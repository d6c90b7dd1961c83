//! One point of a forecast.

use crate::reading::Reading;
use vstd::prelude::*;

verus! {

/// What the provider forecasts for one instant.
#[derive(Debug, Clone, Copy, PartialEq, Eq)]
pub struct ForecastValues {
    pub valid_time: i64,
    pub temp: Reading,
    pub wind_speed: Reading,
    pub relative_humidity: u8,
    pub lcc_mean: u8,
    pub mcc_mean: u8,
    pub hcc_mean: u8,
    pub symbol_code: u8,
}

} // verus!
