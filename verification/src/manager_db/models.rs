//! The rows of the store and the shapes in which queries answer.

use crate::reading::Reading;
use vstd::prelude::*;

verus! {

/// One point of a series: the instant, in seconds since the epoch, and the
/// value at that instant.
#[derive(Debug, PartialEq, Eq)]
pub struct DataItem<T> {
    pub x: i64,
    pub y: T,
}

/// The lowest and the highest temperature of a window.
#[derive(Clone, Copy, Debug, PartialEq, Eq)]
pub struct MinMax {
    pub min: Reading,
    pub max: Reading,
}

/// The lowest and the highest temperature of a window and of the window of
/// the same length one day earlier.
#[derive(Clone, Copy, Debug, PartialEq, Eq)]
pub struct TwoDayMinMax {
    pub yesterday_min: Reading,
    pub yesterday_max: Reading,
    pub today_min: Reading,
    pub today_max: Reading,
}

/// What the store holds of a forecast for one instant.
#[derive(Clone, Copy, Debug, PartialEq, Eq)]
pub struct ForecastRecord {
    pub date_time: i64,
    pub temperature: Option<Reading>,
    pub wind_speed: Option<Reading>,
    pub humidity: Option<u8>,
    pub lcc_mean: Option<u8>,
    pub mcc_mean: Option<u8>,
    pub hcc_mean: Option<u8>,
}

/// One row of the store.  The source and the instant together identify it.
/// Every write gives a temperature, so a row always has one; the other
/// measurements may be missing.
pub struct WeatherRecord {
    pub source: String,
    pub timestamp: i64,
    pub temperature: Reading,
    pub perceived_temperature: Option<Reading>,
    pub humidity: Option<u8>,
    pub wind_speed: Option<Reading>,
    pub lcc_mean: Option<u8>,
    pub mcc_mean: Option<u8>,
    pub hcc_mean: Option<u8>,
}

/// A row as contracts see it: the source as a sequence of characters.
pub struct Row {
    pub source: Seq<char>,
    pub timestamp: i64,
    pub temperature: Reading,
    pub perceived_temperature: Option<Reading>,
    pub humidity: Option<u8>,
    pub wind_speed: Option<Reading>,
    pub lcc_mean: Option<u8>,
    pub mcc_mean: Option<u8>,
    pub hcc_mean: Option<u8>,
}

impl View for WeatherRecord {
    type V = Row;

    open spec fn view(&self) -> Row {
        Row {
            source: self.source@,
            timestamp: self.timestamp,
            temperature: self.temperature,
            perceived_temperature: self.perceived_temperature,
            humidity: self.humidity,
            wind_speed: self.wind_speed,
            lcc_mean: self.lcc_mean,
            mcc_mean: self.mcc_mean,
            hcc_mean: self.hcc_mean,
        }
    }
}

impl Row {
    /// The point of the temperature series that this row gives.
    pub open spec fn point(self) -> DataItem<Reading> {
        DataItem { x: self.timestamp, y: self.temperature }
    }

    /// The forecast that this row gives.
    pub open spec fn forecast(self) -> ForecastRecord {
        ForecastRecord {
            date_time: self.timestamp,
            temperature: Some(self.temperature),
            wind_speed: self.wind_speed,
            humidity: self.humidity,
            lcc_mean: self.lcc_mean,
            mcc_mean: self.mcc_mean,
            hcc_mean: self.hcc_mean,
        }
    }
}

} // verus!
