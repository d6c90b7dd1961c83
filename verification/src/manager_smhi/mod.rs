//! The forecast client's rule: which points of the provider's document
//! belong to a request.

pub mod errors;
pub mod models;

use crate::manager_smhi::errors::SMHIError;
use crate::manager_smhi::models::ForecastValues;
use crate::timestamps::{date_text, day_number, day_of, civil_date};
use vstd::prelude::*;
use vstd::string::StringExecFns;

verus! {

/// Whether a point belongs to a request made at `date_time`: it lies on the
/// day of the request or on the day after.
pub open spec fn wanted(point: ForecastValues, date_time: i64) -> bool {
    day_of(point.valid_time as int) == day_of(date_time as int) || day_of(point.valid_time as int)
        == day_of(date_time as int) + 1
}

/// The points that belong to a request made at `date_time`, in the order of
/// the document.
pub open spec fn selected(time_series: Seq<ForecastValues>, date_time: i64) -> Seq<ForecastValues> {
    time_series.filter(|point: ForecastValues| wanted(point, date_time))
}

/// The words of the error for a document without a point for the request:
/// they name the day of the request where the calendar has it.
pub open spec fn no_forecast(date_time: i64) -> Seq<char> {
    match civil_date(date_time) {
        Some(day) => "No forecast found for "@ + day,
        None => "No forecast found for "@,
    }
}

/// The forecast for a request made at `date_time`: the points of the
/// provider's document that lie on that day or the next.  A document
/// without such a point is an error of the provider.
pub fn new_forecast(date_time: i64, time_series: &Vec<ForecastValues>) -> (r: Result<
    Vec<ForecastValues>,
    SMHIError,
>)
    ensures
        match r {
            Ok(forecast) => forecast@ == selected(time_series@, date_time) && forecast@.len() > 0,
            Err(e) => e matches SMHIError::SMHI(words) && words@ == no_forecast(date_time)
                && selected(time_series@, date_time).len() == 0,
        },
{
    let date = day_number(date_time);
    let mut forecast: Vec<ForecastValues> = Vec::new();
    let mut i: usize = 0;
    let ghost keep = |point: ForecastValues| wanted(point, date_time);
    proof {
        assert(time_series@.take(0) =~= Seq::<ForecastValues>::empty());
        reveal(Seq::filter);
    }
    while i < time_series.len()
        invariant
            0 <= i <= time_series.len(),
            date == day_of(date_time as int),
            keep == |point: ForecastValues| wanted(point, date_time),
            forecast@ == time_series@.take(i as int).filter(keep),
        decreases time_series.len() - i,
    {
        let point = time_series[i];
        proof {
            assert(time_series@.take(i as int + 1) =~= time_series@.take(i as int).push(point));
            time_series@.take(i as int).lemma_filter_push(point, keep);
        }
        let day = day_number(point.valid_time);
        if day == date || (date < i64::MAX && day == date + 1) {
            forecast.push(point);
        }
        i += 1;
    }
    proof {
        assert(time_series@.take(i as int) =~= time_series@);
    }
    if forecast.len() == 0 {
        let words = match date_text(date_time) {
            Some(day) => String::from_str("No forecast found for ").concat(day.as_str()),
            None => String::from_str("No forecast found for "),
        };
        Err(SMHIError::SMHI(words))
    } else {
        Ok(forecast)
    }
}

} // verus!
