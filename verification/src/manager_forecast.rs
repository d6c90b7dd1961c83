//! The forecast ingester's rule: every point of a fetched forecast enters
//! the store under the provider's name, in place of an older forecast for
//! the same instant.

use crate::manager_db::models::Row;
use crate::manager_db::{upserted, DB};
use crate::manager_smhi::errors::SMHIError;
use crate::manager_smhi::models::ForecastValues;
use vstd::prelude::*;

verus! {

/// The store after one point of a forecast has entered it under `name`.
pub open spec fn with_point(rows: Seq<Row>, name: Seq<char>, point: ForecastValues) -> Seq<Row> {
    upserted(
        rows,
        name,
        point.valid_time,
        point.temp,
        Some(point.wind_speed),
        Some(point.relative_humidity),
        Some(point.lcc_mean),
        Some(point.mcc_mean),
        Some(point.hcc_mean),
    )
}

/// The store after the points of a forecast have entered it under `name`,
/// one after the other.
pub open spec fn ingested(rows: Seq<Row>, name: Seq<char>, forecast: Seq<ForecastValues>) -> Seq<Row>
    decreases forecast.len(),
{
    if forecast.len() == 0 {
        rows
    } else {
        with_point(ingested(rows, name, forecast.drop_last()), name, forecast.last())
    }
}

/// Writes every point of a forecast into the store under `name`.
pub fn store_forecast(db: &mut DB, name: &str, forecast: &Vec<ForecastValues>)
    requires
        old(db).wf(),
    ensures
        final(db).wf(),
        final(db).max_age() == old(db).max_age(),
        final(db)@ == ingested(old(db)@, name@, forecast@),
{
    let mut i: usize = 0;
    assert(forecast@.take(0) =~= Seq::<ForecastValues>::empty());
    while i < forecast.len()
        invariant
            0 <= i <= forecast.len(),
            db.wf(),
            db.max_age() == old(db).max_age(),
            db@ == ingested(old(db)@, name@, forecast@.take(i as int)),
        decreases forecast.len() - i,
    {
        let point = forecast[i];
        proof {
            assert(forecast@.take(i as int + 1).drop_last() =~= forecast@.take(i as int));
            assert(forecast@.take(i as int + 1).last() == point);
        }
        let _ = db.insert_forecast_record(
            name,
            point.valid_time,
            point.temp,
            Some(point.wind_speed),
            Some(point.relative_humidity),
            Some(point.lcc_mean),
            Some(point.mcc_mean),
            Some(point.hcc_mean),
        );
        i += 1;
    }
    proof {
        assert(forecast@.take(i as int) =~= forecast@);
    }
}

/// One cycle of the ingester: a fetched forecast enters the store under
/// `name`; a failed fetch leaves the store as it is.  Returns the number of
/// points written.
pub fn run_cycle(db: &mut DB, name: &str, fetched: &Result<Vec<ForecastValues>, SMHIError>) -> (written: usize)
    requires
        old(db).wf(),
    ensures
        final(db).wf(),
        final(db).max_age() == old(db).max_age(),
        match fetched {
            Ok(forecast) => final(db)@ == ingested(old(db)@, name@, forecast@) && written
                == forecast@.len(),
            Err(_) => final(db)@ == old(db)@ && written == 0,
        },
{
    match fetched {
        Ok(forecast) => {
            store_forecast(db, name, forecast);
            forecast.len()
        },
        Err(_) => 0,
    }
}

} // verus!
