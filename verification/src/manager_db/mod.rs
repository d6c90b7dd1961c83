//! The time-series store: one table of weather rows, identified by source
//! and instant, with windowed queries over it.
//!
//! Windows are half open: the lower bound belongs to the window, the upper
//! bound does not.  Instants are whole seconds since the epoch.

pub mod errors;
pub mod laws;
pub mod models;

use crate::manager_db::errors::DBError;
use crate::manager_db::models::{
    DataItem, ForecastRecord, MinMax, Row, TwoDayMinMax, WeatherRecord,
};
use crate::reading::Reading;
use crate::timestamps::{bounds, parse_bounds, LOOKBACK_SECONDS, SECONDS_PER_DAY};
use vstd::prelude::*;

verus! {

/// Whether a row belongs to `source` and lies in the window `[from, to)`.
pub open spec fn in_window(row: Row, source: Seq<char>, from: int, to: int) -> bool {
    row.source == source && from <= row.timestamp < to
}

/// The rows of `source` in the window `[from, to)`, in the order of the store.
pub open spec fn window(rows: Seq<Row>, source: Seq<char>, from: int, to: int) -> Seq<Row> {
    rows.filter(|row: Row| in_window(row, source, from, to))
}

/// All rows of `source`, in the order of the store.
pub open spec fn of_source(rows: Seq<Row>, source: Seq<char>) -> Seq<Row> {
    rows.filter(|row: Row| row.source == source)
}

/// Whether the store holds a row for `source` at `timestamp`.
pub open spec fn holds(rows: Seq<Row>, source: Seq<char>, timestamp: int) -> bool {
    exists|i: int| 0 <= i < rows.len() && is_key_of(#[trigger] rows[i], source, timestamp)
}

/// Whether a row is the one that `source` and `timestamp` identify.
pub open spec fn is_key_of(row: Row, source: Seq<char>, timestamp: int) -> bool {
    row.source == source && row.timestamp == timestamp
}

/// Rows stand in the order of their instants, earliest first.
pub open spec fn ordered(rows: Seq<Row>) -> bool {
    forall|i: int, j: int|
        #![trigger rows[i], rows[j]]
        0 <= i < j < rows.len() ==> rows[i].timestamp <= rows[j].timestamp
}

/// No two rows share both source and instant.
pub open spec fn distinct(rows: Seq<Row>) -> bool {
    forall|i: int, j: int|
        #![trigger rows[i], rows[j]]
        0 <= i < j < rows.len() ==> !is_key_of(rows[i], rows[j].source, rows[j].timestamp as int)
}

/// The most recent row of `source`, where it has any.
pub open spec fn last_known(rows: Seq<Row>, source: Seq<char>) -> Option<Row> {
    let all = of_source(rows, source);
    if all.len() > 0 {
        Some(all.last())
    } else {
        None
    }
}

/// The temperature points of some rows, in their order.
pub open spec fn points(rows: Seq<Row>) -> Seq<DataItem<Reading>> {
    rows.map_values(|row: Row| row.point())
}

/// The forecasts of some rows, in their order.
pub open spec fn forecasts(rows: Seq<Row>) -> Seq<ForecastRecord> {
    rows.map_values(|row: Row| row.forecast())
}

/// The temperature history of `source` over `[from, to)`: the points of the
/// window or, where the window is empty, the last known temperature of the
/// source as one point at `from`; nothing where the source has no row.
pub open spec fn history(rows: Seq<Row>, source: Seq<char>, from: i64, to: i64) -> Seq<
    DataItem<Reading>,
> {
    let inside = window(rows, source, from as int, to as int);
    if inside.len() > 0 {
        points(inside)
    } else {
        match last_known(rows, source) {
            Some(row) => seq![DataItem { x: from, y: row.temperature }],
            None => Seq::empty(),
        }
    }
}

/// The lowest temperature of some rows; the reading of zero where there is
/// no row.
pub open spec fn lowest(rows: Seq<Row>) -> Reading
    decreases rows.len(),
{
    if rows.len() == 0 {
        Reading::nought()
    } else if rows.len() == 1 {
        rows[0].temperature
    } else {
        let rest = lowest(rows.drop_last());
        if rows.last().temperature@ < rest@ {
            rows.last().temperature
        } else {
            rest
        }
    }
}

/// The highest temperature of some rows; the reading of zero where there is
/// no row.
pub open spec fn highest(rows: Seq<Row>) -> Reading
    decreases rows.len(),
{
    if rows.len() == 0 {
        Reading::nought()
    } else if rows.len() == 1 {
        rows[0].temperature
    } else {
        let rest = highest(rows.drop_last());
        if rows.last().temperature@ > rest@ {
            rows.last().temperature
        } else {
            rest
        }
    }
}

/// The lowest and highest temperature of `source` over `[from, to)`.  Where
/// the window is empty, both are the last known temperature of the source;
/// where the source has no row, there is no answer.
pub open spec fn min_max(rows: Seq<Row>, source: Seq<char>, from: int, to: int) -> Option<MinMax> {
    let inside = window(rows, source, from, to);
    if inside.len() > 0 {
        Some(MinMax { min: lowest(inside), max: highest(inside) })
    } else {
        match last_known(rows, source) {
            Some(row) => Some(MinMax { min: row.temperature, max: row.temperature }),
            None => None,
        }
    }
}

/// The lowest and highest temperature of `source` over `[from, to)` and over
/// the window one day earlier.  An empty window gives zero for both of its
/// values.
pub open spec fn two_window_min_max(rows: Seq<Row>, source: Seq<char>, from: int, to: int) -> TwoDayMinMax {
    let today = window(rows, source, from, to);
    let yesterday = window(rows, source, from - SECONDS_PER_DAY, to - SECONDS_PER_DAY);
    TwoDayMinMax {
        yesterday_min: lowest(yesterday),
        yesterday_max: highest(yesterday),
        today_min: lowest(today),
        today_max: highest(today),
    }
}

/// The most recent row of `source` in the two hours that end with `as_of`,
/// `as_of` itself included.
pub open spec fn last_in_lookback(rows: Seq<Row>, source: Seq<char>, as_of: int) -> Option<Row> {
    let inside = window(rows, source, as_of - LOOKBACK_SECONDS + 1, as_of + 1);
    if inside.len() > 0 {
        Some(inside.last())
    } else {
        None
    }
}

/// The words of the error for a row that lacks wind speed or humidity.
pub open spec fn missing_wind_or_humidity() -> Seq<char> {
    "wind speed or humidity missing"@
}

/// Where a row for the instant `timestamp` enters the store: behind every
/// row that is not later.
pub open spec fn rank(rows: Seq<Row>, timestamp: int) -> int {
    rows.filter(|row: Row| row.timestamp <= timestamp).len() as int
}

/// Where the row for `source` at `timestamp` stands in the store.
pub open spec fn position(rows: Seq<Row>, source: Seq<char>, timestamp: int) -> int {
    choose|i: int| 0 <= i < rows.len() && is_key_of(#[trigger] rows[i], source, timestamp)
}

/// The row that an observation writes.
pub open spec fn observation(
    source: Seq<char>,
    timestamp: i64,
    temperature: Reading,
    humidity: Option<u8>,
    perceived_temperature: Option<Reading>,
) -> Row {
    Row {
        source,
        timestamp,
        temperature,
        perceived_temperature,
        humidity,
        wind_speed: None,
        lcc_mean: None,
        mcc_mean: None,
        hcc_mean: None,
    }
}

/// A row with the values of a forecast in place of its own; source, instant
/// and perceived temperature stay.
pub open spec fn revised(
    row: Row,
    temperature: Reading,
    wind_speed: Option<Reading>,
    humidity: Option<u8>,
    lcc_mean: Option<u8>,
    mcc_mean: Option<u8>,
    hcc_mean: Option<u8>,
) -> Row {
    Row { temperature, wind_speed, humidity, lcc_mean, mcc_mean, hcc_mean, ..row }
}

/// The store after an observation for a source and instant that it does not
/// hold yet.
pub open spec fn observed(
    rows: Seq<Row>,
    source: Seq<char>,
    timestamp: i64,
    temperature: Reading,
    humidity: Option<u8>,
    perceived_temperature: Option<Reading>,
) -> Seq<Row> {
    rows.insert(
        rank(rows, timestamp as int),
        observation(source, timestamp, temperature, humidity, perceived_temperature),
    )
}

/// The store after a forecast: the row for the source and instant is revised
/// where there is one, and a new row enters where there is none.
pub open spec fn upserted(
    rows: Seq<Row>,
    source: Seq<char>,
    timestamp: i64,
    temperature: Reading,
    wind_speed: Option<Reading>,
    humidity: Option<u8>,
    lcc_mean: Option<u8>,
    mcc_mean: Option<u8>,
    hcc_mean: Option<u8>,
) -> Seq<Row> {
    if holds(rows, source, timestamp as int) {
        let at = position(rows, source, timestamp as int);
        rows.update(
            at,
            revised(rows[at], temperature, wind_speed, humidity, lcc_mean, mcc_mean, hcc_mean),
        )
    } else {
        rows.insert(
            rank(rows, timestamp as int),
            revised(
                observation(source, timestamp, temperature, None, None),
                temperature,
                wind_speed,
                humidity,
                lcc_mean,
                mcc_mean,
                hcc_mean,
            ),
        )
    }
}

/// The instant before which rows are too old at `now`, for a store that
/// keeps `days` days.
pub open spec fn cutoff(now: int, days: int) -> int {
    now - days * SECONDS_PER_DAY
}

/// The rows that are not older than `cutoff`.
pub open spec fn retained(rows: Seq<Row>, cutoff: int) -> Seq<Row> {
    rows.filter(|row: Row| row.timestamp >= cutoff)
}

/// The words of the error for an observation whose source and instant the
/// store holds already.
pub open spec fn taken() -> Seq<char> {
    "a record for this source and instant exists"@
}

/// The store.
pub struct DB {
    rows: Vec<WeatherRecord>,
    max_age_in_days: i64,
}

impl View for DB {
    type V = Seq<Row>;

    closed spec fn view(&self) -> Seq<Row> {
        self.rows@.map_values(|record: WeatherRecord| record@)
    }
}

impl DB {
    /// The invariant of the store: rows in the order of their instants, and
    /// at most one row for a source and an instant.
    pub open spec fn wf(&self) -> bool {
        ordered(self@) && distinct(self@)
    }

    /// The age, in days, beyond which `truncate_table` removes rows.
    pub closed spec fn max_age(&self) -> int {
        self.max_age_in_days as int
    }

    /// An empty store that keeps rows for `max_age_in_days` days.
    pub fn new(max_age_in_days: i64) -> (db: DB)
        ensures
            db.wf(),
            db@ == Seq::<Row>::empty(),
            db.max_age() == max_age_in_days,
    {
        let db = DB { rows: Vec::new(), max_age_in_days };
        assert(db@ =~= Seq::<Row>::empty());
        db
    }

    /// The number of rows in the store.
    pub fn len(&self) -> (n: usize)
        ensures
            n == self@.len(),
    {
        self.rows.len()
    }

    /// The temperature history of `source` over the window whose bounds are
    /// given as RFC 3339 texts.  A bound that is no such text is an error,
    /// with the words of the parser.
    pub fn get_temp_history(&self, source: &str, from: &str, to: &str) -> (r: Result<
        Vec<DataItem<Reading>>,
        DBError,
    >)
        ensures
            match bounds(from@, to@) {
                Ok((lower, upper)) => r matches Ok(series) && series@ == history(
                    self@,
                    source@,
                    lower,
                    upper,
                ),
                Err(words) => r matches Err(e) && e.reason() == words,
            },
    {
        match parse_bounds(from, to) {
            Ok((lower, upper)) => Ok(self.temp_history(source, lower, upper)),
            Err(words) => Err(DBError(words)),
        }
    }

    /// The forecasts of `source` over the window whose bounds are given as
    /// RFC 3339 texts.  A bound that is no such text is an error.
    pub fn get_forecast(&self, source: &str, from: &str, to: &str) -> (r: Result<
        Vec<ForecastRecord>,
        DBError,
    >)
        ensures
            match bounds(from@, to@) {
                Ok((lower, upper)) => r matches Ok(series) && series@ == forecasts(
                    window(self@, source@, lower as int, upper as int),
                ),
                Err(words) => r matches Err(e) && e.reason() == words,
            },
    {
        match parse_bounds(from, to) {
            Ok((lower, upper)) => Ok(self.forecast(source, lower, upper)),
            Err(words) => Err(DBError(words)),
        }
    }

    /// The lowest and highest temperature of `source` over the window whose
    /// bounds are given as RFC 3339 texts; `None` where the source has no
    /// row.  A bound that is no such text is an error.
    pub fn get_min_max(&self, source: &str, from: &str, to: &str) -> (r: Result<
        Option<MinMax>,
        DBError,
    >)
        ensures
            match bounds(from@, to@) {
                Ok((lower, upper)) => r == Ok::<Option<MinMax>, DBError>(
                    min_max(self@, source@, lower as int, upper as int),
                ),
                Err(words) => r matches Err(e) && e.reason() == words,
            },
    {
        match parse_bounds(from, to) {
            Ok((lower, upper)) => Ok(self.min_max(source, lower, upper)),
            Err(words) => Err(DBError(words)),
        }
    }

    /// The lowest and highest temperature of `source` over the window whose
    /// bounds are given as RFC 3339 texts, and over the window one day
    /// earlier.  A bound that is no such text is an error.
    pub fn get_two_window_min_max(&self, source: &str, from: &str, to: &str) -> (r: Result<
        TwoDayMinMax,
        DBError,
    >)
        ensures
            match bounds(from@, to@) {
                Ok((lower, upper)) => r == Ok::<TwoDayMinMax, DBError>(
                    two_window_min_max(self@, source@, lower as int, upper as int),
                ),
                Err(words) => r matches Err(e) && e.reason() == words,
            },
    {
        match parse_bounds(from, to) {
            Ok((lower, upper)) => Ok(self.two_window_min_max(source, lower, upper)),
            Err(words) => Err(DBError(words)),
        }
    }

    /// The temperature history of `source` over `[from, to)`.
    pub fn temp_history(&self, source: &str, from: i64, to: i64) -> (series: Vec<DataItem<Reading>>)
        ensures
            series@ == history(self@, source@, from, to),
    {
        let owner = source.to_owned();
        let found = self.select(&owner, from as i128, to as i128);
        let ghost inside = window(self@, source@, from as int, to as int);
        let mut series: Vec<DataItem<Reading>> = Vec::new();
        if found.len() > 0 {
            let mut k: usize = 0;
            while k < found.len()
                invariant
                    0 <= k <= found.len(),
                    self@.len() == self.rows.len(),
                    found@.len() == inside.len(),
                    forall|n: int|
                        0 <= n < found@.len() ==> 0 <= #[trigger] found@[n] < self@.len()
                            && self@[found@[n] as int] == inside[n],
                    series@ == points(inside.take(k as int)),
                decreases found.len() - k,
            {
                let record = &self.rows[found[k]];
                proof {
                    assert(record@ == inside[k as int]);
                    assert(points(inside.take(k as int + 1)) =~= points(inside.take(k as int)).push(
                        inside[k as int].point(),
                    ));
                }
                series.push(DataItem { x: record.timestamp, y: record.temperature });
                k += 1;
            }
            proof {
                assert(inside.take(k as int) =~= inside);
            }
        } else {
            match self.latest(&owner) {
                Some(at) => {
                    series.push(DataItem { x: from, y: self.rows[at].temperature });
                    assert(series@ =~= history(self@, source@, from, to));
                },
                None => {},
            }
        }
        series
    }

    /// Writes an observation of `source` made at `now`.  The store takes it
    /// unless it holds a row for that source and instant already.
    pub fn insert_observation_record(
        &mut self,
        source: &str,
        now: i64,
        temp: Reading,
        humidity: Option<u8>,
        perceived_temp: Option<Reading>,
    ) -> (r: Result<(), DBError>)
        requires
            old(self).wf(),
        ensures
            final(self).wf(),
            final(self).max_age() == old(self).max_age(),
            match r {
                Ok(()) => !holds(old(self)@, source@, now as int) && final(self)@ == observed(
                    old(self)@,
                    source@,
                    now,
                    temp,
                    humidity,
                    perceived_temp,
                ),
                Err(e) => holds(old(self)@, source@, now as int) && final(self)@ == old(self)@
                    && e.reason() == taken(),
            },
    {
        let owner = source.to_owned();
        match self.find(&owner, now) {
            Some(_) => Err(DBError::new("a record for this source and instant exists")),
            None => {
                let at = self.slot(now);
                let record = WeatherRecord {
                    source: owner,
                    timestamp: now,
                    temperature: temp,
                    perceived_temperature: perceived_temp,
                    humidity,
                    wind_speed: None,
                    lcc_mean: None,
                    mcc_mean: None,
                    hcc_mean: None,
                };
                self.place(at, record);
                Ok(())
            },
        }
    }

    /// Writes a forecast of `source` for the instant `date_time`: the row for
    /// that source and instant takes the new values, or a new row enters.
    pub fn insert_forecast_record(
        &mut self,
        source: &str,
        date_time: i64,
        temp: Reading,
        wind_speed: Option<Reading>,
        humidity: Option<u8>,
        lcc_mean: Option<u8>,
        mcc_mean: Option<u8>,
        hcc_mean: Option<u8>,
    ) -> (r: Result<(), DBError>)
        requires
            old(self).wf(),
        ensures
            final(self).wf(),
            final(self).max_age() == old(self).max_age(),
            r is Ok,
            final(self)@ == upserted(
                old(self)@,
                source@,
                date_time,
                temp,
                wind_speed,
                humidity,
                lcc_mean,
                mcc_mean,
                hcc_mean,
            ),
    {
        let owner = source.to_owned();
        match self.find(&owner, date_time) {
            Some(at) => {
                let kept = self.rows[at].perceived_temperature;
                let ghost before = self@;
                let record = WeatherRecord {
                    source: owner,
                    timestamp: date_time,
                    temperature: temp,
                    perceived_temperature: kept,
                    humidity,
                    wind_speed,
                    lcc_mean,
                    mcc_mean,
                    hcc_mean,
                };
                self.rows.set(at, record);
                proof {
                    lemma_position(before, source@, date_time as int, at as int);
                    assert(self@ =~= before.update(at as int, record@));
                    assert(record@ == revised(
                        before[at as int],
                        temp,
                        wind_speed,
                        humidity,
                        lcc_mean,
                        mcc_mean,
                        hcc_mean,
                    ));
                }
            },
            None => {
                let at = self.slot(date_time);
                let record = WeatherRecord {
                    source: owner,
                    timestamp: date_time,
                    temperature: temp,
                    perceived_temperature: None,
                    humidity,
                    wind_speed,
                    lcc_mean,
                    mcc_mean,
                    hcc_mean,
                };
                self.place(at, record);
            },
        }
        Ok(())
    }

    /// The instant before which rows are too old at `now`.
    pub fn trunc_time(&self, now: i64) -> (limit: i128)
        ensures
            limit == cutoff(now as int, self.max_age()),
    {
        let span: i128 = self.max_age_in_days as i128 * 86_400;
        now as i128 - span
    }

    /// Removes every row that is older at `now` than the age the store keeps.
    pub fn truncate_table(&mut self, now: i64)
        requires
            old(self).wf(),
        ensures
            final(self).wf(),
            final(self).max_age() == old(self).max_age(),
            final(self)@ == retained(old(self)@, cutoff(now as int, old(self).max_age())),
    {
        let limit = self.trunc_time(now);
        let mut k: usize = 0;
        while k < self.rows.len() && (self.rows[k].timestamp as i128) < limit
            invariant
                0 <= k <= self.rows.len(),
                self@.len() == self.rows.len(),
                forall|j: int| 0 <= j < k ==> (#[trigger] self@[j]).timestamp < limit,
            decreases self.rows.len() - k,
        {
            k += 1;
        }
        let ghost before = self@;
        proof {
            assert(k < before.len() ==> before[k as int].timestamp >= limit);
            lemma_retained(before, limit as int, k as int);
        }
        let kept = self.rows.split_off(k);
        self.rows = kept;
        proof {
            assert(self@ =~= before.subrange(k as int, before.len() as int));
        }
    }

    /// The position of the row for `source` at `timestamp`, where the store
    /// holds one.
    fn find(&self, source: &String, timestamp: i64) -> (at: Option<usize>)
        ensures
            match at {
                Some(i) => i < self@.len() && is_key_of(self@[i as int], source@, timestamp as int),
                None => !holds(self@, source@, timestamp as int),
            },
    {
        let mut i: usize = 0;
        while i < self.rows.len()
            invariant
                0 <= i <= self.rows.len(),
                self@.len() == self.rows.len(),
                forall|j: int| 0 <= j < i ==> !is_key_of(#[trigger] self@[j], source@, timestamp as int),
            decreases self.rows.len() - i,
        {
            let record = &self.rows[i];
            assert(record@ == self@[i as int]);
            if record.timestamp == timestamp && record.source == *source {
                return Some(i);
            }
            i += 1;
        }
        None
    }

    /// Where a row for the instant `timestamp` enters.
    fn slot(&self, timestamp: i64) -> (at: usize)
        requires
            ordered(self@),
        ensures
            at == rank(self@, timestamp as int),
            at <= self@.len(),
            forall|j: int| 0 <= j < at ==> (#[trigger] self@[j]).timestamp <= timestamp,
            forall|j: int| at <= j < self@.len() ==> (#[trigger] self@[j]).timestamp > timestamp,
    {
        let mut k: usize = 0;
        while k < self.rows.len() && self.rows[k].timestamp <= timestamp
            invariant
                0 <= k <= self.rows.len(),
                self@.len() == self.rows.len(),
                forall|j: int| 0 <= j < k ==> (#[trigger] self@[j]).timestamp <= timestamp,
            decreases self.rows.len() - k,
        {
            k += 1;
        }
        proof {
            assert(k < self@.len() ==> self@[k as int].timestamp > timestamp);
            lemma_rank(self@, timestamp as int, k as int);
        }
        k
    }

    /// Puts a row with a new key at its place.
    fn place(&mut self, at: usize, record: WeatherRecord)
        requires
            old(self).wf(),
            at <= old(self)@.len(),
            !holds(old(self)@, record@.source, record@.timestamp as int),
            forall|j: int| 0 <= j < at ==> (#[trigger] old(self)@[j]).timestamp <= record@.timestamp,
            forall|j: int|
                at <= j < old(self)@.len() ==> (#[trigger] old(self)@[j]).timestamp > record@.timestamp,
        ensures
            final(self).wf(),
            final(self).max_age() == old(self).max_age(),
            final(self)@ == old(self)@.insert(at as int, record@),
    {
        let ghost before = self@;
        let ghost row = record@;
        self.rows.insert(at, record);
        proof {
            assert(self@ =~= before.insert(at as int, row));
            lemma_insert_keeps_invariant(before, at as int, row);
        }
    }

    /// The lowest and the highest temperature among the rows at `found`,
    /// which are the rows `inside`.
    fn extremes(&self, found: &Vec<usize>, Ghost(inside): Ghost<Seq<Row>>) -> (r: (Reading, Reading))
        requires
            found@.len() == inside.len(),
            forall|n: int|
                0 <= n < found@.len() ==> 0 <= #[trigger] found@[n] < self@.len() && self@[found@[n] as int]
                    == inside[n],
        ensures
            r.0 == lowest(inside),
            r.1 == highest(inside),
    {
        let mut low = Reading::zero();
        let mut high = Reading::zero();
        let mut k: usize = 0;
        assert(self@.len() == self.rows.len());
        while k < found.len()
            invariant
                0 <= k <= found.len(),
                self@.len() == self.rows.len(),
                found@.len() == inside.len(),
                forall|n: int|
                    0 <= n < found@.len() ==> 0 <= #[trigger] found@[n] < self@.len()
                        && self@[found@[n] as int] == inside[n],
                low == lowest(inside.take(k as int)),
                high == highest(inside.take(k as int)),
            decreases found.len() - k,
        {
            let record = &self.rows[found[k]];
            proof {
                assert(record@ == inside[k as int]);
                assert(inside.take(k as int + 1).drop_last() =~= inside.take(k as int));
                assert(inside.take(k as int + 1).last() == inside[k as int]);
            }
            if k == 0 {
                low = record.temperature;
                high = record.temperature;
            } else {
                if record.temperature.below(&low) {
                    low = record.temperature;
                }
                if high.below(&record.temperature) {
                    high = record.temperature;
                }
            }
            k += 1;
        }
        proof {
            assert(inside.take(k as int) =~= inside);
        }
        (low, high)
    }

    /// The lowest and highest temperature of `source` over `[from, to)`, with
    /// the last known temperature in place of an empty window.
    pub fn min_max(&self, source: &str, from: i64, to: i64) -> (r: Option<MinMax>)
        ensures
            r == min_max(self@, source@, from as int, to as int),
    {
        let owner = source.to_owned();
        let found = self.select(&owner, from as i128, to as i128);
        if found.len() > 0 {
            let (min, max) = self.extremes(
                &found,
                Ghost(window(self@, source@, from as int, to as int)),
            );
            Some(MinMax { min, max })
        } else {
            match self.latest(&owner) {
                Some(at) => {
                    let known = self.rows[at].temperature;
                    Some(MinMax { min: known, max: known })
                },
                None => None,
            }
        }
    }

    /// The lowest and highest temperature of `source` over `[from, to)` and
    /// over the window one day earlier.
    pub fn two_window_min_max(&self, source: &str, from: i64, to: i64) -> (r: TwoDayMinMax)
        ensures
            r == two_window_min_max(self@, source@, from as int, to as int),
    {
        let owner = source.to_owned();
        let today = self.select(&owner, from as i128, to as i128);
        let (today_min, today_max) = self.extremes(
            &today,
            Ghost(window(self@, source@, from as int, to as int)),
        );
        let yesterday = self.select(
            &owner,
            from as i128 - SECONDS_PER_DAY as i128,
            to as i128 - SECONDS_PER_DAY as i128,
        );
        let (yesterday_min, yesterday_max) = self.extremes(
            &yesterday,
            Ghost(window(self@, source@, from - SECONDS_PER_DAY, to - SECONDS_PER_DAY)),
        );
        TwoDayMinMax { yesterday_min, yesterday_max, today_min, today_max }
    }

    /// The forecasts of `source` over `[from, to)`, earliest first.
    pub fn forecast(&self, source: &str, from: i64, to: i64) -> (series: Vec<ForecastRecord>)
        ensures
            series@ == forecasts(window(self@, source@, from as int, to as int)),
    {
        let owner = source.to_owned();
        let found = self.select(&owner, from as i128, to as i128);
        let ghost inside = window(self@, source@, from as int, to as int);
        let mut series: Vec<ForecastRecord> = Vec::new();
        let mut k: usize = 0;
        assert(forecasts(inside.take(0)) =~= Seq::<ForecastRecord>::empty());
        while k < found.len()
            invariant
                0 <= k <= found.len(),
                self@.len() == self.rows.len(),
                found@.len() == inside.len(),
                forall|n: int|
                    0 <= n < found@.len() ==> 0 <= #[trigger] found@[n] < self@.len()
                        && self@[found@[n] as int] == inside[n],
                series@ == forecasts(inside.take(k as int)),
            decreases found.len() - k,
        {
            let record = &self.rows[found[k]];
            proof {
                assert(record@ == inside[k as int]);
                assert(forecasts(inside.take(k as int + 1)) =~= forecasts(
                    inside.take(k as int),
                ).push(inside[k as int].forecast()));
            }
            series.push(
                ForecastRecord {
                    date_time: record.timestamp,
                    temperature: Some(record.temperature),
                    wind_speed: record.wind_speed,
                    humidity: record.humidity,
                    lcc_mean: record.lcc_mean,
                    mcc_mean: record.mcc_mean,
                    hcc_mean: record.hcc_mean,
                },
            );
            k += 1;
        }
        proof {
            assert(inside.take(k as int) =~= inside);
        }
        series
    }

    /// Wind speed and humidity of the most recent row of `source` in the two
    /// hours that end with `date_time`.  No such row is no answer; a row that
    /// lacks either value is an error.
    pub fn get_wind_and_humidity(&self, source: &str, date_time: i64) -> (r: Result<
        Option<(Reading, u8)>,
        DBError,
    >)
        ensures
            match last_in_lookback(self@, source@, date_time as int) {
                None => r == Ok::<Option<(Reading, u8)>, DBError>(None),
                Some(row) => match (row.wind_speed, row.humidity) {
                    (Some(wind), Some(humidity)) => r == Ok::<Option<(Reading, u8)>, DBError>(
                        Some((wind, humidity)),
                    ),
                    _ => r matches Err(e) && e.reason() == missing_wind_or_humidity(),
                },
            },
    {
        let owner = source.to_owned();
        let found = self.select(
            &owner,
            date_time as i128 - LOOKBACK_SECONDS as i128 + 1,
            date_time as i128 + 1,
        );
        if found.len() == 0 {
            return Ok(None);
        }
        let record = &self.rows[found[found.len() - 1]];
        match (record.wind_speed, record.humidity) {
            (Some(wind), Some(humidity)) => Ok(Some((wind, humidity))),
            _ => Err(DBError::new("wind speed or humidity missing")),
        }
    }

    /// The position of the most recent row of `source`, where it has any.
    fn latest(&self, source: &String) -> (at: Option<usize>)
        ensures
            match at {
                Some(i) => i < self@.len() && last_known(self@, source@) == Some(self@[i as int]),
                None => last_known(self@, source@) is None,
            },
    {
        let found = self.select(source, i64::MIN as i128, i64::MAX as i128 + 1);
        proof {
            lemma_filter_agree(
                self@,
                |row: Row| in_window(row, source@, i64::MIN as int, i64::MAX as int + 1),
                |row: Row| row.source == source@,
            );
        }
        if found.len() > 0 {
            Some(found[found.len() - 1])
        } else {
            None
        }
    }

    /// The positions of the rows of `source` in the window `[from, to)`.
    fn select(&self, source: &String, from: i128, to: i128) -> (found: Vec<usize>)
        ensures
            found@.len() == window(self@, source@, from as int, to as int).len(),
            forall|k: int|
                0 <= k < found@.len() ==> 0 <= #[trigger] found@[k] < self@.len() && self@[found@[k] as int]
                    == window(self@, source@, from as int, to as int)[k],
    {
        let mut found: Vec<usize> = Vec::new();
        let mut i: usize = 0;
        let ghost wanted = |row: Row| in_window(row, source@, from as int, to as int);
        proof {
            assert(self@.take(0) =~= Seq::<Row>::empty());
            reveal(Seq::filter);
        }
        while i < self.rows.len()
            invariant
                0 <= i <= self.rows.len(),
                self@.len() == self.rows.len(),
                wanted == |row: Row| in_window(row, source@, from as int, to as int),
                found@.len() == self@.take(i as int).filter(wanted).len(),
                forall|k: int|
                    0 <= k < found@.len() ==> 0 <= #[trigger] found@[k] < i && self@[found@[k] as int]
                        == self@.take(i as int).filter(wanted)[k],
            decreases self.rows.len() - i,
        {
            let record = &self.rows[i];
            proof {
                assert(self@.take(i as int + 1) =~= self@.take(i as int).push(self@[i as int]));
                self@.take(i as int).lemma_filter_push(self@[i as int], wanted);
                assert(self@[i as int] == record@);
            }
            if record.source == *source && record.timestamp as i128 >= from
                && (record.timestamp as i128) < to {
                found.push(i);
            }
            i += 1;
        }
        proof {
            assert(self@.take(i as int) =~= self@);
        }
        found
    }
}

/// Two tests that agree on every row of a sequence keep the same rows.
pub proof fn lemma_filter_agree(rows: Seq<Row>, p: spec_fn(Row) -> bool, q: spec_fn(Row) -> bool)
    requires
        forall|i: int| 0 <= i < rows.len() ==> p(#[trigger] rows[i]) == q(rows[i]),
    ensures
        rows.filter(p) == rows.filter(q),
    decreases rows.len(),
{
    reveal(Seq::filter);
    if rows.len() > 0 {
        lemma_filter_agree(rows.drop_last(), p, q);
    }
}

/// In an ordered store, the place that splits the rows not later than
/// `timestamp` from the later ones is the rank of `timestamp`.
pub proof fn lemma_rank(rows: Seq<Row>, timestamp: int, at: int)
    requires
        0 <= at <= rows.len(),
        forall|j: int| 0 <= j < at ==> (#[trigger] rows[j]).timestamp <= timestamp,
        forall|j: int| at <= j < rows.len() ==> (#[trigger] rows[j]).timestamp > timestamp,
    ensures
        rank(rows, timestamp) == at,
    decreases rows.len(),
{
    reveal(Seq::filter);
    if rows.len() > 0 {
        if at == rows.len() {
            lemma_rank(rows.drop_last(), timestamp, at - 1);
        } else {
            lemma_rank(rows.drop_last(), timestamp, at);
        }
    }
}

/// In a store without double keys, the row of a key stands at one place only.
pub proof fn lemma_position(rows: Seq<Row>, source: Seq<char>, timestamp: int, at: int)
    requires
        distinct(rows),
        0 <= at < rows.len(),
        is_key_of(rows[at], source, timestamp),
    ensures
        holds(rows, source, timestamp),
        position(rows, source, timestamp) == at,
{
    let found = position(rows, source, timestamp);
    assert(0 <= found < rows.len() && is_key_of(rows[found], source, timestamp));
    if found < at {
        assert(!is_key_of(rows[found], rows[at].source, rows[at].timestamp as int));
    } else if at < found {
        assert(!is_key_of(rows[at], rows[found].source, rows[found].timestamp as int));
    }
}

/// A row with a new key, put between the rows not later and the later
/// ones, leaves the store ordered and without double keys.
pub proof fn lemma_insert_keeps_invariant(rows: Seq<Row>, at: int, row: Row)
    requires
        ordered(rows),
        distinct(rows),
        0 <= at <= rows.len(),
        !holds(rows, row.source, row.timestamp as int),
        forall|j: int| 0 <= j < at ==> (#[trigger] rows[j]).timestamp <= row.timestamp,
        forall|j: int| at <= j < rows.len() ==> (#[trigger] rows[j]).timestamp > row.timestamp,
    ensures
        ordered(rows.insert(at, row)),
        distinct(rows.insert(at, row)),
{
    let after = rows.insert(at, row);
    assert forall|i: int, j: int| 0 <= i < j < after.len() implies (#[trigger] after[i]).timestamp
        <= (#[trigger] after[j]).timestamp by {
        let a = if i < at { i } else { i - 1 };
        let b = if j < at { j } else { j - 1 };
        if i != at && j != at {
            assert(rows[a].timestamp <= rows[b].timestamp);
        } else if i == at {
            assert(rows[b].timestamp > row.timestamp);
        } else {
            assert(rows[a].timestamp <= row.timestamp);
        }
    }
    assert forall|i: int, j: int| 0 <= i < j < after.len() implies !is_key_of(
        #[trigger] after[i],
        (#[trigger] after[j]).source,
        after[j].timestamp as int,
    ) by {
        let a = if i < at { i } else { i - 1 };
        let b = if j < at { j } else { j - 1 };
        if i != at && j != at {
            assert(!is_key_of(rows[a], rows[b].source, rows[b].timestamp as int));
        } else if i == at {
            assert(!is_key_of(rows[b], row.source, row.timestamp as int));
        } else {
            assert(!is_key_of(rows[a], row.source, row.timestamp as int));
        }
    }
}

/// In an ordered store, the rows not older than `cutoff` are the rows from
/// the first such row on.
pub proof fn lemma_retained(rows: Seq<Row>, cutoff: int, at: int)
    requires
        ordered(rows),
        0 <= at <= rows.len(),
        forall|j: int| 0 <= j < at ==> (#[trigger] rows[j]).timestamp < cutoff,
        at < rows.len() ==> rows[at].timestamp >= cutoff,
    ensures
        retained(rows, cutoff) == rows.subrange(at, rows.len() as int),
        ordered(rows.subrange(at, rows.len() as int)),
        distinct(rows) ==> distinct(rows.subrange(at, rows.len() as int)),
    decreases rows.len(),
{
    reveal(Seq::filter);
    let tail = rows.subrange(at, rows.len() as int);
    if rows.len() > 0 {
        let front = rows.drop_last();
        if at == rows.len() {
            lemma_retained(front, cutoff, at - 1);
            assert(front.subrange(at - 1, front.len() as int) =~= Seq::<Row>::empty()) by {
                if at - 1 < front.len() {
                }
            }
        } else {
            assert(rows[at].timestamp <= rows.last().timestamp);
            lemma_retained(front, cutoff, at);
            assert(tail =~= front.subrange(at, front.len() as int).push(rows.last()));
        }
    }
    assert(retained(rows, cutoff) =~= tail);
    assert forall|i: int, j: int| 0 <= i < j < tail.len() implies (#[trigger] tail[i]).timestamp
        <= (#[trigger] tail[j]).timestamp by {
        assert(rows[at + i].timestamp <= rows[at + j].timestamp);
    }
    if distinct(rows) {
        assert forall|i: int, j: int| 0 <= i < j < tail.len() implies !is_key_of(
            #[trigger] tail[i],
            (#[trigger] tail[j]).source,
            tail[j].timestamp as int,
        ) by {
            assert(!is_key_of(rows[at + i], rows[at + j].source, rows[at + j].timestamp as int));
        }
    }
}

} // verus!
