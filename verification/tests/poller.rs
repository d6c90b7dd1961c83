use weather_station::errors::TempError;
use weather_station::manager_db::DB;
use weather_station::manager_temperature::{aggregate, Cycle, Poller};
use weather_station::reading::Reading;

const T0: i64 = 1_700_000_000;

fn reading(value: f64) -> Reading {
    Reading::from_bits(value.to_bits()).unwrap()
}

fn number(reading: Reading) -> f64 {
    f64::from_bits(reading.to_bits())
}

fn ok(value: f64) -> Result<Reading, TempError> {
    Ok(reading(value))
}

fn failed(words: &str) -> Result<Reading, TempError> {
    Err(TempError(words.to_string()))
}

#[test]
fn aggregate_is_the_lowest_reading_that_succeeded() {
    assert_eq!(aggregate(&vec![ok(21.5), ok(19.0), ok(20.0)]).map(number), Some(19.0));
    assert_eq!(aggregate(&vec![ok(-3.0), failed("timeout"), ok(-7.5)]).map(number), Some(-7.5));
    assert_eq!(aggregate(&vec![failed("status code: 500"), ok(4.0)]).map(number), Some(4.0));
    assert_eq!(aggregate(&vec![ok(4.0)]).map(number), Some(4.0));
}

#[test]
fn aggregate_of_no_successful_reading_is_nothing() {
    assert!(aggregate(&Vec::new()).is_none());
    assert!(aggregate(&vec![failed("timeout"), failed("status code: 404")]).is_none());
}

#[test]
fn cycle_without_a_value_writes_nothing() {
    let mut db = DB::new(30);
    let mut poller = Poller::new();
    let outcome = poller.run_cycle(&mut db, "A", T0, &vec![failed("timeout")]);
    assert!(matches!(outcome, Cycle::Nothing));
    assert_eq!(db.len(), 0);
    assert!(poller.last_inserted().is_none());
}

#[test]
fn unchanged_value_is_written_once() {
    let mut db = DB::new(30);
    let mut poller = Poller::new();
    let first = poller.run_cycle(&mut db, "A", T0, &vec![ok(20.0)]);
    assert!(matches!(first, Cycle::Written(value) if number(value) == 20.0));
    let series = db.temp_history("A", T0 - 10, T0 + 10);
    assert_eq!(series.len(), 1);
    assert_eq!((series[0].x, number(series[0].y)), (T0, 20.0));
    let second = poller.run_cycle(&mut db, "A", T0 + 5, &vec![ok(20.0)]);
    assert!(matches!(second, Cycle::Unchanged(value) if number(value) == 20.0));
    assert_eq!(db.len(), 1);
    assert_eq!(db.temp_history("A", T0 - 10, T0 + 10).len(), 1);
}

#[test]
fn changed_value_is_written() {
    let mut db = DB::new(30);
    let mut poller = Poller::new();
    poller.run_cycle(&mut db, "A", T0, &vec![ok(20.0), ok(22.0)]);
    let outcome = poller.run_cycle(&mut db, "A", T0 + 60, &vec![ok(21.0), failed("timeout")]);
    assert!(matches!(outcome, Cycle::Written(value) if number(value) == 21.0));
    let back = poller.run_cycle(&mut db, "A", T0 + 120, &vec![ok(20.0)]);
    assert!(matches!(back, Cycle::Written(value) if number(value) == 20.0));
    assert_eq!(db.len(), 3);
    assert_eq!(poller.last_inserted().map(number), Some(20.0));
}

#[test]
fn first_value_of_zero_is_written() {
    let mut db = DB::new(30);
    let mut poller = Poller::new();
    let outcome = poller.run_cycle(&mut db, "A", T0, &vec![ok(0.0)]);
    assert!(matches!(outcome, Cycle::Written(_)));
    assert_eq!(db.len(), 1);
    let again = poller.run_cycle(&mut db, "A", T0 + 60, &vec![ok(-0.0)]);
    assert!(matches!(again, Cycle::Unchanged(_)));
    assert_eq!(db.len(), 1);
}

#[test]
fn new_poller_writes_an_unchanged_value_once_more() {
    let mut db = DB::new(30);
    let mut poller = Poller::new();
    poller.run_cycle(&mut db, "A", T0, &vec![ok(20.0)]);
    let mut restarted = Poller::new();
    let outcome = restarted.run_cycle(&mut db, "A", T0 + 60, &vec![ok(20.0)]);
    assert!(matches!(outcome, Cycle::Written(_)));
    assert_eq!(db.len(), 2);
}

#[test]
fn refused_value_is_remembered() {
    let mut db = DB::new(30);
    db.insert_observation_record("A", T0, reading(1.0), None, None).unwrap();
    let mut poller = Poller::new();
    let outcome = poller.run_cycle(&mut db, "A", T0, &vec![ok(20.0)]);
    match outcome {
        Cycle::Refused(value, e) => {
            assert_eq!(number(value), 20.0);
            assert_eq!(e.0, "a record for this source and instant exists");
        }
        other => panic!("unexpected outcome: {:?}", other),
    }
    assert_eq!(db.len(), 1);
    assert_eq!(poller.last_inserted().map(number), Some(20.0));
    let next = poller.run_cycle(&mut db, "A", T0 + 60, &vec![ok(20.0)]);
    assert!(matches!(next, Cycle::Unchanged(_)));
}
