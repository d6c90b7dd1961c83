use weather_station::manager_db::models::{DataItem, ForecastRecord, MinMax};
use weather_station::manager_db::DB;
use weather_station::reading::Reading;

const DAY: i64 = 86_400;
const HOUR: i64 = 3_600;
const T0: i64 = 1_700_000_000;

fn reading(value: f64) -> Reading {
    Reading::from_bits(value.to_bits()).unwrap()
}

fn number(reading: Reading) -> f64 {
    f64::from_bits(reading.to_bits())
}

fn points(series: &[DataItem<Reading>]) -> Vec<(i64, f64)> {
    series.iter().map(|p| (p.x, number(p.y))).collect()
}

fn pair(answer: Option<MinMax>) -> Option<(f64, f64)> {
    answer.map(|m| (number(m.min), number(m.max)))
}

#[test]
fn new_store_is_empty() {
    let db = DB::new(30);
    assert_eq!(db.len(), 0);
}

#[test]
fn source_without_rows_has_no_history() {
    let mut db = DB::new(30);
    db.insert_observation_record("B", T0, reading(5.0), None, None).unwrap();
    assert!(db.temp_history("A", T0 - 10, T0 + 10).is_empty());
    assert!(db.temp_history("A", 0, 0).is_empty());
}

#[test]
fn source_without_rows_has_no_min_max() {
    let mut db = DB::new(30);
    db.insert_observation_record("B", T0, reading(5.0), None, None).unwrap();
    assert!(db.min_max("A", T0 - 10, T0 + 10).is_none());
}

#[test]
fn observation_is_found_in_its_window() {
    let mut db = DB::new(30);
    assert!(db.insert_observation_record("A", T0, reading(20.0), None, None).is_ok());
    let series = db.temp_history("A", T0 - 10, T0 + 10);
    assert_eq!(points(&series), vec![(T0, 20.0)]);
}

#[test]
fn history_is_ascending_whatever_the_order_of_writes() {
    let mut db = DB::new(30);
    db.insert_observation_record("A", T0 + 20, reading(3.0), None, None).unwrap();
    db.insert_observation_record("A", T0, reading(1.0), None, None).unwrap();
    db.insert_observation_record("B", T0 + 5, reading(9.0), None, None).unwrap();
    db.insert_observation_record("A", T0 + 10, reading(2.0), None, None).unwrap();
    let series = db.temp_history("A", T0, T0 + 30);
    assert_eq!(points(&series), vec![(T0, 1.0), (T0 + 10, 2.0), (T0 + 20, 3.0)]);
}

#[test]
fn window_takes_its_lower_bound_and_leaves_its_upper_bound() {
    let mut db = DB::new(30);
    db.insert_observation_record("A", T0, reading(1.0), None, None).unwrap();
    db.insert_observation_record("A", T0 + 10, reading(2.0), None, None).unwrap();
    assert_eq!(points(&db.temp_history("A", T0, T0 + 10)), vec![(T0, 1.0)]);
    assert_eq!(points(&db.temp_history("A", T0 + 10, T0 + 11)), vec![(T0 + 10, 2.0)]);
}

#[test]
fn empty_window_gives_last_known_value_at_lower_bound() {
    let mut db = DB::new(30);
    db.insert_observation_record("A", T0, reading(18.5), None, None).unwrap();
    db.insert_observation_record("A", T0 + 100, reading(19.5), None, None).unwrap();
    db.insert_observation_record("B", T0 + 200, reading(-4.0), None, None).unwrap();
    let later = db.temp_history("A", T0 + 1_000, T0 + 2_000);
    assert_eq!(points(&later), vec![(T0 + 1_000, 19.5)]);
    let earlier = db.temp_history("A", T0 - 2_000, T0 - 1_000);
    assert_eq!(points(&earlier), vec![(T0 - 2_000, 19.5)]);
    let reversed = db.temp_history("A", T0 + 50, T0);
    assert_eq!(points(&reversed), vec![(T0 + 50, 19.5)]);
}

#[test]
fn second_observation_for_one_instant_is_refused() {
    let mut db = DB::new(30);
    db.insert_observation_record("A", T0, reading(20.0), Some(40), None).unwrap();
    let refused = db.insert_observation_record("A", T0, reading(21.0), None, None);
    assert_eq!(refused.unwrap_err().0, "a record for this source and instant exists");
    assert_eq!(db.len(), 1);
    assert_eq!(points(&db.temp_history("A", T0, T0 + 1)), vec![(T0, 20.0)]);
    assert!(db.insert_observation_record("B", T0, reading(21.0), None, None).is_ok());
    assert_eq!(db.len(), 2);
}

#[test]
fn second_forecast_replaces_first() {
    let mut db = DB::new(30);
    db.insert_forecast_record("smhi", T0, reading(1.5), Some(reading(3.0)), Some(80), Some(1), Some(2), Some(3))
        .unwrap();
    db.insert_forecast_record("smhi", T0, reading(-2.5), None, Some(70), Some(8), None, Some(0)).unwrap();
    assert_eq!(db.len(), 1);
    let forecast = db.forecast("smhi", T0, T0 + 1);
    assert_eq!(
        forecast,
        vec![ForecastRecord {
            date_time: T0,
            temperature: Some(reading(-2.5)),
            wind_speed: None,
            humidity: Some(70),
            lcc_mean: Some(8),
            mcc_mean: None,
            hcc_mean: Some(0),
        }]
    );
}

#[test]
fn forecast_keeps_the_perceived_temperature_of_the_row() {
    let mut db = DB::new(30);
    db.insert_observation_record("A", T0, reading(20.0), Some(40), Some(reading(19.0))).unwrap();
    db.insert_forecast_record("A", T0, reading(21.0), Some(reading(2.0)), None, None, None, None).unwrap();
    assert_eq!(db.len(), 1);
    assert_eq!(points(&db.temp_history("A", T0, T0 + 1)), vec![(T0, 21.0)]);
    assert_eq!(db.get_wind_and_humidity("A", T0).unwrap_err().0, "wind speed or humidity missing");
}

#[test]
fn forecast_query_has_no_fallback() {
    let mut db = DB::new(30);
    db.insert_forecast_record("smhi", T0, reading(1.5), None, None, None, None, None).unwrap();
    assert!(db.forecast("smhi", T0 + 1, T0 + 100).is_empty());
    assert!(db.forecast("other", T0, T0 + 1).is_empty());
}

#[test]
fn forecasts_come_in_the_order_of_their_instants() {
    let mut db = DB::new(30);
    db.insert_forecast_record("smhi", T0 + 2 * HOUR, reading(3.0), None, None, None, None, None).unwrap();
    db.insert_forecast_record("smhi", T0, reading(1.0), None, None, None, None, None).unwrap();
    db.insert_forecast_record("smhi", T0 + HOUR, reading(2.0), None, None, None, None, None).unwrap();
    let instants: Vec<i64> = db.forecast("smhi", T0, T0 + DAY).iter().map(|f| f.date_time).collect();
    assert_eq!(instants, vec![T0, T0 + HOUR, T0 + 2 * HOUR]);
}

#[test]
fn min_max_of_a_window() {
    let mut db = DB::new(30);
    db.insert_observation_record("A", T0, reading(4.0), None, None).unwrap();
    db.insert_observation_record("A", T0 + 10, reading(-7.25), None, None).unwrap();
    db.insert_observation_record("A", T0 + 20, reading(12.5), None, None).unwrap();
    db.insert_observation_record("A", T0 + 30, reading(99.0), None, None).unwrap();
    db.insert_observation_record("B", T0 + 15, reading(-50.0), None, None).unwrap();
    assert_eq!(pair(db.min_max("A", T0, T0 + 30)), Some((-7.25, 12.5)));
    assert_eq!(pair(db.min_max("A", T0 + 20, T0 + 21)), Some((12.5, 12.5)));
}

#[test]
fn min_max_of_an_empty_window_is_the_last_known_value() {
    let mut db = DB::new(30);
    db.insert_observation_record("A", T0, reading(4.0), None, None).unwrap();
    db.insert_observation_record("A", T0 + 10, reading(-7.25), None, None).unwrap();
    assert_eq!(pair(db.min_max("A", T0 + 100, T0 + 200)), Some((-7.25, -7.25)));
}

#[test]
fn two_windows_are_two_queries_one_day_apart() {
    let mut db = DB::new(30);
    db.insert_observation_record("A", T0 - DAY, reading(1.0), None, None).unwrap();
    db.insert_observation_record("A", T0 - DAY + HOUR, reading(-3.0), None, None).unwrap();
    db.insert_observation_record("A", T0, reading(10.0), None, None).unwrap();
    db.insert_observation_record("A", T0 + HOUR, reading(14.0), None, None).unwrap();
    let both = db.two_window_min_max("A", T0, T0 + 2 * HOUR);
    assert_eq!(number(both.yesterday_min), -3.0);
    assert_eq!(number(both.yesterday_max), 1.0);
    assert_eq!(number(both.today_min), 10.0);
    assert_eq!(number(both.today_max), 14.0);
    let today = db.min_max("A", T0, T0 + 2 * HOUR).unwrap();
    let yesterday = db.min_max("A", T0 - DAY, T0 - DAY + 2 * HOUR).unwrap();
    assert_eq!((both.today_min, both.today_max), (today.min, today.max));
    assert_eq!((both.yesterday_min, both.yesterday_max), (yesterday.min, yesterday.max));
}

#[test]
fn empty_half_of_two_windows_is_zero_without_fallback() {
    let mut db = DB::new(30);
    db.insert_observation_record("A", T0, reading(10.0), None, None).unwrap();
    let both = db.two_window_min_max("A", T0, T0 + HOUR);
    assert_eq!(number(both.yesterday_min), 0.0);
    assert_eq!(number(both.yesterday_max), 0.0);
    assert_eq!(number(both.today_min), 10.0);
    assert_eq!(number(both.today_max), 10.0);
    let none = DB::new(30).two_window_min_max("A", T0, T0 + HOUR);
    assert_eq!(number(none.today_min), 0.0);
    assert_eq!(number(none.today_max), 0.0);
}

#[test]
fn wind_and_humidity_of_the_most_recent_row_in_two_hours() {
    let mut db = DB::new(30);
    db.insert_forecast_record("smhi", T0 - 3 * HOUR, reading(1.0), Some(reading(9.0)), Some(10), None, None, None)
        .unwrap();
    db.insert_forecast_record("smhi", T0 - HOUR, reading(1.0), Some(reading(4.5)), Some(55), None, None, None)
        .unwrap();
    db.insert_forecast_record("smhi", T0, reading(1.0), Some(reading(6.5)), Some(60), None, None, None).unwrap();
    db.insert_forecast_record("smhi", T0 + 1, reading(1.0), Some(reading(7.5)), Some(65), None, None, None)
        .unwrap();
    let at = db.get_wind_and_humidity("smhi", T0).unwrap().unwrap();
    assert_eq!((number(at.0), at.1), (6.5, 60));
    let before = db.get_wind_and_humidity("smhi", T0 - 1).unwrap().unwrap();
    assert_eq!((number(before.0), before.1), (4.5, 55));
}

#[test]
fn wind_and_humidity_look_back_less_than_two_hours() {
    let mut db = DB::new(30);
    db.insert_forecast_record("smhi", T0, reading(1.0), Some(reading(6.5)), Some(60), None, None, None).unwrap();
    assert!(db.get_wind_and_humidity("smhi", T0 + 2 * HOUR - 1).unwrap().is_some());
    assert!(db.get_wind_and_humidity("smhi", T0 + 2 * HOUR).unwrap().is_none());
    assert!(db.get_wind_and_humidity("smhi", T0 - 1).unwrap().is_none());
    assert!(db.get_wind_and_humidity("other", T0).unwrap().is_none());
}

#[test]
fn wind_and_humidity_at_the_ends_of_time() {
    let mut db = DB::new(30);
    db.insert_forecast_record("smhi", i64::MAX, reading(1.0), Some(reading(6.5)), Some(60), None, None, None)
        .unwrap();
    db.insert_forecast_record("smhi", i64::MIN, reading(1.0), Some(reading(2.5)), Some(20), None, None, None)
        .unwrap();
    assert_eq!(db.get_wind_and_humidity("smhi", i64::MAX).unwrap().unwrap().1, 60);
    assert_eq!(db.get_wind_and_humidity("smhi", i64::MIN).unwrap().unwrap().1, 20);
}

#[test]
fn truncate_removes_only_rows_older_than_the_age() {
    let mut db = DB::new(1);
    let now = T0;
    db.insert_observation_record("A", now - 2 * DAY, reading(1.0), None, None).unwrap();
    db.insert_observation_record("A", now - HOUR, reading(2.0), None, None).unwrap();
    db.truncate_table(now);
    assert_eq!(db.len(), 1);
    assert_eq!(points(&db.temp_history("A", now - 3 * DAY, now)), vec![(now - HOUR, 2.0)]);
}

#[test]
fn truncate_keeps_a_row_exactly_at_the_age() {
    let mut db = DB::new(1);
    db.insert_observation_record("A", T0 - DAY - 1, reading(1.0), None, None).unwrap();
    db.insert_observation_record("B", T0 - DAY, reading(2.0), None, None).unwrap();
    db.insert_observation_record("A", T0 - DAY, reading(3.0), None, None).unwrap();
    db.truncate_table(T0);
    assert_eq!(db.len(), 2);
    assert_eq!(points(&db.temp_history("A", T0 - DAY, T0)), vec![(T0 - DAY, 3.0)]);
    assert_eq!(points(&db.temp_history("B", T0 - DAY, T0)), vec![(T0 - DAY, 2.0)]);
}

#[test]
fn truncate_with_extreme_ages() {
    let mut db = DB::new(i64::MAX);
    db.insert_observation_record("A", i64::MIN, reading(1.0), None, None).unwrap();
    db.truncate_table(i64::MAX);
    assert_eq!(db.len(), 1);
    let mut db = DB::new(i64::MIN);
    db.insert_observation_record("A", i64::MAX, reading(1.0), None, None).unwrap();
    db.truncate_table(i64::MIN);
    assert_eq!(db.len(), 0);
    let mut db = DB::new(-1);
    db.insert_observation_record("A", T0, reading(1.0), None, None).unwrap();
    db.insert_observation_record("A", T0 + DAY, reading(1.0), None, None).unwrap();
    db.truncate_table(T0);
    assert_eq!(db.len(), 1);
}

#[test]
fn truncate_of_an_empty_store() {
    let mut db = DB::new(7);
    db.truncate_table(T0);
    assert_eq!(db.len(), 0);
}
