use weather_station::manager_db::DB;
use weather_station::reading::Reading;

fn reading(value: f64) -> Reading {
    Reading::from_bits(value.to_bits()).unwrap()
}

fn number(reading: Reading) -> f64 {
    f64::from_bits(reading.to_bits())
}

// 2024-01-01T00:00:00Z
const NEW_YEAR: i64 = 1_704_067_200;

fn store() -> DB {
    let mut db = DB::new(30);
    db.insert_observation_record("A", NEW_YEAR, reading(-1.5), None, None).unwrap();
    db.insert_forecast_record("A", NEW_YEAR + 3_600, reading(2.5), Some(reading(4.0)), Some(90), None, None, None)
        .unwrap();
    db
}

#[test]
fn history_between_rfc3339_bounds() {
    let db = store();
    let series = db.get_temp_history("A", "2024-01-01T00:00:00Z", "2024-01-01T01:00:00Z").unwrap();
    assert_eq!(series.len(), 1);
    assert_eq!((series[0].x, number(series[0].y)), (NEW_YEAR, -1.5));
}

#[test]
fn bounds_with_an_offset_denote_the_same_instant() {
    let db = store();
    let series = db.get_temp_history("A", "2024-01-01T02:00:00+01:00", "2024-01-01T03:00:00+01:00").unwrap();
    assert_eq!(series.len(), 1);
    assert_eq!((series[0].x, number(series[0].y)), (NEW_YEAR + 3_600, 2.5));
}

#[test]
fn fallback_point_stands_at_the_parsed_lower_bound() {
    let db = store();
    let series = db.get_temp_history("A", "2024-02-01T00:00:00Z", "2024-02-02T00:00:00Z").unwrap();
    assert_eq!(series.len(), 1);
    assert_eq!((series[0].x, number(series[0].y)), (1_706_745_600, 2.5));
}

#[test]
fn history_refuses_a_bad_lower_bound() {
    let db = store();
    let refused = db.get_temp_history("A", "yesterday", "2024-01-01T01:00:00Z");
    assert_eq!(refused.unwrap_err().0, "premature end of input");
}

#[test]
fn history_refuses_a_bad_upper_bound() {
    let db = store();
    let refused = db.get_temp_history("A", "2024-01-01T00:00:00Z", "2024-01-01 01:00:00 o'clock");
    assert_eq!(refused.unwrap_err().0, "input contains invalid characters");
}

#[test]
fn bad_lower_bound_is_reported_before_bad_upper_bound() {
    let db = store();
    let refused = db.get_min_max("A", "2024-13-01T00:00:00Z", "tomorrow");
    assert_eq!(refused.unwrap_err().0, "input is out of range");
}

#[test]
fn forecast_between_rfc3339_bounds() {
    let db = store();
    let forecast = db.get_forecast("A", "2024-01-01T00:30:00Z", "2024-01-01T02:00:00Z").unwrap();
    assert_eq!(forecast.len(), 1);
    assert_eq!(forecast[0].date_time, NEW_YEAR + 3_600);
    assert_eq!(forecast[0].humidity, Some(90));
    assert!(db.get_forecast("A", "", "2024-01-01T02:00:00Z").is_err());
}

#[test]
fn min_max_between_rfc3339_bounds() {
    let db = store();
    let answer = db.get_min_max("A", "2024-01-01T00:00:00Z", "2024-01-01T02:00:00Z").unwrap().unwrap();
    assert_eq!((number(answer.min), number(answer.max)), (-1.5, 2.5));
    let none = db.get_min_max("B", "2024-01-01T00:00:00Z", "2024-01-01T02:00:00Z").unwrap();
    assert!(none.is_none());
    assert!(db.get_min_max("A", "2024-01-01T00:00:00Z", "2024-01-01").is_err());
}

#[test]
fn two_windows_between_rfc3339_bounds() {
    let mut db = store();
    db.insert_observation_record("A", NEW_YEAR - 86_400 + 60, reading(-9.0), None, None).unwrap();
    let both = db.get_two_window_min_max("A", "2024-01-01T00:00:00Z", "2024-01-01T02:00:00Z").unwrap();
    assert_eq!(number(both.yesterday_min), -9.0);
    assert_eq!(number(both.yesterday_max), -9.0);
    assert_eq!(number(both.today_min), -1.5);
    assert_eq!(number(both.today_max), 2.5);
    assert!(db.get_two_window_min_max("A", "now", "2024-01-01T02:00:00Z").is_err());
}
