use weather_station::errors::{ConfigError, TempError, UnrecoverableError};
use weather_station::initialization::config_path;
use weather_station::manager_db::errors::DBError;
use weather_station::manager_smhi::errors::SMHIError;

fn args(list: &[&str]) -> Vec<String> {
    list.iter().map(|a| a.to_string()).collect()
}

#[test]
fn path_follows_the_flag() {
    let path = config_path(&args(&["weather", "--config=/etc/weather.toml"])).unwrap();
    assert_eq!(path, "/etc/weather.toml");
}

#[test]
fn first_argument_with_the_flag_counts() {
    let path = config_path(&args(&["--verbose", "--config=a.toml", "--config=b.toml"])).unwrap();
    assert_eq!(path, "a.toml");
}

#[test]
fn path_may_be_empty_or_hold_more_equal_signs() {
    assert_eq!(config_path(&args(&["--config="])).unwrap(), "");
    assert_eq!(config_path(&args(&["--config=a=b.toml"])).unwrap(), "a=b.toml");
    assert_eq!(config_path(&args(&["--config=\u{e5}ke/v\u{e4}der.toml"])).unwrap(), "\u{e5}ke/v\u{e4}der.toml");
}

#[test]
fn arguments_without_the_flag_are_an_error() {
    for list in [&[][..], &["weather"][..], &["--config", "a.toml"][..], &["-config=a.toml", " --config=a.toml"][..]] {
        let refused = config_path(&args(list)).unwrap_err();
        assert_eq!(refused.0, "missing --config=<config_path>");
    }
}

#[test]
fn errors_print_their_name_before_the_reason() {
    assert_eq!(DBError::new("no such table").to_text(), "DBError: no such table");
    assert_eq!(ConfigError::new("missing file").to_text(), "ConfigError: missing file");
    assert_eq!(TempError::new("status code: 500").to_text(), "TempError: status code: 500");
    assert_eq!(UnrecoverableError("disk full".to_string()).to_text(), "UnrecoverableError: disk full");
    assert_eq!(SMHIError::SMHI("no answer".to_string()).to_text(), "SMHIError::SMHI: no answer");
    assert_eq!(SMHIError::Document("bad shape".to_string()).to_text(), "SMHIError::Document: bad shape");
}

#[test]
fn unrecoverable_error_carries_the_line_of_its_cause() {
    let from_store = UnrecoverableError::from_db_error(&DBError::new("locked"));
    assert_eq!(from_store.0, "DBError: locked");
    let from_config = UnrecoverableError::from_config_error(&ConfigError::new("missing file"));
    assert_eq!(from_config.to_text(), "UnrecoverableError: ConfigError: missing file");
}
