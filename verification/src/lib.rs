//! Time-series storage and collection rules of a small weather station.

pub mod errors;
pub mod initialization;
pub mod manager_db;
pub mod manager_forecast;
pub mod manager_smhi;
pub mod manager_temperature;
pub mod reading;
pub mod timestamps;
