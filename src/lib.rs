//! Activity trends for online games: day keys, daily averages, weekday and
//! monthly rollups, a least-squares trend line and a forecast along it.

pub mod text;
pub mod date;
pub mod sample;
pub mod daily;
pub mod rollup;
pub mod forecast;
pub mod trend;

pub use daily::DailyPoint;
pub use date::{CalendarDate, TrendError, day_of_week};
pub use forecast::{ForecastPoint, TrendLine, FORECAST_CAP, COEFFICIENT_BOUND, predict_until_dead};
pub use rollup::RollupBucket;
pub use sample::GameData;
pub use trend::linear_regression;
