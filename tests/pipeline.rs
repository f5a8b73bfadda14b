use game_trends::sample::same_folded;
use game_trends::{
    day_of_week, linear_regression, predict_until_dead, DailyPoint, GameData, RollupBucket, TrendError, TrendLine,
    FORECAST_CAP,
};

fn sample(date: &str, active_users: i64, title: &str) -> GameData {
    GameData { date: date.to_string(), active_users, title: title.to_string() }
}

fn point(day: &str, total: i128, count: usize) -> DailyPoint {
    DailyPoint { day: day.to_string(), total, count }
}

fn average(total: i128, count: usize) -> f64 {
    total as f64 / count as f64
}

fn mean_of(bucket: &RollupBucket) -> f64 {
    let (num, den) = bucket.average().unwrap();
    num as f64 / den as f64
}

fn four_games(with_times: bool) -> Vec<GameData> {
    vec![
        sample("2023-08-01", 80000, "PetSimulatorX"),
        sample(if with_times { "2024-12-01 15:00:23" } else { "2024-12-01" }, 75000, "PetSimulatorX"),
        sample("2017-01-01", 1200, "Brookhaven"),
        sample(if with_times { "2018-05-27 19:40:27" } else { "2018-05-27" }, 90000, "Brookhaven"),
    ]
}

#[test]
fn main_test_filter_by_game_name() {
    let filtered_games_by_name = GameData::filter_by_game_name(four_games(true), "Brookhaven");
    assert_eq!(filtered_games_by_name[0].title, "Brookhaven");
    assert_eq!(filtered_games_by_name[0].title, filtered_games_by_name[1].title);
    assert_eq!(filtered_games_by_name.len(), 2);
}

#[test]
fn tests_test_filter_by_game_name() {
    let filtered_games_by_name = GameData::filter_by_game_name(four_games(false), "Brookhaven");
    assert_eq!(filtered_games_by_name[0].title, "Brookhaven");
}

#[test]
fn test_date_cleaning() {
    let mut game = sample("01/01/2023 12:00:00", 35000, "MurderMystery2By@Nikilis");
    game.date_only();
    game.format_date();
    assert_eq!(game.date, "2023-01-01");
}

#[test]
fn test_hourly_active_users() {
    let games = vec![sample("2023-01-01", 10000, "BloxFruits"), sample("2023-01-01", 20000, "BloxFruits")];
    let averages = GameData::hourly_average_users(games);
    assert_eq!(averages.len(), 1);
    assert_eq!(averages[0].day, "2023-01-01");
    assert_eq!(average(averages[0].total, averages[0].count), 15000.0)
}

#[test]
fn test_chrono_day_of_week() {
    let day = day_of_week("2024-12-14").unwrap();
    assert_eq!(day, "Saturday")
}

#[test]
fn test_linear_regression() {
    let data = vec![point("2023-01-01", 100, 1), point("2023-01-02", 80, 1), point("2023-01-03", 60, 1)];
    let line = linear_regression(&data).unwrap();
    let slope = line.slope_num as f64 / line.den as f64;
    let intercept = line.intercept_num as f64 / line.den as f64;
    assert_eq!(slope, -20.0);
    assert_eq!(intercept, 100.0);
    let (predictions, days_until_dead) = predict_until_dead("2023-01-01", line).unwrap();
    assert_eq!(days_until_dead, 5);
    assert_eq!(predictions.last().unwrap().day, "2023-01-05");
    assert_eq!(predictions.last().unwrap().predicted_num as f64 / line.den as f64, (0.0 + slope).abs())
}

#[test]
fn filter_ignores_case_of_title_and_name() {
    let kept = GameData::filter_by_game_name(four_games(false), "bROOKhaven");
    assert_eq!(kept.len(), 2);
    assert_eq!(kept[0].active_users, 1200);
    assert_eq!(kept[1].active_users, 90000);
    assert!(GameData::filter_by_game_name(four_games(false), "Adopt Me").is_empty());
}

#[test]
fn normalize_keeps_canonical_and_unknown_text() {
    let mut canonical = sample("2023-01-01", 1, "A");
    canonical.normalize();
    assert_eq!(canonical.date, "2023-01-01");
    let mut with_time = sample("2024-12-01 15:00:23", 1, "A");
    with_time.normalize();
    assert_eq!(with_time.date, "2024-12-01");
    let mut unknown = sample("yesterday", 1, "A");
    unknown.normalize();
    assert_eq!(unknown.date, "yesterday");
    let mut slashed = sample("12/31/1999", 1, "A");
    slashed.normalize();
    assert_eq!(slashed.date, "1999-12-31");
}

#[test]
fn date_only_without_space_is_unchanged() {
    let mut game = sample("01/01/2023", 1, "A");
    game.date_only();
    assert_eq!(game.date, "01/01/2023");
    let mut spaced = sample("a b c", 1, "A");
    spaced.date_only();
    assert_eq!(spaced.date, "a");
}

#[test]
fn daily_series_is_sorted_with_one_point_per_day() {
    let games = vec![
        sample("2023-01-03", 30, "G"),
        sample("2023-01-01", 10, "G"),
        sample("2023-01-03", 50, "G"),
        sample("2023-01-02", 7, "G"),
        sample("2023-01-01", 20, "G"),
    ];
    let points = GameData::hourly_average_users(games);
    let days: Vec<&str> = points.iter().map(|p| p.day.as_str()).collect();
    assert_eq!(days, vec!["2023-01-01", "2023-01-02", "2023-01-03"]);
    assert_eq!(average(points[0].total, points[0].count), 15.0);
    assert_eq!(average(points[1].total, points[1].count), 7.0);
    assert_eq!(average(points[2].total, points[2].count), 40.0);
    assert!(GameData::hourly_average_users(Vec::new()).is_empty());
}

#[test]
fn weekday_of_invalid_key_is_an_error() {
    assert_eq!(day_of_week("2023-01-02").unwrap(), "Monday");
    assert_eq!(day_of_week("2023-01-08").unwrap(), "Sunday");
    match day_of_week("01/01/2023") {
        Err(TrendError::InvalidDateFormat(key)) => assert_eq!(key, "01/01/2023"),
        other => panic!("unexpected {:?}", other),
    }
}

#[test]
fn weekday_rollup_groups_by_name() {
    let points = vec![
        point("2024-12-07", 10, 1),
        point("2024-12-09", 40, 2),
        point("2024-12-14", 30, 1),
    ];
    let buckets = GameData::average_by_day_of_week(&points).unwrap();
    assert_eq!(buckets.len(), 2);
    let names = ["Monday", "Tuesday", "Wednesday", "Thursday", "Friday", "Saturday", "Sunday"];
    for b in &buckets {
        assert!(names.contains(&b.key.as_str()));
    }
    let saturday = buckets.iter().find(|b| b.key == "Saturday").unwrap();
    assert_eq!(saturday.members, vec![(10, 1), (30, 1)]);
    assert_eq!(mean_of(saturday), 20.0);
    let monday = buckets.iter().find(|b| b.key == "Monday").unwrap();
    assert_eq!(mean_of(monday), 20.0);
}

#[test]
fn monthly_rollup_is_sorted_by_month() {
    let points = vec![
        point("2022-12-30", 10, 1),
        point("2023-01-05", 30, 1),
        point("2023-01-06", 50, 1),
        point("2023-02-01", 9, 3),
    ];
    let buckets = GameData::average_by_month(&points).unwrap();
    let keys: Vec<&str> = buckets.iter().map(|b| b.key.as_str()).collect();
    assert_eq!(keys, vec!["2022-12", "2023-01", "2023-02"]);
    assert_eq!(mean_of(&buckets[1]), 40.0);
    assert_eq!(mean_of(&buckets[2]), 3.0);
}

#[test]
fn rollups_reject_a_malformed_day() {
    let points = vec![point("2023-01-01", 1, 1), point("01/02/2023", 1, 1), point("bad", 1, 1)];
    match GameData::average_by_month(&points) {
        Err(TrendError::InvalidDateFormat(key)) => assert_eq!(key, "01/02/2023"),
        other => panic!("unexpected {:?}", other),
    }
    match GameData::average_by_day_of_week(&points) {
        Err(TrendError::InvalidDateFormat(key)) => assert_eq!(key, "01/02/2023"),
        other => panic!("unexpected {:?}", other),
    }
}

#[test]
fn fit_needs_two_points() {
    assert!(matches!(linear_regression(&Vec::new()), Err(TrendError::InsufficientData)));
    assert!(matches!(linear_regression(&vec![point("2023-01-01", 5, 1)]), Err(TrendError::InsufficientData)));
}

#[test]
fn fit_uses_averages_and_positions() {
    let data = vec![point("2023-01-01", 20, 2), point("2023-01-05", 45, 3), point("2023-01-09", 80, 4)];
    let line = linear_regression(&data).unwrap();
    assert_eq!(line.slope_num as f64 / line.den as f64, 5.0);
    assert_eq!(line.intercept_num as f64 / line.den as f64, 10.0);
}

#[test]
fn forecast_stops_at_the_cap() {
    let line = TrendLine { slope_num: 0, intercept_num: 3, den: 2 };
    let (points, days) = predict_until_dead("2023-01-01", line).unwrap();
    assert_eq!(days, FORECAST_CAP);
    assert_eq!(points.len(), 365);
    assert_eq!(points[0].day, "2023-01-01");
    assert_eq!(points[364].day, "2023-12-31");
    assert_eq!(points[364].predicted_num, 3);
}

#[test]
fn forecast_of_a_non_positive_start_is_empty() {
    let line = TrendLine { slope_num: 5, intercept_num: 0, den: 1 };
    let (points, days) = predict_until_dead("2023-01-01", line).unwrap();
    assert_eq!(days, 0);
    assert!(points.is_empty());
    match predict_until_dead("01/01/2023", line) {
        Err(TrendError::InvalidDateFormat(key)) => assert_eq!(key, "01/01/2023"),
        other => panic!("unexpected {:?}", other),
    }
}

#[test]
fn forecast_crosses_month_ends() {
    let line = TrendLine { slope_num: -1, intercept_num: 3, den: 1 };
    let (points, days) = predict_until_dead("2024-02-28", line).unwrap();
    assert_eq!(days, 3);
    let days: Vec<&str> = points.iter().map(|p| p.day.as_str()).collect();
    assert_eq!(days, vec!["2024-02-28", "2024-02-29", "2024-03-01"]);
}

#[test]
fn fit_of_hourly_series_succeeds() {
    let data: Vec<DailyPoint> = (0..30)
        .map(|i| point(&format!("2023-01-{:02}", i + 1), 24 * (1000 - 10 * i as i128), 24))
        .collect();
    let line = linear_regression(&data).unwrap();
    assert_eq!(line.slope_num as f64 / line.den as f64, -10.0);
    assert_eq!(line.intercept_num as f64 / line.den as f64, 1000.0);
    let (points, days) = predict_until_dead("2023-01-01", line).unwrap();
    assert_eq!(days, 100);
    assert_eq!(points[99].day, "2023-04-10");
}

#[test]
fn same_folded_compares_exactly() {
    assert!(same_folded(&"brookhaven".to_string(), &"brookhaven".to_string()));
    assert!(!same_folded(&"brookhaven".to_string(), &"Brookhaven".to_string()));
}

#[test]
fn bucket_mean_is_mean_of_averages() {
    let bucket = RollupBucket { key: "2023-01".to_string(), members: vec![(30, 3), (45, 9), (1, 2)] };
    let (num, den) = bucket.average().unwrap();
    assert!(den > 0);
    assert_eq!(num * 6, den * 31);
}
