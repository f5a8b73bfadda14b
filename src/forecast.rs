//! Day-by-day projection of a trend line until it stops being positive.

use vstd::prelude::*;
use vstd::string::*;
use crate::date::{TrendError, parse_date, format_date_as, add_days, parsed_date, formatted_date, date_after};

verus! {

/// The longest forecast, in days.
pub const FORECAST_CAP: usize = 365;

/// A straight line with rational coefficients over one positive denominator:
/// `slope_num / den` per day, `intercept_num / den` on day 0.
#[derive(Clone, Copy, Debug, PartialEq, Eq, Structural)]
pub struct TrendLine {
    pub slope_num: i128,
    pub intercept_num: i128,
    pub den: i128,
}

/// The largest magnitude of a coefficient's numerator that a forecast takes.
pub const COEFFICIENT_BOUND: i128 = 0x1_0000_0000_0000_0000_0000_0000_0000;

pub open spec fn coefficient_bound() -> int {
    COEFFICIENT_BOUND as int
}

impl TrendLine {
    pub open spec fn wf(self) -> bool {
        &&& self.den > 0
        &&& -coefficient_bound() <= self.slope_num <= coefficient_bound()
        &&& -coefficient_bound() <= self.intercept_num <= coefficient_bound()
    }

    /// Numerator of the value on `day`; its sign is the value's sign.
    pub open spec fn value_num(self, day: int) -> int {
        self.slope_num * day + self.intercept_num
    }
}

/// One projected day: its key and the numerator of its value over the line's denominator.
#[derive(Debug)]
pub struct ForecastPoint {
    pub day: String,
    pub predicted_num: i128,
}

/// The first day from `d` on whose value is not positive, or the cap.
pub open spec fn stop_day(line: TrendLine, d: int) -> int
    decreases FORECAST_CAP - d,
{
    if d >= FORECAST_CAP || line.value_num(d) <= 0 {
        d
    } else {
        stop_day(line, d + 1)
    }
}

/// The day key `k` days after the day that `start` names.
pub open spec fn day_key_after(start: Seq<char>, k: int) -> Option<Seq<char>> {
    match parsed_date(start, "%Y-%m-%d"@) {
        Some((y, m, d)) => match date_after(y, m, d, k) {
            Some((y2, m2, d2)) => Some(formatted_date(y2, m2, d2, "%Y-%m-%d"@)),
            None => None,
        },
        None => None,
    }
}

proof fn lemma_stop_day_bounds(line: TrendLine, d: int)
    requires
        0 <= d <= FORECAST_CAP,
    ensures
        d <= stop_day(line, d) <= FORECAST_CAP,
        forall|j: int| d <= j < stop_day(line, d) ==> line.value_num(j) > 0,
        stop_day(line, d) < FORECAST_CAP ==> line.value_num(stop_day(line, d)) <= 0,
    decreases FORECAST_CAP - d,
{
    if d < FORECAST_CAP && line.value_num(d) > 0 {
        lemma_stop_day_bounds(line, d + 1);
    }
}

/// Projects `line` day by day from `start_date`, a `YYYY-MM-DD` key, while
/// its value stays positive, for at most `FORECAST_CAP` days. Returns the
/// projected days and their number.
pub fn predict_until_dead(start_date: &str, line: TrendLine) -> (r: Result<(Vec<ForecastPoint>, usize), TrendError>)
    requires
        line.wf(),
    ensures
        parsed_date(start_date@, "%Y-%m-%d"@) is None ==> r is Err && r->Err_0.is_invalid_date(start_date@),
        r is Ok <==> (parsed_date(start_date@, "%Y-%m-%d"@) is Some
            && forall|k: int| 0 <= k < stop_day(line, 0) ==> (#[trigger] day_key_after(start_date@, k)) is Some),
        r is Err && parsed_date(start_date@, "%Y-%m-%d"@) is Some ==> r->Err_0 == TrendError::DateOutOfRange,
        match r {
            Ok((ps, days)) => {
                &&& days == stop_day(line, 0)
                &&& ps@.len() == days
                &&& forall|k: int| 0 <= k < days ==> {
                    &&& (#[trigger] ps@[k]).predicted_num == line.value_num(k)
                    &&& day_key_after(start_date@, k) == Some(ps@[k].day@)
                }
            },
            Err(_) => true,
        },
{
    let start = match parse_date(start_date, "%Y-%m-%d") {
        Some(d) => d,
        None => {
            return Err(TrendError::InvalidDateFormat(String::from_str(start_date)));
        },
    };
    proof {
        lemma_stop_day_bounds(line, 0);
    }
    let mut predictions: Vec<ForecastPoint> = Vec::new();
    let mut day: usize = 0;
    let mut predicted: i128 = line.intercept_num;
    while predicted > 0 && day < FORECAST_CAP
        invariant
            line.wf(),
            start.wf(),
            parsed_date(start_date@, "%Y-%m-%d"@) == Some(start.ymd()),
            day <= FORECAST_CAP,
            day <= stop_day(line, 0),
            stop_day(line, day as int) == stop_day(line, 0),
            predicted == line.value_num(day as int),
            predictions@.len() == day,
            forall|k: int| 0 <= k < day ==> {
                &&& (#[trigger] predictions@[k]).predicted_num == line.value_num(k)
                &&& day_key_after(start_date@, k) == Some(predictions@[k].day@)
            },
        decreases FORECAST_CAP - day,
    {
        proof {
            lemma_stop_day_bounds(line, day as int + 1);
            assert(stop_day(line, day as int) == stop_day(line, day as int + 1));
        }
        let date = match add_days(start, day as u64) {
            Some(d) => d,
            None => {
                assert(day_key_after(start_date@, day as int) is None);
                return Err(TrendError::DateOutOfRange);
            },
        };
        let key = format_date_as(date, "%Y-%m-%d");
        predictions.push(ForecastPoint { day: key, predicted_num: predicted });
        proof {
            assert(predictions@[day as int].predicted_num == line.value_num(day as int));
        }
        day = day + 1;
        assert(line.slope_num * (day as int) == line.slope_num * (day - 1) + line.slope_num) by (nonlinear_arith);
        assert(-coefficient_bound() * 366 <= line.slope_num * (day as int) <= coefficient_bound() * 366) by (nonlinear_arith)
            requires
                -coefficient_bound() <= line.slope_num <= coefficient_bound(),
                0 <= day <= 366,
        ;
        predicted = line.slope_num * (day as i128) + line.intercept_num;
    }
    assert(stop_day(line, day as int) == day as int);
    assert forall|k: int| 0 <= k < stop_day(line, 0) implies (#[trigger] day_key_after(start_date@, k)) is Some by {
        assert(predictions@[k].predicted_num == line.value_num(k));
    }
    Ok((predictions, day))
}

} // verus!
