//! Daily aggregation: one point per day key, holding the total and the number
//! of that day's samples, kept in ascending order of the key.

use vstd::prelude::*;
use crate::sample::GameData;
use crate::text::{str_lt, lex_lt, lemma_lex_lt_total, lemma_lex_lt_transitive};

verus! {

/// One day's activity: its average is `total / count`.
#[derive(Debug)]
pub struct DailyPoint {
    pub day: String,
    pub total: i128,
    pub count: usize,
}

/// The largest magnitude of an `i64`.
pub open spec fn i64_span() -> int {
    0x8000_0000_0000_0000
}

/// Sum of the active users of the samples of `gs` on `day`.
pub open spec fn day_total(gs: Seq<GameData>, day: Seq<char>) -> int
    decreases gs.len(),
{
    if gs.len() == 0 {
        0
    } else {
        day_total(gs.drop_last(), day) + if gs.last().date@ == day {
            gs.last().active_users as int
        } else {
            0
        }
    }
}

/// Number of samples of `gs` on `day`.
pub open spec fn day_count(gs: Seq<GameData>, day: Seq<char>) -> int
    decreases gs.len(),
{
    if gs.len() == 0 {
        0
    } else {
        day_count(gs.drop_last(), day) + if gs.last().date@ == day {
            1int
        } else {
            0
        }
    }
}

/// Day keys in strictly ascending order, hence each at most once.
pub open spec fn strictly_ascending(ps: Seq<DailyPoint>) -> bool {
    forall|i: int, j: int| 0 <= i < j < ps.len() ==> lex_lt(ps[i].day@, ps[j].day@)
}

/// `day` is the day key of some sample of `gs`.
pub open spec fn has_day(gs: Seq<GameData>, day: Seq<char>) -> bool {
    exists|k: int| 0 <= k < gs.len() && gs[k].date@ == day
}

/// `ps` is the daily series of `gs`: one point per distinct day key, in
/// ascending order, each with that day's total and sample count.
pub open spec fn is_daily_series(ps: Seq<DailyPoint>, gs: Seq<GameData>) -> bool {
    &&& strictly_ascending(ps)
    &&& forall|i: int| 0 <= i < ps.len() ==> has_day(gs, #[trigger] ps[i].day@)
    &&& forall|k: int| 0 <= k < gs.len() ==> exists|i: int| 0 <= i < ps.len() && ps[i].day@ == #[trigger] gs[k].date@
    &&& forall|i: int| 0 <= i < ps.len() ==> {
        &&& (#[trigger] ps[i]).total == day_total(gs, ps[i].day@)
        &&& ps[i].count == day_count(gs, ps[i].day@)
        &&& ps[i].count >= 1
    }
}

proof fn lemma_day_bounds(gs: Seq<GameData>, day: Seq<char>)
    ensures
        0 <= day_count(gs, day) <= gs.len(),
        -(day_count(gs, day) * i64_span()) <= day_total(gs, day) <= day_count(gs, day) * i64_span(),
    decreases gs.len(),
{
    if gs.len() > 0 {
        lemma_day_bounds(gs.drop_last(), day);
        let c = day_count(gs.drop_last(), day);
        assert((c + 1) * i64_span() == c * i64_span() + i64_span()) by (nonlinear_arith);
    }
}

impl GameData {
    /// Groups the samples by day key: one point per distinct key, in ascending
    /// order of the key, with the sum and number of that day's counts.
    pub fn hourly_average_users(games: Vec<GameData>) -> (r: Vec<DailyPoint>)
        ensures
            is_daily_series(r@, games@),
    {
        let n = games.len();
        let mut points: Vec<DailyPoint> = Vec::new();
        let mut i: usize = 0;
        while i < n
            invariant
                n == games.len(),
                i <= n,
                is_daily_series(points@, games@.subrange(0, i as int)),
            decreases n - i,
        {
            let g = &games[i];
            let ghost prev = games@.subrange(0, i as int);
            let ghost next = games@.subrange(0, i + 1);
            assert(next.drop_last() =~= prev);
            assert(next.last() == games@[i as int]);
            let ghost before = points@;
            let mut k: usize = 0;
            while k < points.len() && str_lt(points[k].day.as_str(), g.date.as_str())
                invariant
                    k <= points.len(),
                    forall|j: int| 0 <= j < k ==> lex_lt(points@[j].day@, g.date@),
                decreases points.len() - k,
            {
                k = k + 1;
            }
            proof {
                lemma_day_bounds(next, g.date@);
                assert forall|j: int| 0 <= j < points.len() implies day_count(prev, #[trigger] points@[j].day@) <= i by {
                    lemma_day_bounds(prev, points@[j].day@);
                }
            }
            if k < points.len() && points[k].day.eq(&g.date) {
                let p = &points[k];
                proof {
                    lemma_day_bounds(prev, p.day@);
                    assert(points@[k as int].count == day_count(prev, points@[k as int].day@));
                    assert(p.count <= i);
                    assert(i < n);
                }
                let updated = DailyPoint {
                    day: p.day.clone(),
                    total: p.total + g.active_users as i128,
                    count: p.count + 1,
                };
                points.set(k, updated);
                proof {
                    assert forall|j: int| 0 <= j < points.len() implies {
                        &&& (#[trigger] points@[j]).total == day_total(next, points@[j].day@)
                        &&& points@[j].count == day_count(next, points@[j].day@)
                        &&& points@[j].count >= 1
                    } by {
                        assert(before[j].total == day_total(prev, before[j].day@));
                        assert(before[j].count == day_count(prev, before[j].day@));
                        if j != k {
                            assert(points@[j] == before[j]);
                            assert(before[j].day@ != g.date@) by {
                                if j < k {
                                    crate::text::lemma_lex_lt_irreflexive(g.date@);
                                } else {
                                    crate::text::lemma_lex_lt_irreflexive(g.date@);
                                    assert(lex_lt(before[k as int].day@, before[j].day@));
                                }
                            }
                        }
                    }
                    assert forall|j: int| 0 <= j < points.len() implies has_day(next, #[trigger] points@[j].day@) by {
                        let w = choose|w: int| 0 <= w < prev.len() && prev[w].date@ == points@[j].day@;
                        assert(next[w] == prev[w]);
                    }
                    assert forall|w: int| 0 <= w < next.len() implies exists|j: int| 0 <= j < points.len() && points@[j].day@ == #[trigger] next[w].date@ by {
                        if w < prev.len() {
                            assert(next[w] == prev[w]);
                            let jj = choose|jj: int| 0 <= jj < before.len() && before[jj].day@ == prev[w].date@;
                            assert(points@[jj].day@ == before[jj].day@);
                        } else {
                            assert(next[w] == games@[i as int]);
                            assert(points@[k as int].day@ == next[w].date@);
                        }
                    }
                }
            } else {
                proof {
                    if k < points.len() {
                        lemma_lex_lt_total(g.date@, points@[k as int].day@);
                    }
                    assert forall|j: int| k <= j < points.len() implies lex_lt(g.date@, #[trigger] points@[j].day@) by {
                        if j > k {
                            lemma_lex_lt_transitive(g.date@, points@[k as int].day@, points@[j].day@);
                        }
                    }
                    assert forall|j: int| 0 <= j < points.len() implies #[trigger] points@[j].day@ != g.date@ by {
                        if j >= k {
                        } else {
                            crate::text::lemma_lex_lt_irreflexive(g.date@);
                        }
                    }
                    assert(!has_day(prev, g.date@));
                    lemma_no_day_count(prev, g.date@);
                }
                let fresh = DailyPoint { day: g.date.clone(), total: g.active_users as i128, count: 1 };
                points.insert(k, fresh);
                proof {
                    assert forall|j: int| 0 <= j < points.len() implies {
                        &&& (#[trigger] points@[j]).total == day_total(next, points@[j].day@)
                        &&& points@[j].count == day_count(next, points@[j].day@)
                        &&& points@[j].count >= 1
                    } by {
                        if j != k {
                            let jj = if j < k { j } else { j - 1 };
                            assert(points@[j] == before[jj]);
                            assert(before[jj].total == day_total(prev, before[jj].day@));
                        }
                    }
                    assert forall|j: int| 0 <= j < points.len() implies has_day(next, #[trigger] points@[j].day@) by {
                        if j == k {
                            assert(next[i as int].date@ == points@[j].day@);
                        } else {
                            let jj = if j < k { j } else { j - 1 };
                            assert(points@[j] == before[jj]);
                            let w = choose|w: int| 0 <= w < prev.len() && prev[w].date@ == before[jj].day@;
                            assert(next[w] == prev[w]);
                        }
                    }
                    assert forall|w: int| 0 <= w < next.len() implies exists|j: int| 0 <= j < points.len() && points@[j].day@ == #[trigger] next[w].date@ by {
                        if w < prev.len() {
                            assert(next[w] == prev[w]);
                            let jj = choose|jj: int| 0 <= jj < before.len() && before[jj].day@ == prev[w].date@;
                            if jj < k {
                                assert(points@[jj] == before[jj]);
                            } else {
                                assert(points@[jj + 1] == before[jj]);
                            }
                        } else {
                            assert(points@[k as int].day@ == next[w].date@);
                        }
                    }
                    assert forall|a: int, b: int| 0 <= a < b < points.len() implies lex_lt(points@[a].day@, points@[b].day@) by {
                        if b < k {
                        } else if a > k {
                            assert(points@[a] == before[a - 1]);
                            assert(points@[b] == before[b - 1]);
                        } else if a == k {
                            assert(points@[b] == before[b - 1]);
                        } else if b == k {
                        } else {
                            assert(points@[b] == before[b - 1]);
                            lemma_lex_lt_transitive(points@[a].day@, g.date@, points@[b].day@);
                        }
                    }
                }
            }
            i = i + 1;
        }
        assert(games@.subrange(0, n as int) =~= games@);
        points
    }
}

/// The day keys of the samples, each once.
pub open spec fn distinct_days(gs: Seq<GameData>) -> Set<Seq<char>> {
    gs.map_values(|g: GameData| g.date@).to_set()
}

/// The daily series of a set of samples has as many points as the samples
/// have distinct day keys, whatever the number of samples.
pub proof fn lemma_one_point_per_day(ps: Seq<DailyPoint>, gs: Seq<GameData>)
    requires
        is_daily_series(ps, gs),
    ensures
        ps.len() == distinct_days(gs).len(),
{
    let keys = ps.map_values(|p: DailyPoint| p.day@);
    assert(keys.no_duplicates()) by {
        assert forall|a: int, b: int| 0 <= a < keys.len() && 0 <= b < keys.len() && a != b implies keys[a] != keys[b] by {
            crate::text::lemma_lex_lt_irreflexive(keys[a]);
            if a < b {
                assert(lex_lt(ps[a].day@, ps[b].day@));
            } else {
                assert(lex_lt(ps[b].day@, ps[a].day@));
            }
        }
    }
    keys.unique_seq_to_set();
    let dates = gs.map_values(|g: GameData| g.date@);
    assert(keys.to_set() =~= dates.to_set()) by {
        assert forall|d: Seq<char>| keys.to_set().contains(d) implies dates.to_set().contains(d) by {
            let i = choose|i: int| 0 <= i < keys.len() && keys[i] == d;
            assert(has_day(gs, ps[i].day@));
            let k = choose|k: int| 0 <= k < gs.len() && gs[k].date@ == ps[i].day@;
            assert(dates[k] == d);
        }
        assert forall|d: Seq<char>| dates.to_set().contains(d) implies keys.to_set().contains(d) by {
            let k = choose|k: int| 0 <= k < dates.len() && dates[k] == d;
            let i = choose|i: int| 0 <= i < ps.len() && ps[i].day@ == gs[k].date@;
            assert(keys[i] == d);
        }
    }
}

proof fn lemma_no_day_count(gs: Seq<GameData>, day: Seq<char>)
    requires
        !has_day(gs, day),
    ensures
        day_count(gs, day) == 0,
        day_total(gs, day) == 0,
    decreases gs.len(),
{
    if gs.len() > 0 {
        assert(!has_day(gs.drop_last(), day)) by {
            if has_day(gs.drop_last(), day) {
                let k = choose|k: int| 0 <= k < gs.drop_last().len() && gs.drop_last()[k].date@ == day;
                assert(gs[k].date@ == day);
            }
        }
        lemma_no_day_count(gs.drop_last(), day);
        assert(gs.last() == gs[gs.len() - 1]);
    }
}

} // verus!
