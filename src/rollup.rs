//! Weekday and monthly rollups of a daily series.

use vstd::prelude::*;
use vstd::string::*;
use crate::daily::DailyPoint;
use crate::sample::GameData;
use crate::trend::{lemma_rescale, lemma_mul_bound, times, plus, total_bound, all_counted};
use crate::date::{
    TrendError, parse_date, format_date_as, weekday_number, weekday_string, weekday_key, month_key,
    weekday_name, is_weekday_name, weekday_from_monday, parsed_date,
};
use crate::text::{str_lt, lex_lt, lemma_lex_lt_total, lemma_lex_lt_transitive, lemma_lex_lt_irreflexive};

verus! {

/// The daily points that share one key: each member is the `(total, count)`
/// of a point, in the order of the series. The bucket's value is the mean of
/// the members' averages.
#[derive(Debug)]
pub struct RollupBucket {
    pub key: String,
    pub members: Vec<(i128, usize)>,
}

/// The `(total, count)` of the points of `ps` whose key in `ks` is `key`, in order.
pub open spec fn members_of(ps: Seq<DailyPoint>, ks: Seq<Seq<char>>, key: Seq<char>) -> Seq<(i128, usize)>
    decreases ps.len(),
{
    if ps.len() == 0 {
        Seq::empty()
    } else {
        let rest = members_of(ps.drop_last(), ks, key);
        if ks[ps.len() - 1] == key {
            rest.push((ps.last().total, ps.last().count))
        } else {
            rest
        }
    }
}

/// Some point among the first `n` has key `key`.
pub open spec fn key_used(ks: Seq<Seq<char>>, n: int, key: Seq<char>) -> bool {
    exists|i: int| 0 <= i < n && ks[i] == key
}

/// Some bucket of `bs` holds key `key`.
pub open spec fn has_bucket(bs: Seq<RollupBucket>, key: Seq<char>) -> bool {
    exists|b: int| 0 <= b < bs.len() && bs[b].key@ == key
}

/// `bs` groups the points of `ps` by their keys `ks`: one bucket per distinct
/// key, in ascending order of the key, each with its points' members.
pub open spec fn is_rollup(bs: Seq<RollupBucket>, ps: Seq<DailyPoint>, ks: Seq<Seq<char>>) -> bool {
    &&& forall|a: int, b: int| 0 <= a < b < bs.len() ==> lex_lt(bs[a].key@, bs[b].key@)
    &&& forall|b: int| 0 <= b < bs.len() ==> key_used(ks, ps.len() as int, (#[trigger] bs[b]).key@)
    &&& forall|i: int| 0 <= i < ps.len() ==> has_bucket(bs, #[trigger] ks[i])
    &&& forall|b: int| 0 <= b < bs.len() ==> (#[trigger] bs[b]).members@ == members_of(ps, ks, bs[b].key@)
}

/// Groups `points` by the key that `keys` gives each of them.
fn group_by_keys(points: &Vec<DailyPoint>, keys: &Vec<String>) -> (r: Vec<RollupBucket>)
    requires
        keys.len() == points.len(),
    ensures
        is_rollup(r@, points@, keys@.map_values(|s: String| s@)),
{
    let ghost ks = keys@.map_values(|s: String| s@);
    let n = points.len();
    let mut buckets: Vec<RollupBucket> = Vec::new();
    let mut i: usize = 0;
    while i < n
        invariant
            n == points.len() == keys.len(),
            ks == keys@.map_values(|s: String| s@),
            i <= n,
            is_rollup(buckets@, points@.subrange(0, i as int), ks),
        decreases n - i,
    {
        let key = &keys[i];
        let ghost prev = points@.subrange(0, i as int);
        let ghost next = points@.subrange(0, i + 1);
        assert(next.drop_last() =~= prev);
        assert(next.last() == points@[i as int]);
        assert(ks[i as int] == key@);
        let mut k: usize = 0;
        while k < buckets.len() && str_lt(buckets[k].key.as_str(), key.as_str())
            invariant
                k <= buckets.len(),
                forall|j: int| 0 <= j < k ==> lex_lt(buckets@[j].key@, key@),
            decreases buckets.len() - k,
        {
            k = k + 1;
        }
        let member = (points[i].total, points[i].count);
        if k < buckets.len() && buckets[k].key.eq(key) {
            join_bucket(&mut buckets, k, key, member, Ghost(prev), Ghost(next), Ghost(ks));
        } else {
            open_bucket(&mut buckets, k, key, member, Ghost(prev), Ghost(next), Ghost(ks));
        }
        i = i + 1;
    }
    assert(points@.subrange(0, n as int) =~= points@);
    buckets
}

/// Adds a point to the bucket at `k`, which holds its key.
fn join_bucket(
    buckets: &mut Vec<RollupBucket>,
    k: usize,
    key: &String,
    member: (i128, usize),
    Ghost(prev): Ghost<Seq<DailyPoint>>,
    Ghost(next): Ghost<Seq<DailyPoint>>,
    Ghost(ks): Ghost<Seq<Seq<char>>>,
)
    requires
        is_rollup(old(buckets)@, prev, ks),
        next.drop_last() == prev,
        next.len() <= ks.len(),
        ks[next.len() - 1] == key@,
        next.len() >= 1,
        member == (next.last().total, next.last().count),
        k < old(buckets)@.len(),
        forall|j: int| 0 <= j < k ==> lex_lt(old(buckets)@[j].key@, key@),
        old(buckets)@[k as int].key@ == key@,
    ensures
        is_rollup(final(buckets)@, next, ks),
{
    let ghost before = buckets@;
    let mut b = buckets.remove(k);
    b.members.push(member);
    buckets.insert(k, b);
    proof {
        assert forall|j: int| 0 <= j < buckets.len() && j != k implies buckets@[j] == before[j] by {}
        assert forall|j: int| 0 <= j < buckets.len() implies (#[trigger] buckets@[j]).members@ == members_of(next, ks, buckets@[j].key@) by {
            assert(before[j].members@ == members_of(prev, ks, before[j].key@));
            if j != k {
                assert(before[j].key@ != key@) by {
                    lemma_lex_lt_irreflexive(key@);
                    if j > k {
                        assert(lex_lt(before[k as int].key@, before[j].key@));
                    }
                }
            }
        }
        assert forall|j: int| 0 <= j < buckets.len() implies key_used(ks, next.len() as int, (#[trigger] buckets@[j]).key@) by {
            assert(key_used(ks, prev.len() as int, before[j].key@));
            let w = choose|w: int| 0 <= w < prev.len() && ks[w] == before[j].key@;
        }
        assert forall|w: int| 0 <= w < next.len() implies has_bucket(buckets@, #[trigger] ks[w]) by {
            if w < prev.len() {
                assert(has_bucket(before, ks[w]));
                let jj = choose|jj: int| 0 <= jj < before.len() && before[jj].key@ == ks[w];
                assert(buckets@[jj].key@ == before[jj].key@);
            } else {
                assert(buckets@[k as int].key@ == ks[w]);
            }
        }
    }
}

/// Opens a bucket at `k` for a key that no bucket holds yet.
fn open_bucket(
    buckets: &mut Vec<RollupBucket>,
    k: usize,
    key: &String,
    member: (i128, usize),
    Ghost(prev): Ghost<Seq<DailyPoint>>,
    Ghost(next): Ghost<Seq<DailyPoint>>,
    Ghost(ks): Ghost<Seq<Seq<char>>>,
)
    requires
        is_rollup(old(buckets)@, prev, ks),
        next.drop_last() == prev,
        next.len() <= ks.len(),
        ks[next.len() - 1] == key@,
        next.len() >= 1,
        member == (next.last().total, next.last().count),
        k <= old(buckets)@.len(),
        forall|j: int| 0 <= j < k ==> lex_lt(old(buckets)@[j].key@, key@),
        k < old(buckets)@.len() ==> old(buckets)@[k as int].key@ != key@,
        k < old(buckets)@.len() ==> !lex_lt(old(buckets)@[k as int].key@, key@),
    ensures
        is_rollup(final(buckets)@, next, ks),
{
    let ghost before = buckets@;
    proof {
        if k < buckets.len() {
            lemma_lex_lt_total(key@, buckets@[k as int].key@);
        }
        assert forall|j: int| k <= j < buckets.len() implies lex_lt(key@, #[trigger] buckets@[j].key@) by {
            if j > k {
                lemma_lex_lt_transitive(key@, buckets@[k as int].key@, buckets@[j].key@);
            }
        }
        lemma_lex_lt_irreflexive(key@);
        assert forall|j: int| 0 <= j < buckets.len() implies #[trigger] buckets@[j].key@ != key@ by {}
        lemma_no_members(prev, ks, key@);
    }
    let mut members: Vec<(i128, usize)> = Vec::new();
    members.push(member);
    let fresh = RollupBucket { key: key.clone(), members };
    buckets.insert(k, fresh);
    proof {
        assert forall|j: int| 0 <= j < buckets.len() implies (#[trigger] buckets@[j]).members@ == members_of(next, ks, buckets@[j].key@) by {
            if j == k {
                assert(members_of(prev, ks, key@) =~= Seq::<(i128, usize)>::empty());
                assert(buckets@[j].members@ =~= seq![member]);
            } else {
                let jj = if j < k { j } else { j - 1 };
                assert(buckets@[j] == before[jj]);
                assert(before[jj].members@ == members_of(prev, ks, before[jj].key@));
            }
        }
        assert forall|j: int| 0 <= j < buckets.len() implies key_used(ks, next.len() as int, (#[trigger] buckets@[j]).key@) by {
            if j == k {
                assert(ks[next.len() - 1] == buckets@[j].key@);
            } else {
                let jj = if j < k { j } else { j - 1 };
                assert(buckets@[j] == before[jj]);
                assert(key_used(ks, prev.len() as int, before[jj].key@));
                let w = choose|w: int| 0 <= w < prev.len() && ks[w] == before[jj].key@;
            }
        }
        assert forall|w: int| 0 <= w < next.len() implies has_bucket(buckets@, #[trigger] ks[w]) by {
            if w < prev.len() {
                assert(has_bucket(before, ks[w]));
                let jj = choose|jj: int| 0 <= jj < before.len() && before[jj].key@ == ks[w];
                if jj < k {
                    assert(buckets@[jj] == before[jj]);
                } else {
                    assert(buckets@[jj + 1] == before[jj]);
                }
            } else {
                assert(buckets@[k as int].key@ == ks[w]);
            }
        }
        assert forall|a: int, b: int| 0 <= a < b < buckets.len() implies lex_lt(buckets@[a].key@, buckets@[b].key@) by {
            if b < k {
            } else if a > k {
                assert(buckets@[a] == before[a - 1]);
                assert(buckets@[b] == before[b - 1]);
            } else if a == k {
                assert(buckets@[b] == before[b - 1]);
            } else if b == k {
            } else {
                assert(buckets@[b] == before[b - 1]);
                lemma_lex_lt_transitive(buckets@[a].key@, key@, buckets@[b].key@);
            }
        }
    }

}

/// Product of the members' counts: the common denominator of `member_sum`.
pub open spec fn member_product(ms: Seq<(i128, usize)>) -> int
    decreases ms.len(),
{
    if ms.len() == 0 { 1 } else { member_product(ms.drop_last()) * ms.last().1 }
}

/// Numerator of the sum of the members' averages `total / count`, over `member_product`.
pub open spec fn member_sum(ms: Seq<(i128, usize)>) -> int
    decreases ms.len(),
{
    if ms.len() == 0 {
        0
    } else {
        member_sum(ms.drop_last()) * ms.last().1 + ms.last().0 * member_product(ms.drop_last())
    }
}

/// Members on which the mean always succeeds: at most 1024 of them, all with
/// one count of at most 65536, and totals of magnitude at most 2^40.
pub open spec fn moderate_members(ms: Seq<(i128, usize)>) -> bool {
    &&& 1 <= ms.len() <= 1024
    &&& 1 <= ms[0].1 <= 65536
    &&& forall|i: int| 0 <= i < ms.len() ==> {
        &&& (#[trigger] ms[i]).1 == ms[0].1
        &&& -total_bound() <= ms[i].0 <= total_bound()
    }
}

impl RollupBucket {
    /// The mean of the members' averages as a fraction `(numerator, denominator)`
    /// with a positive denominator. Fails with `Overflow` where an intermediate
    /// value leaves `i128`.
    pub fn average(&self) -> (r: Result<(i128, i128), TrendError>)
        requires
            self.members@.len() >= 1,
            forall|i: int| 0 <= i < self.members@.len() ==> (#[trigger] self.members@[i]).1 >= 1,
        ensures
            r is Err ==> r->Err_0 == TrendError::Overflow,
            moderate_members(self.members@) ==> r is Ok,
            match r {
                Ok((num, den)) => {
                    &&& den > 0
                    &&& num * (member_product(self.members@) * self.members@.len()) == den * member_sum(
                        self.members@,
                    )
                },
                Err(_) => true,
            },
    {
        let ms = &self.members;
        let n = ms.len();
        let mut l: i128 = 1;
        let mut a: i128 = 0;
        let mut i: usize = 0;
        while i < n
            invariant
                ms@ == self.members@,
                n == ms.len() >= 1,
                i <= n,
                forall|j: int| 0 <= j < n ==> (#[trigger] ms@[j]).1 >= 1,
                l >= 1,
                a * member_product(ms@.subrange(0, i as int)) == member_sum(ms@.subrange(0, i as int)) * l,
                moderate_members(ms@) ==> {
                    &&& i == 0 ==> l == 1
                    &&& i > 0 ==> l == ms@[0].1
                    &&& -(i * total_bound()) <= a <= i * total_bound()
                },
            decreases n - i,
        {
            let ghost prev = ms@.subrange(0, i as int);
            let ghost next = ms@.subrange(0, i + 1);
            assert(next.drop_last() =~= prev);
            assert(next.last() == ms@[i as int]);
            let c = ms[i].1 as i128;
            let t = ms[i].0;
            assert(c >= 1);
            proof {
                if moderate_members(ms@) {
                    assert(ms@[i as int].1 == ms@[0].1);
                    if i > 0 {
                        vstd::arithmetic::div_mod::lemma_mod_self_0(c as int);
                    }
                }
            }
            let mut l2: i128 = l;
            let mut m1: i128 = 1;
            let mut m2: i128 = l;
            if l % c == 0 {
                m2 = l / c;
                proof {
                    vstd::arithmetic::div_mod::lemma_fundamental_div_mod(l as int, c as int);
                    if moderate_members(ms@) {
                        if l == 1 && c > 1 {
                            vstd::arithmetic::div_mod::lemma_small_mod(1, c as nat);
                        }
                        let q = l / c;
                        assert(q == 1) by (nonlinear_arith)
                            requires
                                l == c * q,
                                c >= 1,
                                l == c || l == 1,
                                l == 1 ==> c == 1,
                        ;
                    }
                }
            } else {
                l2 = times(l, c)?;
                m1 = c;
                assert(l2 >= 1) by (nonlinear_arith)
                    requires
                        l2 == l * c,
                        l >= 1,
                        c >= 1,
                ;
            }
            assert(l2 == l * m1 && l2 == c * m2 && l2 >= 1);
            proof {
                if moderate_members(ms@) {
                    assert(m2 == 1);
                    if i == 0 {
                        assert(a == 0);
                        assert(a * m1 == 0);
                    } else {
                        assert(m1 == 1);
                    }
                }
            }
            let a2 = plus(times(a, m1)?, times(t, m2)?)?;
            proof {
                lemma_rescale(a as int, member_product(prev), member_sum(prev), l as int, l2 as int, m1 as int, m2 as int, c as int, t as int);
            }
            l = l2;
            a = a2;
            i = i + 1;
        }
        assert(ms@.subrange(0, n as int) =~= ms@);
        proof {
            if moderate_members(ms@) {
                lemma_mul_bound(l as int, n as int, 65536, 1024);
            }
        }
        let den = times(l, n as i128)?;
        proof {
            let q = member_product(ms@);
            let s = member_sum(ms@);
            assert(den > 0) by (nonlinear_arith)
                requires
                    den == l * n,
                    l >= 1,
                    n >= 1,
            ;
            assert(a * (q * n) == den * s) by (nonlinear_arith)
                requires
                    a * q == s * l,
                    den == l * n,
            ;
        }
        Ok((a, den))
    }
}

/// Every day key of `ps` is one that chrono reads as `YYYY-MM-DD`.
pub open spec fn all_days_read(ps: Seq<DailyPoint>) -> bool {
    forall|i: int| 0 <= i < ps.len() ==> (#[trigger] parsed_date(ps[i].day@, "%Y-%m-%d"@)) is Some
}

/// The point at `i` is the first whose day key chrono cannot read.
pub open spec fn first_unread(ps: Seq<DailyPoint>, i: int) -> bool {
    &&& 0 <= i < ps.len()
    &&& parsed_date(ps[i].day@, "%Y-%m-%d"@) is None
    &&& forall|j: int| 0 <= j < i ==> (#[trigger] parsed_date(ps[j].day@, "%Y-%m-%d"@)) is Some
}

/// The weekday name of each point's day.
pub open spec fn weekday_keys(ps: Seq<DailyPoint>) -> Seq<Seq<char>> {
    ps.map_values(|p: DailyPoint| weekday_key(p.day@)->Some_0)
}

/// The `YYYY-MM` month of each point's day.
pub open spec fn month_keys(ps: Seq<DailyPoint>) -> Seq<Seq<char>> {
    ps.map_values(|p: DailyPoint| month_key(p.day@)->Some_0)
}

impl GameData {
    /// Groups a daily series by weekday name. Fails on the first day key that
    /// is not a `YYYY-MM-DD` date.
    pub fn average_by_day_of_week(points: &Vec<DailyPoint>) -> (r: Result<Vec<RollupBucket>, TrendError>)
        ensures
            match r {
                Ok(bs) => {
                    &&& all_days_read(points@)
                    &&& is_rollup(bs@, points@, weekday_keys(points@))
                    &&& forall|b: int| 0 <= b < bs@.len() ==> is_weekday_name(#[trigger] bs@[b].key@)
                },
                Err(e) => exists|i: int| first_unread(points@, i) && e.is_invalid_date(points@[i].day@),
            },
    {
        let n = points.len();
        let mut keys: Vec<String> = Vec::new();
        let mut i: usize = 0;
        while i < n
            invariant
                n == points.len(),
                i <= n,
                keys.len() == i,
                forall|j: int| 0 <= j < i ==> (#[trigger] parsed_date(points@[j].day@, "%Y-%m-%d"@)) is Some,
                forall|j: int| 0 <= j < i ==> (#[trigger] keys@[j])@ == weekday_key(points@[j].day@)->Some_0,
            decreases n - i,
        {
            match parse_date(points[i].day.as_str(), "%Y-%m-%d") {
                Some(d) => {
                    let w = weekday_number(d);
                    keys.push(weekday_string(w));
                },
                None => {
                    let e = TrendError::InvalidDateFormat(points[i].day.clone());
                    assert(first_unread(points@, i as int));
                    return Err(e);
                },
            }
            i = i + 1;
        }
        let bs = group_by_keys(points, &keys);
        proof {
            let ks = keys@.map_values(|s: String| s@);
            assert(ks =~= weekday_keys(points@));
            assert forall|b: int| 0 <= b < bs@.len() implies is_weekday_name(#[trigger] bs@[b].key@) by {
                assert(key_used(ks, n as int, bs@[b].key@));
                let i = choose|i: int| 0 <= i < n && ks[i] == bs@[b].key@;
                let (y, m, d) = parsed_date(points@[i].day@, "%Y-%m-%d"@)->Some_0;
                let w = weekday_from_monday(y, m, d);
                assert(0 <= w < 7 && bs@[b].key@ == weekday_name(w));
            }
        }
        Ok(bs)
    }

    /// Groups a daily series by `YYYY-MM` month, in ascending order of the
    /// month. Fails on the first day key that is not a `YYYY-MM-DD` date.
    pub fn average_by_month(points: &Vec<DailyPoint>) -> (r: Result<Vec<RollupBucket>, TrendError>)
        ensures
            match r {
                Ok(bs) => all_days_read(points@) && is_rollup(bs@, points@, month_keys(points@)),
                Err(e) => exists|i: int| first_unread(points@, i) && e.is_invalid_date(points@[i].day@),
            },
    {
        let n = points.len();
        let mut keys: Vec<String> = Vec::new();
        let mut i: usize = 0;
        while i < n
            invariant
                n == points.len(),
                i <= n,
                keys.len() == i,
                forall|j: int| 0 <= j < i ==> (#[trigger] parsed_date(points@[j].day@, "%Y-%m-%d"@)) is Some,
                forall|j: int| 0 <= j < i ==> (#[trigger] keys@[j])@ == month_key(points@[j].day@)->Some_0,
            decreases n - i,
        {
            match parse_date(points[i].day.as_str(), "%Y-%m-%d") {
                Some(d) => {
                    keys.push(format_date_as(d, "%Y-%m"));
                },
                None => {
                    let e = TrendError::InvalidDateFormat(points[i].day.clone());
                    assert(first_unread(points@, i as int));
                    return Err(e);
                },
            }
            i = i + 1;
        }
        let bs = group_by_keys(points, &keys);
        assert(keys@.map_values(|s: String| s@) =~= month_keys(points@));
        Ok(bs)
    }
}

proof fn lemma_members_nonempty(ps: Seq<DailyPoint>, ks: Seq<Seq<char>>, key: Seq<char>, i: int)
    requires
        0 <= i < ps.len() <= ks.len(),
        ks[i] == key,
    ensures
        members_of(ps, ks, key).len() >= 1,
    decreases ps.len(),
{
    if i < ps.len() - 1 {
        lemma_members_nonempty(ps.drop_last(), ks, key, i);
    }
}

proof fn lemma_members_counted(ps: Seq<DailyPoint>, ks: Seq<Seq<char>>, key: Seq<char>)
    requires
        ps.len() <= ks.len(),
        all_counted(ps),
    ensures
        forall|m: int| 0 <= m < members_of(ps, ks, key).len() ==> (#[trigger] members_of(ps, ks, key)[m]).1 >= 1,
    decreases ps.len(),
{
    if ps.len() > 0 {
        assert(all_counted(ps.drop_last()));
        lemma_members_counted(ps.drop_last(), ks, key);
        assert(ps.last() == ps[ps.len() - 1]);
        let rest = members_of(ps.drop_last(), ks, key);
        let all = members_of(ps, ks, key);
        assert forall|m: int| 0 <= m < all.len() implies (#[trigger] all[m]).1 >= 1 by {
            if m < rest.len() {
                assert(all[m] == rest[m]);
            }
        }
    }
}

/// Every bucket of a rollup of a daily series holds at least one member, and
/// every member counts at least one sample: each bucket's mean is defined.
pub proof fn lemma_rollup_means_defined(bs: Seq<RollupBucket>, ps: Seq<DailyPoint>, ks: Seq<Seq<char>>)
    requires
        is_rollup(bs, ps, ks),
        ps.len() == ks.len(),
        all_counted(ps),
    ensures
        forall|b: int| 0 <= b < bs.len() ==> {
            &&& (#[trigger] bs[b]).members@.len() >= 1
            &&& forall|m: int| 0 <= m < bs[b].members@.len() ==> (#[trigger] bs[b].members@[m]).1 >= 1
        },
{
    assert forall|b: int| 0 <= b < bs.len() implies {
        &&& (#[trigger] bs[b]).members@.len() >= 1
        &&& forall|m: int| 0 <= m < bs[b].members@.len() ==> (#[trigger] bs[b].members@[m]).1 >= 1
    } by {
        assert(key_used(ks, ps.len() as int, bs[b].key@));
        let i = choose|i: int| 0 <= i < ps.len() && ks[i] == bs[b].key@;
        lemma_members_nonempty(ps, ks, bs[b].key@, i);
        lemma_members_counted(ps, ks, bs[b].key@);
    }
}

proof fn lemma_no_members(ps: Seq<DailyPoint>, ks: Seq<Seq<char>>, key: Seq<char>)
    requires
        ps.len() <= ks.len(),
        forall|i: int| 0 <= i < ps.len() ==> ks[i] != key,
    ensures
        members_of(ps, ks, key) == Seq::<(i128, usize)>::empty(),
    decreases ps.len(),
{
    if ps.len() > 0 {
        lemma_no_members(ps.drop_last(), ks, key);
    }
}

} // verus!
