//! The mathematical model of the computation: per-station statistics, their
//! aggregation over a sequence of readings, the merge of two aggregations,
//! and the laws that tie these together.

use vstd::prelude::*;
use crate::reading::mean_of_tenths;
use vstd::arithmetic::div_mod::lemma_fundamental_div_mod;

verus! {

/// Statistics of the readings of one station: the smallest and largest
/// reading, their total, and how many there were.
pub ghost struct Stats {
    pub min: int,
    pub max: int,
    pub sum: int,
    pub count: int,
}

/// Statistics keyed by station name.
pub type StatsMap = Map<Seq<u8>, Stats>;

pub open spec fn min_int(a: int, b: int) -> int {
    if a <= b {
        a
    } else {
        b
    }
}

pub open spec fn max_int(a: int, b: int) -> int {
    if a >= b {
        a
    } else {
        b
    }
}

/// The statistics of a single reading.
pub open spec fn single(t: int) -> Stats {
    Stats { min: t, max: t, sum: t, count: 1 }
}

/// The statistics after one more reading `t`.
pub open spec fn add_reading(s: Stats, t: int) -> Stats {
    Stats { min: min_int(s.min, t), max: max_int(s.max, t), sum: s.sum + t, count: s.count + 1 }
}

/// The statistics of the readings counted in `a` together with those in `b`.
pub open spec fn merge_stats(a: Stats, b: Stats) -> Stats {
    Stats {
        min: min_int(a.min, b.min),
        max: max_int(a.max, b.max),
        sum: a.sum + b.sum,
        count: a.count + b.count,
    }
}

/// Statistics that some non-empty list of readings has: at least one
/// reading, and a total between `count * min` and `count * max`.
pub open spec fn stats_wf(s: Stats) -> bool {
    &&& s.count >= 1
    &&& s.min <= s.max
    &&& s.count * s.min <= s.sum <= s.count * s.max
}

/// Statistics whose total fits an `i64` and whose count fits a `u32`.
pub open spec fn stats_fit(s: Stats) -> bool {
    &&& i64::MIN <= s.sum <= i64::MAX
    &&& 0 <= s.count <= u32::MAX
    &&& i32::MIN <= s.min <= i32::MAX
    &&& i32::MIN <= s.max <= i32::MAX
}

/// `m` after one more reading `t` of station `name`.
pub open spec fn record_into(m: StatsMap, name: Seq<u8>, t: int) -> StatsMap {
    if m.contains_key(name) {
        m.insert(name, add_reading(m[name], t))
    } else {
        m.insert(name, single(t))
    }
}

/// `a` and `b` combined: a station in both gets the merge of its two
/// statistics, a station in one of them keeps its statistics.
pub open spec fn merge_maps(a: StatsMap, b: StatsMap) -> StatsMap {
    Map::new(
        |k: Seq<u8>| a.contains_key(k) || b.contains_key(k),
        |k: Seq<u8>|
            if a.contains_key(k) && b.contains_key(k) {
                merge_stats(a[k], b[k])
            } else if a.contains_key(k) {
                a[k]
            } else {
                b[k]
            },
    )
}

/// `m` after the readings `recs`, in order.
pub open spec fn aggregate_onto(m: StatsMap, recs: Seq<(Seq<u8>, int)>) -> StatsMap
    decreases recs.len(),
{
    if recs.len() == 0 {
        m
    } else {
        aggregate_onto(record_into(m, recs[0].0, recs[0].1), recs.drop_first())
    }
}

/// The statistics of each station that occurs in `recs`.
pub open spec fn aggregate(recs: Seq<(Seq<u8>, int)>) -> StatsMap {
    aggregate_onto(Map::empty(), recs)
}

/// Left fold of `merge_maps` over `maps`, starting from the empty map.
pub open spec fn merge_all(maps: Seq<StatsMap>) -> StatsMap
    decreases maps.len(),
{
    if maps.len() == 0 {
        Map::empty()
    } else {
        merge_maps(merge_all(maps.drop_last()), maps.last())
    }
}

pub proof fn lemma_merge_maps_empty(m: StatsMap)
    ensures
        merge_maps(m, Map::empty()) == m,
        merge_maps(Map::empty(), m) == m,
{
    assert(merge_maps(m, Map::empty()) =~= m);
    assert(merge_maps(Map::empty(), m) =~= m);
}

/// Merging statistics is associative.
pub proof fn law_merge_maps_associative(a: StatsMap, b: StatsMap, c: StatsMap)
    ensures
        merge_maps(merge_maps(a, b), c) == merge_maps(a, merge_maps(b, c)),
{
    assert(merge_maps(merge_maps(a, b), c) =~= merge_maps(a, merge_maps(b, c)));
}

/// Merging statistics is commutative.
pub proof fn law_merge_maps_commutative(a: StatsMap, b: StatsMap)
    ensures
        merge_maps(a, b) == merge_maps(b, a),
{
    assert(merge_maps(a, b) =~= merge_maps(b, a));
}

proof fn lemma_record_into_is_merge(m: StatsMap, name: Seq<u8>, t: int)
    ensures
        record_into(m, name, t) == merge_maps(m, Map::empty().insert(name, single(t))),
{
    assert(record_into(m, name, t) =~= merge_maps(m, Map::empty().insert(name, single(t))));
}

proof fn lemma_aggregate_onto(m: StatsMap, recs: Seq<(Seq<u8>, int)>)
    ensures
        aggregate_onto(m, recs) == merge_maps(m, aggregate(recs)),
    decreases recs.len(),
{
    if recs.len() == 0 {
        lemma_merge_maps_empty(m);
    } else {
        let x = recs[0];
        let s = Map::empty().insert(x.0, single(x.1));
        let rest = recs.drop_first();
        lemma_aggregate_onto(record_into(m, x.0, x.1), rest);
        lemma_aggregate_onto(record_into(Map::empty(), x.0, x.1), rest);
        lemma_record_into_is_merge(m, x.0, x.1);
        assert(record_into(Map::empty(), x.0, x.1) == s);
        law_merge_maps_associative(m, s, aggregate(rest));
    }
}

proof fn lemma_aggregate_onto_concat(m: StatsMap, r1: Seq<(Seq<u8>, int)>, r2: Seq<(Seq<u8>, int)>)
    ensures
        aggregate_onto(m, r1 + r2) == aggregate_onto(aggregate_onto(m, r1), r2),
    decreases r1.len(),
{
    if r1.len() == 0 {
        assert(r1 + r2 =~= r2);
    } else {
        assert((r1 + r2).drop_first() =~= r1.drop_first() + r2);
        lemma_aggregate_onto_concat(record_into(m, r1[0].0, r1[0].1), r1.drop_first(), r2);
    }
}

/// Aggregating two runs of readings one after the other gives the merge of
/// their separate aggregations: the work can be split and combined.
pub proof fn law_aggregate_concat(r1: Seq<(Seq<u8>, int)>, r2: Seq<(Seq<u8>, int)>)
    ensures
        aggregate(r1 + r2) == merge_maps(aggregate(r1), aggregate(r2)),
{
    lemma_aggregate_onto_concat(Map::empty(), r1, r2);
    lemma_aggregate_onto(aggregate(r1), r2);
}

/// The statistics of one reading are well formed.
pub proof fn law_single_wf(t: int)
    ensures
        stats_wf(single(t)),
{
}

/// One more reading keeps statistics well formed.
pub proof fn law_add_reading_wf(s: Stats, t: int)
    requires
        stats_wf(s),
    ensures
        stats_wf(add_reading(s, t)),
{
    let r = add_reading(s, t);
    assert(r.count * r.min <= r.sum) by (nonlinear_arith)
        requires
            r.count == s.count + 1,
            r.min <= s.min,
            r.min <= t,
            r.sum == s.sum + t,
            s.count * s.min <= s.sum,
            s.count >= 1,
    ;
    assert(r.sum <= r.count * r.max) by (nonlinear_arith)
        requires
            r.count == s.count + 1,
            r.max >= s.max,
            r.max >= t,
            r.sum == s.sum + t,
            s.sum <= s.count * s.max,
            s.count >= 1,
    ;
}

/// Merging keeps statistics well formed.
pub proof fn law_merge_stats_wf(a: Stats, b: Stats)
    requires
        stats_wf(a),
        stats_wf(b),
    ensures
        stats_wf(merge_stats(a, b)),
{
    let r = merge_stats(a, b);
    assert(r.count * r.min <= r.sum) by (nonlinear_arith)
        requires
            r.count == a.count + b.count,
            r.min <= a.min,
            r.min <= b.min,
            r.sum == a.sum + b.sum,
            a.count * a.min <= a.sum,
            b.count * b.min <= b.sum,
            a.count >= 1,
            b.count >= 1,
    ;
    assert(r.sum <= r.count * r.max) by (nonlinear_arith)
        requires
            r.count == a.count + b.count,
            r.max >= a.max,
            r.max >= b.max,
            r.sum == a.sum + b.sum,
            a.sum <= a.count * a.max,
            b.sum <= b.count * b.max,
            a.count >= 1,
            b.count >= 1,
    ;
}

/// Every station in a map.
pub open spec fn map_wf(m: StatsMap) -> bool {
    forall|k: Seq<u8>| #[trigger] m.contains_key(k) ==> stats_wf(m[k])
}

/// Every station of an aggregation has well-formed statistics.
pub proof fn law_aggregate_wf(m: StatsMap, recs: Seq<(Seq<u8>, int)>)
    requires
        map_wf(m),
    ensures
        map_wf(aggregate_onto(m, recs)),
    decreases recs.len(),
{
    if recs.len() > 0 {
        let x = recs[0];
        let m2 = record_into(m, x.0, x.1);
        assert forall|k: Seq<u8>| #[trigger] m2.contains_key(k) implies stats_wf(m2[k]) by {
            if k == x.0 && m.contains_key(k) {
                law_add_reading_wf(m[k], x.1);
            }
        }
        law_aggregate_wf(m2, recs.drop_first());
    }
}

/// Merging keeps every station's statistics well formed.
pub proof fn law_merge_maps_wf(a: StatsMap, b: StatsMap)
    requires
        map_wf(a),
        map_wf(b),
    ensures
        map_wf(merge_maps(a, b)),
{
    let m = merge_maps(a, b);
    assert forall|k: Seq<u8>| #[trigger] m.contains_key(k) implies stats_wf(m[k]) by {
        if a.contains_key(k) && b.contains_key(k) {
            law_merge_stats_wf(a[k], b[k]);
        }
    }
}

/// The mean lies between the smallest and the largest reading, both when
/// rounded down and when rounded to the nearest unit (halves upward).
pub proof fn law_mean_between_min_and_max(s: Stats)
    requires
        stats_wf(s),
    ensures
        s.min <= s.sum / s.count <= s.max,
        s.min <= mean_of_tenths(s.sum, s.count) <= s.max,
{
    let q = s.sum / s.count;
    let r = s.sum % s.count;
    lemma_fundamental_div_mod(s.sum, s.count);
    assert(s.min <= q <= s.max) by (nonlinear_arith)
        requires
            s.sum == q * s.count + r,
            0 <= r < s.count,
            s.count * s.min <= s.sum <= s.count * s.max,
    ;
    let m = mean_of_tenths(s.sum, s.count);
    lemma_fundamental_div_mod(2 * s.sum + s.count, 2 * s.count);
    assert(s.min <= m <= s.max) by (nonlinear_arith)
        requires
            2 * s.sum + s.count == m * (2 * s.count) + (2 * s.sum + s.count) % (2 * s.count),
            0 <= (2 * s.sum + s.count) % (2 * s.count) < 2 * s.count,
            s.count >= 1,
            s.count * s.min <= s.sum <= s.count * s.max,
    ;
}

/// Merging `b` into `a` keeps every total within `i64` and every count within `u32`.
pub open spec fn merge_fits(a: StatsMap, b: StatsMap) -> bool {
    forall|k: Seq<u8>|
        #![trigger a.contains_key(k), b.contains_key(k)]
        a.contains_key(k) && b.contains_key(k) ==> stats_fit(merge_stats(a[k], b[k]))
}

/// Two maps whose minima and maxima fit `i32` and whose counts are not
/// negative can be merged exactly when, for every station in both, the
/// summed total fits `i64` and the summed count fits `u32`; the merged
/// minimum and maximum are among the given ones and always fit.
pub proof fn law_merge_fits_iff_totals_fit(a: StatsMap, b: StatsMap)
    requires
        forall|k: Seq<u8>|
            #[trigger] a.contains_key(k) ==> i32::MIN <= a[k].min <= i32::MAX && i32::MIN <= a[k].max
                <= i32::MAX && 0 <= a[k].count,
        forall|k: Seq<u8>|
            #[trigger] b.contains_key(k) ==> i32::MIN <= b[k].min <= i32::MAX && i32::MIN <= b[k].max
                <= i32::MAX && 0 <= b[k].count,
    ensures
        merge_fits(a, b) <==> forall|k: Seq<u8>|
            #![trigger a.contains_key(k), b.contains_key(k)]
            a.contains_key(k) && b.contains_key(k) ==> i64::MIN <= a[k].sum + b[k].sum <= i64::MAX && a[k].count
                + b[k].count <= u32::MAX,
{
}

/// Left fold of `merge_maps` over `maps` from the empty map, failing at the
/// first merge that does not fit.
pub open spec fn merge_all_checked(maps: Seq<StatsMap>) -> Option<StatsMap>
    decreases maps.len(),
{
    if maps.len() == 0 {
        Some(Map::empty())
    } else {
        match merge_all_checked(maps.drop_last()) {
            Some(m) => if merge_fits(m, maps.last()) {
                Some(merge_maps(m, maps.last()))
            } else {
                None
            },
            None => None,
        }
    }
}

/// A fold that fits is the plain fold.
pub proof fn lemma_merge_all_checked(maps: Seq<StatsMap>)
    ensures
        merge_all_checked(maps) matches Some(m) ==> m == merge_all(maps),
    decreases maps.len(),
{
    if maps.len() > 0 {
        lemma_merge_all_checked(maps.drop_last());
    }
}

/// Merging a map with one station.
pub proof fn lemma_merge_single(m: StatsMap, k: Seq<u8>, st: Stats)
    ensures
        merge_maps(m, Map::empty().insert(k, st)) == (if m.contains_key(k) {
            m.insert(k, merge_stats(m[k], st))
        } else {
            m.insert(k, st)
        }),
{
    assert(merge_maps(m, Map::empty().insert(k, st)) =~= (if m.contains_key(k) {
        m.insert(k, merge_stats(m[k], st))
    } else {
        m.insert(k, st)
    }));
}

/// Once a prefix of the fold fails, the whole fold fails.
pub proof fn lemma_merge_all_checked_none(maps: Seq<StatsMap>, n: int)
    requires
        0 <= n <= maps.len(),
        merge_all_checked(maps.take(n)) is None,
    ensures
        merge_all_checked(maps) is None,
    decreases maps.len() - n,
{
    if n < maps.len() {
        assert(maps.take(n + 1).drop_last() =~= maps.take(n));
        lemma_merge_all_checked_none(maps, n + 1);
    } else {
        assert(maps.take(n) =~= maps);
    }
}

} // verus!
