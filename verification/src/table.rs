//! The listing behind a station map: entries `(name, statistics)` kept in
//! increasing name order, and the map that such a listing stands for.

use vstd::prelude::*;
use crate::search::{
    ByteOrder, bytes_lt, compare_bytes, lemma_bytes_lt_irreflexive, lemma_bytes_lt_total,
    lemma_bytes_lt_transitive,
};
use crate::model::{Stats, StatsMap, map_wf, stats_fit, stats_wf};

verus! {

/// An entry of a listing: a station name and its statistics.
pub type Entry = (Seq<u8>, Stats);

/// The names of `e` strictly increase, so no name occurs twice.
pub open spec fn sorted_keys(e: Seq<Entry>) -> bool {
    forall|i: int, j: int| 0 <= i < j < e.len() ==> bytes_lt(#[trigger] e[i].0, #[trigger] e[j].0)
}

/// `k` is the name of some entry of `e`.
pub open spec fn has_key(e: Seq<Entry>, k: Seq<u8>) -> bool {
    exists|i: int| 0 <= i < e.len() && #[trigger] e[i].0 == k
}

/// A position of `e` that holds name `k`.
pub open spec fn key_position(e: Seq<Entry>, k: Seq<u8>) -> int {
    choose|i: int| 0 <= i < e.len() && #[trigger] e[i].0 == k
}

/// The map that the listing `e` stands for.
pub open spec fn table_map(e: Seq<Entry>) -> StatsMap {
    Map::new(|k: Seq<u8>| has_key(e, k), |k: Seq<u8>| e[key_position(e, k)].1)
}

/// In a sorted listing, a name occurs at one position only.
pub proof fn lemma_sorted_distinct(e: Seq<Entry>, i: int, j: int)
    requires
        sorted_keys(e),
        0 <= i < e.len(),
        0 <= j < e.len(),
        e[i].0 == e[j].0,
    ensures
        i == j,
{
    lemma_bytes_lt_irreflexive(e[i].0);
    if i < j {
        assert(bytes_lt(e[i].0, e[j].0));
    }
    if j < i {
        assert(bytes_lt(e[j].0, e[i].0));
    }
}

/// The map of a sorted listing holds each entry's statistics under its name.
pub proof fn lemma_table_at(e: Seq<Entry>, i: int)
    requires
        sorted_keys(e),
        0 <= i < e.len(),
    ensures
        table_map(e).contains_key(e[i].0),
        table_map(e)[e[i].0] == e[i].1,
{
    assert(has_key(e, e[i].0));
    let p = key_position(e, e[i].0);
    lemma_sorted_distinct(e, i, p);
}

/// The map of the empty listing is empty.
pub proof fn lemma_table_empty(e: Seq<Entry>)
    requires
        e.len() == 0,
    ensures
        table_map(e) == Map::<Seq<u8>, Stats>::empty(),
{
    assert(table_map(e) =~= Map::<Seq<u8>, Stats>::empty());
}

/// Replacing the statistics at one position updates the map under that name.
pub proof fn lemma_table_update(e: Seq<Entry>, i: int, st: Stats)
    requires
        sorted_keys(e),
        0 <= i < e.len(),
    ensures
        sorted_keys(e.update(i, (e[i].0, st))),
        table_map(e.update(i, (e[i].0, st))) == table_map(e).insert(e[i].0, st),
{
    let e2 = e.update(i, (e[i].0, st));
    assert forall|a: int, b: int| 0 <= a < b < e2.len() implies bytes_lt(#[trigger] e2[a].0, #[trigger] e2[b].0) by {
        assert(e2[a].0 == e[a].0);
        assert(e2[b].0 == e[b].0);
    }
    assert forall|k: Seq<u8>| has_key(e2, k) == has_key(e, k) by {
        if has_key(e2, k) {
            let p = choose|p: int| 0 <= p < e2.len() && #[trigger] e2[p].0 == k;
            assert(e[p].0 == k);
        }
        if has_key(e, k) {
            let p = choose|p: int| 0 <= p < e.len() && #[trigger] e[p].0 == k;
            assert(e2[p].0 == k);
        }
    }
    assert forall|k: Seq<u8>| #[trigger] table_map(e2).contains_key(k) implies table_map(e2)[k]
        == table_map(e).insert(e[i].0, st)[k] by {
        let p2 = key_position(e2, k);
        if k == e[i].0 {
            lemma_sorted_distinct(e2, i, p2);
        } else {
            let p = key_position(e, k);
            assert(e2[p].0 == k);
            lemma_sorted_distinct(e2, p, p2);
        }
    }
    assert(table_map(e2) =~= table_map(e).insert(e[i].0, st));
}

/// Inserting a new name at its place in the order keeps the listing sorted
/// and adds the name to the map; the name was not in the map before.
pub proof fn lemma_table_insert(e: Seq<Entry>, i: int, k: Seq<u8>, st: Stats)
    requires
        sorted_keys(e),
        0 <= i <= e.len(),
        forall|j: int| 0 <= j < i ==> bytes_lt(#[trigger] e[j].0, k),
        forall|j: int| i <= j < e.len() ==> bytes_lt(k, #[trigger] e[j].0),
    ensures
        !table_map(e).contains_key(k),
        sorted_keys(e.insert(i, (k, st))),
        table_map(e.insert(i, (k, st))) == table_map(e).insert(k, st),
{
    let e2 = e.insert(i, (k, st));
    lemma_bytes_lt_irreflexive(k);
    if has_key(e, k) {
        let p = choose|p: int| 0 <= p < e.len() && #[trigger] e[p].0 == k;
        if p < i {
            assert(bytes_lt(e[p].0, k));
        } else {
            assert(bytes_lt(k, e[p].0));
        }
    }
    assert forall|a: int, b: int| 0 <= a < b < e2.len() implies bytes_lt(#[trigger] e2[a].0, #[trigger] e2[b].0) by {
        if a < i && b < i {
            assert(e2[a] == e[a] && e2[b] == e[b]);
        } else if a < i && b == i {
            assert(e2[a] == e[a]);
        } else if a < i {
            assert(e2[a] == e[a] && e2[b] == e[b - 1]);
        } else if a == i {
            assert(e2[b] == e[b - 1]);
        } else {
            assert(e2[a] == e[a - 1] && e2[b] == e[b - 1]);
        }
    }
    assert forall|q: Seq<u8>| has_key(e2, q) == (has_key(e, q) || q == k) by {
        if has_key(e2, q) {
            let p = choose|p: int| 0 <= p < e2.len() && #[trigger] e2[p].0 == q;
            if p < i {
                assert(e[p].0 == q);
            } else if p > i {
                assert(e[p - 1].0 == q);
            }
        }
        if has_key(e, q) {
            let p = choose|p: int| 0 <= p < e.len() && #[trigger] e[p].0 == q;
            if p < i {
                assert(e2[p].0 == q);
            } else {
                assert(e2[p + 1].0 == q);
            }
        }
        if q == k {
            assert(e2[i].0 == q);
        }
    }
    assert forall|q: Seq<u8>| #[trigger] table_map(e2).contains_key(q) implies table_map(e2)[q]
        == table_map(e).insert(k, st)[q] by {
        let p2 = key_position(e2, q);
        if q == k {
            assert(e2[i].0 == k);
            lemma_sorted_distinct(e2, i, p2);
        } else {
            let p = key_position(e, q);
            if p < i {
                assert(e2[p] == e[p]);
                lemma_sorted_distinct(e2, p, p2);
            } else {
                assert(e2[p + 1] == e[p]);
                lemma_sorted_distinct(e2, p + 1, p2);
            }
        }
    }
    assert(table_map(e2) =~= table_map(e).insert(k, st));
}

/// Appending an entry whose name follows all others adds it to the map.
pub proof fn lemma_table_push(e: Seq<Entry>, x: Entry)
    requires
        sorted_keys(e.push(x)),
    ensures
        sorted_keys(e),
        !table_map(e).contains_key(x.0),
        table_map(e.push(x)) == table_map(e).insert(x.0, x.1),
{
    assert forall|a: int, b: int| 0 <= a < b < e.len() implies bytes_lt(#[trigger] e[a].0, #[trigger] e[b].0) by {
        assert(e.push(x)[a] == e[a] && e.push(x)[b] == e[b]);
    }
    assert forall|j: int| 0 <= j < e.len() implies bytes_lt(#[trigger] e[j].0, x.0) by {
        assert(e.push(x)[j] == e[j] && e.push(x)[e.len() as int] == x);
    }
    assert(e.insert(e.len() as int, x) =~= e.push(x));
    lemma_table_insert(e, e.len() as int, x.0, x.1);
}

/// A station as a listing holds it: a name and statistics.
pub trait Listed {
    /// The station's name and statistics.
    spec fn entry(&self) -> Entry;

    /// The bytes of the station's name.
    fn name_bytes(&self) -> (r: &[u8])
        ensures
            r@ == self.entry().0,
    ;

    /// The statistics fit the integer types of the station's fields.
    proof fn lemma_entry_fits(&self)
        ensures
            stats_fit(self.entry().1),
    ;
}

/// The entries of a list of stations.
pub open spec fn entries_of<S: Listed>(v: Seq<S>) -> Seq<Entry> {
    v.map_values(|s: S| s.entry())
}

/// The map of a sorted listing has a finite domain with one name per entry.
pub proof fn lemma_table_dom(e: Seq<Entry>)
    requires
        sorted_keys(e),
    ensures
        table_map(e).dom().finite(),
        table_map(e).dom().len() == e.len(),
{
    let keys = e.map_values(|x: Entry| x.0);
    assert(table_map(e).dom() =~= keys.to_set()) by {
        assert forall|k: Seq<u8>| table_map(e).dom().contains(k) implies keys.to_set().contains(k) by {
            let p = key_position(e, k);
            assert(keys[p] == k);
        }
        assert forall|k: Seq<u8>| keys.to_set().contains(k) implies table_map(e).dom().contains(k) by {
            let p = choose|p: int| 0 <= p < keys.len() && keys[p] == k;
            assert(e[p].0 == k);
        }
    }
    assert(keys.no_duplicates()) by {
        assert forall|i: int, j: int| 0 <= i < keys.len() && 0 <= j < keys.len() && i != j implies keys[i] != keys[j] by {
            if keys[i] == keys[j] {
                lemma_sorted_distinct(e, i, j);
            }
        }
    }
    keys.unique_seq_to_set();
}

/// What the listing of a list of sorted stations with well-formed
/// statistics says of its map: a finite domain with one name per station,
/// and under every name statistics that are well formed and fit the
/// fields' integer types.
pub proof fn lemma_listed_map<S: Listed>(v: Seq<S>)
    requires
        sorted_keys(entries_of(v)),
        forall|i: int| 0 <= i < v.len() ==> stats_wf(#[trigger] v[i].entry().1),
    ensures
        table_map(entries_of(v)).dom().finite(),
        table_map(entries_of(v)).dom().len() == v.len(),
        map_wf(table_map(entries_of(v))),
        forall|i: int| 0 <= i < v.len() ==> stats_wf(#[trigger] entries_of(v)[i].1),
        forall|k: Seq<u8>| #[trigger] table_map(entries_of(v)).contains_key(k) ==> stats_fit(
            table_map(entries_of(v))[k],
        ),
{
    let e = entries_of(v);
    lemma_table_dom(e);
    assert forall|i: int| 0 <= i < v.len() implies stats_wf(#[trigger] e[i].1) by {
        assert(e[i] == v[i].entry());
    }
    assert forall|k: Seq<u8>| #[trigger] table_map(e).contains_key(k) implies stats_wf(table_map(e)[k])
        && stats_fit(table_map(e)[k]) by {
        let p = key_position(e, k);
        assert(e[p] == v[p].entry());
        v[p].lemma_entry_fits();
    }
}

/// Position in the sorted list `v` where `name` is, or where it belongs in
/// the order.
pub fn locate<S: Listed>(v: &Vec<S>, name: &[u8]) -> (r: (usize, bool))
    requires
        sorted_keys(entries_of(v@)),
    ensures
        r.0 <= v@.len(),
        forall|j: int| 0 <= j < r.0 ==> bytes_lt(#[trigger] entries_of(v@)[j].0, name@),
        r.1 ==> r.0 < v@.len() && entries_of(v@)[r.0 as int].0 == name@,
        !r.1 ==> forall|j: int| r.0 <= j < v@.len() ==> bytes_lt(name@, #[trigger] entries_of(v@)[j].0),
{
    let ghost e = entries_of(v@);
    let mut lo: usize = 0;
    let mut hi: usize = v.len();
    while lo < hi
        invariant
            lo <= hi <= v@.len(),
            e == entries_of(v@),
            e.len() == v@.len(),
            sorted_keys(e),
            forall|j: int| 0 <= j < lo ==> bytes_lt(#[trigger] e[j].0, name@),
            forall|j: int| hi <= j < e.len() ==> !bytes_lt(#[trigger] e[j].0, name@),
        decreases hi - lo,
    {
        let mid = lo + (hi - lo) / 2;
        let o = compare_bytes(v[mid].name_bytes(), name);
        if o == ByteOrder::Less {
            proof {
                assert forall|j: int| 0 <= j <= mid implies bytes_lt(#[trigger] e[j].0, name@) by {
                    if j < mid {
                        lemma_bytes_lt_transitive(e[j].0, e[mid as int].0, name@);
                    }
                }
            }
            lo = mid + 1;
        } else {
            proof {
                assert forall|j: int| mid <= j < e.len() implies !bytes_lt(#[trigger] e[j].0, name@) by {
                    if j > mid && bytes_lt(e[j].0, name@) {
                        lemma_bytes_lt_transitive(e[mid as int].0, e[j].0, name@);
                    }
                }
            }
            hi = mid;
        }
    }
    if lo < v.len() {
        let o = compare_bytes(v[lo].name_bytes(), name);
        if o == ByteOrder::Equal {
            return (lo, true);
        }
        proof {
            lemma_bytes_lt_total(e[lo as int].0, name@);
            assert forall|j: int| lo <= j < e.len() implies bytes_lt(name@, #[trigger] e[j].0) by {
                if j > lo {
                    lemma_bytes_lt_transitive(name@, e[lo as int].0, e[j].0);
                }
            }
        }
    }
    (lo, false)
}

/// The station of the sorted list `v` named `name`, if there is one.
pub fn lookup<'v, S: Listed>(v: &'v Vec<S>, name: &[u8]) -> (r: Option<&'v S>)
    requires
        sorted_keys(entries_of(v@)),
    ensures
        r is Some <==> table_map(entries_of(v@)).contains_key(name@),
        r matches Some(s) ==> s.entry() == (name@, table_map(entries_of(v@))[name@]),
{
    let (i, found) = locate(v, name);
    proof {
        let e = entries_of(v@);
        if found {
            lemma_table_at(e, i as int);
        } else {
            lemma_table_insert(e, i as int, name@, Stats { min: 0, max: 0, sum: 0, count: 0 });
        }
    }
    if found {
        Some(&v[i])
    } else {
        None
    }
}

/// Two sorted listings that stand for the same map are the same listing:
/// the map decides the listing, whatever built it.
pub proof fn law_sorted_listing_unique(e1: Seq<Entry>, e2: Seq<Entry>)
    requires
        sorted_keys(e1),
        sorted_keys(e2),
        table_map(e1) == table_map(e2),
    ensures
        e1 == e2,
    decreases e1.len(),
{
    if e1.len() == 0 || e2.len() == 0 {
        if e1.len() > 0 {
            lemma_table_at(e1, 0);
            lemma_table_empty(e2);
        }
        if e2.len() > 0 {
            lemma_table_at(e2, 0);
            lemma_table_empty(e1);
        }
        assert(e1 =~= e2);
    } else {
        let k1 = e1[0].0;
        let k2 = e2[0].0;
        lemma_table_at(e1, 0);
        lemma_table_at(e2, 0);
        let p = key_position(e2, k1);
        let q = key_position(e1, k2);
        lemma_bytes_lt_irreflexive(k1);
        if p > 0 {
            assert(bytes_lt(e2[0].0, e2[p].0));
            if q > 0 {
                assert(bytes_lt(e1[0].0, e1[q].0));
                lemma_bytes_lt_transitive(k1, k2, k1);
            }
        }
        assert(k1 == k2);
        let r1 = e1.drop_first();
        let r2 = e2.drop_first();
        assert forall|a: int, b: int| 0 <= a < b < r1.len() implies bytes_lt(#[trigger] r1[a].0, #[trigger] r1[b].0) by {
            assert(r1[a] == e1[a + 1] && r1[b] == e1[b + 1]);
        }
        assert forall|a: int, b: int| 0 <= a < b < r2.len() implies bytes_lt(#[trigger] r2[a].0, #[trigger] r2[b].0) by {
            assert(r2[a] == e2[a + 1] && r2[b] == e2[b + 1]);
        }
        assert forall|j: int| 0 <= j < r1.len() implies bytes_lt(k1, #[trigger] r1[j].0) by {
            assert(r1[j] == e1[j + 1]);
        }
        assert forall|j: int| 0 <= j < r2.len() implies bytes_lt(k1, #[trigger] r2[j].0) by {
            assert(r2[j] == e2[j + 1]);
        }
        lemma_table_insert(r1, 0, k1, e1[0].1);
        lemma_table_insert(r2, 0, k1, e2[0].1);
        assert(r1.insert(0, (k1, e1[0].1)) =~= e1);
        assert(r2.insert(0, (k1, e2[0].1)) =~= e2);
        assert(table_map(r1) =~= table_map(r2)) by {
            assert forall|k: Seq<u8>| table_map(r1).contains_key(k) == table_map(r2).contains_key(k) by {
                if k != k1 {
                    assert(table_map(e1).contains_key(k) == table_map(r1).contains_key(k));
                    assert(table_map(e2).contains_key(k) == table_map(r2).contains_key(k));
                }
            }
            assert forall|k: Seq<u8>| #[trigger] table_map(r1).contains_key(k) implies table_map(r1)[k]
                == table_map(r2)[k] by {
                assert(table_map(e1)[k] == table_map(r1)[k]);
                assert(table_map(e2)[k] == table_map(r2)[k]);
            }
        }
        law_sorted_listing_unique(r1, r2);
        assert(e1 =~= e2);
    }
}

} // verus!
