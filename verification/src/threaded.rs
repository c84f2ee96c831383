//! The multi-threaded aggregation: temperatures kept in hundredths of a
//! degree, stations that borrow their names from the mapped input file, the
//! cutting of the file into newline-aligned chunks, the per-chunk parse that
//! each worker runs, the merge of the workers' maps, and the sorted summary.

use vstd::prelude::*;
use vstd::slice::slice_subrange;
use crate::search::{bytes_lt, find_byte, lemma_first_index_is, memchr_positions};
use crate::reading::{
    digits_value, floor_div, hundredths_text, lemma_halfway_by_magnitude, magnitude, mean_of_hundredths,
    parse_reading, push_hundredths, push_signed_tenths, reading_value, signed_tenths_text,
};
use crate::model::{
    Stats, StatsMap, add_reading, map_wf, merge_maps, merge_stats, record_into, single, stats_fit,
    stats_wf, law_add_reading_wf, law_merge_stats_wf, lemma_merge_single, lemma_merge_maps_empty,
    law_merge_maps_associative, law_merge_fits_iff_totals_fit, merge_fits, merge_all, merge_all_checked, lemma_merge_all_checked,
    lemma_merge_all_checked_none,
};
use crate::input::{
    LineError, chunk_ends, chunk_pairs, chunk_results, law_chunked_run, law_chunks_exist, law_lines_order_irrelevant, lines,
    run_lines, step,
};
use crate::table::{
    Entry, Listed, entries_of, key_position, law_sorted_listing_unique, lemma_listed_map, lemma_table_at,
    lemma_table_dom, lemma_table_empty, lemma_table_insert, lemma_table_push, lemma_table_update, locate,
    lookup, sorted_keys, table_map,
};

pub use crate::reading::round_to_1decimal;

verus! {

/// The readings of one station. Temperatures are in hundredths of a degree.
#[derive(Debug, Default, Clone, Copy)]
pub struct Station<'a> {
    pub name: &'a [u8],
    pub min: i32,
    pub max: i32,
    pub sum: i64,
    pub count: u32,
}

impl<'a> Station<'a> {
    /// The statistics held in the fields.
    pub open spec fn stats(&self) -> Stats {
        Stats { min: self.min as int, max: self.max as int, sum: self.sum as int, count: self.count as int }
    }

    /// A station with the single reading `temp`.
    pub fn new(name: &'a [u8], temp: i32) -> (r: Self)
        ensures
            r.name@ == name@,
            r.stats() == single(temp as int),
    {
        Self { name, min: temp, max: temp, sum: temp as i64, count: 1 }
    }
}

impl<'a> Listed for Station<'a> {
    open spec fn entry(&self) -> Entry {
        (self.name@, self.stats())
    }

    fn name_bytes(&self) -> (r: &[u8]) {
        self.name
    }

    proof fn lemma_entry_fits(&self) {
    }
}

/// The stations seen so far, one per name, kept in increasing name order.
pub struct StationMap<'a> {
    stations: Vec<Station<'a>>,
}

impl<'a> View for StationMap<'a> {
    type V = StatsMap;

    closed spec fn view(&self) -> StatsMap {
        table_map(entries_of(self.stations@))
    }
}

impl<'a> StationMap<'a> {
    /// The stations are sorted by name and hold well-formed statistics; every
    /// map keeps this at all times.
    #[verifier::type_invariant]
    pub closed spec fn wf(&self) -> bool {
        &&& sorted_keys(entries_of(self.stations@))
        &&& forall|i: int| 0 <= i < self.stations@.len() ==> stats_wf(#[trigger] self.stations@[i].stats())
    }

    /// The entries in increasing name order.
    pub closed spec fn listing(&self) -> Seq<Entry> {
        entries_of(self.stations@)
    }

    /// The listing is sorted by name and stands for the map, so it is the
    /// map's entries in increasing name order, one per name of the map's
    /// finite domain; every station's statistics are well formed and fit
    /// the fields' integer types.
    pub proof fn lemma_listing(&self)
        requires
            self.wf(),
        ensures
            sorted_keys(self.listing()),
            table_map(self.listing()) == self@,
            self@.dom().finite(),
            self@.dom().len() == self.listing().len(),
            forall|i: int| 0 <= i < self.listing().len() ==> stats_wf(#[trigger] self.listing()[i].1),
            map_wf(self@),
            forall|k: Seq<u8>| #[trigger] self@.contains_key(k) ==> stats_fit(self@[k]),
    {
        lemma_listed_map(self.stations@);
    }

    /// Two maps with the same stations list them alike: the listing, and
    /// with it every text made from it, depends on the map alone.
    pub proof fn law_listing_determined(&self, other: &Self)
        requires
            self.wf(),
            other.wf(),
            self@ == other@,
        ensures
            self.listing() == other.listing(),
    {
        law_sorted_listing_unique(self.listing(), other.listing());
    }

    /// Every station of a map has well-formed statistics: at least one
    /// reading, and a total between `count * min` and `count * max`.
    pub proof fn law_map_wf(&self)
        requires
            self.wf(),
        ensures
            map_wf(self@),
    {
        self.lemma_listing();
    }

    /// An empty map.
    pub fn new() -> (r: Self)
        ensures
            r@ == Map::<Seq<u8>, Stats>::empty(),
    {
        let r = StationMap { stations: Vec::new() };
        proof {
            lemma_table_empty(entries_of(r.stations@));
        }
        r
    }

    /// The number of stations.
    pub fn len(&self) -> (r: usize)
        ensures
            self@.dom().finite(),
            r == self@.dom().len(),
    {
        proof {
            use_type_invariant(self);
            lemma_table_dom(entries_of(self.stations@));
        }
        self.stations.len()
    }

    /// The station named `name`, if there is one.
    pub fn get(&self, name: &[u8]) -> (r: Option<&Station<'a>>)
        ensures
            r is Some <==> self@.contains_key(name@),
            r matches Some(s) ==> s.name@ == name@ && s.stats() == self@[name@],
    {
        proof {
            use_type_invariant(self);
        }
        lookup(&self.stations, name)
    }
}


impl<'a> StationMap<'a> {
    /// Takes one more reading `t` of station `name`; refused, with nothing
    /// changed, when the station's total or count would overflow.
    fn record(&mut self, name: &'a [u8], t: i32) -> (r: Result<(), LineError>)
        ensures
            if old(self)@.contains_key(name@) && !stats_fit(add_reading(old(self)@[name@], t as int)) {
                r == Err::<(), LineError>(LineError::Overflow) && final(self)@ == old(self)@
            } else {
                r == Ok::<(), LineError>(()) && final(self)@ == record_into(old(self)@, name@, t as int)
            },
    {
        proof {
            use_type_invariant(&*self);
        }
        let ghost e = entries_of(self.stations@);
        let (i, found) = locate(&self.stations, name);
        if found {
            let s = self.stations[i];
            proof {
                assert(e[i as int] == s.entry());
                lemma_table_at(e, i as int);
            }
            if s.count == 4294967295u32 {
                return Err(LineError::Overflow);
            }
            let sum = match s.sum.checked_add(t as i64) {
                Some(v) => v,
                None => {
                    return Err(LineError::Overflow);
                },
            };
            let updated = Station {
                name: s.name,
                min: if t < s.min { t } else { s.min },
                max: if t > s.max { t } else { s.max },
                sum,
                count: s.count + 1,
            };
            let mut v: Vec<Station<'a>> = Vec::new();
            std::mem::swap(&mut v, &mut self.stations);
            v.set(i, updated);
            proof {
                assert(updated.stats() == add_reading(s.stats(), t as int));
                law_add_reading_wf(s.stats(), t as int);
                lemma_table_update(e, i as int, updated.stats());
                assert(entries_of(v@) =~= e.update(i as int, (e[i as int].0, updated.stats())));
            }
            self.stations = v;
        } else {
            let fresh = Station::new(name, t);
            let mut v: Vec<Station<'a>> = Vec::new();
            std::mem::swap(&mut v, &mut self.stations);
            v.insert(i, fresh);
            proof {
                lemma_table_insert(e, i as int, name@, single(t as int));
                assert(entries_of(v@) =~= e.insert(i as int, (name@, single(t as int))));
            }
            self.stations = v;
        }
        Ok(())
    }
}

/// Reads a temperature in hundredths of a degree: the digits of
/// `temperature` read as a number of tenths, times ten, negated when a `-`
/// occurs. `b"10.20"` gives `10200`.
pub fn parse_float_str_to_int(temperature: &[u8]) -> (r: i32)
    requires
        digits_value(temperature@) * 10 <= i32::MAX,
    ensures
        r == reading_value(temperature@) * 10,
{
    match parse_reading(temperature, 10) {
        Some(v) => v,
        None => {
            proof {
                assert(false);
            }
            0
        },
    }
}

/// Takes one line `name;temperature` into `stations`, as `step` says with
/// temperatures in hundredths: an empty line changes nothing; a line
/// without `;` is refused; the name is what comes before the first `;` and
/// borrows from `line`.
pub fn parse<'a>(line: &'a [u8], stations: &mut StationMap<'a>) -> (r: Result<(), LineError>)
    ensures
        match step(old(stations)@, line@, 10) {
            Ok(m) => r == Ok::<(), LineError>(()) && final(stations)@ == m,
            Err(e) => r == Err::<(), LineError>(e) && final(stations)@ == old(stations)@,
        },
{
    if line.len() == 0 {
        return Ok(());
    }
    match find_byte(59u8, line) {
        None => Err(LineError::MissingSemicolon),
        Some(semi) => {
            let station_name = slice_subrange(line, 0, semi);
            let temp_str = slice_subrange(line, semi + 1, line.len());
            proof {
                assert(station_name@ =~= line@.take(semi as int));
                assert(temp_str@ =~= line@.skip(semi + 1));
            }
            match parse_reading(temp_str, 10) {
                None => Err(LineError::Overflow),
                Some(t) => stations.record(station_name, t),
            }
        },
    }
}

/// The stations of the lines of `chunk` (temperatures in hundredths), as one
/// worker builds them: the lines are cut at each newline found by
/// `memchr_iter`, bytes after the last newline are left out, and the first
/// refused line ends the work with its error.
pub fn parse_chunk<'a>(chunk: &'a [u8]) -> (r: Result<StationMap<'a>, LineError>)
    ensures
        match run_lines(Map::empty(), lines(chunk@), 10) {
            Ok(m) => r matches Ok(s) && s@ == m,
            Err(e) => r == Err::<StationMap<'a>, LineError>(e),
        },
{
    let positions = memchr_positions(10u8, chunk);
    let n = chunk.len();
    let mut stations = StationMap::new();
    let mut last: usize = 0;
    let mut k: usize = 0;
    proof {
        assert(chunk@.skip(0) =~= chunk@);
    }
    while k < positions.len()
        invariant
            n == chunk@.len(),
            k <= positions@.len(),
            last <= chunk@.len(),
            k == 0 ==> last == 0,
            k > 0 ==> last == positions@[k - 1] + 1,
            forall|i: int| 0 <= i < positions@.len() ==> positions@[i] < chunk@.len() && chunk@[positions@[i] as int] == 10u8,
            forall|i: int, j: int| 0 <= i < j < positions@.len() ==> positions@[i] < positions@[j],
            forall|p: int|
                0 <= p < chunk@.len() && #[trigger] chunk@[p] == 10u8 ==> exists|i: int|
                    0 <= i < positions@.len() && positions@[i] == p,
            run_lines(Map::empty(), lines(chunk@), 10) == run_lines(stations@, lines(chunk@.skip(last as int)), 10),
        decreases positions@.len() - k,
    {
        let i = positions[k];
        assert(i < chunk@.len());
        let ghost rest = chunk@.skip(last as int);
        proof {
            if k > 0 {
                assert(positions@[k - 1] < positions@[k as int]);
            }
            assert forall|q: int| 0 <= q < i - last implies rest[q] != 10u8 by {
                let p = last + q;
                assert(rest[q] == chunk@[p]);
                if chunk@[p] == 10u8 {
                    let j = choose|j: int| 0 <= j < positions@.len() && positions@[j] == p;
                    if j < k {
                        if j < k - 1 {
                            assert(positions@[j] < positions@[k - 1]);
                        }
                    } else if j > k {
                        assert(positions@[k as int] < positions@[j]);
                    }
                }
            }
            assert(rest[i - last] == chunk@[i as int]);
            lemma_first_index_is(rest, 10u8, i - last);
            assert(rest.take(i - last) =~= chunk@.subrange(last as int, i as int));
            assert(rest.skip(i - last + 1) =~= chunk@.skip(i + 1));
            assert(lines(rest) == seq![rest.take(i - last)] + lines(rest.skip(i - last + 1)));
            assert((seq![rest.take(i - last)] + lines(rest.skip(i - last + 1))).drop_first() =~= lines(chunk@.skip(i + 1)));
        }
        let line = slice_subrange(chunk, last, i);
        match parse(line, &mut stations) {
            Ok(()) => {},
            Err(e) => {
                return Err(e);
            },
        }
        last = i + 1;
        k = k + 1;
    }
    proof {
        let rest = chunk@.skip(last as int);
        assert forall|q: int| 0 <= q < rest.len() implies rest[q] != 10u8 by {
            let p = last + q;
            assert(rest[q] == chunk@[p]);
            if chunk@[p] == 10u8 {
                let j = choose|j: int| 0 <= j < positions@.len() && positions@[j] == p;
                if k > 0 && j < k - 1 {
                    assert(positions@[j] < positions@[k - 1]);
                }
            }
        }
        lemma_first_index_is(rest, 10u8, rest.len() as int);
    }
    Ok(stations)
}

/// Prepends `e` to the ends in `o`, keeping a failure.
pub open spec fn prepend_ends(e: Seq<int>, o: Option<Seq<int>>) -> Option<Seq<int>> {
    match o {
        Some(rest) => Some(e + rest),
        None => None,
    }
}

/// The chunks `(start, end)` that `file` is cut into for `threads` workers:
/// each chunk runs for `file.len() / threads` bytes and then on to just past
/// the next newline, or to the end of the file. `None` when a chunk finds
/// no newline to end at.
pub fn chunk_bounds(file: &[u8], threads: usize) -> (r: Option<Vec<(usize, usize)>>)
    requires
        threads > 0,
    ensures
        file@.len() == 0 || file@[file@.len() - 1] == 10u8 ==> r is Some,
        match chunk_ends(file@, 0, (file@.len() / threads as nat)) {
            None => r is None,
            Some(ends) => r matches Some(v) && v@.len() == ends.len() && forall|i: int|
                0 <= i < ends.len() ==> (#[trigger] v@[i].0 as int, v@[i].1 as int) == chunk_pairs(0, ends)[i],
        },
{
    let file_size = file.len();
    let chunk_size = file_size / threads;
    let ghost cs = (file@.len() / threads as nat);
    proof {
        if file@.len() == 0 || file@[file@.len() - 1] == 10u8 {
            law_chunks_exist(file@, 0, cs);
        }
    }
    let mut bounds: Vec<(usize, usize)> = Vec::new();
    let mut last_end: usize = 0;
    let ghost mut ends: Seq<int> = Seq::empty();
    proof {
        assert(ends + chunk_ends(file@, 0, cs)->Some_0 =~= chunk_ends(file@, 0, cs)->Some_0);
    }
    while last_end < file_size
        invariant
            file_size == file@.len(),
            cs == file@.len() / threads as nat,
            chunk_size == cs,
            last_end <= file_size,
            bounds@.len() == ends.len(),
            ends.len() == 0 ==> last_end == 0,
            ends.len() > 0 ==> last_end == ends.last(),
            forall|i: int|
                0 <= i < ends.len() ==> (#[trigger] bounds@[i].0 as int, bounds@[i].1 as int) == chunk_pairs(0, ends)[i],
            chunk_ends(file@, 0, cs) == prepend_ends(ends, chunk_ends(file@, last_end as int, cs)),
            file@.len() == 0 || file@[file@.len() - 1] == 10u8 ==> chunk_ends(file@, 0, cs) is Some,
        decreases file_size - last_end,
    {
        let end;
        if chunk_size >= file_size - last_end {
            end = file_size;
            proof {
                assert(chunk_ends(file@, last_end as int, cs) == Some(seq![file@.len() as int]));
                assert(chunk_ends(file@, end as int, cs) == Some(Seq::<int>::empty()));
                assert(seq![end as int] + Seq::<int>::empty() =~= seq![end as int]);
            }
        } else {
            let region = slice_subrange(file, last_end + chunk_size, file_size);
            match find_byte(10u8, region) {
                None => {
                    proof {
                        assert(region@ =~= file@.skip(last_end + chunk_size));
                        assert(chunk_ends(file@, last_end as int, cs) is None);
                    }
                    return None;
                },
                Some(p) => {
                    end = last_end + chunk_size + p + 1;
                    proof {
                        assert(region@ =~= file@.skip(last_end + chunk_size));
                    }
                },
            }
        }
        proof {
            let old_ends = ends;
            ends = ends.push(end as int);
            match chunk_ends(file@, end as int, cs) {
                Some(rest) => {
                    assert(old_ends + (seq![end as int] + rest) =~= ends + rest);
                },
                None => {},
            }
            assert forall|i: int| 0 <= i < ends.len() implies chunk_pairs(0, ends)[i] == (
                if i == ends.len() - 1 { (last_end as int, end as int) } else { chunk_pairs(0, old_ends)[i] }) by {
            }
        }
        bounds.push((last_end, end));
        last_end = end;
    }
    proof {
        assert(chunk_ends(file@, last_end as int, cs) == Some(Seq::<int>::empty()));
        assert(ends + Seq::<int>::empty() =~= ends);
    }
    Some(bounds)
}

impl<'a> StationMap<'a> {
    /// Merges the station `st` in; refused, with nothing changed, when the
    /// merged total or count would overflow.
    fn merge_one(&mut self, st: Station<'a>) -> (r: bool)
        requires
            stats_wf(st.stats()),
        ensures
            if old(self)@.contains_key(st.name@) && !stats_fit(merge_stats(old(self)@[st.name@], st.stats())) {
                !r && final(self)@ == old(self)@
            } else {
                r && final(self)@ == merge_maps(old(self)@, Map::empty().insert(st.name@, st.stats()))
            },
    {
        proof {
            use_type_invariant(&*self);
        }
        let ghost e = entries_of(self.stations@);
        proof {
            lemma_merge_single(self@, st.name@, st.stats());
        }
        let (i, found) = locate(&self.stations, st.name);
        if found {
            let s = self.stations[i];
            proof {
                assert(e[i as int] == s.entry());
                lemma_table_at(e, i as int);
            }
            let count = match s.count.checked_add(st.count) {
                Some(v) => v,
                None => {
                    return false;
                },
            };
            let sum = match s.sum.checked_add(st.sum) {
                Some(v) => v,
                None => {
                    return false;
                },
            };
            let merged = Station {
                name: s.name,
                min: if st.min < s.min { st.min } else { s.min },
                max: if st.max > s.max { st.max } else { s.max },
                sum,
                count,
            };
            let mut v: Vec<Station<'a>> = Vec::new();
            std::mem::swap(&mut v, &mut self.stations);
            v.set(i, merged);
            proof {
                assert(merged.stats() == merge_stats(s.stats(), st.stats()));
                law_merge_stats_wf(s.stats(), st.stats());
                lemma_table_update(e, i as int, merged.stats());
                assert(entries_of(v@) =~= e.update(i as int, (e[i as int].0, merged.stats())));
            }
            self.stations = v;
        } else {
            let fresh = Station { name: st.name, min: st.min, max: st.max, sum: st.sum, count: st.count };
            let mut v: Vec<Station<'a>> = Vec::new();
            std::mem::swap(&mut v, &mut self.stations);
            v.insert(i, fresh);
            proof {
                lemma_table_insert(e, i as int, st.name@, st.stats());
                assert(entries_of(v@) =~= e.insert(i as int, (st.name@, st.stats())));
            }
            self.stations = v;
        }
        true
    }
}

/// `stations` with the stations of `other` merged in, as the final merge of
/// the workers' maps does it: a station in both gets the smaller minimum,
/// the larger maximum, and the summed total and count. `None` when a merged
/// total or count would overflow.
pub fn merge_station_maps<'a>(stations: StationMap<'a>, other: &StationMap<'a>) -> (r: Option<StationMap<'a>>)
    ensures
        r is Some <==> merge_fits(stations@, other@),
        r is Some <==> forall|k: Seq<u8>|
            #![trigger stations@.contains_key(k), other@.contains_key(k)]
            stations@.contains_key(k) && other@.contains_key(k) ==> i64::MIN <= stations@[k].sum + other@[k].sum
                <= i64::MAX && stations@[k].count + other@[k].count <= u32::MAX,
        r matches Some(m) ==> m@ == merge_maps(stations@, other@),
{
    proof {
        use_type_invariant(other);
        use_type_invariant(&stations);
        stations.lemma_listing();
        other.lemma_listing();
        law_merge_fits_iff_totals_fit(stations@, other@);
    }
    let ghost orig = stations@;
    let ghost oe = entries_of(other.stations@);
    let mut master = stations;
    let mut j: usize = 0;
    proof {
        lemma_merge_maps_empty(orig);
        lemma_table_empty(oe.take(0));
        other.lemma_listing();
    }
    while j < other.stations.len()
        invariant
            orig == stations@,
            oe == entries_of(other.stations@),
            sorted_keys(oe),
            table_map(oe) == other@,
            forall|i: int| 0 <= i < oe.len() ==> stats_wf(#[trigger] oe[i].1),
            j <= oe.len(),
            master@ == merge_maps(orig, table_map(oe.take(j as int))),
            forall|i: int|
                0 <= i < j && orig.contains_key(#[trigger] oe[i].0) ==> stats_fit(merge_stats(orig[oe[i].0], oe[i].1)),
        decreases oe.len() - j,
    {
        let st = other.stations[j];
        let ghost before = oe.take(j as int);
        let ghost x = oe[j as int];
        proof {
            assert(x == st.entry());
            assert(oe.take(j + 1) =~= before.push(x));
            assert forall|a: int, b: int| 0 <= a < b < before.push(x).len() implies bytes_lt(
                #[trigger] before.push(x)[a].0,
                #[trigger] before.push(x)[b].0,
            ) by {
                assert(before.push(x)[a] == oe[a]);
                assert(before.push(x)[b] == oe[b]);
            }
            lemma_table_push(before, x);
            assert(master@.contains_key(x.0) == orig.contains_key(x.0));
            if orig.contains_key(x.0) {
                assert(master@[x.0] == orig[x.0]);
            }
        }
        if !master.merge_one(st) {
            proof {
                lemma_table_at(oe, j as int);
                assert(orig.contains_key(x.0) && other@.contains_key(x.0));
            }
            return None;
        }
        proof {
            law_merge_maps_associative(orig, table_map(before), Map::empty().insert(x.0, x.1));
            lemma_merge_single(table_map(before), x.0, x.1);
        }
        j = j + 1;
    }
    proof {
        assert(oe.take(j as int) =~= oe);
        assert forall|k: Seq<u8>| orig.contains_key(k) && other@.contains_key(k) implies stats_fit(
            merge_stats(orig[k], other@[k]),
        ) by {
            let p = key_position(oe, k);
            lemma_table_at(oe, p);
        }
    }
    Some(master)
}

/// The views of a list of maps.
pub open spec fn map_views<'a>(maps: Seq<StationMap<'a>>) -> Seq<StatsMap> {
    maps.map_values(|m: StationMap<'a>| m@)
}

/// All partial maps merged into one, in order, starting from an empty map.
/// `None` when a merged total or count would overflow.
pub fn merge_partial_maps<'a>(partial_maps: Vec<StationMap<'a>>) -> (r: Option<StationMap<'a>>)
    ensures
        r is Some <==> merge_all_checked(map_views(partial_maps@)) is Some,
        r matches Some(m) ==> m@ == merge_all(map_views(partial_maps@)),
{
    let ghost views = map_views(partial_maps@);
    let mut stations = StationMap::new();
    let mut i: usize = 0;
    proof {
        assert(views.take(0) =~= Seq::<StatsMap>::empty());
    }
    while i < partial_maps.len()
        invariant
            i <= partial_maps@.len(),
            views == map_views(partial_maps@),
            merge_all_checked(views.take(i as int)) == Some(stations@),
        decreases partial_maps@.len() - i,
    {
        proof {
            assert(views.take(i + 1).drop_last() =~= views.take(i as int));
            assert(views.take(i + 1).last() == partial_maps@[i as int]@);
        }
        match merge_station_maps(stations, &partial_maps[i]) {
            Some(m) => {
                stations = m;
            },
            None => {
                proof {
                    assert(merge_all_checked(views.take(i + 1)) is None);
                    lemma_merge_all_checked_none(views, i as int + 1);
                }
                return None;
            },
        }
        i = i + 1;
    }
    proof {
        assert(views.take(i as int) =~= views);
        lemma_merge_all_checked(views);
    }
    Some(stations)
}

/// The summary depends on which lines the file holds and on nothing else:
/// two files with the same lines, in any order, each cut for any number of
/// workers whose maps are then merged, give maps with the same stations,
/// listed alike, and so the same text from `print_string`.
pub proof fn law_summary_depends_on_lines_alone<'a, 'b>(
    file1: Seq<u8>,
    threads1: nat,
    parts1: Seq<StatsMap>,
    merged1: &StationMap<'a>,
    file2: Seq<u8>,
    threads2: nat,
    parts2: Seq<StatsMap>,
    merged2: &StationMap<'b>,
)
    requires
        threads1 > 0,
        threads2 > 0,
        lines(file1).to_multiset() == lines(file2).to_multiset(),
        chunk_results(file1, file1.len() / threads1, 10, parts1),
        chunk_results(file2, file2.len() / threads2, 10, parts2),
        merged1.wf(),
        merged2.wf(),
        merged1@ == merge_all(parts1),
        merged2@ == merge_all(parts2),
    ensures
        merged1@ == merged2@,
        merged1.listing() == merged2.listing(),
{
    law_chunked_run(file1, file1.len() / threads1, 10, parts1);
    law_chunked_run(file2, file2.len() / threads2, 10, parts2);
    law_lines_order_irrelevant(lines(file1), lines(file2), 10);
    merged1.lemma_listing();
    merged2.lemma_listing();
    law_sorted_listing_unique(merged1.listing(), merged2.listing());
}

/// The summary text of a station with temperatures in hundredths:
/// `name=min/mean/max`, each with one decimal place; the mean is the
/// average properly rounded to tenths, `mean_of_hundredths` (see
/// `law_mean_of_hundredths_exact`).
pub open spec fn station_text(name: Seq<u8>, s: Stats) -> Seq<u8> {
    name + seq![61u8] + hundredths_text(s.min) + seq![47u8] + signed_tenths_text(
        mean_of_hundredths(s.sum, s.count),
    ) + seq![47u8] + hundredths_text(s.max)
}

/// A station's summary text is its whole name, then `=`, then a part that
/// depends on the statistics alone, the same under any other name.
pub proof fn law_station_text_starts_with_name(name: Seq<u8>, other: Seq<u8>, s: Stats)
    ensures
        station_text(name, s).len() > name.len(),
        station_text(name, s).take(name.len() as int) == name,
        station_text(name, s)[name.len() as int] == 61u8,
        station_text(name, s).skip(name.len() as int) == station_text(other, s).skip(other.len() as int),
{
    let t1 = station_text(name, s);
    let t2 = station_text(other, s);
    assert(t1.take(name.len() as int) =~= name);
    assert(t1.skip(name.len() as int) =~= t2.skip(other.len() as int));
}

/// The station can be written exactly: it has readings, its minimum and
/// maximum are not halfway between two tenths (where the rounding of
/// `x as f64 / 100.0` would decide), and its rounded mean stays within
/// `10^15` tenths (where `x as f64 / 10.0` still prints exactly).
pub open spec fn text_exact(s: Stats) -> bool {
    &&& s.count > 0
    &&& s.min % 10 != 5
    &&& s.max % 10 != 5
    &&& -1_000_000_000_000_000 <= mean_of_hundredths(s.sum, s.count) <= 1_000_000_000_000_000
}

impl<'a> Station<'a> {
    /// Whether `display_text` applies to this station.
    pub fn text_is_exact(&self) -> (r: bool)
        ensures
            r == text_exact(self.stats()),
    {
        let min_mag = magnitude(self.min as i64);
        let max_mag = magnitude(self.max as i64);
        proof {
            lemma_halfway_by_magnitude(self.min as int);
            lemma_halfway_by_magnitude(self.max as int);
        }
        if self.count == 0 || min_mag % 10 == 5 || max_mag % 10 == 5 {
            return false;
        }
        let mean = round_to_1decimal(floor_div(self.sum, self.count as u64));
        -1_000_000_000_000_000i64 <= mean && mean <= 1_000_000_000_000_000i64
    }

    /// The summary text of the station, `station_text`, as bytes.
    pub fn display_text(&self) -> (r: Vec<u8>)
        requires
            text_exact(self.stats()),
        ensures
            r@ == station_text(self.name@, self.stats()),
    {
        let mut out: Vec<u8> = Vec::new();
        append_station_text(&mut out, self);
        out
    }
}

/// Appends the summary text of `s`.
fn append_station_text<'a>(out: &mut Vec<u8>, s: &Station<'a>)
    requires
        text_exact(s.stats()),
    ensures
        final(out)@ == old(out)@ + station_text(s.name@, s.stats()),
{
    let ghost start = out@;
    let mut i: usize = 0;
    while i < s.name.len()
        invariant
            i <= s.name@.len(),
            out@ == start + s.name@.take(i as int),
        decreases s.name@.len() - i,
    {
        out.push(s.name[i]);
        proof {
            assert(s.name@.take(i + 1) =~= s.name@.take(i as int).push(s.name@[i as int]));
        }
        i = i + 1;
    }
    proof {
        assert(s.name@.take(i as int) =~= s.name@);
    }
    out.push(61u8);
    push_hundredths(out, s.min);
    out.push(47u8);
    let mean = round_to_1decimal(floor_div(s.sum, s.count as u64));
    push_signed_tenths(out, mean);
    out.push(47u8);
    push_hundredths(out, s.max);
    proof {
        assert(out@ =~= start + station_text(s.name@, s.stats()));
    }
}

/// The texts joined with `", "` between them.
pub open spec fn joined(texts: Seq<Seq<u8>>) -> Seq<u8>
    decreases texts.len(),
{
    if texts.len() == 0 {
        Seq::empty()
    } else if texts.len() == 1 {
        texts[0]
    } else {
        joined(texts.drop_last()) + seq![44u8, 32u8] + texts.last()
    }
}

/// The summary texts of a listing, in its order.
pub open spec fn listing_texts(e: Seq<Entry>) -> Seq<Seq<u8>> {
    e.map_values(|x: Entry| station_text(x.0, x.1))
}

impl<'a> StationMap<'a> {
    /// The stations, in increasing name order.
    pub fn as_slice(&self) -> (r: &[Station<'a>])
        ensures
            entries_of(r@) == self.listing(),
    {
        self.stations.as_slice()
    }
}

/// The summary of all stations in increasing name order:
/// `{a=…, b=…, …}` and a newline.
pub fn print_string<'a>(stations: &StationMap<'a>) -> (r: Vec<u8>)
    requires
        stations@.dom().len() > 0,
        forall|k: Seq<u8>| #[trigger] stations@.contains_key(k) ==> text_exact(stations@[k]),
    ensures
        r@ == seq![123u8] + joined(listing_texts(stations.listing())) + seq![125u8, 10u8],
{
    let v = stations.as_slice();
    let ghost e = stations.listing();
    let ghost texts = listing_texts(e);
    proof {
        use_type_invariant(stations);
        stations.lemma_listing();
    }
    let mut out: Vec<u8> = Vec::new();
    out.push(123u8);
    let mut i: usize = 0;
    while i < v.len()
        invariant
            i <= v@.len(),
            v@.len() > 0,
            e == entries_of(v@),
            texts == listing_texts(e),
            sorted_keys(e),
            table_map(e) == stations@,
            forall|k: Seq<u8>| #[trigger] stations@.contains_key(k) ==> text_exact(stations@[k]),
            i == 0 ==> out@ == seq![123u8],
            i > 0 ==> out@ == seq![123u8] + joined(texts.take(i as int)),
        decreases v@.len() - i,
    {
        let s = &v[i];
        proof {
            assert(e[i as int] == s.entry());
            lemma_table_at(e, i as int);
            assert(texts[i as int] == station_text(s.name@, s.stats()));
            assert(texts.take(i + 1).drop_last() =~= texts.take(i as int));
            assert(texts.take(i + 1).last() == texts[i as int]);
        }
        if i > 0 {
            out.push(44u8);
            out.push(32u8);
        }
        append_station_text(&mut out, s);
        proof {
            if i == 0 {
                assert(joined(texts.take(1)) == texts[0]);
                assert(out@ =~= seq![123u8] + joined(texts.take(1)));
            } else {
                assert(out@ =~= seq![123u8] + joined(texts.take(i + 1)));
            }
        }
        i = i + 1;
    }
    out.push(125u8);
    out.push(10u8);
    proof {
        assert(texts.take(i as int) =~= texts);
        assert(out@ =~= seq![123u8] + joined(texts) + seq![125u8, 10u8]);
    }
    out
}

} // verus!
