//! The single-threaded aggregation: temperatures kept in tenths of a degree,
//! stations that own their names, one line taken in at a time, and the
//! summary of every station.

use vstd::prelude::*;
use vstd::slice::slice_subrange;
use crate::search::find_byte;
use crate::reading::{
    digits_value, mean_of_tenths, parse_reading, push_signed_tenths, reading_value,
    round_mean_of_tenths, signed_tenths_text,
};
use crate::model::{
    Stats, StatsMap, add_reading, law_add_reading_wf, map_wf, record_into, single, stats_fit,
    stats_wf,
};
use crate::input::{LineError, law_lines_order_irrelevant, lemma_run_lines_aggregates, run_lines, step};
use crate::table::{
    Entry, Listed, entries_of, law_sorted_listing_unique, lemma_listed_map, lemma_table_at, lemma_table_dom,
    lemma_table_empty, lemma_table_insert, lemma_table_update, locate, lookup, sorted_keys, table_map,
};

verus! {

/// A boxed copy of `name`, made by `From<&[u8]>` for `Box<[u8]>`, which
/// copies the bytes.
#[verifier::external_body]
fn boxed_name(name: &[u8]) -> (r: Box<[u8]>)
    ensures
        r@ == name@,
{
    Box::from(name)
}

/// The readings of one station. Temperatures are in tenths of a degree.
#[derive(Debug, Default)]
pub struct Station {
    pub name: Box<[u8]>,
    pub min: i32,
    pub max: i32,
    pub sum: i64,
    pub count: u32,
}

impl Station {
    /// The statistics held in the fields.
    pub open spec fn stats(&self) -> Stats {
        Stats { min: self.min as int, max: self.max as int, sum: self.sum as int, count: self.count as int }
    }

    /// A station with the single reading `temp`; the name is copied.
    pub fn new(name: &[u8], temp: i32) -> (r: Self)
        ensures
            r.name@ == name@,
            r.stats() == single(temp as int),
    {
        Self { name: boxed_name(name), min: temp, max: temp, sum: temp as i64, count: 1 }
    }
}

impl Clone for Station {
    /// A copy of the station; the name is copied too.
    fn clone(&self) -> (r: Self)
        ensures
            r.name@ == self.name@,
            r.stats() == self.stats(),
    {
        Station { name: boxed_name(&self.name), min: self.min, max: self.max, sum: self.sum, count: self.count }
    }
}

impl Listed for Station {
    open spec fn entry(&self) -> Entry {
        (self.name@, self.stats())
    }

    fn name_bytes(&self) -> (r: &[u8]) {
        &self.name
    }

    proof fn lemma_entry_fits(&self) {
    }
}

/// The stations seen so far, one per name, kept in increasing name order.
pub struct StationMap {
    stations: Vec<Station>,
}

impl View for StationMap {
    type V = StatsMap;

    closed spec fn view(&self) -> StatsMap {
        table_map(entries_of(self.stations@))
    }
}

impl StationMap {
    /// The stations are sorted by name and hold well-formed statistics; every
    /// map keeps this at all times.
    #[verifier::type_invariant]
    pub closed spec fn wf(&self) -> bool {
        &&& sorted_keys(entries_of(self.stations@))
        &&& forall|i: int| 0 <= i < self.stations@.len() ==> stats_wf(#[trigger] self.stations@[i].stats())
    }

    /// The entries in increasing name order.
    pub closed spec fn listing(&self) -> Seq<Entry> {
        entries_of(self.stations@)
    }

    /// The listing is sorted by name and stands for the map, so it is the
    /// map's entries in increasing name order, one per name of the map's
    /// finite domain; every station's statistics are well formed and fit
    /// the fields' integer types.
    pub proof fn lemma_listing(&self)
        requires
            self.wf(),
        ensures
            sorted_keys(self.listing()),
            table_map(self.listing()) == self@,
            self@.dom().finite(),
            self@.dom().len() == self.listing().len(),
            forall|i: int| 0 <= i < self.listing().len() ==> stats_wf(#[trigger] self.listing()[i].1),
            map_wf(self@),
            forall|k: Seq<u8>| #[trigger] self@.contains_key(k) ==> stats_fit(self@[k]),
    {
        lemma_listed_map(self.stations@);
    }

    /// Two maps with the same stations list them alike: the listing, and
    /// with it every text made from it, depends on the map alone.
    pub proof fn law_listing_determined(&self, other: &Self)
        requires
            self.wf(),
            other.wf(),
            self@ == other@,
        ensures
            self.listing() == other.listing(),
    {
        law_sorted_listing_unique(self.listing(), other.listing());
    }

    /// Every station of a map has well-formed statistics: at least one
    /// reading, and a total between `count * min` and `count * max`.
    pub proof fn law_map_wf(&self)
        requires
            self.wf(),
        ensures
            map_wf(self@),
    {
        self.lemma_listing();
    }

    /// An empty map.
    pub fn new() -> (r: Self)
        ensures
            r@ == Map::<Seq<u8>, Stats>::empty(),
    {
        let r = StationMap { stations: Vec::new() };
        proof {
            lemma_table_empty(entries_of(r.stations@));
        }
        r
    }

    /// The number of stations.
    pub fn len(&self) -> (r: usize)
        ensures
            self@.dom().finite(),
            r == self@.dom().len(),
    {
        proof {
            use_type_invariant(self);
            lemma_table_dom(entries_of(self.stations@));
        }
        self.stations.len()
    }

    /// The station named `name`, if there is one.
    pub fn get(&self, name: &[u8]) -> (r: Option<&Station>)
        ensures
            r is Some <==> self@.contains_key(name@),
            r matches Some(s) ==> s.name@ == name@ && s.stats() == self@[name@],
    {
        proof {
            use_type_invariant(self);
        }
        lookup(&self.stations, name)
    }

    /// The stations, in increasing name order.
    pub fn as_slice(&self) -> (r: &[Station])
        ensures
            entries_of(r@) == self.listing(),
    {
        self.stations.as_slice()
    }

    /// Takes one more reading `t` of station `name`; refused, with nothing
    /// changed, when the station's total or count would overflow.
    fn record(&mut self, name: &[u8], t: i32) -> (r: Result<(), LineError>)
        ensures
            if old(self)@.contains_key(name@) && !stats_fit(add_reading(old(self)@[name@], t as int)) {
                r == Err::<(), LineError>(LineError::Overflow) && final(self)@ == old(self)@
            } else {
                r == Ok::<(), LineError>(()) && final(self)@ == record_into(old(self)@, name@, t as int)
            },
    {
        proof {
            use_type_invariant(&*self);
        }
        let ghost e = entries_of(self.stations@);
        let (i, found) = locate(&self.stations, name);
        if found {
            let ghost old_stats = self.stations@[i as int].stats();
            proof {
                assert(e[i as int] == self.stations@[i as int].entry());
                lemma_table_at(e, i as int);
            }
            let count = self.stations[i].count;
            if count == 4294967295u32 {
                return Err(LineError::Overflow);
            }
            let sum = match self.stations[i].sum.checked_add(t as i64) {
                Some(v) => v,
                None => {
                    return Err(LineError::Overflow);
                },
            };
            let min = if t < self.stations[i].min { t } else { self.stations[i].min };
            let max = if t > self.stations[i].max { t } else { self.stations[i].max };
            let mut v: Vec<Station> = Vec::new();
            std::mem::swap(&mut v, &mut self.stations);
            v[i].min = min;
            v[i].max = max;
            v[i].sum = sum;
            v[i].count = count + 1;
            proof {
                let st = v@[i as int].stats();
                assert(st == add_reading(old_stats, t as int));
                law_add_reading_wf(old_stats, t as int);
                lemma_table_update(e, i as int, st);
                assert(entries_of(v@) =~= e.update(i as int, (e[i as int].0, st)));
            }
            self.stations = v;
        } else {
            let fresh = Station::new(name, t);
            let mut v: Vec<Station> = Vec::new();
            std::mem::swap(&mut v, &mut self.stations);
            v.insert(i, fresh);
            proof {
                lemma_table_insert(e, i as int, name@, single(t as int));
                assert(entries_of(v@) =~= e.insert(i as int, (name@, single(t as int))));
            }
            self.stations = v;
        }
        Ok(())
    }
}

/// Reads a temperature in tenths of a degree: the digits of `temperature`
/// read as one number, negated when a `-` occurs. `b"-10.20"` gives `-1020`.
pub fn parse_float_str_to_int(temperature: &[u8]) -> (r: i32)
    requires
        digits_value(temperature@) <= i32::MAX,
    ensures
        r == reading_value(temperature@),
{
    match parse_reading(temperature, 1) {
        Some(v) => v,
        None => {
            proof {
                assert(false);
            }
            0
        },
    }
}

/// Takes one line `name;temperature` into `stations`, as `step` says with
/// temperatures in tenths: an empty line changes nothing; a line without
/// `;` is refused; the name is what comes before the first `;`.
pub fn parse(line: &[u8], stations: &mut StationMap) -> (r: Result<(), LineError>)
    ensures
        match step(old(stations)@, line@, 1) {
            Ok(m) => r == Ok::<(), LineError>(()) && final(stations)@ == m,
            Err(e) => r == Err::<(), LineError>(e) && final(stations)@ == old(stations)@,
        },
{
    if line.len() == 0 {
        return Ok(());
    }
    match find_byte(59u8, line) {
        None => Err(LineError::MissingSemicolon),
        Some(semi) => {
            let station_name = slice_subrange(line, 0, semi);
            let temp_str = slice_subrange(line, semi + 1, line.len());
            proof {
                assert(station_name@ =~= line@.take(semi as int));
                assert(temp_str@ =~= line@.skip(semi + 1));
            }
            match parse_reading(temp_str, 1) {
                None => Err(LineError::Overflow),
                Some(t) => stations.record(station_name, t),
            }
        },
    }
}

/// The summary does not depend on the order of the lines: two runs over
/// the same lines, in any order, that both take every line in give maps
/// with the same stations, listed alike, and so the same text from
/// `format_stations`.
pub proof fn law_summary_independent_of_line_order(
    lines1: Seq<Seq<u8>>,
    merged1: &StationMap,
    lines2: Seq<Seq<u8>>,
    merged2: &StationMap,
)
    requires
        lines1.to_multiset() == lines2.to_multiset(),
        merged1.wf(),
        merged2.wf(),
        run_lines(Map::empty(), lines1, 1) == Ok::<StatsMap, LineError>(merged1@),
        run_lines(Map::empty(), lines2, 1) == Ok::<StatsMap, LineError>(merged2@),
    ensures
        merged1@ == merged2@,
        merged1.listing() == merged2.listing(),
{
    lemma_run_lines_aggregates(Map::empty(), lines1, 1);
    lemma_run_lines_aggregates(Map::empty(), lines2, 1);
    law_lines_order_irrelevant(lines1, lines2, 1);
    merged1.law_listing_determined(merged2);
}

/// The summary text of a station with temperatures in tenths:
/// `name=min/mean/max, `, each with one decimal place; the mean is the
/// average properly rounded to the nearest tenth, halves upward.
pub open spec fn station_text(name: Seq<u8>, s: Stats) -> Seq<u8> {
    name + seq![61u8] + signed_tenths_text(s.min) + seq![47u8] + signed_tenths_text(
        mean_of_tenths(s.sum, s.count),
    ) + seq![47u8] + signed_tenths_text(s.max) + seq![44u8, 32u8]
}

/// A station's summary text is its whole name, then `=`, then a part that
/// depends on the statistics alone, the same under any other name.
pub proof fn law_station_text_starts_with_name(name: Seq<u8>, other: Seq<u8>, s: Stats)
    ensures
        station_text(name, s).len() > name.len(),
        station_text(name, s).take(name.len() as int) == name,
        station_text(name, s)[name.len() as int] == 61u8,
        station_text(name, s).skip(name.len() as int) == station_text(other, s).skip(other.len() as int),
{
    let t1 = station_text(name, s);
    let t2 = station_text(other, s);
    assert(t1.take(name.len() as int) =~= name);
    assert(t1.skip(name.len() as int) =~= t2.skip(other.len() as int));
}

/// The station can be written exactly: it has readings, and its mean stays
/// within `10^15` tenths (where `x as f64 / 10.0` still prints exactly).
pub open spec fn text_exact(s: Stats) -> bool {
    &&& s.count > 0
    &&& -1_000_000_000_000_000 <= mean_of_tenths(s.sum, s.count) <= 1_000_000_000_000_000
}

impl Station {
    /// Whether `display_text` applies to this station.
    pub fn text_is_exact(&self) -> (r: bool)
        ensures
            r == text_exact(self.stats()),
    {
        if self.count == 0 {
            return false;
        }
        let mean = round_mean_of_tenths(self.sum, self.count);
        -1_000_000_000_000_000i64 <= mean && mean <= 1_000_000_000_000_000i64
    }

    /// The summary text of the station, `station_text`, as bytes.
    pub fn display_text(&self) -> (r: Vec<u8>)
        requires
            text_exact(self.stats()),
        ensures
            r@ == station_text(self.name@, self.stats()),
    {
        let mut out: Vec<u8> = Vec::new();
        append_station_text(&mut out, self);
        out
    }
}

/// Appends the summary text of `s`.
fn append_station_text(out: &mut Vec<u8>, s: &Station)
    requires
        text_exact(s.stats()),
    ensures
        final(out)@ == old(out)@ + station_text(s.name@, s.stats()),
{
    let ghost start = out@;
    let mut i: usize = 0;
    while i < s.name.len()
        invariant
            i <= s.name@.len(),
            out@ == start + s.name@.take(i as int),
        decreases s.name@.len() - i,
    {
        out.push(s.name[i]);
        proof {
            assert(s.name@.take(i + 1) =~= s.name@.take(i as int).push(s.name@[i as int]));
        }
        i = i + 1;
    }
    proof {
        assert(s.name@.take(i as int) =~= s.name@);
    }
    out.push(61u8);
    push_signed_tenths(out, s.min as i64);
    out.push(47u8);
    let mean = round_mean_of_tenths(s.sum, s.count);
    push_signed_tenths(out, mean);
    out.push(47u8);
    push_signed_tenths(out, s.max as i64);
    out.push(44u8);
    out.push(32u8);
    proof {
        assert(out@ =~= start + station_text(s.name@, s.stats()));
    }
}

/// The texts one after the other.
pub open spec fn concatenated(texts: Seq<Seq<u8>>) -> Seq<u8>
    decreases texts.len(),
{
    if texts.len() == 0 {
        Seq::empty()
    } else {
        concatenated(texts.drop_last()) + texts.last()
    }
}

/// The summary texts of a listing, in its order.
pub open spec fn listing_texts(e: Seq<Entry>) -> Seq<Seq<u8>> {
    e.map_values(|x: Entry| station_text(x.0, x.1))
}

/// The summary of all stations, in increasing name order: `{`, each
/// station's text (which ends with `", "`), `}` and a newline.
pub fn format_stations(stations: &StationMap) -> (r: Vec<u8>)
    requires
        forall|k: Seq<u8>| #[trigger] stations@.contains_key(k) ==> text_exact(stations@[k]),
    ensures
        r@ == seq![123u8] + concatenated(listing_texts(stations.listing())) + seq![125u8, 10u8],
{
    let v = stations.as_slice();
    let ghost e = stations.listing();
    let ghost texts = listing_texts(e);
    proof {
        use_type_invariant(stations);
        stations.lemma_listing();
    }
    let mut out: Vec<u8> = Vec::new();
    out.push(123u8);
    let mut i: usize = 0;
    proof {
        assert(texts.take(0) =~= Seq::<Seq<u8>>::empty());
    }
    while i < v.len()
        invariant
            i <= v@.len(),
            e == entries_of(v@),
            texts == listing_texts(e),
            sorted_keys(e),
            table_map(e) == stations@,
            forall|k: Seq<u8>| #[trigger] stations@.contains_key(k) ==> text_exact(stations@[k]),
            out@ == seq![123u8] + concatenated(texts.take(i as int)),
        decreases v@.len() - i,
    {
        let s = &v[i];
        proof {
            assert(e[i as int] == s.entry());
            lemma_table_at(e, i as int);
            assert(texts[i as int] == station_text(s.name@, s.stats()));
            assert(texts.take(i + 1).drop_last() =~= texts.take(i as int));
            assert(texts.take(i + 1).last() == texts[i as int]);
        }
        append_station_text(&mut out, s);
        proof {
            assert(out@ =~= seq![123u8] + concatenated(texts.take(i + 1)));
        }
        i = i + 1;
    }
    out.push(125u8);
    out.push(10u8);
    proof {
        assert(texts.take(i as int) =~= texts);
        assert(out@ =~= seq![123u8] + concatenated(texts) + seq![125u8, 10u8]);
    }
    out
}

} // verus!
