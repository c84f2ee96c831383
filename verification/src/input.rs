//! The input text: its newline-terminated lines, the `name;temperature`
//! reading each line holds, the line-by-line fold that the parsers perform
//! (with the machine limits at which they stop), and the newline-aligned
//! chunks a file is cut into for independent aggregation.

use vstd::prelude::*;
use crate::search::{first_index, lemma_first_index, lemma_first_index_is};
use crate::reading::{digits_value, reading_value};
use crate::model::{
    StatsMap, add_reading, aggregate, aggregate_onto, law_aggregate_concat, law_merge_maps_associative,
    law_merge_maps_commutative, lemma_merge_maps_empty, merge_all, merge_maps, record_into, stats_fit,
};
use vstd::seq_lib::{to_multiset_contains, to_multiset_len, to_multiset_remove};

verus! {

/// Why a line could not be taken into the statistics.
#[derive(PartialEq, Eq, Structural, Clone, Copy, Debug)]
pub enum LineError {
    /// A non-empty line without the `;` between name and temperature.
    MissingSemicolon,
    /// A temperature, total or count that does not fit its integer type.
    Overflow,
}

/// The newline-terminated lines of `s`, without their `\n`; bytes after the
/// last `\n` form no line.
pub open spec fn lines(s: Seq<u8>) -> Seq<Seq<u8>>
    decreases s.len(),
{
    let p = first_index(s, 10u8);
    if p < 0 || p >= s.len() {
        Seq::empty()
    } else {
        seq![s.take(p)] + lines(s.skip(p + 1))
    }
}

/// The reading of a line `name;temperature`, the temperature counted in
/// units of its last digit times `scale`; none for an empty line or one
/// without `;`. The name ends at the first `;`.
pub open spec fn line_record(line: Seq<u8>, scale: int) -> Option<(Seq<u8>, int)> {
    let p = first_index(line, 59u8);
    if line.len() == 0 || p < 0 || p >= line.len() {
        None
    } else {
        Some((line.take(p), reading_value(line.skip(p + 1)) * scale))
    }
}

/// The readings of the lines `ls`, in order.
pub open spec fn records(ls: Seq<Seq<u8>>, scale: int) -> Seq<(Seq<u8>, int)>
    decreases ls.len(),
{
    if ls.len() == 0 {
        Seq::empty()
    } else {
        match line_record(ls[0], scale) {
            Some(r) => seq![r] + records(ls.drop_first(), scale),
            None => records(ls.drop_first(), scale),
        }
    }
}

/// One line taken into `m` as the parsers do it: an empty line changes
/// nothing; a line without `;` is refused; so is a temperature whose value
/// (times `scale`) exceeds `i32`, or a station whose total or count would
/// leave `i64` / `u32`.
pub open spec fn step(m: StatsMap, line: Seq<u8>, scale: int) -> Result<StatsMap, LineError> {
    let p = first_index(line, 59u8);
    if line.len() == 0 {
        Ok(m)
    } else if p < 0 || p >= line.len() {
        Err(LineError::MissingSemicolon)
    } else {
        let name = line.take(p);
        let temp = line.skip(p + 1);
        if digits_value(temp) * scale > i32::MAX {
            Err(LineError::Overflow)
        } else {
            let t = reading_value(temp) * scale;
            if m.contains_key(name) && !stats_fit(add_reading(m[name], t)) {
                Err(LineError::Overflow)
            } else {
                Ok(record_into(m, name, t))
            }
        }
    }
}

/// The lines `ls` taken into `m` one after the other, stopping at the first
/// refused line.
pub open spec fn run_lines(m: StatsMap, ls: Seq<Seq<u8>>, scale: int) -> Result<StatsMap, LineError>
    decreases ls.len(),
{
    if ls.len() == 0 {
        Ok(m)
    } else {
        match step(m, ls[0], scale) {
            Ok(m2) => run_lines(m2, ls.drop_first(), scale),
            Err(e) => Err(e),
        }
    }
}

/// A successful run of lines is the aggregation of their readings.
pub proof fn lemma_run_lines_aggregates(m: StatsMap, ls: Seq<Seq<u8>>, scale: int)
    requires
        run_lines(m, ls, scale) is Ok,
    ensures
        run_lines(m, ls, scale) == Ok::<StatsMap, LineError>(aggregate_onto(m, records(ls, scale))),
    decreases ls.len(),
{
    if ls.len() > 0 {
        let m2 = step(m, ls[0], scale)->Ok_0;
        lemma_run_lines_aggregates(m2, ls.drop_first(), scale);
        match line_record(ls[0], scale) {
            Some(r) => {
                assert((seq![r] + records(ls.drop_first(), scale)).drop_first() =~= records(
                    ls.drop_first(),
                    scale,
                ));
            },
            None => {},
        }
    }
}

/// The lines of a text that ends with a newline, followed by another text,
/// are the lines of the first followed by the lines of the second.
pub proof fn law_lines_concat(a: Seq<u8>, b: Seq<u8>)
    requires
        a.len() == 0 || a.last() == 10u8,
    ensures
        lines(a + b) == lines(a) + lines(b),
    decreases a.len(),
{
    if a.len() == 0 {
        assert(a + b =~= b);
        assert(lines(a) =~= Seq::<Seq<u8>>::empty());
        assert(lines(a) + lines(b) =~= lines(b));
    } else {
        lemma_first_index(a, 10u8);
        let p = first_index(a, 10u8);
        if p >= a.len() {
            assert(a[a.len() - 1] != 10u8);
        }
        assert forall|j: int| 0 <= j < p implies (a + b)[j] != 10u8 by {
            assert((a + b)[j] == a[j]);
        }
        lemma_first_index_is(a + b, 10u8, p);
        assert((a + b).take(p) =~= a.take(p));
        let rest = a.skip(p + 1);
        assert((a + b).skip(p + 1) =~= rest + b);
        if rest.len() > 0 {
            assert(rest.last() == a.last());
        }
        law_lines_concat(rest, b);
        assert(seq![a.take(p)] + (lines(rest) + lines(b)) =~= (seq![a.take(p)] + lines(rest))
            + lines(b));
    }
}

/// The readings of two runs of lines are the readings of the first followed
/// by those of the second.
pub proof fn law_records_concat(l1: Seq<Seq<u8>>, l2: Seq<Seq<u8>>, scale: int)
    ensures
        records(l1 + l2, scale) == records(l1, scale) + records(l2, scale),
    decreases l1.len(),
{
    if l1.len() == 0 {
        assert(l1 + l2 =~= l2);
        assert(records(l1, scale) + records(l2, scale) =~= records(l2, scale));
    } else {
        assert((l1 + l2)[0] == l1[0]);
        assert((l1 + l2).drop_first() =~= l1.drop_first() + l2);
        law_records_concat(l1.drop_first(), l2, scale);
        match line_record(l1[0], scale) {
            Some(r) => {
                assert(seq![r] + (records(l1.drop_first(), scale) + records(l2, scale)) =~= (seq![r]
                    + records(l1.drop_first(), scale)) + records(l2, scale));
            },
            None => {},
        }
    }
}

/// The statistics do not depend on the order of the lines: the same lines,
/// in any order, aggregate to the same map.
pub proof fn law_lines_order_irrelevant(l1: Seq<Seq<u8>>, l2: Seq<Seq<u8>>, scale: int)
    requires
        l1.to_multiset() == l2.to_multiset(),
    ensures
        aggregate(records(l1, scale)) == aggregate(records(l2, scale)),
    decreases l1.len(),
{
    to_multiset_len(l1);
    to_multiset_len(l2);
    if l1.len() == 0 {
        assert(l1 =~= l2);
    } else {
        let x = l1[0];
        assert(l1.contains(x));
        to_multiset_contains(l1, x);
        to_multiset_contains(l2, x);
        let i = choose|i: int| 0 <= i < l2.len() && l2[i] == x;
        to_multiset_remove(l1, 0);
        to_multiset_remove(l2, i);
        let rest1 = l1.remove(0);
        let rest2 = l2.remove(i);
        law_lines_order_irrelevant(rest1, rest2, scale);
        let a = l2.take(i);
        let b = l2.skip(i + 1);
        let rx = records(seq![x], scale);
        assert(l1 =~= seq![x] + rest1);
        assert(l2 =~= a + (seq![x] + b));
        assert(rest2 =~= a + b);
        law_records_concat(seq![x], rest1, scale);
        law_aggregate_concat(rx, records(rest1, scale));
        law_records_concat(seq![x], b, scale);
        law_records_concat(a, seq![x] + b, scale);
        law_records_concat(a, b, scale);
        law_aggregate_concat(records(a, scale), rx + records(b, scale));
        law_aggregate_concat(rx, records(b, scale));
        law_aggregate_concat(records(a, scale), records(b, scale));
        let ga = aggregate(records(a, scale));
        let gx = aggregate(rx);
        let gb = aggregate(records(b, scale));
        law_merge_maps_associative(ga, gx, gb);
        law_merge_maps_commutative(ga, gx);
        law_merge_maps_associative(gx, ga, gb);
    }
}

/// The ends of the chunks that a file is cut into from `start` on: a chunk
/// runs for `chunk_size` bytes and then on to just past the next newline; a
/// chunk that would reach the end of the file ends there. None when a chunk
/// finds no newline to end at.
pub open spec fn chunk_ends(file: Seq<u8>, start: int, chunk_size: nat) -> Option<Seq<int>>
    decreases file.len() - start,
{
    if start < 0 || start >= file.len() {
        Some(Seq::empty())
    } else if chunk_size >= file.len() - start {
        Some(seq![file.len() as int])
    } else {
        let region = file.skip(start + chunk_size);
        let p = first_index(region, 10u8);
        if p < 0 || p >= region.len() {
            None
        } else {
            let end = start + chunk_size + p + 1;
            match chunk_ends(file, end, chunk_size) {
                Some(rest) => Some(seq![end] + rest),
                None => None,
            }
        }
    }
}

/// The chunks `(start, end)` given by their ends, the first starting at `start`
/// and each further one where the one before ends.
pub open spec fn chunk_pairs(start: int, ends: Seq<int>) -> Seq<(int, int)> {
    Seq::new(ends.len(), |i: int| (if i == 0 { start } else { ends[i - 1] }, ends[i]))
}

/// The aggregation of each chunk's lines, chunk by chunk.
pub open spec fn chunk_aggregates(file: Seq<u8>, start: int, ends: Seq<int>, scale: int) -> Seq<StatsMap> {
    Seq::new(
        ends.len(),
        |i: int|
            aggregate(records(lines(file.subrange(chunk_pairs(start, ends)[i].0, chunk_pairs(start, ends)[i].1)), scale)),
    )
}

proof fn lemma_merge_all_cons(x: StatsMap, rest: Seq<StatsMap>)
    ensures
        merge_all(seq![x] + rest) == merge_maps(x, merge_all(rest)),
    decreases rest.len(),
{
    if rest.len() == 0 {
        assert(seq![x] + rest =~= seq![x]);
        assert(seq![x].drop_last() =~= Seq::<StatsMap>::empty());
        lemma_merge_maps_empty(x);
        assert(merge_all(seq![x]) == merge_maps(merge_all(seq![x].drop_last()), x));
        assert(merge_all(rest) == Map::<Seq<u8>, crate::model::Stats>::empty());
    } else {
        let s = seq![x] + rest;
        assert(s.drop_last() =~= seq![x] + rest.drop_last());
        assert(s.last() == rest.last());
        lemma_merge_all_cons(x, rest.drop_last());
        law_merge_maps_associative(x, merge_all(rest.drop_last()), rest.last());
        assert(merge_all(s) == merge_maps(merge_all(s.drop_last()), s.last()));
        assert(merge_all(rest) == merge_maps(merge_all(rest.drop_last()), rest.last()));
    }
}

proof fn lemma_chunked_aggregation_from(file: Seq<u8>, start: int, chunk_size: nat, scale: int)
    requires
        0 <= start <= file.len(),
        chunk_ends(file, start, chunk_size) is Some,
    ensures
        merge_all(chunk_aggregates(file, start, chunk_ends(file, start, chunk_size)->Some_0, scale))
            == aggregate(records(lines(file.skip(start)), scale)),
    decreases file.len() - start,
{
    let ends = chunk_ends(file, start, chunk_size)->Some_0;
    let g = chunk_aggregates(file, start, ends, scale);
    if start >= file.len() {
        assert(file.skip(start) =~= Seq::<u8>::empty());
        assert(lines(file.skip(start)) =~= Seq::<Seq<u8>>::empty());
        assert(g =~= Seq::<StatsMap>::empty());
    } else if chunk_size >= file.len() - start {
        assert(file.subrange(start, file.len() as int) =~= file.skip(start));
        assert(g =~= seq![aggregate(records(lines(file.skip(start)), scale))]);
        lemma_merge_all_cons(g[0], Seq::empty());
        assert(seq![g[0]] + Seq::<StatsMap>::empty() =~= g);
        lemma_merge_maps_empty(g[0]);
    } else {
        let region = file.skip(start + chunk_size);
        let p = first_index(region, 10u8);
        lemma_first_index(region, 10u8);
        let end = start + chunk_size + p + 1;
        let rest = chunk_ends(file, end, chunk_size)->Some_0;
        lemma_chunked_aggregation_from(file, end, chunk_size, scale);
        let g2 = chunk_aggregates(file, end, rest, scale);
        let first = file.subrange(start, end);
        let x = aggregate(records(lines(first), scale));
        assert(ends == seq![end] + rest);
        assert(g =~= seq![x] + g2);
        lemma_merge_all_cons(x, g2);
        assert(first.last() == region[p]);
        assert(file.skip(start) =~= first + file.skip(end));
        law_lines_concat(first, file.skip(end));
        law_records_concat(lines(first), lines(file.skip(end)), scale);
        law_aggregate_concat(records(lines(first), scale), records(lines(file.skip(end)), scale));
    }
}

/// Cutting a file into newline-aligned chunks, aggregating each chunk's
/// lines on its own and merging the results in chunk order gives the
/// aggregation of the whole file's lines.
pub proof fn law_chunked_aggregation(file: Seq<u8>, chunk_size: nat, scale: int)
    requires
        chunk_ends(file, 0, chunk_size) is Some,
    ensures
        merge_all(chunk_aggregates(file, 0, chunk_ends(file, 0, chunk_size)->Some_0, scale))
            == aggregate(records(lines(file), scale)),
{
    lemma_chunked_aggregation_from(file, 0, chunk_size, scale);
    assert(file.skip(0) =~= file);
}

/// `partials` are the workers' results for the chunks that `file` is cut
/// into with `chunk_size`: one per chunk, in chunk order, each the
/// successful run of its chunk's lines from an empty map.
pub open spec fn chunk_results(file: Seq<u8>, chunk_size: nat, scale: int, partials: Seq<StatsMap>) -> bool {
    &&& chunk_ends(file, 0, chunk_size) is Some
    &&& partials.len() == chunk_ends(file, 0, chunk_size)->Some_0.len()
    &&& forall|i: int|
        0 <= i < partials.len() ==> run_lines(
            Map::empty(),
            lines(
                file.subrange(
                    chunk_pairs(0, chunk_ends(file, 0, chunk_size)->Some_0)[i].0,
                    chunk_pairs(0, chunk_ends(file, 0, chunk_size)->Some_0)[i].1,
                ),
            ),
            scale,
        ) == Ok::<StatsMap, LineError>(#[trigger] partials[i])
}

/// The workers' results merged in chunk order are the aggregation of the
/// whole file's lines, and the same as one sequential pass over the file
/// when that pass succeeds: splitting the work changes nothing.
pub proof fn law_chunked_run(file: Seq<u8>, chunk_size: nat, scale: int, partials: Seq<StatsMap>)
    requires
        chunk_results(file, chunk_size, scale, partials),
    ensures
        merge_all(partials) == aggregate(records(lines(file), scale)),
        run_lines(Map::empty(), lines(file), scale) is Ok ==> run_lines(Map::empty(), lines(file), scale)
            == Ok::<StatsMap, LineError>(merge_all(partials)),
{
    let ends = chunk_ends(file, 0, chunk_size)->Some_0;
    let pairs = chunk_pairs(0, ends);
    assert forall|i: int| 0 <= i < partials.len() implies #[trigger] partials[i] == chunk_aggregates(file, 0, ends, scale)[i] by {
        let chunk_lines = lines(file.subrange(pairs[i].0, pairs[i].1));
        assert(run_lines(Map::<Seq<u8>, crate::model::Stats>::empty(), chunk_lines, scale) == Ok::<StatsMap, LineError>(partials[i]));
        lemma_run_lines_aggregates(Map::empty(), chunk_lines, scale);
    }
    assert(partials =~= chunk_aggregates(file, 0, ends, scale));
    law_chunked_aggregation(file, chunk_size, scale);
    if run_lines(Map::empty(), lines(file), scale) is Ok {
        lemma_run_lines_aggregates(Map::empty(), lines(file), scale);
    }
}

/// A file that is empty or ends with a newline is always cut into chunks:
/// from every cut point short of the end, the search for a newline runs on
/// through the rest of the file and reaches at least its final newline.
pub proof fn law_chunks_exist(file: Seq<u8>, start: int, chunk_size: nat)
    requires
        0 <= start <= file.len(),
        file.len() == 0 || file[file.len() - 1] == 10u8,
    ensures
        chunk_ends(file, start, chunk_size) is Some,
    decreases file.len() - start,
{
    if start < file.len() && chunk_size < file.len() - start {
        let region = file.skip(start + chunk_size);
        lemma_first_index(region, 10u8);
        let p = first_index(region, 10u8);
        assert(region[region.len() - 1] == file[file.len() - 1]);
        if p >= region.len() {
            assert(region[region.len() - 1] != 10u8);
        }
        law_chunks_exist(file, start + chunk_size + p + 1, chunk_size);
    }
}

/// Each chunk but the last ends just past the first newline at or after its
/// cut point (its start plus `chunk_size`): the newline closing the chunk is
/// at or after the cut, and no newline lies between the cut and it.
pub proof fn law_chunks_end_at_first_newline(file: Seq<u8>, start: int, chunk_size: nat)
    requires
        0 <= start <= file.len(),
        chunk_ends(file, start, chunk_size) is Some,
    ensures
        ({
            let ends = chunk_ends(file, start, chunk_size)->Some_0;
            let pairs = chunk_pairs(start, ends);
            forall|i: int|
                0 <= i < ends.len() - 1 ==> {
                    &&& #[trigger] pairs[i].0 + chunk_size <= ends[i] - 1
                    &&& forall|j: int| pairs[i].0 + chunk_size <= j < ends[i] - 1 ==> file[j] != 10u8
                }
        }),
    decreases file.len() - start,
{
    let ends = chunk_ends(file, start, chunk_size)->Some_0;
    if start < file.len() && chunk_size < file.len() - start {
        let region = file.skip(start + chunk_size);
        let p = first_index(region, 10u8);
        lemma_first_index(region, 10u8);
        let end = start + chunk_size + p + 1;
        let rest = chunk_ends(file, end, chunk_size)->Some_0;
        law_chunks_end_at_first_newline(file, end, chunk_size);
        assert(ends == seq![end] + rest);
        let pairs = chunk_pairs(start, ends);
        let rest_pairs = chunk_pairs(end, rest);
        assert forall|i: int| 0 <= i < ends.len() - 1 implies {
            &&& #[trigger] pairs[i].0 + chunk_size <= ends[i] - 1
            &&& forall|j: int| pairs[i].0 + chunk_size <= j < ends[i] - 1 ==> file[j] != 10u8
        } by {
            if i == 0 {
                assert forall|j: int| pairs[i].0 + chunk_size <= j < ends[i] - 1 implies file[j] != 10u8 by {
                    assert(file[j] == region[j - start - chunk_size]);
                }
            } else {
                assert(pairs[i] == rest_pairs[i - 1]);
                assert(ends[i] == rest[i - 1]);
            }
        }
    }
}

/// The chunks partition the file from `start` on: each is non-empty and
/// begins where the one before ends, the last ends at the end of the file,
/// and every chunk but the last ends with a newline.
pub proof fn law_chunks_partition(file: Seq<u8>, start: int, chunk_size: nat)
    requires
        0 <= start <= file.len(),
        chunk_ends(file, start, chunk_size) is Some,
    ensures
        ({
            let ends = chunk_ends(file, start, chunk_size)->Some_0;
            let pairs = chunk_pairs(start, ends);
            &&& (ends.len() == 0) == (start == file.len())
            &&& ends.len() > 0 ==> ends.last() == file.len()
            &&& forall|i: int| 0 <= i < ends.len() ==> #[trigger] pairs[i].0 < pairs[i].1 <= file.len()
            &&& forall|i: int| 0 <= i < ends.len() - 1 ==> file[#[trigger] ends[i] - 1] == 10u8
        }),
    decreases file.len() - start,
{
    let ends = chunk_ends(file, start, chunk_size)->Some_0;
    if start < file.len() && chunk_size < file.len() - start {
        let region = file.skip(start + chunk_size);
        let p = first_index(region, 10u8);
        lemma_first_index(region, 10u8);
        let end = start + chunk_size + p + 1;
        let rest = chunk_ends(file, end, chunk_size)->Some_0;
        law_chunks_partition(file, end, chunk_size);
        assert(ends == seq![end] + rest);
        assert(file[end - 1] == region[p]);
        let pairs = chunk_pairs(start, ends);
        let rest_pairs = chunk_pairs(end, rest);
        assert forall|i: int| 0 <= i < ends.len() implies #[trigger] pairs[i].0 < pairs[i].1 <= file.len() by {
            if i > 0 {
                assert(pairs[i] == rest_pairs[i - 1]);
            }
        }
        assert forall|i: int| 0 <= i < ends.len() - 1 implies file[#[trigger] ends[i] - 1] == 10u8 by {
            if i > 0 {
                assert(ends[i] == rest[i - 1]);
            }
        }
        if rest.len() > 0 {
            assert(ends.last() == rest.last());
        }
    }
}

} // verus!
