//! New arrays out of the rows of an old one, byte for byte.
use crate::budget::marked;
use crate::detect::ascii_white;
use crate::json::{chosen_parts, read_apart, trees, Json, Tree};
use crate::query::{
    lemma_marked_below, match_mask, matches_of, parse_rows, predicate_views, record_matches,
    row_matches, rows_of, Predicate, PredicateView,
};
use crate::units::{
    elements, elements_from, law_elements_are_ordered, lemma_skip_white, lemma_value_end,
    ordered, scan_top_level_array_elements, skip_white, span_bytes, spans, trimmed_end, value_end,
};
use std::ops::Range;
use vstd::prelude::*;

verus! {

/// The items that are marked, in order.
pub open spec fn kept<T>(items: Seq<T>, mask: Seq<bool>) -> Seq<T>
    decreases items.len(),
{
    if items.len() == 0 {
        Seq::empty()
    } else if mask[items.len() - 1] {
        kept(items.drop_last(), mask).push(items.last())
    } else {
        kept(items.drop_last(), mask)
    }
}

/// The parts with commas between them.
pub open spec fn comma_joined(parts: Seq<Seq<u8>>) -> Seq<u8>
    decreases parts.len(),
{
    if parts.len() == 0 {
        Seq::empty()
    } else if parts.len() == 1 {
        parts[0]
    } else {
        comma_joined(parts.drop_last()).push(0x2c) + parts.last()
    }
}

/// The array of the parts.
pub open spec fn array_of(parts: Seq<Seq<u8>>) -> Seq<u8> {
    seq![0x5bu8] + comma_joined(parts) + seq![0x5du8]
}

/// The bytes of the elements of an array.
pub open spec fn parts_of(input: Seq<u8>, at: Seq<(int, int)>) -> Seq<Seq<u8>> {
    Seq::new(at.len(), |i: int| span_bytes(input, at[i]))
}

/// The rows of an array together with the bytes of each.
pub struct Sliced {
    pub rows: Seq<Tree>,
    pub parts: Seq<Seq<u8>>,
}

/// The rows of an input together with the bytes of each: nothing if the input is
/// no JSON array, or if the scanner and the parser disagree on the number of
/// elements.
pub open spec fn sliced(input: Seq<u8>) -> Option<Sliced> {
    match (rows_of(input), elements(input)) {
        (Some(rows), Some(at)) => if rows.len() == at.len() {
            Some(Sliced { rows, parts: parts_of(input, at) })
        } else {
            None
        },
        _ => None,
    }
}

/// The array of the rows that match.
pub open spec fn subset_of(input: Seq<u8>, predicates: Seq<PredicateView>) -> Option<Seq<u8>> {
    match sliced(input) {
        Some(s) => Some(array_of(kept(s.parts, match_mask(s.rows, predicates)))),
        None => None,
    }
}

/// The array of the rows with the given numbers, in that order.
pub open spec fn picked(input: Seq<u8>, indices: Seq<usize>) -> Option<Seq<u8>> {
    match sliced(input) {
        Some(s) => if forall|k: int| 0 <= k < indices.len() ==> (#[trigger] indices[k]) < s.parts.len() {
            Some(array_of(Seq::new(indices.len(), |k: int| s.parts[indices[k] as int])))
        } else {
            None
        },
        None => None,
    }
}

/// Appends a part, after a comma unless it is the first.
fn push_part(out: &mut Vec<u8>, first: bool, part: &[u8], Ghost(parts): Ghost<Seq<Seq<u8>>>)
    requires
        old(out)@ == seq![0x5bu8] + comma_joined(parts),
        first == (parts.len() == 0),
    ensures
        final(out)@ == seq![0x5bu8] + comma_joined(parts.push(part@)),
{
    let ghost before = out@;
    if !first {
        out.push(0x2c);
    }
    out.extend_from_slice(part);
    proof {
        let next = parts.push(part@);
        assert(next.drop_last() =~= parts);
        assert(next.last() == part@);
        assert(out@ =~= seq![0x5bu8] + comma_joined(next));
    }
}

/// The rows and ranges of an input.
fn slice_rows(input: &[u8]) -> (out: Option<(Vec<Json>, Vec<Range<usize>>)>)
    ensures
        match out {
            Some(s) => {
                &&& sliced(input@) == Some(
                    (Sliced { rows: trees(s.0@), parts: parts_of(input@, spans(s.1@)) }),
                )
                &&& s.0@.len() == s.1@.len()
                &&& ordered(spans(s.1@), input@.len() as int)
                &&& read_apart(input@, Tree::Array(trees(s.0@)))
            },
            None => sliced(input@) is None,
        },
{
    match parse_rows(input) {
        None => None,
        Some(rows) => match scan_top_level_array_elements(input) {
            None => None,
            Some(ranges) => {
                if ranges.len() != rows.len() {
                    None
                } else {
                    proof {
                        law_elements_are_ordered(input@);
                    }
                    Some((rows, ranges))
                }
            },
        },
    }
}

/// The records that pass every comparison, as a new array: each row's bytes are
/// those of the input. The new array holds exactly the records that pass, and
/// selecting from it is the same, byte for byte, as selecting by all comparisons
/// at once.
pub fn query_subset(input: &[u8], predicates: &[Predicate]) -> (out: Option<Vec<u8>>)
    ensures
        match out {
            Some(bytes) => {
                let first = predicate_views(predicates@);
                &&& subset_of(input@, first) == Some(bytes@)
                &&& rows_of(bytes@) == Some(
                    kept(rows_of(input@)->0, match_mask(rows_of(input@)->0, first)),
                )
                &&& forall|second: Seq<PredicateView>| #[trigger]
                    subset_of(bytes@, second) == subset_of(input@, first + second)
            },
            None => subset_of(input@, predicate_views(predicates@)) is None,
        },
{
    match slice_rows(input) {
        None => None,
        Some((rows, ranges)) => {
            let ghost all = parts_of(input@, spans(ranges@));
            let ghost mask = match_mask(trees(rows@), predicate_views(predicates@));
            let mut out: Vec<u8> = Vec::new();
            out.push(0x5b);
            let mut first = true;
            let mut i: usize = 0;
            assert(out@ =~= seq![0x5bu8] + comma_joined(kept(all.take(0), mask)));
            while i < rows.len()
                invariant
                    i <= rows@.len() == ranges@.len(),
                    ordered(spans(ranges@), input@.len() as int),
                    all == parts_of(input@, spans(ranges@)),
                    mask == match_mask(trees(rows@), predicate_views(predicates@)),
                    out@ == seq![0x5bu8] + comma_joined(kept(all.take(i as int), mask)),
                    first == (kept(all.take(i as int), mask).len() == 0),
                decreases rows@.len() - i,
            {
                let ghost next = all.take(i as int + 1);
                assert(next.drop_last() =~= all.take(i as int));
                assert(trees(rows@)[i as int] == rows@[i as int]@);
                assert(spans(ranges@)[i as int] == (
                    ranges@[i as int].start as int,
                    ranges@[i as int].end as int,
                ));
                if record_matches(&rows[i], predicates) {
                    let part = vstd::slice::slice_subrange(input, ranges[i].start, ranges[i].end);
                    push_part(&mut out, first, part, Ghost(kept(all.take(i as int), mask)));
                    first = false;
                }
                i += 1;
            }
            assert(all.take(i as int) =~= all);
            out.push(0x5d);
            assert(out@ =~= array_of(kept(all, mask)));
            proof {
                let ts = trees(rows@);
                let first = predicate_views(predicates@);
                assert(ts.len() == rows.len());
                lemma_kept_rows(input@, ts, mask);
                assert forall|second: Seq<PredicateView>| #[trigger]
                    subset_of(out@, second) == subset_of(input@, first + second) by {
                    law_chaining_is_conjunction(input@, first, second);
                }
            }
            Some(out)
        },
    }
}

/// The records with the given numbers, in that order, as a new array: each
/// row's bytes are those of the input. The new array holds exactly those
/// records. A number that is out of range refuses the whole.
pub fn pick_rows(input: &[u8], indices: &[usize]) -> (out: Option<Vec<u8>>)
    ensures
        match out {
            Some(bytes) => picked(input@, indices@) == Some(bytes@) && rows_of(bytes@) == Some(
                Seq::new(indices@.len(), |k: int| rows_of(input@)->0[indices@[k] as int]),
            ),
            None => picked(input@, indices@) is None,
        },
{
    match slice_rows(input) {
        None => None,
        Some((rows, ranges)) => {
            let ghost all = parts_of(input@, spans(ranges@));
            let ghost mut done: Seq<Seq<u8>> = Seq::empty();
            let mut out: Vec<u8> = Vec::new();
            out.push(0x5b);
            let mut first = true;
            let mut k: usize = 0;
            assert(out@ =~= seq![0x5bu8] + comma_joined(done));
            while k < indices.len()
                invariant
                    k <= indices@.len(),
                    ordered(spans(ranges@), input@.len() as int),
                    all == parts_of(input@, spans(ranges@)),
                    sliced(input@) is Some,
                    sliced(input@)->0.parts == all,
                    all.len() == ranges@.len(),
                    done.len() == k,
                    forall|j: int| 0 <= j < k ==> (#[trigger] indices@[j]) < all.len(),
                    forall|j: int| 0 <= j < k ==> #[trigger] done[j] == all[indices@[j] as int],
                    out@ == seq![0x5bu8] + comma_joined(done),
                    first == (done.len() == 0),
                decreases indices@.len() - k,
            {
                let idx: usize = indices[k];
                if idx >= ranges.len() {
                    assert(indices@[k as int] >= all.len());
                    return None;
                }
                assert(spans(ranges@)[idx as int] == (
                    ranges@[idx as int].start as int,
                    ranges@[idx as int].end as int,
                ));
                let part = vstd::slice::slice_subrange(input, ranges[idx].start, ranges[idx].end);
                push_part(&mut out, first, part, Ghost(done));
                proof {
                    done = done.push(part@);
                }
                first = false;
                k += 1;
            }
            out.push(0x5d);
            assert(done =~= Seq::new(indices@.len(), |j: int| all[indices@[j] as int]));
            assert(out@ =~= array_of(done));
            assert(trees(rows@).len() == rows@.len());
            assert(done =~= chosen_parts(input@, indices@));
            Some(out)
        },
    }
}

// ---------------------------------------------------------------------------
// Provenance
// ---------------------------------------------------------------------------

proof fn lemma_kept_is_picked<T>(parts: Seq<T>, mask: Seq<bool>, n: int)
    requires
        0 <= n <= parts.len(),
        n <= mask.len() <= usize::MAX,
    ensures
        kept(parts.take(n), mask) == Seq::new(
            marked(mask.take(n)).len(),
            |k: int| parts[marked(mask.take(n))[k] as int],
        ),
    decreases n,
{
    let chosen = marked(mask.take(n));
    if n > 0 {
        lemma_kept_is_picked(parts, mask, n - 1);
        assert(parts.take(n).drop_last() =~= parts.take(n - 1));
        assert(mask.take(n).drop_last() =~= mask.take(n - 1));
        assert(kept(parts.take(n), mask) =~= Seq::new(
            chosen.len(),
            |k: int| parts[chosen[k] as int],
        ));
    } else {
        assert(kept(parts.take(0), mask) =~= Seq::new(
            chosen.len(),
            |k: int| parts[chosen[k] as int],
        ));
    }
}

/// The array of the rows that a mask keeps is read as those rows.
proof fn lemma_kept_rows(input: Seq<u8>, rows: Seq<Tree>, mask: Seq<bool>)
    requires
        sliced(input) is Some,
        sliced(input)->0.rows == rows,
        read_apart(input, Tree::Array(rows)),
        mask.len() == rows.len() <= usize::MAX,
    ensures
        rows_of(array_of(kept(sliced(input)->0.parts, mask))) == Some(kept(rows, mask)),
{
    let parts = sliced(input)->0.parts;
    let n = rows.len() as int;
    let chosen = marked(mask);
    lemma_marked_below(mask);
    lemma_kept_is_picked(parts, mask, n);
    lemma_kept_is_picked(rows, mask, n);
    assert(parts.take(n) =~= parts);
    assert(rows.take(n) =~= rows);
    assert(mask.take(n) =~= mask);
    assert(kept(parts, mask) =~= chosen_parts(input, chosen));
    assert(kept(rows, mask) =~= Seq::new(chosen.len(), |k: int| rows[chosen[k] as int]));
}

/// The numbers behind an answer pull exactly the rows that match: picking them
/// gives the same bytes as selecting by the comparisons.
pub proof fn law_provenance_pulls_the_subset(
    input: Seq<u8>,
    predicates: Seq<PredicateView>,
)
    requires
        rows_of(input) is Some ==> rows_of(input)->0.len() <= usize::MAX,
    ensures
        rows_of(input) is Some ==> picked(input, matches_of(rows_of(input)->0, predicates))
            == subset_of(input, predicates),
{
    if sliced(input) is Some {
        let rows = sliced(input)->0.rows;
        let parts = sliced(input)->0.parts;
        let mask = match_mask(rows, predicates);
        lemma_marked_below(mask);
        lemma_kept_is_picked(parts, mask, parts.len() as int);
        assert(parts.take(parts.len() as int) =~= parts);
        assert(mask.take(mask.len() as int) =~= mask);
    }
}

// ---------------------------------------------------------------------------
// Chaining
// ---------------------------------------------------------------------------

/// The scanner's state after `s[i..j]`, if it does not stop on the way.
pub open spec fn scanned(
    s: Seq<u8>,
    i: int,
    j: int,
    depth: nat,
    quoted: bool,
    escaped: bool,
) -> Option<(nat, bool, bool)>
    decreases j - i,
{
    if i >= j {
        Some((depth, quoted, escaped))
    } else {
        let c = s[i];
        if quoted {
            if escaped {
                scanned(s, i + 1, j, depth, true, false)
            } else if c == 0x5c {
                scanned(s, i + 1, j, depth, true, true)
            } else {
                scanned(s, i + 1, j, depth, c != 0x22, false)
            }
        } else if c == 0x22 {
            scanned(s, i + 1, j, depth, true, escaped)
        } else if c == 0x5b || c == 0x7b {
            scanned(s, i + 1, j, depth + 1, false, escaped)
        } else if c == 0x5d || c == 0x7d {
            if depth == 0 {
                None
            } else {
                scanned(s, i + 1, j, (depth - 1) as nat, false, escaped)
            }
        } else if c == 0x2c && depth == 0 {
            None
        } else {
            scanned(s, i + 1, j, depth, false, escaped)
        }
    }
}

/// The bytes are one value as the scanner sees it: not empty, without white
/// space around it, and with everything closed that it opens.
pub open spec fn one_value(p: Seq<u8>) -> bool {
    &&& p.len() > 0
    &&& !ascii_white(p[0])
    &&& p[0] != 0x5d
    &&& !ascii_white(p.last())
    &&& scanned(p, 0, p.len() as int, 0, false, false) == Some((0nat, false, false))
}

/// The scanner sees only the bytes it scans.
proof fn lemma_scanned_same(
    s: Seq<u8>,
    t: Seq<u8>,
    i: int,
    j: int,
    shift: int,
    depth: nat,
    quoted: bool,
    escaped: bool,
)
    requires
        forall|k: int| i <= k < j ==> #[trigger] s[k] == t[k + shift],
    ensures
        scanned(s, i, j, depth, quoted, escaped) == scanned(
            t,
            i + shift,
            j + shift,
            depth,
            quoted,
            escaped,
        ),
    decreases j - i,
{
    if i < j {
        assert(s[i] == t[i + shift]);
        let c = s[i];
        if quoted {
            if escaped {
                lemma_scanned_same(s, t, i + 1, j, shift, depth, true, false);
            } else if c == 0x5c {
                lemma_scanned_same(s, t, i + 1, j, shift, depth, true, true);
            } else {
                lemma_scanned_same(s, t, i + 1, j, shift, depth, c != 0x22, false);
            }
        } else if c == 0x22 {
            lemma_scanned_same(s, t, i + 1, j, shift, depth, true, escaped);
        } else if c == 0x5b || c == 0x7b {
            lemma_scanned_same(s, t, i + 1, j, shift, depth + 1, false, escaped);
        } else if c == 0x5d || c == 0x7d {
            if depth > 0 {
                lemma_scanned_same(s, t, i + 1, j, shift, (depth - 1) as nat, false, escaped);
            }
        } else if c == 0x2c && depth == 0 {
        } else {
            lemma_scanned_same(s, t, i + 1, j, shift, depth, false, escaped);
        }
    }
}

/// Where the scanner does not stop on the way, it stops where it stops from
/// there on.
proof fn lemma_scanned_then(
    s: Seq<u8>,
    i: int,
    j: int,
    depth: nat,
    quoted: bool,
    escaped: bool,
)
    requires
        0 <= i <= j <= s.len(),
        scanned(s, i, j, depth, quoted, escaped) is Some,
    ensures
        ({
            let st = scanned(s, i, j, depth, quoted, escaped)->0;
            value_end(s, i, depth, quoted, escaped) == value_end(s, j, st.0, st.1, st.2)
        }),
    decreases j - i,
{
    if i < j {
        let c = s[i];
        if quoted {
            if escaped {
                lemma_scanned_then(s, i + 1, j, depth, true, false);
            } else if c == 0x5c {
                lemma_scanned_then(s, i + 1, j, depth, true, true);
            } else {
                lemma_scanned_then(s, i + 1, j, depth, c != 0x22, false);
            }
        } else if c == 0x22 {
            lemma_scanned_then(s, i + 1, j, depth, true, escaped);
        } else if c == 0x5b || c == 0x7b {
            lemma_scanned_then(s, i + 1, j, depth + 1, false, escaped);
        } else if c == 0x5d || c == 0x7d {
            lemma_scanned_then(s, i + 1, j, (depth - 1) as nat, false, escaped);
        } else {
            lemma_scanned_then(s, i + 1, j, depth, false, escaped);
        }
    }
}

/// The scanner does not stop before it stops; where it stops inside of the
/// input, nothing is open. `b` is a position before, with nothing but white
/// space in between.
proof fn lemma_scanned_up_to(
    s: Seq<u8>,
    i: int,
    b: int,
    depth: nat,
    quoted: bool,
    escaped: bool,
)
    requires
        0 <= i <= b <= value_end(s, i, depth, quoted, escaped) < s.len(),
        forall|k: int|
            b <= k < value_end(s, i, depth, quoted, escaped) ==> ascii_white(#[trigger] s[k]),
        !quoted ==> !escaped,
    ensures
        scanned(s, i, b, depth, quoted, escaped) == Some((0nat, false, false)),
    decreases s.len() - i,
{
    let stop = value_end(s, i, depth, quoted, escaped);
    if i < b {
        let c = s[i];
        if quoted {
            if escaped {
                lemma_scanned_up_to(s, i + 1, b, depth, true, false);
            } else if c == 0x5c {
                lemma_scanned_up_to(s, i + 1, b, depth, true, true);
            } else {
                lemma_scanned_up_to(s, i + 1, b, depth, c != 0x22, false);
            }
        } else if c == 0x22 {
            lemma_scanned_up_to(s, i + 1, b, depth, true, escaped);
        } else if c == 0x5b || c == 0x7b {
            lemma_scanned_up_to(s, i + 1, b, depth + 1, false, escaped);
        } else if c == 0x5d || c == 0x7d {
            lemma_scanned_up_to(s, i + 1, b, (depth - 1) as nat, false, escaped);
        } else {
            lemma_scanned_up_to(s, i + 1, b, depth, false, escaped);
        }
    } else if i < stop {
        let c = s[i];
        assert(ascii_white(c));
        if quoted {
            lemma_scanned_up_to(s, i + 1, i + 1, depth, true, false);
        } else {
            lemma_scanned_up_to(s, i + 1, i + 1, depth, false, escaped);
        }
    } else {
        // The scanner stops right here, so it does not go on.
        lemma_value_end(s, i + 1, depth, true, false);
        lemma_value_end(s, i + 1, depth, true, true);
        lemma_value_end(s, i + 1, depth, false, false);
        lemma_value_end(s, i + 1, depth + 1, false, escaped);
        if depth > 0 {
            lemma_value_end(s, i + 1, (depth - 1) as nat, false, escaped);
        }
    }
}

proof fn lemma_trimmed(s: Seq<u8>, from: int, to: int)
    requires
        0 <= from <= to <= s.len(),
    ensures
        from <= trimmed_end(s, from, to) <= to,
        forall|k: int| trimmed_end(s, from, to) <= k < to ==> ascii_white(#[trigger] s[k]),
        from < trimmed_end(s, from, to) ==> !ascii_white(s[trimmed_end(s, from, to) - 1]),
    decreases to - from,
{
    if from < to && ascii_white(s[to - 1]) {
        lemma_trimmed(s, from, to - 1);
    }
}

proof fn lemma_elements_are_values(s: Seq<u8>, i: int)
    requires
        0 <= i <= s.len(),
        elements_from(s, i) is Some,
    ensures
        forall|k: int|
            0 <= k < elements_from(s, i)->0.len() ==> one_value(
                span_bytes(s, #[trigger] elements_from(s, i)->0[k]),
            ),
    decreases s.len() - i,
{
    let start = skip_white(s, i);
    lemma_skip_white(s, i);
    let stop = value_end(s, start, 0, false, false);
    lemma_value_end(s, start, 0, false, false);
    let end = trimmed_end(s, start, stop);
    lemma_trimmed(s, start, stop);
    let part = s.subrange(start, end);
    lemma_scanned_up_to(s, start, end, 0, false, false);
    assert(forall|k: int| start <= k < end ==> #[trigger] s[k] == part[k + (0 - start)]);
    lemma_scanned_same(s, part, start, end, 0 - start, 0, false, false);
    assert(one_value(part));
    if s[stop] == 0x2c {
        lemma_elements_are_values(s, stop + 1);
        let rest = elements_from(s, stop + 1)->0;
        let all = elements_from(s, i)->0;
        assert(all =~= seq![(start, end)] + rest);
        assert forall|k: int| 0 <= k < all.len() implies one_value(
            span_bytes(s, #[trigger] all[k]),
        ) by {
            if k > 0 {
                assert(all[k] == rest[k - 1]);
            }
        }
    }
}

/// The bytes of each element of an array are one value.
pub proof fn law_elements_are_values(s: Seq<u8>)
    requires
        elements(s) is Some,
    ensures
        forall|k: int|
            0 <= k < elements(s)->0.len() ==> one_value(
                span_bytes(s, #[trigger] elements(s)->0[k]),
            ),
{
    let open = skip_white(s, 0);
    lemma_skip_white(s, 0);
    lemma_skip_white(s, open + 1);
    if s[skip_white(s, open + 1)] != 0x5d {
        lemma_elements_are_values(s, open + 1);
    }
}

/// All parts are one value each.
pub open spec fn all_values(parts: Seq<Seq<u8>>) -> bool {
    forall|k: int| 0 <= k < parts.len() ==> one_value(#[trigger] parts[k])
}

/// The parts from number `k` on with commas between them.
spec fn joined_from(parts: Seq<Seq<u8>>, k: int) -> Seq<u8>
    decreases parts.len() - k,
{
    if k < 0 || k >= parts.len() {
        Seq::empty()
    } else if k == parts.len() - 1 {
        parts[k]
    } else {
        parts[k].push(0x2c) + joined_from(parts, k + 1)
    }
}

proof fn lemma_joined_from_push(parts: Seq<Seq<u8>>, part: Seq<u8>, k: int)
    requires
        0 <= k < parts.len(),
    ensures
        joined_from(parts.push(part), k) == joined_from(parts, k).push(0x2c) + part,
    decreases parts.len() - k,
{
    let longer = parts.push(part);
    if k < parts.len() - 1 {
        lemma_joined_from_push(parts, part, k + 1);
        assert(longer[k] == parts[k]);
        assert(joined_from(longer, k) =~= joined_from(parts, k).push(0x2c) + part);
    } else {
        assert(longer[k] == parts[k]);
        assert(longer[k + 1] == part);
        assert(joined_from(longer, k + 1) == part);
        assert(joined_from(longer, k) =~= joined_from(parts, k).push(0x2c) + part);
    }
}

proof fn lemma_joined(parts: Seq<Seq<u8>>)
    ensures
        comma_joined(parts) == joined_from(parts, 0),
    decreases parts.len(),
{
    if parts.len() > 1 {
        lemma_joined(parts.drop_last());
        lemma_joined_from_push(parts.drop_last(), parts.last(), 0);
        assert(parts.drop_last().push(parts.last()) =~= parts);
    }
}

/// The scanner finds the parts of a built array again.
proof fn lemma_scan_back(parts: Seq<Seq<u8>>, t: Seq<u8>, k: int, pos: int)
    requires
        all_values(parts),
        0 <= k < parts.len(),
        0 <= pos,
        pos + joined_from(parts, k).len() + 1 == t.len(),
        t.subrange(pos, t.len() - 1) == joined_from(parts, k),
        t[t.len() - 1] == 0x5d,
    ensures
        elements_from(t, pos) is Some,
        elements_from(t, pos)->0.len() == parts.len() - k,
        forall|m: int|
            0 <= m < parts.len() - k ==> span_bytes(t, #[trigger] elements_from(t, pos)->0[m])
                == parts[k + m],
    decreases parts.len() - k,
{
    let part = parts[k];
    assert(one_value(part));
    let joined = joined_from(parts, k);
    let n = part.len() as int;
    let end = pos + n;
    assert(joined.len() >= n);
    assert(forall|m: int| 0 <= m < n ==> #[trigger] t[pos + m] == part[m]) by {
        assert forall|m: int| 0 <= m < n implies #[trigger] t[pos + m] == part[m] by {
            assert(t.subrange(pos, t.len() - 1)[m] == joined[m]);
        }
    }
    assert(t[pos + 0] == part[0]);
    assert(skip_white(t, pos) == pos);
    assert forall|m: int| 0 <= m < n implies #[trigger] part[m] == t[m + pos] by {
        assert(t[pos + m] == part[m]);
    }
    lemma_scanned_same(part, t, 0, n, pos, 0, false, false);
    lemma_scanned_then(t, pos, end, 0, false, false);
    if k == parts.len() - 1 {
        assert(t[end] == 0x5d);
    } else {
        assert(t.subrange(pos, t.len() - 1)[n] == joined[n]);
        assert(t[end] == 0x2c);
    }
    assert(value_end(t, pos, 0, false, false) == end);
    assert(t[pos + (n - 1)] == part[n - 1]);
    assert(trimmed_end(t, pos, end) == end);
    assert(t.subrange(pos, end) =~= part);
    let all = elements_from(t, pos)->0;
    if k == parts.len() - 1 {
        assert(skip_white(t, end + 1) == t.len());
        assert(elements_from(t, pos) == Some(seq![(pos, end)]));
        assert(all[0] == (pos, end));
    } else {
        let next = joined_from(parts, k + 1);
        assert(joined =~= part.push(0x2c) + next);
        assert(t.subrange(end + 1, t.len() - 1) =~= next) by {
            assert forall|m: int| 0 <= m < next.len() implies t.subrange(end + 1, t.len() - 1)[m]
                == next[m] by {
                assert(t.subrange(pos, t.len() - 1)[n + 1 + m] == joined[n + 1 + m]);
            }
        }
        lemma_scan_back(parts, t, k + 1, end + 1);
        let rest = elements_from(t, end + 1)->0;
        assert(elements_from(t, pos) == Some(seq![(pos, end)] + rest));
        assert forall|m: int| 0 <= m < parts.len() - k implies span_bytes(t, #[trigger] all[m])
            == parts[k + m] by {
            if m > 0 {
                assert(all[m] == rest[m - 1]);
            } else {
                assert(all[0] == (pos, end));
            }
        }
    }
}

/// A built array has exactly the parts that it was built from as its elements.
pub proof fn law_built_array_has_its_parts(parts: Seq<Seq<u8>>)
    requires
        all_values(parts),
    ensures
        elements(array_of(parts)) is Some,
        parts_of(array_of(parts), elements(array_of(parts))->0) == parts,
{
    let t = array_of(parts);
    lemma_joined(parts);
    assert(t[0] == 0x5b);
    assert(skip_white(t, 0) == 0);
    assert(t[t.len() - 1] == 0x5d);
    if parts.len() == 0 {
        assert(t =~= seq![0x5bu8, 0x5du8]);
        assert(skip_white(t, 1) == 1);
        assert(skip_white(t, 2) == 2);
        assert(parts_of(t, elements(t)->0) =~= parts);
    } else {
        assert(t.subrange(1, t.len() - 1) =~= joined_from(parts, 0));
        lemma_scan_back(parts, t, 0, 1);
        assert(parts_of(t, elements(t)->0) =~= parts);
    }
}

proof fn lemma_kept_values(parts: Seq<Seq<u8>>, mask: Seq<bool>)
    requires
        all_values(parts),
    ensures
        all_values(kept(parts, mask)),
    decreases parts.len(),
{
    if parts.len() > 0 {
        let before = parts.drop_last();
        assert(forall|k: int| 0 <= k < before.len() ==> #[trigger] before[k] == parts[k]);
        lemma_kept_values(before, mask);
        assert(parts.last() == parts[parts.len() - 1]);
        let all = kept(parts, mask);
        let some = kept(before, mask);
        assert forall|k: int| 0 <= k < all.len() implies one_value(#[trigger] all[k]) by {
            if k < some.len() {
                assert(all[k] == some[k]);
            }
        }
    }
}

/// Filtering twice is filtering by both.
proof fn lemma_kept_twice<T>(
    items: Seq<T>,
    rows: Seq<Tree>,
    first: Seq<PredicateView>,
    second: Seq<PredicateView>,
    n: int,
)
    requires
        items.len() == rows.len(),
        0 <= n <= rows.len(),
    ensures
        ({
            let mask = match_mask(rows, first);
            let left = kept(rows.take(n), mask);
            &&& left.len() == kept(items.take(n), mask).len()
            &&& kept(kept(items.take(n), mask), match_mask(left, second)) == kept(
                items.take(n),
                match_mask(rows, first + second),
            )
        }),
    decreases n,
{
    let mask = match_mask(rows, first);
    let both = match_mask(rows, first + second);
    if n > 0 {
        lemma_kept_twice(items, rows, first, second, n - 1);
        assert(rows.take(n).drop_last() =~= rows.take(n - 1));
        assert(items.take(n).drop_last() =~= items.take(n - 1));
        crate::query::law_conjunction_in_two_steps(rows[n - 1], first, second);
        let old_rows = kept(rows.take(n - 1), mask);
        let old_items = kept(items.take(n - 1), mask);
        let new_rows = kept(rows.take(n), mask);
        let new_items = kept(items.take(n), mask);
        if mask[n - 1] {
            assert(new_rows == old_rows.push(rows[n - 1]));
            assert(new_items == old_items.push(items[n - 1]));
            assert(new_items.drop_last() =~= old_items);
            lemma_kept_mask(
                old_items,
                match_mask(old_rows, second),
                match_mask(new_rows, second),
            );
            assert(match_mask(new_rows, second)[old_items.len() as int] == row_matches(
                rows[n - 1],
                second,
            ));
        } else {
            assert(new_rows == old_rows);
            assert(new_items == old_items);
        }
    } else {
        assert(kept(kept(items.take(0), mask), match_mask(kept(rows.take(0), mask), second))
            =~= kept(items.take(0), both));
    }
}

/// Only the marks of the items matter.
proof fn lemma_kept_mask<T>(items: Seq<T>, a: Seq<bool>, b: Seq<bool>)
    requires
        forall|k: int| 0 <= k < items.len() ==> #[trigger] a[k] == b[k],
    ensures
        kept(items, a) == kept(items, b),
    decreases items.len(),
{
    if items.len() > 0 {
        lemma_kept_mask(items.drop_last(), a, b);
        assert(a[items.len() - 1] == b[items.len() - 1]);
    }
}

/// Chaining is conjunction, byte for byte: selecting from a selection gives the
/// same array as selecting by all comparisons at once, where the parser reads in
/// the first selection the rows that were kept in it.
pub proof fn law_chaining_is_conjunction(
    input: Seq<u8>,
    first: Seq<PredicateView>,
    second: Seq<PredicateView>,
)
    requires
        subset_of(input, first) is Some,
        rows_of(subset_of(input, first)->0) == Some(
            kept(sliced(input)->0.rows, match_mask(sliced(input)->0.rows, first)),
        ),
    ensures
        subset_of(subset_of(input, first)->0, second) == subset_of(input, first + second),
{
    let rows = sliced(input)->0.rows;
    let parts = sliced(input)->0.parts;
    let mask = match_mask(rows, first);
    law_elements_are_values(input);
    assert(all_values(parts));
    lemma_kept_values(parts, mask);
    let left = kept(parts, mask);
    law_built_array_has_its_parts(left);
    let n = rows.len() as int;
    lemma_kept_twice(parts, rows, first, second, n);
    assert(rows.take(n) =~= rows);
    assert(parts.take(n) =~= parts);
    assert(subset_of(input, first)->0 == array_of(left));
    let at = elements(array_of(left))->0;
    assert(parts_of(array_of(left), at).len() == at.len());
}

/// What is kept are the marked items, every one, in order.
pub proof fn law_kept<T>(items: Seq<T>, mask: Seq<bool>)
    requires
        mask.len() == items.len() <= usize::MAX,
    ensures
        kept(items, mask) == marked(mask).map_values(|k: usize| items[k as int]),
{
    lemma_kept_is_picked(items, mask, items.len() as int);
    assert(items.take(items.len() as int) =~= items);
    assert(mask.take(items.len() as int) =~= mask);
    assert(kept(items, mask) =~= marked(mask).map_values(|k: usize| items[k as int]));
}

/// A subset is the bytes of the elements whose records match, as they stand, with
/// a comma between two of them, in brackets. There is one exactly for an input
/// whose elements are its records.
pub proof fn law_subset(
    input: Seq<u8>,
    predicates: Seq<PredicateView>,
    indices: Seq<usize>,
    first: Seq<u8>,
    rest: Seq<Seq<u8>>,
)
    ensures
        ({
            let whole = rows_of(input) is Some && elements(input) is Some && rows_of(input)->0.len()
                == elements(input)->0.len();
            let parts = elements(input)->0.map_values(|at: (int, int)| input.subrange(at.0, at.1));
            &&& subset_of(input, predicates) is Some <==> whole
            &&& whole ==> subset_of(input, predicates) == Some(
                seq![0x5bu8] + comma_joined(
                    kept(
                        parts,
                        rows_of(input)->0.map_values(|r: Tree| row_matches(r, predicates)),
                    ),
                ) + seq![0x5du8],
            )
            &&& picked(input, indices) is Some <==> whole && forall|k: int|
                0 <= k < indices.len() ==> (#[trigger] indices[k]) < parts.len()
            &&& picked(input, indices) is Some ==> picked(input, indices) == Some(
                seq![0x5bu8] + comma_joined(indices.map_values(|k: usize| parts[k as int]))
                    + seq![0x5du8],
            )
        }),
        comma_joined(Seq::empty()) == Seq::<u8>::empty(),
        comma_joined(seq![first]) == first,
        rest.len() > 0 ==> comma_joined(seq![first] + rest) == first + seq![0x2cu8]
            + comma_joined(rest),
{
    if rows_of(input) is Some && elements(input) is Some && rows_of(input)->0.len()
        == elements(input)->0.len() {
        let rows = rows_of(input)->0;
        let parts = elements(input)->0.map_values(|at: (int, int)| input.subrange(at.0, at.1));
        assert(parts_of(input, elements(input)->0) =~= parts);
        assert(match_mask(rows, predicates) =~= rows.map_values(
            |r: Tree| row_matches(r, predicates),
        ));
        assert(Seq::new(indices.len(), |k: int| parts[indices[k] as int]) =~= indices.map_values(
            |k: usize| parts[k as int],
        ));
    }
    assert(seq![first][0] == first);
    if rest.len() > 0 {
        lemma_comma_first(first, rest);
    }
}

proof fn lemma_comma_first(first: Seq<u8>, rest: Seq<Seq<u8>>)
    requires
        rest.len() > 0,
    ensures
        comma_joined(seq![first] + rest) == first + seq![0x2cu8] + comma_joined(rest),
    decreases rest.len(),
{
    let all = seq![first] + rest;
    assert(all.drop_last() =~= seq![first] + rest.drop_last());
    assert(all.last() == rest.last());
    if rest.len() > 1 {
        lemma_comma_first(first, rest.drop_last());
        assert(comma_joined(all) =~= first + seq![0x2cu8] + comma_joined(rest));
    } else {
        assert(rest.drop_last() =~= Seq::empty());
        assert(all.drop_last() =~= seq![first]);
        assert(comma_joined(seq![first]) == first);
        assert(comma_joined(rest) == rest[0]);
        assert(comma_joined(all) =~= first + seq![0x2cu8] + comma_joined(rest));
    }
}

} // verus!
