//! Keeping some units of an input and offloading the others.
use crate::cas::Cas;
use crate::doc::{rebuilt, segment_views, CompressedDoc, Fault, Segment};
use crate::text::{decimal, decimal_of};
use crate::tiling::{
    collision_free, law_round_trip, piece_segment, regions, stored_all, tiled, whole, Piece,
};
use crate::units::{ordered, spans};
use std::ops::Range;
use vstd::prelude::*;

verus! {

/// The end of the run of dropped units that `i` stands in.
pub open spec fn run_end(kept: Seq<bool>, i: int) -> int
    decreases kept.len() - i,
{
    if 0 <= i < kept.len() && !kept[i] {
        run_end(kept, i + 1)
    } else {
        i
    }
}

/// What a document says of `n` dropped units.
pub open spec fn run_summary(n: nat, noun: Seq<char>) -> Seq<char> {
    "+"@ + decimal(n) + " "@ + noun
}

/// The pieces of `input` from `cursor` on, where the units before `i` are dealt
/// with: each maximal run of dropped units is offloaded as one region, from the
/// start of its first unit to the end of its last; what is between regions is
/// kept.
pub open spec fn pieces_from(
    input: Seq<u8>,
    spans: Seq<(int, int)>,
    kept: Seq<bool>,
    noun: Seq<char>,
    i: int,
    cursor: int,
) -> Seq<Piece>
    decreases spans.len() - i,
{
    if i < 0 || i >= spans.len() {
        if cursor < input.len() {
            seq![Piece::Kept(input.skip(cursor))]
        } else {
            Seq::empty()
        }
    } else if kept[i] {
        pieces_from(input, spans, kept, noun, i + 1, cursor)
    } else {
        let j = run_end(kept, i);
        let from = spans[i].0;
        let to = spans[j - 1].1;
        let before = if cursor < from {
            seq![Piece::Kept(input.subrange(cursor, from))]
        } else {
            Seq::empty()
        };
        let region = Piece::Offloaded {
            original: input.subrange(from, to),
            summary: run_summary((j - i) as nat, noun),
        };
        if j <= i || j > spans.len() {
            Seq::empty()
        } else {
            before.push(region) + pieces_from(input, spans, kept, noun, j, to)
        }
    }
}

/// The pieces of `input`. An input without any is one piece, kept.
pub open spec fn pieces(
    input: Seq<u8>,
    spans: Seq<(int, int)>,
    kept: Seq<bool>,
    noun: Seq<char>,
) -> Seq<Piece> {
    let found = pieces_from(input, spans, kept, noun, 0, 0);
    if found.len() == 0 {
        seq![Piece::Kept(input)]
    } else {
        found
    }
}

/// A run ends after it begins and holds nothing but dropped units.
pub proof fn lemma_run_end(kept: Seq<bool>, i: int)
    requires
        0 <= i <= kept.len(),
    ensures
        i <= run_end(kept, i) <= kept.len(),
        forall|k: int| i <= k < run_end(kept, i) ==> !#[trigger] kept[k],
        run_end(kept, i) < kept.len() ==> kept[run_end(kept, i)],
        i < kept.len() && !kept[i] ==> i < run_end(kept, i),
    decreases kept.len() - i,
{
    if i < kept.len() && !kept[i] {
        lemma_run_end(kept, i + 1);
    }
}

/// The bytes of two lists of pieces follow each other.
pub proof fn lemma_whole_concat(a: Seq<Piece>, b: Seq<Piece>)
    ensures
        whole(a + b) == whole(a) + whole(b),
    decreases b.len(),
{
    if b.len() == 0 {
        assert(a + b =~= a);
        assert(whole(a) + whole(b) =~= whole(a));
    } else {
        assert((a + b).drop_last() =~= a + b.drop_last());
        lemma_whole_concat(a, b.drop_last());
        assert((a + b).last() == b.last());
    }
}

/// The pieces from `cursor` on make up the input from there on.
pub proof fn lemma_pieces_from_tile(
    input: Seq<u8>,
    spans: Seq<(int, int)>,
    kept: Seq<bool>,
    noun: Seq<char>,
    i: int,
    cursor: int,
)
    requires
        ordered(spans, input.len() as int),
        kept.len() == spans.len(),
        0 <= i <= spans.len(),
        0 <= cursor <= input.len(),
        forall|k: int| i <= k < spans.len() ==> cursor <= (#[trigger] spans[k]).0,
    ensures
        whole(pieces_from(input, spans, kept, noun, i, cursor)) == input.skip(cursor),
    decreases spans.len() - i,
{
    reveal_with_fuel(whole, 3);
    if i >= spans.len() {
        if cursor < input.len() {
            let last = seq![Piece::Kept(input.skip(cursor))];
            assert(last.drop_last() =~= Seq::empty());
            assert(whole(last) =~= input.skip(cursor));
        } else {
            assert(whole(Seq::<Piece>::empty()) =~= input.skip(cursor));
        }
    } else if kept[i] {
        lemma_pieces_from_tile(input, spans, kept, noun, i + 1, cursor);
    } else {
        let j = run_end(kept, i);
        lemma_run_end(kept, i);
        let from = spans[i].0;
        let to = spans[j - 1].1;
        assert(from <= to) by {
            if i < j - 1 {
                assert(spans[i].1 <= spans[j - 1].0);
            }
        }
        let before = if cursor < from {
            seq![Piece::Kept(input.subrange(cursor, from))]
        } else {
            Seq::<Piece>::empty()
        };
        let region = Piece::Offloaded {
            original: input.subrange(from, to),
            summary: run_summary((j - i) as nat, noun),
        };
        let rest = pieces_from(input, spans, kept, noun, j, to);
        lemma_pieces_from_tile(input, spans, kept, noun, j, to);
        lemma_whole_concat(before.push(region), rest);
        assert(before.push(region).drop_last() =~= before);
        if cursor < from {
            assert(before.drop_last() =~= Seq::<Piece>::empty());
        }
        assert(whole(before) =~= input.subrange(cursor, from));
        assert(whole(before.push(region)) =~= input.subrange(cursor, to));
        assert(input.subrange(cursor, to) + input.skip(to) =~= input.skip(cursor));
    }
}

/// The tiling: whatever is kept, the pieces make up exactly the input.
pub proof fn law_pieces_tile(
    input: Seq<u8>,
    spans: Seq<(int, int)>,
    kept: Seq<bool>,
    noun: Seq<char>,
)
    requires
        ordered(spans, input.len() as int),
        kept.len() == spans.len(),
    ensures
        whole(pieces(input, spans, kept, noun)) == input,
{
    reveal_with_fuel(whole, 3);
    lemma_pieces_from_tile(input, spans, kept, noun, 0, 0);
    assert(input.skip(0) =~= input);
    if pieces_from(input, spans, kept, noun, 0, 0).len() == 0 {
        let one = seq![Piece::Kept(input)];
        assert(one.drop_last() =~= Seq::<Piece>::empty());
        assert(whole(one) =~= input);
    }
}

/// Selection is reversible: whatever is kept, the document rebuilds exactly
/// the input from the store that its regions were put into.
pub proof fn law_selection_is_reversible(
    input: Seq<u8>,
    spans: Seq<(int, int)>,
    kept: Seq<bool>,
    noun: Seq<char>,
    objects: Map<Seq<char>, Seq<u8>>,
    later: Seq<Seq<u8>>,
)
    requires
        ordered(spans, input.len() as int),
        kept.len() == spans.len(),
        collision_free(objects, regions(pieces(input, spans, kept, noun))),
    ensures
        rebuilt(
            tiled(pieces(input, spans, kept, noun)),
            stored_all(stored_all(objects, regions(pieces(input, spans, kept, noun))), later),
        ) == Ok::<Seq<u8>, Fault>(input),
{
    law_pieces_tile(input, spans, kept, noun);
    law_round_trip(pieces(input, spans, kept, noun), objects, later);
}

/// Keeping everything leaves the input as it is, in one piece.
pub proof fn law_keeping_all_keeps_the_input(
    input: Seq<u8>,
    spans: Seq<(int, int)>,
    kept: Seq<bool>,
    noun: Seq<char>,
)
    requires
        kept.len() == spans.len(),
        forall|k: int| 0 <= k < kept.len() ==> #[trigger] kept[k],
    ensures
        pieces(input, spans, kept, noun) == seq![Piece::Kept(input)],
{
    lemma_all_kept(input, spans, kept, noun, 0);
    assert(input.skip(0) =~= input);
}

proof fn lemma_all_kept(
    input: Seq<u8>,
    spans: Seq<(int, int)>,
    kept: Seq<bool>,
    noun: Seq<char>,
    i: int,
)
    requires
        kept.len() == spans.len(),
        forall|k: int| 0 <= k < kept.len() ==> #[trigger] kept[k],
        0 <= i <= spans.len(),
    ensures
        pieces_from(input, spans, kept, noun, i, 0) == (if input.len() > 0 {
            seq![Piece::Kept(input.skip(0))]
        } else {
            Seq::<Piece>::empty()
        }),
    decreases spans.len() - i,
{
    if i < spans.len() {
        lemma_all_kept(input, spans, kept, noun, i + 1);
    }
}

/// A kept unit is never part of an offloaded region: every region runs from the
/// start of one dropped unit to the end of another, with only dropped units in
/// between.
pub proof fn law_regions_hold_dropped_units_only(
    input: Seq<u8>,
    spans: Seq<(int, int)>,
    kept: Seq<bool>,
    noun: Seq<char>,
    region: Seq<u8>,
    summary: Seq<char>,
)
    requires
        kept.len() == spans.len(),
        pieces(input, spans, kept, noun).contains(
            (Piece::Offloaded { original: region, summary }),
        ),
    ensures
        exists|i: int, j: int|
            0 <= i < j <= spans.len() && region == input.subrange(
                (#[trigger] spans[i]).0,
                (#[trigger] spans[j - 1]).1,
            ) && summary == run_summary((j - i) as nat, noun) && forall|k: int|
                i <= k < j ==> !#[trigger] kept[k],
{
    let found = pieces_from(input, spans, kept, noun, 0, 0);
    assert(found.contains((Piece::Offloaded { original: region, summary }))) by {
        if found.len() == 0 {
            let one = seq![Piece::Kept(input)];
            let k = choose|k: int| 0 <= k < one.len() && one[k] == (Piece::Offloaded { original: region, summary });
        }
    }
    lemma_regions_dropped(input, spans, kept, noun, 0, 0, region, summary);
}

proof fn lemma_regions_dropped(
    input: Seq<u8>,
    spans: Seq<(int, int)>,
    kept: Seq<bool>,
    noun: Seq<char>,
    i: int,
    cursor: int,
    region: Seq<u8>,
    summary: Seq<char>,
)
    requires
        kept.len() == spans.len(),
        0 <= i <= spans.len(),
        pieces_from(input, spans, kept, noun, i, cursor).contains(
            (Piece::Offloaded { original: region, summary }),
        ),
    ensures
        exists|a: int, b: int|
            0 <= a < b <= spans.len() && region == input.subrange(
                (#[trigger] spans[a]).0,
                (#[trigger] spans[b - 1]).1,
            ) && summary == run_summary((b - a) as nat, noun) && forall|k: int|
                a <= k < b ==> !#[trigger] kept[k],
    decreases spans.len() - i,
{
    let wanted = Piece::Offloaded { original: region, summary };
    let found = pieces_from(input, spans, kept, noun, i, cursor);
    let at = choose|k: int| 0 <= k < found.len() && found[k] == wanted;
    if i >= spans.len() {
        assert(false);
    } else if kept[i] {
        lemma_regions_dropped(input, spans, kept, noun, i + 1, cursor, region, summary);
    } else {
        let j = run_end(kept, i);
        lemma_run_end(kept, i);
        let from = spans[i].0;
        let to = spans[j - 1].1;
        let before = if cursor < from {
            seq![Piece::Kept(input.subrange(cursor, from))]
        } else {
            Seq::<Piece>::empty()
        };
        let rest = pieces_from(input, spans, kept, noun, j, to);
        if at > before.len() {
            assert(rest[at - before.len() - 1] == wanted);
            lemma_regions_dropped(input, spans, kept, noun, j, to, region, summary);
        } else {
            assert(region == input.subrange(spans[i].0, spans[j - 1].1));
        }
    }
}

/// One more segment stands for one more piece.
pub(crate) proof fn lemma_push_segment(
    segments: Seq<Segment>,
    segment: Segment,
    done: Seq<Piece>,
    piece: Piece,
)
    requires
        segment_views(segments) == tiled(done),
        segment@ == piece_segment(piece),
    ensures
        segment_views(segments.push(segment)) == tiled(done.push(piece)),
        done.push(piece).drop_last() == done,
{
    assert(done.push(piece).drop_last() =~= done);
    assert(tiled(done.push(piece)) =~= tiled(done).push(piece_segment(piece)));
    assert(segment_views(segments.push(segment)) =~= segment_views(segments).push(segment@));
}

/// What a document says of `n` dropped units.
fn run_summary_of(n: usize, noun: &str) -> (out: String)
    ensures
        out@ == run_summary(n as nat, noun@),
{
    "+".to_owned().concat(decimal_of(n).as_str()).concat(" ").concat(noun)
}

/// The end of the run of dropped units that `i` stands in.
pub(crate) fn run_end_of(kept: &[bool], i: usize) -> (j: usize)
    requires
        i <= kept@.len(),
    ensures
        j == run_end(kept@, i as int),
        i <= j <= kept@.len(),
{
    let mut j: usize = i;
    while j < kept.len() && !kept[j]
        invariant
            i <= j <= kept@.len(),
            run_end(kept@, i as int) == run_end(kept@, j as int),
        decreases kept@.len() - j,
    {
        j += 1;
    }
    j
}

/// Keeps the units marked in `kept` and offloads each maximal run of the others
/// into `cas` as one region.
pub fn emit_kept<C: Cas>(
    input: &[u8],
    units: &[Range<usize>],
    kept: &[bool],
    cas: &mut C,
    noun: &str,
) -> (doc: CompressedDoc)
    requires
        ordered(spans(units@), input@.len() as int),
        kept@.len() == units@.len(),
    ensures
        doc@ == tiled(pieces(input@, spans(units@), kept@, noun@)),
        final(cas).objects() == stored_all(
            old(cas).objects(),
            regions(pieces(input@, spans(units@), kept@, noun@)),
        ),
{
    let ghost at = spans(units@);
    let ghost all = pieces_from(input@, at, kept@, noun@, 0, 0);
    let ghost mut done: Seq<Piece> = Seq::empty();
    let mut segments: Vec<Segment> = Vec::new();
    let mut cursor: usize = 0;
    let mut i: usize = 0;
    assert(done + all =~= all);
    assert(segment_views(segments@) =~= tiled(done));
    while i < units.len()
        invariant
            i <= units@.len(),
            cursor <= input@.len(),
            at == spans(units@),
            ordered(at, input@.len() as int),
            kept@.len() == units@.len(),
            all == pieces_from(input@, at, kept@, noun@, 0, 0),
            done + pieces_from(input@, at, kept@, noun@, i as int, cursor as int) == all,
            segment_views(segments@) == tiled(done),
            cas.objects() == stored_all(old(cas).objects(), regions(done)),
        decreases units@.len() - i,
    {
        if kept[i] {
            i += 1;
            continue ;
        }
        assert(at[i as int] == (units@[i as int].start as int, units@[i as int].end as int));
        let run_start: usize = units[i].start;
        let j = run_end_of(kept, i);
        proof {
            lemma_run_end(kept@, i as int);
        }
        assert(at[j - 1] == (units@[j - 1].start as int, units@[j - 1].end as int));
        let run_stop: usize = units[j - 1].end;
        assert(run_start <= run_stop) by {
            if i < j - 1 {
                assert(at[i as int].1 <= at[j - 1].0);
            }
        }
        let ghost rest = pieces_from(input@, at, kept@, noun@, j as int, run_stop as int);
        let ghost entry = done;
        if cursor < run_start {
            let glue = vstd::slice::slice_to_vec(
                vstd::slice::slice_subrange(input, cursor, run_start),
            );
            let ghost piece = Piece::Kept(glue@);
            proof {
                lemma_push_segment(segments@, Segment::Verbatim(glue), done, piece);
                done = done.push(piece);
            }
            segments.push(Segment::Verbatim(glue));
        }
        let original = vstd::slice::slice_subrange(input, run_start, run_stop);
        let hash = cas.put(original);
        let summary = run_summary_of(j - i, noun);
        let ghost piece = Piece::Offloaded {
            original: original@,
            summary: run_summary((j - i) as nat, noun@),
        };
        let segment = Segment::Ref { hash, summary, original_len: original.len() };
        proof {
            lemma_push_segment(segments@, segment, done, piece);
            assert(regions(done.push(piece)).drop_last() =~= regions(done));
            done = done.push(piece);
            assert(done + rest =~= entry + pieces_from(
                input@,
                at,
                kept@,
                noun@,
                i as int,
                cursor as int,
            ));
        }
        segments.push(segment);
        cursor = run_stop;
        i = j;
    }
    if cursor < input.len() {
        let tail = vstd::slice::slice_to_vec(
            vstd::slice::slice_subrange(input, cursor, input.len()),
        );
        assert(tail@ =~= input@.skip(cursor as int));
        let ghost piece = Piece::Kept(tail@);
        proof {
            lemma_push_segment(segments@, Segment::Verbatim(tail), done, piece);
            assert(done + seq![piece] =~= done.push(piece));
            done = done.push(piece);
        }
        segments.push(Segment::Verbatim(tail));
    } else {
        assert(done + Seq::<Piece>::empty() =~= done);
    }
    assert(done == all);
    if segments.len() == 0 {
        assert(done.len() == 0) by {
            assert(tiled(done).len() == done.len());
        }
        let everything = vstd::slice::slice_to_vec(input);
        segments.push(Segment::Verbatim(everything));
        let ghost one = seq![Piece::Kept(input@)];
        assert(segment_views(segments@) =~= tiled(one));
        assert(one.drop_last() =~= Seq::<Piece>::empty());
        assert(done =~= Seq::<Piece>::empty());
    } else {
        assert(tiled(done).len() == done.len());
    }
    CompressedDoc { segments }
}

/// A run of dropped units that no dropped unit adjoins, however long, becomes one
/// region, whose summary counts its units.
pub proof fn law_dropped_run_is_one_region(
    input: Seq<u8>,
    spans: Seq<(int, int)>,
    kept: Seq<bool>,
    noun: Seq<char>,
    i: int,
    j: int,
)
    requires
        kept.len() == spans.len(),
        0 <= i < j <= spans.len(),
        forall|k: int| i <= k < j ==> !#[trigger] kept[k],
        i > 0 ==> kept[i - 1],
        j < kept.len() ==> kept[j],
    ensures
        pieces(input, spans, kept, noun).contains(
            (Piece::Offloaded {
                original: input.subrange(spans[i].0, spans[j - 1].1),
                summary: "+"@ + decimal((j - i) as nat) + " "@ + noun,
            }),
        ),
{
    lemma_run_found(input, spans, kept, noun, i, j, 0, 0);
}

proof fn lemma_run_found(
    input: Seq<u8>,
    spans: Seq<(int, int)>,
    kept: Seq<bool>,
    noun: Seq<char>,
    i: int,
    j: int,
    from: int,
    cursor: int,
)
    requires
        kept.len() == spans.len(),
        0 <= from <= i < j <= spans.len(),
        forall|k: int| i <= k < j ==> !#[trigger] kept[k],
        i > 0 ==> kept[i - 1],
        j < kept.len() ==> kept[j],
    ensures
        pieces_from(input, spans, kept, noun, from, cursor).contains(
            (Piece::Offloaded {
                original: input.subrange(spans[i].0, spans[j - 1].1),
                summary: run_summary((j - i) as nat, noun),
            }),
        ),
    decreases i - from,
{
    let found = pieces_from(input, spans, kept, noun, from, cursor);
    let wanted = Piece::Offloaded {
        original: input.subrange(spans[i].0, spans[j - 1].1),
        summary: run_summary((j - i) as nat, noun),
    };
    if kept[from] {
        lemma_run_found(input, spans, kept, noun, i, j, from + 1, cursor);
    } else {
        lemma_run_end(kept, from);
        let end = run_end(kept, from);
        let to = spans[end - 1].1;
        let before = if cursor < spans[from].0 {
            seq![Piece::Kept(input.subrange(cursor, spans[from].0))]
        } else {
            Seq::empty()
        };
        if from < i {
            assert(end <= i - 1) by {
                if end > i - 1 {
                    assert(!kept[i - 1]);
                }
            }
            lemma_run_found(input, spans, kept, noun, i, j, end, to);
            let rest = pieces_from(input, spans, kept, noun, end, to);
            let m = choose|m: int| 0 <= m < rest.len() && rest[m] == wanted;
            assert(found[before.len() + 1 + m] == wanted);
        } else {
            assert(end == j) by {
                if end < j {
                    assert(!kept[end]);
                }
                if end > j {
                    assert(!kept[j]);
                }
            }
            assert(found[before.len() as int] == wanted);
        }
    }
}

/// A document has one region for each run of dropped units: as many as there are
/// dropped units that come first or follow a kept one.
pub proof fn law_one_region_per_run(
    input: Seq<u8>,
    spans: Seq<(int, int)>,
    kept: Seq<bool>,
    noun: Seq<char>,
)
    requires
        kept.len() == spans.len(),
    ensures
        regions(pieces(input, spans, kept, noun)).len() == Seq::new(
            kept.len(),
            |k: int| !kept[k] && (k == 0 || kept[k - 1]),
        ).filter(|starts: bool| starts).len(),
{
    lemma_regions_count(input, spans, kept, noun, 0, 0);
    let starts = Seq::new(kept.len(), |k: int| !kept[k] && (k == 0 || kept[k - 1]));
    assert(starts.skip(0) =~= starts);
    let found = pieces_from(input, spans, kept, noun, 0, 0);
    if found.len() == 0 {
        let one = seq![Piece::Kept(input)];
        assert(one.drop_last() =~= Seq::empty());
        reveal_with_fuel(regions, 2);
    }
}

proof fn lemma_filter_skip(starts: Seq<bool>, from: int, to: int)
    requires
        0 <= from < to <= starts.len(),
        forall|k: int| from < k < to ==> !#[trigger] starts[k],
    ensures
        starts.skip(from).filter(|b: bool| b).len() == starts.skip(to).filter(|b: bool| b).len() + (
        if starts[from] {
            1nat
        } else {
            0nat
        }),
{
    reveal(Seq::filter);
    let f = |b: bool| b;
    let run = starts.subrange(from, to);
    assert(starts.skip(from) =~= run + starts.skip(to));
    Seq::filter_distributes_over_add(run, starts.skip(to), f);
    lemma_filter_first(run);
}

proof fn lemma_filter_first(run: Seq<bool>)
    requires
        run.len() > 0,
        forall|k: int| 0 < k < run.len() ==> !#[trigger] run[k],
    ensures
        run.filter(|b: bool| b).len() == (if run[0] {
            1nat
        } else {
            0nat
        }),
    decreases run.len(),
{
    reveal(Seq::filter);
    let before = run.drop_last();
    if before.len() > 0 {
        assert(forall|k: int| 0 <= k < before.len() ==> #[trigger] before[k] == run[k]);
        lemma_filter_first(before);
        assert(!run[run.len() - 1]);
    } else {
        assert(before.filter(|b: bool| b) =~= Seq::empty());
    }
}

proof fn lemma_regions_add(a: Seq<Piece>, b: Seq<Piece>)
    ensures
        regions(a + b).len() == regions(a).len() + regions(b).len(),
    decreases b.len(),
{
    if b.len() == 0 {
        assert(a + b =~= a);
    } else {
        assert((a + b).drop_last() =~= a + b.drop_last());
        assert((a + b).last() == b.last());
        lemma_regions_add(a, b.drop_last());
    }
}

proof fn lemma_regions_count(
    input: Seq<u8>,
    spans: Seq<(int, int)>,
    kept: Seq<bool>,
    noun: Seq<char>,
    i: int,
    cursor: int,
)
    requires
        kept.len() == spans.len(),
        0 <= i <= spans.len(),
        0 < i < kept.len() && !kept[i] ==> kept[i - 1],
    ensures
        regions(pieces_from(input, spans, kept, noun, i, cursor)).len() == Seq::new(
            kept.len(),
            |k: int| !kept[k] && (k == 0 || kept[k - 1]),
        ).skip(i).filter(|starts: bool| starts).len(),
    decreases spans.len() - i,
{
    let starts = Seq::new(kept.len(), |k: int| !kept[k] && (k == 0 || kept[k - 1]));
    let found = pieces_from(input, spans, kept, noun, i, cursor);
    reveal(Seq::filter);
    if i >= spans.len() {
        assert(starts.skip(i) =~= Seq::empty());
        reveal_with_fuel(regions, 2);
        if found.len() > 0 {
            assert(found.drop_last() =~= Seq::empty());
        }
    } else if kept[i] {
        lemma_regions_count(input, spans, kept, noun, i + 1, cursor);
        lemma_filter_skip(starts, i, i + 1);
    } else {
        lemma_run_end(kept, i);
        let j = run_end(kept, i);
        let to = spans[j - 1].1;
        let before = if cursor < spans[i].0 {
            seq![Piece::Kept(input.subrange(cursor, spans[i].0))]
        } else {
            Seq::empty()
        };
        let region = Piece::Offloaded {
            original: input.subrange(spans[i].0, to),
            summary: run_summary((j - i) as nat, noun),
        };
        let rest = pieces_from(input, spans, kept, noun, j, to);
        lemma_regions_count(input, spans, kept, noun, j, to);
        lemma_filter_skip(starts, i, j);
        lemma_regions_add(before.push(region), rest);
        assert(before.push(region).drop_last() =~= before);
        assert(regions(before).len() == 0) by {
            reveal_with_fuel(regions, 2);
            if before.len() > 0 {
                assert(before.drop_last() =~= Seq::empty());
            }
        }
        assert(starts[i]);
    }
}

} // verus!
