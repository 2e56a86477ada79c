//! The head-and-tail window: which units survive when only some may, what the
//! model then sees, and how many characters that is.
use crate::cas::Cas;
use crate::doc::{rendered, sentinel_text, shown, CompressedDoc, SegmentView};
use crate::emit::{emit_kept, pieces, pieces_from, run_end, run_summary};
use crate::hash::{content_key, ContentHash};
use crate::text::decimal_of;
use crate::tiling::{piece_segment, regions, stored_all, tiled, Piece};
use crate::units::{ordered, spans};
use crate::utf8::{lossy_text, utf8_lossy};
use std::ops::Range;
use vstd::prelude::*;

verus! {

/// Strictly increasing numbers below `n`.
pub open spec fn increasing(candidates: Seq<usize>, n: int) -> bool {
    &&& forall|k: int| 0 <= k < candidates.len() ==> (#[trigger] candidates[k]) < n
    &&& forall|j: int, k: int|
        0 <= j < k < candidates.len() ==> (#[trigger] candidates[j]) < (#[trigger] candidates[k])
}

/// The first of the two parts of the window: all candidates, if `m` is not less
/// than their number; else the first `m / 2`, rounded up.
pub open spec fn window_head(candidates: Seq<usize>, m: nat) -> Seq<usize> {
    if m >= candidates.len() {
        candidates
    } else {
        candidates.take(((m + 1) / 2) as int)
    }
}

/// The second part of the window: the last `m / 2` candidates, rounded down.
pub open spec fn window_tail(candidates: Seq<usize>, m: nat) -> Seq<usize> {
    if m >= candidates.len() {
        Seq::empty()
    } else {
        candidates.skip(candidates.len() - m / 2)
    }
}

/// For each unit whether the window keeps it.
pub open spec fn window_mask(unit_count: nat, candidates: Seq<usize>, m: nat) -> Seq<bool> {
    Seq::new(
        unit_count,
        |i: int|
            window_head(candidates, m).contains(i as usize) || window_tail(candidates, m).contains(
                i as usize,
            ),
    )
}

/// The two parts of the window.
pub fn keep_window_slices(candidates: &[usize], m: usize) -> (out: (&[usize], &[usize]))
    ensures
        out.0@ == window_head(candidates@, m as nat),
        out.1@ == window_tail(candidates@, m as nat),
{
    let c: usize = candidates.len();
    if m >= c {
        let none = vstd::slice::slice_subrange(candidates, c, c);
        assert(none@ =~= Seq::<usize>::empty());
        (candidates, none)
    } else {
        let head: usize = m / 2 + m % 2;
        let tail: usize = m / 2;
        let first = vstd::slice::slice_subrange(candidates, 0, head);
        let last = vstd::slice::slice_subrange(candidates, c - tail, c);
        assert(first@ =~= candidates@.take(((m + 1) / 2) as int));
        assert(last@ =~= candidates@.skip(c - tail));
        (first, last)
    }
}

/// Marks `kept[idx]` for each `idx` of `chosen`.
fn mark(kept: &mut Vec<bool>, chosen: &[usize])
    requires
        forall|k: int| 0 <= k < chosen@.len() ==> (#[trigger] chosen@[k]) < old(kept)@.len(),
    ensures
        final(kept)@.len() == old(kept)@.len(),
        forall|i: int|
            0 <= i < old(kept)@.len() ==> #[trigger] final(kept)@[i] == (old(kept)@[i]
                || chosen@.contains(i as usize)),
{
    let ghost start = kept@;
    let n: usize = kept.len();
    let mut k: usize = 0;
    while k < chosen.len()
        invariant
            k <= chosen@.len(),
            n == start.len(),
            kept@.len() == start.len(),
            forall|j: int| 0 <= j < chosen@.len() ==> (#[trigger] chosen@[j]) < start.len(),
            forall|i: int|
                0 <= i < start.len() ==> #[trigger] kept@[i] == (start[i] || chosen@.take(
                    k as int,
                ).contains(i as usize)),
        decreases chosen@.len() - k,
    {
        let idx: usize = chosen[k];
        let ghost before = kept@;
        kept.set(idx, true);
        assert forall|i: int| 0 <= i < start.len() implies #[trigger] kept@[i] == (start[i]
            || chosen@.take(k as int + 1).contains(i as usize)) by {
            let now = chosen@.take(k as int + 1);
            let then = chosen@.take(k as int);
            assert(before[i] == (start[i] || then.contains(i as usize)));
            if then.contains(i as usize) {
                let j = choose|j: int| 0 <= j < then.len() && then[j] == i as usize;
                assert(now[j] == i as usize);
            }
            if now.contains(i as usize) {
                let j = choose|j: int| 0 <= j < now.len() && now[j] == i as usize;
                if j < k {
                    assert(then[j] == i as usize);
                }
            }
            assert(now[k as int] == idx);
        }
        k += 1;
    }
    assert(chosen@.take(k as int) =~= chosen@);
}

/// For each unit whether the window keeps it.
pub fn keep_window_mask(unit_count: usize, candidates: &[usize], m: usize) -> (kept: Vec<bool>)
    requires
        increasing(candidates@, unit_count as int),
    ensures
        kept@ == window_mask(unit_count as nat, candidates@, m as nat),
{
    let (head, tail) = keep_window_slices(candidates, m);
    let mut kept: Vec<bool> = vec![false; unit_count];
    mark(&mut kept, head);
    mark(&mut kept, tail);
    assert(kept@ =~= window_mask(unit_count as nat, candidates@, m as nat));
    kept
}

/// Keeps `m` of the candidates as a head-and-tail window and offloads every
/// other unit.
pub fn build_keep_window_over<C: Cas>(
    input: &[u8],
    units: &[Range<usize>],
    candidates: &[usize],
    m: usize,
    noun: &str,
    cas: &mut C,
) -> (doc: CompressedDoc)
    requires
        ordered(spans(units@), input@.len() as int),
        increasing(candidates@, units@.len() as int),
    ensures
        doc@ == tiled(window_pieces(input@, spans(units@), candidates@, m as nat, noun@)),
        final(cas).objects() == stored_all(
            old(cas).objects(),
            regions(window_pieces(input@, spans(units@), candidates@, m as nat, noun@)),
        ),
{
    let kept = keep_window_mask(units.len(), candidates, m);
    emit_kept(input, units, kept.as_slice(), cas, noun)
}

/// The pieces of an input of which the window keeps `m` candidates.
pub open spec fn window_pieces(
    input: Seq<u8>,
    spans: Seq<(int, int)>,
    candidates: Seq<usize>,
    m: nat,
    noun: Seq<char>,
) -> Seq<Piece> {
    pieces(input, spans, window_mask(spans.len(), candidates, m), noun)
}

// ---------------------------------------------------------------------------
// Rendering without storing
// ---------------------------------------------------------------------------

/// What is shown of two lists of segments follows each other.
pub proof fn lemma_rendered_concat(a: Seq<SegmentView>, b: Seq<SegmentView>)
    ensures
        rendered(a + b) == rendered(a) + rendered(b),
    decreases b.len(),
{
    if b.len() == 0 {
        assert(a + b =~= a);
        assert(rendered(a) + rendered(b) =~= rendered(a));
    } else {
        assert((a + b).drop_last() =~= a + b.drop_last());
        lemma_rendered_concat(a, b.drop_last());
        assert((a + b).last() == b.last());
        assert(rendered(a) + (rendered(b.drop_last()) + shown(b.last())) =~= (rendered(a)
            + rendered(b.drop_last())) + shown(b.last()));
    }
}

/// What is shown of a list of pieces and one more.
proof fn lemma_rendered_push(done: Seq<Piece>, piece: Piece)
    ensures
        rendered(tiled(done.push(piece))) == rendered(tiled(done)) + shown(piece_segment(piece)),
{
    let all = tiled(done.push(piece));
    assert(all.drop_last() =~= tiled(done));
    assert(all.last() == piece_segment(piece));
}

/// The next index of a list that is not below `i`.
fn next_at(kept: &[usize], from: usize, i: usize) -> (pos: usize)
    requires
        increasing(kept@, usize::MAX as int + 1),
        from <= kept@.len(),
        forall|k: int| 0 <= k < from ==> (#[trigger] kept@[k]) < i,
    ensures
        from <= pos <= kept@.len(),
        forall|k: int| 0 <= k < pos ==> (#[trigger] kept@[k]) < i,
        pos < kept@.len() ==> kept@[pos as int] >= i,
{
    let mut pos: usize = from;
    while pos < kept.len() && kept[pos] < i
        invariant
            from <= pos <= kept@.len(),
            forall|k: int| 0 <= k < pos ==> (#[trigger] kept@[k]) < i,
        decreases kept@.len() - pos,
    {
        pos += 1;
    }
    pos
}

/// The smaller of the next kept units of the two parts.
fn next_kept_index(
    head_kept: &[usize],
    head_pos: usize,
    tail_kept: &[usize],
    tail_pos: usize,
) -> (next: Option<usize>)
    ensures
        match next {
            Some(x) => {
                &&& head_pos < head_kept@.len() ==> x <= head_kept@[head_pos as int]
                &&& tail_pos < tail_kept@.len() ==> x <= tail_kept@[tail_pos as int]
                &&& (head_pos < head_kept@.len() && x == head_kept@[head_pos as int]) || (tail_pos
                    < tail_kept@.len() && x == tail_kept@[tail_pos as int])
            },
            None => head_pos >= head_kept@.len() && tail_pos >= tail_kept@.len(),
        },
{
    if head_pos < head_kept.len() {
        let head: usize = head_kept[head_pos];
        if tail_pos < tail_kept.len() {
            let tail: usize = tail_kept[tail_pos];
            if tail < head {
                Some(tail)
            } else {
                Some(head)
            }
        } else {
            Some(head)
        }
    } else if tail_pos < tail_kept.len() {
        Some(tail_kept[tail_pos])
    } else {
        None
    }
}

/// An index that a list holds is not below the first one left of it.
proof fn lemma_first_left(kept: Seq<usize>, pos: int, i: usize, x: usize)
    requires
        increasing(kept, usize::MAX as int + 1),
        0 <= pos <= kept.len(),
        forall|k: int| 0 <= k < pos ==> (#[trigger] kept[k]) < i,
        kept.contains(x),
        x >= i,
    ensures
        pos < kept.len(),
        kept[pos] <= x,
{
    let k = choose|k: int| 0 <= k < kept.len() && kept[k] == x;
    if k > pos {
        assert(kept[pos] < kept[k]);
    }
}

/// A run of dropped units ends where the first kept unit stands.
pub proof fn lemma_run_end_at(mask: Seq<bool>, i: int, j: int)
    requires
        0 <= i <= j <= mask.len(),
        forall|k: int| i <= k < j ==> !#[trigger] mask[k],
        j < mask.len() ==> mask[j],
    ensures
        run_end(mask, i) == j,
    decreases j - i,
{
    if i < j {
        lemma_run_end_at(mask, i + 1, j);
    }
}

fn push_lossy(out: &mut String, bytes: &[u8])
    ensures
        final(out)@ == old(out)@ + utf8_lossy(bytes@),
{
    out.append(lossy_text(bytes).as_str());
}

/// The first unit from `i` on that one of the two parts keeps; the number of
/// units, if there is none.
fn first_kept_from(
    unit_count: usize,
    i: usize,
    head_kept: &[usize],
    head_pos: usize,
    tail_kept: &[usize],
    tail_pos: usize,
) -> (stop: usize)
    requires
        i < unit_count,
        increasing(head_kept@, unit_count as int),
        increasing(tail_kept@, unit_count as int),
        head_pos <= head_kept@.len(),
        tail_pos <= tail_kept@.len(),
        forall|k: int| 0 <= k < head_pos ==> (#[trigger] head_kept@[k]) < i,
        forall|k: int| 0 <= k < tail_pos ==> (#[trigger] tail_kept@[k]) < i,
        head_pos < head_kept@.len() ==> head_kept@[head_pos as int] >= i,
        tail_pos < tail_kept@.len() ==> tail_kept@[tail_pos as int] >= i,
    ensures
        i <= stop <= unit_count,
        forall|k: usize|
            i <= k < stop ==> !(#[trigger] head_kept@.contains(k)),
        forall|k: usize|
            i <= k < stop ==> !(#[trigger] tail_kept@.contains(k)),
        stop < unit_count ==> head_kept@.contains(stop) || tail_kept@.contains(stop),
{
    let next_kept = next_kept_index(head_kept, head_pos, tail_kept, tail_pos);
    let stop: usize = match next_kept {
        Some(x) => x,
        None => unit_count,
    };
    assert forall|k: usize| i <= k < stop implies !(#[trigger] head_kept@.contains(k)) by {
        if head_kept@.contains(k) {
            lemma_first_left(head_kept@, head_pos as int, i, k);
        }
    }
    assert forall|k: usize| i <= k < stop implies !(#[trigger] tail_kept@.contains(k)) by {
        if tail_kept@.contains(k) {
            lemma_first_left(tail_kept@, tail_pos as int, i, k);
        }
    }
    stop
}

/// Appends the sentinel of a run of `n` units.
fn push_sentinel(out: &mut String, original: &[u8], n: usize, noun: &str)
    ensures
        final(out)@ == old(out)@ + sentinel_text(
            content_key(original@),
            run_summary(n as nat, noun@),
        ),
        final(out)@.len() > 0,
{
    let ghost before = out@;
    out.append("<<cof:");
    ContentHash::push_short_of(original, out);
    out.append(" ");
    out.append("+");
    out.append(decimal_of(n).as_str());
    out.append(" ");
    out.append(noun);
    out.append(">>");
    proof {
        reveal_strlit("<<cof:");
        assert(out@ =~= before + sentinel_text(
            content_key(original@),
            run_summary(n as nat, noun@),
        ));
    }
}

/// What the model sees of the input when only the units in `head_kept` and
/// `tail_kept` are kept, without a store and without building the document.
pub fn render_keep_slices_with(
    input: &[u8],
    units: &[Range<usize>],
    head_kept: &[usize],
    tail_kept: &[usize],
    noun: &str,
) -> (out: String)
    requires
        ordered(spans(units@), input@.len() as int),
        increasing(head_kept@, units@.len() as int),
        increasing(tail_kept@, units@.len() as int),
    ensures
        out@ == rendered(
            tiled(
                pieces(
                    input@,
                    spans(units@),
                    Seq::new(
                        units@.len(),
                        |i: int|
                            head_kept@.contains(i as usize) || tail_kept@.contains(i as usize),
                    ),
                    noun@,
                ),
            ),
        ),
{
    let ghost at = spans(units@);
    let ghost mask = Seq::new(
        units@.len(),
        |i: int| head_kept@.contains(i as usize) || tail_kept@.contains(i as usize),
    );
    let ghost all = pieces_from(input@, at, mask, noun@, 0, 0);
    let ghost mut done: Seq<Piece> = Seq::empty();
    let mut out = String::new();
    let mut cursor: usize = 0;
    let mut i: usize = 0;
    let mut head_pos: usize = 0;
    let mut tail_pos: usize = 0;
    assert(done + all =~= all);
    assert(tiled(done) =~= Seq::empty());
    while i < units.len()
        invariant
            i <= units@.len(),
            cursor <= input@.len(),
            at == spans(units@),
            ordered(at, input@.len() as int),
            increasing(head_kept@, units@.len() as int),
            increasing(tail_kept@, units@.len() as int),
            mask == Seq::new(
                units@.len(),
                |i: int| head_kept@.contains(i as usize) || tail_kept@.contains(i as usize),
            ),
            all == pieces_from(input@, at, mask, noun@, 0, 0),
            done + pieces_from(input@, at, mask, noun@, i as int, cursor as int) == all,
            out@ == rendered(tiled(done)),
            (cursor == 0 && done.len() == 0) || out@.len() > 0,
            head_pos <= head_kept@.len(),
            tail_pos <= tail_kept@.len(),
            forall|k: int| 0 <= k < head_pos ==> (#[trigger] head_kept@[k]) < i,
            forall|k: int| 0 <= k < tail_pos ==> (#[trigger] tail_kept@[k]) < i,
        decreases units@.len() - i,
    {
        head_pos = next_at(head_kept, head_pos, i);
        tail_pos = next_at(tail_kept, tail_pos, i);
        let run_stop = first_kept_from(units.len(), i, head_kept, head_pos, tail_kept, tail_pos);
        if run_stop == i {
            assert(mask[i as int]);
            i += 1;
            continue ;
        }
        proof {
            assert(forall|k: int| i <= k < run_stop ==> !#[trigger] mask[k]);
            lemma_run_end_at(mask, i as int, run_stop as int);
        }
        assert(at[i as int] == (units@[i as int].start as int, units@[i as int].end as int));
        assert(at[run_stop - 1] == (
            units@[run_stop - 1].start as int,
            units@[run_stop - 1].end as int,
        ));
        let run_start: usize = units[i].start;
        let run_end: usize = units[run_stop - 1].end;
        assert(run_start <= run_end) by {
            if i < run_stop - 1 {
                assert(at[i as int].1 <= at[run_stop - 1].0);
            }
        }
        let ghost rest = pieces_from(input@, at, mask, noun@, run_stop as int, run_end as int);
        let ghost entry = done;
        if cursor < run_start {
            let glue = vstd::slice::slice_subrange(input, cursor, run_start);
            push_lossy(&mut out, glue);
            proof {
                let piece = Piece::Kept(glue@);
                lemma_rendered_push(done, piece);
                done = done.push(piece);
            }
        }
        let original = vstd::slice::slice_subrange(input, run_start, run_end);
        let ghost summary = run_summary((run_stop - i) as nat, noun@);
        push_sentinel(&mut out, original, run_stop - i, noun);
        proof {
            let piece = Piece::Offloaded { original: original@, summary };
            lemma_rendered_push(done, piece);
            done = done.push(piece);
            assert(done + rest =~= entry + pieces_from(
                input@,
                at,
                mask,
                noun@,
                i as int,
                cursor as int,
            ));
        }
        cursor = run_end;
        i = run_stop;
    }
    if cursor < input.len() {
        let tail = vstd::slice::slice_subrange(input, cursor, input.len());
        assert(tail@ =~= input@.skip(cursor as int));
        push_lossy(&mut out, tail);
        proof {
            let piece = Piece::Kept(tail@);
            lemma_rendered_push(done, piece);
            assert(done + seq![piece] =~= done.push(piece));
            done = done.push(piece);
        }
    } else {
        assert(done + Seq::<Piece>::empty() =~= done);
    }
    assert(done == all);
    proof {
        let one = Piece::Kept(input@);
        lemma_rendered_push(Seq::empty(), one);
        assert(Seq::<Piece>::empty().push(one) =~= seq![one]);
        assert(tiled(Seq::<Piece>::empty()) =~= Seq::empty());
        assert(rendered(tiled(seq![one])) =~= utf8_lossy(input@));
        assert(input@.skip(0) =~= input@);
    }
    if out.as_str().is_empty() {
        assert(out@.len() == 0) by {
            lemma_empty_bytes(out@);
        }
        push_lossy(&mut out, input);
        assert(out@ =~= utf8_lossy(input@));
    }
    out
}

/// A text without bytes has no characters.
proof fn lemma_empty_bytes(s: Seq<char>)
    requires
        vstd::utf8::encode_utf8(s).len() == 0,
    ensures
        s.len() == 0,
{
    vstd::utf8::encode_utf8_decode_utf8(s);
    vstd::utf8::encode_utf8_valid_utf8(s);
    if s.len() > 0 {
        vstd::utf8::encode_utf8_first_scalar(s);
    }
}

/// What the model sees of the input when the window keeps `m` candidates.
pub fn render_keep_window_for_count(
    input: &[u8],
    units: &[Range<usize>],
    candidates: &[usize],
    m: usize,
    noun: &str,
) -> (out: String)
    requires
        ordered(spans(units@), input@.len() as int),
        increasing(candidates@, units@.len() as int),
    ensures
        out@ == rendered(
            tiled(window_pieces(input@, spans(units@), candidates@, m as nat, noun@)),
        ),
{
    let (head_kept, tail_kept) = keep_window_slices(candidates, m);
    let out = render_keep_slices_with(input, units, head_kept, tail_kept, noun);
    assert(Seq::new(
        units@.len(),
        |i: int| head_kept@.contains(i as usize) || tail_kept@.contains(i as usize),
    ) =~= window_mask(units@.len(), candidates@, m as nat));
    out
}

} // verus!
