//! How the rendering grows with the window: one more kept unit never makes it
//! shorter, as long as something is still left out.
use crate::charmodel::{
    chars_before, chars_in, digit_total, lemma_chars_before_grow, lemma_chars_between,
    lemma_digit_total, lemma_digit_total_grows, lemma_sentinel_len, on_boundaries,
};
use crate::doc::rendered;
use crate::emit::{
    lemma_pieces_from_tile, lemma_run_end, pieces, pieces_from, run_end, run_summary,
};
use crate::tiling::{piece_segment, tiled, whole, Piece};
use crate::units::{lemma_line_end, line_end, line_spans, ordered};
use crate::window::{
    increasing, lemma_rendered_concat, lemma_run_end_at, window_head, window_mask, window_pieces,
    window_tail,
};
use vstd::prelude::*;
use vstd::utf8::{is_char_boundary, valid_utf8};

verus! {

/// No span is empty.
pub open spec fn no_empty(spans: Seq<(int, int)>) -> bool {
    forall|i: int| 0 <= i < spans.len() ==> (#[trigger] spans[i]).0 < spans[i].1
}

/// No line of an input is empty: each but the last has its line feed.
pub proof fn law_lines_are_not_empty(s: Seq<u8>, start: int)
    requires
        0 <= start <= s.len(),
    ensures
        no_empty(line_spans(s, start)),
    decreases s.len() - start,
{
    if start < s.len() {
        let end = line_end(s, start);
        lemma_line_end(s, start);
        law_lines_are_not_empty(s, end);
        let all = line_spans(s, start);
        let rest = line_spans(s, end);
        assert(all =~= seq![(start, end)] + rest);
        assert forall|i: int| 0 <= i < all.len() implies (#[trigger] all[i]).0 < all[i].1 by {
            if i > 0 {
                assert(all[i] == rest[i - 1]);
            }
        }
    }
}

/// The characters of the sentinel of a run of `n` units, where nothing saturates.
pub open spec fn mark_len(n: nat, noun_len: nat) -> int {
    23 + digit_total(n) + noun_len
}

/// The characters of the units from `i` up to `j`, gaps between them and all.
pub open spec fn run_chars(s: Seq<u8>, spans: Seq<(int, int)>, i: int, j: int) -> int {
    chars_before(s, spans[j - 1].1) - chars_before(s, spans[i].0)
}

/// By how many characters the dropped units from `i` on make the rendering longer
/// than the input: each run gives a sentinel and takes its own characters.
pub open spec fn excess(
    s: Seq<u8>,
    spans: Seq<(int, int)>,
    kept: Seq<bool>,
    noun_len: nat,
    i: int,
) -> int
    decreases spans.len() - i,
{
    if i < 0 || i >= spans.len() {
        0
    } else if kept[i] {
        excess(s, spans, kept, noun_len, i + 1)
    } else {
        let j = run_end(kept, i);
        if j <= i || j > spans.len() {
            0
        } else {
            mark_len((j - i) as nat, noun_len) - run_chars(s, spans, i, j) + excess(
                s,
                spans,
                kept,
                noun_len,
                j,
            )
        }
    }
}

proof fn lemma_rendered_from(
    s: Seq<u8>,
    spans: Seq<(int, int)>,
    kept: Seq<bool>,
    noun: Seq<char>,
    i: int,
    cursor: int,
)
    requires
        valid_utf8(s),
        ordered(spans, s.len() as int),
        on_boundaries(s, spans),
        kept.len() == spans.len(),
        0 <= i <= spans.len(),
        0 <= cursor <= s.len(),
        is_char_boundary(s, cursor),
        forall|k: int| i <= k < spans.len() ==> cursor <= (#[trigger] spans[k]).0,
    ensures
        rendered(tiled(pieces_from(s, spans, kept, noun, i, cursor))).len() == chars_before(
            s,
            s.len() as int,
        ) - chars_before(s, cursor) + excess(s, spans, kept, noun.len(), i),
        cursor < s.len() ==> rendered(
            tiled(pieces_from(s, spans, kept, noun, i, cursor)),
        ).len() > 0,
    decreases spans.len() - i,
{
    let n = s.len() as int;
    vstd::utf8::is_char_boundary_start_end_of_seq(s);
    if i >= spans.len() {
        reveal_with_fuel(rendered, 2);
        lemma_chars_between(s, cursor, n);
        if cursor < n {
            let last = seq![Piece::Kept(s.skip(cursor))];
            assert(s.skip(cursor) =~= s.subrange(cursor, n));
            assert(tiled(last).drop_last() =~= Seq::empty());
            assert(rendered(tiled(last)).len() == chars_in(s, cursor, n));
            lemma_unit_has_a_char(s, cursor, n);
        } else {
            assert(tiled(Seq::<Piece>::empty()) =~= Seq::empty());
        }
    } else if kept[i] {
        lemma_rendered_from(s, spans, kept, noun, i + 1, cursor);
    } else {
        let j = run_end(kept, i);
        lemma_run_end(kept, i);
        let from = spans[i].0;
        let to = spans[j - 1].1;
        assert(from <= to) by {
            if i < j - 1 {
                assert(spans[i].1 <= spans[j - 1].0);
            }
        }
        let glue = if cursor < from {
            seq![Piece::Kept(s.subrange(cursor, from))]
        } else {
            Seq::<Piece>::empty()
        };
        let summary = run_summary((j - i) as nat, noun);
        let region = Piece::Offloaded { original: s.subrange(from, to), summary };
        let rest = pieces_from(s, spans, kept, noun, j, to);
        lemma_sentinel_len(s.subrange(from, to), (j - i) as nat, noun);
        lemma_digit_total((j - i) as nat);
        lemma_chars_between(s, cursor, from);
        reveal_with_fuel(rendered, 3);
        let shown_part = tiled(glue.push(region));
        assert(shown_part.drop_last() =~= tiled(glue));
        assert(shown_part.last() == piece_segment(region));
        if cursor < from {
            assert(tiled(glue).drop_last() =~= Seq::empty());
            assert(tiled(glue).last() == piece_segment(glue[0]));
            assert(rendered(tiled(glue)).len() == chars_in(s, cursor, from));
        } else {
            assert(tiled(glue) =~= Seq::empty());
        }
        assert(tiled(glue.push(region) + rest) =~= shown_part + tiled(rest));
        lemma_rendered_concat(shown_part, tiled(rest));
        lemma_rendered_from(s, spans, kept, noun, j, to);
    }
}

/// The rendering has the characters of the input and the excess, and it is not
/// empty where the input is not.
pub proof fn lemma_rendered_len(
    s: Seq<u8>,
    spans: Seq<(int, int)>,
    kept: Seq<bool>,
    noun: Seq<char>,
)
    requires
        valid_utf8(s),
        ordered(spans, s.len() as int),
        on_boundaries(s, spans),
        kept.len() == spans.len(),
    ensures
        rendered(tiled(pieces(s, spans, kept, noun))).len() == chars_before(s, s.len() as int)
            + excess(s, spans, kept, noun.len(), 0),
        s.len() > 0 ==> rendered(tiled(pieces(s, spans, kept, noun))).len() > 0,
{
    vstd::utf8::is_char_boundary_start_end_of_seq(s);
    lemma_rendered_from(s, spans, kept, noun, 0, 0);
    assert(s.subrange(0, 0) =~= Seq::empty());
    if pieces_from(s, spans, kept, noun, 0, 0).len() == 0 {
        reveal_with_fuel(rendered, 2);
        lemma_pieces_from_tile(s, spans, kept, noun, 0, 0);
        assert(s.skip(0) =~= s);
        assert(whole(Seq::<Piece>::empty()) =~= Seq::<u8>::empty());
        let one = seq![Piece::Kept(s)];
        assert(tiled(one).drop_last() =~= Seq::empty());
        assert(tiled(pieces_from(s, spans, kept, noun, 0, 0)) =~= Seq::empty());
        assert(rendered(tiled(one)).len() == 0);
    }
}

/// The excess from `i` on depends on nothing before `i`.
proof fn lemma_excess_same(
    s: Seq<u8>,
    spans: Seq<(int, int)>,
    a: Seq<bool>,
    b: Seq<bool>,
    noun_len: nat,
    i: int,
)
    requires
        a.len() == b.len() == spans.len(),
        0 <= i <= spans.len(),
        forall|k: int| i <= k < a.len() ==> #[trigger] a[k] == b[k],
    ensures
        excess(s, spans, a, noun_len, i) == excess(s, spans, b, noun_len, i),
    decreases spans.len() - i,
{
    if i < spans.len() {
        assert(a[i] == b[i]);
        if a[i] {
            lemma_excess_same(s, spans, a, b, noun_len, i + 1);
        } else {
            let j = run_end(a, i);
            lemma_run_end(a, i);
            assert forall|k: int| i <= k < j implies !#[trigger] b[k] by {
                assert(a[k] == b[k]);
            }
            if j < a.len() {
                assert(a[j] == b[j]);
            }
            lemma_run_end_at(b, i, j);
            lemma_excess_same(s, spans, a, b, noun_len, j);
        }
    }
}

/// Ten times a number has one digit more.
pub proof fn lemma_one_digit_more(small: nat, large: nat)
    requires
        0 < small,
        large <= 10 * small,
    ensures
        digit_total(large) <= digit_total(small) + 1,
{
    lemma_digit_total_grows(large, 10 * small);
    assert((10 * small) / 10 == small);
}

/// A unit has a character.
proof fn lemma_unit_has_a_char(s: Seq<u8>, a: int, b: int)
    requires
        valid_utf8(s),
        0 <= a < b <= s.len(),
        is_char_boundary(s, a),
        is_char_boundary(s, b),
    ensures
        chars_before(s, a) < chars_before(s, b),
{
    lemma_chars_between(s, a, b);
    let part = s.subrange(a, b);
    assert(part.len() > 0);
    assert(vstd::utf8::decode_utf8(part).len() > 0);
}

/// Keeping one more unit, `u`, which has a dropped neighbour, makes the excess no
/// smaller. `i` is not inside of a run.
proof fn lemma_excess_rises(
    s: Seq<u8>,
    spans: Seq<(int, int)>,
    less: Seq<bool>,
    more: Seq<bool>,
    noun_len: nat,
    u: int,
    i: int,
)
    requires
        valid_utf8(s),
        ordered(spans, s.len() as int),
        on_boundaries(s, spans),
        no_empty(spans),
        less.len() == more.len() == spans.len(),
        0 <= i <= u < spans.len(),
        i == 0 || less[i - 1],
        !less[u],
        more[u],
        forall|k: int| 0 <= k < less.len() && k != u ==> #[trigger] less[k] == more[k],
        (u + 1 < less.len() && !less[u + 1]) || (u > 0 && !less[u - 1]),
    ensures
        excess(s, spans, less, noun_len, i) <= excess(s, spans, more, noun_len, i),
    decreases spans.len() - i,
{
    reveal_with_fuel(excess, 4);
    if less[i] {
        assert(less[i] == more[i]);
        lemma_excess_rises(s, spans, less, more, noun_len, u, i + 1);
    } else {
        let j = run_end(less, i);
        lemma_run_end(less, i);
        if j <= u {
            assert(less[j]);
            assert(less[j] == more[j]);
            assert forall|k: int| i <= k < j implies !#[trigger] more[k] by {
                assert(less[k] == more[k]);
            }
            lemma_run_end_at(more, i, j);
            lemma_excess_rises(s, spans, less, more, noun_len, u, j + 1);
        } else {
            let p = u - i;
            let q = j - u - 1;
            assert(p > 0 || q > 0) by {
                if p == 0 && q == 0 {
                    if u + 1 < less.len() && !less[u + 1] {
                        assert(less[j]);
                    } else {
                        assert(less[i - 1]);
                    }
                }
            }
            assert forall|k: int| j <= k < less.len() implies #[trigger] less[k] == more[k] by {}
            lemma_excess_same(s, spans, less, more, noun_len, j);
            // What follows the unit.
            if q > 0 {
                assert forall|k: int| u + 1 <= k < j implies !#[trigger] more[k] by {
                    assert(less[k] == more[k]);
                }
                if j < more.len() {
                    assert(less[j] == more[j]);
                }
                assert(less[u + 1] == more[u + 1]);
                lemma_run_end_at(more, u + 1, j);
                assert(spans[u].1 <= spans[u + 1].0);
                lemma_chars_before_grow(s, spans[u].1, spans[u + 1].0);
            }
            // What stands before it.
            if p > 0 {
                assert forall|k: int| i <= k < u implies !#[trigger] more[k] by {
                    assert(less[k] == more[k]);
                }
                assert(less[i] == more[i]);
                lemma_run_end_at(more, i, u);
                assert(spans[u - 1].1 <= spans[u].0);
                lemma_chars_before_grow(s, spans[u - 1].1, spans[u].0);
            }
            lemma_unit_has_a_char(s, spans[u].0, spans[u].1);
            // The digits of the runs.
            let all = (p + q + 1) as nat;
            lemma_digit_total(p as nat);
            lemma_digit_total(q as nat);
            if p >= q {
                lemma_one_digit_more(p as nat, all);
            } else {
                lemma_one_digit_more(q as nat, all);
            }
        }
    }
}

/// Which units the window keeps, by the candidates' places.
proof fn lemma_window_kept(count: nat, candidates: Seq<usize>, m: nat, i: int)
    requires
        count <= usize::MAX,
        m < candidates.len(),
        0 <= i < count,
    ensures
        window_mask(count, candidates, m)[i] <==> exists|x: int|
            0 <= x < candidates.len() && (x < (m + 1) / 2 || x >= candidates.len() - m / 2)
                && #[trigger] candidates[x] == i,
{
    let n = candidates.len() as int;
    let head = window_head(candidates, m);
    let tail = window_tail(candidates, m);
    if head.contains(i as usize) {
        let x = choose|x: int| 0 <= x < head.len() && head[x] == i as usize;
        assert(candidates[x] == i);
    }
    if tail.contains(i as usize) {
        let x = choose|x: int| 0 <= x < tail.len() && tail[x] == i as usize;
        assert(candidates[n - m / 2 + x] == i);
    }
    if exists|x: int|
        0 <= x < candidates.len() && (x < (m + 1) / 2 || x >= candidates.len() - m / 2)
            && #[trigger] candidates[x] == i {
        let x = choose|x: int|
            0 <= x < candidates.len() && (x < (m + 1) / 2 || x >= candidates.len() - m / 2)
                && #[trigger] candidates[x] == i;
        if x < (m + 1) / 2 {
            assert(head[x] == i as usize);
        } else {
            assert(tail[x - (n - m / 2)] == i as usize);
        }
    }
}

/// The next larger window keeps one unit more, and a neighbour of it is dropped.
proof fn lemma_window_step(count: nat, candidates: Seq<usize>, m: nat) -> (u: int)
    requires
        count <= usize::MAX,
        increasing(candidates, count as int),
        m + 1 < candidates.len(),
    ensures
        ({
            let less = window_mask(count, candidates, m);
            let more = window_mask(count, candidates, m + 1);
            &&& 0 <= u < count
            &&& !less[u]
            &&& more[u]
            &&& forall|k: int| 0 <= k < count && k != u ==> #[trigger] less[k] == more[k]
            &&& (u + 1 < count && !less[u + 1]) || (u > 0 && !less[u - 1])
        }),
{
    let n = candidates.len() as int;
    let less = window_mask(count, candidates, m);
    let more = window_mask(count, candidates, m + 1);
    let at = if m % 2 == 0 {
        (m / 2) as int
    } else {
        n - m / 2 - 1
    };
    let u = candidates[at] as int;
    lemma_window_kept(count, candidates, m, u);
    lemma_window_kept(count, candidates, m + 1, u);
    assert(candidates[at] == u);
    assert forall|k: int| 0 <= k < count && k != u implies #[trigger] less[k] == more[k] by {
        lemma_window_kept(count, candidates, m, k);
        lemma_window_kept(count, candidates, m + 1, k);
    }
    if m % 2 == 0 {
        assert(candidates[at] < candidates[at + 1]);
        lemma_window_kept(count, candidates, m, u + 1);
        assert(!less[u + 1]) by {
            if less[u + 1] {
                let x = choose|x: int|
                    0 <= x < candidates.len() && (x < (m + 1) / 2 || x >= candidates.len() - m / 2)
                        && #[trigger] candidates[x] == u + 1;
                if x < at {
                    assert(candidates[x] < candidates[at]);
                } else {
                    assert(candidates[at + 1] < candidates[x]);
                }
            }
        }
    } else {
        assert(candidates[at - 1] < candidates[at]);
        lemma_window_kept(count, candidates, m, u - 1);
        assert(!less[u - 1]) by {
            if less[u - 1] {
                let x = choose|x: int|
                    0 <= x < candidates.len() && (x < (m + 1) / 2 || x >= candidates.len() - m / 2)
                        && #[trigger] candidates[x] == u - 1;
                if x > at {
                    assert(candidates[at] < candidates[x]);
                } else {
                    assert(candidates[x] < candidates[at - 1]);
                }
            }
        }
    }
    u
}

/// A larger window is rendered in no fewer characters, as long as it does not
/// keep all candidates: in UTF-8, with units that are not empty and stand at
/// boundaries between characters.
pub proof fn law_larger_window_is_no_shorter(
    input: Seq<u8>,
    spans: Seq<(int, int)>,
    candidates: Seq<usize>,
    noun: Seq<char>,
    small: nat,
    large: nat,
)
    requires
        valid_utf8(input),
        ordered(spans, input.len() as int),
        on_boundaries(input, spans),
        no_empty(spans),
        spans.len() <= usize::MAX,
        increasing(candidates, spans.len() as int),
        small <= large < candidates.len(),
    ensures
        rendered(tiled(window_pieces(input, spans, candidates, small, noun))).len() <= rendered(
            tiled(window_pieces(input, spans, candidates, large, noun)),
        ).len(),
    decreases large,
{
    if small < large {
        let m = (large - 1) as nat;
        law_larger_window_is_no_shorter(input, spans, candidates, noun, small, m);
        let less = window_mask(spans.len(), candidates, m);
        let more = window_mask(spans.len(), candidates, large);
        let u = lemma_window_step(spans.len(), candidates, m);
        lemma_rendered_len(input, spans, less, noun);
        lemma_rendered_len(input, spans, more, noun);
        lemma_excess_rises(input, spans, less, more, noun.len(), u, 0);
    }
}

/// A window of `m` keeps every candidate if there are no more than `m`; else the
/// first half of `m`, rounded up, and the last half, rounded down. What is no
/// candidate is never kept.
pub proof fn law_window(count: nat, candidates: Seq<usize>, m: nat, x: int, i: int)
    requires
        count <= usize::MAX,
        increasing(candidates, count as int),
    ensures
        window_mask(count, candidates, m).len() == count,
        0 <= x < candidates.len() ==> (window_mask(count, candidates, m)[candidates[x] as int] <==> m
            >= candidates.len() || 2 * x < m || 2 * (candidates.len() - x) <= m),
        0 <= i < count && !candidates.contains(i as usize) ==> !window_mask(count, candidates, m)[i],
{
    if m < candidates.len() {
        if 0 <= x < candidates.len() {
            let at = candidates[x] as int;
            lemma_window_kept(count, candidates, m, at);
            if window_mask(count, candidates, m)[at] {
                let y = choose|y: int|
                    0 <= y < candidates.len() && (y < (m + 1) / 2 || y >= candidates.len() - m / 2)
                        && #[trigger] candidates[y] == at;
                if y < x {
                    assert(candidates[y] < candidates[x]);
                } else if x < y {
                    assert(candidates[x] < candidates[y]);
                }
            } else {
                assert(candidates[x] == at);
            }
        }
        if 0 <= i < count {
            lemma_window_kept(count, candidates, m, i);
            if window_mask(count, candidates, m)[i] {
                let y = choose|y: int|
                    0 <= y < candidates.len() && (y < (m + 1) / 2 || y >= candidates.len() - m / 2)
                        && #[trigger] candidates[y] == i;
                assert(candidates[y] == i as usize);
            }
        }
    } else if 0 <= x < candidates.len() {
        assert(window_head(candidates, m)[x] == candidates[x]);
    }
}

} // verus!
