//! The number of characters of a window's rendering, from sums that are made
//! once for an input instead of from the rendering itself.
use crate::doc::{rendered, sentinel_text};
use crate::emit::{
    lemma_pieces_from_tile, lemma_run_end, pieces_from, run_end, run_end_of, run_summary,
};
use crate::hash::{content_key, law_keys_are_64_hex_digits};
use crate::text::decimal;
use crate::tiling::{piece_segment, tiled, Piece};
use crate::units::{
    elements, law_elements_are_ordered, law_lines_tile, line_spans, ordered, spans,
};
use crate::utf8::{lossy_text, utf8_lossy};
use crate::window::{
    increasing, keep_window_mask, lemma_rendered_concat, window_mask, window_pieces,
};
use std::ops::Range;
use vstd::prelude::*;
use vstd::utf8::{decode_utf8, is_char_boundary, valid_utf8};

verus! {

/// `n`, or the largest machine integer where `n` is larger.
pub open spec fn sat(n: int) -> int {
    if n < 0 {
        0
    } else if n > usize::MAX {
        usize::MAX as int
    } else {
        n
    }
}

/// The characters of `input[from..to]`.
pub open spec fn chars_in(input: Seq<u8>, from: int, to: int) -> int {
    utf8_lossy(input.subrange(from, to)).len() as int
}

/// The characters of the first `k` units.
pub open spec fn unit_sum(input: Seq<u8>, spans: Seq<(int, int)>, k: int) -> int
    decreases k,
{
    if k <= 0 {
        0
    } else {
        sat(unit_sum(input, spans, k - 1) + chars_in(input, spans[k - 1].0, spans[k - 1].1))
    }
}

/// The characters of the first `k` gaps between units.
pub open spec fn gap_sum(input: Seq<u8>, spans: Seq<(int, int)>, k: int) -> int
    decreases k,
{
    if k <= 0 {
        0
    } else {
        sat(gap_sum(input, spans, k - 1) + chars_in(input, spans[k - 1].1, spans[k].0))
    }
}

/// The characters of the whole input.
pub open spec fn all_sum(input: Seq<u8>, spans: Seq<(int, int)>) -> int {
    let n = spans.len() as int;
    if n == 0 {
        0
    } else {
        sat(
            sat(
                sat(
                    chars_in(input, 0, spans[0].0) + chars_in(
                        input,
                        spans[n - 1].1,
                        input.len() as int,
                    ),
                ) + unit_sum(input, spans, n),
            ) + gap_sum(input, spans, n - 1),
        )
    }
}

/// The number of decimal digits of `n`.
pub open spec fn digit_total(n: nat) -> int
    decreases n,
{
    if n < 10 {
        1
    } else {
        digit_total(n / 10) + 1
    }
}

/// The characters of the sentinel of a run of `n` units.
pub open spec fn sentinel_chars(n: nat, noun_len: nat) -> int {
    sat(23 + digit_total(n) + noun_len)
}

/// The characters of the rendering, where `total` is right for everything
/// before unit `i` and for an input of which nothing from `i` on is dropped.
pub open spec fn model_from(
    input: Seq<u8>,
    spans: Seq<(int, int)>,
    kept: Seq<bool>,
    noun_len: nat,
    i: int,
    total: int,
) -> int
    decreases spans.len() - i,
{
    if i < 0 || i >= spans.len() {
        total
    } else if kept[i] {
        model_from(input, spans, kept, noun_len, i + 1, total)
    } else {
        let j = run_end(kept, i);
        let run = sat(
            (unit_sum(input, spans, j) - unit_sum(input, spans, i)) + (gap_sum(input, spans, j - 1)
                - gap_sum(input, spans, i)),
        );
        let next = sat(sat(total - run) + sentinel_chars((j - i) as nat, noun_len));
        if j <= i || j > spans.len() {
            total
        } else {
            model_from(input, spans, kept, noun_len, j, next)
        }
    }
}

/// The characters of the rendering of which the window keeps `m` candidates.
pub open spec fn model_chars(
    input: Seq<u8>,
    spans: Seq<(int, int)>,
    candidates: Seq<usize>,
    m: nat,
    noun_len: nat,
) -> int {
    model_from(
        input,
        spans,
        window_mask(spans.len(), candidates, m),
        noun_len,
        0,
        all_sum(input, spans),
    )
}

// ---------------------------------------------------------------------------
// The model's numbers
// ---------------------------------------------------------------------------

/// The sums of one input.
pub struct CharModel {
    all_chars: usize,
    unit_chars_pfx: Vec<usize>,
    gap_chars_pfx: Vec<usize>,
    noun_len: usize,
    unit_count: usize,
    source: Ghost<Seq<u8>>,
    at: Ghost<Seq<(int, int)>>,
}

fn count_chars(input: &[u8], from: usize, to: usize) -> (n: usize)
    requires
        from <= to <= input@.len(),
    ensures
        n == chars_in(input@, from as int, to as int),
{
    lossy_text(vstd::slice::slice_subrange(input, from, to)).as_str().unicode_len()
}

proof fn lemma_sums_grow(input: Seq<u8>, spans: Seq<(int, int)>, i: int, j: int)
    requires
        0 <= i <= j,
    ensures
        unit_sum(input, spans, i) <= unit_sum(input, spans, j) <= usize::MAX,
        gap_sum(input, spans, i) <= gap_sum(input, spans, j) <= usize::MAX,
    decreases j - i, j,
{
    if i < j {
        lemma_sums_grow(input, spans, i, j - 1);
    } else if j > 0 {
        lemma_sums_grow(input, spans, j - 1, j - 1);
    }
}

/// The number of decimal digits of `n`.
fn digit_count(n: usize) -> (digits: usize)
    ensures
        digits == digit_total(n as nat),
{
    let mut rest: usize = n;
    let mut digits: usize = 1;
    while rest >= 10
        invariant
            1 <= digits,
            digits + rest <= n + 1,
            digit_total(n as nat) == digit_total(rest as nat) + digits - 1,
        decreases rest,
    {
        rest = rest / 10;
        digits += 1;
    }
    digits
}

impl CharModel {
    /// The input that the sums are of.
    pub closed spec fn input(&self) -> Seq<u8> {
        self.source@
    }

    /// The spans of its units.
    pub closed spec fn spans(&self) -> Seq<(int, int)> {
        self.at@
    }

    /// The bytes of what the units are called.
    pub closed spec fn noun_size(&self) -> nat {
        self.noun_len as nat
    }

    #[verifier::type_invariant]
    closed spec fn valid(&self) -> bool {
        &&& self.all_chars == all_sum(self.source@, self.at@)
        &&& self.unit_count == self.at@.len()
        &&& self.unit_chars_pfx@.len() == self.at@.len() + 1
        &&& forall|k: int|
            0 <= k <= self.at@.len() ==> #[trigger] self.unit_chars_pfx@[k] == unit_sum(
                self.source@,
                self.at@,
                k,
            )
        &&& self.gap_chars_pfx@.len() >= self.at@.len()
        &&& forall|k: int|
            0 <= k < self.at@.len() ==> #[trigger] self.gap_chars_pfx@[k] == gap_sum(
                self.source@,
                self.at@,
                k,
            )
    }

    /// The sums of `input`.
    pub fn new(input: &[u8], units: &[Range<usize>], noun: &str) -> (model: Self)
        requires
            ordered(spans(units@), input@.len() as int),
        ensures
            model.input() == input@,
            model.spans() == spans(units@),
            model.noun_size() == vstd::utf8::encode_utf8(noun@).len(),
    {
        let n: usize = units.len();
        let ghost at = spans(units@);
        assert(forall|k: int|
            0 <= k < n ==> #[trigger] at[k] == (units@[k].start as int, units@[k].end as int));
        let mut unit_chars_pfx: Vec<usize> = Vec::new();
        unit_chars_pfx.push(0);
        let mut unit_acc: usize = 0;
        let mut i: usize = 0;
        while i < n
            invariant
                i <= n == units@.len(),
                at == spans(units@),
                at.len() == n,
                ordered(at, input@.len() as int),
                forall|k: int|
                    0 <= k < n ==> #[trigger] at[k] == (
                        units@[k].start as int,
                        units@[k].end as int,
                    ),
                unit_acc == unit_sum(input@, at, i as int),
                unit_chars_pfx@.len() == i + 1,
                forall|k: int|
                    0 <= k <= i ==> #[trigger] unit_chars_pfx@[k] == unit_sum(input@, at, k),
            decreases n - i,
        {
            assert(at[i as int].0 <= at[i as int].1);
            let c = count_chars(input, units[i].start, units[i].end);
            unit_acc = unit_acc.saturating_add(c);
            unit_chars_pfx.push(unit_acc);
            i += 1;
        }
        let mut gap_chars_pfx: Vec<usize> = Vec::new();
        gap_chars_pfx.push(0);
        let mut gap_acc: usize = 0;
        let mut g: usize = 1;
        while g < n
            invariant
                1 <= g,
                n >= 1 ==> g <= n,
                n == units@.len(),
                at == spans(units@),
                at.len() == n,
                ordered(at, input@.len() as int),
                forall|k: int|
                    0 <= k < n ==> #[trigger] at[k] == (
                        units@[k].start as int,
                        units@[k].end as int,
                    ),
                gap_acc == gap_sum(input@, at, g - 1),
                gap_chars_pfx@.len() == g,
                forall|k: int|
                    0 <= k < g ==> #[trigger] gap_chars_pfx@[k] == gap_sum(input@, at, k),
            decreases n - g,
        {
            assert(at[g - 1].1 <= at[g as int].0);
            let c = count_chars(input, units[g - 1].end, units[g].start);
            gap_acc = gap_acc.saturating_add(c);
            gap_chars_pfx.push(gap_acc);
            g += 1;
        }
        let all_chars: usize = if n == 0 {
            0
        } else {
            assert(at[0].0 <= at[0].1);
            let head = count_chars(input, 0, units[0].start);
            let tail = count_chars(input, units[n - 1].end, input.len());
            head.saturating_add(tail).saturating_add(unit_acc).saturating_add(gap_acc)
        };
        CharModel {
            all_chars,
            unit_chars_pfx,
            gap_chars_pfx,
            noun_len: noun.as_bytes().len(),
            unit_count: n,
            source: Ghost(input@),
            at: Ghost(at),
        }
    }

    /// The characters of the rendering of which the window keeps `m`
    /// candidates.
    pub fn render_chars(&self, candidates: &[usize], m: usize) -> (total: usize)
        requires
            increasing(candidates@, self.spans().len() as int),
        ensures
            total == model_chars(
                self.input(),
                self.spans(),
                candidates@,
                m as nat,
                self.noun_size(),
            ),
    {
        proof {
            use_type_invariant(self);
        }
        let kept = keep_window_mask(self.unit_count, candidates, m);
        let ghost s = self.source@;
        let ghost spans = self.at@;
        let ghost noun_len = self.noun_len as nat;
        let mut total: usize = self.all_chars;
        let mut i: usize = 0;
        while i < self.unit_count
            invariant
                i <= self.unit_count,
                self.valid(),
                s == self.source@,
                spans == self.at@,
                noun_len == self.noun_len,
                kept@.len() == spans.len(),
                model_from(s, spans, kept@, noun_len, 0, self.all_chars as int) == model_from(
                    s,
                    spans,
                    kept@,
                    noun_len,
                    i as int,
                    total as int,
                ),
            decreases self.unit_count - i,
        {
            if kept[i] {
                i += 1;
                continue ;
            }
            let j = run_end_of(kept.as_slice(), i);
            proof {
                lemma_run_end(kept@, i as int);
                lemma_sums_grow(s, spans, i as int, j as int);
                lemma_sums_grow(s, spans, i as int, j - 1);
            }
            let run: usize = (self.unit_chars_pfx[j] - self.unit_chars_pfx[i]).saturating_add(
                self.gap_chars_pfx[j - 1] - self.gap_chars_pfx[i],
            );
            let mark: usize = digit_count(j - i).saturating_add(23).saturating_add(self.noun_len);
            total = total.saturating_sub(run).saturating_add(mark);
            i = j;
        }
        total
    }
}

// ---------------------------------------------------------------------------
// The model is right
// ---------------------------------------------------------------------------

/// Every span begins and ends at a boundary between characters.
pub open spec fn on_boundaries(input: Seq<u8>, spans: Seq<(int, int)>) -> bool {
    forall|i: int|
        0 <= i < spans.len() ==> is_char_boundary(input, (#[trigger] spans[i]).0)
            && is_char_boundary(input, spans[i].1)
}

/// The characters before a boundary.
pub open spec fn chars_before(input: Seq<u8>, p: int) -> int {
    decode_utf8(input.subrange(0, p)).len() as int
}

/// The position after an ASCII byte is a boundary.
proof fn lemma_boundary_after_ascii(s: Seq<u8>, p: int)
    requires
        valid_utf8(s),
        0 < p <= s.len(),
        s[p - 1] < 0x80,
    ensures
        is_char_boundary(s, p),
{
    vstd::utf8::is_char_boundary_start_end_of_seq(s);
    if p < s.len() {
        vstd::utf8::is_char_boundary_iff_not_is_continuation_byte(s, p - 1);
        vstd::utf8::valid_utf8_split(s, p - 1);
        let rest = s.subrange(p - 1, s.len() as int);
        assert(rest[0] == s[p - 1]);
        let after = vstd::utf8::pop_first_scalar(rest);
        assert(after =~= s.subrange(p, s.len() as int));
        assert(valid_utf8(after));
        assert(after[0] == s[p]);
        vstd::utf8::is_char_boundary_start_end_of_seq(after);
        vstd::utf8::is_char_boundary_iff_not_is_continuation_byte(after, 0);
        vstd::utf8::is_char_boundary_iff_not_is_continuation_byte(s, p);
    }
}

/// The position before an ASCII byte is a boundary.
proof fn lemma_boundary_before_ascii(s: Seq<u8>, p: int)
    requires
        valid_utf8(s),
        0 <= p < s.len(),
        s[p] < 0x80,
    ensures
        is_char_boundary(s, p),
{
    vstd::utf8::is_char_boundary_iff_not_is_continuation_byte(s, p);
}

/// The elements of an array in valid UTF-8 stand at boundaries between
/// characters.
pub proof fn law_elements_stand_on_boundaries(s: Seq<u8>)
    requires
        valid_utf8(s),
        elements(s) is Some,
    ensures
        on_boundaries(s, elements(s)->0),
{
    law_elements_are_ordered(s);
    vstd::utf8::is_char_boundary_start_end_of_seq(s);
    let spans = elements(s)->0;
    assert forall|i: int| 0 <= i < spans.len() implies is_char_boundary(
        s,
        (#[trigger] spans[i]).0,
    ) && is_char_boundary(s, spans[i].1) by {
        if spans[i].0 > 0 {
            lemma_boundary_after_ascii(s, spans[i].0);
        }
        if spans[i].1 < s.len() {
            lemma_boundary_before_ascii(s, spans[i].1);
        }
    }
}

/// The lines of valid UTF-8 stand at boundaries between characters.
pub proof fn law_lines_stand_on_boundaries(s: Seq<u8>)
    requires
        valid_utf8(s),
    ensures
        on_boundaries(s, line_spans(s, 0)),
{
    law_lines_tile(s);
    vstd::utf8::is_char_boundary_start_end_of_seq(s);
    let spans = line_spans(s, 0);
    assert forall|i: int| 0 <= i < spans.len() implies is_char_boundary(
        s,
        (#[trigger] spans[i]).0,
    ) && is_char_boundary(s, spans[i].1) by {
        if spans[i].0 > 0 {
            lemma_boundary_after_ascii(s, spans[i].0);
        }
        if 0 < spans[i].1 < s.len() {
            lemma_boundary_after_ascii(s, spans[i].1);
        }
    }
}

/// Between two boundaries stand the characters before the second less those
/// before the first.
pub proof fn lemma_chars_between(s: Seq<u8>, a: int, b: int)
    requires
        valid_utf8(s),
        0 <= a <= b <= s.len(),
        is_char_boundary(s, a),
        is_char_boundary(s, b),
    ensures
        chars_in(s, a, b) == chars_before(s, b) - chars_before(s, a),
        valid_utf8(s.subrange(a, b)),
{
    vstd::utf8::valid_utf8_split(s, b);
    let upto = s.subrange(0, b);
    vstd::utf8::is_char_boundary_start_end_of_seq(upto);
    if a < b {
        vstd::utf8::is_char_boundary_iff_not_is_continuation_byte(s, a);
        vstd::utf8::is_char_boundary_iff_not_is_continuation_byte(upto, a);
    }
    vstd::utf8::valid_utf8_split(upto, a);
    vstd::utf8::decode_utf8_split(upto, a);
    assert(upto.subrange(0, a) =~= s.subrange(0, a));
    assert(upto.subrange(a, upto.len() as int) =~= s.subrange(a, b));
}

/// Boundaries further on have more characters before them.
pub proof fn lemma_chars_before_grow(s: Seq<u8>, a: int, b: int)
    requires
        valid_utf8(s),
        0 <= a <= b <= s.len(),
        is_char_boundary(s, a),
        is_char_boundary(s, b),
    ensures
        0 <= chars_before(s, a) <= chars_before(s, b),
{
    lemma_chars_between(s, a, b);
}

/// What the sums are worth when nothing saturates.
proof fn lemma_sums(s: Seq<u8>, spans: Seq<(int, int)>, k: int)
    requires
        valid_utf8(s),
        ordered(spans, s.len() as int),
        on_boundaries(s, spans),
        1 <= k <= spans.len(),
        chars_before(s, s.len() as int) <= usize::MAX,
    ensures
        unit_sum(s, spans, k) + gap_sum(s, spans, k - 1) == chars_before(s, spans[k - 1].1)
            - chars_before(s, spans[0].0),
        0 <= unit_sum(s, spans, k),
        0 <= gap_sum(s, spans, k - 1),
    decreases k,
{
    reveal_with_fuel(unit_sum, 2);
    reveal_with_fuel(gap_sum, 2);
    let n = s.len() as int;
    vstd::utf8::is_char_boundary_start_end_of_seq(s);
    lemma_chars_between(s, spans[k - 1].0, spans[k - 1].1);
    lemma_chars_before_grow(s, spans[k - 1].1, n);
    lemma_chars_before_grow(s, 0, spans[0].0);
    if k > 1 {
        lemma_sums(s, spans, k - 1);
        assert(spans[k - 2].1 <= spans[k - 1].0);
        lemma_chars_between(s, spans[k - 2].1, spans[k - 1].0);
        lemma_chars_before_grow(s, spans[k - 1].0, spans[k - 1].1);
    }
}

/// The characters of a run of units, gaps between them and all.
proof fn lemma_run_sum(s: Seq<u8>, spans: Seq<(int, int)>, i: int, j: int)
    requires
        valid_utf8(s),
        ordered(spans, s.len() as int),
        on_boundaries(s, spans),
        0 <= i < j <= spans.len(),
        chars_before(s, s.len() as int) <= usize::MAX,
    ensures
        (unit_sum(s, spans, j) - unit_sum(s, spans, i)) + (gap_sum(s, spans, j - 1) - gap_sum(
            s,
            spans,
            i,
        )) == chars_before(s, spans[j - 1].1) - chars_before(s, spans[i].0),
{
    reveal_with_fuel(unit_sum, 2);
    reveal_with_fuel(gap_sum, 2);
    lemma_sums(s, spans, j);
    if i > 0 {
        lemma_sums(s, spans, i);
        assert(spans[i - 1].1 <= spans[i].0);
        lemma_chars_between(s, spans[i - 1].1, spans[i].0);
        vstd::utf8::is_char_boundary_start_end_of_seq(s);
        lemma_chars_before_grow(s, spans[i].0, s.len() as int);
        lemma_chars_before_grow(s, 0, spans[0].0);
        lemma_chars_before_grow(s, spans[i - 1].1, spans[i].0);
    }
}

/// A numeral has as many characters as `digit_total` says, more for larger
/// numbers.
pub proof fn lemma_digit_total(n: nat)
    ensures
        digit_total(n) == decimal(n).len(),
        digit_total(n) >= 1,
    decreases n,
{
    if n >= 10 {
        lemma_digit_total(n / 10);
    }
}

pub proof fn lemma_digit_total_grows(a: nat, b: nat)
    requires
        a <= b,
    ensures
        digit_total(a) <= digit_total(b),
    decreases b,
{
    lemma_digit_total(b);
    if a >= 10 {
        lemma_digit_total_grows(a / 10, b / 10);
    }
}

/// The characters of a sentinel.
pub proof fn lemma_sentinel_len(bytes: Seq<u8>, n: nat, noun: Seq<char>)
    ensures
        sentinel_text(content_key(bytes), run_summary(n, noun)).len() == 23 + digit_total(n)
            + noun.len(),
{
    law_keys_are_64_hex_digits(bytes);
    lemma_digit_total(n);
    reveal_strlit("<<cof:");
    reveal_strlit(" ");
    reveal_strlit(">>");
    reveal_strlit("+");
}

/// The most characters that a sentinel of this input can have.
pub open spec fn sentinel_bound(spans: Seq<(int, int)>, noun: Seq<char>) -> int {
    23 + digit_total(spans.len()) + noun.len()
}

proof fn lemma_model_from(
    s: Seq<u8>,
    spans: Seq<(int, int)>,
    kept: Seq<bool>,
    noun: Seq<char>,
    i: int,
    cursor: int,
    before: int,
)
    requires
        valid_utf8(s),
        ordered(spans, s.len() as int),
        on_boundaries(s, spans),
        kept.len() == spans.len(),
        0 <= i <= spans.len(),
        0 <= cursor <= s.len(),
        is_char_boundary(s, cursor),
        forall|k: int| i <= k < spans.len() ==> cursor <= (#[trigger] spans[k]).0,
        0 <= before,
        before + chars_before(s, s.len() as int) - chars_before(s, cursor) + (spans.len() - i)
            * sentinel_bound(spans, noun) <= usize::MAX,
        chars_before(s, s.len() as int) <= usize::MAX,
    ensures
        model_from(
            s,
            spans,
            kept,
            noun.len(),
            i,
            before + chars_before(s, s.len() as int) - chars_before(s, cursor),
        ) == before + rendered(tiled(pieces_from(s, spans, kept, noun, i, cursor))).len(),
    decreases spans.len() - i,
{
    let n = s.len() as int;
    let bound = sentinel_bound(spans, noun);
    vstd::utf8::is_char_boundary_start_end_of_seq(s);
    lemma_chars_before_grow(s, cursor, n);
    if i >= spans.len() {
        reveal_with_fuel(rendered, 2);
        if cursor < n {
            let last = seq![Piece::Kept(s.skip(cursor))];
            lemma_chars_between(s, cursor, n);
            assert(s.skip(cursor) =~= s.subrange(cursor, n));
            assert(tiled(last).drop_last() =~= Seq::empty());
            assert(rendered(tiled(last)).len() == chars_in(s, cursor, n));
        } else {
            assert(tiled(Seq::<Piece>::empty()) =~= Seq::empty());
        }
    } else if kept[i] {
        lemma_digit_total(spans.len());
        assert((spans.len() - i) * bound >= (spans.len() - (i + 1)) * bound) by (nonlinear_arith)
            requires
                bound >= 0,
        ;
        lemma_model_from(s, spans, kept, noun, i + 1, cursor, before);
    } else {
        let j = run_end(kept, i);
        lemma_run_end(kept, i);
        let from = spans[i].0;
        let to = spans[j - 1].1;
        assert(from <= to) by {
            if i < j - 1 {
                assert(spans[i].1 <= spans[j - 1].0);
            }
        }
        let glue = if cursor < from {
            seq![Piece::Kept(s.subrange(cursor, from))]
        } else {
            Seq::<Piece>::empty()
        };
        let summary = run_summary((j - i) as nat, noun);
        let region = Piece::Offloaded { original: s.subrange(from, to), summary };
        let rest = pieces_from(s, spans, kept, noun, j, to);
        // What is shown of the pieces up to the end of the run.
        let mark = 23 + digit_total((j - i) as nat) + noun.len();
        lemma_sentinel_len(s.subrange(from, to), (j - i) as nat, noun);
        lemma_digit_total((j - i) as nat);
        lemma_digit_total_grows((j - i) as nat, spans.len());
        lemma_chars_between(s, cursor, from);
        reveal_with_fuel(rendered, 3);
        let shown_part = tiled(glue.push(region));
        assert(shown_part.drop_last() =~= tiled(glue));
        assert(shown_part.last() == piece_segment(region));
        if cursor < from {
            assert(tiled(glue).drop_last() =~= Seq::empty());
            assert(tiled(glue).last() == piece_segment(glue[0]));
            assert(rendered(tiled(glue)).len() == chars_in(s, cursor, from));
        } else {
            assert(tiled(glue) =~= Seq::empty());
        }
        assert(rendered(shown_part).len() == chars_before(s, from) - chars_before(s, cursor)
            + mark);
        assert(tiled(glue.push(region) + rest) =~= shown_part + tiled(rest));
        lemma_rendered_concat(shown_part, tiled(rest));
        // The model's step.
        lemma_run_sum(s, spans, i, j);
        lemma_chars_before_grow(s, from, to);
        lemma_chars_before_grow(s, to, n);
        lemma_chars_before_grow(s, cursor, from);
        let total = before + chars_before(s, n) - chars_before(s, cursor);
        let next_before = before + chars_before(s, from) - chars_before(s, cursor) + mark;
        assert((spans.len() - i) * bound >= (spans.len() - j) * bound + bound)
            by (nonlinear_arith)
            requires
                bound >= 0,
                j >= i + 1,
                spans.len() >= j,
        ;
        assert((spans.len() - j) * bound >= 0) by (nonlinear_arith)
            requires
                bound >= 0,
                spans.len() >= j,
        ;
        lemma_model_from(s, spans, kept, noun, j, to, next_before);
    }
}

/// The model counts the rendering: for valid UTF-8 with units at boundaries
/// between characters, and a one-byte-per-character noun, it gives the exact
/// number of characters that the model would see, as long as that is within
/// the machine's integers.
pub proof fn law_model_counts_the_rendering(
    input: Seq<u8>,
    spans: Seq<(int, int)>,
    candidates: Seq<usize>,
    m: nat,
    noun: Seq<char>,
)
    requires
        valid_utf8(input),
        ordered(spans, input.len() as int),
        on_boundaries(input, spans),
        spans.len() > 0,
        decode_utf8(input).len() + spans.len() * sentinel_bound(spans, noun) <= usize::MAX,
    ensures
        model_chars(input, spans, candidates, m, noun.len()) == rendered(
            tiled(window_pieces(input, spans, candidates, m, noun)),
        ).len(),
{
    let n = input.len() as int;
    let count = spans.len() as int;
    let kept = window_mask(spans.len(), candidates, m);
    vstd::utf8::is_char_boundary_start_end_of_seq(input);
    assert(input.subrange(0, n) =~= input);
    assert(input.subrange(0, 0) =~= Seq::empty());
    assert(decode_utf8(Seq::<u8>::empty()).len() == 0);
    lemma_digit_total(spans.len());
    assert(spans.len() * sentinel_bound(spans, noun) >= 0) by (nonlinear_arith)
        requires
            sentinel_bound(spans, noun) >= 0,
    ;
    // The sum over everything is the number of characters of the input.
    lemma_sums(input, spans, count);
    lemma_chars_between(input, 0, spans[0].0);
    lemma_chars_between(input, spans[count - 1].1, n);
    lemma_chars_before_grow(input, spans[0].0, n);
    assert(spans[0].0 <= spans[count - 1].1) by {
        if count > 1 {
            assert(spans[0].1 <= spans[count - 1].0);
        }
    }
    lemma_chars_before_grow(input, spans[0].0, spans[count - 1].1);
    lemma_chars_before_grow(input, spans[count - 1].1, n);
    assert(all_sum(input, spans) == chars_before(input, n));
    lemma_model_from(input, spans, kept, noun, 0, 0, 0);
    if pieces_from(input, spans, kept, noun, 0, 0).len() == 0 {
        reveal_with_fuel(rendered, 2);
        lemma_pieces_from_tile(input, spans, kept, noun, 0, 0);
        assert(input.skip(0) =~= input);
        let one = seq![Piece::Kept(input)];
        assert(tiled(one).drop_last() =~= Seq::empty());
        assert(tiled(pieces_from(input, spans, kept, noun, 0, 0)) =~= Seq::empty());
        assert(rendered(tiled(one)).len() == decode_utf8(input).len());
    }
}

} // verus!
