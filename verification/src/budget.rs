//! Compression toward a token budget: whole units are offloaded until what the
//! model sees fits, with a head-and-tail window of the others kept.
use crate::cas::Cas;
use crate::charmodel::{
    law_elements_stand_on_boundaries, law_lines_stand_on_boundaries,
    law_model_counts_the_rendering, model_chars, on_boundaries, sentinel_bound, CharModel,
};
use crate::compress::{
    lemma_one_piece, offload_any_pieces, offload_pieces, offload_whole, offload_whole_any_min,
    summary_of, verbatim, MIN_COMPRESS_BYTES,
};
use crate::curve::{
    law_larger_window_is_no_shorter, law_lines_are_not_empty, lemma_rendered_len, no_empty,
};
use crate::detect::{content_type, detect, ContentType};
use crate::doc::{rebuilt, rendered, CompressedDoc, Fault, SegmentView};
use crate::emit::{law_keeping_all_keeps_the_input, law_pieces_tile, pieces};
use crate::hash::content_key;
use crate::reduction::{apply_reduction, not_positive, reduced};
use crate::tiling::{
    collision_free, law_round_trip, regions, stored_all, tiled, whole, Piece,
};
use crate::tokens::{HeuristicCounter, TokenCounter};
use crate::units::{
    dedup_mask, dedup_survivor_mask, elements, law_elements_are_ordered, law_lines_tile,
    law_units_are_ordered, line_spans, ordered, scan_log_lines, scan_top_level_array_elements,
    spans, unit_noun, unit_spans,
};
use crate::utf8::{lossy_text, strict_text, utf8_lossy};
use crate::window::{
    build_keep_window_over, increasing, render_keep_window_for_count, window_mask, window_pieces,
};
use std::ops::Range;
use vstd::prelude::*;
use vstd::utf8::{decode_utf8, encode_utf8, valid_utf8};

verus! {

/// The target of a compression.
#[derive(Clone, Copy, Debug, PartialEq, Eq, Structural)]
pub enum Budget {
    /// At most this many tokens, where that can be reached.
    Tokens(usize),
    /// A fractional reduction of what the raw input takes, by the bits of a
    /// single-precision number: 0 leaves the input as it is, 0.8 takes 80% off.
    Reduction(u32),
    /// As much as can safely be offloaded.
    MaxReduction,
}

// ---------------------------------------------------------------------------
// The search for the largest window that fits
// ---------------------------------------------------------------------------

/// One window after another for one input: how many tokens each takes.
pub struct Probe<'a, K: TokenCounter> {
    /// The input.
    pub input: &'a [u8],
    /// Its units.
    pub units: &'a [Range<usize>],
    /// The units that may be kept.
    pub candidates: &'a [usize],
    /// What the units are called.
    pub noun: &'a str,
    /// The character sums of the input.
    pub model: &'a CharModel,
    /// The token counter.
    pub counter: &'a K,
    /// The character sums give the tokens: the counter looks at nothing but the
    /// number of characters, and the input is UTF-8.
    pub analytic: bool,
}

/// The tokens of the window that keeps `m` candidates: from the number of
/// characters, if the counter goes by it and the input is UTF-8, else from the
/// rendering.
pub open spec fn window_tokens<K: TokenCounter>(
    input: Seq<u8>,
    spans: Seq<(int, int)>,
    candidates: Seq<usize>,
    noun: Seq<char>,
    counter: &K,
    m: nat,
) -> nat {
    let chars = model_chars(input, spans, candidates, m, encode_utf8(noun).len());
    if valid_utf8(input) && counter.char_tokens(0) is Some && counter.char_tokens(
        chars as nat,
    ) is Some {
        counter.char_tokens(chars as nat)->0
    } else {
        counter.tokens(rendered(tiled(window_pieces(input, spans, candidates, m, noun))))
    }
}

/// The tokens of each window.
pub open spec fn token_curve<K: TokenCounter>(
    input: Seq<u8>,
    spans: Seq<(int, int)>,
    candidates: Seq<usize>,
    noun: Seq<char>,
    counter: &K,
) -> spec_fn(int) -> nat {
    |m: int| window_tokens(input, spans, candidates, noun, counter, m as nat)
}

impl<'a, K: TokenCounter> Probe<'a, K> {
    /// The parts fit together.
    pub open spec fn valid(&self) -> bool {
        &&& ordered(spans(self.units@), self.input@.len() as int)
        &&& increasing(self.candidates@, self.units@.len() as int)
        &&& self.model.input() == self.input@
        &&& self.model.spans() == spans(self.units@)
        &&& self.model.noun_size() == encode_utf8(self.noun@).len()
        &&& self.analytic == (valid_utf8(self.input@) && self.counter.char_tokens(0) is Some)
    }

    /// The tokens of each window.
    pub open spec fn curve(&self) -> spec_fn(int) -> nat {
        token_curve(
            self.input@,
            spans(self.units@),
            self.candidates@,
            self.noun@,
            self.counter,
        )
    }

    /// The characters of the window that keeps `m` candidates.
    pub open spec fn char_curve(&self, m: int) -> int {
        model_chars(
            self.input@,
            spans(self.units@),
            self.candidates@,
            m as nat,
            encode_utf8(self.noun@).len(),
        )
    }

    fn chars(&self, m: usize) -> (n: usize)
        requires
            self.valid(),
        ensures
            n == self.char_curve(m as int),
    {
        self.model.render_chars(self.candidates, m)
    }

    fn tokens(&self, m: usize) -> (n: usize)
        requires
            self.valid(),
        ensures
            n == self.curve()(m as int),
    {
        if self.analytic {
            let chars = self.chars(m);
            if let Some(tokens) = self.counter.count_for_char_count(chars) {
                return tokens;
            }
        }
        let text = render_keep_window_for_count(
            self.input,
            self.units,
            self.candidates,
            m,
            self.noun,
        );
        self.counter.count(text.as_str())
    }
}

/// `m` is where the curve crosses the target: it fits itself, if it is not 0,
/// and the next one does not. Where all `n` fit, `n` is the answer; where not even
/// 0 fits, 0 is.
pub open spec fn crossing(m: int, n: int, target: int, curve: spec_fn(int) -> nat) -> bool {
    &&& 0 <= m <= n
    &&& curve(n) <= target ==> m == n
    &&& m > 0 ==> curve(m) <= target
    &&& m < n ==> curve(m + 1) > target || (m == 0 && curve(0) > target)
}

/// The curve never falls up to `n`.
pub open spec fn rising(n: int, curve: spec_fn(int) -> nat) -> bool {
    forall|a: int, b: int|
        0 <= a <= b <= n ==> #[trigger] curve(a) <= #[trigger] curve(b)
}

/// On a curve that never falls, but for its last step, the crossing is the
/// largest window that fits: all larger ones do not. With the last step the
/// sentinel goes, so that a curve over short units may fall there.
pub proof fn law_crossing_is_largest_fit(
    m: int,
    n: int,
    target: int,
    curve: spec_fn(int) -> nat,
    k: int,
)
    requires
        crossing(m, n, target, curve),
        rising(n - 1, curve),
        m < k <= n,
    ensures
        curve(k) > target,
{
    if k < n {
        assert(curve(m + 1) <= curve(k));
        if m == 0 {
            assert(curve(0) <= curve(k));
        }
    }
}

/// On a curve that never falls, but for its last step, there is one crossing
/// only, so that any two searches agree.
pub proof fn law_searches_agree(
    a: int,
    b: int,
    n: int,
    target: int,
    curve: spec_fn(int) -> nat,
)
    requires
        crossing(a, n, target, curve),
        crossing(b, n, target, curve),
        rising(n - 1, curve),
    ensures
        a == b,
{
    if a < b {
        law_crossing_is_largest_fit(a, n, target, curve, b);
    }
    if b < a {
        law_crossing_is_largest_fit(b, n, target, curve, a);
    }
}

/// On a curve that never falls, but for its last step, a larger target keeps at
/// least as much.
pub proof fn law_larger_target_keeps_more(
    a: int,
    b: int,
    n: int,
    small: int,
    large: int,
    curve: spec_fn(int) -> nat,
)
    requires
        crossing(a, n, small, curve),
        crossing(b, n, large, curve),
        rising(n - 1, curve),
        small <= large,
    ensures
        a <= b,
{
    if b < a {
        law_crossing_is_largest_fit(b, n, large, curve, a);
    }
}

/// The largest window that fits: all, if that fits, else by bisection.
pub fn search_keep_count_bisection<K: TokenCounter>(n: usize, target: usize, probe: &Probe<K>) -> (best: usize)
    requires
        probe.valid(),
    ensures
        crossing(best as int, n as int, target as int, probe.curve()),
{
    if probe.tokens(n) <= target {
        return n;
    }
    if n == 0 {
        return 0;
    }
    let mut lo: usize = 0;
    let mut hi: usize = n - 1;
    let mut best: usize = 0;
    while lo <= hi
        invariant_except_break
            lo <= hi + 1,
            hi < n,
            probe.valid(),
            probe.curve()(n as int) > target,
            best == 0 && lo == 0 || best + 1 == lo && probe.curve()(best as int) <= target,
            probe.curve()(hi + 1) > target,
        ensures
            crossing(best as int, n as int, target as int, probe.curve()),
        decreases hi + 1 - lo,
    {
        let mid: usize = lo + (hi - lo) / 2;
        if probe.tokens(mid) <= target {
            best = mid;
            if mid == hi {
                break ;
            }
            lo = mid + 1;
        } else if mid == 0 {
            break ;
        } else {
            hi = mid - 1;
        }
    }
    best
}

/// The largest index between `lo` and `hi` whose character count is at most
/// `v`, for a character curve that never falls; `lo` if there is none.
fn largest_index_with_value_le<K: TokenCounter>(lo: usize, hi: usize, v: usize, probe: &Probe<K>) -> (best: usize)
    requires
        probe.valid(),
        lo <= hi,
    ensures
        lo <= best <= hi,
        best > lo ==> probe.char_curve(best as int) <= v,
        best < hi ==> probe.char_curve(best + 1) > v || (best == lo && probe.char_curve(lo as int)
            > v),
{
    let mut a: usize = lo;
    let mut b: usize = hi;
    let mut best: usize = lo;
    while a <= b
        invariant_except_break
            lo <= a <= b + 1,
            b <= hi,
            lo <= best <= hi,
            probe.valid(),
            best == lo && a == lo || best + 1 == a && probe.char_curve(best as int) <= v,
            b == hi || probe.char_curve(b + 1) > v,
        ensures
            lo <= best <= hi,
            best > lo ==> probe.char_curve(best as int) <= v,
            best < hi ==> probe.char_curve(best + 1) > v || (best == lo && probe.char_curve(
                lo as int,
            ) > v),
        decreases b + 1 - a,
    {
        let mid: usize = a + (b - a) / 2;
        if probe.chars(mid) <= v {
            best = mid;
            if mid == b {
                break ;
            }
            a = mid + 1;
        } else if mid == lo {
            break ;
        } else {
            b = mid - 1;
        }
    }
    best
}

/// The number of characters at which the target is foretold to be reached: by
/// the ratio of characters to tokens of a sample, rounded down, or by four to one
/// where there is no sample or it takes no tokens; the largest machine integer
/// where the number is larger.
pub open spec fn foretold(target: nat, sample: Option<(usize, usize)>) -> nat {
    let chars = match sample {
        Some((cs, ts)) => if ts > 0 {
            (cs as nat * target) / (ts as nat)
        } else {
            target * 4
        },
        None => target * 4,
    };
    if chars <= usize::MAX {
        chars
    } else {
        usize::MAX as nat
    }
}

/// The number of characters at which the target is foretold to be reached: by
/// the last probe's ratio of characters to tokens, else by four to one.
fn foretold_chars(target: usize, sample: Option<(usize, usize)>) -> (chars: usize)
    ensures
        chars == foretold(target as nat, sample),
{
    match sample {
        Some((cs, ts)) if ts > 0 => {
            proof {
                assert(cs * target <= 0xffff_ffff_ffff_ffff * 0xffff_ffff_ffff_ffff)
                    by (nonlinear_arith)
                    requires
                        0 <= cs <= 0xffff_ffff_ffff_ffff,
                        0 <= target <= 0xffff_ffff_ffff_ffff,
                ;
            }
            let scaled: u128 = cs as u128 * target as u128 / ts as u128;
            if scaled > usize::MAX as u128 {
                usize::MAX
            } else {
                scaled as usize
            }
        },
        _ => if target > usize::MAX / 4 {
            usize::MAX
        } else {
            target * 4
        },
    }
}

/// A search for the largest window that fits which, where not all fits, places
/// its probes by the character curve, so that fewer renderings are counted. Only
/// the probes' places differ from those of the bisection.
pub fn search_keep_count_interpolated<K: TokenCounter>(n: usize, target: usize, probe: &Probe<K>) -> (best: usize)
    requires
        probe.valid(),
    ensures
        crossing(best as int, n as int, target as int, probe.curve()),
{
    if probe.tokens(n) <= target {
        return n;
    }
    if n == 0 {
        return 0;
    }
    let mut lo: usize = 0;
    let mut hi: usize = n - 1;
    let mut best: usize = 0;
    let mut sample: Option<(usize, usize)> = None;
    while lo <= hi
        invariant_except_break
            lo <= hi + 1,
            hi < n,
            probe.valid(),
            probe.curve()(n as int) > target,
            best == 0 && lo == 0 || best + 1 == lo && probe.curve()(best as int) <= target,
            probe.curve()(hi + 1) > target,
        ensures
            crossing(best as int, n as int, target as int, probe.curve()),
        decreases hi + 1 - lo,
    {
        let mid: usize = lo + (hi - lo) / 2;
        let c_star = foretold_chars(target, sample);
        let guess = largest_index_with_value_le(lo, hi, c_star, probe);
        let at: usize = if guess > lo && guess < hi {
            guess
        } else {
            mid
        };
        let t = probe.tokens(at);
        sample = Some((probe.chars(at), t));
        if t <= target {
            best = at;
            if at == hi {
                break ;
            }
            lo = at + 1;
        } else if at == 0 {
            break ;
        } else {
            hi = at - 1;
        }
    }
    best
}

// ---------------------------------------------------------------------------
// The candidates
// ---------------------------------------------------------------------------

/// The numbers of the units that are marked.
pub open spec fn marked(mask: Seq<bool>) -> Seq<usize>
    decreases mask.len(),
{
    if mask.len() == 0 {
        Seq::empty()
    } else if mask.last() {
        marked(mask.drop_last()).push((mask.len() - 1) as usize)
    } else {
        marked(mask.drop_last())
    }
}

/// The numbers below `n`.
pub open spec fn all_below(n: nat) -> Seq<usize> {
    Seq::new(n, |i: int| i as usize)
}

pub proof fn lemma_marked_increasing(mask: Seq<bool>)
    requires
        mask.len() <= usize::MAX,
    ensures
        increasing(marked(mask), mask.len() as int),
    decreases mask.len(),
{
    if mask.len() > 0 {
        lemma_marked_increasing(mask.drop_last());
    }
}

fn marked_of(mask: &[bool]) -> (out: Vec<usize>)
    ensures
        out@ == marked(mask@),
        increasing(out@, mask@.len() as int),
{
    let mut out: Vec<usize> = Vec::new();
    let mut i: usize = 0;
    while i < mask.len()
        invariant
            i <= mask@.len(),
            out@ == marked(mask@.take(i as int)),
        decreases mask@.len() - i,
    {
        assert(mask@.take(i as int + 1).drop_last() =~= mask@.take(i as int));
        if mask[i] {
            out.push(i);
        }
        i += 1;
    }
    assert(mask@.take(i as int) =~= mask@);
    proof {
        lemma_marked_increasing(mask@);
    }
    out
}

fn all_below_of(n: usize) -> (out: Vec<usize>)
    ensures
        out@ == all_below(n as nat),
        increasing(out@, n as int),
{
    let mut out: Vec<usize> = Vec::new();
    let mut i: usize = 0;
    while i < n
        invariant
            i <= n,
            out@.len() == i,
            forall|k: int| 0 <= k < i ==> out@[k] == k,
        decreases n - i,
    {
        out.push(i);
        i += 1;
    }
    assert(out@ =~= all_below(n as nat));
    out
}

// ---------------------------------------------------------------------------
// Compression
// ---------------------------------------------------------------------------

/// The units that the window of an input may keep: every element of an array; of
/// a log, the lines that differ from the line before.
pub open spec fn candidates_of(input: Seq<u8>) -> Seq<usize> {
    match content_type(input) {
        ContentType::Json => all_below(unit_spans(input).len()),
        _ => marked(dedup_mask(input, unit_spans(input))),
    }
}

/// The pieces are those of a window that crosses the target.
pub open spec fn window_fits<K: TokenCounter>(
    input: Seq<u8>,
    spans: Seq<(int, int)>,
    candidates: Seq<usize>,
    noun: Seq<char>,
    target: nat,
    counter: &K,
    found: Seq<Piece>,
) -> bool {
    exists|m: int|
        #![trigger window_pieces(input, spans, candidates, m as nat, noun)]
        crossing(
            m,
            candidates.len() as int,
            target as int,
            token_curve(input, spans, candidates, noun, counter),
        ) && found == window_pieces(input, spans, candidates, m as nat, noun)
}

/// The pieces of an input that is no text and has the given token target.
pub open spec fn target_pieces<K: TokenCounter>(
    input: Seq<u8>,
    target: nat,
    counter: &K,
    found: Seq<Piece>,
) -> bool {
    match content_type(input) {
        ContentType::Json => match elements(input) {
            Some(at) if at.len() > 0 => window_fits(
                input,
                at,
                all_below(at.len()),
                "items"@,
                target,
                counter,
                found,
            ),
            _ => found == (if counter.tokens(utf8_lossy(input)) <= target {
                seq![Piece::Kept(input)]
            } else {
                offload_any_pieces(input, 0)
            }),
        },
        ContentType::Log => {
            let at = line_spans(input, 0);
            if at.len() == 0 {
                found == seq![Piece::Kept(input)]
            } else {
                window_fits(
                    input,
                    at,
                    marked(dedup_mask(input, at)),
                    "lines"@,
                    target,
                    counter,
                    found,
                )
            }
        },
        ContentType::Text => found == seq![Piece::Kept(input)],
    }
}

/// `found` are the pieces that a compression of `input` toward `budget` may
/// give. There are no others for a counter whose curve never falls, but for its
/// last step.
pub open spec fn budget_pieces<K: TokenCounter>(
    input: Seq<u8>,
    budget: Budget,
    counter: &K,
    found: Seq<Piece>,
) -> bool {
    match budget {
        Budget::MaxReduction => found == offload_pieces(input, MIN_COMPRESS_BYTES as nat),
        Budget::Tokens(target) => target_pieces(input, target as nat, counter, found),
        Budget::Reduction(bits) => {
            let raw = counter.tokens(utf8_lossy(input));
            if not_positive(bits) || content_type(input) == ContentType::Text || reduced(raw, bits)
                >= raw {
                found == seq![Piece::Kept(input)]
            } else {
                target_pieces(input, reduced(raw, bits), counter, found)
            }
        },
    }
}

/// Passes the input through if it fits, else offloads the whole of it, however
/// small it is.
fn whole_or_passthrough_to_budget<C: Cas, K: TokenCounter>(
    input: &[u8],
    cas: &mut C,
    target: usize,
    counter: &K,
) -> (doc: CompressedDoc)
    ensures
        ({
            let found = if counter.tokens(utf8_lossy(input@)) <= target {
                seq![Piece::Kept(input@)]
            } else {
                offload_any_pieces(input@, 0)
            };
            &&& doc@ == tiled(found)
            &&& final(cas).objects() == stored_all(old(cas).objects(), regions(found))
        }),
{
    let text = lossy_text(input);
    let raw = counter.count(text.as_str());
    if raw <= target {
        proof {
            lemma_one_piece(Piece::Kept(input@));
        }
        verbatim(input)
    } else {
        offload_whole_any_min(input, cas, 0)
    }
}

/// Keeps the largest window of the candidates that fits the target.
fn window_to_budget<C: Cas, K: TokenCounter>(
    input: &[u8],
    units: &[Range<usize>],
    candidates: &[usize],
    noun: &str,
    cas: &mut C,
    target: usize,
    counter: &K,
) -> (doc: CompressedDoc)
    requires
        ordered(spans(units@), input@.len() as int),
        increasing(candidates@, units@.len() as int),
    ensures
        exists|found: Seq<Piece>|
            #![trigger tiled(found)]
            window_fits(
                input@,
                spans(units@),
                candidates@,
                noun@,
                target as nat,
                counter,
                found,
            ) && doc@ == tiled(found) && final(cas).objects() == stored_all(
                old(cas).objects(),
                regions(found),
            ),
{
    let n: usize = candidates.len();
    let model = CharModel::new(input, units, noun);
    let analytic = counter.count_for_char_count(0).is_some() && strict_text(input).is_some();
    let probe = Probe { input, units, candidates, noun, model: &model, counter, analytic };
    let best: usize = if analytic {
        search_keep_count_bisection(n, target, &probe)
    } else {
        search_keep_count_interpolated(n, target, &probe)
    };
    let doc = build_keep_window_over(input, units, candidates, best, noun, cas);
    proof {
        let found = window_pieces(input@, spans(units@), candidates@, best as nat, noun@);
        assert(window_pieces(
            input@,
            spans(units@),
            candidates@,
            (best as int) as nat,
            noun@,
        ) == found);
        assert(window_fits(
            input@,
            spans(units@),
            candidates@,
            noun@,
            target as nat,
            counter,
            found,
        ));
        assert(doc@ == tiled(found));
    }
    doc
}

/// The pieces of an input that is no text, toward a token target.
fn compress_to_target<C: Cas, K: TokenCounter>(
    input: &[u8],
    content: ContentType,
    cas: &mut C,
    target: usize,
    counter: &K,
) -> (doc: CompressedDoc)
    requires
        content == content_type(input@),
    ensures
        exists|found: Seq<Piece>|
            #![trigger tiled(found)]
            target_pieces(input@, target as nat, counter, found) && doc@ == tiled(found)
                && final(cas).objects() == stored_all(old(cas).objects(), regions(found)),
{
    match content {
        ContentType::Json => {
            match scan_top_level_array_elements(input) {
                Some(units) => {
                    if units.len() > 0 {
                        proof {
                            law_elements_are_ordered(input@);
                        }
                        let candidates = all_below_of(units.len());
                        return window_to_budget(
                            input,
                            units.as_slice(),
                            candidates.as_slice(),
                            "items",
                            cas,
                            target,
                            counter,
                        );
                    }
                },
                None => {},
            }
            whole_or_passthrough_to_budget(input, cas, target, counter)
        },
        ContentType::Log => {
            let units = scan_log_lines(input);
            if units.len() == 0 {
                proof {
                    lemma_one_piece(Piece::Kept(input@));
                }
                return verbatim(input);
            }
            proof {
                law_lines_tile(input@);
            }
            let mask = dedup_survivor_mask(input, units.as_slice());
            let candidates = marked_of(mask.as_slice());
            window_to_budget(
                input,
                units.as_slice(),
                candidates.as_slice(),
                "lines",
                cas,
                target,
                counter,
            )
        },
        ContentType::Text => {
            proof {
                lemma_one_piece(Piece::Kept(input@));
            }
            verbatim(input)
        },
    }
}

/// Compresses `input` toward `budget`: a head-and-tail window of whole array
/// elements or log lines is kept, as large as the budget lets it be; of a log,
/// only lines that differ from the line before can be kept.
pub fn compress_to_budget<C: Cas, K: TokenCounter>(
    input: &[u8],
    cas: &mut C,
    budget: Budget,
    counter: &K,
) -> (doc: CompressedDoc)
    ensures
        exists|found: Seq<Piece>|
            #![trigger tiled(found)]
            budget_pieces(input@, budget, counter, found) && doc@ == tiled(found)
                && final(cas).objects() == stored_all(old(cas).objects(), regions(found)),
{
    proof {
        lemma_one_piece(Piece::Kept(input@));
    }
    match budget {
        Budget::MaxReduction => {
            return offload_whole(input, cas);
        },
        Budget::Reduction(bits) => {
            if bits == 0 || bits > 0x7f80_0000 {
                return verbatim(input);
            }
        },
        Budget::Tokens(_) => {},
    }
    let content = detect(input);
    if content == ContentType::Text {
        return verbatim(input);
    }
    let target: usize = match budget {
        Budget::Tokens(t) => t,
        Budget::Reduction(bits) => {
            let text = lossy_text(input);
            let raw = counter.count(text.as_str());
            let target = apply_reduction(raw, bits);
            if target >= raw {
                return verbatim(input);
            }
            target
        },
        Budget::MaxReduction => 0,
    };
    compress_to_target(input, content, cas, target, counter)
}

/// Budgeted compression tiles the input: whatever pieces it gives make up
/// exactly the input.
pub proof fn law_budget_pieces_tile<K: TokenCounter>(
    input: Seq<u8>,
    budget: Budget,
    counter: &K,
    found: Seq<Piece>,
)
    requires
        input.len() <= usize::MAX,
        budget_pieces(input, budget, counter, found),
    ensures
        whole(found) == input,
{
    lemma_one_piece(Piece::Kept(input));
    lemma_one_piece(
        Piece::Offloaded { original: input, summary: crate::compress::summary_of(input) },
    );
    if found != seq![Piece::Kept(input)] && found != offload_pieces(
        input,
        MIN_COMPRESS_BYTES as nat,
    ) && found != offload_any_pieces(input, 0) {
        match content_type(input) {
            ContentType::Json => {
                law_elements_are_ordered(input);
                let at = elements(input)->0;
                let m = choose|m: int|
                    #![trigger window_pieces(input, at, all_below(at.len()), m as nat, "items"@)]
                    found == window_pieces(input, at, all_below(at.len()), m as nat, "items"@);
                law_pieces_tile(
                    input,
                    at,
                    window_mask(at.len(), all_below(at.len()), m as nat),
                    "items"@,
                );
            },
            ContentType::Log => {
                law_lines_tile(input);
                let at = line_spans(input, 0);
                let lines = marked(dedup_mask(input, at));
                let m = choose|m: int|
                    #![trigger window_pieces(input, at, lines, m as nat, "lines"@)]
                    found == window_pieces(input, at, lines, m as nat, "lines"@);
                law_pieces_tile(
                    input,
                    at,
                    window_mask(at.len(), lines, m as nat),
                    "lines"@,
                );
            },
            ContentType::Text => {},
        }
    }
}

/// Budgeted compression is reversible at every budget and for every counter.
pub proof fn law_budget_is_reversible<K: TokenCounter>(
    input: Seq<u8>,
    budget: Budget,
    counter: &K,
    found: Seq<Piece>,
    objects: Map<Seq<char>, Seq<u8>>,
    later: Seq<Seq<u8>>,
)
    requires
        input.len() <= usize::MAX,
        budget_pieces(input, budget, counter, found),
        collision_free(objects, regions(found)),
    ensures
        rebuilt(
            tiled(found),
            stored_all(stored_all(objects, regions(found)), later),
        ) == Ok::<Seq<u8>, Fault>(input),
{
    law_budget_pieces_tile(input, budget, counter, found);
    law_round_trip(found, objects, later);
}

/// The budget is met: the window that is kept takes no more tokens than the
/// target, unless the target is below the floor, where nothing is kept and the
/// window takes what the floor takes.
pub proof fn law_window_meets_target<K: TokenCounter>(
    input: Seq<u8>,
    spans: Seq<(int, int)>,
    candidates: Seq<usize>,
    noun: Seq<char>,
    target: nat,
    counter: &K,
    found: Seq<Piece>,
)
    requires
        window_fits(input, spans, candidates, noun, target, counter, found),
    ensures
        exists|m: nat|
            #![trigger window_pieces(input, spans, candidates, m, noun)]
            m <= candidates.len() && found == window_pieces(input, spans, candidates, m, noun) && (
            window_tokens(input, spans, candidates, noun, counter, m) <= target || (m == 0
                && window_tokens(input, spans, candidates, noun, counter, 0) > target)),
{
    let curve = token_curve(input, spans, candidates, noun, counter);
    let m = choose|m: int|
        #![trigger window_pieces(input, spans, candidates, m as nat, noun)]
        crossing(m, candidates.len() as int, target as int, curve) && found == window_pieces(
            input,
            spans,
            candidates,
            m as nat,
            noun,
        );
    assert(found == window_pieces(input, spans, candidates, m as nat, noun));
    assert(curve(m) == window_tokens(input, spans, candidates, noun, counter, m as nat));
}

/// A counter that goes by the number of characters counts every text by it.
pub open spec fn counts_by_chars<K: TokenCounter>(counter: &K) -> bool {
    forall|text: Seq<char>|
        #![trigger counter.tokens(text)]
        counter.char_tokens(text.len()) is Some ==> counter.char_tokens(text.len()) == Some(
            counter.tokens(text),
        )
}

/// The tokens of every window are those of its rendering: the input is not UTF-8,
/// or the counter looks at the text itself, or it goes by the number of
/// characters, and that is within the machine's integers.
pub open spec fn counted_exactly<K: TokenCounter>(
    input: Seq<u8>,
    spans: Seq<(int, int)>,
    noun: Seq<char>,
    counter: &K,
) -> bool {
    valid_utf8(input) && counter.char_tokens(0) is Some ==> {
        &&& counts_by_chars(counter)
        &&& decode_utf8(input).len() + spans.len() * sentinel_bound(spans, noun) <= usize::MAX
    }
}

/// The counter that takes a token for every four characters counts by them.
pub proof fn law_heuristic_counts_by_chars()
    ensures
        counts_by_chars(&HeuristicCounter),
{
}

proof fn lemma_window_tokens<K: TokenCounter>(
    input: Seq<u8>,
    spans: Seq<(int, int)>,
    candidates: Seq<usize>,
    noun: Seq<char>,
    counter: &K,
    m: nat,
)
    requires
        ordered(spans, input.len() as int),
        valid_utf8(input) ==> on_boundaries(input, spans),
        spans.len() > 0,
        encode_utf8(noun).len() == noun.len(),
        counted_exactly(input, spans, noun, counter),
    ensures
        window_tokens(input, spans, candidates, noun, counter, m) == counter.tokens(
            rendered(tiled(window_pieces(input, spans, candidates, m, noun))),
        ),
{
    if valid_utf8(input) && counter.char_tokens(0) is Some {
        law_model_counts_the_rendering(input, spans, candidates, m, noun);
    }
}

/// The budget is met by what the model sees: of an array or a log with units, a
/// compression toward a token target is rendered in no more tokens than the
/// target, or it keeps no unit at all, because the target is below that floor.
pub proof fn law_rendering_meets_target<K: TokenCounter>(
    input: Seq<u8>,
    target: usize,
    counter: &K,
    found: Seq<Piece>,
)
    requires
        budget_pieces(input, Budget::Tokens(target), counter, found),
        unit_spans(input).len() > 0,
        counted_exactly(input, unit_spans(input), unit_noun(input), counter),
    ensures
        counter.tokens(rendered(tiled(found))) <= target || found == pieces(
            input,
            unit_spans(input),
            Seq::new(unit_spans(input).len(), |i: int| false),
            unit_noun(input),
        ),
{
    let at = unit_spans(input);
    let noun = unit_noun(input);
    law_units_are_ordered(input);
    let candidates = candidates_of(input);
    law_window_meets_target(input, at, candidates, noun, target as nat, counter, found);
    let m = choose|m: nat|
        #![trigger window_pieces(input, at, candidates, m, noun)]
        m <= candidates.len() && found == window_pieces(input, at, candidates, m, noun) && (
        window_tokens(input, at, candidates, noun, counter, m) <= target || (m == 0
            && window_tokens(input, at, candidates, noun, counter, 0) > target));
    reveal_strlit("items");
    reveal_strlit("lines");
    vstd::utf8::is_ascii_chars_encode_utf8(noun);
    if valid_utf8(input) {
        if content_type(input) == ContentType::Json {
            law_elements_stand_on_boundaries(input);
        } else {
            law_lines_stand_on_boundaries(input);
        }
    }
    lemma_window_tokens(input, at, candidates, noun, counter, m);
    if m == 0 {
        assert(window_mask(at.len(), candidates, 0) =~= Seq::new(at.len(), |i: int| false));
    }
}

/// A target at or above the floor is met: the floor is what the input is
/// rendered in with a target of 0, where that is anything at all.
pub proof fn law_target_above_the_floor_is_met<K: TokenCounter>(
    input: Seq<u8>,
    target: usize,
    counter: &K,
    least: Seq<Piece>,
    found: Seq<Piece>,
)
    requires
        budget_pieces(input, Budget::Tokens(0), counter, least),
        budget_pieces(input, Budget::Tokens(target), counter, found),
        unit_spans(input).len() > 0,
        counted_exactly(input, unit_spans(input), unit_noun(input), counter),
        0 < counter.tokens(rendered(tiled(least))) <= target,
    ensures
        counter.tokens(rendered(tiled(found))) <= target,
{
    law_rendering_meets_target(input, 0, counter, least);
    law_rendering_meets_target(input, target, counter, found);
}

/// An array that fits as it is stays as it is: nothing of it is offloaded.
pub proof fn law_array_that_fits_is_kept<K: TokenCounter>(
    input: Seq<u8>,
    target: usize,
    counter: &K,
    found: Seq<Piece>,
)
    requires
        budget_pieces(input, Budget::Tokens(target), counter, found),
        content_type(input) == ContentType::Json,
        unit_spans(input).len() > 0,
        counted_exactly(input, unit_spans(input), unit_noun(input), counter),
        counter.tokens(utf8_lossy(input)) <= target,
    ensures
        found == seq![Piece::Kept(input)],
{
    let at = unit_spans(input);
    let noun = unit_noun(input);
    let candidates = all_below(at.len());
    let curve = token_curve(input, at, candidates, noun, counter);
    law_units_are_ordered(input);
    reveal_strlit("items");
    vstd::utf8::is_ascii_chars_encode_utf8(noun);
    if valid_utf8(input) {
        law_elements_stand_on_boundaries(input);
    }
    let all = window_mask(at.len(), candidates, at.len());
    assert forall|i: int| 0 <= i < all.len() implies #[trigger] all[i] by {
        assert(candidates[i] == i as usize);
    }
    law_keeping_all_keeps_the_input(input, at, all, noun);
    lemma_window_tokens(input, at, candidates, noun, counter, at.len());
    let m = choose|m: int|
        #![trigger window_pieces(input, at, candidates, m as nat, noun)]
        crossing(m, at.len() as int, target as int, curve) && found == window_pieces(
            input,
            at,
            candidates,
            m as nat,
            noun,
        );
    let one = tiled(seq![Piece::Kept(input)]);
    assert(one.drop_last() =~= Seq::empty());
    assert(rendered(one) =~= utf8_lossy(input)) by {
        reveal_with_fuel(rendered, 2);
    }
    assert(curve(at.len() as int) <= target);
}

// ---------------------------------------------------------------------------
// The largest window
// ---------------------------------------------------------------------------

/// A longer text never takes fewer tokens.
pub open spec fn grows_with_length<K: TokenCounter>(counter: &K) -> bool {
    forall|a: Seq<char>, b: Seq<char>|
        a.len() <= b.len() ==> #[trigger] counter.tokens(a) <= #[trigger] counter.tokens(b)
}

/// The counter that takes a token for every four characters grows with them.
pub proof fn law_heuristic_grows_with_length()
    ensures
        grows_with_length(&HeuristicCounter),
{
}

/// The input is an array or a log in UTF-8 with units, within the machine's
/// integers, and the counter's tokens are those of the renderings and grow with
/// their length.
pub open spec fn measured<K: TokenCounter>(input: Seq<u8>, counter: &K) -> bool {
    &&& valid_utf8(input)
    &&& 0 < unit_spans(input).len() <= usize::MAX
    &&& counted_exactly(input, unit_spans(input), unit_noun(input), counter)
    &&& grows_with_length(counter)
}

/// The tokens of each window of an input.
pub open spec fn input_curve<K: TokenCounter>(input: Seq<u8>, counter: &K) -> spec_fn(int) -> nat {
    token_curve(input, unit_spans(input), candidates_of(input), unit_noun(input), counter)
}

/// The pieces of the window of an input that keeps `m` candidates.
pub open spec fn input_window(input: Seq<u8>, m: nat) -> Seq<Piece> {
    window_pieces(input, unit_spans(input), candidates_of(input), m, unit_noun(input))
}

proof fn lemma_units_are_measured(input: Seq<u8>)
    requires
        valid_utf8(input),
        0 < unit_spans(input).len() <= usize::MAX,
    ensures
        ordered(unit_spans(input), input.len() as int),
        on_boundaries(input, unit_spans(input)),
        no_empty(unit_spans(input)),
        increasing(candidates_of(input), unit_spans(input).len() as int),
        encode_utf8(unit_noun(input)).len() == unit_noun(input).len(),
{
    law_units_are_ordered(input);
    reveal_strlit("items");
    reveal_strlit("lines");
    vstd::utf8::is_ascii_chars_encode_utf8(unit_noun(input));
    if content_type(input) == ContentType::Json {
        law_elements_stand_on_boundaries(input);
        law_elements_are_ordered(input);
    } else {
        law_lines_stand_on_boundaries(input);
        law_lines_are_not_empty(input, 0);
        lemma_marked_increasing(dedup_mask(input, unit_spans(input)));
    }
}

/// The curve of an input never falls, but for its last step: a larger window
/// takes no fewer tokens, as long as something is left out.
pub proof fn law_curve_rises<K: TokenCounter>(input: Seq<u8>, counter: &K)
    requires
        measured(input, counter),
    ensures
        rising(candidates_of(input).len() - 1, input_curve(input, counter)),
        forall|m: int|
            0 <= m ==> #[trigger] input_curve(input, counter)(m) == counter.tokens(
                rendered(tiled(input_window(input, m as nat))),
            ),
{
    let at = unit_spans(input);
    let noun = unit_noun(input);
    let candidates = candidates_of(input);
    let curve = input_curve(input, counter);
    lemma_units_are_measured(input);
    assert forall|m: int| 0 <= m implies #[trigger] curve(m) == counter.tokens(
        rendered(tiled(input_window(input, m as nat))),
    ) by {
        lemma_window_tokens(input, at, candidates, noun, counter, m as nat);
    }
    assert forall|a: int, b: int| 0 <= a <= b <= candidates.len() - 1 implies #[trigger] curve(a)
        <= #[trigger] curve(b) by {
        law_larger_window_is_no_shorter(input, at, candidates, noun, a as nat, b as nat);
    }
}

proof fn lemma_window_of<K: TokenCounter>(
    input: Seq<u8>,
    target: usize,
    counter: &K,
    found: Seq<Piece>,
) -> (m: int)
    requires
        budget_pieces(input, Budget::Tokens(target), counter, found),
        unit_spans(input).len() > 0,
    ensures
        crossing(
            m,
            candidates_of(input).len() as int,
            target as int,
            input_curve(input, counter),
        ),
        found == input_window(input, m as nat),
{
    let at = unit_spans(input);
    let noun = unit_noun(input);
    let candidates = candidates_of(input);
    choose|m: int|
        #![trigger window_pieces(input, at, candidates, m as nat, noun)]
        crossing(
            m,
            candidates.len() as int,
            target as int,
            token_curve(input, at, candidates, noun, counter),
        ) && found == window_pieces(input, at, candidates, m as nat, noun)
}

/// A text that is not empty takes a token.
pub open spec fn positive<K: TokenCounter>(counter: &K) -> bool {
    forall|text: Seq<char>| text.len() > 0 ==> #[trigger] counter.tokens(text) > 0
}

/// The counter that takes a token for every four characters takes one for every
/// text that is not empty.
pub proof fn law_heuristic_is_positive()
    ensures
        positive(&HeuristicCounter),
{
}

/// The floor of an array or a log in UTF-8 is not 0.
pub proof fn law_floor_is_positive<K: TokenCounter>(
    input: Seq<u8>,
    counter: &K,
    least: Seq<Piece>,
)
    requires
        budget_pieces(input, Budget::Tokens(0), counter, least),
        valid_utf8(input),
        0 < unit_spans(input).len() <= usize::MAX,
        positive(counter),
    ensures
        counter.tokens(rendered(tiled(least))) > 0,
{
    let at = unit_spans(input);
    let m = lemma_window_of(input, 0, counter, least);
    lemma_units_are_measured(input);
    assert(at[0].0 < at[0].1);
    lemma_rendered_len(
        input,
        at,
        window_mask(at.len(), candidates_of(input), m as nat),
        unit_noun(input),
    );
}

/// The window that is kept is the largest that fits: it is no smaller than any
/// window of which the rendering takes no more tokens than the target.
pub proof fn law_kept_window_is_the_largest<K: TokenCounter>(
    input: Seq<u8>,
    target: usize,
    counter: &K,
    found: Seq<Piece>,
    k: nat,
)
    requires
        budget_pieces(input, Budget::Tokens(target), counter, found),
        measured(input, counter),
        k <= candidates_of(input).len(),
        counter.tokens(rendered(tiled(input_window(input, k)))) <= target,
    ensures
        exists|m: nat|
            k <= m <= candidates_of(input).len() && found == #[trigger] input_window(input, m),
{
    let n = candidates_of(input).len() as int;
    let curve = input_curve(input, counter);
    let m = lemma_window_of(input, target, counter, found);
    law_curve_rises(input, counter);
    assert(curve(k as int) <= target);
    if m < k {
        law_crossing_is_largest_fit(m, n, target as int, curve, k as int);
    }
    assert(found == input_window(input, m as nat));
}

/// A larger target keeps at least as large a window.
pub proof fn law_larger_budget_keeps_more<K: TokenCounter>(
    input: Seq<u8>,
    small: usize,
    large: usize,
    counter: &K,
    a: Seq<Piece>,
    b: Seq<Piece>,
)
    requires
        small <= large,
        budget_pieces(input, Budget::Tokens(small), counter, a),
        budget_pieces(input, Budget::Tokens(large), counter, b),
        measured(input, counter),
    ensures
        exists|x: nat, y: nat|
            x <= y <= candidates_of(input).len() && a == #[trigger] input_window(input, x) && b
                == #[trigger] input_window(input, y),
{
    let n = candidates_of(input).len() as int;
    let curve = input_curve(input, counter);
    let x = lemma_window_of(input, small, counter, a);
    let y = lemma_window_of(input, large, counter, b);
    law_curve_rises(input, counter);
    law_larger_target_keeps_more(x, y, n, small as int, large as int, curve);
    assert(a == input_window(input, x as nat) && b == input_window(input, y as nat));
}

/// A compression toward a token target has one outcome, however the window is
/// searched for.
pub proof fn law_outcome_is_unique<K: TokenCounter>(
    input: Seq<u8>,
    target: usize,
    counter: &K,
    a: Seq<Piece>,
    b: Seq<Piece>,
)
    requires
        budget_pieces(input, Budget::Tokens(target), counter, a),
        budget_pieces(input, Budget::Tokens(target), counter, b),
        unit_spans(input).len() > 0 ==> measured(input, counter),
    ensures
        a == b,
{
    if unit_spans(input).len() > 0 {
        let n = candidates_of(input).len() as int;
        let curve = input_curve(input, counter);
        let x = lemma_window_of(input, target, counter, a);
        let y = lemma_window_of(input, target, counter, b);
        law_curve_rises(input, counter);
        law_searches_agree(x, y, n, target as int, curve);
    }
}

/// A maximal reduction is the same as compressing without a budget.
pub proof fn law_max_reduction_is_compress<K: TokenCounter>(
    input: Seq<u8>,
    counter: &K,
    found: Seq<Piece>,
)
    ensures
        budget_pieces(input, Budget::MaxReduction, counter, found) <==> found == offload_pieces(
            input,
            MIN_COMPRESS_BYTES as nat,
        ),
{
}

/// A fractional reduction is the same as a token budget of what it leaves, for
/// an input that is no text and of which it leaves less than there is.
pub proof fn law_reduction_is_token_budget<K: TokenCounter>(
    input: Seq<u8>,
    bits: u32,
    counter: &K,
    found: Seq<Piece>,
)
    requires
        !not_positive(bits),
        content_type(input) != ContentType::Text,
        reduced(counter.tokens(utf8_lossy(input)), bits) < counter.tokens(utf8_lossy(input)),
        counter.tokens(utf8_lossy(input)) <= usize::MAX,
    ensures
        budget_pieces(input, Budget::Reduction(bits), counter, found) <==> budget_pieces(
            input,
            Budget::Tokens(reduced(counter.tokens(utf8_lossy(input)), bits) as usize),
            counter,
            found,
        ),
{
}

/// What a token budget does with an input that has no units to choose from: text
/// is kept; JSON that is no array with an element, and a log without a line, are
/// kept if they fit, and JSON that does not fit becomes one reference to all of it.
pub proof fn law_budget_without_units<K: TokenCounter>(
    input: Seq<u8>,
    target: usize,
    counter: &K,
    found: Seq<Piece>,
)
    requires
        budget_pieces(input, Budget::Tokens(target), counter, found),
        unit_spans(input).len() == 0,
    ensures
        content_type(input) != ContentType::Json || counter.tokens(utf8_lossy(input)) <= target
            ==> tiled(found) == seq![SegmentView::Verbatim(input)] && regions(found).len() == 0,
        content_type(input) == ContentType::Json && counter.tokens(utf8_lossy(input)) > target
            ==> tiled(found) == seq![
            SegmentView::Ref {
                key: content_key(input),
                summary: summary_of(input),
                original_len: input.len(),
            },
        ] && regions(found) == seq![input],
{
    crate::compress::law_small_input_is_kept(input, 0);
    crate::compress::law_small_input_is_kept(input, (input.len() + 1) as nat);
}

/// A reduction by a fraction that is not positive, or that would leave as much as
/// there is, keeps the input, and so does every reduction of text.
pub proof fn law_no_reduction_keeps_the_input<K: TokenCounter>(
    input: Seq<u8>,
    bits: u32,
    counter: &K,
    found: Seq<Piece>,
)
    requires
        budget_pieces(input, Budget::Reduction(bits), counter, found),
        bits == 0 || bits > 0x7f80_0000 || content_type(input) == ContentType::Text || reduced(
            counter.tokens(utf8_lossy(input)),
            bits,
        ) >= counter.tokens(utf8_lossy(input)),
    ensures
        found == seq![Piece::Kept(input)],
{
}

/// The units that a window is made of: every element of an array, and every line
/// that is not the same as the line before it.
pub proof fn law_candidates(input: Seq<u8>, i: int)
    requires
        unit_spans(input).len() <= usize::MAX,
        0 <= i < unit_spans(input).len(),
    ensures
        content_type(input) == ContentType::Json ==> candidates_of(input).contains(i as usize),
        content_type(input) == ContentType::Log ==> (candidates_of(input).contains(i as usize)
            <==> i == 0 || input.subrange(unit_spans(input)[i].0, unit_spans(input)[i].1)
            != input.subrange(unit_spans(input)[i - 1].0, unit_spans(input)[i - 1].1)),
        increasing(candidates_of(input), unit_spans(input).len() as int),
{
    let n = unit_spans(input).len();
    let mask = dedup_mask(input, unit_spans(input));
    if content_type(input) == ContentType::Json {
        assert(all_below(n)[i] == i as usize);
        assert(all_below(n).contains(i as usize));
    } else {
        lemma_marked_increasing(mask);
        crate::query::law_marked(mask);
        assert(mask[i] <==> marked(mask).contains(i as usize));
    }
}

} // verus!
