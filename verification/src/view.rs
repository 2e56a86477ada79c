//! Compact views of code, backed by the exact source in the store.
use crate::budget::grows_with_length;
use crate::cas::{stored, Cas};
use crate::charmodel::lemma_digit_total;
use crate::curve::lemma_one_digit_more;
use crate::doc::{rebuilt, rendered, CompressedDoc, Fault, ReconstructError, Segment, SegmentView};
use crate::hash::content_key;
use crate::text::{
    begins, begins_any, begins_any_str, chars_of, contains_text, decimal, decimal_of, has_str,
    law_occurrence, lines, lines_of, push_text, seqs, string_of, trim, trim_end, trim_end_of,
    trim_of, trim_start, trim_start_of,
};
use crate::tokens::TokenCounter;
use crate::utf8::{lossy_text, utf8_lossy};
use vstd::prelude::*;

verus! {

/// A view for the model together with a document that rebuilds the source.
#[derive(Debug, PartialEq)]
pub struct CompactViewDoc {
    /// What the model sees: a retrieval sentinel and the view.
    pub model_text: String,
    /// The document that rebuilds the source.
    pub compressed: CompressedDoc,
}

impl CompactViewDoc {
    /// Rebuilds the exact source from `cas`.
    pub fn reconstruct<C: Cas>(&self, cas: &C) -> (out: Result<Vec<u8>, ReconstructError>)
        ensures
            match out {
                Ok(bytes) => rebuilt(self.compressed@, cas.objects()) == Ok::<Seq<u8>, Fault>(
                    bytes@,
                ),
                Err(e) => rebuilt(self.compressed@, cas.objects()) == Err::<Seq<u8>, Fault>(e@),
            },
    {
        self.compressed.reconstruct(cas)
    }
}

// ---------------------------------------------------------------------------
// The structural view
// ---------------------------------------------------------------------------

/// How a line of code begins that declares something.
pub open spec fn declarations() -> Seq<&'static str> {
    seq![
        "#[",
        "@",
        "use ",
        "pub use ",
        "mod ",
        "pub mod ",
        "struct ",
        "pub struct ",
        "enum ",
        "pub enum ",
        "trait ",
        "pub trait ",
        "impl ",
        "type ",
        "pub type ",
        "const ",
        "pub const ",
        "static ",
        "pub static ",
        "class ",
        "export class ",
        "interface ",
        "export interface ",
        "export type ",
        "function ",
        "export function ",
        "fn ",
        "pub fn ",
        "async fn ",
        "pub async fn ",
    ]
}

/// The line declares something.
pub open spec fn structural(line: Seq<char>) -> bool {
    let t = trim_start(line);
    begins_any(t, declarations()) || contains_text(t, " fn "@)
}

fn is_structural_code_line(line: &[char]) -> (r: bool)
    ensures
        r == structural(line@),
{
    let t = trim_start_of(line);
    let prefixes = vec![
        "#[",
        "@",
        "use ",
        "pub use ",
        "mod ",
        "pub mod ",
        "struct ",
        "pub struct ",
        "enum ",
        "pub enum ",
        "trait ",
        "pub trait ",
        "impl ",
        "type ",
        "pub type ",
        "const ",
        "pub const ",
        "static ",
        "pub static ",
        "class ",
        "export class ",
        "interface ",
        "export interface ",
        "export type ",
        "function ",
        "export function ",
        "fn ",
        "pub fn ",
        "async fn ",
        "pub async fn ",
    ];
    assert(prefixes@ =~= declarations());
    begins_any_str(&t, prefixes.as_slice()) || has_str(&t, " fn ")
}

/// `out` and a note of the `n` lines left out since, if there are any.
pub open spec fn with_omitted(out: Seq<char>, n: nat) -> Seq<char> {
    if n > 0 {
        out + ("// ... "@ + decimal(n) + " non-structural lines omitted ...\n"@)
    } else {
        out
    }
}

/// The view of the lines so far, and how many lines were left out since the
/// last one that is shown. Blank lines are not counted.
pub open spec fn outline(ls: Seq<Seq<char>>) -> (Seq<char>, nat)
    decreases ls.len(),
{
    if ls.len() == 0 {
        (Seq::empty(), 0)
    } else {
        let before = outline(ls.drop_last());
        let line = ls.last();
        if structural(line) {
            (with_omitted(before.0, before.1) + trim_end(line) + "\n"@, 0)
        } else if trim(line).len() > 0 {
            (before.0, before.1 + 1)
        } else {
            before
        }
    }
}

/// The structural view of code: its declarations, with notes of what was left
/// out between them. A text without lines to show or count is shown as it is.
pub open spec fn code_view(input: Seq<u8>) -> Seq<char> {
    let text = utf8_lossy(input);
    let o = outline(lines(text));
    let out = with_omitted(o.0, o.1);
    if out.len() == 0 {
        text
    } else {
        out
    }
}

fn flush_omitted_code_lines(out: &mut Vec<char>, omitted: usize)
    ensures
        final(out)@ == with_omitted(old(out)@, omitted as nat),
{
    if omitted > 0 {
        let note = "// ... ".to_owned().concat(decimal_of(omitted).as_str()).concat(
            " non-structural lines omitted ...\n",
        );
        let chars = chars_of(note.as_str());
        push_text(out, &chars);
    }
}

/// The structural view of `input`.
pub fn structural_code_view(input: &[u8]) -> (out: String)
    ensures
        out@ == code_view(input@),
{
    let text = lossy_text(input);
    let chars = chars_of(text.as_str());
    let all = lines_of(&chars);
    let ghost ls = seqs(all@);
    let mut out: Vec<char> = Vec::new();
    let mut omitted: usize = 0;
    let newline = chars_of("\n");
    let mut i: usize = 0;
    while i < all.len()
        invariant
            i <= all@.len(),
            ls == seqs(all@),
            newline@ == "\n"@,
            omitted <= i,
            outline(ls.take(i as int)) == (out@, omitted as nat),
        decreases all@.len() - i,
    {
        assert(ls.take(i as int + 1).drop_last() =~= ls.take(i as int));
        assert(ls.take(i as int + 1).last() == all@[i as int]@);
        if is_structural_code_line(&all[i]) {
            flush_omitted_code_lines(&mut out, omitted);
            omitted = 0;
            let t = trim_end_of(&all[i]);
            push_text(&mut out, &t);
            push_text(&mut out, &newline);
        } else {
            let t = trim_of(&all[i]);
            if t.len() > 0 {
                omitted += 1;
            }
        }
        i += 1;
    }
    assert(ls.take(i as int) =~= ls);
    flush_omitted_code_lines(&mut out, omitted);
    if out.len() == 0 {
        text
    } else {
        string_of(&out)
    }
}

// ---------------------------------------------------------------------------
// Fitting a view to a budget
// ---------------------------------------------------------------------------

/// The lines, each with a line feed.
pub open spec fn with_breaks(ls: Seq<Seq<char>>) -> Seq<char>
    decreases ls.len(),
{
    if ls.len() == 0 {
        Seq::empty()
    } else {
        with_breaks(ls.drop_last()) + ls.last() + "\n"@
    }
}

/// The first and the last of the lines, `kept` of them in all, with a note of
/// how many are left out in between.
pub open spec fn head_and_tail(ls: Seq<Seq<char>>, kept: nat) -> Seq<char> {
    if kept >= ls.len() {
        with_breaks(ls)
    } else if kept == 0 {
        Seq::empty()
    } else {
        with_breaks(ls.take(((kept + 1) / 2) as int)) + ("... "@ + decimal(
            (ls.len() - kept) as nat,
        ) + " compact-view lines omitted to fit budget ...\n"@) + with_breaks(
            ls.skip(ls.len() - kept / 2),
        )
    }
}

/// Appends the lines `from..to`, each with a line feed.
fn push_lines(out: &mut Vec<char>, all: &Vec<Vec<char>>, from: usize, to: usize)
    requires
        from <= to <= all@.len(),
    ensures
        final(out)@ == old(out)@ + with_breaks(seqs(all@).subrange(from as int, to as int)),
{
    let ghost start = out@;
    let ghost ls = seqs(all@);
    let newline = chars_of("\n");
    let mut i: usize = from;
    assert(start + with_breaks(ls.subrange(from as int, from as int)) =~= start);
    while i < to
        invariant
            from <= i <= to <= all@.len(),
            ls == seqs(all@),
            newline@ == "\n"@,
            out@ == start + with_breaks(ls.subrange(from as int, i as int)),
        decreases to - i,
    {
        let ghost next = ls.subrange(from as int, i as int + 1);
        assert(next.drop_last() =~= ls.subrange(from as int, i as int));
        assert(next.last() == all@[i as int]@);
        push_text(out, &all[i]);
        push_text(out, &newline);
        assert(out@ =~= start + with_breaks(next));
        i += 1;
    }
}

fn render_head_tail_lines(all: &Vec<Vec<char>>, kept: usize) -> (out: String)
    ensures
        out@ == head_and_tail(seqs(all@), kept as nat),
{
    let ghost ls = seqs(all@);
    let mut out: Vec<char> = Vec::new();
    if kept >= all.len() {
        push_lines(&mut out, all, 0, all.len());
        assert(ls.subrange(0, ls.len() as int) =~= ls);
        assert(out@ =~= with_breaks(ls));
        return string_of(&out);
    }
    if kept == 0 {
        return String::new();
    }
    let tail: usize = kept / 2;
    let head: usize = kept - tail;
    let omitted: usize = all.len() - kept;
    push_lines(&mut out, all, 0, head);
    assert(ls.subrange(0, head as int) =~= ls.take(((kept + 1) / 2) as int));
    assert(out@ =~= with_breaks(ls.take(((kept + 1) / 2) as int)));
    let note = "... ".to_owned().concat(decimal_of(omitted).as_str()).concat(
        " compact-view lines omitted to fit budget ...\n",
    );
    let chars = chars_of(note.as_str());
    push_text(&mut out, &chars);
    push_lines(&mut out, all, all.len() - tail, all.len());
    assert(ls.subrange(ls.len() - tail, ls.len() as int) =~= ls.skip(ls.len() - kept / 2));
    string_of(&out)
}

/// The tokens of the header and `m` lines of the view.
pub open spec fn view_curve<K: TokenCounter>(
    header: Seq<char>,
    view: Seq<char>,
    counter: &K,
) -> spec_fn(int) -> nat {
    |m: int| counter.tokens(header + head_and_tail(lines(view), m as nat))
}

/// Where a bisection between `lo` and `hi` ends, with `best` the last number found
/// to fit.
pub open spec fn bisected(
    lo: int,
    hi: int,
    best: int,
    target: int,
    curve: spec_fn(int) -> nat,
) -> int
    decreases hi + 1 - lo,
{
    let mid = lo + (hi - lo) / 2;
    if lo < 0 || lo > hi {
        best
    } else if curve(mid) <= target {
        bisected(mid + 1, hi, mid, target, curve)
    } else if mid == 0 {
        best
    } else {
        bisected(lo, mid - 1, best, target, curve)
    }
}

/// `text` is the sentinel and as much of the view as is found to fit: all of it;
/// nothing, if the header takes all tokens or the view has no lines; else the
/// number of lines from both ends at which a bisection of the tokens ends.
pub open spec fn fitted_view<K: TokenCounter>(
    sentinel: Seq<char>,
    view: Seq<char>,
    target: nat,
    counter: &K,
    text: Seq<char>,
) -> bool {
    let header = sentinel + "\n"@;
    if counter.tokens(header + view) <= target {
        text == header + view
    } else if counter.tokens(header) >= target || lines(view).len() == 0 {
        text == header
    } else {
        text == header + head_and_tail(
            lines(view),
            bisected(
                0,
                lines(view).len() as int,
                0,
                target as int,
                view_curve(header, view, counter),
            ) as nat,
        )
    }
}

fn fit_compact_view_to_target<K: TokenCounter>(
    sentinel: &str,
    view: &str,
    target_tokens: usize,
    counter: &K,
) -> (out: String)
    ensures
        fitted_view(sentinel@, view@, target_tokens as nat, counter, out@),
{
    let header = sentinel.to_owned().concat("\n");
    let full = header.clone().concat(view);
    if counter.count(full.as_str()) <= target_tokens {
        return full;
    }
    if counter.count(header.as_str()) >= target_tokens {
        return header;
    }
    let chars = chars_of(view);
    let all = lines_of(&chars);
    let n: usize = all.len();
    if n == 0 {
        return header;
    }
    let ghost curve = view_curve(header@, view@, counter);
    let ghost ls = lines(view@);
    let mut best: usize = 0;
    let mut text = header.clone();
    let mut lo: usize = 0;
    let mut hi: usize = n;
    let ghost end = bisected(0, n as int, 0, target_tokens as int, curve);
    assert(header@ + head_and_tail(ls, 0) =~= header@);
    while lo <= hi
        invariant_except_break
            lo <= hi + 1,
            hi <= n,
            n == all@.len(),
            ls == seqs(all@),
            ls == lines(view@),
            curve == view_curve(header@, view@, counter),
            text@ == header@ + head_and_tail(ls, best as nat),
            end == bisected(lo as int, hi as int, best as int, target_tokens as int, curve),
        ensures
            end == best,
            text@ == header@ + head_and_tail(ls, best as nat),
        decreases hi + 1 - lo,
    {
        let mid: usize = lo + (hi - lo) / 2;
        let candidate = header.clone().concat(render_head_tail_lines(&all, mid).as_str());
        assert(curve(mid as int) == counter.tokens(candidate@));
        if counter.count(candidate.as_str()) <= target_tokens {
            best = mid;
            text = candidate;
            if mid == hi {
                proof {
                    reveal_with_fuel(bisected, 2);
                }
                break ;
            }
            lo = mid + 1;
        } else if mid == 0 {
            break ;
        } else {
            hi = mid - 1;
        }
    }
    text
}

/// The document of a source that is offloaded as a whole.
pub open spec fn source_segment(input: Seq<u8>, summary: Seq<char>) -> SegmentView {
    SegmentView::Ref {
        key: content_key(input),
        summary: summary + ", "@ + decimal(input.len()) + " bytes"@,
        original_len: input.len(),
    }
}

fn compact_view_to_budget<C: Cas, K: TokenCounter>(
    input: &[u8],
    view: &str,
    target_tokens: usize,
    counter: &K,
    cas: &mut C,
    summary: &str,
) -> (out: CompactViewDoc)
    ensures
        out.compressed@ == seq![source_segment(input@, summary@)],
        final(cas).objects() == stored(old(cas).objects(), input@),
        fitted_view(
            rendered(seq![source_segment(input@, summary@)]),
            view@,
            target_tokens as nat,
            counter,
            out.model_text@,
        ),
{
    let hash = cas.put(input);
    let note = summary.to_owned().concat(", ").concat(decimal_of(input.len()).as_str()).concat(
        " bytes",
    );
    let mut segments: Vec<Segment> = Vec::new();
    segments.push(Segment::Ref { hash, summary: note, original_len: input.len() });
    let compressed = CompressedDoc { segments };
    assert(compressed@ =~= seq![source_segment(input@, summary@)]);
    let sentinel = compressed.render_for_model();
    let model_text = fit_compact_view_to_target(sentinel.as_str(), view, target_tokens, counter);
    CompactViewDoc { model_text, compressed }
}

/// Builds a structural view of code within `target_tokens`, with the exact
/// source put into `cas`.
pub fn compress_structural_code_to_budget<C: Cas, K: TokenCounter>(
    input: &[u8],
    cas: &mut C,
    target_tokens: usize,
    counter: &K,
) -> (out: CompactViewDoc)
    ensures
        out.compressed@ == seq![source_segment(input@, "structural code view"@)],
        final(cas).objects() == stored(old(cas).objects(), input@),
        fitted_view(
            rendered(seq![source_segment(input@, "structural code view"@)]),
            code_view(input@),
            target_tokens as nat,
            counter,
            out.model_text@,
        ),
{
    let view = structural_code_view(input);
    compact_view_to_budget(
        input,
        view.as_str(),
        target_tokens,
        counter,
        cas,
        "structural code view",
    )
}

/// A compact view is reversible: its document rebuilds the exact source from
/// the store that the source was put into.
pub proof fn law_view_is_reversible(
    input: Seq<u8>,
    summary: Seq<char>,
    objects: Map<Seq<char>, Seq<u8>>,
)
    requires
        objects.dom().contains(content_key(input)) ==> objects[content_key(input)] == input,
    ensures
        rebuilt(seq![source_segment(input, summary)], stored(objects, input)) == Ok::<
            Seq<u8>,
            Fault,
        >(input),
{
    reveal_with_fuel(rebuilt, 2);
    let doc = seq![source_segment(input, summary)];
    assert(doc.drop_last() =~= Seq::empty());
    assert(Seq::<u8>::empty() + input =~= input);
}

/// A bisection ends where the curve turns: at a number that fits itself, if it is
/// not `best`, and of which the next does not fit.
proof fn lemma_bisected(
    lo: int,
    hi: int,
    best: int,
    n: int,
    target: int,
    curve: spec_fn(int) -> nat,
)
    requires
        0 <= lo <= hi + 1,
        0 <= best,
        0 <= n,
        hi <= n,
        best == 0 && lo == 0 || best + 1 == lo && curve(best) <= target,
        hi == n || curve(hi + 1) > target,
    ensures
        ({
            let m = bisected(lo, hi, best, target, curve);
            &&& 0 <= m <= n
            &&& m > 0 ==> curve(m) <= target
            &&& m < n ==> curve(m + 1) > target || (m == 0 && curve(0) > target)
        }),
    decreases hi + 1 - lo,
{
    if lo <= hi {
        let mid = lo + (hi - lo) / 2;
        if curve(mid) <= target {
            lemma_bisected(mid + 1, hi, mid, n, target, curve);
        } else if mid > 0 {
            lemma_bisected(lo, mid - 1, best, n, target, curve);
        }
    }
}

/// The number of lines that a view is cut down to.
pub open spec fn kept_lines<K: TokenCounter>(
    sentinel: Seq<char>,
    view: Seq<char>,
    target: nat,
    counter: &K,
) -> int {
    bisected(
        0,
        lines(view).len() as int,
        0,
        target as int,
        view_curve(sentinel + "\n"@, view, counter),
    )
}

/// The view fits: it takes no more tokens than the target, or it is the header
/// alone.
pub proof fn law_view_meets_target<K: TokenCounter>(
    sentinel: Seq<char>,
    view: Seq<char>,
    target: nat,
    counter: &K,
    text: Seq<char>,
)
    requires
        fitted_view(sentinel, view, target, counter, text),
    ensures
        counter.tokens(text) <= target || text == sentinel + "\n"@,
        exists|rest: Seq<char>| text == sentinel + "\n"@ + rest,
{
    let header = sentinel + "\n"@;
    assert(header + Seq::<char>::empty() =~= header);
    if !(counter.tokens(header + view) <= target) && !(counter.tokens(header) >= target || lines(
        view,
    ).len() == 0) {
        let n = lines(view).len() as int;
        let curve = view_curve(header, view, counter);
        let m = kept_lines(sentinel, view, target, counter);
        lemma_bisected(0, n, 0, n, target as int, curve);
        assert(curve(m) == counter.tokens(text));
        if m == 0 {
            assert(header + head_and_tail(lines(view), 0) =~= header);
        }
    }
}

proof fn lemma_breaks_front(ls: Seq<Seq<char>>)
    requires
        ls.len() > 0,
    ensures
        with_breaks(ls).len() == ls[0].len() + 1 + with_breaks(ls.skip(1)).len(),
    decreases ls.len(),
{
    reveal_strlit("\n");
    reveal_with_fuel(with_breaks, 2);
    if ls.len() > 1 {
        let before = ls.drop_last();
        lemma_breaks_front(before);
        assert(before.skip(1) =~= ls.skip(1).drop_last());
    } else {
        assert(ls.drop_last() =~= Seq::empty());
        assert(ls.skip(1) =~= Seq::empty());
    }
}

/// More lines from both ends are no shorter, as long as some are left out.
proof fn lemma_head_and_tail_grows(ls: Seq<Seq<char>>, small: nat, large: nat)
    requires
        small <= large < ls.len(),
    ensures
        head_and_tail(ls, small).len() <= head_and_tail(ls, large).len(),
    decreases large,
{
    if small < large {
        let m = (large - 1) as nat;
        lemma_head_and_tail_grows(ls, small, m);
        if m > 0 {
            reveal_strlit("\n");
            lemma_digit_total((ls.len() - m) as nat);
            lemma_digit_total((ls.len() - large) as nat);
            lemma_one_digit_more((ls.len() - large) as nat, (ls.len() - m) as nat);
            if m % 2 == 0 {
                let longer = ls.take(((large + 1) / 2) as int);
                assert(longer.drop_last() =~= ls.take(((m + 1) / 2) as int));
                assert(ls.skip(ls.len() - m / 2) =~= ls.skip(ls.len() - large / 2));
            } else {
                let longer = ls.skip(ls.len() - large / 2);
                lemma_breaks_front(longer);
                assert(longer.skip(1) =~= ls.skip(ls.len() - m / 2));
                assert(ls.take(((m + 1) / 2) as int) =~= ls.take(((large + 1) / 2) as int));
            }
        }
    }
}

/// A view is cut down to the largest number of lines that fits, for a counter
/// that grows with length, where all lines with their line feeds do not fit.
pub proof fn law_view_keeps_the_most_lines<K: TokenCounter>(
    sentinel: Seq<char>,
    view: Seq<char>,
    target: nat,
    counter: &K,
    k: int,
)
    requires
        grows_with_length(counter),
        counter.tokens(sentinel + "\n"@ + with_breaks(lines(view))) > target,
        kept_lines(sentinel, view, target, counter) < k <= lines(view).len(),
    ensures
        counter.tokens(sentinel + "\n"@ + head_and_tail(lines(view), k as nat)) > target,
{
    let header = sentinel + "\n"@;
    let ls = lines(view);
    let n = ls.len() as int;
    let curve = view_curve(header, view, counter);
    let m = kept_lines(sentinel, view, target, counter);
    lemma_bisected(0, n, 0, n, target as int, curve);
    assert(curve(k) == counter.tokens(header + head_and_tail(ls, k as nat)));
    if k < n {
        assert(curve(m + 1) == counter.tokens(header + head_and_tail(ls, (m + 1) as nat)));
        lemma_head_and_tail_grows(ls, (m + 1) as nat, k as nat);
        if m == 0 {
            assert(curve(0) == counter.tokens(header + head_and_tail(ls, 0)));
            lemma_head_and_tail_grows(ls, 0, k as nat);
        }
    }
}

/// A line of code is structural if it begins, after white space, like an
/// attribute, an import or a declaration, or has a function in it.
pub proof fn law_structural(line: Seq<char>)
    ensures
        ({
            let t = trim_start(line);
            structural(line) <==> "#["@.is_prefix_of(t) || "@"@.is_prefix_of(t) || "use "@.is_prefix_of(t) || "pub use "@.is_prefix_of(t) || "mod "@.is_prefix_of(t) || "pub mod "@.is_prefix_of(t) || "struct "@.is_prefix_of(t) || "pub struct "@.is_prefix_of(t) || "enum "@.is_prefix_of(t) || "pub enum "@.is_prefix_of(t) || "trait "@.is_prefix_of(t) || "pub trait "@.is_prefix_of(t) || "impl "@.is_prefix_of(t) || "type "@.is_prefix_of(t) || "pub type "@.is_prefix_of(t) || "const "@.is_prefix_of(t) || "pub const "@.is_prefix_of(t) || "static "@.is_prefix_of(t) || "pub static "@.is_prefix_of(t) || "class "@.is_prefix_of(t) || "export class "@.is_prefix_of(t) || "interface "@.is_prefix_of(t) || "export interface "@.is_prefix_of(t) || "export type "@.is_prefix_of(t) || "function "@.is_prefix_of(t) || "export function "@.is_prefix_of(t) || "fn "@.is_prefix_of(t) || "pub fn "@.is_prefix_of(t) || "async fn "@.is_prefix_of(t) || "pub async fn "@.is_prefix_of(t) || contains_text(t, " fn "@)
        }),
{
    let t = trim_start(line);
    let d = declarations();
    assert forall|s: Seq<char>, p: Seq<char>| #[trigger] begins(s, p) == p.is_prefix_of(s) by {
        law_occurrence(s, p, 0);
    }
    assert(begins(t, d[0]@) == "#["@.is_prefix_of(t));
    assert(begins(t, d[1]@) == "@"@.is_prefix_of(t));
    assert(begins(t, d[2]@) == "use "@.is_prefix_of(t));
    assert(begins(t, d[3]@) == "pub use "@.is_prefix_of(t));
    assert(begins(t, d[4]@) == "mod "@.is_prefix_of(t));
    assert(begins(t, d[5]@) == "pub mod "@.is_prefix_of(t));
    assert(begins(t, d[6]@) == "struct "@.is_prefix_of(t));
    assert(begins(t, d[7]@) == "pub struct "@.is_prefix_of(t));
    assert(begins(t, d[8]@) == "enum "@.is_prefix_of(t));
    assert(begins(t, d[9]@) == "pub enum "@.is_prefix_of(t));
    assert(begins(t, d[10]@) == "trait "@.is_prefix_of(t));
    assert(begins(t, d[11]@) == "pub trait "@.is_prefix_of(t));
    assert(begins(t, d[12]@) == "impl "@.is_prefix_of(t));
    assert(begins(t, d[13]@) == "type "@.is_prefix_of(t));
    assert(begins(t, d[14]@) == "pub type "@.is_prefix_of(t));
    assert(begins(t, d[15]@) == "const "@.is_prefix_of(t));
    assert(begins(t, d[16]@) == "pub const "@.is_prefix_of(t));
    assert(begins(t, d[17]@) == "static "@.is_prefix_of(t));
    assert(begins(t, d[18]@) == "pub static "@.is_prefix_of(t));
    assert(begins(t, d[19]@) == "class "@.is_prefix_of(t));
    assert(begins(t, d[20]@) == "export class "@.is_prefix_of(t));
    assert(begins(t, d[21]@) == "interface "@.is_prefix_of(t));
    assert(begins(t, d[22]@) == "export interface "@.is_prefix_of(t));
    assert(begins(t, d[23]@) == "export type "@.is_prefix_of(t));
    assert(begins(t, d[24]@) == "function "@.is_prefix_of(t));
    assert(begins(t, d[25]@) == "export function "@.is_prefix_of(t));
    assert(begins(t, d[26]@) == "fn "@.is_prefix_of(t));
    assert(begins(t, d[27]@) == "pub fn "@.is_prefix_of(t));
    assert(begins(t, d[28]@) == "async fn "@.is_prefix_of(t));
    assert(begins(t, d[29]@) == "pub async fn "@.is_prefix_of(t));
}

/// The outline of code, line by line: a structural line is shown without the white
/// space at its end, after a count of the other lines since the last; of those,
/// blank ones are not counted.
pub proof fn law_outline(ls: Seq<Seq<char>>, line: Seq<char>, input: Seq<u8>)
    ensures
        outline(Seq::empty()) == (Seq::<char>::empty(), 0nat),
        structural(line) && outline(ls).1 == 0 ==> outline(ls.push(line)) == (
            outline(ls).0 + trim_end(line) + "\n"@,
            0nat,
        ),
        structural(line) && outline(ls).1 > 0 ==> outline(ls.push(line)) == (
            outline(ls).0 + ("// ... "@ + decimal(outline(ls).1)
                + " non-structural lines omitted ...\n"@) + trim_end(line) + "\n"@,
            0nat,
        ),
        !structural(line) && trim(line).len() > 0 ==> outline(ls.push(line)) == (
            outline(ls).0,
            outline(ls).1 + 1,
        ),
        !structural(line) && trim(line).len() == 0 ==> outline(ls.push(line)) == outline(ls),
        ({
            let o = outline(lines(utf8_lossy(input)));
            let all = if o.1 > 0 {
                o.0 + ("// ... "@ + decimal(o.1) + " non-structural lines omitted ...\n"@)
            } else {
                o.0
            };
            code_view(input) == (if all.len() > 0 {
                all
            } else {
                utf8_lossy(input)
            })
        }),
{
    assert(ls.push(line).drop_last() =~= ls);
}

/// Of a view that must be shortened to `kept` lines, the first half of them,
/// rounded up, and the last half, rounded down, are shown, with a count of the
/// others between them.
pub proof fn law_shortened_view(ls: Seq<Seq<char>>, line: Seq<char>, kept: nat)
    ensures
        with_breaks(Seq::empty()) == Seq::<char>::empty(),
        with_breaks(ls.push(line)) == with_breaks(ls) + line + "\n"@,
        kept >= ls.len() ==> head_and_tail(ls, kept) == with_breaks(ls),
        kept == 0 && ls.len() > 0 ==> head_and_tail(ls, kept) == Seq::<char>::empty(),
        0 < kept < ls.len() ==> {
            let head = kept - kept / 2;
            let tail = kept / 2;
            head_and_tail(ls, kept) == with_breaks(ls.take(head)) + ("... "@ + decimal(
                (ls.len() - kept) as nat,
            ) + " compact-view lines omitted to fit budget ...\n"@) + with_breaks(
                ls.skip(ls.len() - tail),
            )
        },
{
    assert(ls.push(line).drop_last() =~= ls);
    if 0 < kept < ls.len() {
        assert((kept + 1) / 2 == kept - kept / 2);
    }
}

/// A view that fits is shown whole, under the sentinel; else, if there is room, as
/// many of its lines as the search keeps; else the sentinel alone.
pub proof fn law_fitted_view<K: TokenCounter>(
    sentinel: Seq<char>,
    view: Seq<char>,
    target: nat,
    counter: &K,
    text: Seq<char>,
)
    requires
        fitted_view(sentinel, view, target, counter, text),
    ensures
        counter.tokens(sentinel + "\n"@ + view) <= target ==> text == sentinel + "\n"@ + view,
        counter.tokens(sentinel + "\n"@ + view) > target && counter.tokens(sentinel + "\n"@)
            < target && lines(view).len() > 0 ==> text == sentinel + "\n"@ + head_and_tail(
            lines(view),
            kept_lines(sentinel, view, target, counter) as nat,
        ),
        counter.tokens(sentinel + "\n"@ + view) > target && (counter.tokens(sentinel + "\n"@)
            >= target || lines(view).len() == 0) ==> text == sentinel + "\n"@,
{
}

/// The source of a view is one reference to all of it, with its size.
pub proof fn law_view_source(input: Seq<u8>, summary: Seq<char>)
    ensures
        source_segment(input, summary) == (SegmentView::Ref {
            key: content_key(input),
            summary: summary + ", "@ + decimal(input.len()) + " bytes"@,
            original_len: input.len(),
        }),
{
}

} // verus!
