//! The units that can be dropped from an input: the elements of a JSON array,
//! the lines of a log.
use crate::detect::{ascii_white, content_type, detect, is_ascii_white, ContentType};
use std::ops::Range;
use vstd::prelude::*;

verus! {

/// The ranges as pairs of a start and an end.
pub open spec fn spans(units: Seq<Range<usize>>) -> Seq<(int, int)> {
    Seq::new(units.len(), |i: int| (units[i].start as int, units[i].end as int))
}

/// Spans of an input of length `n` that stand in order and do not overlap.
pub open spec fn ordered(spans: Seq<(int, int)>, n: int) -> bool {
    &&& forall|i: int|
        0 <= i < spans.len() ==> 0 <= (#[trigger] spans[i]).0 <= spans[i].1 <= n
    &&& forall|i: int, j: int|
        0 <= i < j < spans.len() ==> (#[trigger] spans[i]).1 <= (#[trigger] spans[j]).0
}

/// The bytes of one span.
pub open spec fn span_bytes(input: Seq<u8>, span: (int, int)) -> Seq<u8> {
    input.subrange(span.0, span.1)
}

// ---------------------------------------------------------------------------
// Array elements
// ---------------------------------------------------------------------------

/// The first position from `i` on that holds no white space; the length, if
/// there is none.
pub open spec fn skip_white(s: Seq<u8>, i: int) -> int
    decreases s.len() - i,
{
    if 0 <= i < s.len() && ascii_white(s[i]) {
        skip_white(s, i + 1)
    } else {
        i
    }
}

/// The position at which the value that `i` is inside of ends: that of the
/// first comma or closing bracket outside of strings and of the brackets opened
/// on the way. `depth` brackets are open, `quoted` says that `i` is inside of a
/// string, `escaped` that a backslash stands right before it there.
pub open spec fn value_end(s: Seq<u8>, i: int, depth: nat, quoted: bool, escaped: bool) -> int
    decreases s.len() - i,
{
    if i < 0 || i >= s.len() {
        i
    } else {
        let c = s[i];
        if quoted {
            if escaped {
                value_end(s, i + 1, depth, true, false)
            } else if c == 0x5c {
                value_end(s, i + 1, depth, true, true)
            } else {
                value_end(s, i + 1, depth, c != 0x22, false)
            }
        } else if c == 0x22 {
            value_end(s, i + 1, depth, true, escaped)
        } else if c == 0x5b || c == 0x7b {
            value_end(s, i + 1, depth + 1, false, escaped)
        } else if c == 0x5d || c == 0x7d {
            if depth == 0 {
                i
            } else {
                value_end(s, i + 1, (depth - 1) as nat, false, escaped)
            }
        } else if c == 0x2c && depth == 0 {
            i
        } else {
            value_end(s, i + 1, depth, false, escaped)
        }
    }
}

/// The end of `s[from..to]` without its trailing white space.
pub open spec fn trimmed_end(s: Seq<u8>, from: int, to: int) -> int
    decreases to - from,
{
    if from < to <= s.len() && ascii_white(s[to - 1]) {
        trimmed_end(s, from, to - 1)
    } else {
        to
    }
}

/// The spans of the elements of an array, from `i` on, where an element is owed:
/// `i` stands after a comma, or after the opening bracket of an array that is not
/// empty. Nothing if an element is empty, if the array is not closed, or if
/// anything but white space follows it.
pub open spec fn elements_from(s: Seq<u8>, i: int) -> Option<Seq<(int, int)>>
    decreases s.len() - i,
{
    let start = skip_white(s, i);
    if i < 0 || start >= s.len() {
        None
    } else {
        let stop = value_end(s, start, 0, false, false);
        let end = trimmed_end(s, start, stop);
        if end <= start || stop >= s.len() {
            None
        } else if s[stop] == 0x2c {
            proof {
                lemma_skip_white(s, i);
                lemma_value_end(s, start, 0, false, false);
            }
            match elements_from(s, stop + 1) {
                Some(rest) => Some(seq![(start, end)] + rest),
                None => None,
            }
        } else if s[stop] == 0x5d && skip_white(s, stop + 1) == s.len() {
            Some(seq![(start, end)])
        } else {
            None
        }
    }
}

/// The spans of the elements of the array that `s` is, if it is one. There may
/// be none at all, but after a comma there is one.
pub open spec fn elements(s: Seq<u8>) -> Option<Seq<(int, int)>> {
    let open = skip_white(s, 0);
    if open < s.len() && s[open] == 0x5b {
        let first = skip_white(s, open + 1);
        if first < s.len() && s[first] == 0x5d {
            if skip_white(s, first + 1) == s.len() {
                Some(Seq::empty())
            } else {
                None
            }
        } else {
            elements_from(s, open + 1)
        }
    } else {
        None
    }
}

/// Where the position lies.
pub proof fn lemma_skip_white(s: Seq<u8>, i: int)
    ensures
        i <= skip_white(s, i),
        0 <= i <= s.len() ==> skip_white(s, i) <= s.len(),
        forall|k: int| i <= k < skip_white(s, i) ==> ascii_white(#[trigger] s[k]),
        0 <= skip_white(s, i) < s.len() && 0 <= i ==> !ascii_white(s[skip_white(s, i)]),
    decreases s.len() - i,
{
    if 0 <= i < s.len() && ascii_white(s[i]) {
        lemma_skip_white(s, i + 1);
    }
}

/// Where the position lies.
pub proof fn lemma_value_end(s: Seq<u8>, i: int, depth: nat, quoted: bool, escaped: bool)
    ensures
        i <= value_end(s, i, depth, quoted, escaped),
        0 <= i <= s.len() ==> value_end(s, i, depth, quoted, escaped) <= s.len(),
        0 <= i && value_end(s, i, depth, quoted, escaped) < s.len() ==> {
            let c = s[value_end(s, i, depth, quoted, escaped)];
            c == 0x2c || c == 0x5d || c == 0x7d
        },
    decreases s.len() - i,
{
    if 0 <= i < s.len() {
        let c = s[i];
        if quoted {
            if escaped {
                lemma_value_end(s, i + 1, depth, true, false);
            } else if c == 0x5c {
                lemma_value_end(s, i + 1, depth, true, true);
            } else {
                lemma_value_end(s, i + 1, depth, c != 0x22, false);
            }
        } else if c == 0x22 {
            lemma_value_end(s, i + 1, depth, true, escaped);
        } else if c == 0x5b || c == 0x7b {
            lemma_value_end(s, i + 1, depth + 1, false, escaped);
        } else if c == 0x5d || c == 0x7d {
            if depth > 0 {
                lemma_value_end(s, i + 1, (depth - 1) as nat, false, escaped);
            }
        } else if c == 0x2c && depth == 0 {
        } else {
            lemma_value_end(s, i + 1, depth, false, escaped);
        }
    }
}

proof fn lemma_trimmed_end(s: Seq<u8>, from: int, to: int)
    requires
        0 <= from <= to <= s.len(),
    ensures
        from <= trimmed_end(s, from, to) <= to,
        forall|k: int| trimmed_end(s, from, to) <= k < to ==> ascii_white(#[trigger] s[k]),
    decreases to - from,
{
    if from < to && ascii_white(s[to - 1]) {
        lemma_trimmed_end(s, from, to - 1);
    }
}

/// The byte before a span and the byte after it are ASCII.
pub open spec fn ascii_edges(s: Seq<u8>, spans: Seq<(int, int)>) -> bool {
    forall|i: int|
        0 <= i < spans.len() ==> {
            &&& (#[trigger] spans[i]).0 > 0 ==> s[spans[i].0 - 1] < 0x80
            &&& spans[i].1 < s.len() ==> s[spans[i].1] < 0x80
        }
}

/// The elements of an array stand in order, are not empty, and have ASCII
/// around them.
pub proof fn law_elements_are_ordered(s: Seq<u8>)
    requires
        elements(s) is Some,
    ensures
        ordered(elements(s)->0, s.len() as int),
        ascii_edges(s, elements(s)->0),
        forall|i: int|
            0 <= i < elements(s)->0.len() ==> (#[trigger] elements(s)->0[i]).0
                < elements(s)->0[i].1,
{
    let open = skip_white(s, 0);
    lemma_skip_white(s, 0);
    lemma_skip_white(s, open + 1);
    if s[skip_white(s, open + 1)] != 0x5d {
        lemma_elements_from(s, open + 1);
    }
}

proof fn lemma_elements_from(s: Seq<u8>, i: int)
    requires
        0 < i <= s.len(),
        elements_from(s, i) is Some,
        s[i - 1] < 0x80,
    ensures
        ordered(elements_from(s, i)->0, s.len() as int),
        ascii_edges(s, elements_from(s, i)->0),
        forall|k: int|
            0 <= k < elements_from(s, i)->0.len() ==> i <= (#[trigger] elements_from(s, i)->0[k]).0
                < elements_from(s, i)->0[k].1,
    decreases s.len() - i,
{
    let start = skip_white(s, i);
    lemma_skip_white(s, i);
    let stop = value_end(s, start, 0, false, false);
    lemma_value_end(s, start, 0, false, false);
    let end = trimmed_end(s, start, stop);
    lemma_trimmed_end(s, start, stop);
    assert(start > i ==> ascii_white(s[start - 1]));
    assert(end < stop ==> ascii_white(s[end]));
    if s[stop] == 0x2c {
        lemma_elements_from(s, stop + 1);
        let rest = elements_from(s, stop + 1)->0;
        let all = elements_from(s, i)->0;
        assert(all =~= seq![(start, end)] + rest);
        assert(all[0] == (start, end));
        assert(forall|k: int| 0 < k < all.len() ==> #[trigger] all[k] == rest[k - 1]);
        assert forall|a: int, b: int| 0 <= a < b < all.len() implies (#[trigger] all[a]).1 <= (
        #[trigger] all[b]).0 by {
            assert(all[b] == rest[b - 1]);
            if a > 0 {
                assert(all[a] == rest[a - 1]);
            }
        }
    }
}

fn skip_white_from(s: &[u8], from: usize) -> (i: usize)
    requires
        from <= s@.len(),
    ensures
        i == skip_white(s@, from as int),
        from <= i <= s@.len(),
{
    let mut i: usize = from;
    while i < s.len() && is_ascii_white(s[i])
        invariant
            from <= i <= s@.len(),
            skip_white(s@, from as int) == skip_white(s@, i as int),
        decreases s@.len() - i,
    {
        i += 1;
    }
    i
}

/// The end of the value that begins at `start`.
fn value_end_from(s: &[u8], start: usize) -> (i: usize)
    requires
        start <= s@.len(),
    ensures
        i == value_end(s@, start as int, 0, false, false),
        start <= i <= s@.len(),
{
    let mut i: usize = start;
    let mut depth: usize = 0;
    let mut in_str = false;
    let mut esc = false;
    while i < s.len()
        invariant_except_break
            start <= i <= s@.len(),
            depth <= i - start,
            value_end(s@, start as int, 0, false, false) == value_end(
                s@,
                i as int,
                depth as nat,
                in_str,
                esc,
            ),
        ensures
            start <= i <= s@.len(),
            i == value_end(s@, start as int, 0, false, false),
        decreases s@.len() - i,
    {
        let c = s[i];
        if in_str {
            if esc {
                esc = false;
            } else if c == 0x5c {
                esc = true;
            } else if c == 0x22 {
                in_str = false;
            }
            i += 1;
            continue ;
        }
        if c == 0x22 {
            in_str = true;
        } else if c == 0x5b || c == 0x7b {
            depth += 1;
        } else if c == 0x5d || c == 0x7d {
            if depth == 0 {
                break ;
            }
            depth -= 1;
        } else if c == 0x2c && depth == 0 {
            break ;
        }
        i += 1;
    }
    i
}

fn trimmed_end_of(s: &[u8], from: usize, to: usize) -> (end: usize)
    requires
        from <= to <= s@.len(),
    ensures
        end == trimmed_end(s@, from as int, to as int),
        from <= end <= to,
{
    let mut end: usize = to;
    while end > from && is_ascii_white(s[end - 1])
        invariant
            from <= end <= to <= s@.len(),
            trimmed_end(s@, from as int, to as int) == trimmed_end(s@, from as int, end as int),
        decreases end - from,
    {
        end -= 1;
    }
    end
}

/// The byte ranges of the elements of the JSON array that `input` is; nothing
/// if it is no array that is closed and followed by nothing but white space, or
/// if an element is missing before or after a comma. A comma or bracket inside of a string never splits an element.
pub fn scan_top_level_array_elements(input: &[u8]) -> (out: Option<Vec<Range<usize>>>)
    ensures
        match out {
            Some(units) => elements(input@) == Some(spans(units@)),
            None => elements(input@) is None,
        },
{
    let n: usize = input.len();
    let open = skip_white_from(input, 0);
    if open >= n || input[open] != 0x5b {
        return None;
    }
    let mut elems: Vec<Range<usize>> = Vec::new();
    let first = skip_white_from(input, open + 1);
    if first < n && input[first] == 0x5d {
        let after = skip_white_from(input, first + 1);
        if after == n {
            assert(spans(elems@) =~= Seq::<(int, int)>::empty());
            return Some(elems);
        } else {
            return None;
        }
    }
    let ghost all = elements_from(input@, open + 1);
    let mut i: usize = open + 1;
    proof {
        match all {
            Some(r) => {
                assert(spans(elems@) + r =~= r);
            },
            None => {},
        }
    }
    loop
        invariant
            i <= n == input@.len(),
            all == elements(input@),
            match elements_from(input@, i as int) {
                Some(rest) => all == Some(spans(elems@) + rest),
                None => all is None,
            },
        decreases n - i,
    {
        let start = skip_white_from(input, i);
        if start >= n {
            return None;
        }
        let stop = value_end_from(input, start);
        let end = trimmed_end_of(input, start, stop);
        if end <= start || stop >= n {
            return None;
        }
        let ghost before = spans(elems@);
        elems.push(start..end);
        assert(spans(elems@) =~= before.push((start as int, end as int)));
        if input[stop] == 0x2c {
            i = stop + 1;
            proof {
                match elements_from(input@, i as int) {
                    Some(rest) => {
                        assert(before + (seq![(start as int, end as int)] + rest) =~= spans(elems@)
                            + rest);
                    },
                    None => {},
                }
            }
        } else if input[stop] == 0x5d {
            let after = skip_white_from(input, stop + 1);
            if after == n {
                assert(before + seq![(start as int, end as int)] =~= spans(elems@));
                return Some(elems);
            } else {
                return None;
            }
        } else {
            return None;
        }
    }
}

// ---------------------------------------------------------------------------
// Log lines
// ---------------------------------------------------------------------------

/// The position after the first line feed from `i` on; the length, if there is
/// none.
pub open spec fn line_end(s: Seq<u8>, i: int) -> int
    decreases s.len() - i,
{
    if i < 0 || i >= s.len() {
        s.len() as int
    } else if s[i] == 0xa {
        i + 1
    } else {
        line_end(s, i + 1)
    }
}

/// Where the position lies.
pub proof fn lemma_line_end(s: Seq<u8>, i: int)
    ensures
        0 <= i <= s.len() ==> i <= line_end(s, i) <= s.len(),
        0 <= i < s.len() ==> i < line_end(s, i),
        0 <= i < s.len() && line_end(s, i) < s.len() ==> s[line_end(s, i) - 1] == 0xa,
    decreases s.len() - i,
{
    if 0 <= i < s.len() && s[i] != 0xa {
        lemma_line_end(s, i + 1);
    }
}

/// The spans of the lines from `start` on, each with its line feed.
pub open spec fn line_spans(s: Seq<u8>, start: int) -> Seq<(int, int)>
    decreases s.len() - start,
{
    if start < 0 || start >= s.len() {
        Seq::empty()
    } else {
        proof {
            lemma_line_end(s, start);
        }
        seq![(start, line_end(s, start))] + line_spans(s, line_end(s, start))
    }
}

/// The spans follow each other without a gap from `from` to `to`.
pub open spec fn contiguous(spans: Seq<(int, int)>, from: int, to: int) -> bool
    decreases spans.len(),
{
    if spans.len() == 0 {
        from == to
    } else {
        spans[0].0 == from && spans[0].0 <= spans[0].1 && contiguous(spans.skip(1), spans[0].1, to)
    }
}

/// Spans without gaps stand in order.
proof fn lemma_contiguous(spans: Seq<(int, int)>, from: int, to: int)
    requires
        contiguous(spans, from, to),
    ensures
        from <= to,
        forall|i: int|
            0 <= i < spans.len() ==> from <= (#[trigger] spans[i]).0 <= spans[i].1 <= to,
        forall|i: int, j: int|
            0 <= i < j < spans.len() ==> (#[trigger] spans[i]).1 <= (#[trigger] spans[j]).0,
    decreases spans.len(),
{
    if spans.len() > 0 {
        let rest = spans.skip(1);
        lemma_contiguous(rest, spans[0].1, to);
        assert(forall|k: int| 0 < k < spans.len() ==> #[trigger] spans[k] == rest[k - 1]);
        assert forall|i: int, j: int| 0 <= i < j < spans.len() implies (#[trigger] spans[i]).1 <= (
        #[trigger] spans[j]).0 by {
            assert(spans[j] == rest[j - 1]);
            if i > 0 {
                assert(spans[i] == rest[i - 1]);
            }
        }
    }
}

/// The lines of an input follow each other without a gap from its beginning to
/// its end, and each but the last ends right after a line feed.
pub proof fn law_lines_tile(s: Seq<u8>)
    ensures
        contiguous(line_spans(s, 0), 0, s.len() as int),
        ordered(line_spans(s, 0), s.len() as int),
        ascii_edges_or_breaks(s, line_spans(s, 0)),
{
    lemma_lines_from(s, 0);
    lemma_contiguous(line_spans(s, 0), 0, s.len() as int);
}

/// Before each span and at each end there is nothing or a line feed.
pub open spec fn ascii_edges_or_breaks(s: Seq<u8>, spans: Seq<(int, int)>) -> bool {
    forall|i: int|
        0 <= i < spans.len() ==> {
            &&& (#[trigger] spans[i]).0 > 0 ==> s[spans[i].0 - 1] == 0xa
            &&& 0 < spans[i].1 < s.len() ==> s[spans[i].1 - 1] == 0xa
        }
}

proof fn lemma_lines_from(s: Seq<u8>, start: int)
    requires
        0 <= start <= s.len(),
        start > 0 && start < s.len() ==> s[start - 1] == 0xa,
    ensures
        contiguous(line_spans(s, start), start, s.len() as int),
        ascii_edges_or_breaks(s, line_spans(s, start)),
    decreases s.len() - start,
{
    if start < s.len() {
        let end = line_end(s, start);
        lemma_line_end(s, start);
        lemma_lines_from(s, end);
        let all = line_spans(s, start);
        let rest = line_spans(s, end);
        assert(all =~= seq![(start, end)] + rest);
        assert(all.skip(1) =~= rest);
        assert(all[0] == (start, end));
        assert(forall|k: int| 0 < k < all.len() ==> #[trigger] all[k] == rest[k - 1]);
    }
}

/// The byte ranges of the lines of `input`, each with its line feed.
pub fn scan_log_lines(input: &[u8]) -> (out: Vec<Range<usize>>)
    ensures
        spans(out@) == line_spans(input@, 0),
{
    let mut lines: Vec<Range<usize>> = Vec::new();
    let mut start: usize = 0;
    let mut i: usize = 0;
    assert(spans(lines@) + line_spans(input@, 0) =~= line_spans(input@, 0));
    while i < input.len()
        invariant
            start <= i <= input@.len(),
            spans(lines@) + line_spans(input@, start as int) == line_spans(input@, 0),
            start < i ==> line_end(input@, start as int) == line_end(input@, i as int),
            forall|k: int| start <= k < i ==> input@[k] != 0xa,
        decreases input@.len() - i,
    {
        if input[i] == 0xa {
            let ghost before = spans(lines@);
            lines.push(start..i + 1);
            assert(line_end(input@, start as int) == i + 1);
            assert(spans(lines@) =~= before.push((start as int, i + 1)));
            assert(before + (seq![(start as int, i + 1)] + line_spans(input@, i + 1)) =~= spans(
                lines@,
            ) + line_spans(input@, i + 1));
            start = i + 1;
        }
        i += 1;
    }
    if start < input.len() {
        let ghost before = spans(lines@);
        lines.push(start..input.len());
        let ghost n = input@.len() as int;
        assert(line_end(input@, start as int) == n);
        assert(spans(lines@) =~= before.push((start as int, n)));
        assert(line_spans(input@, n) =~= Seq::empty());
        assert(line_spans(input@, start as int) =~= seq![(start as int, n)]);
        assert(before + seq![(start as int, n)] =~= spans(lines@));
    } else {
        assert(spans(lines@) + line_spans(input@, start as int) =~= spans(lines@));
    }
    lines
}

// ---------------------------------------------------------------------------
// The units of an input
// ---------------------------------------------------------------------------

/// The spans of the units of an input: none in text, nor in JSON that is no
/// array.
pub open spec fn unit_spans(input: Seq<u8>) -> Seq<(int, int)> {
    match content_type(input) {
        ContentType::Json => match elements(input) {
            Some(spans) => spans,
            None => Seq::empty(),
        },
        ContentType::Log => line_spans(input, 0),
        ContentType::Text => Seq::empty(),
    }
}

/// What the units of an input are called.
pub open spec fn unit_noun(input: Seq<u8>) -> Seq<char> {
    match content_type(input) {
        ContentType::Json => "items"@,
        ContentType::Log => "lines"@,
        ContentType::Text => "bytes"@,
    }
}

/// The units of every input stand in order.
pub proof fn law_units_are_ordered(input: Seq<u8>)
    ensures
        ordered(unit_spans(input), input.len() as int),
{
    match content_type(input) {
        ContentType::Json => {
            if elements(input) is Some {
                law_elements_are_ordered(input);
            }
        },
        ContentType::Log => {
            law_lines_tile(input);
        },
        ContentType::Text => {},
    }
}

/// The units of `input` and what they are called.
pub fn units_for(input: &[u8]) -> (out: (Vec<Range<usize>>, &'static str))
    ensures
        spans(out.0@) == unit_spans(input@),
        out.1@ == unit_noun(input@),
{
    match detect(input) {
        ContentType::Json => {
            let units = match scan_top_level_array_elements(input) {
                Some(units) => units,
                None => {
                    let none: Vec<Range<usize>> = Vec::new();
                    assert(spans(none@) =~= Seq::empty());
                    none
                },
            };
            (units, "items")
        },
        ContentType::Log => (scan_log_lines(input), "lines"),
        ContentType::Text => {
            let none: Vec<Range<usize>> = Vec::new();
            assert(spans(none@) =~= Seq::empty());
            (none, "bytes")
        },
    }
}

/// The unit is the first or differs from the one before it.
pub open spec fn survives_dedup(input: Seq<u8>, spans: Seq<(int, int)>, i: int) -> bool {
    i == 0 || span_bytes(input, spans[i]) != span_bytes(input, spans[i - 1])
}

/// For each unit whether it survives.
pub open spec fn dedup_mask(input: Seq<u8>, spans: Seq<(int, int)>) -> Seq<bool> {
    Seq::new(spans.len(), |i: int| survives_dedup(input, spans, i))
}

/// Whether two ranges of the input hold the same bytes.
fn same_range(input: &[u8], a: &Range<usize>, b: &Range<usize>) -> (r: bool)
    requires
        a.start <= a.end <= input@.len(),
        b.start <= b.end <= input@.len(),
    ensures
        r == (input@.subrange(a.start as int, a.end as int) == input@.subrange(
            b.start as int,
            b.end as int,
        )),
{
    let ghost x = input@.subrange(a.start as int, a.end as int);
    let ghost y = input@.subrange(b.start as int, b.end as int);
    if a.end - a.start != b.end - b.start {
        assert(x.len() != y.len());
        return false;
    }
    let n: usize = a.end - a.start;
    let mut k: usize = 0;
    while k < n
        invariant
            k <= n,
            a.start + n == a.end,
            b.start + n == b.end,
            a.end <= input@.len(),
            b.end <= input@.len(),
            x == input@.subrange(a.start as int, a.end as int),
            y == input@.subrange(b.start as int, b.end as int),
            forall|j: int| 0 <= j < k ==> x[j] == y[j],
        decreases n - k,
    {
        if input[a.start + k] != input[b.start + k] {
            assert(x[k as int] != y[k as int]);
            return false;
        }
        k += 1;
    }
    assert(x =~= y);
    true
}

/// Marks the first unit of each run of equal units.
pub fn dedup_survivor_mask(input: &[u8], units: &[Range<usize>]) -> (mask: Vec<bool>)
    requires
        ordered(spans(units@), input@.len() as int),
    ensures
        mask@ == dedup_mask(input@, spans(units@)),
{
    let mut mask: Vec<bool> = Vec::new();
    let mut i: usize = 0;
    while i < units.len()
        invariant
            i <= units@.len(),
            ordered(spans(units@), input@.len() as int),
            mask@.len() == i,
            forall|k: int|
                0 <= k < i ==> mask@[k] == survives_dedup(input@, spans(units@), k),
        decreases units@.len() - i,
    {
        assert(spans(units@)[i as int] == (
            units@[i as int].start as int,
            units@[i as int].end as int,
        ));
        if i == 0 {
            mask.push(true);
        } else {
            assert(spans(units@)[i - 1] == (
                units@[i - 1].start as int,
                units@[i - 1].end as int,
            ));
            let same = same_range(input, &units[i], &units[i - 1]);
            mask.push(!same);
        }
        i += 1;
    }
    assert(mask@ =~= dedup_mask(input@, spans(units@)));
    mask
}

/// A unit that is dropped as a duplicate has the bytes of an earlier unit that
/// survives.
pub proof fn law_duplicates_have_a_survivor(input: Seq<u8>, spans: Seq<(int, int)>, i: int)
    requires
        0 <= i < spans.len(),
    ensures
        exists|j: int|
            0 <= j <= i && survives_dedup(input, spans, j) && span_bytes(
                input,
                #[trigger] spans[j],
            ) == span_bytes(input, spans[i]),
    decreases i,
{
    if !survives_dedup(input, spans, i) {
        law_duplicates_have_a_survivor(input, spans, i - 1);
    } else {
        assert(span_bytes(input, spans[i]) == span_bytes(input, spans[i]));
    }
}

/// How a value is scanned, byte by byte: inside quotes only a quote that no
/// backslash escapes ends them; outside, brackets and braces nest, and a comma or
/// a closing bracket or brace that nothing inside opened ends the value.
pub proof fn law_value_scanning(s: Seq<u8>, i: int, depth: nat)
    requires
        0 <= i < s.len(),
    ensures
        value_end(s, i, depth, true, true) == value_end(s, i + 1, depth, true, false),
        s[i] == 0x5c ==> value_end(s, i, depth, true, false) == value_end(
            s,
            i + 1,
            depth,
            true,
            true,
        ),
        s[i] == 0x22 ==> value_end(s, i, depth, true, false) == value_end(
            s,
            i + 1,
            depth,
            false,
            false,
        ) && value_end(s, i, depth, false, false) == value_end(s, i + 1, depth, true, false),
        s[i] != 0x5c && s[i] != 0x22 ==> value_end(s, i, depth, true, false) == value_end(
            s,
            i + 1,
            depth,
            true,
            false,
        ),
        s[i] == 0x5b || s[i] == 0x7b ==> value_end(s, i, depth, false, false) == value_end(
            s,
            i + 1,
            depth + 1,
            false,
            false,
        ),
        s[i] == 0x5d || s[i] == 0x7d ==> value_end(s, i, depth + 1, false, false) == value_end(
            s,
            i + 1,
            depth,
            false,
            false,
        ),
        s[i] == 0x5d || s[i] == 0x7d || s[i] == 0x2c ==> value_end(s, i, 0, false, false) == i,
        s[i] == 0x2c && depth > 0 ==> value_end(s, i, depth, false, false) == value_end(
            s,
            i + 1,
            depth,
            false,
            false,
        ),
        s[i] != 0x22 && s[i] != 0x5b && s[i] != 0x7b && s[i] != 0x5d && s[i] != 0x7d && s[i] != 0x2c
            ==> value_end(s, i, depth, false, false) == value_end(s, i + 1, depth, false, false),
        value_end(s, s.len() as int, depth, false, false) == s.len(),
        value_end(s, s.len() as int, depth, true, false) == s.len(),
{
}

/// White space is skipped up to the first byte that is none, and cut off after the
/// last.
pub proof fn law_white_runs(s: Seq<u8>, from: int, to: int)
    requires
        0 <= from <= to <= s.len(),
    ensures
        from <= skip_white(s, from) <= s.len(),
        forall|k: int| from <= k < skip_white(s, from) ==> ascii_white(#[trigger] s[k]),
        skip_white(s, from) < s.len() ==> !ascii_white(s[skip_white(s, from)]),
        from <= trimmed_end(s, from, to) <= to,
        forall|k: int| trimmed_end(s, from, to) <= k < to ==> ascii_white(#[trigger] s[k]),
        trimmed_end(s, from, to) > from ==> !ascii_white(s[trimmed_end(s, from, to) - 1]),
    decreases to - from,
{
    lemma_skip_white(s, from);
    if from < to && ascii_white(s[to - 1]) {
        law_white_runs(s, from, to - 1);
    }
}

/// The byte is in one of the spans.
pub open spec fn in_spans(spans: Seq<(int, int)>, p: int) -> bool {
    exists|k: int| 0 <= k < spans.len() && (#[trigger] spans[k]).0 <= p < spans[k].1
}

/// The elements of an array leave nothing out: each byte of it is part of one of
/// them, or white space, a comma, or one of the array's own brackets, which are the
/// first and the last byte that is no white space. Each element begins where a
/// value begins and ends where that value ends, and between two of them is a comma.
pub proof fn law_elements_leave_nothing_out(s: Seq<u8>, p: int, k: int)
    requires
        elements(s) is Some,
    ensures
        0 <= p < s.len() && !ascii_white(s[p]) && s[p] != 0x2c && p != skip_white(s, 0)
            && skip_white(s, p + 1) < s.len() ==> exists|k: int|
            0 <= k < elements(s)->0.len() && (#[trigger] elements(s)->0[k]).0 <= p
                < elements(s)->0[k].1,
        skip_white(s, 0) < s.len() && s[skip_white(s, 0)] == 0x5b,
        0 <= p < s.len() && !ascii_white(s[p]) && skip_white(s, p + 1) == s.len() ==> s[p] == 0x5d,
        0 <= k < elements(s)->0.len() ==> {
            let at = elements(s)->0[k];
            let stop = value_end(s, at.0, 0, false, false);
            &&& !ascii_white(s[at.0])
            &&& at.1 == trimmed_end(s, at.0, stop)
            &&& stop < s.len()
            &&& k + 1 < elements(s)->0.len() ==> s[stop] == 0x2c && elements(s)->0[k + 1].0
                == skip_white(s, stop + 1)
            &&& k + 1 == elements(s)->0.len() ==> s[stop] == 0x5d && skip_white(s, stop + 1)
                == s.len()
        },
{
    let open = skip_white(s, 0);
    lemma_skip_white(s, 0);
    let first = skip_white(s, open + 1);
    lemma_skip_white(s, open + 1);
    if 0 <= p < s.len() {
        lemma_skip_white(s, p + 1);
    }
    if first < s.len() && s[first] == 0x5d {
        lemma_skip_white(s, first + 1);
        assert(elements(s)->0.len() == 0);
        if 0 <= p < s.len() && !ascii_white(s[p]) {
            assert(p == open || p == first);
        }
    } else {
        lemma_elements_cover(s, open + 1, p, k);
        if 0 <= p < s.len() && !ascii_white(s[p]) {
            assert(p >= open);
            if p == open && skip_white(s, p + 1) == s.len() {
                assert(elements_from(s, open + 1) is None);
            }
        }
    }
}

proof fn lemma_elements_cover(s: Seq<u8>, i: int, p: int, k: int)
    requires
        0 < i <= s.len(),
        elements_from(s, i) is Some,
    ensures
        i <= p < s.len() && !ascii_white(s[p]) && s[p] != 0x2c && skip_white(s, p + 1) < s.len()
            ==> in_spans(elements_from(s, i)->0, p),
        i <= p < s.len() && !ascii_white(s[p]) && skip_white(s, p + 1) == s.len() ==> s[p] == 0x5d,
        0 <= k < elements_from(s, i)->0.len() ==> {
            let at = elements_from(s, i)->0[k];
            let stop = value_end(s, at.0, 0, false, false);
            &&& !ascii_white(s[at.0])
            &&& at.1 == trimmed_end(s, at.0, stop)
            &&& stop < s.len()
            &&& k + 1 < elements_from(s, i)->0.len() ==> s[stop] == 0x2c && elements_from(
                s,
                i,
            )->0[k + 1].0 == skip_white(s, stop + 1)
            &&& k + 1 == elements_from(s, i)->0.len() ==> s[stop] == 0x5d && skip_white(s, stop + 1)
                == s.len()
        },
        elements_from(s, i)->0.len() > 0,
        elements_from(s, i)->0[0].0 == skip_white(s, i),
    decreases s.len() - i,
{
    let start = skip_white(s, i);
    lemma_skip_white(s, i);
    let stop = value_end(s, start, 0, false, false);
    lemma_value_end(s, start, 0, false, false);
    let end = trimmed_end(s, start, stop);
    lemma_trimmed_end(s, start, stop);
    let all = elements_from(s, i)->0;
    assert(all[0] == (start, end));
    if i <= p < s.len() && !ascii_white(s[p]) {
        lemma_skip_white(s, p + 1);
        if p < start {
            assert(ascii_white(s[p]));
        } else if p < end {
            assert(in_spans(all, p)) by {
                assert(all[0].0 <= p < all[0].1);
            }
            assert(skip_white(s, p + 1) <= stop) by {
                if stop < skip_white(s, p + 1) {
                    assert(ascii_white(s[stop]));
                }
            }
        } else if p < stop {
            assert(ascii_white(s[p]));
        }
    }
    if s[stop] == 0x2c {
        let rest = elements_from(s, stop + 1)->0;
        lemma_elements_cover(s, stop + 1, p, k - 1);
        assert(all =~= seq![(start, end)] + rest);
        assert(forall|m: int| 0 <= m < rest.len() ==> #[trigger] rest[m] == all[m + 1]);
        if stop + 1 <= p && in_spans(rest, p) {
            let m = choose|m: int| 0 <= m < rest.len() && (#[trigger] rest[m]).0 <= p < rest[m].1;
            assert(all[m + 1].0 <= p < all[m + 1].1);
        }
        if k > 0 && k < all.len() {
            assert(all[k] == rest[k - 1]);
            if k + 1 < all.len() {
                assert(all[k + 1] == rest[k]);
            }
        }
        if p == stop {
            lemma_skip_white(s, stop + 1);
            assert(skip_white(s, stop + 1) < s.len());
        }
    } else {
        lemma_skip_white(s, stop + 1);
        if stop < p < s.len() {
            assert(ascii_white(s[p]));
        }
    }
}

/// A line ends with its only line feed, or where the input ends.
pub proof fn law_lines_end_at_line_feeds(s: Seq<u8>, i: int, p: int)
    requires
        0 <= i < line_spans(s, 0).len(),
        line_spans(s, 0)[i].0 <= p < line_spans(s, 0)[i].1,
    ensures
        s[p] == 0xa ==> p == line_spans(s, 0)[i].1 - 1,
        p == line_spans(s, 0)[i].1 - 1 && s[p] != 0xa ==> line_spans(s, 0)[i].1 == s.len(),
{
    lemma_line_breaks(s, 0, i, p);
}

proof fn lemma_line_breaks(s: Seq<u8>, start: int, i: int, p: int)
    requires
        0 <= start <= s.len(),
        0 <= i < line_spans(s, start).len(),
        line_spans(s, start)[i].0 <= p < line_spans(s, start)[i].1,
    ensures
        s[p] == 0xa ==> p == line_spans(s, start)[i].1 - 1,
        p == line_spans(s, start)[i].1 - 1 && s[p] != 0xa ==> line_spans(s, start)[i].1 == s.len(),
    decreases s.len() - start,
{
    lemma_line_end(s, start);
    let end = line_end(s, start);
    if i == 0 {
        lemma_first_break(s, start, p);
    } else {
        assert(line_spans(s, start)[i] == line_spans(s, end)[i - 1]);
        lemma_line_breaks(s, end, i - 1, p);
    }
}

proof fn lemma_first_break(s: Seq<u8>, start: int, p: int)
    requires
        0 <= start <= p < line_end(s, start) <= s.len(),
    ensures
        s[p] == 0xa ==> p == line_end(s, start) - 1,
        p == line_end(s, start) - 1 && s[p] != 0xa ==> line_end(s, start) == s.len(),
    decreases s.len() - start,
{
    if s[start] != 0xa {
        if start < p {
            lemma_first_break(s, start + 1, p);
        } else {
            lemma_line_end(s, start + 1);
            reveal_with_fuel(line_end, 2);
        }
    }
}

/// The units are the elements of a JSON array, or the lines of a log; anything
/// else has none.
pub proof fn law_units(input: Seq<u8>)
    ensures
        content_type(input) == ContentType::Json && elements(input) is Some ==> unit_spans(input)
            == elements(input)->0,
        content_type(input) == ContentType::Json && elements(input) is None ==> unit_spans(
            input,
        ).len() == 0,
        content_type(input) == ContentType::Log ==> unit_spans(input) == line_spans(input, 0),
        content_type(input) == ContentType::Text ==> unit_spans(input).len() == 0,
        content_type(input) == ContentType::Json ==> unit_noun(input) == "items"@,
        content_type(input) == ContentType::Log ==> unit_noun(input) == "lines"@,
        content_type(input) == ContentType::Text ==> unit_noun(input) == "bytes"@,
{
}

/// A unit is dropped as a duplicate exactly if it is, byte for byte, the one just
/// before it.
pub proof fn law_dedup(input: Seq<u8>, spans: Seq<(int, int)>, i: int)
    ensures
        dedup_mask(input, spans).len() == spans.len(),
        0 <= i < spans.len() ==> (dedup_mask(input, spans)[i] <==> i == 0 || input.subrange(
            spans[i].0,
            spans[i].1,
        ) != input.subrange(spans[i - 1].0, spans[i - 1].1)),
{
}

/// Units are where their ranges say, every one.
pub proof fn law_span_views(units: Seq<Range<usize>>, input: Seq<u8>, i: int)
    ensures
        spans(units).len() == units.len(),
        0 <= i < units.len() ==> spans(units)[i] == (
            units[i].start as int,
            units[i].end as int,
        ) && span_bytes(input, spans(units)[i]) == input.subrange(
            units[i].start as int,
            units[i].end as int,
        ),
{
}

} // verus!
