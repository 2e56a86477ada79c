//! Small windows into held data: bytes, rows, lines and matching lines.
use crate::budget::marked;
use crate::histogram::line_hits;
use crate::json::{
    array_value, json_result, open_value, parse_value, pretty_json, pretty_value, value_tree,
    value_trees, Node, Tree,
};
use crate::limits::RetrieveLimits;
use crate::numeral::{column_of, right_aligned};
use crate::path::outcome;
use crate::text::{
    chars_of, decimal, decimal_of, has_chars, join, join_of, lines, lines_of, seqs, string_of, texts,
};
use crate::utf8::{lossy_text, lowercase, unicode_lower, utf8_lossy};
use vstd::prelude::*;
use vstd::slice::slice_subrange;

verus! {

/// The smaller of two numbers.
pub open spec fn smaller(a: nat, b: nat) -> nat {
    if a <= b {
        a
    } else {
        b
    }
}

/// The number, or another one where it is not there.
pub open spec fn count_or(n: Option<usize>, otherwise: nat) -> nat {
    match n {
        Some(v) => v as nat,
        None => otherwise,
    }
}

fn smaller_of(a: usize, b: usize) -> (m: usize)
    ensures
        m == smaller(a as nat, b as nat),
{
    if a <= b {
        a
    } else {
        b
    }
}

// ---------------------------------------------------------------------------
// Bytes
// ---------------------------------------------------------------------------

/// Some of the bytes of a payload.
#[derive(Debug)]
pub struct ByteWindow<'a> {
    /// Where the window begins.
    pub start: usize,
    /// Where it ends.
    pub end: usize,
    /// The length of the payload.
    pub total: usize,
    /// The bytes in the window.
    pub bytes: &'a [u8],
}

/// Where a window of at most `len` bytes from `start` begins and ends.
pub open spec fn window_range(total: nat, start: Option<usize>, len: Option<usize>) -> (nat, nat) {
    let from = smaller(count_or(start, 0), total);
    (
        from,
        match len {
            Some(n) => smaller(from + n as nat, total),
            None => total,
        },
    )
}

/// The bytes from `start` on, at most `max_bytes` of them.
pub fn byte_window<'a>(bytes: &'a [u8], start: Option<usize>, max_bytes: Option<usize>) -> (out:
    ByteWindow<'a>)
    ensures
        (out.start as nat, out.end as nat) == window_range(bytes@.len(), start, max_bytes),
        out.start <= out.end <= out.total,
        out.total == bytes@.len(),
        out.bytes@ == bytes@.subrange(out.start as int, out.end as int),
{
    let total: usize = bytes.len();
    let asked: usize = match start {
        Some(n) => n,
        None => 0,
    };
    let from: usize = smaller_of(asked, total);
    let end: usize = match max_bytes {
        Some(n) => if n <= total - from {
            from + n
        } else {
            total
        },
        None => total,
    };
    ByteWindow { start: from, end, total, bytes: slice_subrange(bytes, from, end) }
}

/// The answer to a retrieval: the whole payload or a window, with a line about
/// the window where it was asked for or does not reach the end.
pub open spec fn retrieved(
    bytes: Seq<u8>,
    start: Option<usize>,
    max_bytes: Option<usize>,
    full: bool,
    limits: RetrieveLimits,
) -> Result<Seq<char>, Seq<char>> {
    if full {
        if start is Some || max_bytes is Some {
            Err("full=true cannot be combined with start or max_bytes"@)
        } else if bytes.len() > limits.max_bytes {
            Err(
                "full retrieval would return "@ + decimal(bytes.len())
                    + " bytes, exceeding COFFER_MCP_MAX_RETRIEVE_BYTES="@ + decimal(
                    limits.max_bytes as nat,
                )
                    + " (use start/max_bytes for a bounded window, or raise the limit intentionally)"@,
            )
        } else {
            Ok(utf8_lossy(bytes))
        }
    } else {
        let len = count_or(max_bytes, limits.default_bytes as nat);
        let range = window_range(bytes.len(), start, Some(len as usize));
        let text = utf8_lossy(bytes.subrange(range.0 as int, range.1 as int));
        if len > limits.max_bytes {
            Err(
                "requested max_bytes="@ + decimal(len)
                    + " exceeds COFFER_MCP_MAX_RETRIEVE_BYTES="@ + decimal(
                    limits.max_bytes as nat,
                ),
            )
        } else if start is Some || max_bytes is Some || range.1 < bytes.len() {
            Ok(
                "bytes "@ + decimal(range.0) + ".."@ + decimal(range.1) + " of "@ + decimal(
                    bytes.len(),
                ) + " ("@ + decimal(range.0) + " before, "@ + decimal(
                    (bytes.len() - range.1) as nat,
                ) + " after)\n"@ + text,
            )
        } else {
            Ok(text)
        }
    }
}

/// The answer to a retrieval.
pub fn render_retrieved_bytes(
    bytes: &[u8],
    start: Option<usize>,
    max_bytes: Option<usize>,
    full: bool,
    limits: RetrieveLimits,
) -> (out: Result<String, String>)
    ensures
        outcome(out) == retrieved(bytes@, start, max_bytes, full, limits),
{
    if full {
        if start.is_some() || max_bytes.is_some() {
            return Err("full=true cannot be combined with start or max_bytes".to_owned());
        }
        if bytes.len() > limits.max_bytes {
            return Err(
                "full retrieval would return ".to_owned().concat(
                    decimal_of(bytes.len()).as_str(),
                ).concat(" bytes, exceeding COFFER_MCP_MAX_RETRIEVE_BYTES=").concat(
                    decimal_of(limits.max_bytes).as_str(),
                ).concat(
                    " (use start/max_bytes for a bounded window, or raise the limit intentionally)",
                ),
            );
        }
        return Ok(lossy_text(bytes));
    }
    let len: usize = match max_bytes {
        Some(n) => n,
        None => limits.default_bytes,
    };
    if len > limits.max_bytes {
        return Err(
            "requested max_bytes=".to_owned().concat(decimal_of(len).as_str()).concat(
                " exceeds COFFER_MCP_MAX_RETRIEVE_BYTES=",
            ).concat(decimal_of(limits.max_bytes).as_str()),
        );
    }
    let window = byte_window(bytes, start, Some(len));
    let text = lossy_text(window.bytes);
    if start.is_some() || max_bytes.is_some() || window.end < window.total {
        Ok(
            "bytes ".to_owned().concat(decimal_of(window.start).as_str()).concat("..").concat(
                decimal_of(window.end).as_str(),
            ).concat(" of ").concat(decimal_of(window.total).as_str()).concat(" (").concat(
                decimal_of(window.start).as_str(),
            ).concat(" before, ").concat(decimal_of(window.total - window.end).as_str()).concat(
                " after)\n",
            ).concat(text.as_str()),
        )
    } else {
        Ok(text)
    }
}

/// A retrieval never gives more than the limit allows: the whole payload is no
/// longer than the limit, and no window is.
pub proof fn law_retrieval_is_bounded(
    bytes: Seq<u8>,
    start: Option<usize>,
    max_bytes: Option<usize>,
    full: bool,
    limits: RetrieveLimits,
)
    requires
        bytes.len() <= usize::MAX,
        retrieved(bytes, start, max_bytes, full, limits) is Ok,
    ensures
        full ==> bytes.len() <= limits.max_bytes,
        !full ==> ({
            let range = window_range(
                bytes.len(),
                start,
                Some(count_or(max_bytes, limits.default_bytes as nat) as usize),
            );
            range.0 <= range.1 <= bytes.len() && range.1 - range.0 <= limits.max_bytes
        }),
{
}

/// Adjoining windows give the bytes without a gap or an overlap.
pub proof fn law_windows_tile(bytes: Seq<u8>, start: usize, len: usize, next: usize)
    requires
        bytes.len() <= usize::MAX,
        start + len <= usize::MAX,
    ensures
        ({
            let first = window_range(bytes.len(), Some(start), Some(len));
            let second = window_range(bytes.len(), Some((start + len) as usize), Some(next));
            &&& first.1 == second.0
            &&& bytes.subrange(first.0 as int, first.1 as int) + bytes.subrange(
                second.0 as int,
                second.1 as int,
            ) == bytes.subrange(first.0 as int, second.1 as int)
        }),
{
    let first = window_range(bytes.len(), Some(start), Some(len));
    let second = window_range(bytes.len(), Some((start + len) as usize), Some(next));
    assert(bytes.subrange(first.0 as int, first.1 as int) + bytes.subrange(
        second.0 as int,
        second.1 as int,
    ) =~= bytes.subrange(first.0 as int, second.1 as int));
}

// ---------------------------------------------------------------------------
// Rows
// ---------------------------------------------------------------------------

/// How many rows are shown where nothing is asked for.
pub const DEFAULT_ROWS: usize = 20;

/// Where a page of rows begins and ends. At least one row may be shown.
pub open spec fn page_range(
    total: nat,
    start: Option<usize>,
    limit: Option<usize>,
    max_rows: nat,
) -> (nat, nat) {
    let from = smaller(count_or(start, 0), total);
    let most = if max_rows == 0 {
        1
    } else {
        max_rows
    };
    (from, smaller(from + smaller(count_or(limit, DEFAULT_ROWS as nat), most), total))
}

/// The answer to a request for a page of rows.
pub open spec fn rows_text(
    bytes: Seq<u8>,
    start: Option<usize>,
    limit: Option<usize>,
    max_rows: nat,
) -> Result<Seq<char>, Seq<char>> {
    match json_result(bytes) {
        Err(e) => Err("not valid JSON: "@ + e),
        Ok(Tree::Array(rows)) => {
            let range = page_range(rows.len(), start, limit, max_rows);
            match pretty_json(Tree::Array(rows.subrange(range.0 as int, range.1 as int))) {
                Err(e) => Err("render rows: "@ + e),
                Ok(body) => Ok(
                    "rows "@ + decimal(range.0) + ".."@ + decimal(range.1) + " of "@ + decimal(
                        rows.len(),
                    ) + " ("@ + decimal(range.0) + " before, "@ + decimal(
                        (rows.len() - range.1) as nat,
                    ) + " after)\n"@ + body,
                ),
            }
        },
        Ok(_) => Err("held data is JSON but not an array"@),
    }
}

/// The values from `from` up to `to`.
fn value_page(rows: Vec<serde_json::Value>, from: usize, to: usize) -> (out: Vec<serde_json::Value>)
    requires
        from <= to <= rows@.len(),
    ensures
        value_trees(out@) == value_trees(rows@).subrange(from as int, to as int),
{
    let ghost all = rows@;
    let mut rest = rows;
    let mut tail = rest.split_off(from);
    let _ = tail.split_off(to - from);
    assert(tail@ =~= all.subrange(from as int, to as int));
    assert(value_trees(tail@) =~= value_trees(all).subrange(from as int, to as int));
    tail
}

/// The answer to a request for a page of rows.
pub fn render_json_rows(
    bytes: &[u8],
    start: Option<usize>,
    limit: Option<usize>,
    max_rows: usize,
) -> (out: Result<String, String>)
    ensures
        outcome(out) == rows_text(bytes@, start, limit, max_rows as nat),
{
    let value = match parse_value(bytes) {
        Ok(value) => value,
        Err(e) => {
            return Err("not valid JSON: ".to_owned().concat(e.as_str()));
        },
    };
    let ghost tree = value_tree(value);
    let rows = match open_value(value) {
        Node::Array(rows) => rows,
        _ => {
            return Err("held data is JSON but not an array".to_owned());
        },
    };
    assert(tree == Tree::Array(value_trees(rows@)));
    let total: usize = rows.len();
    let asked: usize = match start {
        Some(n) => n,
        None => 0,
    };
    let from: usize = smaller_of(asked, total);
    let most: usize = if max_rows == 0 {
        1
    } else {
        max_rows
    };
    let size: usize = smaller_of(
        match limit {
            Some(n) => n,
            None => DEFAULT_ROWS,
        },
        most,
    );
    let end: usize = if size <= total - from {
        from + size
    } else {
        total
    };
    let page = array_value(value_page(rows, from, end));
    match pretty_value(&page) {
        Ok(body) => Ok(
            "rows ".to_owned().concat(decimal_of(from).as_str()).concat("..").concat(
                decimal_of(end).as_str(),
            ).concat(" of ").concat(decimal_of(total).as_str()).concat(" (").concat(
                decimal_of(from).as_str(),
            ).concat(" before, ").concat(decimal_of(total - end).as_str()).concat(
                " after)\n",
            ).concat(body.as_str()),
        ),
        Err(e) => Err("render rows: ".to_owned().concat(e.as_str())),
    }
}

/// No page has more rows than the limit allows, however many are asked for.
pub proof fn law_page_is_bounded(
    total: nat,
    start: Option<usize>,
    limit: Option<usize>,
    max_rows: nat,
)
    requires
        max_rows > 0,
    ensures
        ({
            let range = page_range(total, start, limit, max_rows);
            range.0 <= range.1 <= total && range.1 - range.0 <= max_rows
        }),
{
}

// ---------------------------------------------------------------------------
// Lines
// ---------------------------------------------------------------------------

/// How many lines are shown where nothing is asked for.
pub const DEFAULT_LINES: usize = 80;

/// The width of the column of line numbers.
pub const NUMBER_WIDTH: usize = 6;

/// A line with its number.
pub open spec fn numbered(n: nat, line: Seq<char>) -> Seq<char> {
    right_aligned(decimal(n), NUMBER_WIDTH as nat) + "|"@ + line
}

/// The lines from `from` up to `to`, each with its number.
pub open spec fn numbered_lines(ls: Seq<Seq<char>>, from: int, to: int) -> Seq<Seq<char>> {
    Seq::new((to - from) as nat, |i: int| numbered((from + i + 1) as nat, ls[from + i]))
}

/// Which lines are shown: the first, the last, or those from one number through
/// another.
pub open spec fn line_range(
    total: nat,
    start_line: Option<usize>,
    end_line: Option<usize>,
    head: Option<usize>,
    tail: Option<usize>,
) -> (nat, nat) {
    match (head, tail) {
        (Some(n), _) => (0, smaller(n as nat, total)),
        (None, Some(n)) => (
            if n as nat <= total {
                (total - n) as nat
            } else {
                0
            },
            total,
        ),
        (None, None) => {
            let first = if count_or(start_line, 1) == 0 {
                1
            } else {
                count_or(start_line, 1)
            };
            let last = count_or(
                end_line,
                smaller(first + (DEFAULT_LINES - 1) as nat, usize::MAX as nat),
            );
            let from = smaller((first - 1) as nat, total);
            (
                from,
                if last < first {
                    from
                } else {
                    smaller(last, total)
                },
            )
        },
    }
}

/// The answer to a request for lines.
pub open spec fn lines_text(
    bytes: Seq<u8>,
    start_line: Option<usize>,
    end_line: Option<usize>,
    head: Option<usize>,
    tail: Option<usize>,
) -> Result<Seq<char>, Seq<char>> {
    if head is Some && tail is Some {
        Err("choose either head or tail, not both"@)
    } else if (head is Some || tail is Some) && (start_line is Some || end_line is Some) {
        Err("choose head/tail or start_line/end_line, not both"@)
    } else {
        let ls = lines(utf8_lossy(bytes));
        let range = line_range(ls.len(), start_line, end_line, head, tail);
        Ok(
            "lines "@ + decimal(
                if range.0 < range.1 {
                    range.0 + 1
                } else {
                    range.0
                },
            ) + ".."@ + decimal(range.1) + " of "@ + decimal(ls.len()) + " ("@ + decimal(range.0)
                + " before, "@ + decimal((ls.len() - range.1) as nat) + " after)\n"@ + join(
                numbered_lines(ls, range.0 as int, range.1 as int),
                "\n"@,
            ),
        )
    }
}

fn number_line(n: usize, line: &[char]) -> (out: String)
    ensures
        out@ == numbered(n as nat, line@),
{
    column_of(n, NUMBER_WIDTH).concat("|").concat(string_of(line).as_str())
}

/// The lines from `from` up to `to`, each with its number.
fn number_lines(ls: &Vec<Vec<char>>, from: usize, to: usize) -> (out: Vec<String>)
    requires
        from <= to <= ls@.len(),
    ensures
        texts(out@) == numbered_lines(seqs(ls@), from as int, to as int),
{
    let ghost all = seqs(ls@);
    let mut out: Vec<String> = Vec::new();
    let mut i: usize = from;
    while i < to
        invariant
            from <= i <= to <= ls@.len(),
            all == seqs(ls@),
            out@.len() == i - from,
            forall|k: int|
                0 <= k < i - from ==> (#[trigger] out@[k])@ == numbered(
                    (from + k + 1) as nat,
                    all[from + k],
                ),
        decreases to - i,
    {
        assert(all[i as int] == ls@[i as int]@);
        assert(ls.len() == ls@.len());
        out.push(number_line(i + 1, &ls[i]));
        i += 1;
    }
    assert(texts(out@) =~= numbered_lines(all, from as int, to as int));
    out
}

fn line_range_of(
    total: usize,
    start_line: Option<usize>,
    end_line: Option<usize>,
    head: Option<usize>,
    tail: Option<usize>,
) -> (out: (usize, usize))
    ensures
        (out.0 as nat, out.1 as nat) == line_range(total as nat, start_line, end_line, head, tail),
{
    if let Some(n) = head {
        return (0, smaller_of(n, total));
    }
    if let Some(n) = tail {
        return (
            if n <= total {
                total - n
            } else {
                0
            },
            total,
        );
    }
    let first: usize = match start_line {
        Some(n) => if n == 0 {
            1
        } else {
            n
        },
        None => 1,
    };
    let last: usize = match end_line {
        Some(n) => n,
        None => if first <= usize::MAX - (DEFAULT_LINES - 1) {
            first + (DEFAULT_LINES - 1)
        } else {
            usize::MAX
        },
    };
    let from: usize = smaller_of(first - 1, total);
    let to: usize = if last < first {
        from
    } else {
        smaller_of(last, total)
    };
    (from, to)
}

/// A range of lines lies within the text.
pub proof fn law_line_range(
    total: nat,
    start_line: Option<usize>,
    end_line: Option<usize>,
    head: Option<usize>,
    tail: Option<usize>,
)
    requires
        total <= usize::MAX,
    ensures
        ({
            let range = line_range(total, start_line, end_line, head, tail);
            range.0 <= range.1 <= total
        }),
{
}

/// The answer to a request for lines.
pub fn render_text_lines(
    bytes: &[u8],
    start_line: Option<usize>,
    end_line: Option<usize>,
    head: Option<usize>,
    tail: Option<usize>,
) -> (out: Result<String, String>)
    ensures
        outcome(out) == lines_text(bytes@, start_line, end_line, head, tail),
{
    if head.is_some() && tail.is_some() {
        return Err("choose either head or tail, not both".to_owned());
    }
    if (head.is_some() || tail.is_some()) && (start_line.is_some() || end_line.is_some()) {
        return Err("choose head/tail or start_line/end_line, not both".to_owned());
    }
    let text = lossy_text(bytes);
    let ls = lines_of(&chars_of(text.as_str()));
    assert(seqs(ls@).len() == ls@.len());
    let total: usize = ls.len();
    let (from, to) = line_range_of(total, start_line, end_line, head, tail);
    proof {
        law_line_range(total as nat, start_line, end_line, head, tail);
    }
    let shown: usize = if from < to {
        from + 1
    } else {
        from
    };
    let body = number_lines(&ls, from, to);
    Ok(
        "lines ".to_owned().concat(decimal_of(shown).as_str()).concat("..").concat(
            decimal_of(to).as_str(),
        ).concat(" of ").concat(decimal_of(total).as_str()).concat(" (").concat(
            decimal_of(from).as_str(),
        ).concat(" before, ").concat(decimal_of(total - to).as_str()).concat(" after)\n").concat(
            join_of(body.as_slice(), "\n").as_str(),
        ),
    )
}

// ---------------------------------------------------------------------------
// Matching lines
// ---------------------------------------------------------------------------

/// The lines that hold the pattern, whatever the case, each with its number.
pub open spec fn hits(ls: Seq<Seq<char>>, pattern: Seq<char>) -> Seq<Seq<char>>
    decreases ls.len(),
{
    if ls.len() == 0 {
        Seq::empty()
    } else {
        let before = hits(ls.drop_last(), pattern);
        if line_hits(ls.last(), pattern) {
            before.push(numbered(ls.len(), ls.last()))
        } else {
            before
        }
    }
}

/// How many matching lines are shown where nothing is asked for.
pub const DEFAULT_HITS: usize = 20;

/// The answer to a search: how many lines match, and the first of them.
pub open spec fn search_text(bytes: Seq<u8>, pattern: Seq<char>, limit: Option<usize>) -> Result<
    Seq<char>,
    Seq<char>,
> {
    if pattern.len() == 0 {
        Err("pattern must not be empty"@)
    } else {
        let ls = lines(utf8_lossy(bytes));
        let found = hits(ls, pattern);
        let shown = smaller(found.len(), count_or(limit, DEFAULT_HITS as nat));
        if found.len() == 0 {
            Ok("0 matches for \""@ + pattern + "\" in "@ + decimal(ls.len()) + " lines"@)
        } else {
            Ok(
                decimal(found.len()) + " matches for \""@ + pattern + "\" in "@ + decimal(ls.len())
                    + " lines (showing "@ + decimal(shown) + ", "@ + decimal(
                    (found.len() - shown) as nat,
                ) + " omitted)\n"@ + join(found.take(shown as int), "\n"@),
            )
        }
    }
}

/// The answer to a search.
pub fn render_text_search(bytes: &[u8], pattern: &str, limit: Option<usize>) -> (out: Result<
    String,
    String,
>)
    ensures
        outcome(out) == search_text(bytes@, pattern@, limit),
{
    if chars_of(pattern).len() == 0 {
        return Err("pattern must not be empty".to_owned());
    }
    let text = lossy_text(bytes);
    let ls = lines_of(&chars_of(text.as_str()));
    let ghost all = seqs(ls@);
    let lowered = lowercase(pattern);
    let wanted = chars_of(lowered.as_str());
    let most: usize = match limit {
        Some(n) => n,
        None => DEFAULT_HITS,
    };
    let mut found: usize = 0;
    let mut shown: Vec<String> = Vec::new();
    let mut i: usize = 0;
    assert(texts(shown@) =~= hits(all.take(0), pattern@).take(0));
    while i < ls.len()
        invariant
            i <= ls@.len(),
            all == seqs(ls@),
            wanted@ == unicode_lower(pattern@),
            found <= i,
            found == hits(all.take(i as int), pattern@).len(),
            shown@.len() == smaller(found as nat, most as nat),
            texts(shown@) == hits(all.take(i as int), pattern@).take(shown@.len() as int),
        decreases ls@.len() - i,
    {
        let ghost before = hits(all.take(i as int), pattern@);
        let ghost next = all.take(i as int + 1);
        assert(next.drop_last() =~= all.take(i as int));
        assert(next.last() == ls@[i as int]@);
        assert(ls.len() == ls@.len());
        let line = string_of(&ls[i]);
        let lower = lowercase(line.as_str());
        if has_chars(&chars_of(lower.as_str()), &wanted) {
            found += 1;
            let ghost now = hits(next, pattern@);
            assert(now == before.push(numbered((i + 1) as nat, ls@[i as int]@)));
            let ghost had = texts(shown@);
            if shown.len() < most {
                assert(before.take(before.len() as int) =~= before);
                let entry = number_line(i + 1, &ls[i]);
                let ghost line = entry@;
                shown.push(entry);
                assert(texts(shown@) =~= had.push(line));
                assert(now.take(now.len() as int) =~= now);
            } else {
                assert(now.take(shown@.len() as int) =~= before.take(shown@.len() as int));
            }
        }
        i += 1;
    }
    assert(all.take(i as int) =~= all);
    assert(all.len() == ls@.len());
    let n: usize = ls.len();
    if found == 0 {
        return Ok(
            "0 matches for \"".to_owned().concat(pattern).concat("\" in ").concat(
                decimal_of(n).as_str(),
            ).concat(" lines"),
        );
    }
    let omitted: usize = found - shown.len();
    Ok(
        decimal_of(found).concat(" matches for \"").concat(pattern).concat("\" in ").concat(
            decimal_of(n).as_str(),
        ).concat(" lines (showing ").concat(decimal_of(shown.len()).as_str()).concat(", ").concat(
            decimal_of(omitted).as_str(),
        ).concat(" omitted)\n").concat(join_of(shown.as_slice(), "\n").as_str()),
    )
}

/// A window begins where it is asked to, or at the end, and has as many bytes as
/// are asked for, or as are left.
pub proof fn law_byte_window(total: nat, start: usize, len: usize)
    ensures
        window_range(total, Some(start), Some(len)) == (
            if start <= total {
                start as nat
            } else {
                total
            },
            if start + len <= total {
                (start + len) as nat
            } else {
                total
            },
        ),
        window_range(total, None, Some(len)) == window_range(total, Some(0), Some(len)),
        window_range(total, Some(start), None).0 == window_range(total, Some(start), Some(len)).0,
        window_range(total, Some(start), None).1 == total,
        window_range(total, None, None) == (0nat, total),
{
}

/// What a retrieval returns: the whole text only if it is allowed to be that long;
/// a window with its place and what lies before and after, if one was asked for or
/// it does not reach the end; and an error that says the limit.
pub proof fn law_retrieved(
    bytes: Seq<u8>,
    start: Option<usize>,
    max_bytes: Option<usize>,
    limits: RetrieveLimits,
)
    ensures
        start is Some || max_bytes is Some ==> retrieved(bytes, start, max_bytes, true, limits)
            == Err::<Seq<char>, Seq<char>>(
            "full=true cannot be combined with start or max_bytes"@,
        ),
        bytes.len() <= limits.max_bytes ==> retrieved(bytes, None, None, true, limits) == Ok::<
            Seq<char>,
            Seq<char>,
        >(utf8_lossy(bytes)),
        bytes.len() > limits.max_bytes ==> retrieved(bytes, None, None, true, limits) is Err,
        ({
            let len = match max_bytes {
                Some(n) => n,
                None => limits.default_bytes,
            };
            let range = window_range(bytes.len(), start, Some(len));
            let text = utf8_lossy(bytes.subrange(range.0 as int, range.1 as int));
            let out = retrieved(bytes, start, max_bytes, false, limits);
            &&& len > limits.max_bytes ==> out is Err
            &&& len <= limits.max_bytes && start is None && max_bytes is None && bytes.len() <= len
                ==> out == Ok::<Seq<char>, Seq<char>>(text) && text == utf8_lossy(bytes)
            &&& len <= limits.max_bytes && (start is Some || max_bytes is Some || bytes.len() > len)
                ==> out == Ok::<Seq<char>, Seq<char>>(
                "bytes "@ + decimal(range.0) + ".."@ + decimal(range.1) + " of "@ + decimal(
                    bytes.len(),
                ) + " ("@ + decimal(range.0) + " before, "@ + decimal(
                    (bytes.len() - range.1) as nat,
                ) + " after)\n"@ + text,
            )
        }),
{
    let len = match max_bytes {
        Some(n) => n,
        None => limits.default_bytes,
    };
    assert((len as nat) as usize == len);
    let range = window_range(bytes.len(), start, Some(len));
    if start is None && bytes.len() <= len {
        assert(range == (0nat, bytes.len()));
        assert(bytes.subrange(0, bytes.len() as int) =~= bytes);
    }
}

/// A page of rows begins where it is asked to and has as many rows as are asked
/// for, 20 if that is not said, but no more than the limit and than are left.
pub proof fn law_page(total: nat, start: usize, limit: usize, max_rows: nat)
    ensures
        ({
            let from = if start <= total {
                start as nat
            } else {
                total
            };
            let most = if max_rows == 0 {
                1nat
            } else {
                max_rows
            };
            let size = if limit <= most {
                limit as nat
            } else {
                most
            };
            page_range(total, Some(start), Some(limit), max_rows) == (
                from,
                if from + size <= total {
                    from + size
                } else {
                    total
                },
            )
        }),
        page_range(total, Some(start), None, max_rows) == page_range(
            total,
            Some(start),
            Some(20),
            max_rows,
        ),
        page_range(total, None, Some(limit), max_rows) == page_range(
            total,
            Some(0),
            Some(limit),
            max_rows,
        ),
{
}

/// The rows of a page are those of the array, in their places.
pub proof fn law_rows_text(
    bytes: Seq<u8>,
    rows: Seq<Tree>,
    start: Option<usize>,
    limit: Option<usize>,
    max_rows: nat,
)
    ensures
        json_result(bytes) is Err ==> rows_text(bytes, start, limit, max_rows) == Err::<
            Seq<char>,
            Seq<char>,
        >("not valid JSON: "@ + json_result(bytes)->Err_0),
        json_result(bytes) is Ok && !(json_result(bytes)->Ok_0 is Array) ==> rows_text(
            bytes,
            start,
            limit,
            max_rows,
        ) == Err::<Seq<char>, Seq<char>>("held data is JSON but not an array"@),
        json_result(bytes) == Ok::<Tree, Seq<char>>(Tree::Array(rows)) ==> {
            let range = page_range(rows.len(), start, limit, max_rows);
            let body = pretty_json(
                Tree::Array(rows.subrange(range.0 as int, range.1 as int)),
            );
            body is Ok ==> rows_text(bytes, start, limit, max_rows) == Ok::<Seq<char>, Seq<char>>(
                "rows "@ + decimal(range.0) + ".."@ + decimal(range.1) + " of "@ + decimal(
                    rows.len(),
                ) + " ("@ + decimal(range.0) + " before, "@ + decimal(
                    (rows.len() - range.1) as nat,
                ) + " after)\n"@ + body->Ok_0,
            )
        },
{
}

/// Which lines are shown: the first or last so many, or those from one number to
/// another, counted from 1; 80 lines if the last is not said.
pub proof fn law_lines_shown(total: nat, n: usize, first: usize, last: usize)
    ensures
        line_range(total, None, None, Some(n), None) == (
            0nat,
            if n <= total {
                n as nat
            } else {
                total
            },
        ),
        line_range(total, None, None, None, Some(n)) == (
            if n <= total {
                (total - n) as nat
            } else {
                0nat
            },
            total,
        ),
        0 < first <= last && first <= total ==> line_range(
            total,
            Some(first),
            Some(last),
            None,
            None,
        ) == (
            (first - 1) as nat,
            if last <= total {
                last as nat
            } else {
                total
            },
        ),
        0 < first && first + 79 <= usize::MAX ==> line_range(total, Some(first), None, None, None)
            == line_range(total, Some(first), Some((first + 79) as usize), None, None),
        line_range(total, None, Some(last), None, None) == line_range(
            total,
            Some(1),
            Some(last),
            None,
            None,
        ),
        line_range(total, Some(0), Some(last), None, None) == line_range(
            total,
            Some(1),
            Some(last),
            None,
            None,
        ),
        last < first ==> line_range(total, Some(first), Some(last), None, None).0 == line_range(
            total,
            Some(first),
            Some(last),
            None,
            None,
        ).1,
{
}

/// The text of the lines: each with its number, in order, under a heading with
/// their place; head and tail exclude each other and a range.
pub proof fn law_lines_text(
    bytes: Seq<u8>,
    start_line: Option<usize>,
    end_line: Option<usize>,
    head: Option<usize>,
    tail: Option<usize>,
)
    requires
        lines(utf8_lossy(bytes)).len() <= usize::MAX,
    ensures
        lines_text(bytes, start_line, end_line, head, tail) is Err <==> (head is Some && tail
            is Some) || ((head is Some || tail is Some) && (start_line is Some || end_line is Some)),
        lines_text(bytes, start_line, end_line, head, tail) is Ok ==> {
            let ls = lines(utf8_lossy(bytes));
            let range = line_range(ls.len(), start_line, end_line, head, tail);
            let shown = Seq::new(
                (range.1 - range.0) as nat,
                |i: int|
                    right_aligned(decimal((range.0 + i + 1) as nat), 6) + "|"@ + ls[range.0 + i],
            );
            lines_text(bytes, start_line, end_line, head, tail) == Ok::<Seq<char>, Seq<char>>(
                "lines "@ + decimal(
                    if range.0 < range.1 {
                        range.0 + 1
                    } else {
                        range.0
                    },
                ) + ".."@ + decimal(range.1) + " of "@ + decimal(ls.len()) + " ("@ + decimal(
                    range.0,
                ) + " before, "@ + decimal((ls.len() - range.1) as nat) + " after)\n"@ + join(
                    shown,
                    "\n"@,
                ),
            )
        },
{
    let ls = lines(utf8_lossy(bytes));
    let range = line_range(ls.len(), start_line, end_line, head, tail);
    let shown = Seq::new(
        (range.1 - range.0) as nat,
        |i: int| right_aligned(decimal((range.0 + i + 1) as nat), 6) + "|"@ + ls[range.0 + i],
    );
    assert(numbered_lines(ls, range.0 as int, range.1 as int) =~= shown);
}

/// A search finds every line that holds the pattern, whatever the case, in order
/// and with its number; it counts them all, shows as many as are asked for, 20 if
/// that is not said, and says how many it omits.
pub proof fn law_search(bytes: Seq<u8>, pattern: Seq<char>, limit: usize)
    requires
        pattern.len() > 0,
        lines(utf8_lossy(bytes)).len() <= usize::MAX,
    ensures
        ({
            let ls = lines(utf8_lossy(bytes));
            let found = marked(ls.map_values(|l: Seq<char>| line_hits(l, pattern)));
            let shown = if found.len() <= limit {
                found.len()
            } else {
                limit as nat
            };
            let out = search_text(bytes, pattern, Some(limit));
            &&& found.len() == 0 ==> out == Ok::<Seq<char>, Seq<char>>(
                "0 matches for \""@ + pattern + "\" in "@ + decimal(ls.len()) + " lines"@,
            )
            &&& found.len() > 0 ==> out == Ok::<Seq<char>, Seq<char>>(
                decimal(found.len()) + " matches for \""@ + pattern + "\" in "@ + decimal(ls.len())
                    + " lines (showing "@ + decimal(shown) + ", "@ + decimal(
                    (found.len() - shown) as nat,
                ) + " omitted)\n"@ + join(
                    found.take(shown as int).map_values(
                        |k: usize|
                            right_aligned(decimal((k + 1) as nat), 6) + "|"@ + ls[k as int],
                    ),
                    "\n"@,
                ),
            )
        }),
        search_text(bytes, pattern, None) == search_text(bytes, pattern, Some(20)),
        search_text(bytes, Seq::empty(), Some(limit)) is Err,
{
    let ls = lines(utf8_lossy(bytes));
    let mask = ls.map_values(|l: Seq<char>| line_hits(l, pattern));
    let found = marked(mask);
    lemma_hits(ls, pattern);
    let shown = if found.len() <= limit {
        found.len()
    } else {
        limit as nat
    };
    let text = |k: usize| right_aligned(decimal((k + 1) as nat), 6) + "|"@ + ls[k as int];
    assert(hits(ls, pattern).take(shown as int) =~= found.take(shown as int).map_values(text));
}

proof fn lemma_hits(ls: Seq<Seq<char>>, pattern: Seq<char>)
    requires
        ls.len() <= usize::MAX,
    ensures
        hits(ls, pattern) == marked(
            ls.map_values(|l: Seq<char>| line_hits(l, pattern)),
        ).map_values(|k: usize| right_aligned(decimal((k + 1) as nat), 6) + "|"@ + ls[k as int]),
    decreases ls.len(),
{
    let mask = ls.map_values(|l: Seq<char>| line_hits(l, pattern));
    let text = |k: usize| right_aligned(decimal((k + 1) as nat), 6) + "|"@ + ls[k as int];
    if ls.len() > 0 {
        let before = ls.drop_last();
        let shorter = before.map_values(|l: Seq<char>| line_hits(l, pattern));
        lemma_hits(before, pattern);
        assert(mask.drop_last() =~= shorter);
        crate::query::law_marked(shorter);
        let old_text = |k: usize| right_aligned(decimal((k + 1) as nat), 6) + "|"@ + before[k as int];
        assert(marked(shorter).map_values(old_text) =~= marked(shorter).map_values(text)) by {
            assert forall|i: int| 0 <= i < marked(shorter).len() implies #[trigger] old_text(
                marked(shorter)[i],
            ) == text(marked(shorter)[i]) by {
                assert(marked(shorter)[i] < shorter.len());
            }
        }
        if line_hits(ls.last(), pattern) {
            assert(mask.last());
            let k = (ls.len() - 1) as usize;
            assert(text(k) == numbered(ls.len(), ls.last()));
            assert(hits(ls, pattern) =~= marked(mask).map_values(text));
        } else {
            assert(!mask.last());
        }
    } else {
        assert(hits(ls, pattern) =~= marked(mask).map_values(text));
    }
}

} // verus!
