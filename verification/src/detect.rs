//! Content types: what an input looks like, cheaply told. A wrong guess never
//! threatens that the input can be rebuilt, only how well it compresses.
use crate::json::{json_of_bytes, Json, Tree};
use crate::text::{
    begins, begins_any, begins_any_str, chars_of, digit, is_digit, is_white, law_occurrence, lines,
    lines_of, same_chars, seqs, slice_of, trim_end, trim_end_of, trim_start, trim_start_of, white,
};
use crate::utf8::strict_text;
use vstd::prelude::*;
use vstd::utf8::{decode_utf8, valid_utf8};

verus! {

/// The content types that are told apart.
#[derive(Clone, Copy, Debug, PartialEq, Eq, Structural)]
pub enum ContentType {
    /// A JSON array or object.
    Json,
    /// Repetitive, line-oriented output.
    Log,
    /// Anything else.
    Text,
}

/// ASCII white space: space, tab, line feed, form feed, carriage return.
pub open spec fn ascii_white(b: u8) -> bool {
    b == 0x20 || b == 0x9 || b == 0xa || b == 0xc || b == 0xd
}

/// Whether `b` is ASCII white space.
pub fn is_ascii_white(b: u8) -> (r: bool)
    ensures
        r == ascii_white(b),
{
    b == 0x20 || b == 0x9 || b == 0xa || b == 0xc || b == 0xd
}

/// Whether `serde_json` accepts `bytes` as one JSON document.
pub uninterp spec fn json_syntax(bytes: Seq<u8>) -> bool;

/// Calls `serde_json::from_slice` for `serde::de::IgnoredAny`, which checks the
/// syntax and keeps nothing. Claims that the answer is a function of the bytes
/// alone, named `json_syntax`.
#[verifier::external_body]
fn is_json_syntax(bytes: &[u8]) -> (r: bool)
    ensures
        r == json_syntax(bytes@),
{
    serde_json::from_slice::<serde::de::IgnoredAny>(bytes).is_ok()
}

/// The first byte that is no white space opens an array or an object.
pub open spec fn opens_container(bytes: Seq<u8>) -> bool
    decreases bytes.len(),
{
    if bytes.len() == 0 {
        false
    } else if ascii_white(bytes[0]) {
        opens_container(bytes.skip(1))
    } else {
        bytes[0] == 0x5b || bytes[0] == 0x7b
    }
}

fn starts_like_json_container(input: &[u8]) -> (r: bool)
    ensures
        r == opens_container(input@),
{
    let mut i: usize = 0;
    assert(input@.skip(0) =~= input@);
    while i < input.len() && is_ascii_white(input[i])
        invariant
            i <= input@.len(),
            opens_container(input@) == opens_container(input@.skip(i as int)),
        decreases input@.len() - i,
    {
        assert(input@.skip(i as int)[0] == input@[i as int]);
        assert(input@.skip(i as int).skip(1) =~= input@.skip(i as int + 1));
        i += 1;
    }
    if i < input.len() {
        assert(input@.skip(i as int)[0] == input@[i as int]);
        input[i] == 0x5b || input[i] == 0x7b
    } else {
        false
    }
}

// ---------------------------------------------------------------------------
// Logs
// ---------------------------------------------------------------------------

/// The line begins, after white space, with a digit or `[`.
pub open spec fn log_line(line: Seq<char>) -> bool {
    let t = trim_start(line);
    t.len() > 0 && (digit(t[0]) || t[0] == '[')
}

/// The number of such lines.
pub open spec fn log_lines(ls: Seq<Seq<char>>) -> nat
    decreases ls.len(),
{
    if ls.len() == 0 {
        0
    } else {
        log_lines(ls.drop_last()) + if log_line(ls.last()) {
            1nat
        } else {
            0
        }
    }
}

/// The beginning of `t` up to the first white space or colon.
pub open spec fn first_token(t: Seq<char>) -> Seq<char>
    decreases t.len(),
{
    if t.len() > 0 && !white(t[0]) && t[0] != ':' {
        seq![t[0]] + first_token(t.skip(1))
    } else {
        Seq::empty()
    }
}

/// The first tokens of the lines that are not blank.
pub open spec fn first_tokens(ls: Seq<Seq<char>>) -> Seq<Seq<char>>
    decreases ls.len(),
{
    if ls.len() == 0 {
        Seq::empty()
    } else {
        let before = first_tokens(ls.drop_last());
        let t = trim_start(ls.last());
        if t.len() == 0 {
            before
        } else {
            before.push(first_token(t))
        }
    }
}

/// At least 16 lines are not blank, and at most a tenth of their first tokens
/// are distinct.
pub open spec fn low_diversity(ls: Seq<Seq<char>>) -> bool {
    let tokens = first_tokens(ls);
    tokens.len() >= 16 && tokens.to_set().len() * 10 <= tokens.len()
}

/// Line-oriented bulk output: at least 8 lines of which a majority begins with a
/// digit or `[`, or at least 16 lines with few distinct first tokens.
pub open spec fn log_like(ls: Seq<Seq<char>>) -> bool {
    ||| ls.len() >= 8 && log_lines(ls) * 2 > ls.len()
    ||| ls.len() >= 16 && low_diversity(ls)
}

/// How a `git status` in the long form begins.
pub open spec fn branch_headers() -> Seq<&'static str> {
    seq!["On branch ", "HEAD detached", "Not currently on any branch"]
}

/// The section titles of a `git status` in the long form.
pub open spec fn section_titles() -> Seq<&'static str> {
    seq![
        "Changes to be committed:",
        "Changes not staged for commit:",
        "Untracked files:",
        "Unmerged paths:",
    ]
}

/// How the entries of a `git status` in the long form begin.
pub open spec fn entry_marks() -> Seq<&'static str> {
    seq![
        "modified:",
        "new file:",
        "deleted:",
        "renamed:",
        "copied:",
        "both modified:",
        "both deleted:",
        "use \"git add",
    ]
}

/// `t` is one of `words`.
pub open spec fn one_of(t: Seq<char>, words: Seq<&str>) -> bool {
    exists|i: int| 0 <= i < words.len() && t == #[trigger] words[i]@
}

/// A `git status` in the long form: at least 8 lines, a branch header among the
/// first four, a section title, and an entry.
pub open spec fn git_status_like(ls: Seq<Seq<char>>) -> bool {
    &&& ls.len() >= 8
    &&& exists|i: int| 0 <= i < 4 && begins_any(#[trigger] ls[i], branch_headers())
    &&& exists|i: int|
        0 <= i < ls.len() && one_of(trim_end(#[trigger] ls[i]), section_titles())
    &&& exists|i: int|
        0 <= i < ls.len() && begins_any(trim_start(#[trigger] ls[i]), entry_marks())
}

fn first_token_of(t: &[char]) -> (out: Vec<char>)
    ensures
        out@ == first_token(t@),
{
    let mut i: usize = 0;
    assert(t@.skip(0) =~= t@);
    assert(t@.take(0) + first_token(t@.skip(0)) =~= first_token(t@));
    while i < t.len() && !is_white(t[i]) && t[i] != ':'
        invariant
            i <= t@.len(),
            t@.take(i as int) + first_token(t@.skip(i as int)) == first_token(t@),
        decreases t@.len() - i,
    {
        assert(t@.skip(i as int)[0] == t@[i as int]);
        assert(t@.skip(i as int).skip(1) =~= t@.skip(i as int + 1));
        assert(t@.take(i as int + 1) + first_token(t@.skip(i as int + 1)) =~= t@.take(i as int) + (
        seq![t@[i as int]] + first_token(t@.skip(i as int + 1))));
        i += 1;
    }
    if i < t.len() {
        assert(t@.skip(i as int)[0] == t@[i as int]);
    }
    assert(t@.subrange(0, i as int) =~= first_token(t@));
    slice_of(t, 0, i)
}

/// Whether `word` is among `words`.
fn among(words: &Vec<Vec<char>>, word: &[char]) -> (r: bool)
    ensures
        r == seqs(words@).contains(word@),
{
    let mut i: usize = 0;
    while i < words.len()
        invariant
            i <= words@.len(),
            forall|k: int| 0 <= k < i ==> (#[trigger] words@[k])@ != word@,
        decreases words@.len() - i,
    {
        if same_chars(&words[i], word) {
            assert(seqs(words@)[i as int] == word@);
            return true;
        }
        i += 1;
    }
    assert(!seqs(words@).contains(word@)) by {
        if seqs(words@).contains(word@) {
            let k = choose|k: int| 0 <= k < words@.len() && seqs(words@)[k] == word@;
            assert(words@[k]@ == word@);
        }
    }
    false
}

proof fn lemma_first_tokens_bound(ls: Seq<Seq<char>>)
    ensures
        first_tokens(ls).len() <= ls.len(),
    decreases ls.len(),
{
    if ls.len() > 0 {
        lemma_first_tokens_bound(ls.drop_last());
    }
}

fn low_first_token_diversity(lines: &Vec<Vec<char>>) -> (r: bool)
    ensures
        r == low_diversity(seqs(lines@)),
{
    let ghost ls = seqs(lines@);
    let mut token_count: usize = 0;
    let mut distinct: Vec<Vec<char>> = Vec::new();
    let mut i: usize = 0;
    assert(seqs(distinct@).to_set() =~= first_tokens(ls.take(0)).to_set());
    while i < lines.len()
        invariant
            i <= lines@.len(),
            ls == seqs(lines@),
            token_count == first_tokens(ls.take(i as int)).len(),
            token_count <= i,
            distinct@.len() <= token_count,
            seqs(distinct@).no_duplicates(),
            seqs(distinct@).to_set() =~= first_tokens(ls.take(i as int)).to_set(),
        decreases lines@.len() - i,
    {
        let ghost next = ls.take(i as int + 1);
        assert(next.drop_last() =~= ls.take(i as int));
        let trimmed = trim_start_of(&lines[i]);
        if trimmed.len() > 0 {
            let token = first_token_of(&trimmed);
            let ghost seen = first_tokens(ls.take(i as int));
            assert(first_tokens(next) == seen.push(token@));
            assert(seen.push(token@).to_set() =~= seen.to_set().insert(token@)) by {
                let a = seen.push(token@);
                assert forall|x: Seq<char>| a.to_set().contains(x) == seen.to_set().insert(
                    token@,
                ).contains(x) by {
                    if a.contains(x) {
                        let k = choose|k: int| 0 <= k < a.len() && a[k] == x;
                        if k < seen.len() {
                            assert(seen[k] == x);
                        }
                    }
                    if seen.contains(x) {
                        let k = choose|k: int| 0 <= k < seen.len() && seen[k] == x;
                        assert(a[k] == x);
                    }
                    assert(a[seen.len() as int] == token@);
                }
            }
            token_count += 1;
            let ghost before = seqs(distinct@);
            if !among(&distinct, &token) {
                let ghost word = token@;
                distinct.push(token);
                let ghost after = seqs(distinct@);
                assert(after =~= before.push(word));
                assert(after.to_set() =~= before.to_set().insert(word)) by {
                    assert forall|x: Seq<char>| after.to_set().contains(x)
                        == before.to_set().insert(word).contains(x) by {
                        if after.contains(x) {
                            let k = choose|k: int| 0 <= k < after.len() && after[k] == x;
                            if k < before.len() {
                                assert(before[k] == x);
                            }
                        }
                        if before.contains(x) {
                            let k = choose|k: int| 0 <= k < before.len() && before[k] == x;
                            assert(after[k] == x);
                        }
                        assert(after[before.len() as int] == word);
                    }
                }
            } else {
                assert(before.to_set().contains(token@));
                assert(before.to_set().insert(token@) =~= before.to_set());
            }
        }
        i += 1;
    }
    assert(ls.take(i as int) =~= ls);
    proof {
        seqs(distinct@).unique_seq_to_set();
        lemma_first_tokens_bound(ls);
    }
    if token_count < 16 {
        return false;
    }
    // `distinct * 10 <= token_count`, without the product.
    distinct.len() <= token_count / 10
}

fn looks_like_log(lines: &Vec<Vec<char>>) -> (r: bool)
    ensures
        r == log_like(seqs(lines@)),
{
    let ghost ls = seqs(lines@);
    if lines.len() >= 8 {
        let mut logish: usize = 0;
        let mut i: usize = 0;
        while i < lines.len()
            invariant
                i <= lines@.len(),
                ls == seqs(lines@),
                logish <= i,
                logish == log_lines(ls.take(i as int)),
            decreases lines@.len() - i,
        {
            assert(ls.take(i as int + 1).drop_last() =~= ls.take(i as int));
            let t = trim_start_of(&lines[i]);
            if t.len() > 0 && (is_digit(t[0]) || t[0] == '[') {
                logish += 1;
            }
            i += 1;
        }
        assert(ls.take(i as int) =~= ls);
        // `logish * 2 > lines`, without the product.
        if logish > lines.len() - logish {
            return true;
        }
    }
    lines.len() >= 16 && low_first_token_diversity(lines)
}

/// Whether some line begins with one of `words`.
fn some_line_begins(lines: &Vec<Vec<char>>, limit: usize, words: &[&str]) -> (r: bool)
    requires
        limit <= lines@.len(),
    ensures
        r == exists|i: int| 0 <= i < limit && begins_any(#[trigger] seqs(lines@)[i], words@),
{
    let mut i: usize = 0;
    while i < limit
        invariant
            i <= limit <= lines@.len(),
            forall|k: int| 0 <= k < i ==> !begins_any(#[trigger] seqs(lines@)[k], words@),
        decreases limit - i,
    {
        if begins_any_str(&lines[i], words) {
            assert(begins_any(seqs(lines@)[i as int], words@));
            return true;
        }
        assert(seqs(lines@)[i as int] == lines@[i as int]@);
        i += 1;
    }
    false
}

/// Whether some line, without its leading white space, begins with one of
/// `words`.
fn some_entry_begins(lines: &Vec<Vec<char>>, words: &[&str]) -> (r: bool)
    ensures
        r == exists|i: int|
            0 <= i < seqs(lines@).len() && begins_any(
                trim_start(#[trigger] seqs(lines@)[i]),
                words@,
            ),
{
    let mut i: usize = 0;
    while i < lines.len()
        invariant
            i <= lines@.len(),
            forall|k: int|
                0 <= k < i ==> !begins_any(trim_start(#[trigger] seqs(lines@)[k]), words@),
        decreases lines@.len() - i,
    {
        let t = trim_start_of(&lines[i]);
        assert(seqs(lines@)[i as int] == lines@[i as int]@);
        if begins_any_str(&t, words) {
            return true;
        }
        i += 1;
    }
    false
}

/// Whether some line, without its trailing white space, is one of `words`.
fn some_line_is(lines: &Vec<Vec<char>>, words: &[&str]) -> (r: bool)
    ensures
        r == exists|i: int|
            0 <= i < seqs(lines@).len() && one_of(trim_end(#[trigger] seqs(lines@)[i]), words@),
{
    let mut i: usize = 0;
    while i < lines.len()
        invariant
            i <= lines@.len(),
            forall|k: int| 0 <= k < i ==> !one_of(trim_end(#[trigger] seqs(lines@)[k]), words@),
        decreases lines@.len() - i,
    {
        let t = trim_end_of(&lines[i]);
        assert(seqs(lines@)[i as int] == lines@[i as int]@);
        let mut k: usize = 0;
        while k < words.len()
            invariant
                k <= words@.len(),
                i < lines@.len(),
                seqs(lines@)[i as int] == lines@[i as int]@,
                t@ == trim_end(lines@[i as int]@),
                forall|m: int| 0 <= m < k ==> t@ != (#[trigger] words@[m])@,
            decreases words@.len() - k,
        {
            let word = chars_of(words[k]);
            if same_chars(&t, &word) {
                assert(one_of(trim_end(seqs(lines@)[i as int]), words@));
                return true;
            }
            k += 1;
        }
        i += 1;
    }
    false
}

fn looks_like_git_status(lines: &Vec<Vec<char>>) -> (r: bool)
    ensures
        r == git_status_like(seqs(lines@)),
{
    if lines.len() < 8 {
        return false;
    }
    let headers = vec!["On branch ", "HEAD detached", "Not currently on any branch"];
    assert(headers@ =~= branch_headers());
    if !some_line_begins(lines, 4, headers.as_slice()) {
        return false;
    }
    let titles = vec![
        "Changes to be committed:",
        "Changes not staged for commit:",
        "Untracked files:",
        "Unmerged paths:",
    ];
    assert(titles@ =~= section_titles());
    if !some_line_is(lines, titles.as_slice()) {
        return false;
    }
    let marks = vec![
        "modified:",
        "new file:",
        "deleted:",
        "renamed:",
        "copied:",
        "both modified:",
        "both deleted:",
        "use \"git add",
    ];
    assert(marks@ =~= entry_marks());
    some_entry_begins(lines, marks.as_slice())
}

// ---------------------------------------------------------------------------
// The classifier
// ---------------------------------------------------------------------------

/// The type of an input that is no JSON container.
pub open spec fn other_type(bytes: Seq<u8>) -> ContentType {
    let ls = lines(decode_utf8(bytes));
    if valid_utf8(bytes) && (log_like(ls) || git_status_like(ls)) {
        ContentType::Log
    } else {
        ContentType::Text
    }
}

/// The type of an input.
pub open spec fn content_type(bytes: Seq<u8>) -> ContentType {
    if opens_container(bytes) && json_syntax(bytes) {
        ContentType::Json
    } else {
        other_type(bytes)
    }
}

/// The parsed document of an input that is a JSON container.
pub open spec fn container_of(bytes: Seq<u8>) -> Option<Tree> {
    if opens_container(bytes) {
        match json_of_bytes(bytes) {
            Some(t) => if t is Array || t is Object {
                Some(t)
            } else {
                None
            },
            None => None,
        }
    } else {
        None
    }
}

/// Whether some text of `bytes` is bulk output.
fn classify_non_json(input: &[u8]) -> (r: ContentType)
    ensures
        r == other_type(input@),
{
    match strict_text(input) {
        Some(text) => {
            let chars = chars_of(text.as_str());
            let lines = lines_of(&chars);
            if looks_like_log(&lines) || looks_like_git_status(&lines) {
                ContentType::Log
            } else {
                ContentType::Text
            }
        },
        None => ContentType::Text,
    }
}

/// The type of `input`.
pub fn detect(input: &[u8]) -> (r: ContentType)
    ensures
        r == content_type(input@),
{
    if starts_like_json_container(input) && is_json_syntax(input) {
        return ContentType::Json;
    }
    classify_non_json(input)
}

/// The type of `input` together with the parsed document of a JSON container.
pub fn detect_with_value(input: &[u8]) -> (r: (ContentType, Option<Json>))
    ensures
        match r.1 {
            Some(j) => container_of(input@) == Some(j@) && r.0 == ContentType::Json,
            None => container_of(input@) is None && r.0 == other_type(input@),
        },
{
    if starts_like_json_container(input) {
        match Json::parse(input) {
            Some(value) => {
                let container = match &value {
                    Json::Array(_) => true,
                    Json::Object(_) => true,
                    _ => false,
                };
                if container {
                    return (ContentType::Json, Some(value));
                }
            },
            None => {},
        }
    }
    (classify_non_json(input), None)
}

// ---------------------------------------------------------------------------
// What the types mean
// ---------------------------------------------------------------------------

/// An input opens like a container exactly if its first byte that is no blank,
/// tab, line feed, form feed or carriage return is an opening bracket or brace.
pub proof fn law_container_opening(bytes: Seq<u8>)
    ensures
        opens_container(bytes) <==> exists|k: int|
            0 <= k < bytes.len() && (#[trigger] bytes[k] == 0x5b || bytes[k] == 0x7b) && forall|
                i: int,
            |
                0 <= i < k ==> (#[trigger] bytes[i] == 0x20 || bytes[i] == 0x9 || bytes[i] == 0xa
                    || bytes[i] == 0xc || bytes[i] == 0xd),
    decreases bytes.len(),
{
    if bytes.len() > 0 && ascii_white(bytes[0]) {
        let rest = bytes.skip(1);
        law_container_opening(rest);
        if opens_container(bytes) {
            let k = choose|k: int|
                0 <= k < rest.len() && (#[trigger] rest[k] == 0x5b || rest[k] == 0x7b) && forall|
                    i: int,
                |
                    0 <= i < k ==> (#[trigger] rest[i] == 0x20 || rest[i] == 0x9 || rest[i] == 0xa
                        || rest[i] == 0xc || rest[i] == 0xd);
            assert(bytes[k + 1] == rest[k]);
            assert forall|i: int| 0 <= i < k + 1 implies (#[trigger] bytes[i] == 0x20 || bytes[i]
                == 0x9 || bytes[i] == 0xa || bytes[i] == 0xc || bytes[i] == 0xd) by {
                if i > 0 {
                    assert(rest[i - 1] == bytes[i]);
                }
            }
        }
        if exists|k: int|
            0 <= k < bytes.len() && (#[trigger] bytes[k] == 0x5b || bytes[k] == 0x7b) && forall|
                i: int,
            |
                0 <= i < k ==> (#[trigger] bytes[i] == 0x20 || bytes[i] == 0x9 || bytes[i] == 0xa
                    || bytes[i] == 0xc || bytes[i] == 0xd) {
            let k = choose|k: int|
                0 <= k < bytes.len() && (#[trigger] bytes[k] == 0x5b || bytes[k] == 0x7b)
                    && forall|i: int|
                    0 <= i < k ==> (#[trigger] bytes[i] == 0x20 || bytes[i] == 0x9 || bytes[i]
                        == 0xa || bytes[i] == 0xc || bytes[i] == 0xd);
            assert(rest[k - 1] == bytes[k]);
            assert forall|i: int| 0 <= i < k - 1 implies (#[trigger] rest[i] == 0x20 || rest[i]
                == 0x9 || rest[i] == 0xa || rest[i] == 0xc || rest[i] == 0xd) by {
                assert(bytes[i + 1] == rest[i]);
            }
        }
    } else if bytes.len() > 0 {
        if opens_container(bytes) {
            assert(bytes[0] == 0x5b || bytes[0] == 0x7b);
        }
    }
}

/// Line-oriented bulk output: at least 8 lines of which more than half begin,
/// after white space, with a digit or an opening bracket; or at least 16 lines
/// that are not blank, of which at most a tenth of the first tokens are distinct.
pub open spec fn bulk(ls: Seq<Seq<char>>) -> bool {
    let stamped = ls.filter(
        |l: Seq<char>|
            trim_start(l).len() > 0 && ('0' <= trim_start(l)[0] <= '9' || trim_start(l)[0] == '['),
    );
    let tokens = ls.filter(|l: Seq<char>| trim_start(l).len() > 0).map_values(
        |l: Seq<char>| first_token(trim_start(l)),
    );
    ||| ls.len() >= 8 && stamped.len() * 2 > ls.len()
    ||| ls.len() >= 16 && tokens.len() >= 16 && tokens.to_set().len() * 10 <= tokens.len()
}

/// What makes lines bulk output.
pub proof fn law_bulk(ls: Seq<Seq<char>>)
    ensures
        ({
            let stamped = ls.filter(
                |l: Seq<char>|
                    trim_start(l).len() > 0 && ('0' <= trim_start(l)[0] <= '9' || trim_start(l)[0]
                        == '['),
            );
            let tokens = ls.filter(|l: Seq<char>| trim_start(l).len() > 0).map_values(
                |l: Seq<char>| first_token(trim_start(l)),
            );
            bulk(ls) <==> (ls.len() >= 8 && stamped.len() * 2 > ls.len()) || (ls.len() >= 16
                && tokens.len() >= 16 && tokens.to_set().len() * 10 <= tokens.len())
        }),
{
}

/// What an input is, however long: JSON if it opens like a container and is JSON;
/// else a log if it is UTF-8 and its lines are bulk output or a `git status`; else
/// text.
pub proof fn law_content_type(bytes: Seq<u8>)
    ensures
        content_type(bytes) == ContentType::Json <==> opens_container(bytes) && json_syntax(bytes),
        content_type(bytes) == ContentType::Log <==> !(opens_container(bytes) && json_syntax(bytes))
            && valid_utf8(bytes) && (bulk(lines(decode_utf8(bytes))) || git_status_like(
            lines(decode_utf8(bytes)),
        )),
        other_type(bytes) != ContentType::Json,
        other_type(bytes) == ContentType::Log <==> valid_utf8(bytes) && (bulk(
            lines(decode_utf8(bytes)),
        ) || git_status_like(lines(decode_utf8(bytes)))),
        forall|t: Tree|
            container_of(bytes) == Some(t) <==> opens_container(bytes) && #[trigger] json_of_bytes(
                bytes,
            ) == Some(t) && (t is Array || t is Object),
{
    lemma_bulk(lines(decode_utf8(bytes)));
}

proof fn lemma_bulk(ls: Seq<Seq<char>>)
    ensures
        log_like(ls) == bulk(ls),
{
    lemma_log_counts(ls);
}

proof fn lemma_log_counts(ls: Seq<Seq<char>>)
    ensures
        log_lines(ls) == ls.filter(
            |l: Seq<char>|
                trim_start(l).len() > 0 && ('0' <= trim_start(l)[0] <= '9' || trim_start(l)[0]
                    == '['),
        ).len(),
        first_tokens(ls) == ls.filter(|l: Seq<char>| trim_start(l).len() > 0).map_values(
            |l: Seq<char>| first_token(trim_start(l)),
        ),
    decreases ls.len(),
{
    reveal(Seq::filter);
    if ls.len() > 0 {
        lemma_log_counts(ls.drop_last());
        let t = trim_start(ls.last());
        if t.len() > 0 {
            vstd::utf8::char_u32_cast(t[0], t[0] as u32);
        }
    }
    assert(first_tokens(ls) =~= ls.filter(
        |l: Seq<char>| trim_start(l).len() > 0,
    ).map_values(|l: Seq<char>| first_token(trim_start(l))));
}

/// The first token of a line goes up to the first white space or colon.
pub proof fn law_first_token(t: Seq<char>)
    ensures
        first_token(t).is_prefix_of(t),
        forall|i: int|
            0 <= i < first_token(t).len() ==> !white(#[trigger] t[i]) && t[i] != ':',
        first_token(t).len() < t.len() ==> white(t[first_token(t).len() as int])
            || t[first_token(t).len() as int] == ':',
    decreases t.len(),
{
    if t.len() > 0 && !white(t[0]) && t[0] != ':' {
        let rest = t.skip(1);
        law_first_token(rest);
        let n = first_token(rest).len() as int;
        assert(first_token(rest) =~= rest.subrange(0, n));
        assert(first_token(t) =~= t.subrange(0, n + 1));
        assert forall|i: int| 0 <= i < first_token(t).len() implies !white(#[trigger] t[i]) && t[i]
            != ':' by {
            if i > 0 {
                assert(rest[i - 1] == t[i]);
            }
        }
        if n < rest.len() {
            assert(rest[n] == t[n + 1]);
        }
    } else {
        assert(first_token(t) =~= t.subrange(0, 0));
    }
}

/// A `git status` in its long form has at least 8 lines: a branch header among
/// the first four, a section title, and an entry.
pub proof fn law_git_status(ls: Seq<Seq<char>>)
    ensures
        git_status_like(ls) <==> ls.len() >= 8 && (exists|i: int|
            0 <= i < 4 && ("On branch "@.is_prefix_of(#[trigger] ls[i])
                || "HEAD detached"@.is_prefix_of(ls[i])
                || "Not currently on any branch"@.is_prefix_of(ls[i]))) && (exists|i: int|
            0 <= i < ls.len() && ({
                let t = trim_end(#[trigger] ls[i]);
                t == "Changes to be committed:"@ || t == "Changes not staged for commit:"@ || t
                    == "Untracked files:"@ || t == "Unmerged paths:"@
            })) && (exists|i: int|
            0 <= i < ls.len() && ({
                let t = trim_start(#[trigger] ls[i]);
                "modified:"@.is_prefix_of(t) || "new file:"@.is_prefix_of(t)
                    || "deleted:"@.is_prefix_of(t) || "renamed:"@.is_prefix_of(t)
                    || "copied:"@.is_prefix_of(t) || "both modified:"@.is_prefix_of(t)
                    || "both deleted:"@.is_prefix_of(t) || "use \"git add"@.is_prefix_of(t)
            })),
{
    assert forall|s: Seq<char>, p: Seq<char>| #[trigger]
        begins(s, p) == p.is_prefix_of(s) by {
        law_occurrence(s, p, 0);
    }
    let heads = branch_headers();
    let titles = section_titles();
    let marks = entry_marks();
    assert forall|s: Seq<char>| #[trigger]
        begins_any(s, heads) == ("On branch "@.is_prefix_of(s) || "HEAD detached"@.is_prefix_of(s)
            || "Not currently on any branch"@.is_prefix_of(s)) by {
        assert(begins(s, heads[0]@) == "On branch "@.is_prefix_of(s));
        assert(begins(s, heads[1]@) == "HEAD detached"@.is_prefix_of(s));
        assert(begins(s, heads[2]@) == "Not currently on any branch"@.is_prefix_of(s));
    }
    assert forall|t: Seq<char>| #[trigger]
        one_of(t, titles) == (t == "Changes to be committed:"@ || t
            == "Changes not staged for commit:"@ || t == "Untracked files:"@ || t
            == "Unmerged paths:"@) by {
        assert(titles[0]@ == "Changes to be committed:"@);
        assert(titles[1]@ == "Changes not staged for commit:"@);
        assert(titles[2]@ == "Untracked files:"@);
        assert(titles[3]@ == "Unmerged paths:"@);
    }
    assert forall|t: Seq<char>| #[trigger]
        begins_any(t, marks) == ("modified:"@.is_prefix_of(t) || "new file:"@.is_prefix_of(t)
            || "deleted:"@.is_prefix_of(t) || "renamed:"@.is_prefix_of(t) || "copied:"@.is_prefix_of(
            t,
        ) || "both modified:"@.is_prefix_of(t) || "both deleted:"@.is_prefix_of(t)
            || "use \"git add"@.is_prefix_of(t)) by {
        assert(begins(t, marks[0]@) == "modified:"@.is_prefix_of(t));
        assert(begins(t, marks[1]@) == "new file:"@.is_prefix_of(t));
        assert(begins(t, marks[2]@) == "deleted:"@.is_prefix_of(t));
        assert(begins(t, marks[3]@) == "renamed:"@.is_prefix_of(t));
        assert(begins(t, marks[4]@) == "copied:"@.is_prefix_of(t));
        assert(begins(t, marks[5]@) == "both modified:"@.is_prefix_of(t));
        assert(begins(t, marks[6]@) == "both deleted:"@.is_prefix_of(t));
        assert(begins(t, marks[7]@) == "use \"git add"@.is_prefix_of(t));
    }
}

} // verus!
