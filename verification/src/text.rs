//! Text as sequences of characters.
//!
//! The rest of the library states what it prints and what it recognises over
//! `Seq<char>`. This module holds the vocabulary for that (occurrence, lines,
//! trimming, splitting, decimal numerals, lexicographic order) together with
//! executable functions that are proved to compute it.
use vstd::prelude::*;

verus! {

/// `String::push`: appends the character to the end of the string.
pub assume_specification[ String::push ](s: &mut String, ch: char)
    ensures
        final(s)@ == old(s)@.push(ch),
;

// ---------------------------------------------------------------------------
// Conversions
// ---------------------------------------------------------------------------

/// The characters of `s`.
pub fn chars_of(s: &str) -> (out: Vec<char>)
    ensures
        out@ == s@,
{
    let mut out: Vec<char> = Vec::new();
    for c in it: s.chars()
        invariant
            it.seq() == s@,
            out@ == s@.take(it.index() as int),
    {
        assert(s@.take(it.index() as int + 1) =~= s@.take(it.index() as int).push(c));
        out.push(c);
    }
    assert(s@.take(s@.len() as int) =~= s@);
    out
}

/// The string made of `chars`.
pub fn string_of(chars: &[char]) -> (out: String)
    ensures
        out@ == chars@,
{
    let mut out = String::new();
    let mut i: usize = 0;
    while i < chars.len()
        invariant
            i <= chars@.len(),
            out@ == chars@.take(i as int),
        decreases chars@.len() - i,
    {
        assert(chars@.take(i as int + 1) =~= chars@.take(i as int).push(chars@[i as int]));
        out.push(chars[i]);
        i += 1;
    }
    assert(chars@.take(i as int) =~= chars@);
    out
}

/// Appends the characters of `s` to `out`.
pub fn push_text(out: &mut Vec<char>, s: &[char])
    ensures
        final(out)@ == old(out)@ + s@,
{
    let ghost start = out@;
    let mut i: usize = 0;
    while i < s.len()
        invariant
            i <= s@.len(),
            out@ == start + s@.take(i as int),
        decreases s@.len() - i,
    {
        assert(start + s@.take(i as int + 1) =~= (start + s@.take(i as int)).push(s@[i as int]));
        out.push(s[i]);
        i += 1;
    }
    assert(s@.take(i as int) =~= s@);
}

/// A copy of the characters `s[from..to]`.
pub fn slice_of(s: &[char], from: usize, to: usize) -> (out: Vec<char>)
    requires
        from <= to <= s@.len(),
    ensures
        out@ == s@.subrange(from as int, to as int),
{
    let mut out: Vec<char> = Vec::new();
    let mut i: usize = from;
    while i < to
        invariant
            from <= i <= to <= s@.len(),
            out@ == s@.subrange(from as int, i as int),
        decreases to - i,
    {
        assert(s@.subrange(from as int, i as int + 1) =~= s@.subrange(from as int, i as int).push(s@[i as int]));
        out.push(s[i]);
        i += 1;
    }
    out
}

/// A copy of values that can be copied bit by bit.
pub fn copy_all<T: Copy>(s: &[T]) -> (out: Vec<T>)
    ensures
        out@ == s@,
{
    let mut out: Vec<T> = Vec::new();
    let mut i: usize = 0;
    while i < s.len()
        invariant
            i <= s@.len(),
            out@ == s@.take(i as int),
        decreases s@.len() - i,
    {
        assert(s@.take(i as int + 1) =~= s@.take(i as int).push(s@[i as int]));
        out.push(s[i]);
        i += 1;
    }
    assert(s@.take(i as int) =~= s@);
    out
}

/// The sequences that the vectors in `v` hold.
pub open spec fn seqs<T>(v: Seq<Vec<T>>) -> Seq<Seq<T>> {
    Seq::new(v.len(), |i: int| v[i]@)
}

/// The texts that the strings in `v` hold.
pub open spec fn texts(v: Seq<String>) -> Seq<Seq<char>> {
    Seq::new(v.len(), |i: int| v[i]@)
}

/// The texts of the string slices in `v`.
pub open spec fn strs(v: Seq<&str>) -> Seq<Seq<char>> {
    Seq::new(v.len(), |i: int| v[i]@)
}

// ---------------------------------------------------------------------------
// Equality and order
// ---------------------------------------------------------------------------

/// Whether the two slices hold the same characters.
pub fn same_chars(a: &[char], b: &[char]) -> (r: bool)
    ensures
        r == (a@ == b@),
{
    if a.len() != b.len() {
        return false;
    }
    let mut i: usize = 0;
    while i < a.len()
        invariant
            i <= a@.len() == b@.len(),
            forall|k: int| 0 <= k < i ==> a@[k] == b@[k],
        decreases a@.len() - i,
    {
        if a[i] != b[i] {
            assert(a@[i as int] != b@[i as int]);
            return false;
        }
        i += 1;
    }
    assert(a@ =~= b@);
    true
}

/// Whether the two slices hold the same bytes.
pub fn same_bytes(a: &[u8], b: &[u8]) -> (r: bool)
    ensures
        r == (a@ == b@),
{
    if a.len() != b.len() {
        return false;
    }
    let mut i: usize = 0;
    while i < a.len()
        invariant
            i <= a@.len() == b@.len(),
            forall|k: int| 0 <= k < i ==> a@[k] == b@[k],
        decreases a@.len() - i,
    {
        if a[i] != b[i] {
            assert(a@[i as int] != b@[i as int]);
            return false;
        }
        i += 1;
    }
    assert(a@ =~= b@);
    true
}

/// Whether the two strings hold the same characters.
pub fn same_text(a: &str, b: &str) -> (r: bool)
    ensures
        r == (a@ == b@),
{
    proof {
        vstd::utf8::encode_utf8_decode_utf8(a@);
        vstd::utf8::encode_utf8_decode_utf8(b@);
    }
    same_bytes(a.as_bytes(), b.as_bytes())
}

/// Lexicographic order by scalar value, which is also the order of the UTF-8
/// encodings: `a` is strictly before `b`.
pub open spec fn text_lt(a: Seq<char>, b: Seq<char>) -> bool
    decreases a.len(),
{
    if b.len() == 0 {
        false
    } else if a.len() == 0 {
        true
    } else if a[0] != b[0] {
        (a[0] as int) < (b[0] as int)
    } else {
        text_lt(a.skip(1), b.skip(1))
    }
}

/// Two texts are ordered one way, the other way, or equal.
pub proof fn lemma_text_lt_total(a: Seq<char>, b: Seq<char>)
    ensures
        text_lt(a, b) || text_lt(b, a) || a == b,
        !(text_lt(a, b) && text_lt(b, a)),
        a == b ==> !text_lt(a, b),
    decreases a.len(),
{
    if a.len() > 0 && b.len() > 0 {
        if a[0] == b[0] {
            lemma_text_lt_total(a.skip(1), b.skip(1));
            if a.skip(1) == b.skip(1) {
                assert(a =~= seq![a[0]] + a.skip(1));
                assert(b =~= seq![b[0]] + b.skip(1));
            }
            assert(a == b ==> a.skip(1) == b.skip(1));
        }
    } else {
        if a.len() == 0 && b.len() == 0 {
            assert(a =~= b);
        }
    }
}

/// The order of texts is transitive.
pub proof fn lemma_text_lt_trans(a: Seq<char>, b: Seq<char>, c: Seq<char>)
    requires
        text_lt(a, b),
        text_lt(b, c),
    ensures
        text_lt(a, c),
    decreases a.len(),
{
    if a.len() > 0 && a[0] == b[0] && b[0] == c[0] {
        lemma_text_lt_trans(a.skip(1), b.skip(1), c.skip(1));
    }
}

/// Whether the scalar value of `x` is below that of `y`.
fn char_lt(x: char, y: char) -> (r: bool)
    ensures
        r == ((x as int) < (y as int)),
{
    (x as u32) < (y as u32)
}

/// Whether `a` is strictly before `b` in lexicographic order.
pub fn chars_lt(a: &[char], b: &[char]) -> (r: bool)
    ensures
        r == text_lt(a@, b@),
{
    let mut i: usize = 0;
    assert(a@.skip(0) =~= a@);
    assert(b@.skip(0) =~= b@);
    loop
        invariant
            i <= a@.len(),
            i <= b@.len(),
            text_lt(a@, b@) == text_lt(a@.skip(i as int), b@.skip(i as int)),
        decreases a@.len() - i,
    {
        if i >= b.len() {
            return false;
        }
        if i >= a.len() {
            return true;
        }
        if a[i] != b[i] {
            assert(a@.skip(i as int)[0] == a@[i as int]);
            assert(b@.skip(i as int)[0] == b@[i as int]);
            return char_lt(a[i], b[i]);
        }
        assert(a@.skip(i as int).skip(1) =~= a@.skip(i as int + 1));
        assert(b@.skip(i as int).skip(1) =~= b@.skip(i as int + 1));
        i += 1;
    }
}

// ---------------------------------------------------------------------------
// Occurrence
// ---------------------------------------------------------------------------

/// `p` stands in `s` at position `i`.
pub open spec fn occurs_at(s: Seq<char>, p: Seq<char>, i: int) -> bool {
    0 <= i && i + p.len() <= s.len() && s.subrange(i, i + p.len()) == p
}

/// `p` stands somewhere in `s`.
pub open spec fn contains_text(s: Seq<char>, p: Seq<char>) -> bool {
    exists|i: int| #[trigger] occurs_at(s, p, i)
}

/// `s` begins with `p`.
pub open spec fn begins(s: Seq<char>, p: Seq<char>) -> bool {
    occurs_at(s, p, 0)
}

/// Whether `p` stands in `s` at position `at`.
pub fn is_at(s: &[char], p: &[char], at: usize) -> (r: bool)
    ensures
        r == occurs_at(s@, p@, at as int),
{
    if p.len() > s.len() || at > s.len() - p.len() {
        return false;
    }
    let mut k: usize = 0;
    while k < p.len()
        invariant
            k <= p@.len(),
            at + p@.len() <= s.len(),
            forall|j: int| 0 <= j < k ==> s@[at + j] == p@[j],
        decreases p@.len() - k,
    {
        if s[at + k] != p[k] {
            assert(s@.subrange(at as int, at + p@.len())[k as int] != p@[k as int]);
            return false;
        }
        k += 1;
    }
    assert(s@.subrange(at as int, at + p@.len()) =~= p@);
    true
}

/// Whether `p` stands somewhere in `s`.
pub fn has_chars(s: &[char], p: &[char]) -> (r: bool)
    ensures
        r == contains_text(s@, p@),
{
    if p.len() > s.len() {
        return false;
    }
    let last: usize = s.len() - p.len();
    let mut i: usize = 0;
    while i <= last
        invariant
            last == s@.len() - p@.len(),
            i <= last + 1,
            forall|j: int| 0 <= j < i ==> !occurs_at(s@, p@, j),
        decreases last + 1 - i,
    {
        if is_at(s, p, i) {
            assert(occurs_at(s@, p@, i as int));
            return true;
        }
        if i == last {
            assert(forall|j: int| !occurs_at(s@, p@, j));
            return false;
        }
        i += 1;
    }
    false
}

/// Whether the literal `p` stands somewhere in `s`.
pub fn has_str(s: &[char], p: &str) -> (r: bool)
    ensures
        r == contains_text(s@, p@),
{
    let pat = chars_of(p);
    has_chars(s, &pat)
}

/// Whether `s` begins with the literal `p`.
pub fn begins_str(s: &[char], p: &str) -> (r: bool)
    ensures
        r == begins(s@, p@),
{
    let pat = chars_of(p);
    is_at(s, &pat, 0)
}

/// Some text of `words` stands in `s`.
pub open spec fn has_any(s: Seq<char>, words: Seq<&str>) -> bool {
    exists|i: int| 0 <= i < words.len() && contains_text(s, #[trigger] words[i]@)
}

/// Whether some literal of `words` stands in `s`.
pub fn has_any_str(s: &[char], words: &[&str]) -> (r: bool)
    ensures
        r == has_any(s@, words@),
{
    let mut i: usize = 0;
    while i < words.len()
        invariant
            i <= words@.len(),
            forall|j: int| 0 <= j < i ==> !contains_text(s@, #[trigger] words@[j]@),
        decreases words@.len() - i,
    {
        if has_str(s, words[i]) {
            return true;
        }
        i += 1;
    }
    false
}

/// `s` begins with some text of `words`.
pub open spec fn begins_any(s: Seq<char>, words: Seq<&str>) -> bool {
    exists|i: int| 0 <= i < words.len() && begins(s, #[trigger] words[i]@)
}

/// Whether `s` begins with some literal of `words`.
pub fn begins_any_str(s: &[char], words: &[&str]) -> (r: bool)
    ensures
        r == begins_any(s@, words@),
{
    let mut i: usize = 0;
    while i < words.len()
        invariant
            i <= words@.len(),
            forall|j: int| 0 <= j < i ==> !begins(s@, #[trigger] words@[j]@),
        decreases words@.len() - i,
    {
        if begins_str(s, words[i]) {
            return true;
        }
        i += 1;
    }
    false
}

// ---------------------------------------------------------------------------
// Classes of characters
// ---------------------------------------------------------------------------

/// Unicode's `White_Space` property, the one `char::is_whitespace` tests.
pub open spec fn white(c: char) -> bool {
    let u = c as u32;
    ||| 0x9 <= u <= 0xd
    ||| u == 0x20
    ||| u == 0x85
    ||| u == 0xa0
    ||| u == 0x1680
    ||| 0x2000 <= u <= 0x200a
    ||| u == 0x2028
    ||| u == 0x2029
    ||| u == 0x202f
    ||| u == 0x205f
    ||| u == 0x3000
}

/// Whether `c` is white space.
pub fn is_white(c: char) -> (r: bool)
    ensures
        r == white(c),
{
    let u: u32 = c as u32;
    (0x9 <= u && u <= 0xd) || u == 0x20 || u == 0x85 || u == 0xa0 || u == 0x1680 || (0x2000 <= u
        && u <= 0x200a) || u == 0x2028 || u == 0x2029 || u == 0x202f || u == 0x205f || u == 0x3000
}

/// An ASCII digit.
pub open spec fn digit(c: char) -> bool {
    0x30 <= (c as u32) <= 0x39
}

/// Whether `c` is an ASCII digit.
pub fn is_digit(c: char) -> (r: bool)
    ensures
        r == digit(c),
{
    let u: u32 = c as u32;
    0x30 <= u && u <= 0x39
}

/// An ASCII letter or digit.
pub open spec fn alnum(c: char) -> bool {
    ||| digit(c)
    ||| 0x41 <= (c as u32) <= 0x5a
    ||| 0x61 <= (c as u32) <= 0x7a
}

/// Whether `c` is an ASCII letter or digit.
pub fn is_alnum(c: char) -> (r: bool)
    ensures
        r == alnum(c),
{
    let u: u32 = c as u32;
    (0x30 <= u && u <= 0x39) || (0x41 <= u && u <= 0x5a) || (0x61 <= u && u <= 0x7a)
}

/// `c` with an ASCII capital made small.
pub open spec fn lower_char(c: char) -> char {
    if 0x41 <= (c as u32) <= 0x5a {
        ((c as u32) + 0x20) as char
    } else {
        c
    }
}

/// `s` with its ASCII capitals made small.
pub open spec fn ascii_lower(s: Seq<char>) -> Seq<char> {
    s.map_values(|c: char| lower_char(c))
}

fn lower_char_of(c: char) -> (r: char)
    ensures
        r == lower_char(c),
{
    let u: u32 = c as u32;
    if 0x41 <= u && u <= 0x5a {
        let b: u8 = u as u8;
        (b + 0x20) as char
    } else {
        c
    }
}

/// `s` with its ASCII capitals made small, as `str::to_ascii_lowercase` makes it.
pub fn ascii_lower_of(s: &[char]) -> (out: Vec<char>)
    ensures
        out@ == ascii_lower(s@),
{
    let mut out: Vec<char> = Vec::new();
    let mut i: usize = 0;
    while i < s.len()
        invariant
            i <= s@.len(),
            out@ =~= ascii_lower(s@.take(i as int)),
        decreases s@.len() - i,
    {
        out.push(lower_char_of(s[i]));
        i += 1;
    }
    assert(s@.take(i as int) =~= s@);
    out
}

// ---------------------------------------------------------------------------
// Trimming
// ---------------------------------------------------------------------------

/// `s` without its leading white space.
pub open spec fn trim_start(s: Seq<char>) -> Seq<char>
    decreases s.len(),
{
    if s.len() > 0 && white(s[0]) {
        trim_start(s.skip(1))
    } else {
        s
    }
}

/// `s` without its trailing white space.
pub open spec fn trim_end(s: Seq<char>) -> Seq<char>
    decreases s.len(),
{
    if s.len() > 0 && white(s.last()) {
        trim_end(s.drop_last())
    } else {
        s
    }
}

/// `s` without white space at either end.
pub open spec fn trim(s: Seq<char>) -> Seq<char> {
    trim_end(trim_start(s))
}

/// `s` without its leading white space.
pub fn trim_start_of(s: &[char]) -> (out: Vec<char>)
    ensures
        out@ == trim_start(s@),
{
    let mut i: usize = 0;
    assert(s@.skip(0) =~= s@);
    while i < s.len() && is_white(s[i])
        invariant
            i <= s@.len(),
            trim_start(s@) == trim_start(s@.skip(i as int)),
        decreases s@.len() - i,
    {
        assert(s@.skip(i as int)[0] == s@[i as int]);
        assert(s@.skip(i as int).skip(1) =~= s@.skip(i as int + 1));
        i += 1;
    }
    if i < s.len() {
        assert(s@.skip(i as int)[0] == s@[i as int]);
    }
    assert(s@.subrange(i as int, s@.len() as int) =~= s@.skip(i as int));
    slice_of(s, i, s.len())
}

/// `s` without its trailing white space.
pub fn trim_end_of(s: &[char]) -> (out: Vec<char>)
    ensures
        out@ == trim_end(s@),
{
    let mut n: usize = s.len();
    assert(s@.take(n as int) =~= s@);
    while n > 0 && is_white(s[n - 1])
        invariant
            n <= s@.len(),
            trim_end(s@) == trim_end(s@.take(n as int)),
        decreases n,
    {
        assert(s@.take(n as int).last() == s@[n - 1]);
        assert(s@.take(n as int).drop_last() =~= s@.take(n - 1));
        n -= 1;
    }
    if n > 0 {
        assert(s@.take(n as int).last() == s@[n - 1]);
    }
    assert(s@.subrange(0, n as int) =~= s@.take(n as int));
    slice_of(s, 0, n)
}

/// `s` without white space at either end.
pub fn trim_of(s: &[char]) -> (out: Vec<char>)
    ensures
        out@ == trim(s@),
{
    let t = trim_start_of(s);
    trim_end_of(&t)
}

// ---------------------------------------------------------------------------
// Splitting
// ---------------------------------------------------------------------------

/// The separators by which a text is cut.
#[derive(Clone, Copy, PartialEq, Eq, Structural)]
pub enum Separator {
    /// The line feed.
    LineFeed,
    /// Every character but an ASCII letter or digit.
    NotAlnum,
    /// Every character but an ASCII digit.
    NotDigit,
    /// Every character but an ASCII digit or a full stop.
    NotNumeral,
    /// A full stop.
    Dot,
    /// A comma.
    Comma,
}

impl Separator {
    /// `c` separates.
    pub open spec fn cuts(self, c: char) -> bool {
        match self {
            Separator::LineFeed => c == '\n',
            Separator::NotAlnum => !alnum(c),
            Separator::NotDigit => !digit(c),
            Separator::NotNumeral => !digit(c) && c != '.',
            Separator::Dot => c == '.',
            Separator::Comma => c == ',',
        }
    }

    /// Whether `c` separates.
    pub fn at(self, c: char) -> (r: bool)
        ensures
            r == self.cuts(c),
    {
        match self {
            Separator::LineFeed => c == '\n',
            Separator::NotAlnum => !is_alnum(c),
            Separator::NotDigit => !is_digit(c),
            Separator::NotNumeral => !is_digit(c) && c != '.',
            Separator::Dot => c == '.',
            Separator::Comma => c == ',',
        }
    }
}

/// The pieces of `s` between separators: one more than there are separators.
pub open spec fn split(s: Seq<char>, sep: Separator) -> Seq<Seq<char>>
    decreases s.len(),
{
    if s.len() == 0 {
        seq![Seq::<char>::empty()]
    } else {
        let before = split(s.drop_last(), sep);
        if sep.cuts(s.last()) {
            before.push(Seq::empty())
        } else {
            before.update(before.len() - 1, before.last().push(s.last()))
        }
    }
}

/// A text has at least one piece.
pub proof fn lemma_split_nonempty(s: Seq<char>, sep: Separator)
    ensures
        split(s, sep).len() >= 1,
    decreases s.len(),
{
    if s.len() > 0 {
        lemma_split_nonempty(s.drop_last(), sep);
    }
}

/// The pieces of `s` between separators.
pub fn split_of(s: &[char], sep: Separator) -> (out: Vec<Vec<char>>)
    ensures
        seqs(out@) == split(s@, sep),
        out@.len() >= 1,
{
    let mut out: Vec<Vec<char>> = Vec::new();
    let mut piece: Vec<char> = Vec::new();
    let mut i: usize = 0;
    assert(seqs(out@).push(piece@) =~= split(s@.take(0), sep));
    while i < s.len()
        invariant
            i <= s@.len(),
            seqs(out@).push(piece@) == split(s@.take(i as int), sep),
        decreases s@.len() - i,
    {
        let c = s[i];
        let ghost now = s@.take(i as int + 1);
        let ghost before = split(s@.take(i as int), sep);
        assert(now.drop_last() =~= s@.take(i as int));
        assert(now.last() == c);
        let ghost done = seqs(out@);
        if sep.at(c) {
            let ghost cut = piece@;
            out.push(piece);
            piece = Vec::new();
            assert(seqs(out@) =~= done.push(cut));
            assert(seqs(out@).push(piece@) =~= before.push(Seq::empty()));
        } else {
            piece.push(c);
            assert(seqs(out@).push(piece@) =~= before.update(
                before.len() - 1,
                before.last().push(c),
            ));
        }
        i += 1;
    }
    assert(s@.take(i as int) =~= s@);
    let ghost done = seqs(out@);
    let ghost cut = piece@;
    out.push(piece);
    assert(seqs(out@) =~= done.push(cut));
    out
}

/// `line` without one trailing carriage return.
pub open spec fn chop_cr(line: Seq<char>) -> Seq<char> {
    if line.len() > 0 && line.last() == '\r' {
        line.drop_last()
    } else {
        line
    }
}

/// The lines of `s` as `str::lines` gives them: each ends at a line feed, which
/// is left out together with a carriage return right before it; what follows
/// the last line feed is a line unless it is empty.
pub open spec fn lines(s: Seq<char>) -> Seq<Seq<char>> {
    let parts = split(s, Separator::LineFeed);
    let n = (parts.len() - 1) as nat;
    let full = Seq::new(n, |i: int| chop_cr(parts[i]));
    if parts.last().len() == 0 {
        full
    } else {
        full.push(parts.last())
    }
}

/// The lines of `s`.
pub fn lines_of(s: &[char]) -> (out: Vec<Vec<char>>)
    ensures
        seqs(out@) == lines(s@),
{
    let parts = split_of(s, Separator::LineFeed);
    let n: usize = parts.len() - 1;
    let ghost cut = split(s@, Separator::LineFeed);
    assert(cut.len() == parts@.len());
    assert(forall|k: int| 0 <= k < cut.len() ==> cut[k] == #[trigger] parts@[k]@);
    let mut out: Vec<Vec<char>> = Vec::new();
    let mut i: usize = 0;
    while i < n
        invariant
            i <= n,
            n == parts@.len() - 1,
            cut.len() == parts@.len(),
            forall|k: int| 0 <= k < cut.len() ==> cut[k] == #[trigger] parts@[k]@,
            out@.len() == i,
            forall|k: int| 0 <= k < i ==> (#[trigger] out@[k])@ == chop_cr(cut[k]),
        decreases n - i,
    {
        let line = &parts[i];
        let m: usize = if line.len() > 0 && line[line.len() - 1] == '\r' {
            line.len() - 1
        } else {
            line.len()
        };
        assert(line@.subrange(0, m as int) =~= chop_cr(cut[i as int]));
        out.push(slice_of(line, 0, m));
        i += 1;
    }
    let last = &parts[n];
    assert(last@ == cut.last());
    if last.len() > 0 {
        assert(last@.subrange(0, last@.len() as int) =~= last@);
        out.push(slice_of(last, 0, last.len()));
    }
    assert(seqs(out@) =~= lines(s@));
    out
}

/// `s` with each occurrence of `from` replaced by `to`, from left to right.
pub open spec fn replaced(s: Seq<char>, from: Seq<char>, to: Seq<char>) -> Seq<char>
    decreases s.len(),
{
    if s.len() == 0 || from.len() == 0 {
        s
    } else if begins(s, from) {
        to + replaced(s.skip(from.len() as int), from, to)
    } else {
        seq![s[0]] + replaced(s.skip(1), from, to)
    }
}

/// `s` with each occurrence of `from` replaced by `to`.
pub fn replace_of(s: &[char], from: &str, to: &str) -> (out: Vec<char>)
    requires
        from@.len() > 0,
    ensures
        out@ == replaced(s@, from@, to@),
{
    let pat = chars_of(from);
    let new = chars_of(to);
    let mut out: Vec<char> = Vec::new();
    let mut i: usize = 0;
    assert(s@.skip(0) =~= s@);
    assert(out@ + replaced(s@, from@, to@) =~= replaced(s@, from@, to@));
    while i < s.len()
        invariant
            i <= s@.len(),
            pat@ == from@,
            new@ == to@,
            from@.len() > 0,
            out@ + replaced(s@.skip(i as int), from@, to@) == replaced(s@, from@, to@),
        decreases s@.len() - i,
    {
        let ghost rest = s@.skip(i as int);
        let ghost before = out@;
        assert(rest.len() > 0);
        if is_at(s, &pat, i) {
            assert(begins(rest, from@)) by {
                assert(rest.subrange(0, from@.len() as int) =~= s@.subrange(
                    i as int,
                    i + from@.len(),
                ));
            }
            push_text(&mut out, &new);
            assert(rest.skip(from@.len() as int) =~= s@.skip(i + from@.len()));
            assert(out@ + replaced(s@.skip(i + from@.len()), from@, to@) =~= before + (to@
                + replaced(rest.skip(from@.len() as int), from@, to@)));
            i += pat.len();
        } else {
            assert(!begins(rest, from@)) by {
                if begins(rest, from@) {
                    assert(rest.subrange(0, from@.len() as int) =~= s@.subrange(
                        i as int,
                        i + from@.len(),
                    ));
                }
            }
            out.push(s[i]);
            assert(rest.skip(1) =~= s@.skip(i + 1));
            assert(out@ + replaced(s@.skip(i + 1), from@, to@) =~= before + (seq![rest[0]]
                + replaced(rest.skip(1), from@, to@)));
            i += 1;
        }
    }
    assert(s@.skip(i as int) =~= Seq::empty());
    assert(out@ + Seq::<char>::empty() =~= out@);
    out
}

// ---------------------------------------------------------------------------
// Numerals and joining
// ---------------------------------------------------------------------------

/// The numeral of one decimal digit.
pub open spec fn digit_char(d: nat) -> char {
    (0x30 + d) as char
}

/// The decimal numeral of `n`.
pub open spec fn decimal(n: nat) -> Seq<char>
    decreases n,
{
    if n < 10 {
        seq![digit_char(n)]
    } else {
        decimal(n / 10).push(digit_char(n % 10))
    }
}

/// A numeral holds nothing but ASCII digits, and at least one.
pub proof fn lemma_decimal_digits(n: nat)
    ensures
        decimal(n).len() >= 1,
        forall|i: int| 0 <= i < decimal(n).len() ==> digit(#[trigger] decimal(n)[i]),
    decreases n,
{
    if n >= 10 {
        lemma_decimal_digits(n / 10);
    }
}

/// The decimal numeral of `n`.
pub fn decimal_of(n: usize) -> (out: String)
    ensures
        out@ == decimal(n as nat),
    decreases n,
{
    let d: u8 = 0x30 + (n % 10) as u8;
    let mut out = if n < 10 {
        String::new()
    } else {
        decimal_of(n / 10)
    };
    out.push(d as char);
    assert(n < 10 ==> out@ =~= seq![digit_char(n as nat)]);
    out
}

/// The decimal numeral of `n`.
pub fn decimal_of_u64(n: u64) -> (out: String)
    ensures
        out@ == decimal(n as nat),
    decreases n,
{
    let d: u8 = 0x30 + (n % 10) as u8;
    let mut out = if n < 10 {
        String::new()
    } else {
        decimal_of_u64(n / 10)
    };
    out.push(d as char);
    assert(n < 10 ==> out@ =~= seq![digit_char(n as nat)]);
    out
}

/// The decimal numeral of `n`.
pub fn decimal_of_u128(n: u128) -> (out: String)
    ensures
        out@ == decimal(n as nat),
    decreases n,
{
    let d: u8 = 0x30 + (n % 10) as u8;
    let mut out = if n < 10 {
        String::new()
    } else {
        decimal_of_u128(n / 10)
    };
    out.push(d as char);
    assert(n < 10 ==> out@ =~= seq![digit_char(n as nat)]);
    out
}

/// The texts of `parts` with `sep` between each two.
pub open spec fn join(parts: Seq<Seq<char>>, sep: Seq<char>) -> Seq<char>
    decreases parts.len(),
{
    if parts.len() == 0 {
        Seq::empty()
    } else if parts.len() == 1 {
        parts[0]
    } else {
        join(parts.drop_last(), sep) + sep + parts.last()
    }
}

/// The strings of `parts` with `sep` between each two.
pub fn join_of(parts: &[String], sep: &str) -> (out: String)
    ensures
        out@ == join(texts(parts@), sep@),
{
    let mut out = String::new();
    let mut i: usize = 0;
    while i < parts.len()
        invariant
            i <= parts@.len(),
            out@ == join(texts(parts@).take(i as int), sep@),
        decreases parts@.len() - i,
    {
        let ghost all = texts(parts@);
        assert(all.take(i as int + 1).drop_last() =~= all.take(i as int));
        assert(all.take(i as int + 1).last() == parts@[i as int]@);
        if i > 0 {
            out.append(sep);
        }
        let ghost before = out@;
        out.append(parts[i].as_str());
        assert(i == 0 ==> out@ =~= parts@[0]@);
        i += 1;
    }
    assert(texts(parts@).take(i as int) =~= texts(parts@));
    out
}

// ---------------------------------------------------------------------------
// What holds of texts
// ---------------------------------------------------------------------------

/// One text comes before another exactly if, after a common beginning, it ends
/// or has the smaller character.
pub proof fn law_text_order(a: Seq<char>, b: Seq<char>)
    ensures
        text_lt(a, b) <==> exists|k: int| #[trigger] parts_at(a, b, k),
        forall|k: int| #[trigger]
            parts_at(a, b, k) <==> 0 <= k <= a.len() && k < b.len() && a.take(k) == b.take(k) && (k
                == a.len() || (a[k] as int) < (b[k] as int)),
    decreases a.len(),
{
    if b.len() > 0 && a.len() == 0 {
        assert(a.take(0) =~= b.take(0));
        assert(parts_at(a, b, 0));
    } else if b.len() > 0 && a[0] != b[0] {
        if text_lt(a, b) {
            assert(a.take(0) =~= b.take(0));
            assert(parts_at(a, b, 0));
        }
        if exists|k: int| #[trigger] parts_at(a, b, k) {
            let k = choose|k: int| #[trigger] parts_at(a, b, k);
            if k > 0 {
                assert(a.take(k)[0] == b.take(k)[0]);
            }
        }
    } else if b.len() > 0 {
        let x = a.skip(1);
        let y = b.skip(1);
        law_text_order(x, y);
        if text_lt(a, b) {
            let k = choose|k: int| #[trigger] parts_at(x, y, k);
            assert(a.take(k + 1) =~= seq![a[0]] + x.take(k));
            assert(b.take(k + 1) =~= seq![b[0]] + y.take(k));
            assert(parts_at(a, b, k + 1));
        }
        if exists|k: int| #[trigger] parts_at(a, b, k) {
            let k = choose|k: int| #[trigger] parts_at(a, b, k);
            assert(k > 0);
            assert(x.take(k - 1) =~= a.take(k).skip(1));
            assert(y.take(k - 1) =~= b.take(k).skip(1));
            assert(parts_at(x, y, k - 1));
        }
    }
}

/// The texts are the same up to `k`, and there the first one ends, or has the
/// smaller character.
pub open spec fn parts_at(a: Seq<char>, b: Seq<char>, k: int) -> bool {
    &&& 0 <= k <= a.len()
    &&& k < b.len()
    &&& a.take(k) == b.take(k)
    &&& k == a.len() || (a[k] as int) < (b[k] as int)
}

/// A text is split at every separator: with one between them, two texts are
/// split apart, and a text without any is one piece.
pub proof fn law_split(a: Seq<char>, c: char, b: Seq<char>, sep: Separator)
    ensures
        sep.cuts(c) ==> split(a.push(c) + b, sep) == split(a, sep) + split(b, sep),
        (forall|i: int| 0 <= i < a.len() ==> !sep.cuts(#[trigger] a[i])) ==> split(a, sep) == seq![
            a,
        ],
{
    if sep.cuts(c) {
        lemma_split_at(a, c, b, sep);
    }
    if forall|i: int| 0 <= i < a.len() ==> !sep.cuts(#[trigger] a[i]) {
        lemma_split_run(a, sep);
    }
}

proof fn lemma_split_at(a: Seq<char>, c: char, b: Seq<char>, sep: Separator)
    requires
        sep.cuts(c),
    ensures
        split(a.push(c) + b, sep) == split(a, sep) + split(b, sep),
    decreases b.len(),
{
    lemma_split_nonempty(a, sep);
    lemma_split_nonempty(b, sep);
    let all = a.push(c) + b;
    if b.len() == 0 {
        assert(all =~= a.push(c));
        assert(all.drop_last() =~= a);
        assert(split(all, sep) =~= split(a, sep) + split(b, sep));
    } else {
        lemma_split_at(a, c, b.drop_last(), sep);
        lemma_split_nonempty(b.drop_last(), sep);
        assert(all.drop_last() =~= a.push(c) + b.drop_last());
        assert(all.last() == b.last());
        assert(split(all, sep) =~= split(a, sep) + split(b, sep));
    }
}

proof fn lemma_split_run(a: Seq<char>, sep: Separator)
    requires
        forall|i: int| 0 <= i < a.len() ==> !sep.cuts(#[trigger] a[i]),
    ensures
        split(a, sep) == seq![a],
    decreases a.len(),
{
    if a.len() > 0 {
        let before = a.drop_last();
        assert(forall|i: int| 0 <= i < before.len() ==> #[trigger] before[i] == a[i]);
        lemma_split_run(before, sep);
        assert(!sep.cuts(a[a.len() - 1]));
        assert(before.push(a.last()) =~= a);
        assert(split(a, sep) =~= seq![a]);
    } else {
        assert(a =~= Seq::empty());
        assert(split(a, sep) =~= seq![a]);
    }
}

/// Which characters separate: all but letters and digits, all but digits, all
/// but digits and full stops, or one character alone.
pub proof fn law_separators(c: char)
    ensures
        Separator::LineFeed.cuts(c) <==> c == '\n',
        Separator::Dot.cuts(c) <==> c == '.',
        Separator::Comma.cuts(c) <==> c == ',',
        Separator::NotDigit.cuts(c) <==> !('0' <= c <= '9'),
        Separator::NotNumeral.cuts(c) <==> !('0' <= c <= '9' || c == '.'),
        Separator::NotAlnum.cuts(c) <==> !('0' <= c <= '9' || 'A' <= c <= 'Z' || 'a' <= c <= 'z'),
{
}

/// The lines of a text: one for each line feed, without it and without a
/// carriage return right before it, and one for what follows the last line feed,
/// unless that is nothing.
pub proof fn law_lines(line: Seq<char>, rest: Seq<char>)
    requires
        forall|i: int| 0 <= i < line.len() ==> (#[trigger] line[i]) != '\n',
    ensures
        lines(line.push('\n') + rest) == seq![
            if line.len() > 0 && line.last() == '\r' {
                line.drop_last()
            } else {
                line
            },
        ] + lines(rest),
        lines(line) == (if line.len() == 0 {
            Seq::empty()
        } else {
            seq![line]
        }),
{
    let sep = Separator::LineFeed;
    law_split(line, '\n', rest, sep);
    lemma_split_nonempty(rest, sep);
    assert(split(line, sep) == seq![line]);
    let all = split(line.push('\n') + rest, sep);
    assert(all =~= seq![line] + split(rest, sep));
    assert(all.last() == split(rest, sep).last());
    assert(lines(line.push('\n') + rest) =~= seq![chop_cr(line)] + lines(rest));
    assert(lines(line) =~= (if line.len() == 0 {
        Seq::<Seq<char>>::empty()
    } else {
        seq![line]
    }));
}

/// Trimming takes away white space at the ends, all of it, and nothing else.
pub proof fn law_trim(s: Seq<char>)
    ensures
        exists|k: int|
            0 <= k <= s.len() && #[trigger] s.skip(k) == trim_start(s) && (forall|i: int|
                0 <= i < k ==> white(#[trigger] s[i])),
        exists|k: int|
            0 <= k <= s.len() && #[trigger] s.take(k) == trim_end(s) && (forall|i: int|
                k <= i < s.len() ==> white(#[trigger] s[i])),
        trim_start(s).len() > 0 ==> !white(trim_start(s)[0]),
        trim_end(s).len() > 0 ==> !white(trim_end(s).last()),
        trim(s) == trim_end(trim_start(s)),
{
    let k = lemma_trim_start(s);
    assert(s.skip(k) == trim_start(s));
    let e = lemma_trim_end(s);
    assert(s.take(e) == trim_end(s));
}

proof fn lemma_trim_start(s: Seq<char>) -> (k: int)
    ensures
        0 <= k <= s.len(),
        s.skip(k) == trim_start(s),
        forall|i: int| 0 <= i < k ==> white(#[trigger] s[i]),
        trim_start(s).len() > 0 ==> !white(trim_start(s)[0]),
    decreases s.len(),
{
    if s.len() > 0 && white(s[0]) {
        let rest = s.skip(1);
        let k = lemma_trim_start(rest);
        assert(s.skip(k + 1) =~= rest.skip(k));
        assert forall|i: int| 0 <= i < k + 1 implies white(#[trigger] s[i]) by {
            if i > 0 {
                assert(rest[i - 1] == s[i]);
            }
        }
        k + 1
    } else {
        assert(s.skip(0) =~= s);
        0
    }
}

proof fn lemma_trim_end(s: Seq<char>) -> (k: int)
    ensures
        0 <= k <= s.len(),
        s.take(k) == trim_end(s),
        forall|i: int| k <= i < s.len() ==> white(#[trigger] s[i]),
        trim_end(s).len() > 0 ==> !white(trim_end(s).last()),
    decreases s.len(),
{
    if s.len() > 0 && white(s.last()) {
        let rest = s.drop_last();
        let k = lemma_trim_end(rest);
        assert(s.take(k) =~= rest.take(k));
        assert forall|i: int| k <= i < s.len() implies white(#[trigger] s[i]) by {
            if i < rest.len() {
                assert(rest[i] == s[i]);
            }
        }
        k
    } else {
        assert(s.take(s.len() as int) =~= s);
        s.len() as int
    }
}

/// White space is what Unicode calls so: the blank, the controls from tab to
/// carriage return, the next line, and the spaces and separators beyond ASCII.
pub proof fn law_white_space(c: char)
    ensures
        white(c) <==> (c == ' ' || '\t' <= c <= '\r' || c == '\u{85}' || c == '\u{a0}' || c
            == '\u{1680}' || '\u{2000}' <= c <= '\u{200a}' || c == '\u{2028}' || c == '\u{2029}'
            || c == '\u{202f}' || c == '\u{205f}' || c == '\u{3000}'),
{
}

/// Lower case changes the ASCII capitals, each to its small letter, and nothing
/// else.
pub proof fn law_ascii_lower(s: Seq<char>)
    ensures
        ascii_lower(s).len() == s.len(),
        forall|i: int|
            0 <= i < s.len() ==> (#[trigger] ascii_lower(s)[i]) as int == (if 'A' <= s[i] <= 'Z' {
                s[i] as int + 0x20
            } else {
                s[i] as int
            }),
{
    assert forall|i: int| 0 <= i < s.len() implies (#[trigger] ascii_lower(s)[i]) as int == (if 'A'
        <= s[i] <= 'Z' {
        s[i] as int + 0x20
    } else {
        s[i] as int
    }) by {
        vstd::utf8::char_u32_cast(s[i], s[i] as u32);
    }
}

/// A replacement is made at the first place where the words stand, and goes on
/// after it; a text without the words is left as it is.
pub proof fn law_replaced(s: Seq<char>, from: Seq<char>, to: Seq<char>, i: int)
    requires
        from.len() > 0,
    ensures
        !contains_text(s, from) ==> replaced(s, from, to) == s,
        occurs_at(s, from, i) && (forall|j: int| 0 <= j < i ==> !#[trigger] occurs_at(s, from, j))
            ==> replaced(s, from, to) == s.take(i) + to + replaced(
            s.skip(i + from.len()),
            from,
            to,
        ),
    decreases s.len(),
{
    if s.len() > 0 && !begins(s, from) {
        let rest = s.skip(1);
        law_replaced(rest, from, to, i - 1);
        assert forall|j: int| #[trigger] occurs_at(rest, from, j) implies occurs_at(
            s,
            from,
            j + 1,
        ) by {
            assert(s.subrange(j + 1, j + 1 + from.len()) =~= rest.subrange(j, j + from.len()));
        }
        if !contains_text(s, from) {
            assert(!contains_text(rest, from));
            assert(seq![s[0]] + rest =~= s);
        }
        if occurs_at(s, from, i) && (forall|j: int|
            0 <= j < i ==> !#[trigger] occurs_at(s, from, j)) {
            assert(i > 0);
            assert(rest.subrange(i - 1, i - 1 + from.len()) =~= s.subrange(i, i + from.len()));
            assert forall|j: int| 0 <= j < i - 1 implies !#[trigger] occurs_at(rest, from, j) by {
                if occurs_at(rest, from, j) {
                    assert(occurs_at(s, from, j + 1));
                }
            }
            assert(rest.skip(i - 1 + from.len()) =~= s.skip(i + from.len()));
            assert(seq![s[0]] + (rest.take(i - 1) + to + replaced(
                s.skip(i + from.len()),
                from,
                to,
            )) =~= s.take(i) + to + replaced(s.skip(i + from.len()), from, to));
        }
    } else if s.len() > 0 {
        assert(occurs_at(s, from, 0));
        assert(s.take(0) + to + replaced(s.skip(from.len() as int), from, to) =~= to + replaced(
            s.skip(from.len() as int),
            from,
            to,
        ));
        if i > 0 && (forall|j: int| 0 <= j < i ==> !#[trigger] occurs_at(s, from, j)) {
            assert(!occurs_at(s, from, 0));
        }
    }
}

/// Texts are joined with the separator between any two of them.
pub proof fn law_join(first: Seq<char>, rest: Seq<Seq<char>>, sep: Seq<char>)
    ensures
        join(Seq::empty(), sep) == Seq::<char>::empty(),
        join(seq![first], sep) == first,
        rest.len() > 0 ==> join(seq![first] + rest, sep) == first + sep + join(rest, sep),
    decreases rest.len(),
{
    if rest.len() > 0 {
        let all = seq![first] + rest;
        let before = rest.drop_last();
        assert(all.drop_last() =~= seq![first] + before);
        if before.len() == 0 {
            assert(before =~= Seq::empty());
            assert(all.drop_last() =~= seq![first]);
            assert(join(rest, sep) == rest[0]);
        } else {
            law_join(first, before, sep);
            assert(first + sep + join(before, sep) + sep + rest.last() =~= first + sep + (join(
                before,
                sep,
            ) + sep + rest.last()));
        }
    }
}

/// A text stands in another exactly where all its characters do.
pub proof fn law_occurrence(s: Seq<char>, p: Seq<char>, i: int)
    ensures
        occurs_at(s, p, i) <==> 0 <= i && i + p.len() <= s.len() && forall|k: int|
            0 <= k < p.len() ==> s[i + k] == #[trigger] p[k],
        contains_text(s, p) <==> exists|j: int| #[trigger] occurs_at(s, p, j),
        begins(s, p) <==> p.is_prefix_of(s),
{
    if 0 <= i && i + p.len() <= s.len() && forall|k: int|
        0 <= k < p.len() ==> s[i + k] == #[trigger] p[k] {
        assert(s.subrange(i, i + p.len()) =~= p);
    }
    if occurs_at(s, p, i) {
        assert forall|k: int| 0 <= k < p.len() implies s[i + k] == #[trigger] p[k] by {
            assert(s.subrange(i, i + p.len())[k] == p[k]);
        }
    }
    if begins(s, p) {
        assert(p =~= s.subrange(0, p.len() as int));
    }
    if p.is_prefix_of(s) {
        assert(s.subrange(0, p.len() as int) =~= p);
    }
}

/// A list of texts has every one of them, whatever holds them.
pub proof fn law_text_views(a: Seq<String>, b: Seq<&str>, c: Seq<Vec<char>>, i: int)
    ensures
        texts(a).len() == a.len(),
        0 <= i < a.len() ==> texts(a)[i] == a[i]@,
        strs(b).len() == b.len(),
        0 <= i < b.len() ==> strs(b)[i] == b[i]@,
        seqs(c).len() == c.len(),
        0 <= i < c.len() ==> seqs(c)[i] == c[i]@,
{
}

} // verus!
