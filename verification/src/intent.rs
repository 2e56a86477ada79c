//! What a question in words asks for: a percentile, a threshold, a field.
use crate::json::{
    double_text, field_trees, number_bits, number_double, number_shown, trees, Json, Tree,
};
use crate::op::Op;
use crate::text::{
    ascii_lower, ascii_lower_of, chars_of, contains_text, decimal, digit, has_chars, has_str,
    is_digit, law_occurrence, law_separators, law_split, lemma_decimal_digits, occurs_at, push_text,
    seqs, slice_of, split, split_of, string_of, Separator,
};
use vstd::prelude::*;

verus! {

// ---------------------------------------------------------------------------
// Percentiles
// ---------------------------------------------------------------------------

/// Nothing but ASCII digits.
pub open spec fn all_digits(s: Seq<char>) -> bool {
    forall|i: int| 0 <= i < s.len() ==> digit(#[trigger] s[i])
}

/// The number that digits stand for.
pub open spec fn digits_value(s: Seq<char>) -> nat
    decreases s.len(),
{
    if s.len() == 0 {
        0
    } else {
        digits_value(s.drop_last()) * 10 + (s.last() as nat - 0x30) as nat
    }
}

/// The percentile that digits stand for: between 1 and 99.
pub open spec fn percent_value(s: Seq<char>) -> Option<nat> {
    if s.len() > 0 && all_digits(s) && 1 <= digits_value(s) <= 99 {
        Some(digits_value(s))
    } else {
        None
    }
}

/// The percentile that a word stands for: `p` and its number.
pub open spec fn percent_word(word: Seq<char>) -> Option<nat> {
    if word.len() > 0 && word[0] == 'p' {
        percent_value(word.skip(1))
    } else {
        None
    }
}

/// The percentile of the first word that stands for one.
pub open spec fn first_percent(words: Seq<Seq<char>>, bare: bool) -> Option<nat>
    decreases words.len(),
{
    if words.len() == 0 {
        None
    } else {
        let before = first_percent(words.drop_last(), bare);
        if before is Some {
            before
        } else if bare {
            percent_value(words.last())
        } else {
            percent_word(words.last())
        }
    }
}

/// The percentile that a question asks for: the 50th for a median, that of a
/// word such as `p90`, or, next to the word percentile, that of a number.
pub open spec fn percentile(q: Seq<char>) -> Option<nat> {
    if contains_text(q, "median"@) {
        Some(50)
    } else {
        let named = first_percent(split(q, Separator::NotAlnum), false);
        if named is Some {
            named
        } else if contains_text(q, "percentile"@) {
            first_percent(split(q, Separator::NotDigit), true)
        } else {
            None
        }
    }
}

fn percent_value_of(s: &[char]) -> (out: Option<usize>)
    ensures
        match out {
            Some(v) => percent_value(s@) == Some(v as nat),
            None => percent_value(s@) is None,
        },
{
    if s.len() == 0 {
        return None;
    }
    let mut value: usize = 0;
    let mut i: usize = 0;
    while i < s.len()
        invariant
            i <= s@.len(),
            value <= 100,
            value == (if digits_value(s@.take(i as int)) <= 100 {
                digits_value(s@.take(i as int))
            } else {
                100
            }),
            forall|k: int| 0 <= k < i ==> digit(#[trigger] s@[k]),
        decreases s@.len() - i,
    {
        assert(s@.take(i as int + 1).drop_last() =~= s@.take(i as int));
        assert(s@.take(i as int + 1).last() == s@[i as int]);
        if !is_digit(s[i]) {
            assert(!digit(s@[i as int]));
            return None;
        }
        let d: usize = digit_of(s[i]);
        let next: usize = value * 10 + d;
        value = if next <= 100 {
            next
        } else {
            100
        };
        i += 1;
    }
    assert(s@.take(i as int) =~= s@);
    if 1 <= value && value <= 99 {
        Some(value)
    } else {
        None
    }
}

fn digit_of(c: char) -> (d: usize)
    requires
        digit(c),
    ensures
        d == c as nat - 0x30,
        d <= 9,
{
    let u: u32 = c as u32;
    (u - 0x30) as usize
}

fn first_percent_of(words: &Vec<Vec<char>>, bare: bool) -> (out: Option<usize>)
    ensures
        match out {
            Some(v) => first_percent(seqs(words@), bare) == Some(v as nat),
            None => first_percent(seqs(words@), bare) is None,
        },
{
    let ghost all = seqs(words@);
    let mut i: usize = 0;
    while i < words.len()
        invariant
            i <= words@.len(),
            all == seqs(words@),
            first_percent(all.take(i as int), bare) is None,
        decreases words@.len() - i,
    {
        let ghost next = all.take(i as int + 1);
        assert(next.drop_last() =~= all.take(i as int));
        assert(next.last() == words@[i as int]@);
        let word = &words[i];
        let found: Option<usize> = if bare {
            percent_value_of(word)
        } else if word.len() > 0 && word[0] == 'p' {
            let rest = slice_of(word, 1, word.len());
            assert(rest@ =~= word@.skip(1));
            percent_value_of(&rest)
        } else {
            None
        };
        if found.is_some() {
            proof {
                lemma_first_percent(all, bare, i as int + 1);
            }
            return found;
        }
        i += 1;
    }
    assert(all.take(i as int) =~= all);
    None
}

proof fn lemma_first_percent(words: Seq<Seq<char>>, bare: bool, n: int)
    requires
        0 <= n <= words.len(),
        first_percent(words.take(n), bare) is Some,
    ensures
        first_percent(words, bare) == first_percent(words.take(n), bare),
    decreases words.len(),
{
    if n < words.len() {
        assert(words.drop_last().take(n) =~= words.take(n));
        lemma_first_percent(words.drop_last(), bare, n);
    } else {
        assert(words.take(n) =~= words);
    }
}

/// The percentile that a question asks for.
pub fn percentile_of(q: &[char]) -> (out: Option<usize>)
    ensures
        match out {
            Some(v) => percentile(q@) == Some(v as nat) && 1 <= v <= 99,
            None => percentile(q@) is None,
        },
{
    if has_str(q, "median") {
        return Some(50);
    }
    let words = split_of(q, Separator::NotAlnum);
    let named = first_percent_of(&words, false);
    proof {
        lemma_percent_range(seqs(words@), false);
    }
    if named.is_some() {
        return named;
    }
    if has_str(q, "percentile") {
        let numbers = split_of(q, Separator::NotDigit);
        proof {
            lemma_percent_range(seqs(numbers@), true);
        }
        return first_percent_of(&numbers, true);
    }
    None
}

proof fn lemma_percent_range(words: Seq<Seq<char>>, bare: bool)
    ensures
        match first_percent(words, bare) {
            Some(v) => 1 <= v <= 99,
            None => true,
        },
    decreases words.len(),
{
    if words.len() > 0 {
        lemma_percent_range(words.drop_last(), bare);
    }
}

// ---------------------------------------------------------------------------
// Thresholds
// ---------------------------------------------------------------------------

/// The comparison that a question asks for.
pub open spec fn threshold_op(q: Seq<char>) -> Option<Op> {
    if contains_text(q, "at least"@) || contains_text(q, "greater than or equal"@) {
        Some(Op::Ge)
    } else if contains_text(q, "at most"@) || contains_text(q, "less than or equal"@) {
        Some(Op::Le)
    } else if contains_text(q, "greater than"@) || contains_text(q, "more than"@) || contains_text(
        q,
        "above"@,
    ) {
        Some(Op::Gt)
    } else if contains_text(q, "less than"@) || contains_text(q, "below"@) || contains_text(
        q,
        "under"@,
    ) || contains_text(q, "fewer than"@) {
        Some(Op::Lt)
    } else {
        None
    }
}

/// The number of full stops in a word.
pub open spec fn dots(s: Seq<char>) -> nat
    decreases s.len(),
{
    if s.len() == 0 {
        0
    } else {
        dots(s.drop_last()) + if s.last() == '.' {
            1nat
        } else {
            0
        }
    }
}

/// A word of digits and full stops that is a decimal number: at least one digit
/// and at most one full stop.
pub open spec fn numeral(s: Seq<char>) -> bool {
    dots(s) <= 1 && s.len() > dots(s)
}

/// The first word that is a decimal number.
pub open spec fn first_numeral(words: Seq<Seq<char>>) -> Option<Seq<char>>
    decreases words.len(),
{
    if words.len() == 0 {
        None
    } else {
        let before = first_numeral(words.drop_last());
        if before is Some {
            before
        } else if numeral(words.last()) {
            Some(words.last())
        } else {
            None
        }
    }
}

/// Digits without leading zeros, but for a last one.
pub open spec fn without_zeros(s: Seq<char>) -> Seq<char>
    decreases s.len(),
{
    if s.len() == 0 {
        "0"@
    } else if s[0] == '0' {
        without_zeros(s.skip(1))
    } else {
        s
    }
}

/// A decimal number as JSON writes it: digits before the full stop, and after
/// it, if there is one.
pub open spec fn json_numeral(s: Seq<char>) -> Seq<char> {
    let parts = split(s, Separator::Dot);
    if parts.len() >= 2 && parts[1].len() > 0 {
        without_zeros(parts[0]) + "."@ + parts[1]
    } else {
        without_zeros(parts[0])
    }
}

/// The double that a decimal number stands for, and its text: infinity for one
/// that is too large.
pub open spec fn numeral_double(s: Seq<char>) -> (u64, Seq<char>) {
    match number_double(json_numeral(s)) {
        Some(bits) => (bits, double_text(bits)),
        None => (0x7ff0_0000_0000_0000, "inf"@),
    }
}

/// The comparison with a number that a question asks for: the operator, and the
/// number's bits and text.
pub open spec fn threshold(q: Seq<char>) -> Option<(Op, u64, Seq<char>)> {
    match threshold_op(q) {
        None => None,
        Some(op) => match first_numeral(split(q, Separator::NotNumeral)) {
            None => None,
            Some(word) => Some((op, numeral_double(word).0, numeral_double(word).1)),
        },
    }
}

fn threshold_op_of(q: &[char]) -> (op: Option<Op>)
    ensures
        op == threshold_op(q@),
{
    if has_str(q, "at least") || has_str(q, "greater than or equal") {
        Some(Op::Ge)
    } else if has_str(q, "at most") || has_str(q, "less than or equal") {
        Some(Op::Le)
    } else if has_str(q, "greater than") || has_str(q, "more than") || has_str(q, "above") {
        Some(Op::Gt)
    } else if has_str(q, "less than") || has_str(q, "below") || has_str(q, "under") || has_str(
        q,
        "fewer than",
    ) {
        Some(Op::Lt)
    } else {
        None
    }
}

fn is_numeral(s: &[char]) -> (r: bool)
    ensures
        r == numeral(s@),
{
    let mut n: usize = 0;
    let mut i: usize = 0;
    while i < s.len()
        invariant
            i <= s@.len(),
            n <= i,
            n == dots(s@.take(i as int)),
        decreases s@.len() - i,
    {
        assert(s@.take(i as int + 1).drop_last() =~= s@.take(i as int));
        if s[i] == '.' {
            n += 1;
        }
        i += 1;
    }
    assert(s@.take(i as int) =~= s@);
    n <= 1 && s.len() > n
}

fn without_zeros_of(s: &[char]) -> (out: Vec<char>)
    ensures
        out@ == without_zeros(s@),
{
    let mut i: usize = 0;
    assert(s@.skip(0) =~= s@);
    while i < s.len() && s[i] == '0'
        invariant
            i <= s@.len(),
            without_zeros(s@) == without_zeros(s@.skip(i as int)),
        decreases s@.len() - i,
    {
        assert(s@.skip(i as int)[0] == s@[i as int]);
        assert(s@.skip(i as int).skip(1) =~= s@.skip(i as int + 1));
        i += 1;
    }
    if i == s.len() {
        assert(s@.skip(i as int) =~= Seq::empty());
        chars_of("0")
    } else {
        assert(s@.skip(i as int)[0] == s@[i as int]);
        assert(s@.subrange(i as int, s@.len() as int) =~= s@.skip(i as int));
        slice_of(s, i, s.len())
    }
}

fn json_numeral_of(s: &[char]) -> (out: String)
    ensures
        out@ == json_numeral(s@),
{
    let parts = split_of(s, Separator::Dot);
    let ghost all = split(s@, Separator::Dot);
    assert(all[0] == parts@[0]@);
    let mut out = without_zeros_of(&parts[0]);
    if parts.len() >= 2 {
        assert(all[1] == parts@[1]@);
        if parts[1].len() > 0 {
            let dot = chars_of(".");
            push_text(&mut out, &dot);
            push_text(&mut out, &parts[1]);
        }
    }
    string_of(&out)
}

/// A comparison with a number.
pub struct Threshold {
    /// The operator.
    pub op: Op,
    /// The bits of the number.
    pub bits: u64,
    /// The text of the number.
    pub shown: String,
}

/// The comparison with a number that a question asks for.
pub fn threshold_of(q: &[char]) -> (out: Option<Threshold>)
    ensures
        match out {
            Some(t) => threshold(q@) == Some((t.op, t.bits, t.shown@)),
            None => threshold(q@) is None,
        },
{
    let op = match threshold_op_of(q) {
        None => {
            return None;
        },
        Some(op) => op,
    };
    let words = split_of(q, Separator::NotNumeral);
    let ghost all = seqs(words@);
    let mut i: usize = 0;
    while i < words.len()
        invariant
            i <= words@.len(),
            all == seqs(words@),
            all == split(q@, Separator::NotNumeral),
            threshold_op(q@) == Some(op),
            first_numeral(all.take(i as int)) is None,
        decreases words@.len() - i,
    {
        let ghost next = all.take(i as int + 1);
        assert(next.drop_last() =~= all.take(i as int));
        assert(next.last() == words@[i as int]@);
        if is_numeral(&words[i]) {
            proof {
                lemma_first_numeral(all, i as int + 1);
            }
            let text = json_numeral_of(&words[i]);
            if let Some(bits) = number_bits(text.as_str()) {
                if let Some(shown) = number_shown(text.as_str()) {
                    return Some(Threshold { op, bits, shown });
                }
            }
            return Some(Threshold { op, bits: 0x7ff0_0000_0000_0000, shown: "inf".to_owned() });
        }
        i += 1;
    }
    assert(all.take(i as int) =~= all);
    None
}

proof fn lemma_first_numeral(words: Seq<Seq<char>>, n: int)
    requires
        0 <= n <= words.len(),
        first_numeral(words.take(n)) is Some,
    ensures
        first_numeral(words) == first_numeral(words.take(n)),
    decreases words.len(),
{
    if n < words.len() {
        assert(words.drop_last().take(n) =~= words.take(n));
        lemma_first_numeral(words.drop_last(), n);
    } else {
        assert(words.take(n) =~= words);
    }
}

// ---------------------------------------------------------------------------
// Fields
// ---------------------------------------------------------------------------

/// The question names the field, whatever the case of the name.
pub open spec fn names(q: Seq<char>, name: Seq<char>) -> bool {
    contains_text(q, ascii_lower(name))
}

/// Whether the question names the field.
pub fn is_named(q: &[char], name: &str) -> (r: bool)
    ensures
        r == names(q@, name@),
{
    let chars = chars_of(name);
    let low = ascii_lower_of(&chars);
    has_chars(q, &low)
}

/// The value is a number, or, if `numeric` is false, a string.
pub open spec fn of_kind(v: Tree, numeric: bool) -> bool {
    if numeric {
        v is Number
    } else {
        v is Text
    }
}

/// The first field of the kind, named in the question if `in_question` says so.
pub open spec fn first_field(
    fields: Seq<(Seq<char>, Tree)>,
    q: Seq<char>,
    numeric: bool,
    in_question: bool,
) -> Option<Seq<char>>
    decreases fields.len(),
{
    if fields.len() == 0 {
        None
    } else if of_kind(fields[0].1, numeric) && (in_question ==> names(q, fields[0].0)) {
        Some(fields[0].0)
    } else {
        first_field(fields.skip(1), q, numeric, in_question)
    }
}

pub(crate) fn is_of_kind(v: &Json, numeric: bool) -> (r: bool)
    ensures
        r == of_kind(v@, numeric),
{
    match v {
        Json::Number(_) => numeric,
        Json::Text(_) => !numeric,
        _ => false,
    }
}

/// The first field of the kind.
pub fn first_field_of(
    fields: &Vec<(String, Json)>,
    q: &[char],
    numeric: bool,
    in_question: bool,
) -> (out: Option<String>)
    ensures
        match out {
            Some(name) => first_field(field_trees(fields@), q@, numeric, in_question) == Some(
                name@,
            ),
            None => first_field(field_trees(fields@), q@, numeric, in_question) is None,
        },
{
    let ghost all = field_trees(fields@);
    let mut i: usize = 0;
    assert(all.skip(0) =~= all);
    while i < fields.len()
        invariant
            i <= fields@.len(),
            all == field_trees(fields@),
            first_field(all, q@, numeric, in_question) == first_field(
                all.skip(i as int),
                q@,
                numeric,
                in_question,
            ),
        decreases fields@.len() - i,
    {
        assert(all.skip(i as int)[0] == (fields@[i as int].0@, fields@[i as int].1@));
        assert(all.skip(i as int).skip(1) =~= all.skip(i as int + 1));
        if is_of_kind(&fields[i].1, numeric) && (!in_question || is_named(
            q,
            fields[i].0.as_str(),
        )) {
            return Some(fields[i].0.clone());
        }
        i += 1;
    }
    None
}

/// The field of the kind that the question names.
pub fn named_field(fields: &Vec<(String, Json)>, q: &[char], numeric: bool) -> (out: Option<
    String,
>)
    ensures
        match out {
            Some(name) => first_field(field_trees(fields@), q@, numeric, true) == Some(name@),
            None => first_field(field_trees(fields@), q@, numeric, true) is None,
        },
{
    first_field_of(fields, q, numeric, true)
}

/// The fields of the first record that is an object.
pub open spec fn first_fields(rows: Seq<Tree>) -> Option<Seq<(Seq<char>, Tree)>>
    decreases rows.len(),
{
    if rows.len() == 0 {
        None
    } else if rows[0] is Object {
        Some(rows[0]->Object_0)
    } else {
        first_fields(rows.skip(1))
    }
}

/// The fields of the first record that is an object.
pub fn first_fields_of(rows: &[Json]) -> (out: Option<&Vec<(String, Json)>>)
    ensures
        match out {
            Some(fields) => first_fields(trees(rows@)) == Some(field_trees(fields@)),
            None => first_fields(trees(rows@)) is None,
        },
{
    let ghost ts = trees(rows@);
    let mut i: usize = 0;
    assert(ts.skip(0) =~= ts);
    while i < rows.len()
        invariant
            i <= rows@.len(),
            ts == trees(rows@),
            first_fields(ts) == first_fields(ts.skip(i as int)),
        decreases rows@.len() - i,
    {
        assert(ts.skip(i as int)[0] == rows@[i as int]@);
        assert(ts.skip(i as int).skip(1) =~= ts.skip(i as int + 1));
        match &rows[i] {
            Json::Object(fields) => {
                return Some(fields);
            },
            _ => {},
        }
        i += 1;
    }
    None
}

// ---------------------------------------------------------------------------
// What a question asks for
// ---------------------------------------------------------------------------

/// Digits stand for the number they write, whatever zeros precede it, and for a
/// percentile if that is between 1 and 99; `p` before them makes them a word for it.
pub proof fn law_percent_numbers(n: nat, s: Seq<char>)
    ensures
        percent_value(decimal(n)) == (if 1 <= n <= 99 {
            Some(n)
        } else {
            None
        }),
        percent_value(Seq::empty()) is None,
        s.len() > 0 ==> percent_value("0"@ + s) == percent_value(s),
        (exists|i: int| 0 <= i < s.len() && !('0' <= #[trigger] s[i] <= '9')) ==> percent_value(
            s,
        ) is None,
        percent_word("p"@ + s) == percent_value(s),
        (s.len() == 0 || s[0] != 'p') ==> percent_word(s) is None,
{
    lemma_digits_of_decimal(n);
    lemma_decimal_digits(n);
    reveal_strlit("0");
    reveal_strlit("p");
    assert(("p"@ + s).skip(1) =~= s);
    if s.len() > 0 {
        let z = "0"@ + s;
        lemma_leading_zero(s);
        assert(z[0] == '0');
        assert(forall|i: int| 0 <= i < s.len() ==> z[i + 1] == #[trigger] s[i]);
        if all_digits(s) {
            assert forall|i: int| 0 <= i < z.len() implies digit(#[trigger] z[i]) by {
                if i > 0 {
                    assert(digit(s[i - 1]));
                }
            }
        }
        if all_digits(z) {
            assert forall|i: int| 0 <= i < s.len() implies digit(#[trigger] s[i]) by {
                assert(digit(z[i + 1]));
            }
        }
    }
    if exists|i: int| 0 <= i < s.len() && !('0' <= #[trigger] s[i] <= '9') {
        let i = choose|i: int| 0 <= i < s.len() && !('0' <= #[trigger] s[i] <= '9');
        vstd::utf8::char_u32_cast(s[i], s[i] as u32);
        assert(!digit(s[i]));
    }
}

proof fn lemma_digits_of_decimal(n: nat)
    ensures
        digits_value(decimal(n)) == n,
    decreases n,
{
    let d = crate::text::digit_char(n % 10);
    assert(0x30 <= (d as u32) <= 0x39);
    if n < 10 {
        reveal_with_fuel(digits_value, 2);
        assert(decimal(n).drop_last() =~= Seq::empty());
    } else {
        lemma_digits_of_decimal(n / 10);
        assert(decimal(n).drop_last() =~= decimal(n / 10));
    }
}

proof fn lemma_leading_zero(s: Seq<char>)
    ensures
        digits_value("0"@ + s) == digits_value(s),
    decreases s.len(),
{
    reveal_strlit("0");
    if s.len() == 0 {
        reveal_with_fuel(digits_value, 2);
        assert(("0"@ + s).drop_last() =~= Seq::empty());
    } else {
        lemma_leading_zero(s.drop_last());
        assert(("0"@ + s).drop_last() =~= "0"@ + s.drop_last());
        assert(("0"@ + s).last() == s.last());
    }
}

/// A question for the median asks for the 50th percentile; else the first word
/// such as `p90` says which; else, where the question has the word percentile, the
/// first number that can be one; else none is asked for.
pub proof fn law_percentile_asked(q: Seq<char>, i: int)
    ensures
        contains_text(q, "median"@) ==> percentile(q) == Some(50nat),
        !contains_text(q, "median"@) ==> {
            let words = split(q, Separator::NotAlnum);
            let numbers = split(q, Separator::NotDigit);
            let unnamed = forall|k: int|
                0 <= k < words.len() ==> percent_word(#[trigger] words[k]) is None;
            &&& 0 <= i < words.len() && percent_word(words[i]) is Some && (forall|k: int|
                0 <= k < i ==> percent_word(#[trigger] words[k]) is None) ==> percentile(q)
                == percent_word(words[i])
            &&& unnamed && contains_text(q, "percentile"@) && 0 <= i < numbers.len()
                && percent_value(numbers[i]) is Some && (forall|k: int|
                0 <= k < i ==> percent_value(#[trigger] numbers[k]) is None) ==> percentile(q)
                == percent_value(numbers[i])
            &&& unnamed && (!contains_text(q, "percentile"@) || forall|k: int|
                0 <= k < numbers.len() ==> percent_value(#[trigger] numbers[k]) is None)
                ==> percentile(q) is None
        },
{
    lemma_first_of(split(q, Separator::NotAlnum), false, i);
    lemma_first_of(split(q, Separator::NotDigit), true, i);
}

spec fn percent_of(word: Seq<char>, bare: bool) -> Option<nat> {
    if bare {
        percent_value(word)
    } else {
        percent_word(word)
    }
}

proof fn lemma_first_of(words: Seq<Seq<char>>, bare: bool, i: int)
    ensures
        0 <= i < words.len() && percent_of(words[i], bare) is Some && (forall|k: int|
            0 <= k < i ==> percent_of(#[trigger] words[k], bare) is None) ==> first_percent(
            words,
            bare,
        ) == percent_of(words[i], bare),
        (forall|k: int| 0 <= k < words.len() ==> percent_of(#[trigger] words[k], bare) is None)
            ==> first_percent(words, bare) is None,
    decreases words.len(),
{
    if words.len() > 0 {
        let before = words.drop_last();
        assert(forall|k: int| 0 <= k < before.len() ==> #[trigger] before[k] == words[k]);
        lemma_first_of(before, bare, i);
    }
}

/// Only percentiles from 1 to 99 are asked for.
pub proof fn law_percentile_range(q: Seq<char>)
    ensures
        percentile(q) is Some ==> 1 <= percentile(q)->0 <= 99,
{
    lemma_percent_range(split(q, Separator::NotAlnum), false);
    lemma_percent_range(split(q, Separator::NotDigit), true);
}

/// A question without `median` and without a word such as `p90`, which has the
/// word percentile and `n` from 1 to 99 as its only number, asks for the `n`th
/// percentile.
pub proof fn law_percentile_number(a: Seq<char>, n: nat, b: Seq<char>)
    requires
        1 <= n <= 99,
        !contains_text(a + decimal(n) + b, "median"@),
        contains_text(a + decimal(n) + b, "percentile"@),
        forall|k: int|
            0 <= k < split(a + decimal(n) + b, Separator::NotAlnum).len() ==> percent_word(
                #[trigger] split(a + decimal(n) + b, Separator::NotAlnum)[k],
            ) is None,
        forall|i: int| 0 <= i < a.len() ==> !('0' <= #[trigger] a[i] <= '9'),
        forall|i: int| 0 <= i < b.len() ==> !('0' <= #[trigger] b[i] <= '9'),
    ensures
        percentile(a + decimal(n) + b) == Some(n),
{
    let q = a + decimal(n) + b;
    let sep = Separator::NotDigit;
    let d = decimal(n);
    law_percent_numbers(n, Seq::empty());
    lemma_decimal_digits(n);
    lemma_only_number(a, d, b);
    let numbers = split(q, sep);
    assert(numbers[a.len() as int] == d);
    law_percentile_asked(q, a.len() as int);
}

proof fn lemma_only_number(a: Seq<char>, d: Seq<char>, b: Seq<char>)
    requires
        forall|i: int| 0 <= i < a.len() ==> !('0' <= #[trigger] a[i] <= '9'),
        forall|i: int| 0 <= i < b.len() ==> !('0' <= #[trigger] b[i] <= '9'),
        forall|i: int| 0 <= i < d.len() ==> digit(#[trigger] d[i]),
    ensures
        split(a + d + b, Separator::NotDigit) == Seq::new(
            a.len() + 1 + b.len(),
            |k: int|
                if k == a.len() {
                    d
                } else {
                    Seq::empty()
                },
        ),
    decreases a.len() + b.len(),
{
    let sep = Separator::NotDigit;
    let want = Seq::new(
        a.len() + 1 + b.len(),
        |k: int|
            if k == a.len() {
                d
            } else {
                Seq::empty()
            },
    );
    let e = Seq::<char>::empty();
    if a.len() > 0 {
        let rest = a.skip(1);
        assert(forall|i: int| 0 <= i < rest.len() ==> #[trigger] rest[i] == a[i + 1]);
        lemma_only_number(rest, d, b);
        law_separators(a[0]);
        law_split(e, a[0], rest + d + b, sep);
        assert(e.push(a[0]) + (rest + d + b) =~= a + d + b);
        assert(split(e, sep) == seq![e]) by {
            law_split(e, a[0], e, sep);
        }
        assert(split(a + d + b, sep) =~= want);
    } else if b.len() > 0 {
        let rest = b.drop_last();
        assert(forall|i: int| 0 <= i < rest.len() ==> #[trigger] rest[i] == b[i]);
        lemma_only_number(a, d, rest);
        law_separators(b.last());
        law_split(a + d + rest, b.last(), e, sep);
        assert((a + d + rest).push(b.last()) + e =~= a + d + b);
        law_split(e, b.last(), e, sep);
        assert(split(a + d + b, sep) =~= want);
    } else {
        assert forall|i: int| 0 <= i < d.len() implies !sep.cuts(#[trigger] d[i]) by {
            assert(digit(d[i]));
        }
        assert(a + d + b =~= d);
        law_split(d, 'a', e, sep);
        assert(split(a + d + b, sep) =~= want);
    }
}

/// The 90th percentile is what `90th percentile` asks for.
pub proof fn law_90th_percentile()
    ensures
        percentile("90th percentile"@) == Some(90nat),
{
    let q = "90th percentile"@;
    assert(q.len() == 15 && q[0] == '9' && q[1] == '0' && q[4] == ' ' && q[5] == 'p') by {
        reveal_strlit("90th percentile");
    }
    assert(!contains_text(q, "median"@)) by {
        reveal_strlit("90th percentile");
        reveal_strlit("median");
        assert forall|i: int| !#[trigger] occurs_at(q, "median"@, i) by {
            law_occurrence(q, "median"@, i);
            assert("median"@[0] == 'm');
        }
    }
    assert(contains_text(q, "percentile"@)) by {
        reveal_strlit("90th percentile");
        reveal_strlit("percentile");
        law_occurrence(q, "percentile"@, 5);
        assert(occurs_at(q, "percentile"@, 5));
    }
    lemma_words_of_90th();
    let b = q.skip(2);
    assert forall|i: int| 0 <= i < b.len() implies !('0' <= #[trigger] b[i] <= '9') by {
        reveal_strlit("90th percentile");
    }
    assert(decimal(90) =~= q.take(2)) by {
        reveal_with_fuel(decimal, 2);
    }
    assert(Seq::<char>::empty() + decimal(90) + b =~= q);
    law_percentile_number(Seq::empty(), 90, b);
}

proof fn lemma_words_of_90th()
    ensures
        ({
            let words = split("90th percentile"@, Separator::NotAlnum);
            forall|k: int| 0 <= k < words.len() ==> percent_word(#[trigger] words[k]) is None
        }),
{
    reveal_strlit("90th percentile");
    let q = "90th percentile"@;
    let sep = Separator::NotAlnum;
    let w0 = q.subrange(0, 4);
    let w1 = q.subrange(5, 15);
    assert forall|i: int| 0 <= i < w0.len() implies !sep.cuts(#[trigger] w0[i]) by {
        law_separators(w0[i]);
    }
    assert forall|i: int| 0 <= i < w1.len() implies !sep.cuts(#[trigger] w1[i]) by {
        law_separators(w1[i]);
    }
    assert(split(w0.push(' ') + w1, sep) == seq![w0, w1]) by {
        law_separators(' ');
        law_split(w0, ' ', w1, sep);
        law_split(w1, ' ', w0, sep);
        assert(seq![w0] + seq![w1] =~= seq![w0, w1]);
    }
    assert(w0.push(' ') + w1 =~= q);
    assert(percent_word(w0) is None);
    assert(percent_word(w1) is None) by {
        assert(w1.skip(1)[0] == 'e');
        assert(!digit(w1.skip(1)[0]));
    }
}

/// The operator of a threshold is what the first of these finds in the question:
/// at least, at most, more, less.
pub proof fn law_threshold_operator(q: Seq<char>)
    ensures
        ({
            let ge = contains_text(q, "at least"@) || contains_text(q, "greater than or equal"@);
            let le = contains_text(q, "at most"@) || contains_text(q, "less than or equal"@);
            let gt = contains_text(q, "greater than"@) || contains_text(q, "more than"@)
                || contains_text(q, "above"@);
            let lt = contains_text(q, "less than"@) || contains_text(q, "below"@) || contains_text(
                q,
                "under"@,
            ) || contains_text(q, "fewer than"@);
            &&& threshold_op(q) == Some(Op::Ge) <==> ge
            &&& threshold_op(q) == Some(Op::Le) <==> !ge && le
            &&& threshold_op(q) == Some(Op::Gt) <==> !ge && !le && gt
            &&& threshold_op(q) == Some(Op::Lt) <==> !ge && !le && !gt && lt
            &&& threshold_op(q) is None <==> !ge && !le && !gt && !lt
        }),
{
}

/// A word is a decimal number if it has a digit and at most one full stop; the
/// first such word is the number of the threshold, and stands for the double that
/// JSON reads from it.
pub proof fn law_threshold_number(q: Seq<char>, i: int)
    ensures
        ({
            let words = split(q, Separator::NotNumeral);
            &&& 0 <= i < words.len() && numeral(words[i]) && (forall|k: int|
                0 <= k < i ==> !numeral(#[trigger] words[k])) && threshold_op(q) is Some
                ==> threshold(q) == Some(
                (threshold_op(q)->0, numeral_double(words[i]).0, numeral_double(words[i]).1),
            )
            &&& threshold(q) is None <==> threshold_op(q) is None || forall|k: int|
                0 <= k < words.len() ==> !numeral(#[trigger] words[k])
        }),
{
    lemma_numeral_at(split(q, Separator::NotNumeral), i);
    let words = split(q, Separator::NotNumeral);
    if first_numeral(words) is None && threshold_op(q) is Some {
        assert forall|k: int| 0 <= k < words.len() implies !numeral(#[trigger] words[k]) by {
            lemma_numeral_found(words, k);
        }
    }
}

proof fn lemma_numeral_at(words: Seq<Seq<char>>, i: int)
    ensures
        0 <= i < words.len() && numeral(words[i]) && (forall|k: int|
            0 <= k < i ==> !numeral(#[trigger] words[k])) ==> first_numeral(words) == Some(
            words[i],
        ),
        (forall|k: int| 0 <= k < words.len() ==> !numeral(#[trigger] words[k])) ==> first_numeral(
            words,
        ) is None,
    decreases words.len(),
{
    if words.len() > 0 {
        let before = words.drop_last();
        assert(forall|k: int| 0 <= k < before.len() ==> #[trigger] before[k] == words[k]);
        lemma_numeral_at(before, i);
    }
}

proof fn lemma_numeral_found(words: Seq<Seq<char>>, k: int)
    requires
        first_numeral(words) is None,
        0 <= k < words.len(),
    ensures
        !numeral(words[k]),
    decreases words.len(),
{
    if k < words.len() - 1 {
        lemma_numeral_found(words.drop_last(), k);
        assert(words.drop_last()[k] == words[k]);
    }
}

/// What a decimal number reads as: whole digits without their leading zeros, and
/// the fraction as it is, if it has any digits. A number that no finite double
/// holds is infinite.
pub proof fn law_decimal_numbers(whole: Seq<char>, part: Seq<char>, n: nat)
    requires
        forall|i: int| 0 <= i < whole.len() ==> #[trigger] whole[i] != '.',
        forall|i: int| 0 <= i < part.len() ==> #[trigger] part[i] != '.',
    ensures
        numeral(whole) <==> whole.len() > 0,
        numeral(whole + "."@ + part) <==> whole.len() + part.len() > 0,
        !numeral(whole + "."@ + part + "."@),
        json_numeral(whole) == without_zeros(whole),
        part.len() == 0 ==> json_numeral(whole + "."@ + part) == without_zeros(whole),
        part.len() > 0 ==> json_numeral(whole + "."@ + part) == without_zeros(whole) + "."@ + part,
        without_zeros("0"@ + whole) == without_zeros(whole),
        without_zeros(Seq::empty()) == "0"@,
        n > 0 ==> without_zeros(decimal(n)) == decimal(n),
        number_double(json_numeral(whole)) is Some ==> numeral_double(whole) == (
            number_double(json_numeral(whole))->0,
            double_text(number_double(json_numeral(whole))->0),
        ),
        number_double(json_numeral(whole)) is None ==> numeral_double(whole) == (
            0x7ff0_0000_0000_0000u64,
            "inf"@,
        ),
{
    reveal_strlit(".");
    reveal_strlit("0");
    let two = whole + "."@ + part;
    lemma_no_dots(whole);
    lemma_no_dots(part);
    lemma_dots_add(whole, "."@);
    lemma_dots_add(whole + "."@, part);
    lemma_dots_add(two, "."@);
    assert(dots("."@) == 1) by {
        reveal_with_fuel(dots, 2);
        assert("."@.drop_last() =~= Seq::empty());
    }
    let sep = Separator::Dot;
    assert forall|i: int| 0 <= i < whole.len() implies !sep.cuts(#[trigger] whole[i]) by {
        law_separators(whole[i]);
    }
    assert forall|i: int| 0 <= i < part.len() implies !sep.cuts(#[trigger] part[i]) by {
        law_separators(part[i]);
    }
    law_separators('.');
    law_split(whole, '.', part, sep);
    law_split(part, '.', part, sep);
    assert(whole.push('.') + part =~= two);
    assert(split(two, sep) =~= seq![whole, part]);
    assert(("0"@ + whole).skip(1) =~= whole);
    assert(("0"@ + whole)[0] == '0');
    if n > 0 {
        crate::numeral::law_decimal_reads_back(n);
    }
}

proof fn lemma_no_dots(s: Seq<char>)
    requires
        forall|i: int| 0 <= i < s.len() ==> #[trigger] s[i] != '.',
    ensures
        dots(s) == 0,
    decreases s.len(),
{
    if s.len() > 0 {
        let before = s.drop_last();
        assert(forall|i: int| 0 <= i < before.len() ==> #[trigger] before[i] == s[i]);
        lemma_no_dots(before);
        assert(s[s.len() - 1] != '.');
    }
}

proof fn lemma_dots_add(a: Seq<char>, b: Seq<char>)
    ensures
        dots(a + b) == dots(a) + dots(b),
    decreases b.len(),
{
    if b.len() == 0 {
        assert(a + b =~= a);
    } else {
        assert((a + b).drop_last() =~= a + b.drop_last());
        assert((a + b).last() == b.last());
        lemma_dots_add(a, b.drop_last());
    }
}

/// The field that a question is about: the first one of the kind, by the first
/// record that is an object, which the question names whatever the case.
pub proof fn law_field_asked_for(
    fields: Seq<(Seq<char>, Tree)>,
    rows: Seq<Tree>,
    q: Seq<char>,
    numeric: bool,
    in_question: bool,
    i: int,
)
    ensures
        0 <= i < fields.len() && (if numeric {
            fields[i].1 is Number
        } else {
            fields[i].1 is Text
        }) && (in_question ==> contains_text(q, ascii_lower(fields[i].0))) && (forall|k: int|
            0 <= k < i ==> !((if numeric {
                (#[trigger] fields[k]).1 is Number
            } else {
                fields[k].1 is Text
            }) && (in_question ==> contains_text(q, ascii_lower(fields[k].0))))) ==> first_field(
            fields,
            q,
            numeric,
            in_question,
        ) == Some(fields[i].0),
        (forall|k: int|
            0 <= k < fields.len() ==> !((if numeric {
                (#[trigger] fields[k]).1 is Number
            } else {
                fields[k].1 is Text
            }) && (in_question ==> contains_text(q, ascii_lower(fields[k].0))))) ==> first_field(
            fields,
            q,
            numeric,
            in_question,
        ) is None,
        0 <= i < rows.len() && rows[i] is Object && (forall|k: int|
            0 <= k < i ==> !(#[trigger] rows[k] is Object)) ==> first_fields(rows) == Some(
            rows[i]->Object_0,
        ),
        (forall|k: int| 0 <= k < rows.len() ==> !(#[trigger] rows[k] is Object)) ==> first_fields(
            rows,
        ) is None,
{
    lemma_field_at(fields, q, numeric, in_question, i);
    lemma_fields_at(rows, i);
}

proof fn lemma_field_at(
    fields: Seq<(Seq<char>, Tree)>,
    q: Seq<char>,
    numeric: bool,
    in_question: bool,
    i: int,
)
    ensures
        0 <= i < fields.len() && of_kind(fields[i].1, numeric) && (in_question ==> names(
            q,
            fields[i].0,
        )) && (forall|k: int|
            0 <= k < i ==> !(of_kind((#[trigger] fields[k]).1, numeric) && (in_question ==> names(
                q,
                fields[k].0,
            )))) ==> first_field(fields, q, numeric, in_question) == Some(fields[i].0),
        (forall|k: int|
            0 <= k < fields.len() ==> !(of_kind((#[trigger] fields[k]).1, numeric) && (in_question
                ==> names(q, fields[k].0)))) ==> first_field(fields, q, numeric, in_question)
            is None,
    decreases fields.len(),
{
    if fields.len() > 0 {
        let rest = fields.skip(1);
        assert(forall|k: int| 0 <= k < rest.len() ==> #[trigger] rest[k] == fields[k + 1]);
        lemma_field_at(rest, q, numeric, in_question, i - 1);
        assert(fields[0] == fields.first());
    }
}

proof fn lemma_fields_at(rows: Seq<Tree>, i: int)
    ensures
        0 <= i < rows.len() && rows[i] is Object && (forall|k: int|
            0 <= k < i ==> !(#[trigger] rows[k] is Object)) ==> first_fields(rows) == Some(
            rows[i]->Object_0,
        ),
        (forall|k: int| 0 <= k < rows.len() ==> !(#[trigger] rows[k] is Object)) ==> first_fields(
            rows,
        ) is None,
    decreases rows.len(),
{
    if rows.len() > 0 {
        let rest = rows.skip(1);
        assert(forall|k: int| 0 <= k < rest.len() ==> #[trigger] rest[k] == rows[k + 1]);
        lemma_fields_at(rest, i - 1);
        assert(rows[0] == rows.first());
    }
}

/// A word with two full stops is no number; a number's double and text are those
/// of what it reads as in JSON.
pub proof fn law_number_words(x: Seq<char>, y: Seq<char>, z: Seq<char>)
    ensures
        !numeral(x + "."@ + y + "."@ + z),
        numeral_double(x) == (match number_double(json_numeral(x)) {
            Some(bits) => (bits, double_text(bits)),
            None => (0x7ff0_0000_0000_0000u64, "inf"@),
        }),
{
    reveal_strlit(".");
    lemma_dots_add(x, "."@);
    lemma_dots_add(x + "."@, y);
    lemma_dots_add(x + "."@ + y, "."@);
    lemma_dots_add(x + "."@ + y + "."@, z);
    assert(dots("."@) == 1) by {
        reveal_with_fuel(dots, 2);
        assert("."@.drop_last() =~= Seq::empty());
    }
}

} // verus!
