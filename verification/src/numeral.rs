//! Reading unsigned decimal numbers, and writing them in a column.
use crate::text::{chars_of, decimal, decimal_of, digit, is_digit};
use vstd::prelude::*;

verus! {

/// The value of an ASCII digit.
pub open spec fn digit_value(c: char) -> nat {
    (c as u32 - 0x30) as nat
}

/// The value of a row of ASCII digits; nothing for any other text.
pub open spec fn digits_value(s: Seq<char>) -> Option<nat>
    decreases s.len(),
{
    if s.len() == 0 {
        Some(0)
    } else if !digit(s.last()) {
        None
    } else {
        match digits_value(s.drop_last()) {
            Some(v) => Some(v * 10 + digit_value(s.last())),
            None => None,
        }
    }
}

/// The value of a decimal number: one or more digits, behind a plus sign or
/// not.
pub open spec fn numeral(s: Seq<char>) -> Option<nat> {
    let digits = if s.len() > 0 && s[0] == '+' {
        s.skip(1)
    } else {
        s
    };
    if digits.len() == 0 {
        None
    } else {
        digits_value(digits)
    }
}

/// The value of a decimal number that is not above `max`.
pub open spec fn numeral_within(s: Seq<char>, max: nat) -> Option<nat> {
    match numeral(s) {
        Some(v) => if v <= max {
            Some(v)
        } else {
            None
        },
        None => None,
    }
}

proof fn lemma_digits_none(s: Seq<char>, n: int)
    requires
        0 <= n <= s.len(),
        digits_value(s.take(n)) is None,
    ensures
        digits_value(s) is None,
    decreases s.len(),
{
    if n < s.len() {
        assert(s.drop_last().take(n) =~= s.take(n));
        lemma_digits_none(s.drop_last(), n);
    } else {
        assert(s.take(n) =~= s);
    }
}

proof fn lemma_digits_grow(s: Seq<char>, n: int)
    requires
        0 <= n <= s.len(),
        digits_value(s.take(n)) is Some,
    ensures
        match digits_value(s) {
            Some(v) => v >= digits_value(s.take(n))->0,
            None => true,
        },
    decreases s.len(),
{
    if n < s.len() {
        assert(s.drop_last().take(n) =~= s.take(n));
        lemma_digits_grow(s.drop_last(), n);
    } else {
        assert(s.take(n) =~= s);
    }
}

/// The value of a decimal number that fits in 64 bits.
pub fn parse_u64(s: &[char]) -> (out: Option<u64>)
    ensures
        match out {
            Some(v) => numeral_within(s@, u64::MAX as nat) == Some(v as nat),
            None => numeral_within(s@, u64::MAX as nat) is None,
        },
{
    let from: usize = if s.len() > 0 && s[0] == '+' {
        1
    } else {
        0
    };
    if from == s.len() {
        return None;
    }
    let ghost digits = s@.skip(from as int);
    let mut v: u64 = 0;
    let mut i: usize = from;
    assert(from == 0 ==> digits =~= s@);
    while i < s.len()
        invariant
            from <= i <= s@.len(),
            from < s@.len(),
            digits == s@.skip(from as int),
            numeral(s@) == digits_value(digits),
            digits_value(digits.take(i - from)) == Some(v as nat),
        decreases s@.len() - i,
    {
        let ghost next = digits.take(i - from + 1);
        assert(next.drop_last() =~= digits.take(i - from));
        assert(next.last() == s@[i as int]);
        if !is_digit(s[i]) {
            proof {
                lemma_digits_none(digits, i - from + 1);
            }
            return None;
        }
        let d: u64 = (s[i] as u32 - 0x30) as u64;
        let ghost more = v * 10 + d;
        assert(digits_value(next) == Some(more as nat));
        proof {
            lemma_digits_grow(digits, i - from + 1);
        }
        if v > 0x1999_9999_9999_9999 || v * 10 > 0xffff_ffff_ffff_ffff - d {
            return None;
        }
        v = v * 10 + d;
        i += 1;
    }
    assert(digits.take(i - from) =~= digits);
    Some(v)
}

/// The value of a decimal number that fits in a `usize`.
pub fn parse_usize(s: &[char]) -> (out: Option<usize>)
    ensures
        match out {
            Some(v) => numeral_within(s@, usize::MAX as nat) == Some(v as nat),
            None => numeral_within(s@, usize::MAX as nat) is None,
        },
{
    match parse_u64(s) {
        Some(v) => if v <= usize::MAX as u64 {
            Some(v as usize)
        } else {
            None
        },
        None => None,
    }
}

/// `n` spaces.
pub open spec fn spaces(n: nat) -> Seq<char> {
    Seq::new(n, |i: int| ' ')
}

/// A text at the right end of a column of the given width.
pub open spec fn right_aligned(s: Seq<char>, width: nat) -> Seq<char> {
    if s.len() < width {
        spaces((width - s.len()) as nat) + s
    } else {
        s
    }
}

/// A number at the right end of a column of the given width.
pub fn column_of(n: usize, width: usize) -> (out: String)
    ensures
        out@ == right_aligned(decimal(n as nat), width as nat),
{
    let text = decimal_of(n);
    let len: usize = chars_of(text.as_str()).len();
    let mut out = String::new();
    let mut i: usize = len;
    assert(out@ =~= spaces(0));
    if len >= width {
        return text;
    }
    while i < width
        invariant
            len <= i <= width,
            out@ == spaces((i - len) as nat),
        decreases width - i,
    {
        out.push(' ');
        i += 1;
        assert(out@ =~= spaces((i - len) as nat));
    }
    out.concat(text.as_str())
}

/// A number is read back from its decimal digits, of which the first is no zero
/// unless the number is zero.
pub proof fn law_decimal_reads_back(n: nat)
    ensures
        numeral(decimal(n)) == Some(n),
        decimal(n).len() > 0,
        n > 0 ==> decimal(n)[0] != '0',
        n == 0 ==> decimal(n) == "0"@,
        forall|i: int| 0 <= i < decimal(n).len() ==> '0' <= #[trigger] decimal(n)[i] <= '9',
{
    lemma_decimal_value(n);
    if n == 0 {
        reveal_strlit("0");
        assert(decimal(n) =~= "0"@);
    }
    crate::text::lemma_decimal_digits(n);
    assert forall|i: int| 0 <= i < decimal(n).len() implies '0' <= #[trigger] decimal(n)[i]
        <= '9' by {
        assert(digit(decimal(n)[i]));
        vstd::utf8::char_u32_cast(decimal(n)[i], decimal(n)[i] as u32);
    }
}

proof fn lemma_decimal_value(n: nat)
    ensures
        digits_value(decimal(n)) == Some(n),
        n > 0 ==> decimal(n)[0] != '0',
        decimal(n)[0] != '+',
        decimal(n).len() > 0,
    decreases n,
{
    let d = crate::text::digit_char(n % 10);
    assert(0x30 <= (d as u32) <= 0x39);
    if n < 10 {
        reveal_with_fuel(digits_value, 2);
        assert(decimal(n).drop_last() =~= Seq::empty());
    } else {
        lemma_decimal_value(n / 10);
        assert(decimal(n).drop_last() =~= decimal(n / 10));
        assert(decimal(n)[0] == decimal(n / 10)[0]);
    }
}

/// The digits of a number are read from the left, each worth ten times the next;
/// whatever is not a digit makes it none.
pub proof fn law_numeral_value(s: Seq<char>, c: char)
    ensures
        '0' <= c <= '9' ==> digits_value(s.push(c)) == (match digits_value(s) {
            Some(v) => Some((10 * v + (c as u32 - 0x30)) as nat),
            None => None,
        }),
        !('0' <= c <= '9') ==> digits_value(s.push(c)) is None,
        digits_value(Seq::empty()) == Some(0nat),
        numeral(Seq::empty()) is None,
        numeral("+"@ + s) == (if s.len() == 0 {
            None
        } else {
            digits_value(s)
        }),
{
    assert(s.push(c).drop_last() =~= s);
    reveal_strlit("+");
    assert(("+"@ + s).skip(1) =~= s);
}

/// A numeral is set against the right edge of its column, and is longer than the
/// column only if it has to be; a number within a bound is the numeral's own.
pub proof fn law_columns(s: Seq<char>, width: nat, max: nat)
    ensures
        s.is_suffix_of(right_aligned(s, width)),
        right_aligned(s, width).len() == (if s.len() < width {
            width
        } else {
            s.len()
        }),
        forall|i: int|
            0 <= i < right_aligned(s, width).len() - s.len() ==> #[trigger] right_aligned(
                s,
                width,
            )[i] == ' ',
        numeral_within(s, max) is Some <==> numeral(s) is Some && numeral(s)->0 <= max,
        numeral_within(s, max) is Some ==> numeral_within(s, max) == numeral(s),
{
    let out = right_aligned(s, width);
    assert(s =~= out.subrange(out.len() - s.len(), out.len() as int));
}

} // verus!
