//! Comparing a field of a record with a value.
use crate::json::{rank, same_tree, Json, Tree};
use crate::text::{chars_lt, chars_of, law_text_order, parts_at, same_chars, text_lt};
use vstd::prelude::*;

verus! {

/// A comparison operator.
#[derive(Clone, Copy, Debug, PartialEq, Eq, Structural)]
pub enum Op {
    /// Equal.
    Eq,
    /// Not equal.
    Ne,
    /// Greater than.
    Gt,
    /// Greater than or equal.
    Ge,
    /// Less than.
    Lt,
    /// Less than or equal.
    Le,
}

/// `a op b` for integers.
pub open spec fn ints_pass(a: int, op: Op, b: int) -> bool {
    match op {
        Op::Eq => a == b,
        Op::Ne => a != b,
        Op::Gt => a > b,
        Op::Ge => a >= b,
        Op::Lt => a < b,
        Op::Le => a <= b,
    }
}

/// `a op b` for texts, in lexicographic order.
pub open spec fn texts_pass(a: Seq<char>, op: Op, b: Seq<char>) -> bool {
    match op {
        Op::Eq => a == b,
        Op::Ne => a != b,
        Op::Gt => text_lt(b, a),
        Op::Ge => !text_lt(a, b),
        Op::Lt => text_lt(a, b),
        Op::Le => !text_lt(b, a),
    }
}

/// `value op target`: two numbers that are finite doubles compare as numbers,
/// two strings compare as texts, and anything else is only equal or not.
pub open spec fn passes(value: Tree, op: Op, target: Tree) -> bool {
    if value.double() is Some && target.double() is Some {
        ints_pass(rank(value.double()->0), op, rank(target.double()->0))
    } else if value is Text && target is Text {
        texts_pass(value->Text_0, op, target->Text_0)
    } else {
        match op {
            Op::Eq => same_tree(value, target),
            Op::Ne => !same_tree(value, target),
            _ => false,
        }
    }
}

/// The order of a finite double among finite doubles.
pub fn rank_of(bits: u64) -> (r: i64)
    ensures
        r == rank(bits),
{
    if bits < 0x8000_0000_0000_0000 {
        bits as i64
    } else {
        -((bits - 0x8000_0000_0000_0000) as i64)
    }
}

/// `a op b` for two doubles given by their bits.
pub fn doubles_pass(a: u64, op: Op, b: u64) -> (r: bool)
    ensures
        r == ints_pass(rank(a), op, rank(b)),
{
    let x = rank_of(a);
    let y = rank_of(b);
    match op {
        Op::Eq => x == y,
        Op::Ne => x != y,
        Op::Gt => x > y,
        Op::Ge => x >= y,
        Op::Lt => x < y,
        Op::Le => x <= y,
    }
}

/// `a op b` for two texts.
pub fn strings_pass(a: &str, op: Op, b: &str) -> (r: bool)
    ensures
        r == texts_pass(a@, op, b@),
{
    let x = chars_of(a);
    let y = chars_of(b);
    match op {
        Op::Eq => same_chars(&x, &y),
        Op::Ne => !same_chars(&x, &y),
        Op::Gt => chars_lt(&y, &x),
        Op::Ge => !chars_lt(&x, &y),
        Op::Lt => chars_lt(&x, &y),
        Op::Le => !chars_lt(&y, &x),
    }
}

/// Whether `value op target`.
pub fn value_passes(value: &Json, op: Op, target: &Json) -> (r: bool)
    ensures
        r == passes(value@, op, target@),
{
    if let Some(a) = value.double() {
        if let Some(b) = target.double() {
            return doubles_pass(a, op, b);
        }
    }
    if let Some(a) = value.as_str() {
        if let Some(b) = target.as_str() {
            return strings_pass(a, op, b);
        }
    }
    match op {
        Op::Eq => value.same(target),
        Op::Ne => !value.same(target),
        _ => false,
    }
}

/// Each operator says the opposite of another one, of two numbers and of two
/// texts.
pub proof fn law_operators_are_opposites(a: int, b: int, s: Seq<char>, t: Seq<char>)
    ensures
        ints_pass(a, Op::Eq, b) == !ints_pass(a, Op::Ne, b),
        ints_pass(a, Op::Gt, b) == !ints_pass(a, Op::Le, b),
        ints_pass(a, Op::Lt, b) == !ints_pass(a, Op::Ge, b),
        texts_pass(s, Op::Eq, t) == !texts_pass(s, Op::Ne, t),
        texts_pass(s, Op::Gt, t) == !texts_pass(s, Op::Le, t),
        texts_pass(s, Op::Lt, t) == !texts_pass(s, Op::Ge, t),
        texts_pass(s, Op::Le, t) == (texts_pass(s, Op::Lt, t) || texts_pass(s, Op::Eq, t)),
{
    crate::text::lemma_text_lt_total(s, t);
}

/// What a comparison means: of two numbers that are doubles the order of the
/// doubles, of two strings the order of their characters, and of anything else
/// nothing but whether the values are the same.
pub proof fn law_comparisons(value: Tree, op: Op, target: Tree)
    ensures
        value.double() is Some && target.double() is Some ==> passes(value, op, target) == ({
            let a = rank(value.double()->0);
            let b = rank(target.double()->0);
            match op {
                Op::Eq => a == b,
                Op::Ne => a != b,
                Op::Gt => b < a,
                Op::Ge => b <= a,
                Op::Lt => a < b,
                Op::Le => a <= b,
            }
        }),
        value is Text && target is Text ==> passes(value, op, target) == ({
            let a = value->Text_0;
            let b = target->Text_0;
            match op {
                Op::Eq => a == b,
                Op::Ne => a != b,
                Op::Gt => exists|k: int| #[trigger] parts_at(b, a, k),
                Op::Ge => a == b || exists|k: int| #[trigger] parts_at(b, a, k),
                Op::Lt => exists|k: int| #[trigger] parts_at(a, b, k),
                Op::Le => a == b || exists|k: int| #[trigger] parts_at(a, b, k),
            }
        }),
        !(value is Text && target is Text) && !(value.double() is Some && target.double() is Some)
            ==> passes(value, op, target) == (match op {
            Op::Eq => same_tree(value, target),
            Op::Ne => !same_tree(value, target),
            _ => false,
        }),
{
    if value is Text && target is Text {
        law_text_order(value->Text_0, target->Text_0);
        law_text_order(target->Text_0, value->Text_0);
        crate::text::lemma_text_lt_total(value->Text_0, target->Text_0);
    }
}

} // verus!
