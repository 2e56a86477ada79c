//! One field over all records.
use crate::describe::{all_doubles, value_views};
use crate::json::{trees, Json, Tree};
use crate::text::{same_text, texts};
use vstd::prelude::*;

verus! {

/// The values of a field, over the records that have it, in order.
pub open spec fn column(rows: Seq<Tree>, field: Seq<char>) -> Seq<Tree>
    decreases rows.len(),
{
    if rows.len() == 0 {
        Seq::empty()
    } else {
        match rows.last().get(field) {
            Some(v) => column(rows.drop_last(), field).push(v),
            None => column(rows.drop_last(), field),
        }
    }
}

/// Some record has the field, and it is a finite double in all that have it.
pub open spec fn clean_numeric(rows: Seq<Tree>, field: Seq<char>) -> bool {
    column(rows, field).len() > 0 && all_doubles(column(rows, field))
}

/// The texts of a field, over the records in which it is a string, in order.
pub open spec fn text_column(rows: Seq<Tree>, field: Seq<char>) -> Seq<Seq<char>>
    decreases rows.len(),
{
    if rows.len() == 0 {
        Seq::empty()
    } else {
        match rows.last().get(field) {
            Some(Tree::Text(s)) => text_column(rows.drop_last(), field).push(s),
            _ => text_column(rows.drop_last(), field),
        }
    }
}

/// The distinct texts, in the order in which they are first seen.
pub open spec fn distinct(list: Seq<Seq<char>>) -> Seq<Seq<char>>
    decreases list.len(),
{
    if list.len() == 0 {
        Seq::empty()
    } else {
        let before = distinct(list.drop_last());
        if before.contains(list.last()) {
            before
        } else {
            before.push(list.last())
        }
    }
}

/// How many times a text occurs.
pub open spec fn occurrences(list: Seq<Seq<char>>, s: Seq<char>) -> nat
    decreases list.len(),
{
    if list.len() == 0 {
        0
    } else {
        occurrences(list.drop_last(), s) + if list.last() == s {
            1nat
        } else {
            0
        }
    }
}

/// The distinct texts are the texts of the list, each once.
pub proof fn law_distinct(list: Seq<Seq<char>>)
    ensures
        distinct(list).no_duplicates(),
        forall|s: Seq<char>| #[trigger] distinct(list).contains(s) <==> list.contains(s),
    decreases list.len(),
{
    if list.len() > 0 {
        let before = list.drop_last();
        let last = list.last();
        law_distinct(before);
        let d = distinct(before);
        assert(list[list.len() - 1] == last);
        assert forall|s: Seq<char>| #[trigger] distinct(list).contains(s) <==> list.contains(s) by {
            if list.contains(s) {
                let k = choose|k: int| 0 <= k < list.len() && list[k] == s;
                if k < before.len() {
                    assert(before[k] == s);
                    assert(before.contains(s));
                    assert(d.contains(s));
                    let p = choose|p: int| 0 <= p < d.len() && d[p] == s;
                    assert(distinct(list)[p] == s);
                } else {
                    if !d.contains(last) {
                        assert(distinct(list)[d.len() as int] == last);
                    }
                }
            }
            if distinct(list).contains(s) {
                let p = choose|p: int| 0 <= p < distinct(list).len() && distinct(list)[p] == s;
                if p < d.len() {
                    assert(d[p] == s);
                    assert(d.contains(s));
                    assert(before.contains(s));
                    let k = choose|k: int| 0 <= k < before.len() && before[k] == s;
                    assert(list[k] == s);
                }
            }
        }
        assert(distinct(list).no_duplicates()) by {
            let out = distinct(list);
            assert forall|a: int, b: int| 0 <= a < out.len() && 0 <= b < out.len() && a != b implies
                out[a] != out[b] by {
                if !d.contains(last) {
                    if a < d.len() && b < d.len() {
                        assert(d[a] != d[b]);
                    } else if a < d.len() {
                        assert(d.contains(d[a]));
                    } else if b < d.len() {
                        assert(d.contains(d[b]));
                    }
                } else {
                    assert(d[a] != d[b]);
                }
            }
        }
    }
}

/// The values of a field.
pub fn column_of<'a>(rows: &'a [Json], field: &str) -> (out: Vec<&'a Json>)
    ensures
        value_views(out@) == column(trees(rows@), field@),
{
    let ghost ts = trees(rows@);
    let mut out: Vec<&'a Json> = Vec::new();
    let mut i: usize = 0;
    assert(value_views(out@) =~= Seq::empty());
    while i < rows.len()
        invariant
            i <= rows@.len(),
            ts == trees(rows@),
            value_views(out@) == column(ts.take(i as int), field@),
        decreases rows@.len() - i,
    {
        let ghost next = ts.take(i as int + 1);
        assert(next.drop_last() =~= ts.take(i as int));
        assert(next.last() == rows@[i as int]@);
        match rows[i].get(field) {
            Some(value) => {
                let ghost before = value_views(out@);
                out.push(value);
                assert(value_views(out@) =~= before.push(value@));
            },
            None => {},
        }
        i += 1;
    }
    assert(ts.take(i as int) =~= ts);
    out
}

/// Whether the field is clean.
pub fn field_is_clean_numeric(rows: &[Json], field: &str) -> (r: bool)
    ensures
        r == clean_numeric(trees(rows@), field@),
{
    let values = column_of(rows, field);
    let ghost vs = value_views(values@);
    let mut i: usize = 0;
    while i < values.len()
        invariant
            i <= values@.len(),
            vs == value_views(values@),
            vs == column(trees(rows@), field@),
            forall|k: int| 0 <= k < i ==> (#[trigger] vs[k]).double() is Some,
        decreases values@.len() - i,
    {
        assert(vs[i as int] == values@[i as int]@);
        if values[i].double().is_none() {
            return false;
        }
        i += 1;
    }
    values.len() > 0
}

/// The texts of a field.
pub fn text_column_of(rows: &[Json], field: &str) -> (out: Vec<String>)
    ensures
        texts(out@) == text_column(trees(rows@), field@),
{
    let ghost ts = trees(rows@);
    let mut out: Vec<String> = Vec::new();
    let mut i: usize = 0;
    assert(texts(out@) =~= Seq::empty());
    while i < rows.len()
        invariant
            i <= rows@.len(),
            ts == trees(rows@),
            texts(out@) == text_column(ts.take(i as int), field@),
        decreases rows@.len() - i,
    {
        let ghost next = ts.take(i as int + 1);
        assert(next.drop_last() =~= ts.take(i as int));
        assert(next.last() == rows@[i as int]@);
        match rows[i].get(field) {
            Some(Json::Text(s)) => {
                let ghost before = texts(out@);
                out.push(s.clone());
                assert(texts(out@) =~= before.push(s@));
            },
            _ => {},
        }
        i += 1;
    }
    assert(ts.take(i as int) =~= ts);
    out
}

/// Whether `s` is in the list.
pub fn in_list(list: &[String], s: &str) -> (r: bool)
    ensures
        r == texts(list@).contains(s@),
{
    let mut i: usize = 0;
    while i < list.len()
        invariant
            i <= list@.len(),
            forall|k: int| 0 <= k < i ==> (#[trigger] list@[k])@ != s@,
        decreases list@.len() - i,
    {
        if same_text(list[i].as_str(), s) {
            assert(texts(list@)[i as int] == s@);
            return true;
        }
        i += 1;
    }
    assert(!texts(list@).contains(s@)) by {
        if texts(list@).contains(s@) {
            let k = choose|k: int| 0 <= k < list@.len() && texts(list@)[k] == s@;
            assert(list@[k]@ == s@);
        }
    }
    false
}

/// The distinct texts of the list.
pub fn distinct_of(list: &[String]) -> (out: Vec<String>)
    ensures
        texts(out@) == distinct(texts(list@)),
        out@.len() <= list@.len(),
{
    let ghost all = texts(list@);
    let mut out: Vec<String> = Vec::new();
    let mut i: usize = 0;
    assert(texts(out@) =~= Seq::empty());
    while i < list.len()
        invariant
            i <= list@.len(),
            all == texts(list@),
            out@.len() <= i,
            texts(out@) == distinct(all.take(i as int)),
        decreases list@.len() - i,
    {
        assert(all.take(i as int + 1).drop_last() =~= all.take(i as int));
        if !in_list(out.as_slice(), list[i].as_str()) {
            let ghost before = texts(out@);
            out.push(list[i].clone());
            assert(texts(out@) =~= before.push(all[i as int]));
        }
        i += 1;
    }
    assert(all.take(i as int) =~= all);
    out
}

/// How many times `s` occurs in the list.
pub fn occurrences_of(list: &[String], s: &str) -> (n: usize)
    ensures
        n == occurrences(texts(list@), s@),
{
    let ghost all = texts(list@);
    let mut n: usize = 0;
    let mut i: usize = 0;
    while i < list.len()
        invariant
            i <= list@.len(),
            all == texts(list@),
            n <= i,
            n == occurrences(all.take(i as int), s@),
        decreases list@.len() - i,
    {
        assert(all.take(i as int + 1).drop_last() =~= all.take(i as int));
        if same_text(list[i].as_str(), s) {
            n += 1;
        }
        i += 1;
    }
    assert(all.take(i as int) =~= all);
    n
}

/// A column has the values of all records that have the field, in order, and no
/// others.
pub proof fn law_column(rows: Seq<Tree>, field: Seq<char>)
    ensures
        column(rows, field) == rows.filter(|t: Tree| t.get(field) is Some).map_values(
            |t: Tree| t.get(field)->0,
        ),
        text_column(rows, field) == rows.filter(
            |t: Tree| t.get(field) is Some && t.get(field)->0 is Text,
        ).map_values(|t: Tree| t.get(field)->0->Text_0),
    decreases rows.len(),
{
    reveal(Seq::filter);
    let has = |t: Tree| t.get(field) is Some;
    let has_text = |t: Tree| t.get(field) is Some && t.get(field)->0 is Text;
    if rows.len() > 0 {
        law_column(rows.drop_last(), field);
    }
    assert(column(rows, field) =~= rows.filter(has).map_values(|t: Tree| t.get(field)->0));
    assert(text_column(rows, field) =~= rows.filter(has_text).map_values(
        |t: Tree| t.get(field)->0->Text_0,
    ));
}

/// A field is clean exactly if some record has it and each that has it has a
/// finite double there.
pub proof fn law_clean_field(rows: Seq<Tree>, field: Seq<char>)
    ensures
        clean_numeric(rows, field) <==> (exists|i: int|
            0 <= i < rows.len() && (#[trigger] rows[i]).get(field) is Some) && (forall|i: int|
            0 <= i < rows.len() && (#[trigger] rows[i]).get(field) is Some ==> rows[i].get(
                field,
            )->0.double() is Some),
{
    let col = column(rows, field);
    lemma_column_members(rows, field);
    if clean_numeric(rows, field) {
        let i = choose|i: int|
            0 <= i < rows.len() && (#[trigger] rows[i]).get(field) == Some(col[0]);
        assert(rows[i].get(field) is Some);
        assert forall|i: int| 0 <= i < rows.len() && (#[trigger] rows[i]).get(
            field,
        ) is Some implies rows[i].get(field)->0.double() is Some by {
            let k = choose|k: int| 0 <= k < col.len() && col[k] == rows[i].get(field)->0;
            assert(col[k].double() is Some);
        }
    }
    if (exists|i: int| 0 <= i < rows.len() && (#[trigger] rows[i]).get(field) is Some) && (forall|
        i: int,
    |
        0 <= i < rows.len() && (#[trigger] rows[i]).get(field) is Some ==> rows[i].get(
            field,
        )->0.double() is Some) {
        let i = choose|i: int| 0 <= i < rows.len() && (#[trigger] rows[i]).get(field) is Some;
        assert(col.contains(rows[i].get(field)->0));
        assert forall|k: int| 0 <= k < col.len() implies (#[trigger] col[k]).double() is Some by {
            let j = choose|j: int|
                0 <= j < rows.len() && (#[trigger] rows[j]).get(field) == Some(col[k]);
            assert(rows[j].get(field) is Some);
        }
    }
}

proof fn lemma_column_members(rows: Seq<Tree>, field: Seq<char>)
    ensures
        forall|i: int|
            0 <= i < rows.len() && (#[trigger] rows[i]).get(field) is Some ==> column(
                rows,
                field,
            ).contains(rows[i].get(field)->0),
        forall|k: int|
            0 <= k < column(rows, field).len() ==> exists|i: int|
                0 <= i < rows.len() && (#[trigger] rows[i]).get(field) == Some(
                    #[trigger] column(rows, field)[k],
                ),
    decreases rows.len(),
{
    if rows.len() > 0 {
        let before = rows.drop_last();
        let some = column(before, field);
        let all = column(rows, field);
        lemma_column_members(before, field);
        assert(forall|i: int| 0 <= i < before.len() ==> #[trigger] before[i] == rows[i]);
        assert forall|i: int| 0 <= i < rows.len() && (#[trigger] rows[i]).get(
            field,
        ) is Some implies all.contains(rows[i].get(field)->0) by {
            if i < before.len() {
                assert(before[i] == rows[i]);
                let k = choose|k: int| 0 <= k < some.len() && some[k] == rows[i].get(field)->0;
                assert(all[k] == some[k]);
            } else {
                assert(all[all.len() - 1] == rows[i].get(field)->0);
            }
        }
        assert forall|k: int| 0 <= k < all.len() implies exists|i: int|
            0 <= i < rows.len() && (#[trigger] rows[i]).get(field) == Some(#[trigger] all[k]) by {
            if k < some.len() {
                let i = choose|i: int|
                    0 <= i < before.len() && (#[trigger] before[i]).get(field) == Some(some[k]);
                assert(rows[i].get(field) == Some(all[k]));
            } else {
                assert(rows[rows.len() - 1].get(field) == Some(all[k]));
            }
        }
    }
}

/// How often a text occurs, and which texts are distinct: each at its first
/// place.
pub proof fn law_occurrences(list: Seq<Seq<char>>, s: Seq<char>)
    ensures
        occurrences(list, s) == list.filter(|x: Seq<char>| x == s).len(),
        distinct(list).len() == list.to_set().len(),
        distinct(list.push(s)) == (if list.contains(s) {
            distinct(list)
        } else {
            distinct(list).push(s)
        }),
    decreases list.len(),
{
    reveal(Seq::filter);
    law_distinct(list);
    distinct(list).unique_seq_to_set();
    assert(distinct(list).to_set() =~= list.to_set()) by {
        assert forall|x: Seq<char>| #[trigger]
            distinct(list).to_set().contains(x) <==> list.to_set().contains(x) by {
            assert(distinct(list).contains(x) <==> list.contains(x));
        }
    }
    assert(list.push(s).drop_last() =~= list);
    if list.len() > 0 {
        law_occurrences(list.drop_last(), s);
    }
}

} // verus!
