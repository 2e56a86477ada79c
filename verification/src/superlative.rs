//! The record with the largest or smallest value of a field.
use crate::budget::marked;
use crate::column::{clean_numeric, column, column_of, field_is_clean_numeric, law_clean_field};
use crate::describe::{
    all_doubles, greatest_value, law_present_and_bounds, least_value, value_views,
};
use crate::intent::{first_field, first_field_of, first_fields, first_fields_of};
use crate::json::{rank, trees, Json, Tree};
use crate::op::rank_of;
use crate::query::{lemma_marked_below, parse_rows, rows_of};
use crate::text::{
    ascii_lower, ascii_lower_of, chars_of, contains_text, decimal, decimal_of, has_any,
    has_any_str, join, join_of, replace_of, replaced, texts,
};
use vstd::prelude::*;

verus! {

/// Words that ask for the most.
pub open spec fn most_words() -> Seq<&'static str> {
    seq!["largest", "highest", "max", "most", "greatest", "biggest"]
}

/// Words that ask for the least.
pub open spec fn least_words() -> Seq<&'static str> {
    seq!["smallest", "lowest", "min", "least", "fewest"]
}

/// The question without the phrases that compare with a threshold.
pub open spec fn without_thresholds(q: Seq<char>) -> Seq<char> {
    replaced(replaced(q, "at least"@, "  "@), "at most"@, "  "@)
}

/// The question asks for the most (true) or for the least (false) of something,
/// and not for both.
pub open spec fn direction(q: Seq<char>) -> Option<bool> {
    let qs = without_thresholds(q);
    let most = has_any(qs, most_words());
    let least = has_any(qs, least_words());
    if most == least {
        None
    } else {
        Some(most)
    }
}

/// The numeric field that the question names, or else the first one.
pub open spec fn wanted_field(fields: Seq<(Seq<char>, Tree)>, q: Seq<char>) -> Option<Seq<char>> {
    match first_field(fields, q, true, true) {
        Some(name) => Some(name),
        None => first_field(fields, q, true, false),
    }
}

/// The value at the extreme.
pub open spec fn extreme_value(rows: Seq<Tree>, field: Seq<char>, most: bool) -> Tree {
    if most {
        greatest_value(column(rows, field))
    } else {
        least_value(column(rows, field))
    }
}

/// The record has the extreme value.
pub open spec fn at_extreme(row: Tree, field: Seq<char>, extreme: Tree) -> bool {
    match row.get(field) {
        Some(v) => v.double() is Some && rank(v.double()->0) == rank(extreme.double()->0),
        None => false,
    }
}

/// For each record whether it has the extreme value.
pub open spec fn winner_mask(rows: Seq<Tree>, field: Seq<char>, most: bool) -> Seq<bool> {
    Seq::new(
        rows.len(),
        |i: int| at_extreme(rows[i], field, extreme_value(rows, field, most)),
    )
}

/// The numbers of the records that have the extreme value.
pub open spec fn winners(rows: Seq<Tree>, field: Seq<char>, most: bool) -> Seq<usize> {
    marked(winner_mask(rows, field, most))
}

/// What identifies a record: the text of its id field, or a question mark.
pub open spec fn id_text(row: Tree, id: Seq<char>) -> Seq<char> {
    match row.get(id) {
        Some(Tree::Text(s)) => s,
        _ => "?"@,
    }
}

/// At most six names in quotes, and how many more there are.
pub open spec fn name_list(names: Seq<Seq<char>>) -> Seq<char> {
    let n = if names.len() > 6 {
        6nat
    } else {
        names.len()
    };
    let shown = join(Seq::new(n, |i: int| "\""@ + names[i] + "\""@), ", "@);
    if names.len() > 6 {
        shown + ", +"@ + decimal((names.len() - 6) as nat) + " more"@
    } else {
        shown
    }
}

/// The word for the direction.
pub open spec fn direction_word(most: bool) -> Seq<char> {
    if most {
        "max"@
    } else {
        "min"@
    }
}

/// The answer in one line.
pub open spec fn superlative_text(
    n: nat,
    field: Seq<char>,
    most: bool,
    value: Seq<char>,
    id: Option<Seq<char>>,
    names: Seq<Seq<char>>,
) -> Seq<char> {
    let dir = direction_word(most);
    match id {
        None => "[index] "@ + dir + "("@ + field + ") over "@ + decimal(n) + " records = "@ + value,
        Some(idf) => if names.len() == 1 {
            "[index] "@ + dir + "("@ + field + ") over "@ + decimal(n) + " records: "@ + idf
                + "=\""@ + names[0] + "\" ("@ + field + "="@ + value + ")"@
        } else {
            "[index] "@ + dir + "("@ + field + ")="@ + value + " over "@ + decimal(n)
                + " records — "@ + decimal(names.len()) + "-way TIE on "@ + idf + ": "@ + name_list(
                names,
            ) + " (no unique "@ + dir + ")"@
        },
    }
}

/// The answer to a question for the most or the least, with the numbers of the
/// records behind it. There is none where the question asks for neither or for
/// both, where there is no numeric field, or where the field is not clean.
pub open spec fn superlative(rows: Seq<Tree>, q: Seq<char>) -> Option<(Seq<char>, Seq<usize>)> {
    if direction(q) is None || rows.len() == 0 || first_fields(rows) is None {
        None
    } else {
        let most = direction(q)->0;
        let fields = first_fields(rows)->0;
        match wanted_field(fields, q) {
            None => None,
            Some(field) => if !clean_numeric(rows, field) {
                None
            } else {
                let id = first_field(fields, q, false, false);
                let at = winners(rows, field, most);
                let names = match id {
                    Some(idf) => Seq::new(at.len(), |k: int| id_text(rows[at[k] as int], idf)),
                    None => Seq::empty(),
                };
                Some(
                    (
                        superlative_text(
                            rows.len(),
                            field,
                            most,
                            extreme_value(rows, field, most).printed(),
                            id,
                            names,
                        ),
                        at,
                    ),
                )
            },
        }
    }
}

/// The records behind an answer are exactly those with the extreme value, and no
/// record is beyond it.
pub proof fn law_winners_are_extreme(rows: Seq<Tree>, field: Seq<char>, most: bool, i: int)
    requires
        rows.len() <= usize::MAX,
        clean_numeric(rows, field),
        0 <= i < rows.len(),
        rows[i].get(field) is Some,
    ensures
        most ==> rank((rows[i].get(field)->0).double()->0) <= rank(
            extreme_value(rows, field, most).double()->0,
        ),
        !most ==> rank((rows[i].get(field)->0).double()->0) >= rank(
            extreme_value(rows, field, most).double()->0,
        ),
        winners(rows, field, most).contains(i as usize) <==> rank(
            (rows[i].get(field)->0).double()->0,
        ) == rank(extreme_value(rows, field, most).double()->0),
{
    let col = column(rows, field);
    lemma_in_column(rows, field, i);
    let k = choose|k: int| 0 <= k < col.len() && col[k] == rows[i].get(field)->0;
    lemma_extreme_bounds(col, k);
    let mask = winner_mask(rows, field, most);
    lemma_marked_below(mask);
    assert(mask[i] == at_extreme(rows[i], field, extreme_value(rows, field, most)));
    assert(col[k].double() is Some);
    if winners(rows, field, most).contains(i as usize) {
        let w = choose|w: int| 0 <= w < marked(mask).len() && marked(mask)[w] == i as usize;
        assert(mask[marked(mask)[w] as int]);
    }
}

pub proof fn lemma_in_column(rows: Seq<Tree>, field: Seq<char>, i: int)
    requires
        0 <= i < rows.len(),
        rows[i].get(field) is Some,
    ensures
        column(rows, field).contains(rows[i].get(field)->0),
    decreases rows.len(),
{
    let before = rows.drop_last();
    let all = column(rows, field);
    let some = column(before, field);
    if i < before.len() {
        lemma_in_column(before, field, i);
        assert(before[i] == rows[i]);
        let k = choose|k: int| 0 <= k < some.len() && some[k] == rows[i].get(field)->0;
        assert(all[k] == some[k]);
    } else {
        assert(rows.last() == rows[i]);
        assert(all[all.len() - 1] == rows[i].get(field)->0);
    }
}

proof fn lemma_extreme_bounds(values: Seq<Tree>, k: int)
    requires
        all_doubles(values),
        0 <= k < values.len(),
    ensures
        rank(least_value(values).double()->0) <= rank(values[k].double()->0) <= rank(
            greatest_value(values).double()->0,
        ),
    decreases values.len(),
{
    if values.len() > 1 {
        let before = values.drop_last();
        assert(forall|i: int| 0 <= i < before.len() ==> #[trigger] before[i] == values[i]);
        if k < before.len() {
            assert(all_doubles(before));
            lemma_extreme_bounds(before, k);
        } else {
            assert(values[k] == values.last());
        }
    }
}

fn direction_of(q: &[char]) -> (out: Option<bool>)
    ensures
        out == direction(q@),
{
    proof {
        reveal_strlit("at least");
        reveal_strlit("at most");
    }
    let once = replace_of(q, "at least", "  ");
    let qs = replace_of(&once, "at most", "  ");
    let most = vec!["largest", "highest", "max", "most", "greatest", "biggest"];
    let least = vec!["smallest", "lowest", "min", "least", "fewest"];
    assert(most@ =~= most_words());
    assert(least@ =~= least_words());
    let want_max = has_any_str(&qs, most.as_slice());
    let want_min = has_any_str(&qs, least.as_slice());
    if want_max == want_min {
        None
    } else {
        Some(want_max)
    }
}

/// The position in the column of the value at the extreme.
fn extreme_at(values: &Vec<&Json>, most: bool) -> (at: usize)
    requires
        all_doubles(value_views(values@)),
        values@.len() > 0,
    ensures
        at < values@.len(),
        values@[at as int]@ == (if most {
            greatest_value(value_views(values@))
        } else {
            least_value(value_views(values@))
        }),
{
    let ghost vs = value_views(values@);
    let mut at: usize = 0;
    let mut i: usize = 1;
    assert(vs.take(1)[0] == vs[0]);
    while i < values.len()
        invariant
            1 <= i <= values@.len(),
            at < i,
            vs == value_views(values@),
            all_doubles(vs),
            most ==> vs[at as int] == greatest_value(vs.take(i as int)),
            !most ==> vs[at as int] == least_value(vs.take(i as int)),
        decreases values@.len() - i,
    {
        let ghost next = vs.take(i as int + 1);
        assert(next.drop_last() =~= vs.take(i as int));
        assert(next.last() == vs[i as int]);
        assert(vs[i as int].double() is Some);
        assert(vs[at as int].double() is Some);
        if let Some(b) = values[i].double() {
            if let Some(best) = values[at].double() {
                if most {
                    if rank_of(b) > rank_of(best) {
                        at = i;
                    }
                } else {
                    if rank_of(b) < rank_of(best) {
                        at = i;
                    }
                }
            }
        }
        i += 1;
    }
    assert(vs.take(i as int) =~= vs);
    at
}

fn winners_of(rows: &[Json], field: &str, bits: u64, Ghost(extreme): Ghost<Tree>) -> (out: Vec<
    usize,
>)
    requires
        extreme.double() == Some(bits),
    ensures
        out@ == marked(
            Seq::new(rows@.len(), |i: int| at_extreme(trees(rows@)[i], field@, extreme)),
        ),
        forall|k: int| 0 <= k < out@.len() ==> (#[trigger] out@[k]) < rows@.len(),
{
    let ghost ts = trees(rows@);
    let ghost mask = Seq::new(rows@.len(), |i: int| at_extreme(ts[i], field@, extreme));
    let mut out: Vec<usize> = Vec::new();
    let mut i: usize = 0;
    while i < rows.len()
        invariant
            i <= rows@.len(),
            ts == trees(rows@),
            extreme.double() == Some(bits),
            mask == Seq::new(rows@.len(), |i: int| at_extreme(ts[i], field@, extreme)),
            out@ == marked(mask.take(i as int)),
            forall|k: int| 0 <= k < out@.len() ==> (#[trigger] out@[k]) < rows@.len(),
        decreases rows@.len() - i,
    {
        assert(mask.take(i as int + 1).drop_last() =~= mask.take(i as int));
        assert(ts[i as int] == rows@[i as int]@);
        let hit = match rows[i].get(field) {
            Some(value) => match value.double() {
                Some(b) => rank_of(b) == rank_of(bits),
                None => false,
            },
            None => false,
        };
        if hit {
            out.push(i);
        }
        i += 1;
    }
    assert(mask.take(i as int) =~= mask);
    out
}

/// At most six names in quotes, and how many more there are.
pub fn name_list_of(names: &[String]) -> (out: String)
    ensures
        out@ == name_list(texts(names@)),
{
    let n: usize = if names.len() > 6 {
        6
    } else {
        names.len()
    };
    let mut parts: Vec<String> = Vec::new();
    let mut i: usize = 0;
    while i < n
        invariant
            i <= n <= names@.len(),
            parts@.len() == i,
            forall|k: int|
                0 <= k < i ==> (#[trigger] parts@[k])@ == "\""@ + texts(names@)[k] + "\""@,
        decreases n - i,
    {
        parts.push("\"".to_owned().concat(names[i].as_str()).concat("\""));
        i += 1;
    }
    assert(texts(parts@) =~= Seq::new(n as nat, |k: int| "\""@ + texts(names@)[k] + "\""@));
    let shown = join_of(parts.as_slice(), ", ");
    if names.len() > 6 {
        shown.concat(", +").concat(decimal_of(names.len() - 6).as_str()).concat(" more")
    } else {
        shown
    }
}

fn superlative_line(
    n: usize,
    field: &str,
    most: bool,
    value: &str,
    id: &Option<String>,
    names: &[String],
) -> (out: String)
    ensures
        out@ == superlative_text(
            n as nat,
            field@,
            most,
            value@,
            match id {
                Some(s) => Some(s@),
                None => None,
            },
            texts(names@),
        ),
{
    let dir = if most {
        "max"
    } else {
        "min"
    };
    let head = "[index] ".to_owned().concat(dir).concat("(").concat(field);
    match id {
        None => head.concat(") over ").concat(decimal_of(n).as_str()).concat(
            " records = ",
        ).concat(value),
        Some(idf) => {
            if names.len() == 1 {
                head.concat(") over ").concat(decimal_of(n).as_str()).concat(" records: ").concat(
                    idf.as_str(),
                ).concat("=\"").concat(names[0].as_str()).concat("\" (").concat(field).concat(
                    "=",
                ).concat(value).concat(")")
            } else {
                head.concat(")=").concat(value).concat(" over ").concat(
                    decimal_of(n).as_str(),
                ).concat(" records — ").concat(decimal_of(names.len()).as_str()).concat(
                    "-way TIE on ",
                ).concat(idf.as_str()).concat(": ").concat(name_list_of(names).as_str()).concat(
                    " (no unique ",
                ).concat(dir).concat(")")
            }
        },
    }
}

/// The names of the records with the given numbers.
fn names_of(rows: &[Json], at: &[usize], id: &str) -> (out: Vec<String>)
    requires
        forall|k: int| 0 <= k < at@.len() ==> (#[trigger] at@[k]) < rows@.len(),
    ensures
        texts(out@) == Seq::new(
            at@.len(),
            |k: int| id_text(trees(rows@)[at@[k] as int], id@),
        ),
{
    let ghost ts = trees(rows@);
    let mut out: Vec<String> = Vec::new();
    let mut k: usize = 0;
    while k < at.len()
        invariant
            k <= at@.len(),
            ts == trees(rows@),
            forall|j: int| 0 <= j < at@.len() ==> (#[trigger] at@[j]) < rows@.len(),
            out@.len() == k,
            forall|j: int|
                0 <= j < k ==> (#[trigger] out@[j])@ == id_text(ts[at@[j] as int], id@),
        decreases at@.len() - k,
    {
        let i: usize = at[k];
        assert(ts[i as int] == rows@[i as int]@);
        let name = match rows[i].get(id) {
            Some(Json::Text(s)) => s.clone(),
            _ => "?".to_owned(),
        };
        out.push(name);
        k += 1;
    }
    assert(texts(out@) =~= Seq::new(at@.len(), |j: int| id_text(ts[at@[j] as int], id@)));
    out
}

/// The answer to a question for the most or the least.
pub fn superlative_on(rows: &[Json], q: &[char]) -> (out: Option<(String, Vec<usize>)>)
    ensures
        match out {
            Some(found) => superlative(trees(rows@), q@) == Some((found.0@, found.1@)),
            None => superlative(trees(rows@), q@) is None,
        },
{
    let ghost ts = trees(rows@);
    let most = match direction_of(q) {
        None => {
            return None;
        },
        Some(most) => most,
    };
    if rows.len() == 0 {
        return None;
    }
    let fields = match first_fields_of(rows) {
        None => {
            return None;
        },
        Some(fields) => fields,
    };
    let field = match first_field_of(fields, q, true, true) {
        Some(name) => name,
        None => match first_field_of(fields, q, true, false) {
            Some(name) => name,
            None => {
                return None;
            },
        },
    };
    if !field_is_clean_numeric(rows, field.as_str()) {
        return None;
    }
    let id = first_field_of(fields, q, false, false);
    let values = column_of(rows, field.as_str());
    assert(value_views(values@).len() == values@.len());
    let at = extreme_at(&values, most);
    let ghost extreme = extreme_value(ts, field@, most);
    assert(value_views(values@)[at as int] == values@[at as int]@);
    let bits: u64 = match values[at].double() {
        Some(b) => b,
        None => 0,
    };
    let value = values[at].printed();
    let found = winners_of(rows, field.as_str(), bits, Ghost(extreme));
    assert(found@ == winners(ts, field@, most)) by {
        assert(Seq::new(rows@.len(), |i: int| at_extreme(ts[i], field@, extreme)) =~= winner_mask(
            ts,
            field@,
            most,
        ));
    }
    let names: Vec<String> = match &id {
        Some(idf) => names_of(rows, found.as_slice(), idf.as_str()),
        None => Vec::new(),
    };
    assert(id is None ==> texts(names@) =~= Seq::empty());
    let line = superlative_line(
        rows.len(),
        field.as_str(),
        most,
        value.as_str(),
        &id,
        names.as_slice(),
    );
    Some((line, found))
}

/// The answer to a question for the most or the least over the JSON array in
/// `input`.
pub fn aggregate_index(input: &[u8], query: &str) -> (out: Option<String>)
    ensures
        match out {
            Some(line) => rows_of(input@) is Some && match superlative(
                rows_of(input@)->0,
                ascii_lower(query@),
            ) {
                Some(found) => line@ == found.0,
                None => false,
            },
            None => rows_of(input@) is None || superlative(
                rows_of(input@)->0,
                ascii_lower(query@),
            ) is None,
        },
{
    match superlative_rows(input, query) {
        Some((line, _)) => Some(line),
        None => None,
    }
}

/// The same, with the numbers of the records behind the answer.
pub fn superlative_rows(input: &[u8], query: &str) -> (out: Option<(String, Vec<usize>)>)
    ensures
        match out {
            Some(found) => rows_of(input@) is Some && superlative(
                rows_of(input@)->0,
                ascii_lower(query@),
            ) == Some((found.0@, found.1@)),
            None => rows_of(input@) is None || superlative(
                rows_of(input@)->0,
                ascii_lower(query@),
            ) is None,
        },
{
    match parse_rows(input) {
        None => None,
        Some(rows) => {
            let chars = chars_of(query);
            let q = ascii_lower_of(&chars);
            superlative_on(rows.as_slice(), &q)
        },
    }
}

/// A question asks for the most if, threshold words aside, it has a word for it
/// and none for the least, and the other way round; else for neither.
pub proof fn law_direction(q: Seq<char>)
    ensures
        ({
            let s = replaced(replaced(q, "at least"@, "  "@), "at most"@, "  "@);
            let most = contains_text(s, "largest"@) || contains_text(s, "highest"@)
                || contains_text(s, "max"@) || contains_text(s, "most"@) || contains_text(
                s,
                "greatest"@,
            ) || contains_text(s, "biggest"@);
            let least = contains_text(s, "smallest"@) || contains_text(s, "lowest"@)
                || contains_text(s, "min"@) || contains_text(s, "least"@) || contains_text(
                s,
                "fewest"@,
            );
            &&& direction(q) == Some(true) <==> most && !least
            &&& direction(q) == Some(false) <==> least && !most
        }),
{
    let m = most_words();
    assert(m[0]@ == "largest"@);
    assert(m[1]@ == "highest"@);
    assert(m[2]@ == "max"@);
    assert(m[3]@ == "most"@);
    assert(m[4]@ == "greatest"@);
    assert(m[5]@ == "biggest"@);
    let l = least_words();
    assert(l[0]@ == "smallest"@);
    assert(l[1]@ == "lowest"@);
    assert(l[2]@ == "min"@);
    assert(l[3]@ == "least"@);
    assert(l[4]@ == "fewest"@);
}

/// The extreme value is a value of the field, which no record's value exceeds, and
/// the winners are the records that have it, every one, in order.
pub proof fn law_extreme_value(rows: Seq<Tree>, field: Seq<char>, most: bool)
    requires
        clean_numeric(rows, field),
    ensures
        ({
            let v = extreme_value(rows, field, most);
            &&& column(rows, field).contains(v)
            &&& forall|i: int|
                0 <= i < rows.len() && (#[trigger] rows[i]).get(field) is Some ==> if most {
                    rank((rows[i].get(field)->0).double()->0) <= rank(v.double()->0)
                } else {
                    rank((rows[i].get(field)->0).double()->0) >= rank(v.double()->0)
                }
            &&& winners(rows, field, most) == marked(
                rows.map_values(
                    |r: Tree|
                        r.get(field) is Some && r.get(field)->0.double() is Some && rank(
                            r.get(field)->0.double()->0,
                        ) == rank(v.double()->0),
                ),
            )
        }),
{
    let values = column(rows, field);
    let v = extreme_value(rows, field, most);
    law_clean_field(rows, field);
    let i = choose|i: int| 0 <= i < rows.len() && (#[trigger] rows[i]).get(field) is Some;
    lemma_in_column(rows, field, i);
    let k = choose|k: int| 0 <= k < values.len() && values[k] == rows[i].get(field)->0;
    law_present_and_bounds(values, k);
    assert forall|i: int| 0 <= i < rows.len() && (#[trigger] rows[i]).get(field) is Some implies if most {
        rank((rows[i].get(field)->0).double()->0) <= rank(v.double()->0)
    } else {
        rank((rows[i].get(field)->0).double()->0) >= rank(v.double()->0)
    } by {
        lemma_in_column(rows, field, i);
        let k = choose|k: int| 0 <= k < values.len() && values[k] == rows[i].get(field)->0;
        law_present_and_bounds(values, k);
    }
    assert(winner_mask(rows, field, most) =~= rows.map_values(
        |r: Tree|
            r.get(field) is Some && r.get(field)->0.double() is Some && rank(
                r.get(field)->0.double()->0,
            ) == rank(v.double()->0),
    ));
}

/// Up to six names are listed in quotes, and the rest of them counted.
pub proof fn law_name_list(names: Seq<Seq<char>>)
    ensures
        names.len() <= 6 ==> name_list(names) == join(
            names.map_values(|s: Seq<char>| "\""@ + s + "\""@),
            ", "@,
        ),
        names.len() > 6 ==> name_list(names) == join(
            names.take(6).map_values(|s: Seq<char>| "\""@ + s + "\""@),
            ", "@,
        ) + ", +"@ + decimal((names.len() - 6) as nat) + " more"@,
{
    let n = if names.len() > 6 {
        6nat
    } else {
        names.len()
    };
    assert(Seq::new(n, |i: int| "\""@ + names[i] + "\""@) =~= names.take(n as int).map_values(
        |s: Seq<char>| "\""@ + s + "\""@,
    ));
    assert(names.len() <= 6 ==> names.take(n as int) =~= names);
}

/// A superlative is answered for the first number field that the question names,
/// or the first one at all, if it is clean: with the extreme value and the records
/// that have it, which are told by the first string field, if there is one.
pub proof fn law_superlative(rows: Seq<Tree>, q: Seq<char>)
    ensures
        rows.len() == 0 || direction(q) is None || first_fields(rows) is None ==> superlative(
            rows,
            q,
        ) is None,
        rows.len() > 0 && direction(q) is Some && first_fields(rows) is Some ==> {
            let fields = first_fields(rows)->0;
            let most = direction(q)->0;
            let dir = if most {
                "max"@
            } else {
                "min"@
            };
            let field = if first_field(fields, q, true, true) is Some {
                first_field(fields, q, true, true)
            } else {
                first_field(fields, q, true, false)
            };
            let id = first_field(fields, q, false, false);
            let n = decimal(rows.len());
            &&& field is None || !clean_numeric(rows, field->0) ==> superlative(rows, q) is None
            &&& field is Some && clean_numeric(rows, field->0) ==> {
                let f = field->0;
                let at = winners(rows, f, most);
                let value = extreme_value(rows, f, most).printed();
                let names = at.map_values(
                    |k: usize|
                        match rows[k as int].get(id->0) {
                            Some(Tree::Text(s)) => s,
                            _ => "?"@,
                        },
                );
                superlative(rows, q) == Some(
                    (
                        if id is None {
                            "[index] "@ + dir + "("@ + f + ") over "@ + n + " records = "@ + value
                        } else if at.len() == 1 {
                            "[index] "@ + dir + "("@ + f + ") over "@ + n + " records: "@ + id->0
                                + "=\""@ + names[0] + "\" ("@ + f + "="@ + value + ")"@
                        } else {
                            "[index] "@ + dir + "("@ + f + ")="@ + value + " over "@ + n
                                + " records — "@ + decimal(at.len()) + "-way TIE on "@ + id->0
                                + ": "@ + name_list(names) + " (no unique "@ + dir + ")"@
                        },
                        at,
                    ),
                )
            }
        },
{
    if rows.len() > 0 && direction(q) is Some && first_fields(rows) is Some {
        let fields = first_fields(rows)->0;
        let most = direction(q)->0;
        let field = wanted_field(fields, q);
        let id = first_field(fields, q, false, false);
        if field is Some && clean_numeric(rows, field->0) && id is Some {
            let at = winners(rows, field->0, most);
            assert(Seq::new(at.len(), |k: int| id_text(rows[at[k] as int], id->0))
                =~= at.map_values(
                |k: usize|
                    match rows[k as int].get(id->0) {
                        Some(Tree::Text(s)) => s,
                        _ => "?"@,
                    },
            ));
        }
    }
}

} // verus!
