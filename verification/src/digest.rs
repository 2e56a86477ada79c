//! Exact answers to questions over a whole record set.
//!
//! Sums, means and differences of doubles are floating-point work, which is
//! done outside of this library; an answer that needs one says what is left to
//! compute and is finished with the text of the result.
use crate::column::{
    clean_numeric, column, column_of, distinct, distinct_of, field_is_clean_numeric,
    law_clean_field, law_occurrences, occurrences, occurrences_of, text_column, text_column_of,
};
use crate::describe::{
    all_doubles, greatest_value, law_present_and_bounds, least_value, value_views,
};
use crate::detect::{ascii_white, is_ascii_white};
use crate::extreme::{asks_mean, extreme_group, group_extreme, ExtremeView, GroupExtreme};
use crate::intent::{
    first_field, first_fields, first_fields_of, is_named, law_percentile_number, named_field, names,
    percent_word, percentile, percentile_of, threshold, threshold_of,
};
use crate::json::{
    array_reads_back, compact, field_trees, json_of_bytes, law_scalars, nests_within, rank,
    reads_back, trees, Json, Tree,
};
use crate::op::{doubles_pass, ints_pass, rank_of, Op};
use crate::order::{
    comes_before, ints, key_views, law_sorted_order, law_sorting, sorted_order, sorted_order_of,
    SortKey,
};
use crate::query::{op_sign, op_str, parse_rows, rows_of};
use crate::superlative::{superlative, superlative_on};
use crate::text::{
    ascii_lower, ascii_lower_of, chars_of, contains_text, copy_all, decimal, decimal_of, has_any,
    has_any_str, has_str, same_text, split, texts, Separator,
};
use vstd::prelude::*;
use vstd::utf8::encode_utf8;

verus! {

/// An answer as plain values: complete, or with something left to compute.
pub enum DigestView {
    /// A complete line.
    Line(Seq<char>),
    /// A line up to the sum or the mean of the given doubles.
    Total { lead: Seq<char>, values: Seq<u64>, mean: bool },
    /// A line up to the difference of two doubles, and what follows it.
    Range { lead: Seq<char>, low: u64, high: u64, tail: Seq<char> },
    /// The extreme group.
    Groups(ExtremeView),
}

/// An answer: complete, or with something left to compute.
#[derive(Debug, PartialEq, Eq)]
pub enum Digest {
    /// A complete line.
    Line(String),
    /// A line up to a sum or a mean.
    Total {
        /// The line up to the result.
        lead: String,
        /// The doubles to sum, in order, by their bits.
        values: Vec<u64>,
        /// The sum is to be divided by the number of doubles.
        mean: bool,
    },
    /// A line up to a difference.
    Range {
        /// The line up to the result.
        lead: String,
        /// The bits of the least.
        low: u64,
        /// The bits of the greatest, from which the least is taken away.
        high: u64,
        /// The line after the result.
        tail: String,
    },
    /// The extreme group.
    Groups(GroupExtreme),
}

impl View for Digest {
    type V = DigestView;

    open spec fn view(&self) -> DigestView {
        match *self {
            Digest::Line(s) => DigestView::Line(s@),
            Digest::Total { lead, values, mean } => DigestView::Total {
                lead: lead@,
                values: values@,
                mean,
            },
            Digest::Range { lead, low, high, tail } => DigestView::Range {
                lead: lead@,
                low,
                high,
                tail: tail@,
            },
            Digest::Groups(e) => DigestView::Groups(e@),
        }
    }
}

impl Digest {
    /// A copy of the answer.
    pub fn copy(&self) -> (out: Digest)
        ensures
            out@ == self@,
    {
        match self {
            Digest::Line(s) => Digest::Line(s.clone()),
            Digest::Total { lead, values, mean } => Digest::Total {
                lead: lead.clone(),
                values: copy_all(values.as_slice()),
                mean: *mean,
            },
            Digest::Range { lead, low, high, tail } => Digest::Range {
                lead: lead.clone(),
                low: *low,
                high: *high,
                tail: tail.clone(),
            },
            Digest::Groups(e) => Digest::Groups(e.copy()),
        }
    }

    /// The answer, given the text of the sum, mean or difference that it asks
    /// for. A complete line needs none; the extreme group has its own `finish`.
    pub fn finish(&self, shown: &str) -> (out: Option<String>)
        ensures
            match *self {
                Digest::Line(s) => out matches Some(line) && line@ == s@,
                Digest::Total { lead, .. } => out matches Some(line) && line@ == lead@ + shown@,
                Digest::Range { lead, tail, .. } => out matches Some(line) && line@ == lead@
                    + shown@ + tail@,
                Digest::Groups(_) => out is None,
            },
    {
        match self {
            Digest::Line(s) => Some(s.clone()),
            Digest::Total { lead, .. } => Some(lead.clone().concat(shown)),
            Digest::Range { lead, tail, .. } => Some(
                lead.clone().concat(shown).concat(tail.as_str()),
            ),
            Digest::Groups(_) => None,
        }
    }
}

// ---------------------------------------------------------------------------
// Counts
// ---------------------------------------------------------------------------

/// How many of the doubles pass the comparison.
pub open spec fn passing(values: Seq<Tree>, op: Op, bits: u64) -> nat
    decreases values.len(),
{
    if values.len() == 0 {
        0
    } else {
        passing(values.drop_last(), op, bits) + if ints_pass(
            rank(values.last().double()->0),
            op,
            rank(bits),
        ) {
            1nat
        } else {
            0
        }
    }
}

/// The first text that the question names.
pub open spec fn first_named(list: Seq<Seq<char>>, q: Seq<char>) -> Option<Seq<char>>
    decreases list.len(),
{
    if list.len() == 0 {
        None
    } else if names(q, list[0]) {
        Some(list[0])
    } else {
        first_named(list.skip(1), q)
    }
}

/// Words that ask for the number of records.
pub open spec fn record_words() -> Seq<&'static str> {
    seq![
        "record",
        "item",
        "entr",
        "element",
        "object",
        "array",
        "in total",
        "are there",
    ]
}

/// The question asks how many different values there are.
pub open spec fn asks_distinct(q: Seq<char>) -> bool {
    contains_text(q, "distinct"@) || contains_text(q, "unique"@) || contains_text(q, "different"@)
}

/// The answer by a threshold over a numeric field.
pub open spec fn threshold_count(
    rows: Seq<Tree>,
    fields: Seq<(Seq<char>, Tree)>,
    q: Seq<char>,
) -> Option<Seq<char>> {
    match (first_field(fields, q, true, true), threshold(q)) {
        (Some(field), Some(t)) => if clean_numeric(rows, field) {
            Some(
                "[index] count("@ + field + " "@ + op_sign(t.0) + " "@ + t.2 + ") over "@ + decimal(
                    rows.len(),
                ) + " records = "@ + decimal(passing(column(rows, field), t.0, t.1)),
            )
        } else {
            None
        },
        _ => None,
    }
}

/// The answer by the values of a string field: how many are distinct, or how
/// often the first one occurs that the question names.
pub open spec fn value_count(
    rows: Seq<Tree>,
    fields: Seq<(Seq<char>, Tree)>,
    q: Seq<char>,
) -> Option<Seq<char>> {
    match first_field(fields, q, false, true) {
        None => None,
        Some(field) => {
            let list = text_column(rows, field);
            if asks_distinct(q) {
                Some(
                    "[index] distinct("@ + field + ") over "@ + decimal(rows.len()) + " records = "@
                        + decimal(distinct(list).len()) + " values"@,
                )
            } else {
                match first_named(distinct(list), q) {
                    Some(v) => Some(
                        "[index] count("@ + field + "=\""@ + v + "\") over "@ + decimal(rows.len())
                            + " records = "@ + decimal(occurrences(list, v)),
                    ),
                    None => None,
                }
            }
        },
    }
}

/// The answer to a question for a number.
pub open spec fn count_answer(rows: Seq<Tree>, q: Seq<char>) -> Option<Seq<char>> {
    if !(contains_text(q, "how many"@) || contains_text(q, "number of"@)) || first_fields(
        rows,
    ) is None {
        None
    } else {
        let fields = first_fields(rows)->0;
        let by_threshold = threshold_count(rows, fields, q);
        let by_value = value_count(rows, fields, q);
        if by_threshold is Some {
            by_threshold
        } else if by_value is Some {
            by_value
        } else if has_any(q, record_words()) {
            Some(
                "[index] count over "@ + decimal(rows.len()) + " records = "@ + decimal(rows.len()),
            )
        } else {
            None
        }
    }
}

fn passing_of(values: &Vec<&Json>, op: Op, bits: u64) -> (n: usize)
    requires
        all_doubles(value_views(values@)),
    ensures
        n == passing(value_views(values@), op, bits),
{
    let ghost vs = value_views(values@);
    let mut n: usize = 0;
    let mut i: usize = 0;
    while i < values.len()
        invariant
            i <= values@.len(),
            vs == value_views(values@),
            all_doubles(vs),
            n <= i,
            n == passing(vs.take(i as int), op, bits),
        decreases values@.len() - i,
    {
        assert(vs.take(i as int + 1).drop_last() =~= vs.take(i as int));
        assert(vs[i as int] == values@[i as int]@);
        assert(vs[i as int].double() is Some);
        if let Some(b) = values[i].double() {
            if doubles_pass(b, op, bits) {
                n += 1;
            }
        }
        i += 1;
    }
    assert(vs.take(i as int) =~= vs);
    n
}

fn first_named_of(list: &[String], q: &[char]) -> (out: Option<String>)
    ensures
        match out {
            Some(s) => first_named(texts(list@), q@) == Some(s@),
            None => first_named(texts(list@), q@) is None,
        },
{
    let ghost all = texts(list@);
    let mut i: usize = 0;
    assert(all.skip(0) =~= all);
    while i < list.len()
        invariant
            i <= list@.len(),
            all == texts(list@),
            first_named(all, q@) == first_named(all.skip(i as int), q@),
        decreases list@.len() - i,
    {
        assert(all.skip(i as int)[0] == list@[i as int]@);
        assert(all.skip(i as int).skip(1) =~= all.skip(i as int + 1));
        if is_named(q, list[i].as_str()) {
            return Some(list[i].clone());
        }
        i += 1;
    }
    None
}

/// The answer to a question for a number.
pub fn digest_count(rows: &[Json], q: &[char]) -> (out: Option<String>)
    ensures
        match out {
            Some(line) => count_answer(trees(rows@), q@) == Some(line@),
            None => count_answer(trees(rows@), q@) is None,
        },
{
    let ghost ts = trees(rows@);
    if !(has_str(q, "how many") || has_str(q, "number of")) {
        return None;
    }
    let fields = match first_fields_of(rows) {
        None => {
            return None;
        },
        Some(fields) => fields,
    };
    let n: usize = rows.len();
    if let Some(field) = named_field(fields, q, true) {
        if let Some(t) = threshold_of(q) {
            if field_is_clean_numeric(rows, field.as_str()) {
                let values = column_of(rows, field.as_str());
                let c = passing_of(&values, t.op, t.bits);
                return Some(
                    "[index] count(".to_owned().concat(field.as_str()).concat(" ").concat(
                        op_str(t.op),
                    ).concat(" ").concat(t.shown.as_str()).concat(") over ").concat(
                        decimal_of(n).as_str(),
                    ).concat(" records = ").concat(decimal_of(c).as_str()),
                );
            }
        }
    }
    if let Some(field) = named_field(fields, q, false) {
        let list = text_column_of(rows, field.as_str());
        let values = distinct_of(list.as_slice());
        assert(texts(values@).len() == values@.len());
        if has_str(q, "distinct") || has_str(q, "unique") || has_str(q, "different") {
            return Some(
                "[index] distinct(".to_owned().concat(field.as_str()).concat(") over ").concat(
                    decimal_of(n).as_str(),
                ).concat(" records = ").concat(decimal_of(values.len()).as_str()).concat(" values"),
            );
        }
        if let Some(v) = first_named_of(values.as_slice(), q) {
            let c = occurrences_of(list.as_slice(), v.as_str());
            return Some(
                "[index] count(".to_owned().concat(field.as_str()).concat("=\"").concat(
                    v.as_str(),
                ).concat("\") over ").concat(decimal_of(n).as_str()).concat(" records = ").concat(
                    decimal_of(c).as_str(),
                ),
            );
        }
    }
    let words = vec![
        "record",
        "item",
        "entr",
        "element",
        "object",
        "array",
        "in total",
        "are there",
    ];
    assert(words@ =~= record_words());
    if has_any_str(q, words.as_slice()) {
        return Some(
            "[index] count over ".to_owned().concat(decimal_of(n).as_str()).concat(
                " records = ",
            ).concat(decimal_of(n).as_str()),
        );
    }
    None
}

// ---------------------------------------------------------------------------
// Sums and means
// ---------------------------------------------------------------------------

/// The question asks for a sum or a mean.
pub open spec fn asks_total(q: Seq<char>) -> bool {
    contains_text(q, "sum"@) || contains_text(q, "total"@) || asks_mean(q)
}

/// The records that a question restricts itself to: those with the first value
/// of the string field it names that it names too.
pub open spec fn filter_of(
    rows: Seq<Tree>,
    fields: Seq<(Seq<char>, Tree)>,
    q: Seq<char>,
) -> Option<(Seq<char>, Seq<char>)> {
    match first_field(fields, q, false, true) {
        None => None,
        Some(field) => match first_named(distinct(text_column(rows, field)), q) {
            Some(v) => Some((field, v)),
            None => None,
        },
    }
}

/// The record is one of those that the question restricts itself to.
pub open spec fn in_filter(row: Tree, filter: Option<(Seq<char>, Seq<char>)>) -> bool {
    match filter {
        Some(f) => match row.get(f.0) {
            Some(v) => v.string() == Some(f.1),
            None => false,
        },
        None => true,
    }
}

/// The doubles of a field over the records in the filter.
pub open spec fn filtered_doubles(
    rows: Seq<Tree>,
    field: Seq<char>,
    filter: Option<(Seq<char>, Seq<char>)>,
) -> Seq<u64>
    decreases rows.len(),
{
    if rows.len() == 0 {
        Seq::empty()
    } else {
        let before = filtered_doubles(rows.drop_last(), field, filter);
        match rows.last().get(field) {
            Some(v) => if in_filter(rows.last(), filter) && v.double() is Some {
                before.push(v.double()->0)
            } else {
                before
            },
            None => before,
        }
    }
}

/// The filter in words.
pub open spec fn filter_text(filter: Option<(Seq<char>, Seq<char>)>) -> Seq<char> {
    match filter {
        Some(f) => " where "@ + f.0 + "="@ + f.1,
        None => Seq::empty(),
    }
}

/// The answer to a question for a sum or a mean.
pub open spec fn total_answer(
    rows: Seq<Tree>,
    fields: Seq<(Seq<char>, Tree)>,
    q: Seq<char>,
) -> Option<DigestView> {
    match first_field(fields, q, true, true) {
        None => None,
        Some(field) => {
            let filter = filter_of(rows, fields, q);
            let values = filtered_doubles(rows, field, filter);
            if !clean_numeric(rows, field) || values.len() == 0 {
                None
            } else {
                Some(
                    DigestView::Total {
                        lead: "[index] "@ + (if asks_mean(q) {
                            "mean"@
                        } else {
                            "sum"@
                        }) + "("@ + field + filter_text(filter) + ") over "@ + decimal(values.len())
                            + " records = "@,
                        values,
                        mean: asks_mean(q),
                    },
                )
            }
        },
    }
}

/// The filter of a question.
struct Filter {
    field: String,
    value: String,
}

spec fn filter_view(filter: Option<Filter>) -> Option<(Seq<char>, Seq<char>)> {
    match filter {
        Some(f) => Some((f.field@, f.value@)),
        None => None,
    }
}

fn row_in_filter(row: &Json, filter: &Option<Filter>) -> (r: bool)
    ensures
        r == in_filter(row@, filter_view(*filter)),
{
    match filter {
        Some(f) => match row.get(f.field.as_str()) {
            Some(value) => match value.as_str() {
                Some(s) => same_text(s, f.value.as_str()),
                None => false,
            },
            None => false,
        },
        None => true,
    }
}

fn filtered_doubles_of(rows: &[Json], field: &str, filter: &Option<Filter>) -> (out: Vec<u64>)
    ensures
        out@ == filtered_doubles(trees(rows@), field@, filter_view(*filter)),
{
    let ghost ts = trees(rows@);
    let ghost fv = filter_view(*filter);
    let mut out: Vec<u64> = Vec::new();
    let mut i: usize = 0;
    while i < rows.len()
        invariant
            i <= rows@.len(),
            ts == trees(rows@),
            fv == filter_view(*filter),
            out@ == filtered_doubles(ts.take(i as int), field@, fv),
        decreases rows@.len() - i,
    {
        let ghost next = ts.take(i as int + 1);
        assert(next.drop_last() =~= ts.take(i as int));
        assert(next.last() == rows@[i as int]@);
        if let Some(value) = rows[i].get(field) {
            if row_in_filter(&rows[i], filter) {
                if let Some(bits) = value.double() {
                    out.push(bits);
                }
            }
        }
        i += 1;
    }
    assert(ts.take(i as int) =~= ts);
    out
}

fn digest_total(rows: &[Json], fields: &Vec<(String, Json)>, q: &[char]) -> (out: Option<Digest>)
    ensures
        match out {
            Some(d) => total_answer(trees(rows@), field_trees(fields@), q@) == Some(d@),
            None => total_answer(trees(rows@), field_trees(fields@), q@) is None,
        },
{
    let field = match named_field(fields, q, true) {
        None => {
            return None;
        },
        Some(field) => field,
    };
    if !field_is_clean_numeric(rows, field.as_str()) {
        return None;
    }
    let filter: Option<Filter> = match named_field(fields, q, false) {
        None => None,
        Some(sf) => {
            let list = text_column_of(rows, sf.as_str());
            let values = distinct_of(list.as_slice());
            match first_named_of(values.as_slice(), q) {
                Some(v) => Some(Filter { field: sf, value: v }),
                None => None,
            }
        },
    };
    let values = filtered_doubles_of(rows, field.as_str(), &filter);
    if values.len() == 0 {
        return None;
    }
    let mean = has_str(q, "average") || has_str(q, "mean");
    let wher = match &filter {
        Some(f) => " where ".to_owned().concat(f.field.as_str()).concat("=").concat(
            f.value.as_str(),
        ),
        None => String::new(),
    };
    assert(filter is None ==> wher@ =~= Seq::<char>::empty());
    let lead = "[index] ".to_owned().concat(
        if mean {
            "mean"
        } else {
            "sum"
        },
    ).concat("(").concat(field.as_str()).concat(wher.as_str()).concat(") over ").concat(
        decimal_of(values.len()).as_str(),
    ).concat(" records = ");
    Some(Digest::Total { lead, values, mean })
}

// ---------------------------------------------------------------------------
// Percentiles and ranges
// ---------------------------------------------------------------------------

/// The nearest rank of a percentile among `n` values: `p * n / 100`, rounded up.
pub open spec fn nearest_rank(p: nat, n: nat) -> nat {
    ((p * n + 99) / 100) as nat
}

/// The values in order, with equal ones in the order of the records.
pub open spec fn value_order(values: Seq<Tree>) -> Seq<int> {
    sorted_order(
        Seq::new(values.len(), |i: int| (rank(values[i].double()->0), Seq::<char>::empty())),
    )
}

/// The value at a percentile.
pub open spec fn percentile_value(values: Seq<Tree>, p: nat) -> Tree {
    values[value_order(values)[nearest_rank(p, values.len()) - 1]]
}

/// The answer to a question for a percentile.
pub open spec fn percentile_answer(
    rows: Seq<Tree>,
    fields: Seq<(Seq<char>, Tree)>,
    q: Seq<char>,
    p: nat,
) -> Option<DigestView> {
    match first_field(fields, q, true, true) {
        None => None,
        Some(field) => if !clean_numeric(rows, field) {
            None
        } else {
            Some(
                DigestView::Line(
                    "[index] "@ + (if p == 50 {
                        "median"@
                    } else {
                        "p"@ + decimal(p)
                    }) + "("@ + field + ") over "@ + decimal(rows.len()) + " records = "@
                        + percentile_value(column(rows, field), p).printed(),
                ),
            )
        },
    }
}

/// The answer to a question for a range.
pub open spec fn range_answer(
    rows: Seq<Tree>,
    fields: Seq<(Seq<char>, Tree)>,
    q: Seq<char>,
) -> Option<DigestView> {
    match first_field(fields, q, true, true) {
        None => None,
        Some(field) => if !clean_numeric(rows, field) {
            None
        } else {
            let low = least_value(column(rows, field));
            let high = greatest_value(column(rows, field));
            Some(
                DigestView::Range {
                    lead: "[index] range("@ + field + ") over "@ + decimal(rows.len())
                        + " records = "@,
                    low: low.double()->0,
                    high: high.double()->0,
                    tail: " (min "@ + low.printed() + ", max "@ + high.printed() + ")"@,
                },
            )
        },
    }
}

/// The nearest rank lies among the values.
proof fn lemma_nearest_rank(p: nat, n: nat)
    requires
        1 <= p <= 99,
        n > 0,
    ensures
        1 <= nearest_rank(p, n) <= n,
{
    assert(1 <= (p * n + 99) / 100 <= n) by (nonlinear_arith)
        requires
            1 <= p <= 99,
            n >= 1,
    ;
}

/// The nearest rank is the smallest whose share of the values reaches the
/// percentile.
pub proof fn law_nearest_rank(p: nat, n: nat)
    requires
        1 <= p <= 99,
        n > 0,
    ensures
        1 <= nearest_rank(p, n) <= n,
        100 * nearest_rank(p, n) >= p * n,
        100 * (nearest_rank(p, n) - 1) < p * n,
{
    lemma_nearest_rank(p, n);
    let x = (p * n + 99) as int;
    assert(x == 100 * (x / 100) + x % 100);
}

/// A higher percentile has no smaller value, and every percentile is one of the
/// values.
pub proof fn law_percentiles_are_ordered(values: Seq<Tree>, p: nat, q: nat)
    requires
        values.len() > 0,
        1 <= p <= q <= 99,
    ensures
        values.contains(percentile_value(values, p)),
        rank(percentile_value(values, p).double()->0) <= rank(
            percentile_value(values, q).double()->0,
        ),
{
    let keys = Seq::new(
        values.len(),
        |i: int| (rank(values[i].double()->0), Seq::<char>::empty()),
    );
    let order = value_order(values);
    law_sorted_order(keys, keys.len());
    lemma_nearest_rank(p, values.len());
    lemma_nearest_rank(q, values.len());
    let a = nearest_rank(p, values.len()) - 1;
    let b = nearest_rank(q, values.len()) - 1;
    assert(a <= b) by {
        assert(p * values.len() <= q * values.len()) by (nonlinear_arith)
            requires
                p <= q,
        ;
    }
    assert(values[order[a]] == percentile_value(values, p));
    if a < b {
        assert(!comes_before(keys[order[b]], keys[order[a]]));
    }
}

fn digest_percentile(
    rows: &[Json],
    fields: &Vec<(String, Json)>,
    q: &[char],
    p: usize,
) -> (out: Option<Digest>)
    requires
        1 <= p <= 99,
    ensures
        match out {
            Some(d) => percentile_answer(trees(rows@), field_trees(fields@), q@, p as nat) == Some(
                d@,
            ),
            None => percentile_answer(trees(rows@), field_trees(fields@), q@, p as nat) is None,
        },
{
    let field = match named_field(fields, q, true) {
        None => {
            return None;
        },
        Some(field) => field,
    };
    if !field_is_clean_numeric(rows, field.as_str()) {
        return None;
    }
    let values = column_of(rows, field.as_str());
    let ghost vs = value_views(values@);
    assert(vs.len() == values@.len());
    let ghost wanted = Seq::new(
        vs.len(),
        |i: int| (rank(vs[i].double()->0), Seq::<char>::empty()),
    );
    let mut keys: Vec<SortKey> = Vec::new();
    let mut i: usize = 0;
    while i < values.len()
        invariant
            i <= values@.len(),
            vs == value_views(values@),
            all_doubles(vs),
            wanted == Seq::new(
                vs.len(),
                |i: int| (rank(vs[i].double()->0), Seq::<char>::empty()),
            ),
            keys@.len() == i,
            forall|k: int| 0 <= k < i ==> (#[trigger] keys@[k])@ == wanted[k],
        decreases values@.len() - i,
    {
        assert(vs[i as int] == values@[i as int]@);
        assert(vs[i as int].double() is Some);
        let weight: i128 = match values[i].double() {
            Some(bits) => rank_of(bits) as i128,
            None => 0,
        };
        let text: Vec<char> = Vec::new();
        assert(text@ =~= Seq::<char>::empty());
        keys.push(SortKey { weight, text });
        i += 1;
    }
    assert(key_views(keys@) =~= wanted);
    let order = sorted_order_of(keys.as_slice());
    proof {
        law_sorted_order(wanted, wanted.len());
        lemma_nearest_rank(p as nat, vs.len());
    }
    let n: usize = values.len();
    assert(p * n + 99 <= 99 * 0xffff_ffff_ffff_ffff + 99) by (nonlinear_arith)
        requires
            1 <= p <= 99,
            0 <= n <= 0xffff_ffff_ffff_ffff,
    ;
    let at: u128 = (p as u128 * n as u128 + 99) / 100;
    let idx: usize = at as usize - 1;
    let pick: usize = order[idx];
    assert(ints(order@)[idx as int] == pick as int);
    let value = values[pick].printed();
    assert(vs[pick as int] == values@[pick as int]@);
    let label = if p == 50 {
        "median".to_owned()
    } else {
        "p".to_owned().concat(decimal_of(p).as_str())
    };
    Some(
        Digest::Line(
            "[index] ".to_owned().concat(label.as_str()).concat("(").concat(field.as_str()).concat(
                ") over ",
            ).concat(decimal_of(rows.len()).as_str()).concat(" records = ").concat(value.as_str()),
        ),
    )
}

/// The positions of the first least and of the first greatest value.
fn extremes_of(values: &Vec<&Json>) -> (out: (usize, usize))
    requires
        all_doubles(value_views(values@)),
        values@.len() > 0,
    ensures
        out.0 < values@.len(),
        out.1 < values@.len(),
        values@[out.0 as int]@ == least_value(value_views(values@)),
        values@[out.1 as int]@ == greatest_value(value_views(values@)),
{
    let ghost vs = value_views(values@);
    let mut low: usize = 0;
    let mut high: usize = 0;
    let mut i: usize = 1;
    assert(vs.take(1)[0] == vs[0]);
    while i < values.len()
        invariant
            1 <= i <= values@.len(),
            low < i,
            high < i,
            vs == value_views(values@),
            all_doubles(vs),
            vs[low as int] == least_value(vs.take(i as int)),
            vs[high as int] == greatest_value(vs.take(i as int)),
        decreases values@.len() - i,
    {
        let ghost next = vs.take(i as int + 1);
        assert(next.drop_last() =~= vs.take(i as int));
        assert(next.last() == vs[i as int]);
        assert(vs[i as int].double() is Some);
        assert(vs[low as int].double() is Some);
        assert(vs[high as int].double() is Some);
        if let Some(b) = values[i].double() {
            if let Some(l) = values[low].double() {
                if rank_of(b) < rank_of(l) {
                    low = i;
                }
            }
            if let Some(h) = values[high].double() {
                if rank_of(b) > rank_of(h) {
                    high = i;
                }
            }
        }
        i += 1;
    }
    assert(vs.take(i as int) =~= vs);
    (low, high)
}

fn digest_range(rows: &[Json], fields: &Vec<(String, Json)>, q: &[char]) -> (out: Option<Digest>)
    ensures
        match out {
            Some(d) => range_answer(trees(rows@), field_trees(fields@), q@) == Some(d@),
            None => range_answer(trees(rows@), field_trees(fields@), q@) is None,
        },
{
    let field = match named_field(fields, q, true) {
        None => {
            return None;
        },
        Some(field) => field,
    };
    if !field_is_clean_numeric(rows, field.as_str()) {
        return None;
    }
    let values = column_of(rows, field.as_str());
    let ghost vs = value_views(values@);
    assert(vs.len() == values@.len());
    let (l, h) = extremes_of(&values);
    assert(vs[l as int] == values@[l as int]@);
    assert(vs[h as int] == values@[h as int]@);
    assert(vs[l as int].double() is Some);
    assert(vs[h as int].double() is Some);
    let low: u64 = match values[l].double() {
        Some(b) => b,
        None => 0,
    };
    let high: u64 = match values[h].double() {
        Some(b) => b,
        None => 0,
    };
    let lead = "[index] range(".to_owned().concat(field.as_str()).concat(") over ").concat(
        decimal_of(rows.len()).as_str(),
    ).concat(" records = ");
    let tail = " (min ".to_owned().concat(values[l].printed().as_str()).concat(", max ").concat(
        values[h].printed().as_str(),
    ).concat(")");
    Some(Digest::Range { lead, low, high, tail })
}

// ---------------------------------------------------------------------------
// The digest
// ---------------------------------------------------------------------------

/// The answer to a question over records: first the extreme group, then the
/// extreme record, a sum or a mean, a percentile, a range, and last a count. A
/// question that asks for none of these, or that the records cannot answer, has
/// no answer.
pub open spec fn answer(rows: Seq<Tree>, query: Seq<char>) -> Option<DigestView> {
    let q = ascii_lower(query);
    if first_fields(rows) is None {
        None
    } else {
        let fields = first_fields(rows)->0;
        match extreme_group(rows, q) {
            Some(e) => Some(DigestView::Groups(e)),
            None => match superlative(rows, q) {
                Some(found) => Some(DigestView::Line(found.0)),
                None => if asks_total(q) {
                    total_answer(rows, fields, q)
                } else {
                    match percentile(q) {
                        Some(p) => percentile_answer(rows, fields, q, p),
                        None => if contains_text(q, "range"@) {
                            range_answer(rows, fields, q)
                        } else {
                            match count_answer(rows, q) {
                                Some(line) => Some(DigestView::Line(line)),
                                None => None,
                            }
                        },
                    }
                },
            },
        }
    }
}

/// The answer to a question over records.
pub fn digest_rows(rows: &[Json], query: &str) -> (out: Option<Digest>)
    ensures
        match out {
            Some(d) => answer(trees(rows@), query@) == Some(d@),
            None => answer(trees(rows@), query@) is None,
        },
{
    let chars = chars_of(query);
    let q = ascii_lower_of(&chars);
    let fields = match first_fields_of(rows) {
        None => {
            return None;
        },
        Some(fields) => fields,
    };
    if let Some(e) = group_extreme(rows, &q) {
        return Some(Digest::Groups(e));
    }
    if let Some((line, _)) = superlative_on(rows, &q) {
        return Some(Digest::Line(line));
    }
    if has_str(&q, "sum") || has_str(&q, "total") || has_str(&q, "average") || has_str(&q, "mean") {
        return digest_total(rows, fields, &q);
    }
    if let Some(p) = percentile_of(&q) {
        return digest_percentile(rows, fields, &q, p);
    }
    if has_str(&q, "range") {
        return digest_range(rows, fields, &q);
    }
    match digest_count(rows, &q) {
        Some(line) => Some(Digest::Line(line)),
        None => None,
    }
}

/// The answer to a question over the JSON array in `input`.
pub fn digest(input: &[u8], query: &str) -> (out: Option<Digest>)
    ensures
        match out {
            Some(d) => rows_of(input@) is Some && answer(rows_of(input@)->0, query@) == Some(d@),
            None => rows_of(input@) is None || answer(rows_of(input@)->0, query@) is None,
        },
{
    match parse_rows(input) {
        None => None,
        Some(rows) => digest_rows(rows.as_slice(), query),
    }
}

// ---------------------------------------------------------------------------
// Several payloads
// ---------------------------------------------------------------------------

/// The answer over the array of these records, written out and read back.
pub open spec fn answer_over(records: Seq<Tree>, query: Seq<char>) -> Option<DigestView> {
    match rows_of(encode_utf8(compact(Tree::Array(records)))) {
        Some(rows) => answer(rows, query),
        None => None,
    }
}

fn digest_over(records: Vec<Json>, query: &str) -> (out: Option<Digest>)
    ensures
        match out {
            Some(d) => answer_over(trees(records@), query@) == Some(d@),
            None => answer_over(trees(records@), query@) is None,
        },
{
    let union = Json::Array(records);
    let text = union.compact();
    digest(text.as_str().as_bytes(), query)
}

/// The records of all payloads that are JSON arrays, one after the other.
pub open spec fn union_of(inputs: Seq<&[u8]>) -> Seq<Tree>
    decreases inputs.len(),
{
    if inputs.len() == 0 {
        Seq::empty()
    } else {
        union_of(inputs.drop_last()) + match rows_of(inputs.last()@) {
            Some(rows) => rows,
            None => Seq::empty(),
        }
    }
}

proof fn lemma_trees_concat(a: Seq<Json>, b: Seq<Json>)
    ensures
        trees(a + b) == trees(a) + trees(b),
{
    assert(trees(a + b) =~= trees(a) + trees(b));
}

/// The answer to a question over the records of several payloads. Payloads that
/// are no JSON array are passed over.
pub fn digest_across(inputs: &[&[u8]], query: &str) -> (out: Option<Digest>)
    ensures
        match out {
            Some(d) => answer(union_of(inputs@), query@) == Some(d@),
            None => answer(union_of(inputs@), query@) is None,
        },
{
    let mut combined: Vec<Json> = Vec::new();
    let mut i: usize = 0;
    assert(trees(combined@) =~= Seq::empty());
    while i < inputs.len()
        invariant
            i <= inputs@.len(),
            trees(combined@) == union_of(inputs@.take(i as int)),
            combined@.len() == 0 || array_reads_back(trees(combined@)),
        decreases inputs@.len() - i,
    {
        assert(inputs@.take(i as int + 1).drop_last() =~= inputs@.take(i as int));
        assert(inputs@.take(i as int + 1).last() == inputs@[i as int]);
        let ghost before = combined@;
        match parse_rows(inputs[i]) {
            Some(rows) => {
                let mut more = rows;
                let ghost added = more@;
                combined.append(&mut more);
                proof {
                    lemma_trees_concat(before, added);
                    assert(combined@ =~= before + added);
                    assert(trees(before).len() == before.len());
                    assert(reads_back(Tree::Array(trees(added))));
                    assert(array_reads_back(trees(before).add(trees(added))));
                }
            },
            None => {
                assert(trees(before) + Seq::<Tree>::empty() =~= trees(before));
            },
        }
        i += 1;
    }
    assert(inputs@.take(i as int) =~= inputs@);
    assert(trees(combined@).len() == combined@.len());
    if combined.len() == 0 {
        return None;
    }
    digest_over(combined, query)
}

/// The lines of bytes between line feeds.
pub open spec fn byte_lines(s: Seq<u8>) -> Seq<Seq<u8>>
    decreases s.len(),
{
    if s.len() == 0 {
        seq![Seq::<u8>::empty()]
    } else {
        let before = byte_lines(s.drop_last());
        if s.last() == 0xa {
            before.push(Seq::empty())
        } else {
            before.update(before.len() - 1, before.last().push(s.last()))
        }
    }
}

/// Nothing but ASCII white space.
pub open spec fn blank(line: Seq<u8>) -> bool {
    forall|i: int| 0 <= i < line.len() ==> ascii_white(#[trigger] line[i])
}

/// The records of the lines that are JSON, and how many lines are not blank.
pub open spec fn line_records(ls: Seq<Seq<u8>>) -> (Seq<Tree>, nat)
    decreases ls.len(),
{
    if ls.len() == 0 {
        (Seq::empty(), 0)
    } else {
        let before = line_records(ls.drop_last());
        if blank(ls.last()) {
            before
        } else {
            match crate::json::json_of_bytes(ls.last()) {
                Some(t) => (before.0.push(t), before.1 + 1),
                None => (before.0, before.1 + 1),
            }
        }
    }
}

/// The records of an input that is mostly lines of JSON: at least four fifths of
/// its lines that are not blank.
pub open spec fn ndjson_records(input: Seq<u8>) -> Option<Seq<Tree>> {
    let found = line_records(byte_lines(input));
    if found.0.len() == 0 || found.0.len() * 5 < found.1 * 4 {
        None
    } else {
        Some(found.0)
    }
}

fn is_blank(line: &[u8]) -> (r: bool)
    ensures
        r == blank(line@),
{
    let mut i: usize = 0;
    while i < line.len()
        invariant
            i <= line@.len(),
            forall|k: int| 0 <= k < i ==> ascii_white(#[trigger] line@[k]),
        decreases line@.len() - i,
    {
        if !is_ascii_white(line[i]) {
            assert(!ascii_white(line@[i as int]));
            return false;
        }
        i += 1;
    }
    true
}

/// Lines of bytes as plain values.
pub open spec fn byte_seqs(v: Seq<Vec<u8>>) -> Seq<Seq<u8>> {
    Seq::new(v.len(), |i: int| v[i]@)
}

fn byte_lines_of(s: &[u8]) -> (out: Vec<Vec<u8>>)
    ensures
        byte_seqs(out@) == byte_lines(s@),
{
    let mut out: Vec<Vec<u8>> = Vec::new();
    let mut line: Vec<u8> = Vec::new();
    let mut i: usize = 0;
    assert(byte_seqs(out@).push(line@) =~= byte_lines(s@.take(0)));
    while i < s.len()
        invariant
            i <= s@.len(),
            byte_seqs(out@).push(line@) == byte_lines(s@.take(i as int)),
        decreases s@.len() - i,
    {
        let b = s[i];
        let ghost now = s@.take(i as int + 1);
        let ghost before = byte_lines(s@.take(i as int));
        assert(now.drop_last() =~= s@.take(i as int));
        assert(now.last() == b);
        let ghost done = byte_seqs(out@);
        if b == 0xa {
            let ghost cut = line@;
            out.push(line);
            line = Vec::new();
            assert(byte_seqs(out@) =~= done.push(cut));
            assert(byte_seqs(out@).push(line@) =~= before.push(Seq::empty()));
        } else {
            line.push(b);
            assert(byte_seqs(out@).push(line@) =~= before.update(
                before.len() - 1,
                before.last().push(b),
            ));
        }
        i += 1;
    }
    assert(s@.take(i as int) =~= s@);
    let ghost done = byte_seqs(out@);
    let ghost cut = line@;
    out.push(line);
    assert(byte_seqs(out@) =~= done.push(cut));
    out
}

/// Every value has at most `n` arrays and objects inside each other.
pub open spec fn all_nest_within(items: Seq<Tree>, n: nat) -> bool {
    forall|i: int| 0 <= i < items.len() ==> nests_within(#[trigger] items[i], n)
}

/// The answer to a question over lines of JSON. An input that is not mostly
/// lines of JSON has none. The lines are answered over as the elements of one
/// array: where one of them nests so deep that the array cannot be read, there is
/// no answer, and elsewhere it is the answer over the lines' values.
pub fn digest_ndjson(input: &[u8], query: &str) -> (out: Option<Digest>)
    ensures
        match out {
            Some(d) => ndjson_records(input@) is Some && answer_over(
                ndjson_records(input@)->0,
                query@,
            ) == Some(d@),
            None => ndjson_records(input@) is None || answer_over(
                ndjson_records(input@)->0,
                query@,
            ) is None,
        },
        ndjson_records(input@) matches Some(records) ==> all_nest_within(records, 126)
            ==> answer_over(records, query@) == answer(records, query@),
{
    let lines = byte_lines_of(input);
    let ghost ls = byte_seqs(lines@);
    let mut records: Vec<Json> = Vec::new();
    let mut nonblank: usize = 0;
    let mut i: usize = 0;
    assert(trees(records@) =~= Seq::empty());
    while i < lines.len()
        invariant
            i <= lines@.len(),
            ls == byte_seqs(lines@),
            records@.len() <= nonblank <= i,
            (trees(records@), nonblank as nat) == line_records(ls.take(i as int)),
            all_nest_within(trees(records@), 126) ==> records@.len() == 0 || array_reads_back(
                trees(records@),
            ),
        decreases lines@.len() - i,
    {
        let ghost next = ls.take(i as int + 1);
        assert(next.drop_last() =~= ls.take(i as int));
        assert(next.last() == lines@[i as int]@);
        if !is_blank(lines[i].as_slice()) {
            nonblank += 1;
            if let Some(v) = Json::parse(lines[i].as_slice()) {
                let ghost before = trees(records@);
                let ghost entry = v@;
                assert(before.len() == records@.len());
                records.push(v);
                assert(trees(records@) =~= before.push(entry));
                proof {
                    if all_nest_within(trees(records@), 126) {
                        assert forall|k: int| 0 <= k < before.len() implies nests_within(
                            #[trigger] before[k],
                            126,
                        ) by {
                            assert(trees(records@)[k] == before[k]);
                        }
                        assert(trees(records@)[before.len() as int] == entry);
                        assert(array_reads_back(before.push(entry)));
                    }
                }
            }
        }
        i += 1;
    }
    assert(ls.take(i as int) =~= ls);
    assert(trees(records@).len() == records@.len());
    if records.len() == 0 || (records.len() as u128) * 5 < (nonblank as u128) * 4 {
        return None;
    }
    digest_over(records, query)
}

// ---------------------------------------------------------------------------
// What the answers say of the records
// ---------------------------------------------------------------------------

proof fn lemma_filter_indices(s: Seq<Tree>, f: spec_fn(Tree) -> bool)
    ensures
        Set::new(|i: int| 0 <= i < s.len() && f(s[i])).finite(),
        Set::new(|i: int| 0 <= i < s.len() && f(s[i])).len() == s.filter(f).len(),
    decreases s.len(),
{
    reveal(Seq::filter);
    let all = Set::new(|i: int| 0 <= i < s.len() && f(s[i]));
    if s.len() == 0 {
        assert(all =~= Set::empty());
    } else {
        let before = s.drop_last();
        lemma_filter_indices(before, f);
        let fewer = Set::new(|i: int| 0 <= i < before.len() && f(before[i]));
        if f(s.last()) {
            assert(all =~= fewer.insert(s.len() - 1));
        } else {
            assert(all =~= fewer);
        }
    }
}

/// The value at the `p`th percentile is one of the values. Less than `p` of a
/// hundred of them are below it, and at least `p` of a hundred are not above it.
pub proof fn law_percentile_value(values: Seq<Tree>, p: nat)
    requires
        values.len() > 0,
        1 <= p <= 99,
    ensures
        values.contains(percentile_value(values, p)),
        100 * values.filter(
            |v: Tree|
                rank(v.double()->0) < rank(percentile_value(values, p).double()->0),
        ).len() < p * values.len(),
        100 * values.filter(
            |v: Tree|
                rank(v.double()->0) <= rank(percentile_value(values, p).double()->0),
        ).len() >= p * values.len(),
{
    let n = values.len();
    let keys = Seq::new(n, |i: int| (rank(values[i].double()->0), Seq::<char>::empty()));
    let order = value_order(values);
    let r = nearest_rank(p, n);
    let at = order[r - 1];
    let v = percentile_value(values, p);
    let bound = rank(v.double()->0);
    law_nearest_rank(p, n);
    law_sorting(keys);
    assert(values[at] == v);
    let below = |x: Tree| rank(x.double()->0) < bound;
    let upto = |x: Tree| rank(x.double()->0) <= bound;
    lemma_filter_indices(values, below);
    lemma_filter_indices(values, upto);
    let under = Set::new(|i: int| 0 <= i < n && below(values[i]));
    let reached = Set::new(|i: int| 0 <= i < n && upto(values[i]));
    let head = order.take(r - 1);
    let first = order.take(r as int);
    assert forall|i: int, j: int| 0 <= i < n && 0 <= j < n && i != j implies order[i]
        != order[j] by {}
    assert(head.no_duplicates());
    assert(first.no_duplicates());
    head.unique_seq_to_set();
    first.unique_seq_to_set();
    assert forall|i: int| under.contains(i) implies head.to_set().contains(i) by {
        assert(order.contains(i));
        let k = choose|k: int| 0 <= k < order.len() && order[k] == i;
        assert(keys[i].0 < keys[at].0);
        if k >= r - 1 {
            if k > r - 1 {
                assert(keys[order[r - 1]].0 <= keys[order[k]].0);
            }
            assert(false);
        }
        assert(head[k] == i);
        assert(head.contains(i));
    }
    assert forall|i: int| first.to_set().contains(i) implies reached.contains(i) by {
        let k = choose|k: int| 0 <= k < first.len() && first[k] == i;
        assert(order[k] == i);
        assert(0 <= order[k] < n);
        if k < r - 1 {
            assert(keys[order[k]].0 <= keys[order[r - 1]].0);
        }
        assert(keys[i].0 <= keys[at].0);
    }
    vstd::set_lib::lemma_len_subset(under, head.to_set());
    vstd::set_lib::lemma_len_subset(first.to_set(), reached);
    assert(below =~= |x: Tree| rank(x.double()->0) < rank(percentile_value(values, p).double()->0));
    assert(upto =~= |x: Tree| rank(x.double()->0) <= rank(percentile_value(values, p).double()->0));
}

/// A question for a percentile of a field of numbers is answered with a value of
/// the field, below which are less than so many of a hundred records with the
/// field, and above which are not more than the rest.
pub proof fn law_percentile_answer(
    rows: Seq<Tree>,
    query: Seq<char>,
    fields: Seq<(Seq<char>, Tree)>,
    field: Seq<char>,
    p: nat,
)
    requires
        first_fields(rows) == Some(fields),
        extreme_group(rows, ascii_lower(query)) is None,
        superlative(rows, ascii_lower(query)) is None,
        !asks_total(ascii_lower(query)),
        percentile(ascii_lower(query)) == Some(p),
        first_field(fields, ascii_lower(query), true, true) == Some(field),
        clean_numeric(rows, field),
    ensures
        1 <= p <= 99,
        exists|v: Tree|
            {
                let values = column(rows, field);
                &&& values.contains(v)
                &&& 100 * values.filter(
                    |x: Tree| rank(x.double()->0) < rank(v.double()->0),
                ).len() < p * values.len()
                &&& 100 * values.filter(
                    |x: Tree| rank(x.double()->0) <= rank(v.double()->0),
                ).len() >= p * values.len()
                &&& answer(rows, query) == Some(
                    DigestView::Line(
                        "[index] "@ + (if p == 50 {
                            "median"@
                        } else {
                            "p"@ + decimal(p)
                        }) + "("@ + field + ") over "@ + decimal(rows.len()) + " records = "@ +
                            #[trigger] v.printed(),
                    ),
                )
            },
{
    crate::intent::law_percentile_range(ascii_lower(query));
    let values = column(rows, field);
    law_clean_field(rows, field);
    law_percentile_value(values, p);
    let v = percentile_value(values, p);
    assert(v.printed() == v.printed());
}

/// Whatever is not answered about a group or a superlative is answered by its
/// words: a sum or mean, then a percentile, then a range, then a count.
pub proof fn law_answer_by_words(rows: Seq<Tree>, query: Seq<char>)
    ensures
        first_fields(rows) is None ==> answer(rows, query) is None,
        first_fields(rows) is Some ==> {
            let q = ascii_lower(query);
            let fields = first_fields(rows)->0;
            let total = contains_text(q, "sum"@) || contains_text(q, "total"@) || contains_text(
                q,
                "average"@,
            ) || contains_text(q, "mean"@);
            let plain = extreme_group(rows, q) is None && superlative(rows, q) is None;
            &&& extreme_group(rows, q) is Some ==> answer(rows, query) == Some(
                DigestView::Groups(extreme_group(rows, q)->0),
            )
            &&& extreme_group(rows, q) is None && superlative(rows, q) is Some ==> answer(
                rows,
                query,
            ) == Some(DigestView::Line((superlative(rows, q)->0).0))
            &&& plain && total ==> answer(rows, query) == total_answer(rows, fields, q)
            &&& plain && !total && percentile(q) is Some ==> answer(rows, query)
                == percentile_answer(rows, fields, q, percentile(q)->0)
            &&& plain && !total && percentile(q) is None && contains_text(q, "range"@) ==> answer(
                rows,
                query,
            ) == range_answer(rows, fields, q)
            &&& plain && !total && percentile(q) is None && !contains_text(q, "range"@) ==> answer(
                rows,
                query,
            ) == (match count_answer(rows, q) {
                Some(line) => Some(DigestView::Line(line)),
                None => None,
            })
        },
{
}

/// A sum or mean ranges over the doubles of every record that has the field and,
/// where the question names a value of a string field, that value; the answer
/// says how many they are.
pub proof fn law_total_answer(
    rows: Seq<Tree>,
    fields: Seq<(Seq<char>, Tree)>,
    q: Seq<char>,
    field: Seq<char>,
    by: Seq<char>,
    value: Seq<char>,
)
    requires
        first_field(fields, q, true, true) == Some(field),
        clean_numeric(rows, field),
    ensures
        ({
            let word = if contains_text(q, "average"@) || contains_text(q, "mean"@) {
                "mean"@
            } else {
                "sum"@
            };
            let all = rows.filter(|r: Tree| r.get(field) is Some).map_values(
                |r: Tree| r.get(field)->0.double()->0,
            );
            let some = rows.filter(
                |r: Tree| r.get(field) is Some && r.get(by) == Some(Tree::Text(value)),
            ).map_values(|r: Tree| r.get(field)->0.double()->0);
            &&& filter_of(rows, fields, q) is None ==> total_answer(rows, fields, q) == Some(
                DigestView::Total {
                    lead: "[index] "@ + word + "("@ + field + ") over "@ + decimal(all.len())
                        + " records = "@,
                    values: all,
                    mean: contains_text(q, "average"@) || contains_text(q, "mean"@),
                },
            )
            &&& filter_of(rows, fields, q) == Some((by, value)) ==> total_answer(rows, fields, q)
                == (if some.len() == 0 {
                None
            } else {
                Some(
                    DigestView::Total {
                        lead: "[index] "@ + word + "("@ + field + " where "@ + by + "="@ + value
                            + ") over "@ + decimal(some.len()) + " records = "@,
                        values: some,
                        mean: contains_text(q, "average"@) || contains_text(q, "mean"@),
                    },
                )
            })
        }),
{
    law_clean_field(rows, field);
    let all = rows.filter(|r: Tree| r.get(field) is Some).map_values(
        |r: Tree| r.get(field)->0.double()->0,
    );
    lemma_filtered_all(rows, field);
    lemma_filtered_by(rows, field, by, value);
    if filter_of(rows, fields, q) is None {
        let i = choose|i: int| 0 <= i < rows.len() && (#[trigger] rows[i]).get(field) is Some;
        lemma_filter_has(rows, field, i);
        let word = if asks_mean(q) {
            "mean"@
        } else {
            "sum"@
        };
        assert("[index] "@ + word + "("@ + field + filter_text(None) + ") over "@ =~= "[index] "@
            + word + "("@ + field + ") over "@);
    }
    if filter_of(rows, fields, q) == Some((by, value)) {
        let some = filtered_doubles(rows, field, Some((by, value)));
        let word = if asks_mean(q) {
            "mean"@
        } else {
            "sum"@
        };
        assert("[index] "@ + word + "("@ + field + filter_text(Some((by, value))) + ") over "@
            =~= "[index] "@ + word + "("@ + field + " where "@ + by + "="@ + value + ") over "@);
    }
}

proof fn lemma_filter_has(rows: Seq<Tree>, field: Seq<char>, i: int)
    requires
        0 <= i < rows.len(),
        rows[i].get(field) is Some,
    ensures
        rows.filter(|r: Tree| r.get(field) is Some).len() > 0,
    decreases rows.len(),
{
    reveal(Seq::filter);
    if i < rows.len() - 1 {
        assert(rows.drop_last()[i] == rows[i]);
        lemma_filter_has(rows.drop_last(), field, i);
    }
}

proof fn lemma_filtered_all(rows: Seq<Tree>, field: Seq<char>)
    requires
        forall|i: int|
            0 <= i < rows.len() && (#[trigger] rows[i]).get(field) is Some ==> rows[i].get(
                field,
            )->0.double() is Some,
    ensures
        filtered_doubles(rows, field, None) == rows.filter(
            |r: Tree| r.get(field) is Some,
        ).map_values(|r: Tree| r.get(field)->0.double()->0),
    decreases rows.len(),
{
    reveal(Seq::filter);
    if rows.len() > 0 {
        let before = rows.drop_last();
        assert(forall|i: int| 0 <= i < before.len() ==> #[trigger] before[i] == rows[i]);
        lemma_filtered_all(before, field);
        assert(rows[rows.len() - 1] == rows.last());
    }
    assert(filtered_doubles(rows, field, None) =~= rows.filter(
        |r: Tree| r.get(field) is Some,
    ).map_values(|r: Tree| r.get(field)->0.double()->0));
}

proof fn lemma_filtered_by(rows: Seq<Tree>, field: Seq<char>, by: Seq<char>, value: Seq<char>)
    requires
        forall|i: int|
            0 <= i < rows.len() && (#[trigger] rows[i]).get(field) is Some ==> rows[i].get(
                field,
            )->0.double() is Some,
    ensures
        filtered_doubles(rows, field, Some((by, value))) == rows.filter(
            |r: Tree| r.get(field) is Some && r.get(by) == Some(Tree::Text(value)),
        ).map_values(|r: Tree| r.get(field)->0.double()->0),
    decreases rows.len(),
{
    reveal(Seq::filter);
    if rows.len() > 0 {
        let before = rows.drop_last();
        assert(forall|i: int| 0 <= i < before.len() ==> #[trigger] before[i] == rows[i]);
        lemma_filtered_by(before, field, by, value);
        assert(rows[rows.len() - 1] == rows.last());
        let row = rows.last();
        if row.get(by) is Some {
            law_scalars(row.get(by)->0, value);
        }
    }
    assert(filtered_doubles(rows, field, Some((by, value))) =~= rows.filter(
        |r: Tree| r.get(field) is Some && r.get(by) == Some(Tree::Text(value)),
    ).map_values(|r: Tree| r.get(field)->0.double()->0));
}

/// The value that a sum or count is limited to is the first of the string field's
/// distinct values that the question names.
pub proof fn law_named_value(list: Seq<Seq<char>>, q: Seq<char>, i: int)
    ensures
        0 <= i < list.len() && contains_text(q, ascii_lower(list[i])) && (forall|k: int|
            0 <= k < i ==> !contains_text(q, ascii_lower(#[trigger] list[k]))) ==> first_named(
            list,
            q,
        ) == Some(list[i]),
        (forall|k: int| 0 <= k < list.len() ==> !contains_text(q, ascii_lower(#[trigger] list[k])))
            ==> first_named(list, q) is None,
    decreases list.len(),
{
    if list.len() > 0 {
        let rest = list.skip(1);
        assert(forall|k: int| 0 <= k < rest.len() ==> #[trigger] rest[k] == list[k + 1]);
        law_named_value(rest, q, i - 1);
        assert(list[0] == list.first());
    }
}

/// The value that a sum is limited to: of the first string field that the question
/// names, the first distinct value that it names.
pub proof fn law_filter(rows: Seq<Tree>, fields: Seq<(Seq<char>, Tree)>, q: Seq<char>)
    ensures
        first_field(fields, q, false, true) is None ==> filter_of(rows, fields, q) is None,
        first_field(fields, q, false, true) is Some ==> {
            let by = first_field(fields, q, false, true)->0;
            let value = first_named(distinct(text_column(rows, by)), q);
            filter_of(rows, fields, q) == (match value {
                Some(v) => Some((by, v)),
                None => None,
            })
        },
{
}

/// A range lies between two values of the field that bound every other.
pub proof fn law_range_answer(
    rows: Seq<Tree>,
    fields: Seq<(Seq<char>, Tree)>,
    q: Seq<char>,
    field: Seq<char>,
    i: int,
)
    requires
        first_field(fields, q, true, true) == Some(field),
        clean_numeric(rows, field),
        0 <= i < rows.len(),
        rows[i].get(field) is Some,
    ensures
        exists|low: Tree, high: Tree|
            {
                &&& column(rows, field).contains(low)
                &&& column(rows, field).contains(high)
                &&& rank(low.double()->0) <= rank((rows[i].get(field)->0).double()->0) <= rank(
                    high.double()->0,
                )
                &&& range_answer(rows, fields, q) == Some(
                    DigestView::Range {
                        lead: "[index] range("@ + field + ") over "@ + decimal(rows.len())
                            + " records = "@,
                        low: low.double()->0,
                        high: high.double()->0,
                        tail: " (min "@ + #[trigger] low.printed() + ", max "@ +
                            #[trigger] high.printed() + ")"@,
                    },
                )
            },
{
    let values = column(rows, field);
    crate::superlative::lemma_in_column(rows, field, i);
    let k = choose|k: int| 0 <= k < values.len() && values[k] == rows[i].get(field)->0;
    law_present_and_bounds(values, k);
    let low = least_value(values);
    let high = greatest_value(values);
    assert(low.printed() == low.printed());
    assert(high.printed() == high.printed());
}

/// A count by a threshold is the number of records whose double passes it.
pub proof fn law_threshold_count(
    rows: Seq<Tree>,
    fields: Seq<(Seq<char>, Tree)>,
    q: Seq<char>,
    field: Seq<char>,
    op: Op,
    bits: u64,
    shown: Seq<char>,
)
    requires
        first_field(fields, q, true, true) == Some(field),
        threshold(q) == Some((op, bits, shown)),
    ensures
        clean_numeric(rows, field) ==> threshold_count(rows, fields, q) == Some(
            "[index] count("@ + field + " "@ + op_sign(op) + " "@ + shown + ") over "@ + decimal(
                rows.len(),
            ) + " records = "@ + decimal(
                rows.filter(
                    |r: Tree|
                        r.get(field) is Some && ints_pass(
                            rank((r.get(field)->0).double()->0),
                            op,
                            rank(bits),
                        ),
                ).len(),
            ),
        ),
        !clean_numeric(rows, field) ==> threshold_count(rows, fields, q) is None,
{
    lemma_passing_rows(rows, field, op, bits);
}

proof fn lemma_passing_rows(rows: Seq<Tree>, field: Seq<char>, op: Op, bits: u64)
    ensures
        passing(column(rows, field), op, bits) == rows.filter(
            |r: Tree|
                r.get(field) is Some && ints_pass(
                    rank((r.get(field)->0).double()->0),
                    op,
                    rank(bits),
                ),
        ).len(),
    decreases rows.len(),
{
    reveal(Seq::filter);
    if rows.len() > 0 {
        lemma_passing_rows(rows.drop_last(), field, op, bits);
        let before = column(rows.drop_last(), field);
        if rows.last().get(field) is Some {
            assert(column(rows, field).drop_last() =~= before);
        }
    }
}

/// A count by a value is the number of records with the named string; a count of
/// distinct values is the size of the set of the field's strings.
pub proof fn law_value_count(
    rows: Seq<Tree>,
    fields: Seq<(Seq<char>, Tree)>,
    q: Seq<char>,
    field: Seq<char>,
    value: Seq<char>,
)
    requires
        first_field(fields, q, false, true) == Some(field),
    ensures
        ({
            let several = contains_text(q, "distinct"@) || contains_text(q, "unique"@)
                || contains_text(q, "different"@);
            let list = text_column(rows, field);
            &&& several ==> value_count(rows, fields, q) == Some(
                "[index] distinct("@ + field + ") over "@ + decimal(rows.len()) + " records = "@
                    + decimal(list.to_set().len()) + " values"@,
            )
            &&& !several && first_named(distinct(list), q) == Some(value) ==> value_count(
                rows,
                fields,
                q,
            ) == Some(
                "[index] count("@ + field + "=\""@ + value + "\") over "@ + decimal(rows.len())
                    + " records = "@ + decimal(
                    rows.filter(|r: Tree| r.get(field) == Some(Tree::Text(value))).len(),
                ),
            )
            &&& !several && first_named(distinct(list), q) is None ==> value_count(rows, fields, q)
                is None
        }),
{
    law_occurrences(text_column(rows, field), value);
    lemma_occurrences_in_rows(rows, field, value);
}

proof fn lemma_occurrences_in_rows(rows: Seq<Tree>, field: Seq<char>, value: Seq<char>)
    ensures
        occurrences(text_column(rows, field), value) == rows.filter(
            |r: Tree| r.get(field) == Some(Tree::Text(value)),
        ).len(),
    decreases rows.len(),
{
    reveal(Seq::filter);
    if rows.len() > 0 {
        lemma_occurrences_in_rows(rows.drop_last(), field, value);
        let before = text_column(rows.drop_last(), field);
        match rows.last().get(field) {
            Some(Tree::Text(s)) => {
                assert(text_column(rows, field).drop_last() =~= before);
            },
            _ => {},
        }
    }
}

/// A question of how many is answered by a threshold, else by a value, else, where
/// it speaks of records, by the number of all records.
pub proof fn law_count_answer(rows: Seq<Tree>, q: Seq<char>)
    ensures
        ({
            let asked = (contains_text(q, "how many"@) || contains_text(q, "number of"@))
                && first_fields(rows) is Some;
            let fields = first_fields(rows)->0;
            let of_records = contains_text(q, "record"@) || contains_text(q, "item"@)
                || contains_text(q, "entr"@) || contains_text(q, "element"@) || contains_text(
                q,
                "object"@,
            ) || contains_text(q, "array"@) || contains_text(q, "in total"@) || contains_text(
                q,
                "are there"@,
            );
            &&& !asked ==> count_answer(rows, q) is None
            &&& asked && threshold_count(rows, fields, q) is Some ==> count_answer(rows, q)
                == threshold_count(rows, fields, q)
            &&& asked && threshold_count(rows, fields, q) is None && value_count(rows, fields, q)
                is Some ==> count_answer(rows, q) == value_count(rows, fields, q)
            &&& asked && threshold_count(rows, fields, q) is None && value_count(rows, fields, q)
                is None ==> count_answer(rows, q) == (if of_records {
                Some(
                    "[index] count over "@ + decimal(rows.len()) + " records = "@ + decimal(
                        rows.len(),
                    ),
                )
            } else {
                None
            })
        }),
{
    let words = record_words();
    assert(words[0]@ == "record"@);
    assert(words[1]@ == "item"@);
    assert(words[2]@ == "entr"@);
    assert(words[3]@ == "element"@);
    assert(words[4]@ == "object"@);
    assert(words[5]@ == "array"@);
    assert(words[6]@ == "in total"@);
    assert(words[7]@ == "are there"@);
}

/// A question across several inputs is over the records of each, in order.
pub proof fn law_union(inputs: Seq<&[u8]>, input: &[u8])
    ensures
        union_of(Seq::empty()) == Seq::<Tree>::empty(),
        rows_of(input@) is Some ==> union_of(inputs.push(input)) == union_of(inputs) + rows_of(
            input@,
        )->0,
        rows_of(input@) is None ==> union_of(inputs.push(input)) == union_of(inputs),
{
    assert(inputs.push(input).drop_last() =~= inputs);
    assert(union_of(inputs) + Seq::<Tree>::empty() =~= union_of(inputs));
}

/// Bytes are cut into lines at every line feed.
pub proof fn law_byte_lines(a: Seq<u8>, b: Seq<u8>)
    ensures
        byte_lines(a.push(0xa) + b) == byte_lines(a) + byte_lines(b),
        (forall|i: int| 0 <= i < a.len() ==> #[trigger] a[i] != 0xa) ==> byte_lines(a) == seq![a],
{
    lemma_lines_apart(a, b);
    if forall|i: int| 0 <= i < a.len() ==> #[trigger] a[i] != 0xa {
        lemma_one_line(a);
    }
}

proof fn lemma_lines_some(s: Seq<u8>)
    ensures
        byte_lines(s).len() > 0,
    decreases s.len(),
{
    if s.len() > 0 {
        lemma_lines_some(s.drop_last());
    }
}

proof fn lemma_lines_apart(a: Seq<u8>, b: Seq<u8>)
    ensures
        byte_lines(a.push(0xa) + b) == byte_lines(a) + byte_lines(b),
    decreases b.len(),
{
    lemma_lines_some(a);
    lemma_lines_some(b);
    let all = a.push(0xa) + b;
    if b.len() == 0 {
        assert(all =~= a.push(0xa));
        assert(all.drop_last() =~= a);
        assert(byte_lines(all) =~= byte_lines(a) + byte_lines(b));
    } else {
        lemma_lines_apart(a, b.drop_last());
        lemma_lines_some(b.drop_last());
        assert(all.drop_last() =~= a.push(0xa) + b.drop_last());
        assert(all.last() == b.last());
        assert(byte_lines(all) =~= byte_lines(a) + byte_lines(b));
    }
}

proof fn lemma_one_line(a: Seq<u8>)
    requires
        forall|i: int| 0 <= i < a.len() ==> #[trigger] a[i] != 0xa,
    ensures
        byte_lines(a) == seq![a],
    decreases a.len(),
{
    if a.len() > 0 {
        let before = a.drop_last();
        assert(forall|i: int| 0 <= i < before.len() ==> #[trigger] before[i] == a[i]);
        lemma_one_line(before);
        assert(a[a.len() - 1] != 0xa);
        assert(before.push(a.last()) =~= a);
        assert(byte_lines(a) =~= seq![a]);
    } else {
        assert(a =~= Seq::empty());
    }
}

/// The records of a log in JSON lines are what its lines that are not blank read
/// as, every one that can be read. It is one if at least four in five of those
/// lines can be read.
pub proof fn law_ndjson_records(input: Seq<u8>)
    ensures
        ({
            let filled = byte_lines(input).filter(|l: Seq<u8>| !blank(l));
            let read = filled.filter(|l: Seq<u8>| json_of_bytes(l) is Some);
            ndjson_records(input) == (if read.len() > 0 && 5 * read.len() >= 4 * filled.len() {
                Some(read.map_values(|l: Seq<u8>| json_of_bytes(l)->0))
            } else {
                None
            })
        }),
{
    lemma_line_records(byte_lines(input));
}

proof fn lemma_line_records(ls: Seq<Seq<u8>>)
    ensures
        line_records(ls).0 == ls.filter(|l: Seq<u8>| !blank(l)).filter(
            |l: Seq<u8>| json_of_bytes(l) is Some,
        ).map_values(|l: Seq<u8>| json_of_bytes(l)->0),
        line_records(ls).1 == ls.filter(|l: Seq<u8>| !blank(l)).len(),
    decreases ls.len(),
{
    reveal(Seq::filter);
    let full = |l: Seq<u8>| !blank(l);
    let good = |l: Seq<u8>| json_of_bytes(l) is Some;
    if ls.len() > 0 {
        let before = ls.drop_last();
        lemma_line_records(before);
        if full(ls.last()) {
            assert(ls.filter(full).drop_last() =~= before.filter(full));
        }
    }
    assert(line_records(ls).0 =~= ls.filter(|l: Seq<u8>| !blank(l)).filter(
        |l: Seq<u8>| json_of_bytes(l) is Some,
    ).map_values(|l: Seq<u8>| json_of_bytes(l)->0));
}

/// A line is blank if it holds nothing but blanks, tabs, line and form feeds and
/// carriage returns.
pub proof fn law_blank(line: Seq<u8>)
    ensures
        blank(line) <==> forall|i: int|
            0 <= i < line.len() ==> (#[trigger] line[i] == 0x20 || line[i] == 0x9 || line[i] == 0xa
                || line[i] == 0xc || line[i] == 0xd),
{
    if blank(line) {
        assert forall|i: int| 0 <= i < line.len() implies (#[trigger] line[i] == 0x20 || line[i]
            == 0x9 || line[i] == 0xa || line[i] == 0xc || line[i] == 0xd) by {
            assert(ascii_white(line[i]));
        }
    }
}

/// An answer over records is the answer over the array of them.
pub proof fn law_answer_over(records: Seq<Tree>, rows: Seq<Tree>, query: Seq<char>)
    ensures
        rows_of(encode_utf8(compact(Tree::Array(records)))) == Some(rows) ==> answer_over(
            records,
            query,
        ) == answer(rows, query),
        rows_of(encode_utf8(compact(Tree::Array(records)))) is None ==> answer_over(records, query)
            is None,
        all_nest_within(records, 126) <==> forall|i: int|
            0 <= i < records.len() ==> nests_within(#[trigger] records[i], 126),
{
}

/// An answer says what its fields say.
pub proof fn law_digest_views(
    lead: String,
    values: Vec<u64>,
    mean: bool,
    low: u64,
    high: u64,
    tail: String,
    groups: GroupExtreme,
)
    ensures
        Digest::Line(lead)@ == DigestView::Line(lead@),
        (Digest::Total { lead, values, mean })@ == (DigestView::Total {
            lead: lead@,
            values: values@,
            mean,
        }),
        (Digest::Range { lead, low, high, tail })@ == (DigestView::Range {
            lead: lead@,
            low,
            high,
            tail: tail@,
        }),
        Digest::Groups(groups)@ == DigestView::Groups(groups@),
{
}

/// A question that has the word percentile and `n` from 1 to 99 as its only number
/// is answered with the value at the `n`th percentile of the field it names: less
/// than `n` of a hundred records with the field are below it, and at least `n` of
/// a hundred are not above it.
pub proof fn law_nth_percentile_answer(
    rows: Seq<Tree>,
    query: Seq<char>,
    a: Seq<char>,
    n: nat,
    b: Seq<char>,
    fields: Seq<(Seq<char>, Tree)>,
    field: Seq<char>,
)
    requires
        1 <= n <= 99,
        ascii_lower(query) == a + decimal(n) + b,
        !contains_text(ascii_lower(query), "median"@),
        contains_text(ascii_lower(query), "percentile"@),
        forall|k: int|
            0 <= k < split(ascii_lower(query), Separator::NotAlnum).len() ==> percent_word(
                #[trigger] split(ascii_lower(query), Separator::NotAlnum)[k],
            ) is None,
        forall|i: int| 0 <= i < a.len() ==> !('0' <= #[trigger] a[i] <= '9'),
        forall|i: int| 0 <= i < b.len() ==> !('0' <= #[trigger] b[i] <= '9'),
        first_fields(rows) == Some(fields),
        extreme_group(rows, ascii_lower(query)) is None,
        superlative(rows, ascii_lower(query)) is None,
        !asks_total(ascii_lower(query)),
        first_field(fields, ascii_lower(query), true, true) == Some(field),
        clean_numeric(rows, field),
    ensures
        exists|v: Tree|
            {
                let values = column(rows, field);
                &&& values.contains(v)
                &&& 100 * values.filter(
                    |x: Tree| rank(x.double()->0) < rank(v.double()->0),
                ).len() < n * values.len()
                &&& 100 * values.filter(
                    |x: Tree| rank(x.double()->0) <= rank(v.double()->0),
                ).len() >= n * values.len()
                &&& answer(rows, query) == Some(
                    DigestView::Line(
                        "[index] "@ + (if n == 50 {
                            "median"@
                        } else {
                            "p"@ + decimal(n)
                        }) + "("@ + field + ") over "@ + decimal(rows.len()) + " records = "@ +
                            #[trigger] v.printed(),
                    ),
                )
            },
{
    law_percentile_number(a, n, b);
    law_percentile_answer(rows, query, fields, field, n);
}

/// The value at a percentile is the one that stands, among the values in the order
/// of their doubles, at `p` hundredths of their number, rounded up.
pub proof fn law_percentile_rank(values: Seq<Tree>, p: nat, r: int)
    requires
        values.len() > 0,
        1 <= p <= 99,
        100 * (r - 1) < p * values.len() <= 100 * r,
    ensures
        ({
            let keys = values.map_values(
                |v: Tree| (rank(v.double()->0), Seq::<char>::empty()),
            );
            percentile_value(values, p) == values[sorted_order(keys)[r - 1]]
        }),
{
    law_nearest_rank(p, values.len());
    let keys = values.map_values(|v: Tree| (rank(v.double()->0), Seq::<char>::empty()));
    assert(Seq::new(
        values.len(),
        |i: int| (rank(values[i].double()->0), Seq::<char>::empty()),
    ) =~= keys);
}

} // verus!
