//! A summary of the fields of a record set.
use crate::column::{column, distinct, in_list, law_distinct, law_occurrences};
use crate::json::{compact, field_trees, law_field_lookup, rank, trees, Json, Tree};
use crate::op::rank_of;
use crate::order::{ints, key_views, law_sorting, sorted_order, sorted_order_of, SortKey};
use crate::query::{parse_rows, rows_of};
use crate::text::{
    chars_of, copy_all, decimal, decimal_of, join, join_of, same_text, text_lt, texts,
};
use vstd::prelude::*;

verus! {

/// Fields with more distinct values are not broken down.
pub const MAX_CATEGORICAL: usize = 12;

// ---------------------------------------------------------------------------
// Fields and their values
// ---------------------------------------------------------------------------

/// The fields of all records that are objects, record by record.
pub open spec fn all_fields(rows: Seq<Tree>) -> Seq<(Seq<char>, Tree)>
    decreases rows.len(),
{
    if rows.len() == 0 {
        Seq::empty()
    } else {
        all_fields(rows.drop_last()) + match rows.last() {
            Tree::Object(fields) => fields,
            _ => Seq::empty(),
        }
    }
}

/// The names of the fields, in the order in which they are first seen.
pub open spec fn field_list(pairs: Seq<(Seq<char>, Tree)>) -> Seq<Seq<char>>
    decreases pairs.len(),
{
    if pairs.len() == 0 {
        Seq::empty()
    } else {
        let before = field_list(pairs.drop_last());
        if before.contains(pairs.last().0) {
            before
        } else {
            before.push(pairs.last().0)
        }
    }
}

/// The values of one field, in order.
pub open spec fn values_of(pairs: Seq<(Seq<char>, Tree)>, name: Seq<char>) -> Seq<Tree>
    decreases pairs.len(),
{
    if pairs.len() == 0 {
        Seq::empty()
    } else if pairs.last().0 == name {
        values_of(pairs.drop_last(), name).push(pairs.last().1)
    } else {
        values_of(pairs.drop_last(), name)
    }
}

/// Every value is a number that is a finite double.
pub open spec fn all_doubles(values: Seq<Tree>) -> bool {
    forall|i: int| 0 <= i < values.len() ==> (#[trigger] values[i]).double() is Some
}

/// The values that are not null.
pub open spec fn present(values: Seq<Tree>) -> Seq<Tree>
    decreases values.len(),
{
    if values.len() == 0 {
        Seq::empty()
    } else if values.last() is Null {
        present(values.drop_last())
    } else {
        present(values.drop_last()).push(values.last())
    }
}

/// What a value is counted under: its type and its compact text.
pub open spec fn kind_of(v: Tree) -> int {
    match v {
        Tree::Null => 0,
        Tree::Bool(_) => 1,
        Tree::Number(_) => 2,
        Tree::Text(_) => 3,
        Tree::Array(_) => 4,
        Tree::Object(_) => 4,
    }
}

/// Two values are counted together: strings with the same text, numbers
/// written the same, the same truth value, containers with the same text.
pub open spec fn counted_together(a: Tree, b: Tree) -> bool {
    kind_of(a) == kind_of(b) && match (a, b) {
        (Tree::Text(x), Tree::Text(y)) => x == y,
        _ => compact(a) == compact(b),
    }
}

/// A value of the list counts together with `v`.
pub open spec fn has_like(seen: Seq<(Tree, nat)>, v: Tree) -> bool {
    exists|i: int| 0 <= i < seen.len() && counted_together((#[trigger] seen[i]).0, v)
}

/// The position of the first value of the list that counts together with `v`.
pub open spec fn like_at(seen: Seq<(Tree, nat)>, v: Tree) -> int
    decreases seen.len(),
{
    if seen.len() == 0 {
        0
    } else if has_like(seen.drop_last(), v) {
        like_at(seen.drop_last(), v)
    } else {
        seen.len() - 1
    }
}

/// The distinct values in the order in which they are first seen, each with the
/// number of times it occurs.
pub open spec fn counts(values: Seq<Tree>) -> Seq<(Tree, nat)>
    decreases values.len(),
{
    if values.len() == 0 {
        Seq::empty()
    } else {
        let before = counts(values.drop_last());
        let v = values.last();
        if has_like(before, v) {
            let at = like_at(before, v);
            before.update(at, (before[at].0, before[at].1 + 1))
        } else {
            before.push((v, 1))
        }
    }
}

/// The first value of least rank.
pub open spec fn least_value(values: Seq<Tree>) -> Tree
    decreases values.len(),
{
    if values.len() <= 1 {
        values[0]
    } else {
        let before = least_value(values.drop_last());
        if rank(values.last().double()->0) < rank(before.double()->0) {
            values.last()
        } else {
            before
        }
    }
}

/// The first value of greatest rank.
pub open spec fn greatest_value(values: Seq<Tree>) -> Tree
    decreases values.len(),
{
    if values.len() <= 1 {
        values[0]
    } else {
        let before = greatest_value(values.drop_last());
        if rank(values.last().double()->0) > rank(before.double()->0) {
            values.last()
        } else {
            before
        }
    }
}

/// The bits of the values.
pub open spec fn doubles(values: Seq<Tree>) -> Seq<u64> {
    Seq::new(values.len(), |i: int| values[i].double()->0)
}

// ---------------------------------------------------------------------------
// The lines
// ---------------------------------------------------------------------------

/// The order of the breakdown: the most frequent value first, then by text.
pub open spec fn breakdown_keys(found: Seq<(Tree, nat)>) -> Seq<(int, Seq<char>)> {
    Seq::new(found.len(), |i: int| (-(found[i].1 as int), compact(found[i].0)))
}

/// One value with its number of occurrences.
pub open spec fn count_text(entry: (Tree, nat)) -> Seq<char> {
    compact(entry.0) + ":"@ + decimal(entry.1)
}

/// The distinct values with their numbers of occurrences.
pub open spec fn breakdown_text(found: Seq<(Tree, nat)>) -> Seq<char> {
    let order = sorted_order(breakdown_keys(found));
    join(Seq::new(found.len(), |i: int| count_text(found[order[i]])), ", "@)
}

/// The line of one field: complete, or up to the mean and the sum of the
/// given doubles.
pub enum LineView {
    Text(Seq<char>),
    Numeric { lead: Seq<char>, values: Seq<u64> },
}

/// The beginning of the line of a field.
pub open spec fn presence_text(
    name: Seq<char>,
    kind: Seq<char>,
    present: nat,
    distinct: nat,
) -> Seq<char> {
    "  "@ + name + kind + "present="@ + decimal(present) + " distinct="@ + decimal(distinct)
}

/// The line of a field with these values.
pub open spec fn line_of(name: Seq<char>, values: Seq<Tree>) -> LineView {
    let there = present(values);
    let found = counts(there);
    if all_doubles(values) && values.len() > 0 {
        LineView::Numeric {
            lead: presence_text(name, ": number "@, there.len(), found.len()) + " min="@
                + least_value(values).printed() + " max="@ + greatest_value(values).printed()
                + " mean="@,
            values: doubles(values),
        }
    } else if found.len() <= MAX_CATEGORICAL && found.len() < there.len() {
        LineView::Text(
            presence_text(name, ": "@, there.len(), found.len()) + " — "@ + breakdown_text(found),
        )
    } else {
        LineView::Text(presence_text(name, ": "@, there.len(), found.len()))
    }
}

/// The description of a record set: its first line, and a line for each field.
pub struct DescriptionView {
    pub head: Seq<char>,
    pub lines: Seq<LineView>,
}

/// The description of records: nothing where none of them is an object.
pub open spec fn description_of(rows: Seq<Tree>) -> Option<DescriptionView> {
    let pairs = all_fields(rows);
    let names = field_list(pairs);
    if rows.len() == 0 {
        Some(DescriptionView { head: "[describe] 0 records"@, lines: Seq::empty() })
    } else if exists|i: int| 0 <= i < rows.len() && (#[trigger] rows[i]) is Object {
        Some(
            DescriptionView {
                head: "[describe] "@ + decimal(rows.len()) + " records, "@ + decimal(names.len())
                    + " fields"@,
                lines: Seq::new(names.len(), |i: int| line_of(names[i], values_of(pairs, names[i]))),
            },
        )
    } else {
        None
    }
}

/// The line of one field.
#[derive(Debug, PartialEq, Eq)]
pub enum DescribeLine {
    /// A complete line.
    Text(String),
    /// A line up to the mean and the sum.
    Numeric {
        /// The line up to the mean.
        lead: String,
        /// The doubles to sum, by their bits.
        values: Vec<u64>,
    },
}

impl View for DescribeLine {
    type V = LineView;

    open spec fn view(&self) -> LineView {
        match *self {
            DescribeLine::Text(s) => LineView::Text(s@),
            DescribeLine::Numeric { lead, values } => LineView::Numeric {
                lead: lead@,
                values: values@,
            },
        }
    }
}

impl DescribeLine {
    /// A copy of the line.
    pub fn copy(&self) -> (out: DescribeLine)
        ensures
            out@ == self@,
    {
        match self {
            DescribeLine::Text(s) => DescribeLine::Text(s.clone()),
            DescribeLine::Numeric { lead, values } => DescribeLine::Numeric {
                lead: lead.clone(),
                values: copy_all(values.as_slice()),
            },
        }
    }
}

/// The lines as plain values.
pub open spec fn line_views(lines: Seq<DescribeLine>) -> Seq<LineView> {
    Seq::new(lines.len(), |i: int| lines[i]@)
}

/// The description of a record set: everything but the means and sums.
#[derive(Debug, PartialEq, Eq)]
pub struct Description {
    /// The first line.
    pub head: String,
    /// The line of each field.
    pub lines: Vec<DescribeLine>,
}

impl View for Description {
    type V = DescriptionView;

    open spec fn view(&self) -> DescriptionView {
        DescriptionView { head: self.head@, lines: line_views(self.lines@) }
    }
}

/// The text of a line, given the texts of the mean and the sum.
pub open spec fn finished_line(line: LineView, mean: Seq<char>, sum: Seq<char>) -> Seq<char> {
    match line {
        LineView::Text(s) => s,
        LineView::Numeric { lead, .. } => lead + mean + " sum="@ + sum,
    }
}

/// The text of the mean and of the sum of one field.
#[derive(Debug)]
pub struct Totals {
    /// The mean.
    pub mean: String,
    /// The sum.
    pub sum: String,
}

impl Description {
    /// A copy of the description.
    pub fn copy(&self) -> (out: Description)
        ensures
            out@ == self@,
    {
        let mut lines: Vec<DescribeLine> = Vec::new();
        let mut i: usize = 0;
        while i < self.lines.len()
            invariant
                i <= self.lines@.len(),
                lines@.len() == i,
                forall|k: int| 0 <= k < i ==> (#[trigger] lines@[k])@ == self.lines@[k]@,
            decreases self.lines@.len() - i,
        {
            lines.push(self.lines[i].copy());
            i += 1;
        }
        assert(line_views(lines@) =~= line_views(self.lines@));
        Description { head: self.head.clone(), lines }
    }

    /// The description as text, given the mean and the sum of each field; those
    /// of a field that has none are passed over.
    pub fn finish(&self, totals: &[Totals]) -> (out: String)
        requires
            totals@.len() == self.lines@.len(),
        ensures
            out@ == join(
                seq![self.head@] + Seq::new(
                    totals@.len(),
                    |i: int| finished_line(self.lines@[i]@, totals@[i].mean@, totals@[i].sum@),
                ),
                "\n"@,
            ),
    {
        let mut parts: Vec<String> = Vec::new();
        parts.push(self.head.clone());
        let mut i: usize = 0;
        while i < self.lines.len()
            invariant
                i <= self.lines@.len() == totals@.len(),
                parts@.len() == i + 1,
                parts@[0]@ == self.head@,
                forall|k: int|
                    1 <= k <= i ==> (#[trigger] parts@[k])@ == finished_line(
                        self.lines@[k - 1]@,
                        totals@[k - 1].mean@,
                        totals@[k - 1].sum@,
                    ),
            decreases self.lines@.len() - i,
        {
            match &self.lines[i] {
                DescribeLine::Text(s) => {
                    parts.push(s.clone());
                },
                DescribeLine::Numeric { lead, .. } => {
                    parts.push(
                        lead.clone().concat(totals[i].mean.as_str()).concat(" sum=").concat(
                            totals[i].sum.as_str(),
                        ),
                    );
                },
            }
            i += 1;
        }
        assert(texts(parts@) =~= seq![self.head@] + Seq::new(
            totals@.len(),
            |k: int| finished_line(self.lines@[k]@, totals@[k].mean@, totals@[k].sum@),
        ));
        join_of(parts.as_slice(), "\n")
    }
}

// ---------------------------------------------------------------------------
// Computing it
// ---------------------------------------------------------------------------

/// One field of one record, borrowed.
pub(crate) struct FieldRef<'a> {
    pub(crate) name: &'a str,
    pub(crate) value: &'a Json,
}

/// The borrowed fields as plain values.
pub(crate) open spec fn ref_views(refs: Seq<FieldRef>) -> Seq<(Seq<char>, Tree)> {
    Seq::new(refs.len(), |i: int| (refs[i].name@, refs[i].value@))
}

pub(crate) fn collect_fields(rows: &[Json]) -> (out: Vec<FieldRef<'_>>)
    ensures
        ref_views(out@) == all_fields(trees(rows@)),
{
    let ghost ts = trees(rows@);
    let mut out: Vec<FieldRef> = Vec::new();
    let mut i: usize = 0;
    assert(ref_views(out@) =~= Seq::empty());
    assert(ts.take(0) =~= Seq::empty());
    while i < rows.len()
        invariant
            i <= rows@.len(),
            ts == trees(rows@),
            ref_views(out@) == all_fields(ts.take(i as int)),
        decreases rows@.len() - i,
    {
        let ghost next = ts.take(i as int + 1);
        let ghost before = ref_views(out@);
        assert(next.drop_last() =~= ts.take(i as int));
        assert(next.last() == rows@[i as int]@);
        match &rows[i] {
            Json::Object(fields) => {
                let ghost fs = field_trees(fields@);
                let mut k: usize = 0;
                assert(before + fs.take(0) =~= before);
                while k < fields.len()
                    invariant
                        k <= fields@.len(),
                        fs == field_trees(fields@),
                        ref_views(out@) == before + fs.take(k as int),
                    decreases fields@.len() - k,
                {
                    let ghost held = ref_views(out@);
                    out.push(FieldRef { name: fields[k].0.as_str(), value: &fields[k].1 });
                    assert(ref_views(out@) =~= held.push(fs[k as int]));
                    assert(before + fs.take(k as int + 1) =~= (before + fs.take(k as int)).push(
                        fs[k as int],
                    ));
                    k += 1;
                }
                assert(fs.take(k as int) =~= fs);
            },
            _ => {
                assert(before + Seq::<(Seq<char>, Tree)>::empty() =~= before);
            },
        }
        i += 1;
    }
    assert(ts.take(i as int) =~= ts);
    out
}


pub(crate) fn list_fields(refs: &[FieldRef]) -> (out: Vec<String>)
    ensures
        texts(out@) == field_list(ref_views(refs@)),
{
    let ghost pairs = ref_views(refs@);
    let mut out: Vec<String> = Vec::new();
    let mut i: usize = 0;
    assert(texts(out@) =~= Seq::empty());
    while i < refs.len()
        invariant
            i <= refs@.len(),
            pairs == ref_views(refs@),
            texts(out@) == field_list(pairs.take(i as int)),
        decreases refs@.len() - i,
    {
        assert(pairs.take(i as int + 1).drop_last() =~= pairs.take(i as int));
        let name = refs[i].name;
        if !in_list(out.as_slice(), name) {
            let ghost before = texts(out@);
            out.push(name.to_owned());
            assert(texts(out@) =~= before.push(name@));
        }
        i += 1;
    }
    assert(pairs.take(i as int) =~= pairs);
    out
}

/// The borrowed values as plain values.
pub open spec fn value_views(values: Seq<&Json>) -> Seq<Tree> {
    Seq::new(values.len(), |i: int| values[i]@)
}

pub(crate) fn list_values<'a>(refs: &[FieldRef<'a>], name: &str) -> (out: Vec<&'a Json>)
    ensures
        value_views(out@) == values_of(ref_views(refs@), name@),
{
    let ghost pairs = ref_views(refs@);
    let mut out: Vec<&'a Json> = Vec::new();
    let mut i: usize = 0;
    assert(value_views(out@) =~= Seq::empty());
    while i < refs.len()
        invariant
            i <= refs@.len(),
            pairs == ref_views(refs@),
            value_views(out@) == values_of(pairs.take(i as int), name@),
        decreases refs@.len() - i,
    {
        assert(pairs.take(i as int + 1).drop_last() =~= pairs.take(i as int));
        if same_text(refs[i].name, name) {
            let ghost before = value_views(out@);
            let value = refs[i].value;
            out.push(value);
            assert(value_views(out@) =~= before.push(value@));
        }
        i += 1;
    }
    assert(pairs.take(i as int) =~= pairs);
    out
}

/// A distinct value with its text and its number of occurrences.
struct Tally<'a> {
    value: &'a Json,
    text: String,
    times: usize,
}

spec fn tally_views(tallies: Seq<Tally>) -> Seq<(Tree, nat)> {
    Seq::new(tallies.len(), |i: int| (tallies[i].value@, tallies[i].times as nat))
}

fn kind(value: &Json) -> (k: u8)
    ensures
        k == kind_of(value@),
{
    match value {
        Json::Null => 0,
        Json::Bool(_) => 1,
        Json::Number(_) => 2,
        Json::Text(_) => 3,
        Json::Array(_) => 4,
        Json::Object(_) => 4,
    }
}

fn same_tally(tally: &Tally, value: &Json, text: &str) -> (r: bool)
    requires
        tally.text@ == compact(tally.value@),
        text@ == compact(value@),
    ensures
        r == counted_together(tally.value@, value@),
{
    if kind(tally.value) != kind(value) {
        return false;
    }
    if let Json::Text(x) = tally.value {
        if let Json::Text(y) = value {
            return same_text(x.as_str(), y.as_str());
        }
    }
    same_text(tally.text.as_str(), text)
}

proof fn lemma_like_at(seen: Seq<(Tree, nat)>, v: Tree, at: int)
    requires
        0 <= at < seen.len(),
        counted_together(seen[at].0, v),
        forall|k: int| 0 <= k < at ==> !counted_together((#[trigger] seen[k]).0, v),
    ensures
        like_at(seen, v) == at,
    decreases seen.len(),
{
    let before = seen.drop_last();
    assert(forall|k: int| 0 <= k < before.len() ==> #[trigger] before[k] == seen[k]);
    if at < before.len() {
        assert(counted_together(before[at].0, v));
        lemma_like_at(before, v, at);
    } else {
        assert(!has_like(before, v));
    }
}

/// Counts the distinct values among those that are not null. Gives the tallies
/// and how many values are not null.
fn count_values<'a>(values: &Vec<&'a Json>) -> (out: (Vec<Tally<'a>>, usize))
    ensures
        tally_views(out.0@) == counts(present(value_views(values@))),
        out.1 == present(value_views(values@)).len(),
        forall|k: int|
            0 <= k < out.0@.len() ==> (#[trigger] out.0@[k]).text@ == compact(out.0@[k].value@),
{
    let ghost vs = value_views(values@);
    let mut tallies: Vec<Tally<'a>> = Vec::new();
    let mut there: usize = 0;
    let mut i: usize = 0;
    assert(tally_views(tallies@) =~= Seq::empty());
    while i < values.len()
        invariant
            i <= values@.len(),
            vs == value_views(values@),
            there <= i,
            there == present(vs.take(i as int)).len(),
            tally_views(tallies@) == counts(present(vs.take(i as int))),
            forall|k: int|
                0 <= k < tallies@.len() ==> (#[trigger] tallies@[k]).text@ == compact(
                    tallies@[k].value@,
                ),
            forall|k: int| 0 <= k < tallies@.len() ==> (#[trigger] tallies@[k]).times <= there,
        decreases values@.len() - i,
    {
        assert(vs.take(i as int + 1).drop_last() =~= vs.take(i as int));
        let value: &'a Json = values[i];
        assert(vs.take(i as int + 1).last() == value@);
        let is_null = match value {
            Json::Null => true,
            _ => false,
        };
        if !is_null {
            let text = value.compact();
            let ghost before = tally_views(tallies@);
            let ghost so_far = present(vs.take(i as int));
            assert(present(vs.take(i as int + 1)).drop_last() =~= so_far);
            let n: usize = tallies.len();
            let mut at: usize = 0;
            while at < n && !same_tally(&tallies[at], value, text.as_str())
                invariant
                    at <= n == tallies@.len(),
                    text@ == compact(value@),
                    before == tally_views(tallies@),
                    forall|k: int|
                        0 <= k < tallies@.len() ==> (#[trigger] tallies@[k]).text@ == compact(
                            tallies@[k].value@,
                        ),
                    forall|k: int|
                        0 <= k < at ==> !counted_together((#[trigger] before[k]).0, value@),
                decreases n - at,
            {
                assert(before[at as int].0 == tallies@[at as int].value@);
                at += 1;
            }
            there += 1;
            if at < n {
                proof {
                    assert(before[at as int].0 == tallies@[at as int].value@);
                    lemma_like_at(before, value@, at as int);
                    assert(has_like(before, value@));
                }
                let times: usize = tallies[at].times + 1;
                let kept: &'a Json = tallies[at].value;
                let kept_text = tallies[at].text.clone();
                let ghost held = tallies@;
                tallies.set(at, Tally { value: kept, text: kept_text, times });
                assert(tally_views(tallies@) =~= before.update(
                    at as int,
                    (before[at as int].0, before[at as int].1 + 1),
                ));
                assert forall|k: int| 0 <= k < tallies@.len() implies (
                #[trigger] tallies@[k]).text@ == compact(tallies@[k].value@) && tallies@[k].times
                    <= there by {
                    if k != at {
                        assert(tallies@[k] == held[k]);
                    } else {
                        assert(held[at as int].text@ == compact(held[at as int].value@));
                    }
                }
            } else {
                assert(!has_like(before, value@));
                tallies.push(Tally { value, text, times: 1 });
                assert(tally_views(tallies@) =~= before.push((value@, 1)));
            }
        }
        i += 1;
    }
    assert(vs.take(i as int) =~= vs);
    (tallies, there)
}

fn breakdown_of(tallies: &Vec<Tally>) -> (out: String)
    requires
        forall|k: int|
            0 <= k < tallies@.len() ==> (#[trigger] tallies@[k]).text@ == compact(
                tallies@[k].value@,
            ),
    ensures
        out@ == breakdown_text(tally_views(tallies@)),
{
    let ghost found = tally_views(tallies@);
    let mut keys: Vec<SortKey> = Vec::new();
    let mut i: usize = 0;
    assert(key_views(keys@) =~= breakdown_keys(found).take(0));
    while i < tallies.len()
        invariant
            i <= tallies@.len(),
            found == tally_views(tallies@),
            keys@.len() == i,
            forall|k: int|
                0 <= k < tallies@.len() ==> (#[trigger] tallies@[k]).text@ == compact(
                    tallies@[k].value@,
                ),
            forall|k: int| 0 <= k < i ==> (#[trigger] keys@[k])@ == breakdown_keys(found)[k],
        decreases tallies@.len() - i,
    {
        keys.push(
            SortKey {
                weight: 0 - tallies[i].times as i128,
                text: chars_of(tallies[i].text.as_str()),
            },
        );
        i += 1;
    }
    assert(key_views(keys@) =~= breakdown_keys(found));
    let order = sorted_order_of(keys.as_slice());
    let ghost sorted = sorted_order(breakdown_keys(found));
    assert(forall|k: int| 0 <= k < order@.len() ==> sorted[k] == #[trigger] order@[k] as int) by {
        assert(forall|k: int|
            0 <= k < order@.len() ==> ints(order@)[k] == #[trigger] order@[k] as int);
    }
    let mut parts: Vec<String> = Vec::new();
    let mut j: usize = 0;
    while j < order.len()
        invariant
            j <= order@.len() == tallies@.len(),
            found == tally_views(tallies@),
            sorted == sorted_order(breakdown_keys(found)),
            forall|k: int| 0 <= k < order@.len() ==> (#[trigger] order@[k]) < tallies@.len(),
            forall|k: int| 0 <= k < order@.len() ==> sorted[k] == #[trigger] order@[k] as int,
            forall|k: int|
                0 <= k < tallies@.len() ==> (#[trigger] tallies@[k]).text@ == compact(
                    tallies@[k].value@,
                ),
            parts@.len() == j,
            forall|k: int| 0 <= k < j ==> (#[trigger] parts@[k])@ == count_text(found[sorted[k]]),
        decreases order@.len() - j,
    {
        let at: usize = order[j];
        assert(found[at as int] == (tallies@[at as int].value@, tallies@[at as int].times as nat));
        parts.push(
            tallies[at].text.clone().concat(":").concat(decimal_of(tallies[at].times).as_str()),
        );
        j += 1;
    }
    assert(texts(parts@) =~= Seq::new(found.len(), |k: int| count_text(found[sorted[k]])));
    join_of(parts.as_slice(), ", ")
}

/// The doubles of the values, and the texts of the least and the greatest;
/// nothing where a value is no finite double, or there are none.
pub(crate) struct Numbers {
    pub(crate) bits: Vec<u64>,
    pub(crate) low: String,
    pub(crate) high: String,
}

pub(crate) fn numbers_of(values: &Vec<&Json>) -> (out: Option<Numbers>)
    ensures
        match out {
            Some(n) => {
                let vs = value_views(values@);
                &&& all_doubles(vs)
                &&& vs.len() > 0
                &&& n.bits@ == doubles(vs)
                &&& n.low@ == least_value(vs).printed()
                &&& n.high@ == greatest_value(vs).printed()
            },
            None => !all_doubles(value_views(values@)) || values@.len() == 0,
        },
{
    let ghost vs = value_views(values@);
    if values.len() == 0 {
        return None;
    }
    let mut bits: Vec<u64> = Vec::new();
    let mut low: usize = 0;
    let mut high: usize = 0;
    let mut i: usize = 0;
    while i < values.len()
        invariant
            i <= values@.len(),
            vs == value_views(values@),
            bits@.len() == i,
            forall|k: int| 0 <= k < i ==> (#[trigger] vs[k]).double() == Some(bits@[k]),
            i == 0 ==> low == 0 && high == 0,
            i > 0 ==> low < i && high < i,
            i > 0 ==> least_value(vs.take(i as int)) == vs[low as int],
            i > 0 ==> greatest_value(vs.take(i as int)) == vs[high as int],
        decreases values@.len() - i,
    {
        let ghost next = vs.take(i as int + 1);
        assert(next.drop_last() =~= vs.take(i as int));
        assert(next.last() == vs[i as int]);
        assert(vs[i as int] == values@[i as int]@);
        match values[i].double() {
            None => {
                assert(vs[i as int].double() is None);
                return None;
            },
            Some(b) => {
                if i == 0 {
                    assert(next[0] == vs[0]);
                } else {
                    if rank_of(b) < rank_of(bits[low]) {
                        low = i;
                    }
                    if rank_of(b) > rank_of(bits[high]) {
                        high = i;
                    }
                }
                bits.push(b);
            },
        }
        i += 1;
    }
    assert(vs.take(i as int) =~= vs);
    assert(bits@ =~= doubles(vs));
    Some(Numbers { bits, low: values[low].printed(), high: values[high].printed() })
}

fn presence(name: &str, kind: &str, there: usize, distinct: usize) -> (out: String)
    ensures
        out@ == presence_text(name@, kind@, there as nat, distinct as nat),
{
    "  ".to_owned().concat(name).concat(kind).concat("present=").concat(
        decimal_of(there).as_str(),
    ).concat(" distinct=").concat(decimal_of(distinct).as_str())
}

/// The line of a field with these values.
fn field_line(name: &str, values: &Vec<&Json>) -> (out: DescribeLine)
    ensures
        out@ == line_of(name@, value_views(values@)),
{
    let (tallies, there) = count_values(values);
    let distinct: usize = tallies.len();
    match numbers_of(values) {
        Some(numbers) => {
            let lead = presence(name, ": number ", there, distinct).concat(" min=").concat(
                numbers.low.as_str(),
            ).concat(" max=").concat(numbers.high.as_str()).concat(" mean=");
            DescribeLine::Numeric { lead, values: numbers.bits }
        },
        None => {
            let head = presence(name, ": ", there, distinct);
            if distinct <= MAX_CATEGORICAL && distinct < there {
                DescribeLine::Text(
                    head.concat(" — ").concat(breakdown_of(&tallies).as_str()),
                )
            } else {
                DescribeLine::Text(head)
            }
        },
    }
}

/// Whether some record is an object.
pub fn any_object(rows: &[Json]) -> (r: bool)
    ensures
        r == exists|i: int| 0 <= i < trees(rows@).len() && (#[trigger] trees(rows@)[i]) is Object,
{
    let mut i: usize = 0;
    while i < rows.len()
        invariant
            i <= rows@.len(),
            forall|k: int| 0 <= k < i ==> !((#[trigger] trees(rows@)[k]) is Object),
        decreases rows@.len() - i,
    {
        assert(trees(rows@)[i as int] == rows@[i as int]@);
        match &rows[i] {
            Json::Object(_) => {
                return true;
            },
            _ => {},
        }
        i += 1;
    }
    false
}

/// The description of records.
pub fn describe_rows(rows: &[Json]) -> (out: Option<Description>)
    ensures
        match out {
            Some(d) => description_of(trees(rows@)) == Some(d@),
            None => description_of(trees(rows@)) is None,
        },
{
    let ghost ts = trees(rows@);
    let n: usize = rows.len();
    if n == 0 {
        let d = Description { head: "[describe] 0 records".to_owned(), lines: Vec::new() };
        assert(line_views(d.lines@) =~= Seq::empty());
        return Some(d);
    }
    if !any_object(rows) {
        return None;
    }
    let refs = collect_fields(rows);
    let names = list_fields(refs.as_slice());
    let ghost pairs = all_fields(ts);
    let ghost wanted = field_list(pairs);
    let mut lines: Vec<DescribeLine> = Vec::new();
    let mut k: usize = 0;
    while k < names.len()
        invariant
            k <= names@.len(),
            pairs == ref_views(refs@),
            wanted == texts(names@),
            lines@.len() == k,
            forall|m: int|
                0 <= m < k ==> (#[trigger] lines@[m])@ == line_of(
                    wanted[m],
                    values_of(pairs, wanted[m]),
                ),
        decreases names@.len() - k,
    {
        let values = list_values(refs.as_slice(), names[k].as_str());
        lines.push(field_line(names[k].as_str(), &values));
        k += 1;
    }
    let head = "[describe] ".to_owned().concat(decimal_of(n).as_str()).concat(" records, ").concat(
        decimal_of(names.len()).as_str(),
    ).concat(" fields");
    assert(line_views(lines@) =~= Seq::new(
        wanted.len(),
        |m: int| line_of(wanted[m], values_of(pairs, wanted[m])),
    ));
    Some(Description { head, lines })
}

/// The description of the records of the JSON array in `input`: nothing where
/// it is no JSON array, or no record of it is an object.
pub fn describe(input: &[u8]) -> (out: Option<Description>)
    ensures
        match out {
            Some(d) => rows_of(input@) is Some && description_of(rows_of(input@)->0) == Some(d@),
            None => rows_of(input@) is None || description_of(rows_of(input@)->0) is None,
        },
{
    match parse_rows(input) {
        None => None,
        Some(rows) => describe_rows(rows.as_slice()),
    }
}

/// The counts of the distinct values of a field add up to the number of its
/// values.
pub proof fn law_counts_add_up(values: Seq<Tree>)
    ensures
        count_total(counts(values)) == values.len(),
    decreases values.len(),
{
    if values.len() > 0 {
        law_counts_add_up(values.drop_last());
        let before = counts(values.drop_last());
        let v = values.last();
        if has_like(before, v) {
            lemma_like_at_in(before, v);
            let at = like_at(before, v);
            lemma_count_update(before, at);
        } else {
            assert(before.push((v, 1nat)).drop_last() =~= before);
        }
    }
}

/// The sum of the counts.
pub open spec fn count_total(found: Seq<(Tree, nat)>) -> nat
    decreases found.len(),
{
    if found.len() == 0 {
        0
    } else {
        count_total(found.drop_last()) + found.last().1
    }
}

proof fn lemma_like_at_in(seen: Seq<(Tree, nat)>, v: Tree)
    requires
        has_like(seen, v),
    ensures
        0 <= like_at(seen, v) < seen.len(),
    decreases seen.len(),
{
    if has_like(seen.drop_last(), v) {
        lemma_like_at_in(seen.drop_last(), v);
    }
}

proof fn lemma_count_update(found: Seq<(Tree, nat)>, at: int)
    requires
        0 <= at < found.len(),
    ensures
        count_total(found.update(at, (found[at].0, found[at].1 + 1))) == count_total(found) + 1,
    decreases found.len(),
{
    let changed = found.update(at, (found[at].0, found[at].1 + 1));
    if at < found.len() - 1 {
        lemma_count_update(found.drop_last(), at);
        assert(changed.drop_last() =~= found.drop_last().update(
            at,
            (found[at].0, found[at].1 + 1),
        ));
    } else {
        assert(changed.drop_last() =~= found.drop_last());
    }
}

// ---------------------------------------------------------------------------
// What a description says
// ---------------------------------------------------------------------------

/// Which values count as one: two strings if they are the same string, two
/// numbers if they are written the same, two truth values if they are the same,
/// two arrays or objects if their texts are the same, and no others.
pub proof fn law_counted_together(a: Tree, b: Tree)
    ensures
        a is Text ==> (counted_together(a, b) <==> b == a),
        a is Number ==> (counted_together(a, b) <==> b == a),
        a is Bool ==> (counted_together(a, b) <==> b == a),
        a is Null ==> (counted_together(a, b) <==> b == a),
        a is Array || a is Object ==> (counted_together(a, b) <==> (b is Array || b is Object)
            && compact(a) == compact(b)),
{
    reveal_strlit("true");
    reveal_strlit("false");
    if a is Bool && b is Bool && compact(a) == compact(b) {
        assert("true"@.len() != "false"@.len());
    }
}

/// How many of the values count as one with `v`.
pub open spec fn times(values: Seq<Tree>, v: Tree) -> nat {
    values.filter(|x: Tree| counted_together(v, x)).len()
}

proof fn lemma_together(a: Tree, b: Tree, c: Tree)
    ensures
        counted_together(a, a),
        counted_together(a, b) ==> counted_together(b, a),
        counted_together(a, b) && counted_together(b, c) ==> counted_together(a, c),
{
}

/// The counts list each value once, every value among them, and each with the
/// number of places at which it stands.
pub proof fn law_counts(values: Seq<Tree>)
    ensures
        forall|k: int|
            0 <= k < counts(values).len() ==> (#[trigger] counts(values)[k]).1 == values.filter(
                |x: Tree| counted_together(counts(values)[k].0, x),
            ).len() && counts(values)[k].1 > 0 && values.contains(counts(values)[k].0),
        forall|j: int, k: int|
            0 <= j < k < counts(values).len() ==> !counted_together(
                (#[trigger] counts(values)[j]).0,
                (#[trigger] counts(values)[k]).0,
            ),
        forall|i: int|
            0 <= i < values.len() ==> exists|k: int|
                0 <= k < counts(values).len() && counted_together(
                    (#[trigger] counts(values)[k]).0,
                    #[trigger] values[i],
                ),
    decreases values.len(),
{
    reveal(Seq::filter);
    if values.len() > 0 {
        let earlier = values.drop_last();
        let before = counts(earlier);
        let after = counts(values);
        let v = values.last();
        law_counts(earlier);
        assert(forall|i: int| 0 <= i < earlier.len() ==> #[trigger] earlier[i] == values[i]);
        assert(values[values.len() - 1] == v);
        assert forall|x: Tree| earlier.contains(x) implies #[trigger] values.contains(x) by {
            let i = choose|i: int| 0 <= i < earlier.len() && earlier[i] == x;
            assert(values[i] == x);
        }
        if has_like(before, v) {
            lemma_like_at_is_like(before, v);
            let at = like_at(before, v);
            assert forall|k: int| 0 <= k < after.len() implies (#[trigger] after[k]).1 == times(
                values,
                after[k].0,
            ) && after[k].1 > 0 && values.contains(after[k].0) by {
                assert(after[k].0 == before[k].0);
                assert(before[k].1 == times(earlier, before[k].0));
                if k != at {
                    if counted_together(before[k].0, v) {
                        lemma_together(before[at].0, v, before[k].0);
                        lemma_together(before[k].0, v, before[at].0);
                        lemma_together(v, before[at].0, before[k].0);
                        lemma_together(v, before[k].0, before[at].0);
                        if k < at {
                            assert(!counted_together(before[k].0, before[at].0));
                        } else {
                            assert(!counted_together(before[at].0, before[k].0));
                        }
                    }
                }
            }
            assert forall|j: int, k: int| 0 <= j < k < after.len() implies !counted_together(
                (#[trigger] after[j]).0,
                (#[trigger] after[k]).0,
            ) by {
                assert(after[j].0 == before[j].0);
                assert(after[k].0 == before[k].0);
            }
            assert forall|i: int| 0 <= i < values.len() implies has_like(
                after,
                #[trigger] values[i],
            ) by {
                let k = if i < earlier.len() {
                    assert(has_like(before, earlier[i]));
                    choose|k: int|
                        0 <= k < before.len() && counted_together(
                            (#[trigger] before[k]).0,
                            earlier[i],
                        )
                } else {
                    at
                };
                assert(after[k].0 == before[k].0);
            }
        } else {
            lemma_nothing_like(earlier, before, v);
            assert forall|k: int| 0 <= k < after.len() implies (#[trigger] after[k]).1 == times(
                values,
                after[k].0,
            ) && after[k].1 > 0 && values.contains(after[k].0) by {
                if k < before.len() {
                    assert(after[k] == before[k]);
                    assert(!counted_together(before[k].0, v));
                } else {
                    lemma_together(v, v, v);
                }
            }
            assert forall|j: int, k: int| 0 <= j < k < after.len() implies !counted_together(
                (#[trigger] after[j]).0,
                (#[trigger] after[k]).0,
            ) by {
                assert(after[j] == before[j]);
                if k < before.len() {
                    assert(after[k] == before[k]);
                }
            }
            assert forall|i: int| 0 <= i < values.len() implies has_like(
                after,
                #[trigger] values[i],
            ) by {
                if i < earlier.len() {
                    assert(has_like(before, earlier[i]));
                    let k = choose|k: int|
                        0 <= k < before.len() && counted_together(
                            (#[trigger] before[k]).0,
                            earlier[i],
                        );
                    assert(after[k] == before[k]);
                } else {
                    lemma_together(v, v, v);
                    assert(after[before.len() as int].0 == v);
                }
            }
        }
    }
}

proof fn lemma_like_at_is_like(seen: Seq<(Tree, nat)>, v: Tree)
    requires
        has_like(seen, v),
    ensures
        0 <= like_at(seen, v) < seen.len(),
        counted_together(seen[like_at(seen, v)].0, v),
    decreases seen.len(),
{
    let before = seen.drop_last();
    if has_like(before, v) {
        lemma_like_at_is_like(before, v);
        assert(before[like_at(before, v)] == seen[like_at(before, v)]);
    } else {
        let k = choose|k: int| 0 <= k < seen.len() && counted_together((#[trigger] seen[k]).0, v);
        if k < before.len() {
            assert(before[k] == seen[k]);
        }
    }
}

/// A value that is like none of the counted ones is like none of the values.
proof fn lemma_nothing_like(values: Seq<Tree>, found: Seq<(Tree, nat)>, v: Tree)
    requires
        forall|i: int| 0 <= i < values.len() ==> has_like(found, #[trigger] values[i]),
        !has_like(found, v),
    ensures
        times(values, v) == 0,
    decreases values.len(),
{
    reveal(Seq::filter);
    if values.len() > 0 {
        let before = values.drop_last();
        assert(forall|i: int| 0 <= i < before.len() ==> #[trigger] before[i] == values[i]);
        lemma_nothing_like(before, found, v);
        let x = values[values.len() - 1];
        if counted_together(v, x) {
            let k = choose|k: int|
                0 <= k < found.len() && counted_together((#[trigger] found[k]).0, x);
            lemma_together(v, x, v);
            lemma_together(found[k].0, x, v);
        }
    }
}

/// A string has an entry in the counts exactly if it is among the values, and the
/// entry's number is that of the places at which the value is this very string.
/// Of values that are all strings as many are distinct as there are different
/// strings.
pub proof fn law_strings_are_counted_apart(values: Seq<Tree>, s: Seq<char>, k: int)
    ensures
        (exists|j: int| 0 <= j < counts(values).len() && (#[trigger] counts(values)[j]).0
            == Tree::Text(s)) <==> values.contains(Tree::Text(s)),
        0 <= k < counts(values).len() && counts(values)[k].0 == Tree::Text(s) ==> counts(
            values,
        )[k].1 == values.filter(|v: Tree| v == Tree::Text(s)).len(),
        (forall|i: int| 0 <= i < values.len() ==> (#[trigger] values[i]) is Text) ==> counts(
            values,
        ).len() == values.to_set().len(),
{
    law_counts(values);
    let found = counts(values);
    let t = Tree::Text(s);
    if values.contains(t) {
        let i = choose|i: int| 0 <= i < values.len() && values[i] == t;
        assert(has_like(found, values[i]));
        let j = choose|j: int| 0 <= j < found.len() && counted_together((#[trigger] found[j]).0, t);
        lemma_together(found[j].0, t, t);
        law_counted_together(t, found[j].0);
        assert(found[j].0 == t);
    }
    if 0 <= k < found.len() && found[k].0 == t {
        let f = |x: Tree| counted_together(t, x);
        let g = |v: Tree| v == Tree::Text(s);
        assert forall|x: Tree| #[trigger] f(x) == g(x) by {
            law_counted_together(t, x);
        }
        assert(f =~= g);
    }
    if forall|i: int| 0 <= i < values.len() ==> (#[trigger] values[i]) is Text {
        let kinds = found.map_values(|e: (Tree, nat)| e.0);
        assert forall|j: int, k: int| 0 <= j < k < kinds.len() implies kinds[j] != kinds[k] by {
            assert(!counted_together(found[j].0, found[k].0));
            lemma_together(found[j].0, found[j].0, found[j].0);
        }
        assert(kinds.no_duplicates());
        kinds.unique_seq_to_set();
        assert(kinds.to_set() =~= values.to_set()) by {
            assert forall|x: Tree| kinds.to_set().contains(x) <==> #[trigger] values.to_set().contains(
                x,
            ) by {
                if kinds.contains(x) {
                    let k = choose|k: int| 0 <= k < kinds.len() && kinds[k] == x;
                    assert(values.contains(found[k].0));
                }
                if values.contains(x) {
                    let i = choose|i: int| 0 <= i < values.len() && values[i] == x;
                    assert(has_like(found, values[i]));
                    let j = choose|j: int|
                        0 <= j < found.len() && counted_together((#[trigger] found[j]).0, x);
                    lemma_together(found[j].0, x, x);
                    law_counted_together(x, found[j].0);
                    assert(kinds[j] == x);
                }
            }
        }
    }
}

/// The values of a field are those of all its places, in order; of a record set
/// in which no record has a field twice they are the column of the field.
pub proof fn law_field_values(rows: Seq<Tree>, pairs: Seq<(Seq<char>, Tree)>, name: Seq<char>)
    ensures
        values_of(pairs, name) == pairs.filter(|p: (Seq<char>, Tree)| p.0 == name).map_values(
            |p: (Seq<char>, Tree)| p.1,
        ),
        (forall|i: int, j: int, k: int|
            #![trigger rows[i]->Object_0[j], rows[i]->Object_0[k]]
            0 <= i < rows.len() && rows[i] is Object && 0 <= j < k < rows[i]->Object_0.len()
                ==> rows[i]->Object_0[j].0 != rows[i]->Object_0[k].0) ==> values_of(
            all_fields(rows),
            name,
        ) == column(rows, name),
{
    lemma_values_filter(pairs, name);
    if forall|i: int, j: int, k: int|
        #![trigger rows[i]->Object_0[j], rows[i]->Object_0[k]]
        0 <= i < rows.len() && rows[i] is Object && 0 <= j < k < rows[i]->Object_0.len()
            ==> rows[i]->Object_0[j].0 != rows[i]->Object_0[k].0 {
        lemma_values_are_column(rows, name);
    }
}

proof fn lemma_values_filter(pairs: Seq<(Seq<char>, Tree)>, name: Seq<char>)
    ensures
        values_of(pairs, name) == pairs.filter(|p: (Seq<char>, Tree)| p.0 == name).map_values(
            |p: (Seq<char>, Tree)| p.1,
        ),
    decreases pairs.len(),
{
    reveal(Seq::filter);
    if pairs.len() > 0 {
        lemma_values_filter(pairs.drop_last(), name);
    }
    assert(values_of(pairs, name) =~= pairs.filter(
        |p: (Seq<char>, Tree)| p.0 == name,
    ).map_values(|p: (Seq<char>, Tree)| p.1));
}

proof fn lemma_values_concat(
    a: Seq<(Seq<char>, Tree)>,
    b: Seq<(Seq<char>, Tree)>,
    name: Seq<char>,
)
    ensures
        values_of(a + b, name) == values_of(a, name) + values_of(b, name),
    decreases b.len(),
{
    if b.len() == 0 {
        assert(a + b =~= a);
        assert(values_of(a, name) + values_of(b, name) =~= values_of(a, name));
    } else {
        lemma_values_concat(a, b.drop_last(), name);
        assert((a + b).drop_last() =~= a + b.drop_last());
        assert(values_of(a + b, name) =~= values_of(a, name) + values_of(b, name));
    }
}

proof fn lemma_values_once(fields: Seq<(Seq<char>, Tree)>, name: Seq<char>)
    requires
        forall|j: int, k: int|
            0 <= j < k < fields.len() ==> (#[trigger] fields[j]).0 != (#[trigger] fields[k]).0,
    ensures
        values_of(fields, name) == (match Tree::Object(fields).get(name) {
            Some(v) => seq![v],
            None => Seq::empty(),
        }),
    decreases fields.len(),
{
    if fields.len() > 0 {
        let before = fields.drop_last();
        let n = fields.len() - 1;
        assert(forall|k: int| 0 <= k < before.len() ==> #[trigger] before[k] == fields[k]);
        lemma_values_once(before, name);
        law_field_lookup(Tree::Object(fields), name, n);
        law_field_lookup(Tree::Object(before), name, n);
        if fields[n].0 == name {
            assert forall|k: int| 0 <= k < n implies (#[trigger] fields[k]).0 != name by {
                assert(fields[k].0 != fields[n].0);
            }
            assert(Tree::Object(before).get(name) is None);
            assert(values_of(fields, name) =~= seq![fields[n].1]);
        } else if Tree::Object(before).get(name) is Some {
            let i = choose|i: int| 0 <= i < before.len() && (#[trigger] before[i]).0 == name;
            assert forall|k: int| 0 <= k < i implies (#[trigger] before[k]).0 != name by {
                assert(fields[k].0 != fields[i].0);
            }
            law_field_lookup(Tree::Object(before), name, i);
            assert(forall|k: int| 0 <= k < i ==> (#[trigger] fields[k]).0 == before[k].0);
            law_field_lookup(Tree::Object(fields), name, i);
        } else {
            assert forall|k: int| 0 <= k < fields.len() implies (#[trigger] fields[k]).0 != name by {
                if k < n {
                    assert(before[k].0 != name);
                }
            }
        }
    } else {
        assert(values_of(fields, name) =~= Seq::empty());
    }
}

proof fn lemma_values_are_column(rows: Seq<Tree>, name: Seq<char>)
    requires
        forall|i: int, j: int, k: int|
            #![trigger rows[i]->Object_0[j], rows[i]->Object_0[k]]
            0 <= i < rows.len() && rows[i] is Object && 0 <= j < k < rows[i]->Object_0.len()
                ==> rows[i]->Object_0[j].0 != rows[i]->Object_0[k].0,
    ensures
        values_of(all_fields(rows), name) == column(rows, name),
    decreases rows.len(),
{
    if rows.len() > 0 {
        let before = rows.drop_last();
        let n = rows.len() - 1;
        assert(forall|i: int| 0 <= i < before.len() ==> #[trigger] before[i] == rows[i]);
        assert forall|i: int, j: int, k: int|
            #![trigger before[i]->Object_0[j], before[i]->Object_0[k]]
            0 <= i < before.len() && before[i] is Object && 0 <= j < k < before[i]->Object_0.len()
            implies before[i]->Object_0[j].0 != before[i]->Object_0[k].0 by {
            assert(rows[i]->Object_0[j].0 != rows[i]->Object_0[k].0);
        }
        lemma_values_are_column(before, name);
        match rows[n] {
            Tree::Object(fields) => {
                assert forall|j: int, k: int| 0 <= j < k < fields.len() implies (
                #[trigger] fields[j]).0 != (#[trigger] fields[k]).0 by {
                    assert(rows[n]->Object_0[j].0 != rows[n]->Object_0[k].0);
                }
                lemma_values_once(fields, name);
                lemma_values_concat(all_fields(before), fields, name);
                assert(values_of(all_fields(rows), name) =~= column(rows, name));
            },
            _ => {
                assert(all_fields(before) + Seq::<(Seq<char>, Tree)>::empty() =~= all_fields(
                    before,
                ));
                law_field_lookup(rows[n], name, 0);
            },
        }
    }
}

/// The fields of a record set are those of all its objects, one after the other,
/// and its list of fields has each name once, at its first place.
pub proof fn law_fields(rows: Seq<Tree>, t: Tree, pairs: Seq<(Seq<char>, Tree)>)
    ensures
        all_fields(Seq::empty()) == Seq::<(Seq<char>, Tree)>::empty(),
        all_fields(rows.push(t)) == all_fields(rows) + (if t is Object {
            t->Object_0
        } else {
            Seq::empty()
        }),
        field_list(pairs) == distinct(pairs.map_values(|p: (Seq<char>, Tree)| p.0)),
    decreases pairs.len(),
{
    assert(rows.push(t).drop_last() =~= rows);
    let list = pairs.map_values(|p: (Seq<char>, Tree)| p.0);
    if pairs.len() > 0 {
        let before = pairs.drop_last();
        law_fields(rows, t, before);
        let less = before.map_values(|p: (Seq<char>, Tree)| p.0);
        law_occurrences(less, pairs.last().0);
        law_distinct(less);
        assert(less.push(pairs.last().0) =~= list);
        assert(distinct(less).contains(pairs.last().0) <==> less.contains(pairs.last().0));
    }
}

/// Null values are left out, all others are there, and the least and the greatest
/// of a list of doubles are in it and bound it.
pub proof fn law_present_and_bounds(values: Seq<Tree>, i: int)
    ensures
        present(values) == values.filter(|v: Tree| !(v is Null)),
        values.len() > 0 ==> values.contains(least_value(values)) && values.contains(
            greatest_value(values),
        ),
        0 <= i < values.len() && all_doubles(values) ==> rank(least_value(values).double()->0)
            <= rank(values[i].double()->0) <= rank(greatest_value(values).double()->0),
    decreases values.len(),
{
    reveal(Seq::filter);
    if values.len() > 0 {
        let before = values.drop_last();
        assert(forall|k: int| 0 <= k < before.len() ==> #[trigger] before[k] == values[k]);
        if all_doubles(values) {
            assert(all_doubles(before));
        }
        law_present_and_bounds(before, i);
        assert(values[values.len() - 1] == values.last());
        if before.len() > 0 {
            let a = choose|a: int| 0 <= a < before.len() && before[a] == least_value(before);
            let b = choose|b: int| 0 <= b < before.len() && before[b] == greatest_value(before);
            assert(values[a] == least_value(before));
            assert(values[b] == greatest_value(before));
        } else {
            assert(values[0] == least_value(values));
        }
    }
    assert(present(values) =~= values.filter(|v: Tree| !(v is Null)));
}

/// The breakdown names every counted value with its number, the most frequent
/// first and equally frequent ones by their texts.
pub proof fn law_breakdown(found: Seq<(Tree, nat)>)
    ensures
        exists|order: Seq<int>|
            {
                &&& order.len() == found.len()
                &&& #[trigger] order.no_duplicates()
                &&& forall|k: int| 0 <= k < order.len() ==> 0 <= #[trigger] order[k] < found.len()
                &&& breakdown_text(found) == join(
                    order.map_values(|i: int| compact(found[i].0) + ":"@ + decimal(found[i].1)),
                    ", "@,
                )
                &&& forall|a: int, b: int|
                    0 <= a < b < order.len() ==> (found[#[trigger] order[a]].1
                        > found[#[trigger] order[b]].1 || (found[order[a]].1 == found[order[b]].1
                        && !text_lt(compact(found[order[b]].0), compact(found[order[a]].0))))
            },
{
    let keys = breakdown_keys(found);
    let order = sorted_order(keys);
    law_sorting(keys);
    assert(order.map_values(|i: int| compact(found[i].0) + ":"@ + decimal(found[i].1)) =~= Seq::new(
        found.len(),
        |i: int| count_text(found[order[i]]),
    ));
    assert forall|a: int, b: int| 0 <= a < b < order.len() implies (found[#[trigger] order[a]].1
        > found[#[trigger] order[b]].1 || (found[order[a]].1 == found[order[b]].1 && !text_lt(
        compact(found[order[b]].0),
        compact(found[order[a]].0),
    ))) by {
        let x = order[a];
        let y = order[b];
        crate::text::lemma_text_lt_total(keys[x].1, keys[y].1);
    }
    assert(order.no_duplicates());
}

/// The line of a field says how many of its values are not null and how many are
/// distinct. Where all of them are doubles it gives the least and the greatest,
/// and the doubles are those of all values in order; else, with at most twelve
/// distinct values of which one occurs twice, it gives the breakdown.
pub proof fn law_field_line(name: Seq<char>, values: Seq<Tree>)
    ensures
        ({
            let there = values.filter(|v: Tree| !(v is Null));
            let found = counts(there);
            let numbers = decimal(there.len()) + " distinct="@ + decimal(found.len());
            let numeric = values.len() > 0 && forall|i: int|
                0 <= i < values.len() ==> (#[trigger] values[i]).double() is Some;
            match line_of(name, values) {
                LineView::Numeric { lead, values: doubles } => {
                    &&& numeric
                    &&& doubles == values.map_values(|v: Tree| v.double()->0)
                    &&& lead == "  "@ + name + ": number present="@ + numbers + " min="@
                        + least_value(values).printed() + " max="@ + greatest_value(
                        values,
                    ).printed() + " mean="@
                },
                LineView::Text(text) => {
                    &&& !numeric
                    &&& text == "  "@ + name + ": present="@ + numbers + (if found.len() <= 12
                        && found.len() < there.len() {
                        " — "@ + breakdown_text(found)
                    } else {
                        Seq::empty()
                    })
                },
            }
        }),
{
    law_present_and_bounds(values, 0);
    reveal_strlit(": number ");
    reveal_strlit(": number present=");
    reveal_strlit(": ");
    reveal_strlit(": present=");
    reveal_strlit("present=");
    assert(": number "@ + "present="@ =~= ": number present="@);
    assert(": "@ + "present="@ =~= ": present="@);
    let there = values.filter(|v: Tree| !(v is Null));
    let found = counts(there);
    let numbers = decimal(there.len()) + " distinct="@ + decimal(found.len());
    match line_of(name, values) {
        LineView::Numeric { lead, values: doubles } => {
            assert(doubles =~= values.map_values(|v: Tree| v.double()->0));
            assert(presence_text(name, ": number "@, there.len(), found.len()) =~= "  "@ + name
                + (": number "@ + "present="@) + numbers);
        },
        LineView::Text(text) => {
            assert(presence_text(name, ": "@, there.len(), found.len()) =~= "  "@ + name + (": "@
                + "present="@) + numbers);
            assert(text =~= "  "@ + name + ": present="@ + numbers + (if found.len() <= 12
                && found.len() < there.len() {
                " — "@ + breakdown_text(found)
            } else {
                Seq::empty()
            }));
        },
    }
}

/// A description has a line for every field and says how many records and fields
/// there are, however many.
pub proof fn law_description(rows: Seq<Tree>, i: int)
    ensures
        description_of(rows) is None <==> rows.len() > 0 && forall|k: int|
            0 <= k < rows.len() ==> !((#[trigger] rows[k]) is Object),
        rows.len() > 0 && description_of(rows) is Some ==> {
            let d = description_of(rows)->0;
            let names = field_list(all_fields(rows));
            &&& d.head == "[describe] "@ + decimal(rows.len()) + " records, "@ + decimal(
                names.len(),
            ) + " fields"@
            &&& d.lines.len() == names.len()
            &&& 0 <= i < names.len() ==> d.lines[i] == line_of(
                names[i],
                values_of(all_fields(rows), names[i]),
            )
        },
        rows.len() == 0 ==> description_of(rows)->0.head == "[describe] 0 records"@
            && description_of(rows)->0.lines.len() == 0,
{
}

/// A line is finished with the mean and the sum of its numbers, where it has any;
/// every line and value is there.
pub proof fn law_description_views(
    lines: Seq<DescribeLine>,
    values: Seq<&Json>,
    lead: Seq<char>,
    numbers: Seq<u64>,
    mean: Seq<char>,
    sum: Seq<char>,
    i: int,
)
    ensures
        line_views(lines).len() == lines.len(),
        0 <= i < lines.len() ==> line_views(lines)[i] == lines[i]@,
        value_views(values).len() == values.len(),
        0 <= i < values.len() ==> value_views(values)[i] == values[i]@,
        finished_line(LineView::Text(lead), mean, sum) == lead,
        finished_line(LineView::Numeric { lead, values: numbers }, mean, sum) == lead + mean
            + " sum="@ + sum,
{
}

/// A line and a description say what their fields say.
pub proof fn law_line_views(lead: String, values: Vec<u64>, d: Description)
    ensures
        DescribeLine::Text(lead)@ == LineView::Text(lead@),
        (DescribeLine::Numeric { lead, values })@ == (LineView::Numeric {
            lead: lead@,
            values: values@,
        }),
        d@.head == d.head@,
        d@.lines == line_views(d.lines@),
{
}

/// Of values that are the same number the first is the least and the greatest.
pub proof fn law_bounds_step(values: Seq<Tree>, v: Tree)
    ensures
        least_value(seq![v]) == v,
        greatest_value(seq![v]) == v,
        values.len() > 0 ==> least_value(values.push(v)) == (if rank(v.double()->0) < rank(
            least_value(values).double()->0,
        ) {
            v
        } else {
            least_value(values)
        }),
        values.len() > 0 ==> greatest_value(values.push(v)) == (if rank(v.double()->0) > rank(
            greatest_value(values).double()->0,
        ) {
            v
        } else {
            greatest_value(values)
        }),
{
    assert(values.push(v).drop_last() =~= values);
}

} // verus!
