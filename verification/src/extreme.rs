//! The group with the greatest or least sum or mean.
//!
//! The sums are floating-point work, which is done outside of this library: the
//! groups and their numbers are found here, and the answer is worded here once
//! it is known which groups are at the extreme.
use crate::column::{
    clean_numeric, distinct, distinct_of, field_is_clean_numeric, law_occurrences, text_column,
    text_column_of,
};
use crate::intent::{
    first_field, first_fields, first_fields_of, is_named, is_of_kind, named_field, names, of_kind,
};
use crate::json::{field_trees, trees, Json, Tree};
use crate::order::{ints, key_views, sorted_order, sorted_order_of, SortKey};
use crate::superlative::{direction_word, name_list, name_list_of};
use crate::text::{
    ascii_lower, chars_of, contains_text, copy_all, decimal, decimal_of, has_any, has_any_str,
    has_str, join, join_of, same_text, string_of, texts,
};
use vstd::prelude::*;

verus! {

// ---------------------------------------------------------------------------
// The extreme group
// ---------------------------------------------------------------------------

/// Words that ask for the group with the most.
pub open spec fn high_words() -> Seq<&'static str> {
    seq!["highest", "largest", "most", "greatest", "maximum", "top"]
}

/// Words that ask for the group with the least.
pub open spec fn low_words() -> Seq<&'static str> {
    seq!["lowest", "smallest", "least", "minimum", "fewest"]
}

/// Words that ask for groups.
pub open spec fn group_words() -> Seq<&'static str> {
    seq!["total", "sum", "average", "mean", "per ", "each", " by "]
}

/// The question asks for a mean.
pub open spec fn asks_mean(q: Seq<char>) -> bool {
    contains_text(q, "average"@) || contains_text(q, "mean"@)
}

/// The string fields that the question names and that have fewer distinct
/// values than there are records, each with that number.
pub open spec fn categories(
    rows: Seq<Tree>,
    fields: Seq<(Seq<char>, Tree)>,
    q: Seq<char>,
) -> Seq<(int, Seq<char>)>
    decreases fields.len(),
{
    if fields.len() == 0 {
        Seq::empty()
    } else {
        let before = categories(rows, fields.drop_last(), q);
        let f = fields.last();
        let d = distinct(text_column(rows, f.0)).len() as int;
        if of_kind(f.1, false) && names(q, f.0) && d < rows.len() {
            before.push((d, f.0))
        } else {
            before
        }
    }
}

/// The category fields in order: the one with the fewest distinct values first,
/// then by name.
pub open spec fn category_fields(
    rows: Seq<Tree>,
    fields: Seq<(Seq<char>, Tree)>,
    q: Seq<char>,
) -> Seq<Seq<char>> {
    let cats = categories(rows, fields, q);
    let order = sorted_order(cats);
    Seq::new(cats.len(), |i: int| cats[order[i]].1)
}

/// Every field of the list is a string in the record.
pub open spec fn has_strings(row: Tree, fields: Seq<Seq<char>>) -> bool {
    forall|i: int|
        0 <= i < fields.len() ==> match row.get(#[trigger] fields[i]) {
            Some(v) => v is Text,
            None => false,
        }
}

/// The texts of the fields.
pub open spec fn strings_of(row: Tree, fields: Seq<Seq<char>>) -> Seq<Seq<char>> {
    Seq::new(fields.len(), |i: int| (row.get(fields[i])->0)->Text_0)
}

/// The group of a record and its number: the texts of all category fields
/// together. A record without one of them, or without the number, is in none.
pub open spec fn group_entry(row: Tree, cats: Seq<Seq<char>>, num: Seq<char>) -> Option<
    (Seq<char>, u64),
> {
    match row.get(num) {
        Some(v) => if has_strings(row, cats) && v.double() is Some {
            Some((join(strings_of(row, cats), " × "@), v.double()->0))
        } else {
            None
        },
        None => None,
    }
}

/// One group: its name and its numbers in order.
pub struct SampleView {
    pub name: Seq<char>,
    pub values: Seq<u64>,
}

/// The position of the group with this name; the number of groups where there
/// is none.
pub open spec fn sample_at(samples: Seq<SampleView>, name: Seq<char>) -> int
    decreases samples.len(),
{
    if samples.len() == 0 {
        0
    } else if samples[0].name == name {
        0
    } else {
        1 + sample_at(samples.skip(1), name)
    }
}

/// The groups with one more number in the group with this name.
pub open spec fn with_sample(samples: Seq<SampleView>, name: Seq<char>, value: u64) -> Seq<
    SampleView,
> {
    let at = sample_at(samples, name);
    if at < samples.len() {
        samples.update(at, SampleView { name, values: samples[at].values.push(value) })
    } else {
        samples.push(SampleView { name, values: seq![value] })
    }
}

/// The groups of the records, in the order in which they are first seen.
pub open spec fn samples_of(rows: Seq<Tree>, cats: Seq<Seq<char>>, num: Seq<char>) -> Seq<
    SampleView,
>
    decreases rows.len(),
{
    if rows.len() == 0 {
        Seq::empty()
    } else {
        let before = samples_of(rows.drop_last(), cats, num);
        match group_entry(rows.last(), cats, num) {
            Some(e) => with_sample(before, e.0, e.1),
            None => before,
        }
    }
}

/// What is left to compute to find the extreme group: the sum or the mean of
/// each group, and which groups are at the extreme.
pub struct ExtremeView {
    pub high: bool,
    pub mean: bool,
    pub number: Seq<char>,
    pub category: Seq<char>,
    pub samples: Seq<SampleView>,
}

/// The extreme group that a question asks for. There is none where the question
/// asks for neither or both of most and least, does not ask for groups, or names
/// no category or no clean numeric field.
pub open spec fn extreme_group(rows: Seq<Tree>, q: Seq<char>) -> Option<ExtremeView> {
    let high = has_any(q, high_words());
    if high == has_any(q, low_words()) || !has_any(q, group_words()) || first_fields(rows) is None {
        None
    } else {
        let fields = first_fields(rows)->0;
        let cats = category_fields(rows, fields, q);
        if cats.len() == 0 {
            None
        } else {
            match first_field(fields, q, true, true) {
                None => None,
                Some(num) => {
                    let samples = samples_of(rows, cats, num);
                    if !clean_numeric(rows, num) || samples.len() == 0 {
                        None
                    } else {
                        Some(
                            ExtremeView {
                                high,
                                mean: asks_mean(q),
                                number: num,
                                category: join(cats, ","@),
                                samples,
                            },
                        )
                    }
                },
            }
        }
    }
}

/// One group.
#[derive(Debug, PartialEq, Eq)]
pub struct Sample {
    /// Its name.
    pub name: String,
    /// Its numbers in order, by their bits.
    pub values: Vec<u64>,
}

impl View for Sample {
    type V = SampleView;

    open spec fn view(&self) -> SampleView {
        SampleView { name: self.name@, values: self.values@ }
    }
}

/// The groups as plain values.
pub open spec fn sample_views(samples: Seq<Sample>) -> Seq<SampleView> {
    Seq::new(samples.len(), |i: int| samples[i]@)
}

/// What is left to compute to find the extreme group.
#[derive(Debug, PartialEq, Eq)]
pub struct GroupExtreme {
    /// The greatest aggregate is asked for, and not the least.
    pub high: bool,
    /// The aggregate is the mean, and not the sum.
    pub mean: bool,
    /// The numeric field.
    pub number: String,
    /// The category fields.
    pub category: String,
    /// The groups.
    pub samples: Vec<Sample>,
}

impl Sample {
    /// A copy of the group.
    pub fn copy(&self) -> (out: Sample)
        ensures
            out@ == self@,
    {
        Sample { name: self.name.clone(), values: copy_all(self.values.as_slice()) }
    }
}

impl GroupExtreme {
    /// A copy of what is left to compute.
    pub fn copy(&self) -> (out: GroupExtreme)
        ensures
            out@ == self@,
    {
        let mut samples: Vec<Sample> = Vec::new();
        let mut i: usize = 0;
        while i < self.samples.len()
            invariant
                i <= self.samples@.len(),
                samples@.len() == i,
                forall|k: int| 0 <= k < i ==> (#[trigger] samples@[k])@ == self.samples@[k]@,
            decreases self.samples@.len() - i,
        {
            samples.push(self.samples[i].copy());
            i += 1;
        }
        assert(sample_views(samples@) =~= sample_views(self.samples@));
        GroupExtreme {
            high: self.high,
            mean: self.mean,
            number: self.number.clone(),
            category: self.category.clone(),
            samples,
        }
    }
}

impl View for GroupExtreme {
    type V = ExtremeView;

    open spec fn view(&self) -> ExtremeView {
        ExtremeView {
            high: self.high,
            mean: self.mean,
            number: self.number@,
            category: self.category@,
            samples: sample_views(self.samples@),
        }
    }
}

/// The names of the groups that are marked, in the order of the groups.
pub open spec fn marked_names(samples: Seq<SampleView>, mask: Seq<bool>) -> Seq<Seq<char>>
    decreases samples.len(),
{
    if samples.len() == 0 {
        Seq::empty()
    } else if mask[samples.len() - 1] {
        marked_names(samples.drop_last(), mask).push(samples.last().name)
    } else {
        marked_names(samples.drop_last(), mask)
    }
}

/// The names in lexicographic order.
pub open spec fn sorted_names(names: Seq<Seq<char>>) -> Seq<Seq<char>> {
    let keys = Seq::new(names.len(), |i: int| (0int, names[i]));
    let order = sorted_order(keys);
    Seq::new(names.len(), |i: int| names[order[i]])
}

/// The answer, given the groups at the extreme and the text of the extreme. A
/// tie names every group.
pub open spec fn extreme_text(e: ExtremeView, winners: Seq<Seq<char>>, shown: Seq<char>) -> Seq<
    char,
> {
    let head = "[index] "@ + direction_word(e.high) + " "@ + (if e.mean {
        "mean"@
    } else {
        "sum"@
    }) + "("@ + e.number + ") by "@ + e.category + " = "@;
    if winners.len() == 1 {
        head + "\""@ + winners[0] + "\" ("@ + shown + ")"@
    } else {
        head + decimal(winners.len()) + "-way TIE: "@ + name_list(winners) + " (each "@ + shown
            + ")"@
    }
}

fn sorted_names_of(names: &Vec<String>) -> (out: Vec<String>)
    ensures
        texts(out@) == sorted_names(texts(names@)),
{
    let ghost all = texts(names@);
    let ghost wanted = Seq::new(all.len(), |i: int| (0int, all[i]));
    let mut keys: Vec<SortKey> = Vec::new();
    let mut i: usize = 0;
    while i < names.len()
        invariant
            i <= names@.len(),
            all == texts(names@),
            wanted == Seq::new(all.len(), |i: int| (0int, all[i])),
            keys@.len() == i,
            forall|k: int| 0 <= k < i ==> (#[trigger] keys@[k])@ == wanted[k],
        decreases names@.len() - i,
    {
        keys.push(SortKey { weight: 0, text: chars_of(names[i].as_str()) });
        i += 1;
    }
    assert(key_views(keys@) =~= wanted);
    let order = sorted_order_of(keys.as_slice());
    let ghost sorted = sorted_order(wanted);
    assert(forall|k: int| 0 <= k < order@.len() ==> sorted[k] == #[trigger] order@[k] as int) by {
        assert(forall|k: int|
            0 <= k < order@.len() ==> ints(order@)[k] == #[trigger] order@[k] as int);
    }
    let mut out: Vec<String> = Vec::new();
    let mut j: usize = 0;
    while j < order.len()
        invariant
            j <= order@.len() == names@.len(),
            all == texts(names@),
            forall|k: int| 0 <= k < order@.len() ==> (#[trigger] order@[k]) < names@.len(),
            forall|k: int| 0 <= k < order@.len() ==> sorted[k] == #[trigger] order@[k] as int,
            out@.len() == j,
            forall|k: int| 0 <= k < j ==> (#[trigger] out@[k])@ == all[sorted[k]],
        decreases order@.len() - j,
    {
        out.push(names[order[j]].clone());
        j += 1;
    }
    assert(texts(out@) =~= sorted_names(all));
    out
}

impl GroupExtreme {
    /// The answer, given which groups are at the extreme, and the text of the
    /// extreme.
    pub fn finish(&self, winners: &[bool], shown: &str) -> (out: String)
        requires
            winners@.len() == self.samples@.len(),
        ensures
            out@ == extreme_text(
                self@,
                sorted_names(marked_names(self@.samples, winners@)),
                shown@,
            ),
    {
        let ghost all = self@.samples;
        let mut found: Vec<String> = Vec::new();
        let mut i: usize = 0;
        assert(texts(found@) =~= marked_names(all.take(0), winners@));
        while i < self.samples.len()
            invariant
                i <= self.samples@.len() == winners@.len(),
                all == self@.samples,
                texts(found@) == marked_names(all.take(i as int), winners@),
            decreases self.samples@.len() - i,
        {
            let ghost next = all.take(i as int + 1);
            assert(next.drop_last() =~= all.take(i as int));
            assert(next.last() == self.samples@[i as int]@);
            if winners[i] {
                let ghost before = texts(found@);
                found.push(self.samples[i].name.clone());
                assert(texts(found@) =~= before.push(self.samples@[i as int].name@));
            }
            i += 1;
        }
        assert(all.take(i as int) =~= all);
        let names = sorted_names_of(&found);
        let head = "[index] ".to_owned().concat(
            if self.high {
                "max"
            } else {
                "min"
            },
        ).concat(" ").concat(
            if self.mean {
                "mean"
            } else {
                "sum"
            },
        ).concat("(").concat(self.number.as_str()).concat(") by ").concat(
            self.category.as_str(),
        ).concat(" = ");
        if names.len() == 1 {
            assert(texts(names@)[0] == names@[0]@);
            head.concat("\"").concat(names[0].as_str()).concat("\" (").concat(shown).concat(")")
        } else {
            head.concat(decimal_of(names.len()).as_str()).concat("-way TIE: ").concat(
                name_list_of(names.as_slice()).as_str(),
            ).concat(" (each ").concat(shown).concat(")")
        }
    }
}

fn categories_of(rows: &[Json], fields: &Vec<(String, Json)>, q: &[char]) -> (out: Vec<SortKey>)
    ensures
        key_views(out@) == categories(trees(rows@), field_trees(fields@), q@),
{
    let ghost ts = trees(rows@);
    let ghost fs = field_trees(fields@);
    let mut out: Vec<SortKey> = Vec::new();
    let mut i: usize = 0;
    assert(key_views(out@) =~= Seq::empty());
    while i < fields.len()
        invariant
            i <= fields@.len(),
            ts == trees(rows@),
            fs == field_trees(fields@),
            key_views(out@) == categories(ts, fs.take(i as int), q@),
        decreases fields@.len() - i,
    {
        let ghost next = fs.take(i as int + 1);
        assert(next.drop_last() =~= fs.take(i as int));
        assert(next.last() == (fields@[i as int].0@, fields@[i as int].1@));
        let name = fields[i].0.as_str();
        if is_of_kind(&fields[i].1, false) && is_named(q, name) {
            let values = text_column_of(rows, name);
            let d: usize = distinct_of(values.as_slice()).len();
            if d < rows.len() {
                let ghost before = key_views(out@);
                out.push(SortKey { weight: d as i128, text: chars_of(name) });
                assert(key_views(out@) =~= before.push((d as int, name@)));
            }
        }
        i += 1;
    }
    assert(fs.take(i as int) =~= fs);
    out
}

fn category_fields_of(rows: &[Json], fields: &Vec<(String, Json)>, q: &[char]) -> (out: Vec<String>)
    ensures
        texts(out@) == category_fields(trees(rows@), field_trees(fields@), q@),
{
    let cats = categories_of(rows, fields, q);
    let ghost wanted = key_views(cats@);
    let order = sorted_order_of(cats.as_slice());
    let ghost sorted = sorted_order(wanted);
    assert(forall|k: int| 0 <= k < order@.len() ==> sorted[k] == #[trigger] order@[k] as int) by {
        assert(forall|k: int|
            0 <= k < order@.len() ==> ints(order@)[k] == #[trigger] order@[k] as int);
    }
    let mut out: Vec<String> = Vec::new();
    let mut j: usize = 0;
    while j < order.len()
        invariant
            j <= order@.len() == cats@.len(),
            wanted == key_views(cats@),
            forall|k: int| 0 <= k < order@.len() ==> (#[trigger] order@[k]) < cats@.len(),
            forall|k: int| 0 <= k < order@.len() ==> sorted[k] == #[trigger] order@[k] as int,
            out@.len() == j,
            forall|k: int| 0 <= k < j ==> (#[trigger] out@[k])@ == wanted[sorted[k]].1,
        decreases order@.len() - j,
    {
        let at: usize = order[j];
        assert(wanted[at as int] == cats@[at as int]@);
        out.push(string_of(&cats[at].text));
        j += 1;
    }
    assert(texts(out@) =~= category_fields(trees(rows@), field_trees(fields@), q@));
    out
}

fn group_entry_of(row: &Json, cats: &Vec<String>, num: &str) -> (out: Option<(String, u64)>)
    ensures
        match out {
            Some(e) => group_entry(row@, texts(cats@), num@) == Some((e.0@, e.1)),
            None => group_entry(row@, texts(cats@), num@) is None,
        },
{
    let ghost fields = texts(cats@);
    let mut parts: Vec<String> = Vec::new();
    let mut i: usize = 0;
    while i < cats.len()
        invariant
            i <= cats@.len(),
            fields == texts(cats@),
            parts@.len() == i,
            forall|k: int|
                0 <= k < i ==> match row@.get(#[trigger] fields[k]) {
                    Some(v) => v is Text && v->Text_0 == parts@[k]@,
                    None => false,
                },
        decreases cats@.len() - i,
    {
        assert(fields[i as int] == cats@[i as int]@);
        match row.get(cats[i].as_str()) {
            Some(Json::Text(s)) => {
                parts.push(s.clone());
            },
            _ => {
                assert(!has_strings(row@, fields));
                return None;
            },
        }
        i += 1;
    }
    assert(texts(parts@) =~= strings_of(row@, fields));
    match row.get(num) {
        Some(value) => match value.double() {
            Some(bits) => Some((join_of(parts.as_slice(), " × "), bits)),
            None => None,
        },
        None => None,
    }
}

proof fn lemma_sample_at(samples: Seq<SampleView>, name: Seq<char>, at: int)
    requires
        0 <= at <= samples.len(),
        forall|k: int| 0 <= k < at ==> (#[trigger] samples[k]).name != name,
        at < samples.len() ==> samples[at].name == name,
    ensures
        sample_at(samples, name) == at,
    decreases samples.len(),
{
    if samples.len() > 0 && at > 0 {
        assert(samples[0].name != name);
        let rest = samples.skip(1);
        assert(forall|k: int| 0 <= k < rest.len() ==> #[trigger] rest[k] == samples[k + 1]);
        lemma_sample_at(rest, name, at - 1);
    }
}

fn add_sample(samples: &mut Vec<Sample>, name: String, value: u64)
    ensures
        sample_views(final(samples)@) == with_sample(
            sample_views(old(samples)@),
            name@,
            value,
        ),
{
    let ghost before = sample_views(samples@);
    let n: usize = samples.len();
    let mut at: usize = 0;
    while at < n && !same_text(samples[at].name.as_str(), name.as_str())
        invariant
            at <= n == samples@.len(),
            before == sample_views(samples@),
            forall|k: int| 0 <= k < at ==> (#[trigger] before[k]).name != name@,
        decreases n - at,
    {
        assert(before[at as int].name == samples@[at as int].name@);
        at += 1;
    }
    proof {
        if at < n {
            assert(before[at as int].name == samples@[at as int].name@);
        }
        lemma_sample_at(before, name@, at as int);
    }
    if at < n {
        let mut values: Vec<u64> = Vec::new();
        let held = &samples[at].values;
        let mut k: usize = 0;
        while k < held.len()
            invariant
                k <= held@.len(),
                values@ == held@.take(k as int),
            decreases held@.len() - k,
        {
            assert(held@.take(k as int + 1) =~= held@.take(k as int).push(held@[k as int]));
            values.push(held[k]);
            k += 1;
        }
        assert(held@.take(k as int) =~= held@);
        values.push(value);
        let ghost entry = SampleView { name: name@, values: before[at as int].values.push(value) };
        let sample = Sample { name, values };
        assert(sample@ == entry);
        samples.set(at, sample);
        assert(sample_views(samples@) =~= before.update(at as int, entry));
    } else {
        let mut values: Vec<u64> = Vec::new();
        values.push(value);
        assert(values@ =~= seq![value]);
        let ghost entry = SampleView { name: name@, values: seq![value] };
        samples.push(Sample { name, values });
        assert(sample_views(samples@) =~= before.push(entry));
    }
}

/// The extreme group that a question asks for.
pub fn group_extreme(rows: &[Json], q: &[char]) -> (out: Option<GroupExtreme>)
    ensures
        match out {
            Some(e) => extreme_group(trees(rows@), q@) == Some(e@),
            None => extreme_group(trees(rows@), q@) is None,
        },
{
    let ghost ts = trees(rows@);
    let highs = vec!["highest", "largest", "most", "greatest", "maximum", "top"];
    let lows = vec!["lowest", "smallest", "least", "minimum", "fewest"];
    let words = vec!["total", "sum", "average", "mean", "per ", "each", " by "];
    assert(highs@ =~= high_words());
    assert(lows@ =~= low_words());
    assert(words@ =~= group_words());
    let high = has_any_str(q, highs.as_slice());
    if high == has_any_str(q, lows.as_slice()) || !has_any_str(q, words.as_slice()) {
        return None;
    }
    let fields = match first_fields_of(rows) {
        None => {
            return None;
        },
        Some(fields) => fields,
    };
    let cats = category_fields_of(rows, fields, q);
    assert(texts(cats@).len() == cats@.len());
    if cats.len() == 0 {
        return None;
    }
    let num = match named_field(fields, q, true) {
        None => {
            return None;
        },
        Some(num) => num,
    };
    if !field_is_clean_numeric(rows, num.as_str()) {
        return None;
    }
    let mut samples: Vec<Sample> = Vec::new();
    let ghost names = texts(cats@);
    let mut i: usize = 0;
    assert(sample_views(samples@) =~= Seq::empty());
    while i < rows.len()
        invariant
            i <= rows@.len(),
            ts == trees(rows@),
            names == texts(cats@),
            sample_views(samples@) == samples_of(ts.take(i as int), names, num@),
        decreases rows@.len() - i,
    {
        let ghost next = ts.take(i as int + 1);
        assert(next.drop_last() =~= ts.take(i as int));
        assert(next.last() == rows@[i as int]@);
        match group_entry_of(&rows[i], &cats, num.as_str()) {
            Some((name, value)) => {
                add_sample(&mut samples, name, value);
            },
            None => {},
        }
        i += 1;
    }
    assert(ts.take(i as int) =~= ts);
    assert(sample_views(samples@).len() == samples@.len());
    if samples.len() == 0 {
        return None;
    }
    let mean = has_str(q, "average") || has_str(q, "mean");
    let category = join_of(cats.as_slice(), ",");
    Some(GroupExtreme { high, mean, number: num, category, samples })
}

/// The string fields that a question groups by: those that it names and that have
/// fewer distinct strings than there are records, fewest first.
pub proof fn law_category_fields(
    rows: Seq<Tree>,
    fields: Seq<(Seq<char>, Tree)>,
    q: Seq<char>,
)
    ensures
        ({
            let cats = fields.filter(
                |f: (Seq<char>, Tree)|
                    f.1 is Text && contains_text(q, ascii_lower(f.0)) && text_column(
                        rows,
                        f.0,
                    ).to_set().len() < rows.len(),
            ).map_values(
                |f: (Seq<char>, Tree)| (text_column(rows, f.0).to_set().len() as int, f.0),
            );
            category_fields(rows, fields, q) == Seq::new(
                cats.len(),
                |i: int| cats[sorted_order(cats)[i]].1,
            )
        }),
{
    lemma_categories(rows, fields, q);
}

proof fn lemma_categories(rows: Seq<Tree>, fields: Seq<(Seq<char>, Tree)>, q: Seq<char>)
    ensures
        categories(rows, fields, q) == fields.filter(
            |f: (Seq<char>, Tree)|
                f.1 is Text && contains_text(q, ascii_lower(f.0)) && text_column(
                    rows,
                    f.0,
                ).to_set().len() < rows.len(),
        ).map_values(
            |f: (Seq<char>, Tree)| (text_column(rows, f.0).to_set().len() as int, f.0),
        ),
    decreases fields.len(),
{
    reveal(Seq::filter);
    if fields.len() > 0 {
        lemma_categories(rows, fields.drop_last(), q);
        law_occurrences(text_column(rows, fields.last().0), Seq::empty());
    }
    assert(categories(rows, fields, q) =~= fields.filter(
        |f: (Seq<char>, Tree)|
            f.1 is Text && contains_text(q, ascii_lower(f.0)) && text_column(
                rows,
                f.0,
            ).to_set().len() < rows.len(),
    ).map_values(|f: (Seq<char>, Tree)| (text_column(rows, f.0).to_set().len() as int, f.0)));
}

/// The group that a record belongs to, if it has a string in each field and a
/// number: the strings, with a cross between them.
pub proof fn law_group_entry(row: Tree, cats: Seq<Seq<char>>, num: Seq<char>)
    ensures
        group_entry(row, cats, num) is Some <==> row.get(num) is Some && row.get(
            num,
        )->0.double() is Some && forall|i: int|
            0 <= i < cats.len() ==> row.get(#[trigger] cats[i]) is Some && row.get(
                cats[i],
            )->0 is Text,
        group_entry(row, cats, num) is Some ==> (group_entry(row, cats, num)->0).1 == row.get(
            num,
        )->0.double()->0 && (group_entry(row, cats, num)->0).0 == join(
            cats.map_values(|c: Seq<char>| row.get(c)->0->Text_0),
            " × "@,
        ),
{
    assert(strings_of(row, cats) =~= cats.map_values(|c: Seq<char>| row.get(c)->0->Text_0));
    if group_entry(row, cats, num) is Some {
        assert forall|i: int| 0 <= i < cats.len() implies row.get(#[trigger] cats[i]) is Some
            && row.get(cats[i])->0 is Text by {}
    }
}

/// Each group of records has one sample, whose values are those of every record of
/// the group, in order; and only groups that a record belongs to have one.
pub proof fn law_samples(
    rows: Seq<Tree>,
    cats: Seq<Seq<char>>,
    num: Seq<char>,
    name: Seq<char>,
)
    ensures
        ({
            let of_name = rows.filter(
                |r: Tree|
                    group_entry(r, cats, num) is Some && (group_entry(r, cats, num)->0).0 == name,
            );
            let samples = samples_of(rows, cats, num);
            &&& forall|i: int, j: int|
                0 <= i < j < samples.len() ==> (#[trigger] samples[i]).name != (
                #[trigger] samples[j]).name
            &&& (exists|i: int| 0 <= i < samples.len() && (#[trigger] samples[i]).name == name)
                <==> of_name.len() > 0
            &&& forall|i: int|
                0 <= i < samples.len() && (#[trigger] samples[i]).name == name
                    ==> samples[i].values == of_name.map_values(
                    |r: Tree| (group_entry(r, cats, num)->0).1,
                )
        }),
    decreases rows.len(),
{
    reveal(Seq::filter);
    let inside = |r: Tree|
        group_entry(r, cats, num) is Some && (group_entry(r, cats, num)->0).0 == name;
    let value = |r: Tree| (group_entry(r, cats, num)->0).1;
    let samples = samples_of(rows, cats, num);
    if rows.len() > 0 {
        let rest = rows.drop_last();
        let before = samples_of(rest, cats, num);
        law_samples(rest, cats, num, name);
        match group_entry(rows.last(), cats, num) {
            Some(e) => {
                lemma_found_at(before, e.0);
                let at = sample_at(before, e.0);
                if e.0 == name {
                    assert(rows.filter(inside) =~= rest.filter(inside).push(rows.last()));
                    assert(rows.filter(inside).map_values(value) =~= rest.filter(
                        inside,
                    ).map_values(value).push(e.1));
                    assert(samples[at].name == name);
                    if at >= before.len() {
                        assert(rest.filter(inside).len() == 0) by {
                            if rest.filter(inside).len() > 0 {
                                let i = choose|i: int|
                                    0 <= i < before.len() && (#[trigger] before[i]).name == name;
                                assert(before[i].name != e.0);
                            }
                        }
                        assert(rest.filter(inside).map_values(value) =~= Seq::empty());
                        assert(samples[at].values =~= rows.filter(inside).map_values(value));
                    }
                    assert forall|i: int| 0 <= i < samples.len() && (#[trigger] samples[i]).name
                        == name implies samples[i].values == rows.filter(inside).map_values(
                        value,
                    ) by {
                        if i != at {
                            assert(samples[i] == before[i]);
                            assert(before[i].name == name);
                            if at < before.len() {
                                assert(before[at].name == name);
                                if i < at {
                                    assert(before[i].name != before[at].name);
                                } else {
                                    assert(before[at].name != before[i].name);
                                }
                            }
                        }
                    }
                } else {
                    assert(rows.filter(inside) =~= rest.filter(inside));
                    if exists|i: int| 0 <= i < before.len() && (#[trigger] before[i]).name == name {
                        let i = choose|i: int|
                            0 <= i < before.len() && (#[trigger] before[i]).name == name;
                        assert(samples[i].name == name);
                    }
                    if exists|i: int| 0 <= i < samples.len() && (#[trigger] samples[i]).name
                        == name {
                        let i = choose|i: int|
                            0 <= i < samples.len() && (#[trigger] samples[i]).name == name;
                        assert(i != at);
                        assert(before[i].name == name);
                    }
                    assert forall|i: int| 0 <= i < samples.len() && (#[trigger] samples[i]).name
                        == name implies samples[i].values == rows.filter(inside).map_values(
                        value,
                    ) by {
                        assert(i != at);
                        assert(before[i] == samples[i]);
                        assert(before[i].name == name);
                    }
                }
                assert forall|i: int, j: int| 0 <= i < j < samples.len() implies (
                #[trigger] samples[i]).name != (#[trigger] samples[j]).name by {
                    if i < before.len() {
                        assert(samples[i].name == before[i].name);
                    }
                    if j < before.len() {
                        assert(samples[j].name == before[j].name);
                    }
                }
            },
            None => {},
        }
    }
}

proof fn lemma_found_at(samples: Seq<SampleView>, name: Seq<char>)
    ensures
        0 <= sample_at(samples, name) <= samples.len(),
        forall|k: int|
            0 <= k < sample_at(samples, name) ==> (#[trigger] samples[k]).name != name,
        sample_at(samples, name) < samples.len() ==> samples[sample_at(samples, name)].name == name,
    decreases samples.len(),
{
    if samples.len() > 0 && samples[0].name != name {
        let rest = samples.skip(1);
        lemma_found_at(rest, name);
        assert(forall|k: int| 0 <= k < rest.len() ==> #[trigger] rest[k] == samples[k + 1]);
        assert forall|k: int| 0 <= k < sample_at(samples, name) implies (
        #[trigger] samples[k]).name != name by {
            if k > 0 {
                assert(rest[k - 1].name != name);
            }
        }
    }
}

/// A question asks for the group with the extreme sum or mean if it has a word for
/// the most and none for the least, or the other way round, a word for groups or
/// totals, a number field and a field to group by.
pub proof fn law_extreme_group(rows: Seq<Tree>, q: Seq<char>)
    ensures
        ({
            let high = contains_text(q, "highest"@) || contains_text(q, "largest"@)
                || contains_text(q, "most"@) || contains_text(q, "greatest"@) || contains_text(
                q,
                "maximum"@,
            ) || contains_text(q, "top"@);
            let low = contains_text(q, "lowest"@) || contains_text(q, "smallest"@)
                || contains_text(q, "least"@) || contains_text(q, "minimum"@) || contains_text(
                q,
                "fewest"@,
            );
            let grouped = contains_text(q, "total"@) || contains_text(q, "sum"@) || contains_text(
                q,
                "average"@,
            ) || contains_text(q, "mean"@) || contains_text(q, "per "@) || contains_text(q, "each"@)
                || contains_text(q, " by "@);
            let fields = first_fields(rows)->0;
            let cats = category_fields(rows, fields, q);
            let num = first_field(fields, q, true, true);
            let asked = high != low && grouped && first_fields(rows) is Some && cats.len() > 0 && num
                is Some && clean_numeric(rows, num->0) && samples_of(rows, cats, num->0).len() > 0;
            &&& !asked ==> extreme_group(rows, q) is None
            &&& asked ==> extreme_group(rows, q) == Some(
                ExtremeView {
                    high,
                    mean: contains_text(q, "average"@) || contains_text(q, "mean"@),
                    number: num->0,
                    category: join(cats, ","@),
                    samples: samples_of(rows, cats, num->0),
                },
            )
        }),
{
    let h = high_words();
    assert(h[0]@ == "highest"@);
    assert(h[1]@ == "largest"@);
    assert(h[2]@ == "most"@);
    assert(h[3]@ == "greatest"@);
    assert(h[4]@ == "maximum"@);
    assert(h[5]@ == "top"@);
    let l = low_words();
    assert(l[0]@ == "lowest"@);
    assert(l[1]@ == "smallest"@);
    assert(l[2]@ == "least"@);
    assert(l[3]@ == "minimum"@);
    assert(l[4]@ == "fewest"@);
    let g = group_words();
    assert(g[0]@ == "total"@);
    assert(g[1]@ == "sum"@);
    assert(g[2]@ == "average"@);
    assert(g[3]@ == "mean"@);
    assert(g[4]@ == "per "@);
    assert(g[5]@ == "each"@);
    assert(g[6]@ == " by "@);
}

/// The winning groups are the marked ones, every one, by name in the order of
/// their characters.
pub proof fn law_winning_groups(samples: Seq<SampleView>, mask: Seq<bool>, sample: SampleView)
    ensures
        mask.len() == samples.len() + 1 ==> marked_names(samples.push(sample), mask) == (
        if mask[samples.len() as int] {
            marked_names(samples, mask).push(sample.name)
        } else {
            marked_names(samples, mask)
        }),
        marked_names(Seq::empty(), mask) == Seq::<Seq<char>>::empty(),
        ({
            let list = marked_names(samples, mask);
            sorted_names(list) == Seq::new(
                list.len(),
                |i: int|
                    list[sorted_order(list.map_values(|s: Seq<char>| (0int, s)))[i]],
            )
        }),
{
    assert(samples.push(sample).drop_last() =~= samples);
    let list = marked_names(samples, mask);
    assert(Seq::new(list.len(), |i: int| (0int, list[i])) =~= list.map_values(
        |s: Seq<char>| (0int, s),
    ));
}

/// The line for the extreme group: the one winner, or how many share the extreme.
pub proof fn law_extreme_text(e: ExtremeView, winners: Seq<Seq<char>>, shown: Seq<char>)
    ensures
        ({
            let head = "[index] "@ + (if e.high {
                "max"@
            } else {
                "min"@
            }) + " "@ + (if e.mean {
                "mean"@
            } else {
                "sum"@
            }) + "("@ + e.number + ") by "@ + e.category + " = "@;
            &&& winners.len() == 1 ==> extreme_text(e, winners, shown) == head + "\""@ + winners[0]
                + "\" ("@ + shown + ")"@
            &&& winners.len() != 1 ==> extreme_text(e, winners, shown) == head + decimal(
                winners.len(),
            ) + "-way TIE: "@ + name_list(winners) + " (each "@ + shown + ")"@
        }),
{
}

/// What is left of an extreme group says what its fields say, with every sample.
pub proof fn law_extreme_views(e: GroupExtreme, i: int)
    ensures
        e@.high == e.high,
        e@.mean == e.mean,
        e@.number == e.number@,
        e@.category == e.category@,
        e@.samples.len() == e.samples@.len(),
        0 <= i < e.samples@.len() ==> e@.samples[i].name == e.samples@[i].name@
            && e@.samples[i].values == e.samples@[i].values@,
{
}

} // verus!
