//! What is told of a payload when it is taken in.
//!
//! The mean of a field is floating-point work, which is done outside of this
//! library; its text goes into `finish`.
use crate::cas::{stored, Cas};
use crate::column::{distinct, distinct_of, law_occurrences};
use crate::describe::{
    all_doubles, all_fields, collect_fields, doubles, field_list, greatest_value,
    law_present_and_bounds, least_value, line_views, list_fields, list_values, numbers_of, ref_views, value_views, values_of,
    DescribeLine, LineView,
};
use crate::detect::{content_type, detect, ContentType};
use crate::doc::rendered;
use crate::json::{compact, field_trees, json_of_bytes, rank, trees, Json, Tree};
use crate::limits::DEFAULT_STRUCTURAL_CODE_TARGET_TOKENS;
use crate::query::{parse_rows, rows_of};
use crate::text::{
    chars_of, decimal, decimal_of, join, join_of, lines, lines_of, same_text, string_of, texts, trim,
    trim_end, trim_end_of, trim_of,
};
use crate::tokens::{HeuristicCounter, TokenCounter};
use crate::utf8::{lossy_text, utf8_lossy};
use crate::view::{code_view, compress_structural_code_to_budget, fitted_view, source_segment};
use vstd::prelude::*;

verus! {

// ---------------------------------------------------------------------------
// The summary
// ---------------------------------------------------------------------------

/// The names of fields.
pub open spec fn names_of(fields: Seq<(Seq<char>, Tree)>) -> Seq<Seq<char>> {
    Seq::new(fields.len(), |i: int| fields[i].0)
}

/// The names of the fields of the first record, if it is an object.
pub open spec fn first_names(items: Seq<Tree>) -> Seq<Seq<char>> {
    if items.len() > 0 {
        match items[0] {
            Tree::Object(fields) => names_of(fields),
            _ => Seq::empty(),
        }
    } else {
        Seq::empty()
    }
}

/// A payload in one line.
pub open spec fn summary_text(bytes: Seq<u8>) -> Seq<char> {
    match content_type(bytes) {
        ContentType::Json => match json_of_bytes(bytes) {
            Some(Tree::Array(items)) => "json array, "@ + decimal(items.len())
                + " items, fields: ["@ + join(first_names(items), ","@) + "]"@,
            Some(Tree::Object(fields)) => "json object, keys: ["@ + join(names_of(fields), ","@)
                + "]"@,
            _ => "json, "@ + decimal(bytes.len()) + " bytes"@,
        },
        ContentType::Log => "log, "@ + decimal(lines(utf8_lossy(bytes)).len()) + " lines"@,
        ContentType::Text => "text, "@ + decimal(bytes.len()) + " bytes"@,
    }
}

fn names_list(fields: &Vec<(String, Json)>) -> (out: Vec<String>)
    ensures
        texts(out@) == names_of(field_trees(fields@)),
{
    let mut out: Vec<String> = Vec::new();
    let mut i: usize = 0;
    while i < fields.len()
        invariant
            i <= fields@.len(),
            out@.len() == i,
            forall|k: int| 0 <= k < i ==> (#[trigger] out@[k])@ == fields@[k].0@,
        decreases fields@.len() - i,
    {
        out.push(fields[i].0.clone());
        i += 1;
    }
    assert(texts(out@) =~= names_of(field_trees(fields@)));
    out
}

/// A payload in one line.
pub fn summarize(bytes: &[u8]) -> (out: String)
    ensures
        out@ == summary_text(bytes@),
{
    match detect(bytes) {
        ContentType::Json => match Json::parse(bytes) {
            Some(Json::Array(items)) => {
                let ghost ts = trees(items@);
                assert(ts.len() == items@.len());
                let names: Vec<String> = if items.len() > 0 {
                    assert(ts[0] == items@[0]@);
                    match &items[0] {
                        Json::Object(fields) => names_list(fields),
                        _ => Vec::new(),
                    }
                } else {
                    Vec::new()
                };
                assert(texts(names@) =~= first_names(ts));
                "json array, ".to_owned().concat(decimal_of(items.len()).as_str()).concat(
                    " items, fields: [",
                ).concat(join_of(names.as_slice(), ",").as_str()).concat("]")
            },
            Some(Json::Object(fields)) => {
                let names = names_list(&fields);
                "json object, keys: [".to_owned().concat(
                    join_of(names.as_slice(), ",").as_str(),
                ).concat("]")
            },
            _ => "json, ".to_owned().concat(decimal_of(bytes.len()).as_str()).concat(" bytes"),
        },
        ContentType::Log => {
            let text = lossy_text(bytes);
            let ls = lines_of(&chars_of(text.as_str()));
            assert(crate::text::seqs(ls@).len() == ls@.len());
            "log, ".to_owned().concat(decimal_of(ls.len()).as_str()).concat(" lines")
        },
        ContentType::Text => "text, ".to_owned().concat(decimal_of(bytes.len()).as_str()).concat(
            " bytes",
        ),
    }
}

// ---------------------------------------------------------------------------
// The fact card
// ---------------------------------------------------------------------------

/// The values as they are written.
pub open spec fn written(values: Seq<Tree>) -> Seq<Seq<char>> {
    Seq::new(values.len(), |i: int| compact(values[i]))
}

/// How many of the records have a field.
pub open spec fn share_text(there: nat, total: nat) -> Seq<char> {
    "present="@ + decimal(there) + "/"@ + decimal(total)
}

/// What is told of one field: its range and its mean, where all its values are
/// finite doubles; else how many different values it has.
pub open spec fn fact_of(name: Seq<char>, values: Seq<Tree>, total: nat) -> LineView {
    if all_doubles(values) {
        LineView::Numeric {
            lead: "  "@ + name + ": numeric "@ + share_text(values.len(), total) + " min="@
                + least_value(values).printed() + " max="@ + greatest_value(values).printed()
                + " mean="@,
            values: doubles(values),
        }
    } else {
        LineView::Text(
            "  "@ + name + ": "@ + share_text(values.len(), total) + " "@ + decimal(
                distinct(written(values)).len(),
            ) + " distinct"@,
        )
    }
}

/// What is told of each field of the records.
pub open spec fn facts_of(rows: Seq<Tree>) -> Seq<LineView> {
    let pairs = all_fields(rows);
    let names = field_list(pairs);
    Seq::new(names.len(), |i: int| fact_of(names[i], values_of(pairs, names[i]), rows.len()))
}

/// What is told of each field of a payload: nothing where it is no JSON array,
/// or no record of it has a field.
pub open spec fn card_of(bytes: Seq<u8>) -> Option<Seq<LineView>> {
    match rows_of(bytes) {
        Some(rows) => if facts_of(rows).len() > 0 {
            Some(facts_of(rows))
        } else {
            None
        },
        None => None,
    }
}

/// What is told of each field, but for the means.
#[derive(Debug)]
pub struct FactCard {
    /// The line of each field.
    pub lines: Vec<DescribeLine>,
}

/// The text of a line, given the text of the mean.
pub open spec fn finished_fact(line: LineView, mean: Seq<char>) -> Seq<char> {
    match line {
        LineView::Text(s) => s,
        LineView::Numeric { lead, .. } => lead + mean,
    }
}

/// The lines, given the texts of the means.
pub open spec fn finished_facts(lines: Seq<LineView>, means: Seq<Seq<char>>) -> Seq<char> {
    "field stats:\n"@ + join(
        Seq::new(lines.len(), |i: int| finished_fact(lines[i], means[i])),
        "\n"@,
    )
}

impl FactCard {
    /// The card as text, given the text of the mean of each field; that of a
    /// field that has none is passed over.
    pub fn finish(&self, means: &[String]) -> (out: String)
        requires
            means@.len() == self.lines@.len(),
        ensures
            out@ == finished_facts(line_views(self.lines@), texts(means@)),
    {
        let ghost views = line_views(self.lines@);
        let mut parts: Vec<String> = Vec::new();
        let mut i: usize = 0;
        while i < self.lines.len()
            invariant
                i <= self.lines@.len(),
                means@.len() == self.lines@.len(),
                views == line_views(self.lines@),
                parts@.len() == i,
                forall|k: int|
                    0 <= k < i ==> (#[trigger] parts@[k])@ == finished_fact(views[k], means@[k]@),
            decreases self.lines@.len() - i,
        {
            assert(views[i as int] == self.lines@[i as int]@);
            match &self.lines[i] {
                DescribeLine::Text(s) => {
                    parts.push(s.clone());
                },
                DescribeLine::Numeric { lead, .. } => {
                    parts.push(lead.clone().concat(means[i].as_str()));
                },
            }
            i += 1;
        }
        assert(texts(parts@) =~= Seq::new(
            views.len(),
            |k: int| finished_fact(views[k], texts(means@)[k]),
        ));
        "field stats:\n".to_owned().concat(join_of(parts.as_slice(), "\n").as_str())
    }
}

fn count_written(values: &Vec<&Json>) -> (n: usize)
    ensures
        n == distinct(written(value_views(values@))).len(),
{
    let ghost vs = value_views(values@);
    let mut list: Vec<String> = Vec::new();
    let mut i: usize = 0;
    while i < values.len()
        invariant
            i <= values@.len(),
            vs == value_views(values@),
            list@.len() == i,
            forall|k: int| 0 <= k < i ==> (#[trigger] list@[k])@ == compact(vs[k]),
        decreases values@.len() - i,
    {
        assert(vs[i as int] == values@[i as int]@);
        list.push(values[i].compact());
        i += 1;
    }
    assert(texts(list@) =~= written(vs));
    let found = distinct_of(list.as_slice());
    assert(texts(found@).len() == found@.len());
    found.len()
}

fn fact_line(name: &str, values: &Vec<&Json>, total: usize) -> (out: DescribeLine)
    requires
        values@.len() > 0,
    ensures
        out@ == fact_of(name@, value_views(values@), total as nat),
{
    assert(value_views(values@).len() == values@.len());
    let n: usize = values.len();
    let share = "present=".to_owned().concat(decimal_of(n).as_str()).concat("/").concat(
        decimal_of(total).as_str(),
    );
    match numbers_of(values) {
        Some(numbers) => DescribeLine::Numeric {
            lead: "  ".to_owned().concat(name).concat(": numeric ").concat(share.as_str()).concat(
                " min=",
            ).concat(numbers.low.as_str()).concat(" max=").concat(numbers.high.as_str()).concat(
                " mean=",
            ),
            values: numbers.bits,
        },
        None => DescribeLine::Text(
            "  ".to_owned().concat(name).concat(": ").concat(share.as_str()).concat(" ").concat(
                decimal_of(count_written(values)).as_str(),
            ).concat(" distinct"),
        ),
    }
}

/// A field in the list has a value.
proof fn lemma_listed_has_values(pairs: Seq<(Seq<char>, Tree)>, i: int)
    requires
        0 <= i < field_list(pairs).len(),
    ensures
        values_of(pairs, field_list(pairs)[i]).len() > 0,
    decreases pairs.len(),
{
    let before = pairs.drop_last();
    let name = field_list(pairs)[i];
    if i < field_list(before).len() {
        lemma_listed_has_values(before, i);
        assert(field_list(before)[i] == name);
    } else {
        assert(name == pairs.last().0);
    }
}

/// What is told of each field of a payload.
pub fn fact_card(bytes: &[u8]) -> (out: Option<FactCard>)
    ensures
        match out {
            Some(card) => card_of(bytes@) == Some(line_views(card.lines@)),
            None => card_of(bytes@) is None,
        },
{
    let rows = match parse_rows(bytes) {
        Some(rows) => rows,
        None => {
            return None;
        },
    };
    let ghost ts = trees(rows@);
    assert(ts.len() == rows@.len());
    let refs = collect_fields(rows.as_slice());
    let names = list_fields(refs.as_slice());
    let ghost pairs = all_fields(ts);
    let ghost wanted = field_list(pairs);
    let total: usize = rows.len();
    let mut lines: Vec<DescribeLine> = Vec::new();
    let mut k: usize = 0;
    while k < names.len()
        invariant
            k <= names@.len(),
            pairs == ref_views(refs@),
            wanted == field_list(pairs),
            wanted == texts(names@),
            lines@.len() == k,
            forall|m: int|
                0 <= m < k ==> (#[trigger] lines@[m])@ == fact_of(
                    wanted[m],
                    values_of(pairs, wanted[m]),
                    total as nat,
                ),
        decreases names@.len() - k,
    {
        let values = list_values(refs.as_slice(), names[k].as_str());
        proof {
            lemma_listed_has_values(pairs, k as int);
            assert(value_views(values@).len() == values@.len());
        }
        lines.push(fact_line(names[k].as_str(), &values, total));
        k += 1;
    }
    assert(line_views(lines@) =~= facts_of(ts));
    if lines.len() == 0 {
        return None;
    }
    Some(FactCard { lines })
}

// ---------------------------------------------------------------------------
// The answer
// ---------------------------------------------------------------------------

/// What can be asked of a held payload.
pub open spec fn advice_text() -> Seq<char> {
    "\n\nThe full output is held server-side and is NOT in your context. Use coffer_digest(handle, query) for EXACT aggregates over ALL of it (count/sum/mean/median/percentile/group-by/argmax/filter-aggregate), coffer_query(handle, field, op, value) to keep only matching rows, coffer_select(handle, where) to filter by a conjunction and get the matches as a new handle to narrow again, coffer_bucket(handle, field, width) for a numeric-band histogram and coffer_window(handle, pattern, window) for a per-block log histogram, coffer_join(left, right, left_key, right_key, agg) to correlate two handles exactly, or coffer_search(handle, pattern) / coffer_lines(handle, start_line, end_line) for logs/text, coffer_json(handle, path) / coffer_rows(handle, start, limit) / coffer_retrieve(handle, start, max_bytes) for a small window; set full=true only for small payloads you truly need raw, subject to the configured hard cap."@
}

fn advice() -> (s: &'static str)
    ensures
        s@ == advice_text(),
{
    "\n\nThe full output is held server-side and is NOT in your context. Use coffer_digest(handle, query) for EXACT aggregates over ALL of it (count/sum/mean/median/percentile/group-by/argmax/filter-aggregate), coffer_query(handle, field, op, value) to keep only matching rows, coffer_select(handle, where) to filter by a conjunction and get the matches as a new handle to narrow again, coffer_bucket(handle, field, width) for a numeric-band histogram and coffer_window(handle, pattern, window) for a per-block log histogram, coffer_join(left, right, left_key, right_key, agg) to correlate two handles exactly, or coffer_search(handle, pattern) / coffer_lines(handle, start_line, end_line) for logs/text, coffer_json(handle, path) / coffer_rows(handle, start, limit) / coffer_retrieve(handle, start, max_bytes) for a small window; set full=true only for small payloads you truly need raw, subject to the configured hard cap."
}

/// What is told of a payload up to its card.
pub open spec fn head_text(handle: Seq<char>, bytes: Seq<u8>) -> Seq<char> {
    "handle: "@ + handle + "\nsummary: "@ + summary_text(bytes) + "\nbytes: "@ + decimal(
        bytes.len(),
    )
}

/// What is told of a payload, but for the means.
#[derive(Debug)]
pub struct Ingested {
    /// The text up to the card.
    pub head: String,
    /// The card, where there is one.
    pub card: Option<FactCard>,
}

impl Ingested {
    /// How many means are asked for.
    pub open spec fn means(&self) -> nat {
        match self.card {
            Some(card) => card.lines@.len(),
            None => 0,
        }
    }

    /// The text, given the text of the mean of each field.
    pub fn finish(&self, means: &[String]) -> (out: String)
        requires
            means@.len() == self.means(),
        ensures
            out@ == self.head@ + (match self.card {
                Some(card) => "\n"@ + finished_facts(line_views(card.lines@), texts(means@)),
                None => Seq::empty(),
            }) + advice_text(),
    {
        match &self.card {
            Some(card) => {
                let shown = "\n".to_owned().concat(card.finish(means).as_str());
                self.head.clone().concat(shown.as_str()).concat(advice())
            },
            None => {
                assert(self.head@ + Seq::<char>::empty() =~= self.head@);
                self.head.clone().concat(advice())
            },
        }
    }
}

/// What is told of a payload that is held under a handle.
pub fn ingested_text(handle: &str, bytes: &[u8]) -> (out: Ingested)
    ensures
        out.head@ == head_text(handle@, bytes@),
        match out.card {
            Some(card) => card_of(bytes@) == Some(line_views(card.lines@)),
            None => card_of(bytes@) is None,
        },
{
    let head = "handle: ".to_owned().concat(handle).concat("\nsummary: ").concat(
        summarize(bytes).as_str(),
    ).concat("\nbytes: ").concat(decimal_of(bytes.len()).as_str());
    Ingested { head, card: fact_card(bytes) }
}

/// What is shown of a payload when it is taken in.
#[derive(Clone, Copy, Debug, PartialEq, Eq, Structural)]
pub enum IngestView {
    /// The summary.
    Summary,
    /// The summary and a code outline.
    StructuralCode,
}

/// What `format!("{:?}")` gives for a text.
pub uninterp spec fn quoted_text(s: Seq<char>) -> Seq<char>;

/// Writes a text as `str`'s `Debug` does: in quotes, with escapes. Claims that
/// the result is a function of the text alone, named `quoted_text`.
#[verifier::external_body]
fn quoted(s: &str) -> (out: String)
    ensures
        out@ == quoted_text(s@),
{
    format!("{s:?}")
}

/// The view that is asked for by name, or what is wrong with the name. White
/// space around it is passed over.
pub open spec fn view_named(name: Option<Seq<char>>) -> Result<IngestView, Seq<char>> {
    match name {
        None => Ok(IngestView::Summary),
        Some(s) => if trim(s).len() == 0 {
            Ok(IngestView::Summary)
        } else if trim(s) == "structural_code"@ {
            Ok(IngestView::StructuralCode)
        } else {
            Err(
                "unknown ingest view "@ + quoted_text(trim(s))
                    + "; supported values: structural_code"@,
            )
        },
    }
}

/// The view that is asked for by name.
pub fn ingest_view(view: Option<&str>) -> (out: Result<IngestView, String>)
    ensures
        match out {
            Ok(v) => view_named(crate::limits::setting(view)) == Ok::<IngestView, Seq<char>>(v),
            Err(e) => view_named(crate::limits::setting(view)) == Err::<IngestView, Seq<char>>(e@),
        },
{
    match view {
        None => Ok(IngestView::Summary),
        Some(s) => {
            let name = trim_of(&chars_of(s));
            if name.len() == 0 {
                return Ok(IngestView::Summary);
            }
            let name = string_of(&name);
            if same_text(name.as_str(), "structural_code") {
                Ok(IngestView::StructuralCode)
            } else {
                Err(
                    "unknown ingest view ".to_owned().concat(quoted(name.as_str()).as_str()).concat(
                        "; supported values: structural_code",
                    ),
                )
            }
        },
    }
}

/// What follows the text about a payload: the outline, for the view that has
/// one. The outline is `view`.
pub open spec fn outline_text(target: nat, view: Seq<char>) -> Seq<char> {
    "\n\nview: structural_code\nview_target_tokens: "@ + decimal(target) + "\nview_tokens: "@
        + decimal((view.len() + 3) / 4) + "\n"@ + trim_end(view)
        + "\n\nThis is a compact code outline. Retrieve the original handle before exact edits."@
}

/// `shown` is the outline of a payload within the token target.
pub open spec fn outlines(bytes: Seq<u8>, target: nat, shown: Seq<char>) -> bool {
    fitted_view(
        rendered(seq![source_segment(bytes, "structural code view"@)]),
        code_view(bytes),
        target,
        &HeuristicCounter,
        shown,
    )
}

/// The token target, or the default where none is given.
pub open spec fn target_of(target_tokens: Option<usize>) -> nat {
    match target_tokens {
        Some(n) => n as nat,
        None => DEFAULT_STRUCTURAL_CODE_TARGET_TOKENS as nat,
    }
}

/// What follows the text about a payload in a view: nothing for the summary; for
/// the outline, its text within the token target. The payload goes into `cas`.
pub fn ingested_text_with_view<C: Cas>(
    bytes: &[u8],
    view: IngestView,
    target_tokens: Option<usize>,
    cas: &mut C,
) -> (out: String)
    ensures
        match view {
            IngestView::Summary => out@ == Seq::<char>::empty() && final(cas).objects() == old(
                cas,
            ).objects(),
            IngestView::StructuralCode => {
                &&& final(cas).objects() == stored(old(cas).objects(), bytes@)
                &&& exists|shown: Seq<char>| #[trigger]
                    outlines(bytes@, target_of(target_tokens), shown) && out@ == outline_text(
                        target_of(target_tokens),
                        shown,
                    )
            },
        },
{
    match view {
        IngestView::Summary => {
            let none = String::new();
            assert(none@ =~= Seq::<char>::empty());
            none
        },
        IngestView::StructuralCode => {
            let target: usize = match target_tokens {
                Some(n) => n,
                None => DEFAULT_STRUCTURAL_CODE_TARGET_TOKENS,
            };
            let counter = HeuristicCounter;
            let compacted = compress_structural_code_to_budget(bytes, cas, target, &counter);
            let tokens: usize = counter.count(compacted.model_text.as_str());
            assert(outlines(bytes@, target as nat, compacted.model_text@));
            let cut = trim_end_of(&chars_of(compacted.model_text.as_str()));
            assert(tokens as nat == (compacted.model_text@.len() + 3) / 4);
            assert(target as nat == target_of(target_tokens));
            let out = "\n\nview: structural_code\nview_target_tokens: ".to_owned().concat(
                decimal_of(target).as_str(),
            ).concat("\nview_tokens: ").concat(decimal_of(tokens).as_str()).concat("\n").concat(
                string_of(&cut).as_str(),
            ).concat(
                "\n\nThis is a compact code outline. Retrieve the original handle before exact edits.",
            );
            assert(out@ =~= outline_text(target as nat, compacted.model_text@));
            out
        },
    }
}

/// What is said of an input: how many items or which keys a container has, how
/// many lines a log, how many bytes a text.
pub proof fn law_ingest_summary(bytes: Seq<u8>, items: Seq<Tree>, fields: Seq<(Seq<char>, Tree)>)
    ensures
        content_type(bytes) == ContentType::Json && json_of_bytes(bytes) == Some(Tree::Array(items))
            ==> summary_text(bytes) == "json array, "@ + decimal(items.len()) + " items, fields: ["@
            + join(
            if items.len() > 0 && items[0] is Object {
                items[0]->Object_0.map_values(|f: (Seq<char>, Tree)| f.0)
            } else {
                Seq::empty()
            },
            ","@,
        ) + "]"@,
        content_type(bytes) == ContentType::Json && json_of_bytes(bytes) == Some(
            Tree::Object(fields),
        ) ==> summary_text(bytes) == "json object, keys: ["@ + join(
            fields.map_values(|f: (Seq<char>, Tree)| f.0),
            ","@,
        ) + "]"@,
        content_type(bytes) == ContentType::Log ==> summary_text(bytes) == "log, "@ + decimal(
            lines(utf8_lossy(bytes)).len(),
        ) + " lines"@,
        content_type(bytes) == ContentType::Text ==> summary_text(bytes) == "text, "@ + decimal(
            bytes.len(),
        ) + " bytes"@,
{
    if items.len() > 0 && items[0] is Object {
        assert(names_of(items[0]->Object_0) =~= items[0]->Object_0.map_values(
            |f: (Seq<char>, Tree)| f.0,
        ));
    }
    assert(names_of(fields) =~= fields.map_values(|f: (Seq<char>, Tree)| f.0));
}

/// The facts of a field range over its every value: of doubles the least, the
/// greatest and what the mean is of; of others how many texts are distinct.
pub proof fn law_facts(name: Seq<char>, values: Seq<Tree>, total: nat, i: int)
    requires
        0 <= i < values.len(),
    ensures
        all_doubles(values) ==> exists|low: Tree, high: Tree|
            {
                &&& values.contains(low)
                &&& values.contains(high)
                &&& rank(low.double()->0) <= rank(values[i].double()->0) <= rank(high.double()->0)
                &&& fact_of(name, values, total) == (LineView::Numeric {
                    lead: "  "@ + name + ": numeric present="@ + decimal(values.len()) + "/"@
                        + decimal(total) + " min="@ + #[trigger] low.printed() + " max="@
                        + #[trigger] high.printed() + " mean="@,
                    values: values.map_values(|v: Tree| v.double()->0),
                })
            },
        !all_doubles(values) ==> fact_of(name, values, total) == LineView::Text(
            "  "@ + name + ": present="@ + decimal(values.len()) + "/"@ + decimal(total) + " "@
                + decimal(values.map_values(|v: Tree| compact(v)).to_set().len()) + " distinct"@,
        ),
{
    let share = share_text(values.len(), total);
    if all_doubles(values) {
        law_present_and_bounds(values, i);
        let low = least_value(values);
        let high = greatest_value(values);
        assert(low.printed() == low.printed());
        assert(high.printed() == high.printed());
        assert(doubles(values) =~= values.map_values(|v: Tree| v.double()->0));
        assert("  "@ + name + ": numeric "@ + share + " min="@ =~= "  "@ + name
            + ": numeric present="@ + decimal(values.len()) + "/"@ + decimal(total) + " min="@) by {
            reveal_strlit(": numeric ");
            reveal_strlit("present=");
            reveal_strlit(": numeric present=");
        }
    } else {
        assert(written(values) =~= values.map_values(|v: Tree| compact(v)));
        law_occurrences(written(values), Seq::empty());
        assert("  "@ + name + ": "@ + share + " "@ =~= "  "@ + name + ": present="@ + decimal(
            values.len(),
        ) + "/"@ + decimal(total) + " "@) by {
            reveal_strlit(": ");
            reveal_strlit("present=");
            reveal_strlit(": present=");
        }
    }
}

/// There is a fact for every field of the records, over all of its values; records
/// without a field have none.
pub proof fn law_card(bytes: Seq<u8>)
    ensures
        rows_of(bytes) is None ==> card_of(bytes) is None,
        rows_of(bytes) is Some ==> {
            let rows = rows_of(bytes)->0;
            let pairs = all_fields(rows);
            let facts = field_list(pairs).map_values(
                |name: Seq<char>| fact_of(name, values_of(pairs, name), rows.len()),
            );
            card_of(bytes) == (if facts.len() > 0 {
                Some(facts)
            } else {
                None
            })
        },
{
    if rows_of(bytes) is Some {
        let rows = rows_of(bytes)->0;
        let pairs = all_fields(rows);
        assert(facts_of(rows) =~= field_list(pairs).map_values(
            |name: Seq<char>| fact_of(name, values_of(pairs, name), rows.len()),
        ));
    }
}

/// The facts as text: one line each, with the means where they belong.
pub proof fn law_finished_facts(lead: Seq<char>, values: Seq<u64>, mean: Seq<char>, s: Seq<char>)
    ensures
        finished_fact(LineView::Text(s), mean) == s,
        finished_fact(LineView::Numeric { lead, values }, mean) == lead + mean,
{
}

/// The view that is asked for: none or a blank one is the summary.
pub proof fn law_view_asked(s: Seq<char>)
    ensures
        view_named(None) == Ok::<IngestView, Seq<char>>(IngestView::Summary),
        trim(s).len() == 0 ==> view_named(Some(s)) == Ok::<IngestView, Seq<char>>(
            IngestView::Summary,
        ),
        trim(s) == "structural_code"@ && trim(s).len() > 0 ==> view_named(Some(s)) == Ok::<
            IngestView,
            Seq<char>,
        >(IngestView::StructuralCode),
        trim(s).len() > 0 && trim(s) != "structural_code"@ ==> view_named(Some(s)) is Err,
{
}

/// The head of what is said of an input: its handle, summary and size.
pub proof fn law_head_text(handle: Seq<char>, bytes: Seq<u8>, n: usize)
    ensures
        head_text(handle, bytes) == "handle: "@ + handle + "\nsummary: "@ + summary_text(bytes)
            + "\nbytes: "@ + decimal(bytes.len()),
        target_of(Some(n)) == n,
        target_of(None) == 1024,
{
}

/// The facts make one text, a line for each; an outline is told with its size in
/// tokens.
pub proof fn law_ingest_texts(lines: Seq<LineView>, means: Seq<Seq<char>>, target: nat, view: Seq<char>)
    ensures
        finished_facts(lines, means) == "field stats:\n"@ + join(
            Seq::new(
                lines.len(),
                |i: int|
                    match lines[i] {
                        LineView::Text(s) => s,
                        LineView::Numeric { lead, .. } => lead + means[i],
                    },
            ),
            "\n"@,
        ),
        outline_text(target, view) == "\n\nview: structural_code\nview_target_tokens: "@ + decimal(
            target,
        ) + "\nview_tokens: "@ + decimal(HeuristicCounter.tokens(view)) + "\n"@ + trim_end(view)
            + "\n\nThis is a compact code outline. Retrieve the original handle before exact edits."@,
{
    assert(Seq::new(lines.len(), |i: int| finished_fact(lines[i], means[i])) =~= Seq::new(
        lines.len(),
        |i: int|
            match lines[i] {
                LineView::Text(s) => s,
                LineView::Numeric { lead, .. } => lead + means[i],
            },
    ));
}

/// An outline of code is the view of it, fitted to the target by the heuristic
/// count of tokens.
pub proof fn law_outlines(bytes: Seq<u8>, target: nat, shown: Seq<char>)
    requires
        outlines(bytes, target, shown),
    ensures
        fitted_view(
            rendered(seq![source_segment(bytes, "structural code view"@)]),
            code_view(bytes),
            target,
            &HeuristicCounter,
            shown,
        ),
        HeuristicCounter.tokens(shown) <= target || shown == rendered(
            seq![source_segment(bytes, "structural code view"@)],
        ) + "\n"@,
{
    crate::view::law_view_meets_target(
        rendered(seq![source_segment(bytes, "structural code view"@)]),
        code_view(bytes),
        target,
        &HeuristicCounter,
        shown,
    );
}

} // verus!
