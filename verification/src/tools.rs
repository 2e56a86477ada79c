//! The requests that can be made of held data, up to what only floating-point
//! arithmetic can give.
//!
//! A request comes with the bytes that its handle stands for, if there are any.
use crate::args::{
    agg_of_arg, group_aggregate_text, groups_text, index_text, index_text_of, op_of_arg, parse_agg,
    parse_op, parse_value_arg, predicates_from_args, predicates_of_args, value_of_arg, PredicateArg,
};
use crate::budget::marked;
use crate::cas::{stored, Cas};
use crate::dataset::{after_lookup, looked_up, Dataset, DatasetCache};
use crate::describe::{description_of, Description};
use crate::digest::{answer, Digest};
use crate::doc::rendered;
use crate::groups::{group_views, grouped, GroupAggregate, GroupPlan};
use crate::hash::content_key;
use crate::histogram::{
    bucket_text, count_matches_per_window, field_doubles, hit_windows, low_keys, positive_finite,
    window_groups, windows_text, Low,
};
use crate::ingest::{card_of, head_text, ingested_text, Ingested};
use crate::join::{group_join, group_join_text, join_answers, join_mask};
use crate::json::Tree;
use crate::limits::{setting, RetrieveLimits};
use crate::path::{outcome, path_text, render_json_path};
use crate::query::{
    aggregate, answers, matches_of, Agg, AggView, PredicateView, QueryPlan, QueryResult,
};
use crate::receipt::{
    can_issue, executed, issue_receipt, receipt_of, ReceiptPlan, ReceiptVerdict,
};
use crate::render::{
    lines_text, render_json_rows, render_retrieved_bytes, render_text_lines, render_text_search,
    retrieved, rows_text, search_text,
};
use crate::select::{compress_json_where, selected, where_mask};
use crate::subset::{pick_rows, picked, query_subset, subset_of};
use crate::text::lines;
use crate::tiling::{regions, stored_all, tiled};
use crate::utf8::utf8_lossy;
use std::sync::Arc;
use vstd::prelude::*;

verus! {

/// The answer to a request.
#[derive(Debug, PartialEq, Eq)]
pub struct Reply {
    /// The request was met.
    pub ok: bool,
    /// The answer, or what is wrong.
    pub text: String,
}

/// A request that is answered, or something left to do for its answer.
pub enum Asked<T> {
    /// It is answered.
    Reply(Reply),
    /// This is left.
    Left(T),
}

/// The reply says what is wrong.
pub open spec fn fails_with<T>(asked: Asked<T>, text: Seq<char>) -> bool {
    asked matches Asked::Reply(r) && !r.ok && r.text@ == text
}

/// The reply to an outcome.
pub open spec fn replies(reply: Reply, out: Result<Seq<char>, Seq<char>>) -> bool {
    match out {
        Ok(s) => reply.ok && reply.text@ == s,
        Err(s) => !reply.ok && reply.text@ == s,
    }
}

fn failed(text: &str) -> (r: Reply)
    ensures
        !r.ok,
        r.text@ == text@,
{
    Reply { ok: false, text: text.to_owned() }
}

fn reply_of(out: Result<String, String>) -> (r: Reply)
    ensures
        replies(r, outcome(out)),
{
    match out {
        Ok(text) => Reply { ok: true, text },
        Err(text) => Reply { ok: false, text },
    }
}

/// What is said of a handle that stands for nothing.
pub open spec fn unknown_text() -> Seq<char> {
    "unknown handle or sentinel hash prefix (ingest/run it first, or use a prefix from a shared-CAS <<cof:...>> sentinel)"@
}

/// The answer to a request with a handle that stands for nothing.
pub fn unknown_handle() -> (r: Reply)
    ensures
        !r.ok,
        r.text@ == unknown_text(),
{
    failed(
        "unknown handle or sentinel hash prefix (ingest/run it first, or use a prefix from a shared-CAS <<cof:...>> sentinel)",
    )
}

/// What is said of an aggregate that is unknown or has no field.
pub open spec fn bad_agg_text() -> Seq<char> {
    "agg must be count|sum|mean|min|max, and sum/mean/min/max require a field"@
}

fn bad_agg() -> (r: Reply)
    ensures
        !r.ok,
        r.text@ == bad_agg_text(),
{
    failed("agg must be count|sum|mean|min|max, and sum/mean/min/max require a field")
}

/// The cache after a lookup.
pub open spec fn cache_after(
    before: DatasetCache,
    after: DatasetCache,
    key: Seq<char>,
    bytes: Seq<u8>,
) -> bool {
    &&& after.wf()
    &&& after.capacity() == before.capacity()
    &&& after@ == after_lookup(before@, before.capacity(), key, bytes)
}

/// The cache as it was.
pub open spec fn cache_kept(before: DatasetCache, after: DatasetCache) -> bool {
    &&& after.wf()
    &&& after.capacity() == before.capacity()
    &&& after@ == before@
}

// ---------------------------------------------------------------------------
// Questions
// ---------------------------------------------------------------------------

/// Answers a question in words.
pub fn coffer_digest(
    cache: &mut DatasetCache,
    handle: &str,
    held: Option<&[u8]>,
    query: &str,
) -> (out: Asked<Digest>)
    requires
        old(cache).wf(),
    ensures
        match held {
            None => cache_kept(*old(cache), *final(cache)) && fails_with(out, unknown_text()),
            Some(bytes) => {
                let rows = looked_up(old(cache)@, handle@, bytes@);
                &&& cache_after(*old(cache), *final(cache), handle@, bytes@)
                &&& match out {
                    Asked::Left(d) => rows is Some && answer(rows->0, query@) == Some(d@),
                    Asked::Reply(_) => {
                        &&& rows is None || answer(rows->0, query@) is None
                        &&& fails_with(
                            out,
                            "no deterministic aggregate matched this query over this data"@,
                        )
                    },
                }
            },
        },
{
    let bytes = match held {
        Some(bytes) => bytes,
        None => {
            return Asked::Reply(unknown_handle());
        },
    };
    let found = match cache.get_or_parse(handle, bytes) {
        Some(dataset) => dataset.digest(query),
        None => None,
    };
    match found {
        Some(d) => Asked::Left(d),
        None => Asked::Reply(
            failed("no deterministic aggregate matched this query over this data"),
        ),
    }
}

/// The answer to a question, given the fact.
pub fn digest_reply(fact: &str) -> (r: Reply)
    ensures
        r.ok,
        r.text@ == fact@ + "  (computed exactly over the whole dataset)"@,
{
    Reply {
        ok: true,
        text: fact.to_owned().concat("  (computed exactly over the whole dataset)"),
    }
}

/// Describes the records.
pub fn coffer_describe(cache: &mut DatasetCache, handle: &str, held: Option<&[u8]>) -> (out: Asked<
    Description,
>)
    requires
        old(cache).wf(),
    ensures
        match held {
            None => cache_kept(*old(cache), *final(cache)) && fails_with(out, unknown_text()),
            Some(bytes) => {
                let rows = looked_up(old(cache)@, handle@, bytes@);
                &&& cache_after(*old(cache), *final(cache), handle@, bytes@)
                &&& match out {
                    Asked::Left(d) => rows is Some && description_of(rows->0) == Some(d@),
                    Asked::Reply(_) => {
                        &&& rows is None || description_of(rows->0) is None
                        &&& fails_with(
                            out,
                            "coffer_describe needs a handle over a JSON array of records"@,
                        )
                    },
                }
            },
        },
{
    let bytes = match held {
        Some(bytes) => bytes,
        None => {
            return Asked::Reply(unknown_handle());
        },
    };
    let found = match cache.get_or_parse(handle, bytes) {
        Some(dataset) => dataset.describe(),
        None => None,
    };
    match found {
        Some(d) => Asked::Left(d),
        None => Asked::Reply(
            failed("coffer_describe needs a handle over a JSON array of records"),
        ),
    }
}

/// `out` answers an aggregate query over what a lookup gives, or refuses it with
/// `refusal`.
pub open spec fn asked_aggregate(
    rows: Option<Seq<Tree>>,
    predicates: Seq<PredicateView>,
    agg: AggView,
    refusal: Seq<char>,
    out: Asked<QueryPlan>,
) -> bool {
    match out {
        Asked::Left(plan) => rows is Some && answers(rows->0, predicates, agg, plan),
        Asked::Reply(_) => {
            &&& rows is None || aggregate(rows->0, matches_of(rows->0, predicates), agg) is None
            &&& fails_with(out, refusal)
        },
    }
}

/// A request for a typed aggregate.
#[derive(Debug)]
pub struct AggregateArgs {
    /// The comparisons; all records where there are none.
    pub predicates: Vec<PredicateArg>,
    /// The name of the aggregate.
    pub agg: String,
    /// The aggregated field.
    pub field: Option<String>,
}

/// The aggregate that is asked for.
pub open spec fn agg_asked(agg: Seq<char>, field: Option<String>) -> Option<AggView> {
    agg_of_arg(
        agg,
        match field {
            Some(f) => Some(f@),
            None => None,
        },
    )
}

fn field_arg(field: &Option<String>) -> (out: Option<&str>)
    ensures
        setting(out) == match *field {
            Some(f) => Some(f@),
            None => None,
        },
{
    match field {
        Some(f) => Some(f.as_str()),
        None => None,
    }
}

fn aggregate_or(
    cache: &mut DatasetCache,
    handle: &str,
    held: Option<&[u8]>,
    args: &AggregateArgs,
    refusal: &str,
) -> (out: Asked<QueryPlan>)
    requires
        old(cache).wf(),
    ensures
        match (held, agg_asked(args.agg@, args.field)) {
            (None, _) => cache_kept(*old(cache), *final(cache)) && fails_with(out, unknown_text()),
            (Some(_), None) => cache_kept(*old(cache), *final(cache)) && fails_with(
                out,
                bad_agg_text(),
            ),
            (Some(bytes), Some(agg)) => {
                &&& cache_after(*old(cache), *final(cache), handle@, bytes@)
                &&& asked_aggregate(
                    looked_up(old(cache)@, handle@, bytes@),
                    predicates_of_args(args.predicates@),
                    agg,
                    refusal@,
                    out,
                )
            },
        },
{
    let bytes = match held {
        Some(bytes) => bytes,
        None => {
            return Asked::Reply(unknown_handle());
        },
    };
    let agg = match parse_agg(args.agg.as_str(), field_arg(&args.field)) {
        Some(agg) => agg,
        None => {
            return Asked::Reply(bad_agg());
        },
    };
    let predicates = predicates_from_args(args.predicates.as_slice());
    let found = match cache.get_or_parse(handle, bytes) {
        Some(dataset) => dataset.query_aggregate(predicates.as_slice(), &agg),
        None => None,
    };
    match found {
        Some(plan) => Asked::Left(plan),
        None => Asked::Reply(failed(refusal)),
    }
}

/// Computes a typed aggregate.
pub fn coffer_aggregate(
    cache: &mut DatasetCache,
    handle: &str,
    held: Option<&[u8]>,
    args: &AggregateArgs,
) -> (out: Asked<QueryPlan>)
    requires
        old(cache).wf(),
    ensures
        match (held, agg_asked(args.agg@, args.field)) {
            (None, _) => cache_kept(*old(cache), *final(cache)) && fails_with(out, unknown_text()),
            (Some(_), None) => cache_kept(*old(cache), *final(cache)) && fails_with(
                out,
                bad_agg_text(),
            ),
            (Some(bytes), Some(agg)) => {
                &&& cache_after(*old(cache), *final(cache), handle@, bytes@)
                &&& asked_aggregate(
                    looked_up(old(cache)@, handle@, bytes@),
                    predicates_of_args(args.predicates@),
                    agg,
                    "no exact aggregate: the handle is not a JSON array, or the aggregated field is present-but-non-numeric"@,
                    out,
                )
            },
        },
{
    aggregate_or(
        cache,
        handle,
        held,
        args,
        "no exact aggregate: the handle is not a JSON array, or the aggregated field is present-but-non-numeric",
    )
}

/// The answer to a typed aggregate.
pub fn aggregate_reply(result: &QueryResult) -> (r: Reply)
    ensures
        r.ok,
        r.text@ == result.display@ + "\nprovenance row indices: "@ + index_text(result.matched@)
            + "\nFetch them with coffer_pick(handle, indices) to re-verify."@,
{
    Reply {
        ok: true,
        text: result.display.clone().concat("\nprovenance row indices: ").concat(
            index_text_of(result.matched.as_slice()).as_str(),
        ).concat("\nFetch them with coffer_pick(handle, indices) to re-verify."),
    }
}

/// Computes the aggregate that a claim is about.
pub fn coffer_check_claim(
    cache: &mut DatasetCache,
    handle: &str,
    held: Option<&[u8]>,
    args: &AggregateArgs,
) -> (out: Asked<QueryPlan>)
    requires
        old(cache).wf(),
    ensures
        match (held, agg_asked(args.agg@, args.field)) {
            (None, _) => cache_kept(*old(cache), *final(cache)) && fails_with(out, unknown_text()),
            (Some(_), None) => cache_kept(*old(cache), *final(cache)) && fails_with(
                out,
                bad_agg_text(),
            ),
            (Some(bytes), Some(agg)) => {
                &&& cache_after(*old(cache), *final(cache), handle@, bytes@)
                &&& asked_aggregate(
                    looked_up(old(cache)@, handle@, bytes@),
                    predicates_of_args(args.predicates@),
                    agg,
                    "cannot check: the handle is not a JSON array, or the aggregated field is present-but-non-numeric"@,
                    out,
                )
            },
        },
{
    aggregate_or(
        cache,
        handle,
        held,
        args,
        "cannot check: the handle is not a JSON array, or the aggregated field is present-but-non-numeric",
    )
}

/// The answer to a claim, given whether it is close to the exact value, and the
/// texts of both.
pub fn claim_reply(agree: bool, claimed: &str, exact: &str, matched: &[usize]) -> (r: Reply)
    ensures
        r.ok,
        r.text@ == (if agree {
            "AGREE"@
        } else {
            "DISAGREE"@
        }) + "\nclaimed: "@ + claimed@ + "\nexact value: "@ + exact@
            + "\nprovenance row indices: "@ + index_text(matched@)
            + "\nThe exact value is computed over all held bytes; coffer_pick(handle, indices) re-fetches the backing rows."@,
{
    let verdict = if agree {
        "AGREE"
    } else {
        "DISAGREE"
    };
    Reply {
        ok: true,
        text: verdict.to_owned().concat("\nclaimed: ").concat(claimed).concat(
            "\nexact value: ",
        ).concat(exact).concat("\nprovenance row indices: ").concat(
            index_text_of(matched).as_str(),
        ).concat(
            "\nThe exact value is computed over all held bytes; coffer_pick(handle, indices) re-fetches the backing rows.",
        ),
    }
}

// ---------------------------------------------------------------------------
// Groups
// ---------------------------------------------------------------------------

/// A request for a histogram over bands of a numeric field.
#[derive(Debug)]
pub struct BucketArgs {
    /// The field that is put into bands.
    pub field: String,
    /// The width of a band, by the bits of a double.
    pub width: u64,
    /// The name of the aggregate; a count where there is none.
    pub agg: Option<String>,
    /// The aggregated field.
    pub value_field: Option<String>,
}

/// The name of an aggregate; a count where there is none.
pub open spec fn agg_name(agg: Option<String>) -> Seq<char> {
    match agg {
        Some(s) => s@,
        None => "count"@,
    }
}

fn agg_name_of(agg: &Option<String>) -> (s: &str)
    ensures
        s@ == agg_name(*agg),
{
    match agg {
        Some(s) => s.as_str(),
        None => "count",
    }
}

/// What is said of a histogram that cannot be made.
pub open spec fn no_histogram_text() -> Seq<char> {
    "no exact histogram: width must be > 0, the handle must be a JSON array, and the bucket/value field must be numeric"@
}

fn no_histogram() -> (r: Reply)
    ensures
        !r.ok,
        r.text@ == no_histogram_text(),
{
    failed(
        "no exact histogram: width must be > 0, the handle must be a JSON array, and the bucket/value field must be numeric",
    )
}

/// The values to put into bands. Which band a value falls into is floating-point
/// work; its outcome goes to `bands`.
pub struct Banding {
    /// The records.
    pub dataset: Arc<Dataset>,
    /// The aggregate.
    pub agg: Agg,
    /// The value of each record, by the bits of a double.
    pub values: Vec<Option<u64>>,
}

impl Banding {
    /// The histogram, given the band of each record.
    pub fn bands(&self, field: &str, width_shown: &str, lows: &[Option<Low>]) -> (out: Asked<
        GroupPlan,
    >)
        requires
            lows@.len() == (*self.dataset)@.len(),
        ensures
            match out {
                Asked::Left(plan) => {
                    &&& grouped((*self.dataset)@, low_keys(lows@), self.agg@) == Some(
                        group_views(plan.groups@),
                    )
                    &&& plan.display@ == bucket_text(
                        self.agg@,
                        field@,
                        width_shown@,
                        plan.groups@.len(),
                    )
                },
                Asked::Reply(_) => {
                    &&& grouped((*self.dataset)@, low_keys(lows@), self.agg@) is None
                    &&& fails_with(out, no_histogram_text())
                },
            },
    {
        match self.dataset.bucket_aggregate(field, width_shown, lows, &self.agg) {
            Some(plan) => Asked::Left(plan),
            None => Asked::Reply(no_histogram()),
        }
    }
}

/// Makes a histogram over bands of a numeric field.
pub fn coffer_bucket(
    cache: &mut DatasetCache,
    handle: &str,
    held: Option<&[u8]>,
    args: &BucketArgs,
) -> (out: Asked<Banding>)
    requires
        old(cache).wf(),
    ensures
        match (held, agg_asked(agg_name(args.agg), args.value_field)) {
            (None, _) => cache_kept(*old(cache), *final(cache)) && fails_with(out, unknown_text()),
            (Some(_), None) => cache_kept(*old(cache), *final(cache)) && fails_with(
                out,
                "agg must be count|sum|mean|min|max, and sum/mean/min/max require value_field"@,
            ),
            (Some(bytes), Some(agg)) => {
                let rows = looked_up(old(cache)@, handle@, bytes@);
                &&& cache_after(*old(cache), *final(cache), handle@, bytes@)
                &&& match out {
                    Asked::Left(b) => {
                        &&& rows == Some((*b.dataset)@)
                        &&& b.agg@ == agg
                        &&& positive_finite(args.width)
                        &&& field_doubles(rows->0, args.field@) == Some(b.values@)
                        &&& b.values@.len() == rows->0.len()
                    },
                    Asked::Reply(_) => {
                        &&& rows is None || !positive_finite(args.width) || field_doubles(
                            rows->0,
                            args.field@,
                        ) is None
                        &&& fails_with(out, no_histogram_text())
                    },
                }
            },
        },
{
    let bytes = match held {
        Some(bytes) => bytes,
        None => {
            return Asked::Reply(unknown_handle());
        },
    };
    let agg = match parse_agg(agg_name_of(&args.agg), field_arg(&args.value_field)) {
        Some(agg) => agg,
        None => {
            return Asked::Reply(
                failed(
                    "agg must be count|sum|mean|min|max, and sum/mean/min/max require value_field",
                ),
            );
        },
    };
    let dataset = match cache.get_or_parse(handle, bytes) {
        Some(dataset) => dataset,
        None => {
            return Asked::Reply(no_histogram());
        },
    };
    match dataset.bucket_values(args.field.as_str(), args.width) {
        Some(values) => Asked::Left(Banding { dataset, agg, values }),
        None => Asked::Reply(no_histogram()),
    }
}

/// Counts matching lines per block of lines.
pub fn coffer_window(held: Option<&[u8]>, pattern: &str, window: usize) -> (out: Asked<GroupPlan>)
    ensures
        match (held, out) {
            (None, _) => fails_with(out, unknown_text()),
            (Some(bytes), Asked::Left(plan)) => {
                let found = hit_windows(lines(utf8_lossy(bytes@)), pattern@, window as nat);
                &&& window > 0
                &&& pattern@.len() > 0
                &&& group_views(plan.groups@) == window_groups(found, window as nat)
                &&& plan.display@ == windows_text(pattern@, window as nat, found.len())
            },
            (Some(_), Asked::Reply(_)) => {
                &&& window == 0 || pattern@.len() == 0
                &&& fails_with(
                    out,
                    "no histogram: window must be >= 1 and pattern must be non-empty"@,
                )
            },
        },
{
    let bytes = match held {
        Some(bytes) => bytes,
        None => {
            return Asked::Reply(unknown_handle());
        },
    };
    match count_matches_per_window(bytes, pattern, window) {
        Some(plan) => Asked::Left(plan),
        None => Asked::Reply(
            failed("no histogram: window must be >= 1 and pattern must be non-empty"),
        ),
    }
}

/// The answer to a request for groups, given the texts of their results.
pub fn groups_reply(g: &GroupAggregate, shown: &[String]) -> (r: Reply)
    requires
        shown@.len() == g.groups@.len(),
    ensures
        r.ok,
        r.text@ == groups_text(*g, shown@),
{
    Reply { ok: true, text: group_aggregate_text(g, shown) }
}

// ---------------------------------------------------------------------------
// Joins
// ---------------------------------------------------------------------------

/// A request to correlate two arrays.
#[derive(Debug)]
pub struct JoinArgs {
    /// The handle of the left array.
    pub left: String,
    /// The handle of the right array.
    pub right: String,
    /// The key of the left records.
    pub left_key: String,
    /// The key of the right records.
    pub right_key: String,
    /// The name of the aggregate; a count where there is none.
    pub agg: Option<String>,
    /// The aggregated field of the left records.
    pub field: Option<String>,
    /// The comparisons on the right records.
    pub right_where: Vec<PredicateArg>,
    /// The right field to group by; no grouping where it is empty.
    pub group_by: Option<String>,
}

/// What is left of a join.
pub enum Joined {
    /// The groups.
    Groups(GroupPlan),
    /// One aggregate over the left records that have a partner.
    Rows(QueryPlan),
}

/// `out` answers the join of two arrays of records, or refuses it.
pub open spec fn asked_join(
    lefts: Seq<Tree>,
    rights: Seq<Tree>,
    args: JoinArgs,
    agg: AggView,
    out: Asked<Joined>,
) -> bool {
    let l = args.left_key@;
    let r = args.right_key@;
    if args.group_by is Some && args.group_by->0@.len() > 0 {
        let found = group_join(lefts, rights, l, r, args.group_by->0@, agg);
        match out {
            Asked::Left(Joined::Groups(plan)) => {
                &&& found == Some(group_views(plan.groups@))
                &&& plan.display@ == group_join_text(
                    agg,
                    l,
                    r,
                    args.group_by->0@,
                    plan.groups@.len(),
                )
            },
            Asked::Left(_) => false,
            Asked::Reply(_) => {
                &&& found is None
                &&& fails_with(
                    out,
                    "no exact project-join: both handles must be JSON arrays, the aggregated field numeric, and no join key may map to conflicting group values"@,
                )
            },
        }
    } else {
        let wanted = predicates_of_args(args.right_where@);
        match out {
            Asked::Left(Joined::Rows(plan)) => join_answers(lefts, rights, l, r, wanted, agg, plan),
            Asked::Left(_) => false,
            Asked::Reply(_) => {
                &&& aggregate(lefts, marked(join_mask(lefts, rights, l, r, wanted)), agg) is None
                &&& fails_with(
                    out,
                    "no exact semi-join: both handles must be JSON arrays and the aggregated field numeric"@,
                )
            },
        }
    }
}

/// `before` becomes `after` by two lookups.
pub open spec fn cache_after_two(
    before: DatasetCache,
    after: DatasetCache,
    key: Seq<char>,
    bytes: Seq<u8>,
    other_key: Seq<char>,
    other: Seq<u8>,
) -> bool {
    &&& after.wf()
    &&& after.capacity() == before.capacity()
    &&& after@ == after_lookup(
        after_lookup(before@, before.capacity(), key, bytes),
        before.capacity(),
        other_key,
        other,
    )
}

/// Correlates two arrays: one aggregate over the left records that have a
/// partner on the right, or groups of them by a field of the partner.
pub fn coffer_join(
    cache: &mut DatasetCache,
    left: Option<&[u8]>,
    right: Option<&[u8]>,
    args: &JoinArgs,
) -> (out: Asked<Joined>)
    requires
        old(cache).wf(),
    ensures
        match (left, right, agg_asked(agg_name(args.agg), args.field)) {
            (Some(a), Some(b), Some(agg)) => {
                let lefts = looked_up(old(cache)@, args.left@, a@);
                let rights = looked_up(
                    after_lookup(old(cache)@, old(cache).capacity(), args.left@, a@),
                    args.right@,
                    b@,
                );
                &&& cache_after_two(
                    *old(cache),
                    *final(cache),
                    args.left@,
                    a@,
                    args.right@,
                    b@,
                )
                &&& if lefts is None || rights is None {
                    fails_with(out, "no exact join: both handles must be JSON arrays"@)
                } else {
                    asked_join(lefts->0, rights->0, *args, agg, out)
                }
            },
            (Some(_), Some(_), None) => cache_kept(*old(cache), *final(cache)) && fails_with(
                out,
                bad_agg_text(),
            ),
            _ => cache_kept(*old(cache), *final(cache)) && fails_with(out, unknown_text()),
        },
{
    let (left_bytes, right_bytes) = match (left, right) {
        (Some(a), Some(b)) => (a, b),
        _ => {
            return Asked::Reply(unknown_handle());
        },
    };
    let agg = match parse_agg(agg_name_of(&args.agg), field_arg(&args.field)) {
        Some(agg) => agg,
        None => {
            return Asked::Reply(bad_agg());
        },
    };
    let lefts = cache.get_or_parse(args.left.as_str(), left_bytes);
    let rights = cache.get_or_parse(args.right.as_str(), right_bytes);
    let (lds, rds) = match (lefts, rights) {
        (Some(a), Some(b)) => (a, b),
        _ => {
            return Asked::Reply(failed("no exact join: both handles must be JSON arrays"));
        },
    };
    if let Some(group_field) = &args.group_by {
        if group_field.as_str().unicode_len() > 0 {
            return match lds.join_group_aggregate(
                &rds,
                args.left_key.as_str(),
                args.right_key.as_str(),
                group_field.as_str(),
                &agg,
            ) {
                Some(plan) => Asked::Left(Joined::Groups(plan)),
                None => Asked::Reply(
                    failed(
                        "no exact project-join: both handles must be JSON arrays, the aggregated field numeric, and no join key may map to conflicting group values",
                    ),
                ),
            };
        }
    }
    let right_where = predicates_from_args(args.right_where.as_slice());
    match lds.join_aggregate(
        &rds,
        args.left_key.as_str(),
        args.right_key.as_str(),
        right_where.as_slice(),
        &agg,
    ) {
        Some(plan) => Asked::Left(Joined::Rows(plan)),
        None => Asked::Reply(
            failed(
                "no exact semi-join: both handles must be JSON arrays and the aggregated field numeric",
            ),
        ),
    }
}

/// The answer to a join without groups.
pub fn join_reply(result: &QueryResult) -> (r: Reply)
    ensures
        r.ok,
        r.text@ == result.display@ + "\njoined LEFT row indices: "@ + index_text(result.matched@)
            + "\nFetch them with coffer_pick(left_handle, indices) to re-verify."@,
{
    Reply {
        ok: true,
        text: result.display.clone().concat("\njoined LEFT row indices: ").concat(
            index_text_of(result.matched.as_slice()).as_str(),
        ).concat("\nFetch them with coffer_pick(left_handle, indices) to re-verify."),
    }
}

// ---------------------------------------------------------------------------
// Receipts
// ---------------------------------------------------------------------------

/// Issues a receipt for a typed aggregate.
pub fn coffer_receipt(held: Option<&[u8]>, args: &AggregateArgs) -> (out: Asked<ReceiptPlan>)
    ensures
        match (held, agg_asked(args.agg@, args.field)) {
            (None, _) => fails_with(out, unknown_text()),
            (Some(_), None) => fails_with(out, bad_agg_text()),
            (Some(bytes), Some(agg)) => {
                let wanted = predicates_of_args(args.predicates@);
                match out {
                    Asked::Left(plan) => {
                        &&& can_issue(bytes@, wanted, agg)
                        &&& executed(bytes@, wanted, agg) == Some(plan.reduction@)
                        &&& plan.blank@ == receipt_of(bytes@, wanted, agg, 0)
                    },
                    Asked::Reply(_) => {
                        &&& !can_issue(bytes@, wanted, agg)
                        &&& fails_with(
                            out,
                            "no receipt: the handle is not a JSON array, or the aggregated field is present-but-non-numeric"@,
                        )
                    },
                }
            },
        },
{
    let bytes = match held {
        Some(bytes) => bytes,
        None => {
            return Asked::Reply(unknown_handle());
        },
    };
    let agg = match parse_agg(args.agg.as_str(), field_arg(&args.field)) {
        Some(agg) => agg,
        None => {
            return Asked::Reply(bad_agg());
        },
    };
    let predicates = predicates_from_args(args.predicates.as_slice());
    match issue_receipt(bytes, predicates.as_slice(), &agg) {
        Some(plan) => Asked::Left(plan),
        None => Asked::Reply(
            failed(
                "no receipt: the handle is not a JSON array, or the aggregated field is present-but-non-numeric",
            ),
        ),
    }
}

/// The answer to a request for a receipt, given its JSON text.
pub fn receipt_reply(wire: &str) -> (r: Reply)
    ensures
        r.ok,
        r.text@ == wire@
            + "\n\nStore this receipt. Re-verify it later against the data with coffer_verify_receipt(handle, receipt)."@,
{
    Reply {
        ok: true,
        text: wire.to_owned().concat(
            "\n\nStore this receipt. Re-verify it later against the data with coffer_verify_receipt(handle, receipt).",
        ),
    }
}

/// A verdict in words, given the texts of the attested answer and of that of the
/// data.
pub open spec fn verdict_text(
    verdict: ReceiptVerdict,
    expected: Seq<char>,
    actual: Seq<char>,
) -> Seq<char> {
    match verdict {
        ReceiptVerdict::Valid => "VALID — the held bytes reproduce the attested answer byte-identically."@,
        ReceiptVerdict::ValueMismatch { .. } => "VALUE_MISMATCH — the receipt attests "@ + expected
            + ", but the data now yields "@ + actual + "."@,
        ReceiptVerdict::BackingTampered => "BACKING_TAMPERED — the value holds but the backing rows changed."@,
        ReceiptVerdict::Refused => "REFUSED — the receipt's query no longer runs over this input."@,
        ReceiptVerdict::MalformedReceipt => "MALFORMED_RECEIPT — the receipt carries an unknown op/agg and cannot be re-executed."@,
    }
}

/// The answer to a check of a receipt. A mismatch is an answer too.
pub fn verdict_reply(verdict: ReceiptVerdict, expected: &str, actual: &str) -> (r: Reply)
    ensures
        r.ok,
        r.text@ == verdict_text(verdict, expected@, actual@),
{
    let text = match verdict {
        ReceiptVerdict::Valid => "VALID — the held bytes reproduce the attested answer byte-identically.".to_owned(),
        ReceiptVerdict::ValueMismatch { .. } => "VALUE_MISMATCH — the receipt attests ".to_owned().concat(
        expected).concat(", but the data now yields ").concat(actual).concat("."),
        ReceiptVerdict::BackingTampered => "BACKING_TAMPERED — the value holds but the backing rows changed.".to_owned(),
        ReceiptVerdict::Refused => "REFUSED — the receipt's query no longer runs over this input.".to_owned(),
        ReceiptVerdict::MalformedReceipt => "MALFORMED_RECEIPT — the receipt carries an unknown op/agg and cannot be re-executed.".to_owned(),
    };
    Reply { ok: true, text }
}

// ---------------------------------------------------------------------------
// Records
// ---------------------------------------------------------------------------

/// Keeps the records of which a comparison holds, and shows the rest as
/// placeholders.
pub fn coffer_query<C: Cas>(
    cas: &mut C,
    held: Option<&[u8]>,
    field: &str,
    op: &str,
    value: &str,
) -> (r: Reply)
    ensures
        match held {
            None => final(cas).objects() == old(cas).objects() && !r.ok && r.text@
                == unknown_text(),
            Some(bytes) => {
                let kept = selected(
                    bytes@,
                    where_mask(bytes@, field@, op_of_arg(op@), value_of_arg(value@)),
                );
                &&& r.ok
                &&& r.text@ == rendered(tiled(kept))
                &&& final(cas).objects() == stored_all(old(cas).objects(), regions(kept))
            },
        },
{
    let bytes = match held {
        Some(bytes) => bytes,
        None => {
            return unknown_handle();
        },
    };
    let target = parse_value_arg(value);
    let doc = compress_json_where(bytes, cas, field, parse_op(op), &target);
    Reply { ok: true, text: doc.render_for_model() }
}

/// New bytes that are held under a handle of their own, and what is told of
/// them.
pub open spec fn taken_in(handle: Seq<char>, bytes: Seq<u8>, told: Ingested) -> bool {
    &&& told.head@ == head_text(handle, bytes)
    &&& match told.card {
        Some(card) => card_of(bytes) == Some(crate::describe::line_views(card.lines@)),
        None => card_of(bytes) is None,
    }
}

/// Holds bytes, and tells what they are.
pub fn take_in<C: Cas>(cas: &mut C, bytes: &[u8]) -> (told: Ingested)
    ensures
        taken_in(content_key(bytes@), bytes@, told),
        final(cas).objects() == stored(old(cas).objects(), bytes@),
{
    let hash = cas.put(bytes);
    ingested_text(hash.as_str(), bytes)
}

/// Holds the records of which all comparisons hold under a handle of their own.
pub fn coffer_select<C: Cas>(cas: &mut C, held: Option<&[u8]>, args: &[PredicateArg]) -> (out:
    Asked<Ingested>)
    ensures
        match held {
            None => final(cas).objects() == old(cas).objects() && fails_with(out, unknown_text()),
            Some(bytes) => match subset_of(bytes@, predicates_of_args(args@)) {
                None => {
                    &&& final(cas).objects() == old(cas).objects()
                    &&& fails_with(out, "coffer_select needs a handle over a top-level JSON array"@)
                },
                Some(subset) => {
                    &&& final(cas).objects() == stored(old(cas).objects(), subset)
                    &&& out matches Asked::Left(told)
                    &&& taken_in(content_key(subset), subset, told)
                },
            },
        },
{
    let bytes = match held {
        Some(bytes) => bytes,
        None => {
            return Asked::Reply(unknown_handle());
        },
    };
    let predicates = predicates_from_args(args);
    match query_subset(bytes, predicates.as_slice()) {
        Some(subset) => Asked::Left(take_in(cas, subset.as_slice())),
        None => Asked::Reply(failed("coffer_select needs a handle over a top-level JSON array")),
    }
}

/// Holds the records with the given numbers under a handle of their own.
pub fn coffer_pick<C: Cas>(cas: &mut C, held: Option<&[u8]>, indices: &[usize]) -> (out: Asked<
    Ingested,
>)
    ensures
        match held {
            None => final(cas).objects() == old(cas).objects() && fails_with(out, unknown_text()),
            Some(bytes) => match picked(bytes@, indices@) {
                None => {
                    &&& final(cas).objects() == old(cas).objects()
                    &&& fails_with(out, "coffer_pick needs a JSON-array handle and in-range indices"@)
                },
                Some(subset) => {
                    &&& final(cas).objects() == stored(old(cas).objects(), subset)
                    &&& out matches Asked::Left(told)
                    &&& taken_in(content_key(subset), subset, told)
                },
            },
        },
{
    let bytes = match held {
        Some(bytes) => bytes,
        None => {
            return Asked::Reply(unknown_handle());
        },
    };
    match pick_rows(bytes, indices) {
        Some(subset) => Asked::Left(take_in(cas, subset.as_slice())),
        None => Asked::Reply(
            failed("coffer_pick needs a JSON-array handle and in-range indices"),
        ),
    }
}

// ---------------------------------------------------------------------------
// Windows
// ---------------------------------------------------------------------------

/// Shows a page of rows.
pub fn coffer_rows(
    held: Option<&[u8]>,
    start: Option<usize>,
    limit: Option<usize>,
    max_rows: usize,
) -> (r: Reply)
    ensures
        match held {
            None => !r.ok && r.text@ == unknown_text(),
            Some(bytes) => replies(r, rows_text(bytes@, start, limit, max_rows as nat)),
        },
{
    match held {
        Some(bytes) => reply_of(render_json_rows(bytes, start, limit, max_rows)),
        None => unknown_handle(),
    }
}

/// Shows one value of a JSON document.
pub fn coffer_json(held: Option<&[u8]>, path: &str) -> (r: Reply)
    ensures
        match held {
            None => !r.ok && r.text@ == unknown_text(),
            Some(bytes) => replies(r, path_text(bytes@, path@)),
        },
{
    match held {
        Some(bytes) => reply_of(render_json_path(bytes, path)),
        None => unknown_handle(),
    }
}

/// Shows lines.
pub fn coffer_lines(
    held: Option<&[u8]>,
    start_line: Option<usize>,
    end_line: Option<usize>,
    head: Option<usize>,
    tail: Option<usize>,
) -> (r: Reply)
    ensures
        match held {
            None => !r.ok && r.text@ == unknown_text(),
            Some(bytes) => replies(r, lines_text(bytes@, start_line, end_line, head, tail)),
        },
{
    match held {
        Some(bytes) => reply_of(render_text_lines(bytes, start_line, end_line, head, tail)),
        None => unknown_handle(),
    }
}

/// Shows matching lines.
pub fn coffer_search(held: Option<&[u8]>, pattern: &str, limit: Option<usize>) -> (r: Reply)
    ensures
        match held {
            None => !r.ok && r.text@ == unknown_text(),
            Some(bytes) => replies(r, search_text(bytes@, pattern@, limit)),
        },
{
    match held {
        Some(bytes) => reply_of(render_text_search(bytes, pattern, limit)),
        None => unknown_handle(),
    }
}

/// Shows bytes.
pub fn coffer_retrieve(
    held: Option<&[u8]>,
    start: Option<usize>,
    max_bytes: Option<usize>,
    full: bool,
    limits: RetrieveLimits,
) -> (r: Reply)
    ensures
        match held {
            None => !r.ok && r.text@ == unknown_text(),
            Some(bytes) => replies(r, retrieved(bytes@, start, max_bytes, full, limits)),
        },
{
    match held {
        Some(bytes) => reply_of(render_retrieved_bytes(bytes, start, max_bytes, full, limits)),
        None => unknown_handle(),
    }
}

/// Shows bytes that a sentinel stands for, given what reading them from the
/// shared store gave.
pub fn unfold_shared_cas_result(
    read: Result<Option<Vec<u8>>, String>,
    start: Option<usize>,
    max_bytes: Option<usize>,
    full: bool,
    limits: RetrieveLimits,
) -> (r: Reply)
    ensures
        match read {
            Ok(Some(bytes)) => replies(r, retrieved(bytes@, start, max_bytes, full, limits)),
            Ok(None) => !r.ok && r.text@
                == "no bytes for that sentinel hash in the shared CAS (wrong hash, or it was never offloaded here)"@,
            Err(e) => !r.ok && r.text@ == "shared CAS read failed: "@ + e@,
        },
{
    match read {
        Ok(Some(bytes)) => reply_of(
            render_retrieved_bytes(bytes.as_slice(), start, max_bytes, full, limits),
        ),
        Ok(None) => failed(
            "no bytes for that sentinel hash in the shared CAS (wrong hash, or it was never offloaded here)",
        ),
        Err(e) => Reply {
            ok: false,
            text: "shared CAS read failed: ".to_owned().concat(e.as_str()),
        },
    }
}

/// What a reply is: the text of an outcome, and whether it is an error.
pub proof fn law_replies(reply: Reply, s: Seq<char>)
    ensures
        replies(reply, Ok(s)) <==> reply.ok && reply.text@ == s,
        replies(reply, Err(s)) <==> !reply.ok && reply.text@ == s,
        fails_with(Asked::<QueryPlan>::Reply(reply), s) <==> !reply.ok && reply.text@ == s,
{
}

/// A tool's aggregate is left to finish exactly if the records can be read and the
/// aggregate exists; then it is over every record that matches. Else the reply
/// says what is refused.
pub proof fn law_asked_aggregate(
    rows: Option<Seq<Tree>>,
    predicates: Seq<PredicateView>,
    agg: AggView,
    refusal: Seq<char>,
    out: Asked<QueryPlan>,
)
    requires
        asked_aggregate(rows, predicates, agg, refusal, out),
    ensures
        out is Left <==> rows is Some && aggregate(
            rows->0,
            matches_of(rows->0, predicates),
            agg,
        ) is Some,
        out matches Asked::Left(plan) ==> plan.matched@ == matches_of(rows->0, predicates)
            && aggregate(rows->0, plan.matched@, agg) == Some(plan.reduction@) && answers(
            rows->0,
            predicates,
            agg,
            plan,
        ),
        out matches Asked::Reply(reply) ==> !reply.ok && reply.text@ == refusal,
{
}

/// A tool's join by groups is the join by groups, and one without a group the join
/// of every left record that has a partner; each is refused exactly if it does not
/// exist.
pub proof fn law_asked_join(
    lefts: Seq<Tree>,
    rights: Seq<Tree>,
    args: JoinArgs,
    agg: AggView,
    out: Asked<Joined>,
)
    requires
        asked_join(lefts, rights, args, agg, out),
    ensures
        ({
            let l = args.left_key@;
            let r = args.right_key@;
            let wanted = predicates_of_args(args.right_where@);
            let by_group = args.group_by is Some && args.group_by->0@.len() > 0;
            let groups = group_join(lefts, rights, l, r, args.group_by->0@, agg);
            let at = marked(join_mask(lefts, rights, l, r, wanted));
            &&& by_group ==> (out is Left <==> groups is Some)
            &&& by_group && out is Left ==> out->Left_0 is Groups && Some(
                group_views(out->Left_0->Groups_0.groups@),
            ) == groups
            &&& !by_group ==> (out is Left <==> aggregate(lefts, at, agg) is Some)
            &&& !by_group && out is Left ==> out->Left_0 is Rows && join_answers(
                lefts,
                rights,
                l,
                r,
                wanted,
                agg,
                out->Left_0->Rows_0,
            )
            &&& out matches Asked::Reply(reply) ==> !reply.ok
        }),
{
}

/// The aggregate that is asked for, and the count where none is named; what is
/// said of a handle that is not known and of each verdict on a receipt.
pub proof fn law_tool_words(
    agg: Seq<char>,
    f: String,
    expected: Seq<char>,
    actual: Seq<char>,
    a: u64,
    b: u64,
)
    ensures
        agg_asked(agg, Some(f)) == agg_of_arg(agg, Some(f@)),
        agg_asked(agg, None) == agg_of_arg(agg, None),
        agg_name(None) == "count"@,
        agg_name(Some(f)) == f@,
        unknown_text()
            == "unknown handle or sentinel hash prefix (ingest/run it first, or use a prefix from a shared-CAS <<cof:...>> sentinel)"@,
        bad_agg_text()
            == "agg must be count|sum|mean|min|max, and sum/mean/min/max require a field"@,
        verdict_text(ReceiptVerdict::Valid, expected, actual)
            == "VALID — the held bytes reproduce the attested answer byte-identically."@,
        verdict_text(ReceiptVerdict::ValueMismatch { expected: a, actual: b }, expected, actual)
            == "VALUE_MISMATCH — the receipt attests "@ + expected + ", but the data now yields "@
            + actual + "."@,
        verdict_text(ReceiptVerdict::BackingTampered, expected, actual)
            == "BACKING_TAMPERED — the value holds but the backing rows changed."@,
        verdict_text(ReceiptVerdict::Refused, expected, actual)
            == "REFUSED — the receipt's query no longer runs over this input."@,
        verdict_text(ReceiptVerdict::MalformedReceipt, expected, actual)
            == "MALFORMED_RECEIPT — the receipt carries an unknown op/agg and cannot be re-executed."@,
{
}

/// What is said of an input that was taken in: its head, and its facts if it has
/// any.
pub proof fn law_taken_in(handle: Seq<char>, bytes: Seq<u8>, told: Ingested)
    requires
        taken_in(handle, bytes, told),
    ensures
        told.head@ == head_text(handle, bytes),
        told.card is Some <==> card_of(bytes) is Some,
        told.card is Some ==> card_of(bytes) == Some(
            crate::describe::line_views(told.card->0.lines@),
        ),
{
}

/// What a request does to the cache: nothing, where no dataset is asked for; one
/// lookup, or two, where they are.
pub proof fn law_cache_after(
    before: DatasetCache,
    after: DatasetCache,
    key: Seq<char>,
    bytes: Seq<u8>,
    other_key: Seq<char>,
    other: Seq<u8>,
)
    ensures
        cache_kept(before, after) ==> after@ == before@ && after.wf() && after.capacity()
            == before.capacity(),
        cache_after(before, after, key, bytes) ==> after@ == after_lookup(
            before@,
            before.capacity(),
            key,
            bytes,
        ) && after.wf() && after.capacity() == before.capacity(),
        cache_after_two(before, after, key, bytes, other_key, other) ==> after@ == after_lookup(
            after_lookup(before@, before.capacity(), key, bytes),
            before.capacity(),
            other_key,
            other,
        ) && after.wf() && after.capacity() == before.capacity(),
        no_histogram_text()
            == "no exact histogram: width must be > 0, the handle must be a JSON array, and the bucket/value field must be numeric"@,
{
}

} // verus!
