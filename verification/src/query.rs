//! Exact aggregates over the records of a JSON array that pass a conjunction of
//! comparisons.
//!
//! A sum or a mean of doubles is floating-point work, which is done outside of
//! this library. So a query gives a plan: the records that match, the numbers
//! to reduce, and the text to put the result behind.
use crate::budget::{lemma_marked_increasing, marked};
use crate::json::{compact, json_of_bytes, rank, read_apart, reads_back, trees, Json, Tree};
use crate::op::{passes, rank_of, value_passes, Op};
use crate::text::{decimal, decimal_of, join, join_of, texts};
use vstd::prelude::*;

verus! {

/// A comparison of a field with a value.
#[derive(Debug)]
pub struct Predicate {
    /// The field.
    pub field: String,
    /// The operator.
    pub op: Op,
    /// The value on the right.
    pub value: Json,
}

/// A comparison as plain values.
pub struct PredicateView {
    pub field: Seq<char>,
    pub op: Op,
    pub value: Tree,
}

impl View for Predicate {
    type V = PredicateView;

    open spec fn view(&self) -> PredicateView {
        PredicateView { field: self.field@, op: self.op, value: self.value@ }
    }
}

/// The comparisons as plain values.
pub open spec fn predicate_views(predicates: Seq<Predicate>) -> Seq<PredicateView> {
    Seq::new(predicates.len(), |i: int| predicates[i]@)
}

/// What to compute over the records that match.
#[derive(Debug, PartialEq, Eq)]
pub enum Agg {
    /// Their number.
    Count,
    /// The sum of a field.
    Sum(String),
    /// The mean of a field.
    Mean(String),
    /// The minimum of a field.
    Min(String),
    /// The maximum of a field.
    Max(String),
}

/// What to compute, as plain values.
pub enum AggView {
    Count,
    Sum(Seq<char>),
    Mean(Seq<char>),
    Min(Seq<char>),
    Max(Seq<char>),
}

impl View for Agg {
    type V = AggView;

    open spec fn view(&self) -> AggView {
        match *self {
            Agg::Count => AggView::Count,
            Agg::Sum(f) => AggView::Sum(f@),
            Agg::Mean(f) => AggView::Mean(f@),
            Agg::Min(f) => AggView::Min(f@),
            Agg::Max(f) => AggView::Max(f@),
        }
    }
}

/// What is left to compute. Doubles are given by their bits.
#[derive(Debug, PartialEq, Eq)]
pub enum Reduction {
    /// A count.
    Count(usize),
    /// The sum of these, in this order.
    Sum(Vec<u64>),
    /// The mean of these: their sum, in this order, over their number.
    Mean(Vec<u64>),
    /// This one.
    Value(u64),
}

/// What is left to compute, as plain values.
pub enum ReductionView {
    Count(nat),
    Sum(Seq<u64>),
    Mean(Seq<u64>),
    Value(u64),
}

impl View for Reduction {
    type V = ReductionView;

    open spec fn view(&self) -> ReductionView {
        match *self {
            Reduction::Count(n) => ReductionView::Count(n as nat),
            Reduction::Sum(v) => ReductionView::Sum(v@),
            Reduction::Mean(v) => ReductionView::Mean(v@),
            Reduction::Value(b) => ReductionView::Value(b),
        }
    }
}

// ---------------------------------------------------------------------------
// Matching
// ---------------------------------------------------------------------------

/// The record has the field, and the comparison holds.
pub open spec fn row_passes(row: Tree, p: PredicateView) -> bool {
    match row.get(p.field) {
        Some(v) => passes(v, p.op, p.value),
        None => false,
    }
}

/// Every comparison holds of the record.
pub open spec fn row_matches(row: Tree, predicates: Seq<PredicateView>) -> bool {
    forall|i: int| 0 <= i < predicates.len() ==> row_passes(row, #[trigger] predicates[i])
}

/// For each record whether it matches.
pub open spec fn match_mask(rows: Seq<Tree>, predicates: Seq<PredicateView>) -> Seq<bool> {
    Seq::new(rows.len(), |i: int| row_matches(rows[i], predicates))
}

/// The numbers of the records that match, in order.
pub open spec fn matches_of(rows: Seq<Tree>, predicates: Seq<PredicateView>) -> Seq<usize> {
    marked(match_mask(rows, predicates))
}

/// Whether every comparison holds of the record.
pub fn record_matches(row: &Json, predicates: &[Predicate]) -> (r: bool)
    ensures
        r == row_matches(row@, predicate_views(predicates@)),
{
    let mut i: usize = 0;
    while i < predicates.len()
        invariant
            i <= predicates@.len(),
            forall|k: int|
                0 <= k < i ==> row_passes(row@, #[trigger] predicate_views(predicates@)[k]),
        decreases predicates@.len() - i,
    {
        let p = &predicates[i];
        assert(predicate_views(predicates@)[i as int] == p@);
        let holds = match row.get(p.field.as_str()) {
            Some(value) => value_passes(value, p.op, &p.value),
            None => false,
        };
        if !holds {
            assert(!row_passes(row@, predicate_views(predicates@)[i as int]));
            return false;
        }
        i += 1;
    }
    true
}

/// The numbers of the records that match.
pub fn matched_rows(rows: &[Json], predicates: &[Predicate]) -> (out: Vec<usize>)
    ensures
        out@ == matches_of(trees(rows@), predicate_views(predicates@)),
{
    let ghost mask = match_mask(trees(rows@), predicate_views(predicates@));
    let mut out: Vec<usize> = Vec::new();
    let mut i: usize = 0;
    while i < rows.len()
        invariant
            i <= rows@.len(),
            mask == match_mask(trees(rows@), predicate_views(predicates@)),
            out@ == marked(mask.take(i as int)),
        decreases rows@.len() - i,
    {
        assert(mask.take(i as int + 1).drop_last() =~= mask.take(i as int));
        assert(trees(rows@)[i as int] == rows@[i as int]@);
        if record_matches(&rows[i], predicates) {
            out.push(i);
        }
        i += 1;
    }
    assert(mask.take(i as int) =~= mask);
    out
}

/// The numbers that a mask marks lie below its length.
pub proof fn lemma_marked_below(mask: Seq<bool>)
    requires
        mask.len() <= usize::MAX,
    ensures
        marked(mask).len() <= mask.len(),
        forall|k: int|
            0 <= k < marked(mask).len() ==> (#[trigger] marked(mask)[k]) < mask.len()
                && mask[marked(mask)[k] as int],
        forall|i: int| 0 <= i < mask.len() && #[trigger] mask[i] ==> marked(mask).contains(i as usize),
    decreases mask.len(),
{
    if mask.len() > 0 {
        let before = mask.drop_last();
        lemma_marked_below(before);
        assert forall|k: int| 0 <= k < marked(mask).len() implies (#[trigger] marked(mask)[k])
            < mask.len() && mask[marked(mask)[k] as int] by {
            if k < marked(before).len() {
                assert(marked(mask)[k] == marked(before)[k]);
                assert(before[marked(before)[k] as int] == mask[marked(before)[k] as int]);
            }
        }
        assert forall|i: int| 0 <= i < mask.len() && #[trigger] mask[i] implies marked(
            mask,
        ).contains(i as usize) by {
            if i < before.len() {
                assert(before[i]);
                let k = choose|k: int|
                    0 <= k < marked(before).len() && marked(before)[k] == i as usize;
                assert(marked(mask)[k] == i as usize);
            } else {
                assert(marked(mask)[marked(mask).len() - 1] == i as usize);
            }
        }
    }
}

// ---------------------------------------------------------------------------
// Aggregating
// ---------------------------------------------------------------------------

/// The doubles of a field over the records `matched`, in that order; a record
/// without the field is passed over. Nothing, if a value is no finite double.
pub open spec fn gather(rows: Seq<Tree>, matched: Seq<usize>, field: Seq<char>) -> Option<Seq<u64>>
    decreases matched.len(),
{
    if matched.len() == 0 {
        Some(Seq::empty())
    } else {
        match gather(rows, matched.drop_last(), field) {
            None => None,
            Some(before) => match rows[matched.last() as int].get(field) {
                None => Some(before),
                Some(v) => match v.double() {
                    Some(bits) => Some(before.push(bits)),
                    None => None,
                },
            },
        }
    }
}

/// The least double; the first of them where several are equally small.
pub open spec fn least(vals: Seq<u64>) -> u64
    decreases vals.len(),
{
    if vals.len() <= 1 {
        vals[0]
    } else {
        let before = least(vals.drop_last());
        if rank(vals.last()) < rank(before) {
            vals.last()
        } else {
            before
        }
    }
}

/// The greatest double; the first of them where several are equally great.
pub open spec fn greatest(vals: Seq<u64>) -> u64
    decreases vals.len(),
{
    if vals.len() <= 1 {
        vals[0]
    } else {
        let before = greatest(vals.drop_last());
        if rank(vals.last()) > rank(before) {
            vals.last()
        } else {
            before
        }
    }
}

/// The least and the greatest are among the numbers and bound them all.
pub proof fn law_extremes_bound_all(vals: Seq<u64>)
    requires
        vals.len() > 0,
    ensures
        vals.contains(least(vals)),
        vals.contains(greatest(vals)),
        forall|i: int|
            0 <= i < vals.len() ==> rank(least(vals)) <= rank(#[trigger] vals[i]) <= rank(
                greatest(vals),
            ),
    decreases vals.len(),
{
    if vals.len() == 1 {
        assert(vals[0] == least(vals));
        assert(vals[0] == greatest(vals));
    } else {
        let before = vals.drop_last();
        law_extremes_bound_all(before);
        assert(forall|i: int| 0 <= i < before.len() ==> #[trigger] before[i] == vals[i]);
        let a = choose|a: int| 0 <= a < before.len() && before[a] == least(before);
        let b = choose|b: int| 0 <= b < before.len() && before[b] == greatest(before);
        assert(vals[a] == least(before));
        assert(vals[b] == greatest(before));
        assert(vals[vals.len() - 1] == vals.last());
        assert forall|i: int| 0 <= i < vals.len() implies rank(least(vals)) <= rank(
            #[trigger] vals[i],
        ) <= rank(greatest(vals)) by {
            if i < before.len() {
                assert(before[i] == vals[i]);
            }
        }
    }
}

/// The reduction of gathered doubles; none of nothing.
pub open spec fn reduction_of(vals: Option<Seq<u64>>, agg: AggView) -> Option<ReductionView> {
    match vals {
        Some(v) if v.len() > 0 => match agg {
            AggView::Sum(_) => Some(ReductionView::Sum(v)),
            AggView::Mean(_) => Some(ReductionView::Mean(v)),
            AggView::Min(_) => Some(ReductionView::Value(least(v))),
            AggView::Max(_) => Some(ReductionView::Value(greatest(v))),
            AggView::Count => None,
        },
        _ => None,
    }
}

/// The aggregate over the records `matched`. It is refused where the field is
/// there without being a finite double, or is in none of the records.
pub open spec fn aggregate(
    rows: Seq<Tree>,
    matched: Seq<usize>,
    agg: AggView,
) -> Option<ReductionView> {
    match agg {
        AggView::Count => Some(ReductionView::Count(matched.len())),
        AggView::Sum(f) => reduction_of(gather(rows, matched, f), agg),
        AggView::Mean(f) => reduction_of(gather(rows, matched, f), agg),
        AggView::Min(f) => reduction_of(gather(rows, matched, f), agg),
        AggView::Max(f) => reduction_of(gather(rows, matched, f), agg),
    }
}

/// The records `matched` exist.
pub open spec fn below(matched: Seq<usize>, n: int) -> bool {
    forall|k: int| 0 <= k < matched.len() ==> (#[trigger] matched[k]) < n
}

pub(crate) proof fn lemma_gather_none(rows: Seq<Tree>, matched: Seq<usize>, field: Seq<char>, n: int)
    requires
        0 <= n <= matched.len(),
        gather(rows, matched.take(n), field) is None,
    ensures
        gather(rows, matched, field) is None,
    decreases matched.len(),
{
    if n < matched.len() {
        assert(matched.drop_last().take(n) =~= matched.take(n));
        lemma_gather_none(rows, matched.drop_last(), field, n);
    } else {
        assert(matched.take(n) =~= matched);
    }
}

fn gather_of(rows: &[Json], matched: &[usize], field: &str) -> (out: Option<Vec<u64>>)
    requires
        below(matched@, rows@.len() as int),
    ensures
        match out {
            Some(v) => gather(trees(rows@), matched@, field@) == Some(v@),
            None => gather(trees(rows@), matched@, field@) is None,
        },
{
    let ghost ts = trees(rows@);
    let mut vals: Vec<u64> = Vec::new();
    let mut k: usize = 0;
    while k < matched.len()
        invariant
            k <= matched@.len(),
            ts == trees(rows@),
            below(matched@, rows@.len() as int),
            gather(ts, matched@.take(k as int), field@) == Some(vals@),
        decreases matched@.len() - k,
    {
        let ghost next = matched@.take(k as int + 1);
        assert(next.drop_last() =~= matched@.take(k as int));
        let i: usize = matched[k];
        assert(ts[i as int] == rows@[i as int]@);
        if let Some(value) = rows[i].get(field) {
            match value.double() {
                Some(bits) => {
                    vals.push(bits);
                },
                None => {
                    proof {
                        lemma_gather_none(ts, matched@, field@, k as int + 1);
                    }
                    return None;
                },
            }
        }
        k += 1;
    }
    assert(matched@.take(k as int) =~= matched@);
    Some(vals)
}

pub(crate) fn least_of(vals: &[u64]) -> (m: u64)
    requires
        vals@.len() > 0,
    ensures
        m == least(vals@),
{
    let mut m: u64 = vals[0];
    let mut i: usize = 1;
    assert(vals@.take(1) =~= seq![vals@[0]]);
    while i < vals.len()
        invariant
            1 <= i <= vals@.len(),
            m == least(vals@.take(i as int)),
        decreases vals@.len() - i,
    {
        let ghost next = vals@.take(i as int + 1);
        assert(next.drop_last() =~= vals@.take(i as int));
        if rank_of(vals[i]) < rank_of(m) {
            m = vals[i];
        }
        i += 1;
    }
    assert(vals@.take(i as int) =~= vals@);
    m
}

pub(crate) fn greatest_of(vals: &[u64]) -> (m: u64)
    requires
        vals@.len() > 0,
    ensures
        m == greatest(vals@),
{
    let mut m: u64 = vals[0];
    let mut i: usize = 1;
    assert(vals@.take(1) =~= seq![vals@[0]]);
    while i < vals.len()
        invariant
            1 <= i <= vals@.len(),
            m == greatest(vals@.take(i as int)),
        decreases vals@.len() - i,
    {
        let ghost next = vals@.take(i as int + 1);
        assert(next.drop_last() =~= vals@.take(i as int));
        if rank_of(vals[i]) > rank_of(m) {
            m = vals[i];
        }
        i += 1;
    }
    assert(vals@.take(i as int) =~= vals@);
    m
}

/// The reduction of gathered doubles.
pub(crate) fn reduce(vals: Option<Vec<u64>>, agg: &Agg) -> (out: Option<Reduction>)
    ensures
        match out {
            Some(r) => reduction_of(
                match vals {
                    Some(v) => Some(v@),
                    None => None,
                },
                agg@,
            ) == Some(r@),
            None => reduction_of(
                match vals {
                    Some(v) => Some(v@),
                    None => None,
                },
                agg@,
            ) is None,
        },
{
    match vals {
        None => None,
        Some(v) => {
            if v.len() == 0 {
                return None;
            }
            match agg {
                Agg::Count => None,
                Agg::Sum(_) => Some(Reduction::Sum(v)),
                Agg::Mean(_) => Some(Reduction::Mean(v)),
                Agg::Min(_) => Some(Reduction::Value(least_of(v.as_slice()))),
                Agg::Max(_) => Some(Reduction::Value(greatest_of(v.as_slice()))),
            }
        },
    }
}

/// The aggregate over the records `matched`.
pub fn apply_agg(rows: &[Json], matched: &[usize], agg: &Agg) -> (out: Option<Reduction>)
    requires
        below(matched@, rows@.len() as int),
    ensures
        match out {
            Some(r) => aggregate(trees(rows@), matched@, agg@) == Some(r@),
            None => aggregate(trees(rows@), matched@, agg@) is None,
        },
{
    match agg {
        Agg::Count => Some(Reduction::Count(matched.len())),
        Agg::Sum(f) => reduce(gather_of(rows, matched, f.as_str()), agg),
        Agg::Mean(f) => reduce(gather_of(rows, matched, f.as_str()), agg),
        Agg::Min(f) => reduce(gather_of(rows, matched, f.as_str()), agg),
        Agg::Max(f) => reduce(gather_of(rows, matched, f.as_str()), agg),
    }
}

// ---------------------------------------------------------------------------
// The summary line
// ---------------------------------------------------------------------------

/// The sign of an operator.
pub open spec fn op_sign(op: Op) -> Seq<char> {
    match op {
        Op::Eq => "=="@,
        Op::Ne => "!="@,
        Op::Gt => ">"@,
        Op::Ge => ">="@,
        Op::Lt => "<"@,
        Op::Le => "<="@,
    }
}

/// The sign of an operator.
pub fn op_str(op: Op) -> (s: &'static str)
    ensures
        s@ == op_sign(op),
{
    match op {
        Op::Eq => "==",
        Op::Ne => "!=",
        Op::Gt => ">",
        Op::Ge => ">=",
        Op::Lt => "<",
        Op::Le => "<=",
    }
}

/// What is computed, in words.
pub open spec fn agg_text(agg: AggView) -> Seq<char> {
    match agg {
        AggView::Count => "count"@,
        AggView::Sum(f) => "sum("@ + f + ")"@,
        AggView::Mean(f) => "mean("@ + f + ")"@,
        AggView::Min(f) => "min("@ + f + ")"@,
        AggView::Max(f) => "max("@ + f + ")"@,
    }
}

/// What is computed, in words.
pub fn agg_label(agg: &Agg) -> (s: String)
    ensures
        s@ == agg_text(agg@),
{
    match agg {
        Agg::Count => "count".to_owned(),
        Agg::Sum(f) => "sum(".to_owned().concat(f.as_str()).concat(")"),
        Agg::Mean(f) => "mean(".to_owned().concat(f.as_str()).concat(")"),
        Agg::Min(f) => "min(".to_owned().concat(f.as_str()).concat(")"),
        Agg::Max(f) => "max(".to_owned().concat(f.as_str()).concat(")"),
    }
}

/// One comparison in words, with `prefix` before the field.
pub open spec fn clause_text(prefix: Seq<char>, p: PredicateView) -> Seq<char> {
    prefix + p.field + " "@ + op_sign(p.op) + " "@ + compact(p.value)
}

/// The comparisons in words: nothing where there are none.
pub open spec fn where_text(prefix: Seq<char>, predicates: Seq<PredicateView>) -> Seq<char> {
    if predicates.len() == 0 {
        Seq::empty()
    } else {
        " where "@ + join(
            Seq::new(predicates.len(), |i: int| clause_text(prefix, predicates[i])),
            " AND "@,
        )
    }
}

/// The comparisons in words.
pub fn where_clause(prefix: &str, predicates: &[Predicate]) -> (out: String)
    ensures
        out@ == where_text(prefix@, predicate_views(predicates@)),
{
    if predicates.len() == 0 {
        return String::new();
    }
    let ghost views = predicate_views(predicates@);
    let mut clauses: Vec<String> = Vec::new();
    let mut i: usize = 0;
    while i < predicates.len()
        invariant
            i <= predicates@.len(),
            views == predicate_views(predicates@),
            clauses@.len() == i,
            forall|k: int|
                0 <= k < i ==> (#[trigger] clauses@[k])@ == clause_text(prefix@, views[k]),
        decreases predicates@.len() - i,
    {
        let p = &predicates[i];
        clauses.push(
            prefix.to_owned().concat(p.field.as_str()).concat(" ").concat(op_str(p.op)).concat(
                " ",
            ).concat(p.value.compact().as_str()),
        );
        i += 1;
    }
    assert(texts(clauses@) =~= Seq::new(
        views.len(),
        |k: int| clause_text(prefix@, views[k]),
    ));
    " where ".to_owned().concat(join_of(clauses.as_slice(), " AND ").as_str())
}

/// The summary line of a query up to the result.
pub open spec fn query_text(
    predicates: Seq<PredicateView>,
    agg: AggView,
    matched: nat,
) -> Seq<char> {
    "[index] "@ + agg_text(agg) + where_text(Seq::empty(), predicates) + " over "@ + decimal(
        matched,
    ) + " matched records = "@
}

/// The summary line of a query up to the result.
pub fn query_display(predicates: &[Predicate], agg: &Agg, matched_len: usize) -> (out: String)
    ensures
        out@ == query_text(predicate_views(predicates@), agg@, matched_len as nat),
{
    let none = String::new();
    assert(none@ =~= Seq::<char>::empty());
    "[index] ".to_owned().concat(agg_label(agg).as_str()).concat(
        where_clause(none.as_str(), predicates).as_str(),
    ).concat(" over ").concat(decimal_of(matched_len).as_str()).concat(" matched records = ")
}

/// What a query found: everything but the result of the reduction.
#[derive(Debug, PartialEq, Eq)]
pub struct QueryPlan {
    /// The summary line up to the result.
    pub lead: String,
    /// The numbers of the records behind the answer.
    pub matched: Vec<usize>,
    /// What is left to compute.
    pub reduction: Reduction,
}

/// The answer to a query, with the records behind it.
#[derive(Debug, PartialEq, Eq)]
pub struct QueryResult {
    /// The summary line.
    pub display: String,
    /// The result, by the bits of a double.
    pub value: u64,
    /// The numbers of the records behind the answer.
    pub matched: Vec<usize>,
}

impl QueryPlan {
    /// The answer, given the result of the reduction and its text.
    pub fn finish(self, value: u64, shown: &str) -> (out: QueryResult)
        ensures
            out.display@ == self.lead@ + shown@,
            out.value == value,
            out.matched@ == self.matched@,
    {
        QueryResult { display: self.lead.concat(shown), value, matched: self.matched }
    }
}

/// `plan` answers the query over the records.
pub open spec fn answers(
    rows: Seq<Tree>,
    predicates: Seq<PredicateView>,
    agg: AggView,
    plan: QueryPlan,
) -> bool {
    let matched = matches_of(rows, predicates);
    &&& plan.matched@ == matched
    &&& plan.lead@ == query_text(predicates, agg, matched.len())
    &&& aggregate(rows, matched, agg) == Some(plan.reduction@)
}

/// Answers a query over records.
pub fn query_rows(rows: &[Json], predicates: &[Predicate], agg: &Agg) -> (out: Option<QueryPlan>)
    ensures
        match out {
            Some(plan) => answers(trees(rows@), predicate_views(predicates@), agg@, plan),
            None => aggregate(
                trees(rows@),
                matches_of(trees(rows@), predicate_views(predicates@)),
                agg@,
            ) is None,
        },
{
    let matched = matched_rows(rows, predicates);
    proof {
        assert(rows.len() == rows@.len());
        lemma_marked_below(match_mask(trees(rows@), predicate_views(predicates@)));
    }
    match apply_agg(rows, matched.as_slice(), agg) {
        None => None,
        Some(reduction) => {
            let lead = query_display(predicates, agg, matched.len());
            Some(QueryPlan { lead, matched, reduction })
        },
    }
}

/// The records of the JSON array in `bytes`, if it is one.
pub open spec fn rows_of(bytes: Seq<u8>) -> Option<Seq<Tree>> {
    match json_of_bytes(bytes) {
        Some(Tree::Array(items)) => Some(items),
        _ => None,
    }
}

/// The records of the JSON array in `input`, if it is one.
pub fn parse_rows(input: &[u8]) -> (rows: Option<Vec<Json>>)
    ensures
        match rows {
            Some(v) => {
                &&& rows_of(input@) == Some(trees(v@))
                &&& read_apart(input@, Tree::Array(trees(v@)))
                &&& reads_back(Tree::Array(trees(v@)))
            },
            None => rows_of(input@) is None,
        },
{
    match Json::parse(input) {
        Some(value) => value.into_array(),
        None => None,
    }
}

/// Answers a query over the records of the JSON array in `input`. It is refused
/// where the input is no JSON array, where the aggregated field is in none of
/// the records that match, or where it is there without being a finite double.
pub fn query_aggregate(input: &[u8], predicates: &[Predicate], agg: &Agg) -> (out: Option<
    QueryPlan,
>)
    ensures
        match out {
            Some(plan) => rows_of(input@) is Some && answers(
                rows_of(input@)->0,
                predicate_views(predicates@),
                agg@,
                plan,
            ),
            None => rows_of(input@) is None || aggregate(
                rows_of(input@)->0,
                matches_of(rows_of(input@)->0, predicate_views(predicates@)),
                agg@,
            ) is None,
        },
{
    match parse_rows(input) {
        None => None,
        Some(rows) => query_rows(rows.as_slice(), predicates, agg),
    }
}

/// The records behind an answer are those of which every comparison holds, each
/// once and in order.
pub proof fn law_provenance_is_exact(rows: Seq<Tree>, predicates: Seq<PredicateView>, i: int)
    requires
        rows.len() <= usize::MAX,
        0 <= i < rows.len(),
    ensures
        matches_of(rows, predicates).contains(i as usize) <==> row_matches(rows[i], predicates),
{
    let mask = match_mask(rows, predicates);
    lemma_marked_below(mask);
    assert(mask[i] == row_matches(rows[i], predicates));
    if matches_of(rows, predicates).contains(i as usize) {
        let k = choose|k: int|
            0 <= k < marked(mask).len() && marked(mask)[k] == i as usize;
        assert(mask[marked(mask)[k] as int]);
    }
}

/// A conjunction is commutative and can be taken in two steps.
pub proof fn law_conjunction_in_two_steps(
    row: Tree,
    first: Seq<PredicateView>,
    second: Seq<PredicateView>,
)
    ensures
        row_matches(row, first + second) <==> row_matches(row, first) && row_matches(row, second),
{
    let both = first + second;
    if row_matches(row, both) {
        assert forall|i: int| 0 <= i < first.len() implies row_passes(
            row,
            #[trigger] first[i],
        ) by {
            assert(both[i] == first[i]);
        }
        assert forall|i: int| 0 <= i < second.len() implies row_passes(
            row,
            #[trigger] second[i],
        ) by {
            assert(both[first.len() + i] == second[i]);
        }
    }
    if row_matches(row, first) && row_matches(row, second) {
        assert forall|i: int| 0 <= i < both.len() implies row_passes(row, #[trigger] both[i]) by {
            if i < first.len() {
                assert(both[i] == first[i]);
            } else {
                assert(both[i] == second[i - first.len()]);
            }
        }
    }
}

/// The aggregate is over a field.
pub open spec fn agg_field(agg: AggView) -> Option<Seq<char>> {
    match agg {
        AggView::Count => None,
        AggView::Sum(f) => Some(f),
        AggView::Mean(f) => Some(f),
        AggView::Min(f) => Some(f),
        AggView::Max(f) => Some(f),
    }
}

proof fn lemma_gather_refuses(rows: Seq<Tree>, matched: Seq<usize>, field: Seq<char>, k: int)
    requires
        0 <= k < matched.len(),
        rows[matched[k] as int].get(field) is Some,
        rows[matched[k] as int].get(field)->0.double() is None,
    ensures
        gather(rows, matched, field) is None,
    decreases matched.len(),
{
    if k < matched.len() - 1 {
        assert(matched.drop_last()[k] == matched[k]);
        lemma_gather_refuses(rows, matched.drop_last(), field, k);
    }
}

/// Rather than guess, an aggregate over a field refuses: it has no answer as
/// soon as one of the records that match has the field without its being a
/// finite double.
pub proof fn law_mixed_field_is_refused(
    rows: Seq<Tree>,
    matched: Seq<usize>,
    agg: AggView,
    k: int,
)
    requires
        agg_field(agg) is Some,
        0 <= k < matched.len(),
        rows[matched[k] as int].get(agg_field(agg)->0) is Some,
        rows[matched[k] as int].get(agg_field(agg)->0)->0.double() is None,
    ensures
        aggregate(rows, matched, agg) is None,
{
    lemma_gather_refuses(rows, matched, agg_field(agg)->0, k);
}

// ---------------------------------------------------------------------------
// What an answer ranges over
// ---------------------------------------------------------------------------

/// Marking gives the numbers of all marked places, each once and in order.
pub proof fn law_marked(mask: Seq<bool>)
    requires
        mask.len() <= usize::MAX,
    ensures
        forall|i: int|
            0 <= i < mask.len() ==> (#[trigger] mask[i] <==> marked(mask).contains(i as usize)),
        forall|k: int|
            0 <= k < marked(mask).len() ==> (#[trigger] marked(mask)[k]) < mask.len()
                && mask[marked(mask)[k] as int],
        forall|j: int, k: int|
            0 <= j < k < marked(mask).len() ==> (#[trigger] marked(mask)[j]) < (#[trigger] marked(
                mask,
            )[k]),
{
    lemma_marked_below(mask);
    lemma_marked_increasing(mask);
    assert forall|i: int| 0 <= i < mask.len() && marked(mask).contains(
        i as usize,
    ) implies #[trigger] mask[i] by {
        let k = choose|k: int| 0 <= k < marked(mask).len() && marked(mask)[k] == i as usize;
        assert(mask[marked(mask)[k] as int]);
    }
}

/// The records of `matched` that have the field.
pub open spec fn having(rows: Seq<Tree>, matched: Seq<usize>, field: Seq<char>) -> Seq<usize> {
    matched.filter(|i: usize| rows[i as int].get(field) is Some)
}

/// The doubles are gathered from every record that has the field, in order and
/// without end: as soon as one of them is no finite double there is nothing, and
/// else there are exactly as many as there are such records, each at its place.
pub proof fn law_gather_takes_every_value(
    rows: Seq<Tree>,
    matched: Seq<usize>,
    field: Seq<char>,
)
    ensures
        gather(rows, matched, field) is None <==> exists|k: int|
            0 <= k < matched.len() && rows[#[trigger] matched[k] as int].get(field) is Some
                && rows[matched[k] as int].get(field)->0.double() is None,
        gather(rows, matched, field) is Some ==> gather(rows, matched, field)->0 == matched.filter(
            |i: usize| rows[i as int].get(field) is Some,
        ).map_values(|i: usize| rows[i as int].get(field)->0.double()->0),
    decreases matched.len(),
{
    reveal(Seq::filter);
    if matched.len() > 0 {
        let before = matched.drop_last();
        law_gather_takes_every_value(rows, before, field);
        assert(forall|k: int| 0 <= k < before.len() ==> #[trigger] before[k] == matched[k]);
        assert(matched[matched.len() - 1] == matched.last());
        if gather(rows, before, field) is None {
            let k = choose|k: int|
                0 <= k < before.len() && rows[#[trigger] before[k] as int].get(field) is Some
                    && rows[before[k] as int].get(field)->0.double() is None;
            assert(rows[matched[k] as int].get(field)->0.double() is None);
        }
        if exists|k: int|
            0 <= k < matched.len() && rows[#[trigger] matched[k] as int].get(field) is Some
                && rows[matched[k] as int].get(field)->0.double() is None {
            let k = choose|k: int|
                0 <= k < matched.len() && rows[#[trigger] matched[k] as int].get(field) is Some
                    && rows[matched[k] as int].get(field)->0.double() is None;
            if k < before.len() {
                assert(before[k] == matched[k]);
            }
        }
        if gather(rows, matched, field) is Some {
            let f = |i: usize| rows[i as int].get(field)->0.double()->0;
            assert(gather(rows, matched, field)->0 =~= having(rows, matched, field).map_values(f));
        }
    } else {
        let f = |i: usize| rows[i as int].get(field)->0.double()->0;
        assert(gather(rows, matched, field)->0 =~= having(rows, matched, field).map_values(f));
    }
}

/// A record with the field is among those that have it.
proof fn lemma_having(rows: Seq<Tree>, matched: Seq<usize>, field: Seq<char>, i: usize)
    ensures
        having(rows, matched, field).contains(i) <==> matched.contains(i) && rows[i as int].get(
            field,
        ) is Some,
    decreases matched.len(),
{
    reveal(Seq::filter);
    if matched.len() > 0 {
        let before = matched.drop_last();
        lemma_having(rows, before, field, i);
        let all = having(rows, matched, field);
        let some = having(rows, before, field);
        if all.contains(i) {
            let k = choose|k: int| 0 <= k < all.len() && all[k] == i;
            if k < some.len() {
                assert(some[k] == i);
                assert(before.contains(i));
                let j = choose|j: int| 0 <= j < before.len() && before[j] == i;
                assert(matched[j] == i);
            } else {
                assert(matched[matched.len() - 1] == i);
            }
        }
        if matched.contains(i) && rows[i as int].get(field) is Some {
            let j = choose|j: int| 0 <= j < matched.len() && matched[j] == i;
            if j < before.len() {
                assert(before[j] == i);
                let k = choose|k: int| 0 <= k < some.len() && some[k] == i;
                assert(all[k] == i);
            } else {
                assert(all[all.len() - 1] == i);
            }
        }
    }
}

/// What an aggregate is: a count is the number of the records; a sum or a mean is
/// over the doubles of all the records that have the field, in order; a minimum
/// or a maximum is the double of one of them that none of them is below or
/// above. It is refused exactly where none of the records has the field, or one
/// has it without its being a finite double.
pub proof fn law_aggregate(rows: Seq<Tree>, matched: Seq<usize>, agg: AggView, i: usize)
    ensures
        agg is Count ==> aggregate(rows, matched, agg) == Some(
            ReductionView::Count(matched.len()),
        ),
        agg_field(agg) is Some ==> {
            let field = agg_field(agg)->0;
            let there = matched.filter(|i: usize| rows[i as int].get(field) is Some);
            let double = |i: usize| rows[i as int].get(field)->0.double();
            let values = there.map_values(|i: usize| double(i)->0);
            &&& aggregate(rows, matched, agg) is None <==> there.len() == 0 || exists|k: int|
                0 <= k < matched.len() && rows[#[trigger] matched[k] as int].get(field) is Some
                    && rows[matched[k] as int].get(field)->0.double() is None
            &&& aggregate(rows, matched, agg) is Some ==> {
                let found = aggregate(rows, matched, agg)->0;
                &&& agg is Sum ==> found == ReductionView::Sum(values)
                &&& agg is Mean ==> found == ReductionView::Mean(values)
                &&& agg is Min || agg is Max ==> found is Value && values.contains(
                    found->Value_0,
                )
                &&& matched.contains(i) && rows[i as int].get(field) is Some ==> {
                    &&& there.contains(i)
                    &&& double(i) is Some
                    &&& agg is Min ==> rank(found->Value_0) <= rank(double(i)->0)
                    &&& agg is Max ==> rank(double(i)->0) <= rank(found->Value_0)
                }
            }
        },
{
    if agg_field(agg) is Some {
        let field = agg_field(agg)->0;
        let there = having(rows, matched, field);
        let double = |i: usize| rows[i as int].get(field)->0.double();
        let values = there.map_values(|i: usize| double(i)->0);
        law_gather_takes_every_value(rows, matched, field);
        assert(values =~= there.map_values(|i: usize| rows[i as int].get(field)->0.double()->0));
        if aggregate(rows, matched, agg) is Some {
            law_extremes_bound_all(values);
            if matched.contains(i) && rows[i as int].get(field) is Some {
                lemma_having(rows, matched, field, i);
                let k = choose|k: int| 0 <= k < there.len() && there[k] == i;
                assert(values[k] == double(i)->0);
                let m = choose|m: int| 0 <= m < matched.len() && matched[m] == i;
                assert(rows[matched[m] as int].get(field) is Some);
            }
        }
    }
}

/// A record matches exactly if it has the field of every comparison with a value
/// of which the comparison holds.
pub proof fn law_matching(row: Tree, predicates: Seq<PredicateView>)
    ensures
        row_matches(row, predicates) <==> forall|i: int|
            0 <= i < predicates.len() ==> row.get((#[trigger] predicates[i]).field) is Some
                && passes(
                row.get(predicates[i].field)->0,
                predicates[i].op,
                predicates[i].value,
            ),
{
    if row_matches(row, predicates) {
        assert forall|i: int| 0 <= i < predicates.len() implies row.get(
            (#[trigger] predicates[i]).field,
        ) is Some && passes(
            row.get(predicates[i].field)->0,
            predicates[i].op,
            predicates[i].value,
        ) by {
            assert(row_passes(row, predicates[i]));
        }
    }
}

/// What an answer is: it comes with the numbers of all records that match, each
/// once and in order; it is computed over all of them; and it says how many they
/// are. There is one exactly where the aggregate over them is not refused.
pub proof fn law_answer_is_over_every_record(
    rows: Seq<Tree>,
    predicates: Seq<PredicateView>,
    agg: AggView,
    plan: QueryPlan,
    i: int,
)
    requires
        rows.len() <= usize::MAX,
        answers(rows, predicates, agg, plan),
        0 <= i < rows.len(),
    ensures
        plan.matched@.contains(i as usize) <==> (forall|k: int|
            0 <= k < predicates.len() ==> rows[i].get((#[trigger] predicates[k]).field) is Some
                && passes(
                rows[i].get(predicates[k].field)->0,
                predicates[k].op,
                predicates[k].value,
            )),
        forall|j: int, k: int|
            0 <= j < k < plan.matched@.len() ==> (#[trigger] plan.matched@[j]) < (
            #[trigger] plan.matched@[k]) < rows.len(),
        aggregate(rows, plan.matched@, agg) == Some(plan.reduction@),
        (" over "@ + decimal(plan.matched@.len()) + " matched records = "@).is_suffix_of(
            plan.lead@,
        ),
        ("[index] "@ + agg_text(agg)).is_prefix_of(plan.lead@),
{
    let mask = match_mask(rows, predicates);
    law_marked(mask);
    law_matching(rows[i], predicates);
    assert(mask[i] == row_matches(rows[i], predicates));
    let head = "[index] "@ + agg_text(agg) + where_text(Seq::empty(), predicates);
    let tail = " over "@ + decimal(plan.matched@.len()) + " matched records = "@;
    assert(plan.lead@ =~= head + tail);
    assert(tail =~= plan.lead@.subrange(head.len() as int, plan.lead@.len() as int));
    assert("[index] "@ + agg_text(agg) =~= plan.lead@.subrange(
        0,
        ("[index] "@ + agg_text(agg)).len() as int,
    ));
}

/// The words of an aggregate and of the comparisons before the result.
pub proof fn law_query_words(f: Seq<char>, predicates: Seq<PredicateView>, prefix: Seq<char>)
    ensures
        agg_text(AggView::Count) == "count"@,
        agg_text(AggView::Sum(f)) == "sum("@ + f + ")"@,
        agg_text(AggView::Mean(f)) == "mean("@ + f + ")"@,
        agg_text(AggView::Min(f)) == "min("@ + f + ")"@,
        agg_text(AggView::Max(f)) == "max("@ + f + ")"@,
        where_text(prefix, predicates) == (if predicates.len() == 0 {
            Seq::<char>::empty()
        } else {
            " where "@ + join(
                predicates.map_values(
                    |p: PredicateView|
                        prefix + p.field + " "@ + op_sign(p.op) + " "@ + compact(p.value),
                ),
                " AND "@,
            )
        }),
        op_sign(Op::Eq) == "=="@,
        op_sign(Op::Ne) == "!="@,
        op_sign(Op::Gt) == ">"@,
        op_sign(Op::Ge) == ">="@,
        op_sign(Op::Lt) == "<"@,
        op_sign(Op::Le) == "<="@,
{
    assert(Seq::new(predicates.len(), |i: int| clause_text(prefix, predicates[i]))
        =~= predicates.map_values(
        |p: PredicateView| prefix + p.field + " "@ + op_sign(p.op) + " "@ + compact(p.value),
    ));
}

/// The records of an input are the elements of the JSON array that it is; any
/// other input has none.
pub proof fn law_records(bytes: Seq<u8>, items: Seq<Tree>)
    ensures
        rows_of(bytes) == Some(items) <==> json_of_bytes(bytes) == Some(Tree::Array(items)),
{
}

/// The line of an answer names the aggregate, every comparison, and the number of
/// matched records.
pub proof fn law_query_text(predicates: Seq<PredicateView>, agg: AggView, matched: nat)
    ensures
        query_text(predicates, agg, matched) == "[index] "@ + agg_text(agg) + where_text(
            Seq::empty(),
            predicates,
        ) + " over "@ + decimal(matched) + " matched records = "@,
{
}

/// A query has every one of its comparisons, as they are.
pub proof fn law_query_views(predicates: Seq<Predicate>, f: String, i: int)
    ensures
        predicate_views(predicates).len() == predicates.len(),
        0 <= i < predicates.len() ==> predicate_views(predicates)[i] == (PredicateView {
            field: predicates[i].field@,
            op: predicates[i].op,
            value: predicates[i].value@,
        }),
        Agg::Count@ == AggView::Count,
        Agg::Sum(f)@ == AggView::Sum(f@),
        Agg::Mean(f)@ == AggView::Mean(f@),
        Agg::Min(f)@ == AggView::Min(f@),
        Agg::Max(f)@ == AggView::Max(f@),
{
}

/// What is left of an aggregate: a count, the doubles to sum or to average, or a
/// double.
pub proof fn law_reduction_views(n: usize, values: Vec<u64>, bits: u64)
    ensures
        Reduction::Count(n)@ == ReductionView::Count(n as nat),
        Reduction::Sum(values)@ == ReductionView::Sum(values@),
        Reduction::Mean(values)@ == ReductionView::Mean(values@),
        Reduction::Value(bits)@ == ReductionView::Value(bits),
{
}

/// Of doubles that are the same number the first is the least and the greatest.
pub proof fn law_extremes_step(vals: Seq<u64>, v: u64)
    ensures
        least(seq![v]) == v,
        greatest(seq![v]) == v,
        vals.len() > 0 ==> least(vals.push(v)) == (if rank(v) < rank(least(vals)) {
            v
        } else {
            least(vals)
        }),
        vals.len() > 0 ==> greatest(vals.push(v)) == (if rank(v) > rank(greatest(vals)) {
            v
        } else {
            greatest(vals)
        }),
{
    assert(vals.push(v).drop_last() =~= vals);
}

} // verus!
