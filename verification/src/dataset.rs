//! A JSON array that is parsed once and asked many times.
//!
//! The typed column of a field is built when the field is first asked for, and
//! the description and the answers to questions are remembered. None of this
//! can be seen from outside: every answer is the one that the records give.
use crate::budget::marked;
use crate::cells::{restricted, Column};
use crate::describe::{describe_rows, description_of, Description};
use crate::digest::{answer, digest_rows, Digest};
use crate::groups::{group_views, grouped, GroupPlan};
use crate::histogram::{
    bucket_aggregate_rows, bucket_text, bucket_values, field_doubles, low_keys, positive_finite, Low,
};
use crate::join::{
    group_join, group_join_text, join_aggregate_rows, join_answers, join_group_aggregate_rows,
    join_mask,
};
use crate::json::{trees, Json, Tree};
use crate::query::{
    aggregate, answers, below, lemma_marked_below, match_mask, matches_of, parse_rows,
    predicate_views, query_display, reduce, row_matches, row_passes, rows_of, Agg, Predicate,
    PredicateView, QueryPlan, Reduction,
};
use crate::text::same_text;
use std::sync::Arc;
use vstd::prelude::*;
use vstd::rwlock::{RwLock, RwLockPredicate};

verus! {

/// Answers remembered per dataset. Past this number, answers are computed and
/// not remembered.
pub const DIGEST_MEMO_CAP: usize = 64;

/// The columns, which stand for fields of these records.
pub struct ColumnsOf {
    rows: Seq<Tree>,
}

impl RwLockPredicate<Vec<Column>> for ColumnsOf {
    closed spec fn inv(self, columns: Vec<Column>) -> bool {
        forall|i: int| 0 <= i < columns@.len() ==> (#[trigger] columns@[i]).fits(self.rows)
    }
}

/// The description, which is that of these records once it is known.
pub struct DescriptionOf {
    rows: Seq<Tree>,
}

/// `found` is the description of the records.
pub open spec fn describes(rows: Seq<Tree>, found: Option<Description>) -> bool {
    match found {
        Some(d) => description_of(rows) == Some(d@),
        None => description_of(rows) is None,
    }
}

impl RwLockPredicate<Option<Option<Description>>> for DescriptionOf {
    closed spec fn inv(self, memo: Option<Option<Description>>) -> bool {
        match memo {
            Some(found) => describes(self.rows, found),
            None => true,
        }
    }
}

/// The answers that are remembered, which these records give.
pub struct AnswersOf {
    rows: Seq<Tree>,
}

/// A question and its answer.
pub struct Answered {
    query: String,
    found: Option<Digest>,
}

/// `found` is the answer to the question over the records.
pub open spec fn digests(rows: Seq<Tree>, query: Seq<char>, found: Option<Digest>) -> bool {
    match found {
        Some(d) => answer(rows, query) == Some(d@),
        None => answer(rows, query) is None,
    }
}

impl RwLockPredicate<Vec<Answered>> for AnswersOf {
    closed spec fn inv(self, memo: Vec<Answered>) -> bool {
        &&& memo@.len() <= DIGEST_MEMO_CAP
        &&& forall|i: int|
            0 <= i < memo@.len() ==> digests(
                self.rows,
                (#[trigger] memo@[i]).query@,
                memo@[i].found,
            )
    }
}

/// A parsed JSON array of records.
pub struct Dataset {
    rows: Vec<Json>,
    columns: RwLock<Vec<Column>, ColumnsOf>,
    describe_memo: RwLock<Option<Option<Description>>, DescriptionOf>,
    digest_memo: RwLock<Vec<Answered>, AnswersOf>,
}

impl View for Dataset {
    type V = Seq<Tree>;

    closed spec fn view(&self) -> Seq<Tree> {
        trees(self.rows@)
    }
}

fn find_column(columns: &Vec<Column>, field: &str) -> (out: Option<usize>)
    ensures
        match out {
            Some(i) => i < columns@.len() && columns@[i as int].name() == field@,
            None => forall|i: int|
                0 <= i < columns@.len() ==> (#[trigger] columns@[i]).name() != field@,
        },
{
    let mut i: usize = 0;
    while i < columns.len()
        invariant
            i <= columns@.len(),
            forall|k: int| 0 <= k < i ==> (#[trigger] columns@[k]).name() != field@,
        decreases columns@.len() - i,
    {
        if same_text(columns[i].field(), field) {
            return Some(i);
        }
        i += 1;
    }
    None
}

fn find_answer(memo: &Vec<Answered>, query: &str) -> (out: Option<usize>)
    ensures
        match out {
            Some(i) => {
                &&& i < memo@.len()
                &&& memo@[i as int].query@ == query@
                &&& forall|k: int| 0 <= k < i ==> (#[trigger] memo@[k]).query@ != query@
            },
            None => forall|k: int|
                0 <= k < memo@.len() ==> (#[trigger] memo@[k]).query@ != query@,
        },
{
    let mut i: usize = 0;
    while i < memo.len()
        invariant
            i <= memo@.len(),
            forall|k: int| 0 <= k < i ==> (#[trigger] memo@[k]).query@ != query@,
        decreases memo@.len() - i,
    {
        if same_text(memo[i].query.as_str(), query) {
            return Some(i);
        }
        i += 1;
    }
    None
}

fn copy_found(found: &Option<Digest>) -> (out: Option<Digest>)
    ensures
        match (*found, out) {
            (Some(a), Some(b)) => a@ == b@,
            (None, None) => true,
            _ => false,
        },
{
    match found {
        Some(d) => Some(d.copy()),
        None => None,
    }
}

/// The records of which every one of the first `n` comparisons holds.
spec fn partial_mask(rows: Seq<Tree>, predicates: Seq<PredicateView>, n: int) -> Seq<bool> {
    match_mask(rows, predicates.take(n))
}

proof fn lemma_one_more(rows: Seq<Tree>, predicates: Seq<PredicateView>, n: int)
    requires
        0 <= n < predicates.len(),
    ensures
        partial_mask(rows, predicates, n + 1) == restricted(
            rows,
            predicates[n],
            partial_mask(rows, predicates, n),
        ),
{
    let more = predicates.take(n + 1);
    let less = predicates.take(n);
    assert(more =~= less.push(predicates[n]));
    assert forall|i: int| 0 <= i < rows.len() implies row_matches(#[trigger] rows[i], more) == (
    row_matches(rows[i], less) && row_passes(rows[i], predicates[n])) by {
        if row_matches(rows[i], more) {
            assert forall|k: int| 0 <= k < less.len() implies row_passes(
                rows[i],
                #[trigger] less[k],
            ) by {
                assert(more[k] == less[k]);
            }
            assert(more[n] == predicates[n]);
        }
        if row_matches(rows[i], less) && row_passes(rows[i], predicates[n]) {
            assert forall|k: int| 0 <= k < more.len() implies row_passes(
                rows[i],
                #[trigger] more[k],
            ) by {
                if k < n {
                    assert(more[k] == less[k]);
                }
            }
        }
    }
    assert(partial_mask(rows, predicates, n + 1) =~= restricted(
        rows,
        predicates[n],
        partial_mask(rows, predicates, n),
    ));
}

fn marked_of(mask: &[bool]) -> (out: Vec<usize>)
    ensures
        out@ == marked(mask@),
{
    let mut out: Vec<usize> = Vec::new();
    let mut i: usize = 0;
    while i < mask.len()
        invariant
            i <= mask@.len(),
            out@ == marked(mask@.take(i as int)),
        decreases mask@.len() - i,
    {
        assert(mask@.take(i as int + 1).drop_last() =~= mask@.take(i as int));
        if mask[i] {
            out.push(i);
        }
        i += 1;
    }
    assert(mask@.take(i as int) =~= mask@);
    out
}

impl Dataset {
    #[verifier::type_invariant]
    spec fn consistent(self) -> bool {
        &&& self.columns.pred().rows == trees(self.rows@)
        &&& self.describe_memo.pred().rows == trees(self.rows@)
        &&& self.digest_memo.pred().rows == trees(self.rows@)
    }

    /// Parses the JSON array in `input`; nothing, where it is none.
    pub fn parse(input: &[u8]) -> (out: Option<Dataset>)
        ensures
            match out {
                Some(d) => rows_of(input@) == Some(d@),
                None => rows_of(input@) is None,
            },
    {
        match parse_rows(input) {
            Some(rows) => Some(Dataset::from_rows(rows)),
            None => None,
        }
    }

    /// The dataset of records that are parsed already.
    pub fn from_rows(rows: Vec<Json>) -> (out: Dataset)
        ensures
            out@ == trees(rows@),
    {
        let ghost ts = trees(rows@);
        Dataset {
            rows,
            columns: RwLock::new(Vec::new(), Ghost(ColumnsOf { rows: ts })),
            describe_memo: RwLock::new(None, Ghost(DescriptionOf { rows: ts })),
            digest_memo: RwLock::new(Vec::new(), Ghost(AnswersOf { rows: ts })),
        }
    }

    /// The number of records.
    pub fn len(&self) -> (n: usize)
        ensures
            n == self@.len(),
    {
        assert(trees(self.rows@).len() == self.rows@.len());
        self.rows.len()
    }

    /// The records.
    pub fn rows(&self) -> (rows: &[Json])
        ensures
            trees(rows@) == self@,
    {
        self.rows.as_slice()
    }

    /// Whether there are no records.
    pub fn is_empty(&self) -> (r: bool)
        ensures
            r == (self@.len() == 0),
    {
        self.len() == 0
    }

    /// Keeps a column for later.
    fn remember(&self, column: Column)
        requires
            column.fits(self@),
    {
        proof {
            use_type_invariant(self);
        }
        let (mut columns, handle) = self.columns.acquire_write();
        let ghost had = columns@;
        if find_column(&columns, column.field()).is_none() {
            columns.push(column);
            assert forall|i: int| 0 <= i < columns@.len() implies (#[trigger] columns@[i]).fits(
                self@,
            ) by {
                if i < had.len() {
                    assert(columns@[i] == had[i]);
                }
            }
        }
        handle.release_write(columns);
    }

    /// Takes out of the mask the records of which the comparison does not hold.
    /// A comparison with a number or a string goes over the column of the field;
    /// any other goes over the records.
    fn apply_predicate(&self, p: &Predicate, mask: &mut Vec<bool>)
        requires
            old(mask)@.len() == self@.len(),
        ensures
            final(mask)@ == restricted(self@, p@, old(mask)@),
    {
        proof {
            use_type_invariant(self);
        }
        assert(trees(self.rows@).len() == self.rows@.len());
        if p.value.double().is_none() && p.value.as_str().is_none() {
            let ghost ts = trees(self.rows@);
            let ghost before = mask@;
            let mut i: usize = 0;
            while i < self.rows.len()
                invariant
                    i <= self.rows@.len(),
                    ts == trees(self.rows@),
                    mask@.len() == self.rows@.len(),
                    before.len() == self.rows@.len(),
                    forall|k: int|
                        0 <= k < i ==> #[trigger] mask@[k] == (before[k] && row_passes(ts[k], p@)),
                    forall|k: int| i <= k < self.rows@.len() ==> #[trigger] mask@[k] == before[k],
                decreases self.rows@.len() - i,
            {
                assert(ts[i as int] == self.rows@[i as int]@);
                if mask[i] {
                    let r = Column::raw_passes(&self.rows[i], p);
                    mask.set(i, r);
                }
                i += 1;
            }
            assert(mask@ =~= restricted(ts, p@, before));
            return ;
        }
        let handle = self.columns.acquire_read();
        let columns = handle.borrow();
        if let Some(at) = find_column(columns, p.field.as_str()) {
            columns[at].restrict(self.rows.as_slice(), p, mask);
            handle.release_read();
            return ;
        }
        handle.release_read();
        let built = Column::build(self.rows.as_slice(), p.field.as_str());
        built.restrict(self.rows.as_slice(), p, mask);
        self.remember(built);
    }

    /// The doubles of a field over the records `matched`, from its column.
    fn gather_field(&self, matched: &[usize], field: &str) -> (out: Option<Vec<u64>>)
        requires
            below(matched@, self@.len() as int),
        ensures
            match out {
                Some(v) => crate::query::gather(self@, matched@, field@) == Some(v@),
                None => crate::query::gather(self@, matched@, field@) is None,
            },
    {
        proof {
            use_type_invariant(self);
        }
        assert(trees(self.rows@).len() == self.rows@.len());
        let handle = self.columns.acquire_read();
        let columns = handle.borrow();
        if let Some(at) = find_column(columns, field) {
            let out = columns[at].gather_cells(self.rows.as_slice(), matched);
            handle.release_read();
            return out;
        }
        handle.release_read();
        let built = Column::build(self.rows.as_slice(), field);
        let out = built.gather_cells(self.rows.as_slice(), matched);
        self.remember(built);
        out
    }

    /// The aggregate over the records `matched`.
    fn agg_over(&self, matched: &[usize], agg: &Agg) -> (out: Option<Reduction>)
        requires
            below(matched@, self@.len() as int),
        ensures
            match out {
                Some(r) => aggregate(self@, matched@, agg@) == Some(r@),
                None => aggregate(self@, matched@, agg@) is None,
            },
    {
        match agg {
            Agg::Count => Some(Reduction::Count(matched.len())),
            Agg::Sum(f) => reduce(self.gather_field(matched, f.as_str()), agg),
            Agg::Mean(f) => reduce(self.gather_field(matched, f.as_str()), agg),
            Agg::Min(f) => reduce(self.gather_field(matched, f.as_str()), agg),
            Agg::Max(f) => reduce(self.gather_field(matched, f.as_str()), agg),
        }
    }

    /// Answers a query as `query_aggregate` does over the same records.
    pub fn query_aggregate(&self, predicates: &[Predicate], agg: &Agg) -> (out: Option<QueryPlan>)
        ensures
            match out {
                Some(plan) => answers(self@, predicate_views(predicates@), agg@, plan),
                None => aggregate(
                    self@,
                    matches_of(self@, predicate_views(predicates@)),
                    agg@,
                ) is None,
            },
    {
        let ghost ts = self@;
        let ghost ps = predicate_views(predicates@);
        let n = self.len();
        let mut mask: Vec<bool> = Vec::new();
        let mut i: usize = 0;
        while i < n
            invariant
                i <= n,
                mask@.len() == i,
                forall|k: int| 0 <= k < i ==> #[trigger] mask@[k],
            decreases n - i,
        {
            mask.push(true);
            i += 1;
        }
        assert(mask@ =~= partial_mask(ts, ps, 0));
        let mut j: usize = 0;
        while j < predicates.len()
            invariant
                j <= predicates@.len(),
                ts == self@,
                ps == predicate_views(predicates@),
                mask@ == partial_mask(ts, ps, j as int),
            decreases predicates@.len() - j,
        {
            proof {
                lemma_one_more(ts, ps, j as int);
                assert(ps[j as int] == predicates@[j as int]@);
            }
            self.apply_predicate(&predicates[j], &mut mask);
            j += 1;
        }
        assert(ps.take(j as int) =~= ps);
        let matched = marked_of(mask.as_slice());
        proof {
            assert(mask.len() == mask@.len());
            lemma_marked_below(match_mask(ts, ps));
        }
        match self.agg_over(matched.as_slice(), agg) {
            None => None,
            Some(reduction) => {
                let lead = query_display(predicates, agg, matched.len());
                Some(QueryPlan { lead, matched, reduction })
            },
        }
    }

    /// The description of the records, as `describe` gives it. It is computed
    /// once.
    pub fn describe(&self) -> (out: Option<Description>)
        ensures
            describes(self@, out),
    {
        proof {
            use_type_invariant(self);
        }
        let handle = self.describe_memo.acquire_read();
        let known: Option<Option<Description>> = match handle.borrow() {
            Some(found) => match found {
                Some(d) => Some(Some(d.copy())),
                None => Some(None),
            },
            None => None,
        };
        handle.release_read();
        if let Some(found) = known {
            return found;
        }
        let computed = describe_rows(self.rows.as_slice());
        let kept = match &computed {
            Some(d) => Some(d.copy()),
            None => None,
        };
        let (_, writer) = self.describe_memo.acquire_write();
        writer.release_write(Some(kept));
        computed
    }

    /// The answer to a question over the records, as `digest` gives it. Answers
    /// are remembered by the text of the question.
    pub fn digest(&self, query: &str) -> (out: Option<Digest>)
        ensures
            digests(self@, query@, out),
    {
        proof {
            use_type_invariant(self);
        }
        let handle = self.digest_memo.acquire_read();
        let memo = handle.borrow();
        if let Some(at) = find_answer(memo, query) {
            let found = copy_found(&memo[at].found);
            handle.release_read();
            return found;
        }
        handle.release_read();
        let computed = digest_rows(self.rows.as_slice(), query);
        let kept = copy_found(&computed);
        let (mut answered, writer) = self.digest_memo.acquire_write();
        let ghost had = answered@;
        if answered.len() < DIGEST_MEMO_CAP {
            answered.push(Answered { query: query.to_owned(), found: kept });
            assert forall|i: int| 0 <= i < answered@.len() implies digests(
                self@,
                (#[trigger] answered@[i]).query@,
                answered@[i].found,
            ) by {
                if i < had.len() {
                    assert(answered@[i] == had[i]);
                }
            }
        }
        writer.release_write(answered);
        computed
    }

    /// The values to put into buckets, as `bucket_values` gives them.
    pub fn bucket_values(&self, bucket_field: &str, width: u64) -> (out: Option<Vec<Option<u64>>>)
        ensures
            match out {
                Some(v) => positive_finite(width) && field_doubles(self@, bucket_field@) == Some(v@)
                    && v@.len() == self@.len(),
                None => !positive_finite(width) || field_doubles(self@, bucket_field@) is None,
            },
    {
        assert(trees(self.rows@).len() == self.rows@.len());
        bucket_values(self.rows.as_slice(), bucket_field, width)
    }

    /// The buckets, as `bucket_aggregate_rows` gives them.
    pub fn bucket_aggregate(
        &self,
        bucket_field: &str,
        width_shown: &str,
        lows: &[Option<Low>],
        agg: &Agg,
    ) -> (out: Option<GroupPlan>)
        requires
            lows@.len() == self@.len(),
        ensures
            match out {
                Some(plan) => {
                    &&& grouped(self@, low_keys(lows@), agg@) == Some(group_views(plan.groups@))
                    &&& plan.display@ == bucket_text(
                        agg@,
                        bucket_field@,
                        width_shown@,
                        plan.groups@.len(),
                    )
                },
                None => grouped(self@, low_keys(lows@), agg@) is None,
            },
    {
        assert(trees(self.rows@).len() == self.rows@.len());
        bucket_aggregate_rows(self.rows.as_slice(), bucket_field, width_shown, lows, agg)
    }

    /// The semi-join with another dataset, as `join_aggregate` gives it.
    pub fn join_aggregate(
        &self,
        right: &Dataset,
        left_key: &str,
        right_key: &str,
        right_where: &[Predicate],
        agg: &Agg,
    ) -> (out: Option<QueryPlan>)
        ensures
            match out {
                Some(plan) => join_answers(
                    self@,
                    right@,
                    left_key@,
                    right_key@,
                    predicate_views(right_where@),
                    agg@,
                    plan,
                ),
                None => aggregate(
                    self@,
                    marked(
                        join_mask(
                            self@,
                            right@,
                            left_key@,
                            right_key@,
                            predicate_views(right_where@),
                        ),
                    ),
                    agg@,
                ) is None,
            },
    {
        join_aggregate_rows(
            self.rows.as_slice(),
            right.rows.as_slice(),
            left_key,
            right_key,
            right_where,
            agg,
        )
    }

    /// The grouped join with another dataset, as `join_group_aggregate` gives
    /// it.
    pub fn join_group_aggregate(
        &self,
        right: &Dataset,
        left_key: &str,
        right_key: &str,
        group_field: &str,
        agg: &Agg,
    ) -> (out: Option<GroupPlan>)
        ensures
            match out {
                Some(plan) => {
                    &&& group_join(self@, right@, left_key@, right_key@, group_field@, agg@)
                        == Some(group_views(plan.groups@))
                    &&& plan.display@ == group_join_text(
                        agg@,
                        left_key@,
                        right_key@,
                        group_field@,
                        plan.groups@.len(),
                    )
                },
                None => group_join(
                    self@,
                    right@,
                    left_key@,
                    right_key@,
                    group_field@,
                    agg@,
                ) is None,
            },
    {
        join_group_aggregate_rows(
            self.rows.as_slice(),
            right.rows.as_slice(),
            left_key,
            right_key,
            group_field,
            agg,
        )
    }
}

// ---------------------------------------------------------------------------
// The cache
// ---------------------------------------------------------------------------

/// A parsed dataset under its handle.
pub struct Held {
    key: String,
    dataset: Arc<Dataset>,
}

/// A handle and the records under it.
pub type HeldView = (Seq<char>, Seq<Tree>);

spec fn held_view(held: Held) -> HeldView {
    (held.key@, (*held.dataset)@)
}

/// The least recently used datasets leave first. A capacity of zero retains
/// nothing.
pub struct DatasetCache {
    cap: usize,
    held: Vec<Held>,
}

/// No handle is held twice.
pub open spec fn distinct_keys(held: Seq<HeldView>) -> bool {
    forall|i: int, j: int| 0 <= i < j < held.len() ==> (#[trigger] held[i]).0 != (#[trigger] held[j]).0
}

/// Where a handle is held; the number of handles, where it is not.
pub open spec fn held_at(held: Seq<HeldView>, key: Seq<char>) -> int
    decreases held.len(),
{
    if held.len() == 0 {
        0
    } else if held[0].0 == key {
        0
    } else {
        1 + held_at(held.skip(1), key)
    }
}

/// What is held after a lookup, from the least to the most recently used.
pub open spec fn after_lookup(
    held: Seq<HeldView>,
    cap: nat,
    key: Seq<char>,
    bytes: Seq<u8>,
) -> Seq<HeldView> {
    let at = held_at(held, key);
    if at < held.len() {
        held.remove(at).push(held[at])
    } else if cap == 0 || rows_of(bytes) is None {
        held
    } else {
        let more = held.push((key, rows_of(bytes)->0));
        if more.len() > cap {
            more.skip(1)
        } else {
            more
        }
    }
}

/// The records that a lookup gives.
pub open spec fn looked_up(held: Seq<HeldView>, key: Seq<char>, bytes: Seq<u8>) -> Option<
    Seq<Tree>,
> {
    let at = held_at(held, key);
    if at < held.len() {
        Some(held[at].1)
    } else {
        rows_of(bytes)
    }
}

proof fn lemma_held_at(held: Seq<HeldView>, key: Seq<char>, n: int)
    requires
        0 <= n <= held.len(),
        forall|k: int| 0 <= k < n ==> (#[trigger] held[k]).0 != key,
        n < held.len() ==> held[n].0 == key,
    ensures
        held_at(held, key) == n,
    decreases held.len(),
{
    if n > 0 {
        let rest = held.skip(1);
        assert(held[0].0 != key);
        assert forall|k: int| 0 <= k < n - 1 implies (#[trigger] rest[k]).0 != key by {
            assert(rest[k] == held[k + 1]);
        }
        lemma_held_at(rest, key, n - 1);
    }
}

/// Calls `Arc::clone`. Claims that the result points to the same value.
#[verifier::external_body]
fn share(dataset: &Arc<Dataset>) -> (out: Arc<Dataset>)
    ensures
        out == *dataset,
{
    Arc::clone(dataset)
}

impl View for DatasetCache {
    type V = Seq<HeldView>;

    closed spec fn view(&self) -> Seq<HeldView> {
        Seq::new(self.held@.len(), |i: int| held_view(self.held@[i]))
    }
}

impl DatasetCache {
    /// How many datasets the cache retains.
    pub closed spec fn capacity(&self) -> nat {
        self.cap as nat
    }

    /// No more datasets are held than the capacity allows, none twice.
    pub open spec fn wf(&self) -> bool {
        &&& self@.len() <= self.capacity()
        &&& distinct_keys(self@)
    }

    /// An empty cache for at most `cap` datasets.
    pub fn new(cap: usize) -> (out: DatasetCache)
        ensures
            out.wf(),
            out@ == Seq::<HeldView>::empty(),
            out.capacity() == cap,
    {
        let out = DatasetCache { cap, held: Vec::new() };
        assert(out@ =~= Seq::empty());
        out
    }

    /// The dataset under a handle. Where the handle is not held, `bytes` are
    /// parsed; nothing is given, and nothing is held, where they are no JSON
    /// array.
    pub fn get_or_parse(&mut self, key: &str, bytes: &[u8]) -> (out: Option<Arc<Dataset>>)
        requires
            old(self).wf(),
        ensures
            final(self).wf(),
            final(self).capacity() == old(self).capacity(),
            final(self)@ == after_lookup(old(self)@, old(self).capacity(), key@, bytes@),
            match out {
                Some(d) => looked_up(old(self)@, key@, bytes@) == Some((*d)@),
                None => looked_up(old(self)@, key@, bytes@) is None,
            },
    {
        let ghost before = self@;
        assert(before.len() == self.held@.len());
        let mut i: usize = 0;
        while i < self.held.len()
            invariant
                *self == *old(self),
                i <= self.held@.len(),
                before == self@,
                before.len() == self.held@.len(),
                old(self).wf(),
                forall|k: int| 0 <= k < i ==> (#[trigger] before[k]).0 != key@,
            decreases self.held@.len() - i,
        {
            assert(before[i as int] == held_view(self.held@[i as int]));
            if same_text(self.held[i].key.as_str(), key) {
                proof {
                    lemma_held_at(before, key@, i as int);
                }
                let found = self.held.remove(i);
                let dataset = share(&found.dataset);
                self.held.push(found);
                let ghost now = before.remove(i as int).push(before[i as int]);
                proof {
                    assert(self@ =~= now);
                    assert forall|a: int, b: int| 0 <= a < b < now.len() implies (#[trigger] now[a]).0
                        != (#[trigger] now[b]).0 by {
                        let x = if a < i {
                            a
                        } else {
                            a + 1
                        };
                        let y = if b == now.len() - 1 {
                            i as int
                        } else if b < i {
                            b
                        } else {
                            b + 1
                        };
                        assert(now[a] == before[x]);
                        assert(now[b] == before[y]);
                        if x < y {
                            assert(before[x].0 != before[y].0);
                        } else {
                            assert(before[y].0 != before[x].0);
                        }
                    }
                }
                return Some(dataset);
            }
            i += 1;
        }
        proof {
            lemma_held_at(before, key@, i as int);
        }
        let dataset = match Dataset::parse(bytes) {
            Some(d) => Arc::new(d),
            None => {
                return None;
            },
        };
        if self.cap == 0 {
            return Some(dataset);
        }
        let ghost rows = (*dataset)@;
        let kept = Held { key: key.to_owned(), dataset: share(&dataset) };
        let ghost more = before.push((key@, rows));
        self.held.push(kept);
        assert(self@ =~= more);
        assert(distinct_keys(more));
        if self.held.len() > self.cap {
            let _ = self.held.remove(0);
            assert(self@ =~= more.skip(1));
            assert forall|a: int, b: int| 0 <= a < b < more.skip(1).len() implies (#[trigger] more.skip(
                1,
            )[a]).0 != (#[trigger] more.skip(1)[b]).0 by {
                assert(more.skip(1)[a] == more[a + 1]);
                assert(more.skip(1)[b] == more[b + 1]);
            }
        }
        Some(dataset)
    }
}

/// A lookup right after another one under the same handle gives the same
/// records, whatever bytes come with it.
pub proof fn law_lookup_is_remembered(
    held: Seq<HeldView>,
    cap: nat,
    key: Seq<char>,
    bytes: Seq<u8>,
    other: Seq<u8>,
)
    requires
        cap > 0,
        held.len() <= cap,
        distinct_keys(held),
        looked_up(held, key, bytes) is Some,
    ensures
        looked_up(after_lookup(held, cap, key, bytes), key, other) == looked_up(held, key, bytes),
{
    let now = after_lookup(held, cap, key, bytes);
    lemma_at_is_first(held, key);
    let at = held_at(held, key);
    let last = now.len() - 1;
    assert forall|k: int| 0 <= k < last implies (#[trigger] now[k]).0 != key by {
        if at < held.len() {
            if k < at {
                assert(now[k] == held[k]);
                assert(held[k].0 != held[at].0);
            } else {
                assert(now[k] == held[k + 1]);
                assert(held[at].0 != held[k + 1].0);
            }
        } else {
            let more = held.push((key, rows_of(bytes)->0));
            if more.len() > cap {
                assert(now[k] == held[k + 1]);
            } else {
                assert(now[k] == held[k]);
            }
        }
    }
    lemma_held_at(now, key, last);
}

proof fn lemma_at_is_first(held: Seq<HeldView>, key: Seq<char>)
    ensures
        0 <= held_at(held, key) <= held.len(),
        held_at(held, key) < held.len() ==> held[held_at(held, key)].0 == key,
        forall|k: int| 0 <= k < held_at(held, key) ==> (#[trigger] held[k]).0 != key,
    decreases held.len(),
{
    if held.len() > 0 && held[0].0 != key {
        let rest = held.skip(1);
        lemma_at_is_first(rest, key);
        assert forall|k: int| 0 <= k < held_at(held, key) implies (#[trigger] held[k]).0 != key by {
            if k > 0 {
                assert(rest[k - 1] == held[k]);
            }
        }
        if held_at(held, key) < held.len() {
            assert(rest[held_at(rest, key)] == held[held_at(held, key)]);
        }
    }
}

/// Where every handle stands for its bytes, a lookup gives the records of the
/// bytes, cached or not, and every handle goes on to stand for its bytes.
pub proof fn law_cache_is_transparent(
    held: Seq<HeldView>,
    cap: nat,
    contents: spec_fn(Seq<char>) -> Seq<u8>,
    key: Seq<char>,
)
    requires
        forall|i: int|
            0 <= i < held.len() ==> rows_of(contents((#[trigger] held[i]).0)) == Some(held[i].1),
    ensures
        looked_up(held, key, contents(key)) == rows_of(contents(key)),
        ({
            let now = after_lookup(held, cap, key, contents(key));
            forall|i: int|
                0 <= i < now.len() ==> rows_of(contents((#[trigger] now[i]).0)) == Some(now[i].1)
        }),
{
    lemma_at_is_first(held, key);
    let at = held_at(held, key);
    let now = after_lookup(held, cap, key, contents(key));
    if at < held.len() {
        assert(held[at].0 == key);
    }
    assert forall|i: int| 0 <= i < now.len() implies rows_of(contents((#[trigger] now[i]).0))
        == Some(now[i].1) by {
        if at < held.len() {
            if i == now.len() - 1 {
                assert(now[i] == held[at]);
            } else if i < at {
                assert(now[i] == held[i]);
            } else {
                assert(now[i] == held[i + 1]);
            }
        } else if cap > 0 && rows_of(contents(key)) is Some {
            let more = held.push((key, rows_of(contents(key))->0));
            let j = if more.len() > cap {
                i + 1
            } else {
                i
            };
            assert(now[i] == more[j]);
            if j < held.len() {
                assert(more[j] == held[j]);
            }
        } else {
            assert(now[i] == held[i]);
        }
    }
}

/// Which datasets are held after a lookup: one that was held moves to the end; a
/// new one is put there, and the one that was used longest ago leaves if there are
/// now too many. What is no array of records is not held.
pub proof fn law_held_after_lookup(
    held: Seq<HeldView>,
    cap: nat,
    key: Seq<char>,
    bytes: Seq<u8>,
    i: int,
)
    ensures
        0 <= i < held.len() && held[i].0 == key && (forall|k: int|
            0 <= k < i ==> (#[trigger] held[k]).0 != key) ==> after_lookup(held, cap, key, bytes)
            == held.take(i) + held.skip(i + 1) + seq![held[i]] && looked_up(held, key, bytes)
            == Some(held[i].1),
        (forall|k: int| 0 <= k < held.len() ==> (#[trigger] held[k]).0 != key) ==> {
            let new = seq![(key, rows_of(bytes)->0)];
            &&& looked_up(held, key, bytes) == rows_of(bytes)
            &&& rows_of(bytes) is None || cap == 0 ==> after_lookup(held, cap, key, bytes) == held
            &&& rows_of(bytes) is Some && 0 < cap && held.len() < cap ==> after_lookup(
                held,
                cap,
                key,
                bytes,
            ) == held + new
            &&& rows_of(bytes) is Some && 0 < cap && held.len() == cap ==> after_lookup(
                held,
                cap,
                key,
                bytes,
            ) == held.skip(1) + new
        },
{
    lemma_held_first(held, key, i);
    if 0 <= i < held.len() {
        assert(held.remove(i).push(held[i]) =~= held.take(i) + held.skip(i + 1) + seq![held[i]]);
    }
    if rows_of(bytes) is Some {
        let new = (key, rows_of(bytes)->0);
        assert(held.push(new) =~= held + seq![new]);
        if held.len() > 0 {
            assert(held.push(new).skip(1) =~= held.skip(1) + seq![new]);
        }
    }
}

proof fn lemma_held_first(held: Seq<HeldView>, key: Seq<char>, i: int)
    ensures
        0 <= i < held.len() && held[i].0 == key && (forall|k: int|
            0 <= k < i ==> (#[trigger] held[k]).0 != key) ==> held_at(held, key) == i,
        (forall|k: int| 0 <= k < held.len() ==> (#[trigger] held[k]).0 != key) ==> held_at(held, key)
            == held.len(),
    decreases held.len(),
{
    if held.len() > 0 {
        let rest = held.skip(1);
        assert(forall|k: int| 0 <= k < rest.len() ==> #[trigger] rest[k] == held[k + 1]);
        lemma_held_first(rest, key, i - 1);
        assert(held[0] == held.first());
    }
}

} // verus!
