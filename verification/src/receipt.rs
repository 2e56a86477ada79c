//! A proof of an exact aggregate that can be run again.
//!
//! A receipt binds an answer to the bytes behind it by their content hash.
//! Checking it answers the same query over a candidate input. Whether two
//! doubles are close is floating-point work, which is done outside of this
//! library, as is the sum or the mean itself; both go into `finish`.
use crate::hash::{content_key, ContentHash};
use crate::json::{Json, Tree};
use crate::op::Op;
use crate::query::{
    aggregate, matches_of, predicate_views, query_aggregate, rows_of, Agg, AggView, Predicate,
    PredicateView, Reduction, ReductionView,
};
use crate::subset::{pick_rows, picked};
use crate::text::same_text;
use vstd::prelude::*;

verus! {

// ---------------------------------------------------------------------------
// Names
// ---------------------------------------------------------------------------

/// The name of an operator in a receipt.
pub open spec fn op_name(op: Op) -> Seq<char> {
    match op {
        Op::Eq => "eq"@,
        Op::Ne => "ne"@,
        Op::Gt => "gt"@,
        Op::Ge => "ge"@,
        Op::Lt => "lt"@,
        Op::Le => "le"@,
    }
}

/// The operator with a name.
pub open spec fn op_named(s: Seq<char>) -> Option<Op> {
    if s == "eq"@ {
        Some(Op::Eq)
    } else if s == "ne"@ {
        Some(Op::Ne)
    } else if s == "gt"@ {
        Some(Op::Gt)
    } else if s == "ge"@ {
        Some(Op::Ge)
    } else if s == "lt"@ {
        Some(Op::Lt)
    } else if s == "le"@ {
        Some(Op::Le)
    } else {
        None
    }
}

/// The name of an operator in a receipt.
pub fn op_to_str(op: Op) -> (s: &'static str)
    ensures
        s@ == op_name(op),
{
    match op {
        Op::Eq => "eq",
        Op::Ne => "ne",
        Op::Gt => "gt",
        Op::Ge => "ge",
        Op::Lt => "lt",
        Op::Le => "le",
    }
}

/// The operator with a name; nothing for any other text.
pub fn op_from_str(s: &str) -> (op: Option<Op>)
    ensures
        op == op_named(s@),
{
    if same_text(s, "eq") {
        Some(Op::Eq)
    } else if same_text(s, "ne") {
        Some(Op::Ne)
    } else if same_text(s, "gt") {
        Some(Op::Gt)
    } else if same_text(s, "ge") {
        Some(Op::Ge)
    } else if same_text(s, "lt") {
        Some(Op::Lt)
    } else if same_text(s, "le") {
        Some(Op::Le)
    } else {
        None
    }
}

/// The kind of an aggregate in a receipt, and its field.
pub open spec fn agg_parts(agg: AggView) -> (Seq<char>, Option<Seq<char>>) {
    match agg {
        AggView::Count => ("count"@, None),
        AggView::Sum(f) => ("sum"@, Some(f)),
        AggView::Mean(f) => ("mean"@, Some(f)),
        AggView::Min(f) => ("min"@, Some(f)),
        AggView::Max(f) => ("max"@, Some(f)),
    }
}

/// The aggregate of a kind over a field: none for an unknown kind, or where the
/// kind needs a field and there is none.
pub open spec fn agg_of_parts(kind: Seq<char>, field: Option<Seq<char>>) -> Option<AggView> {
    if kind == "count"@ {
        Some(AggView::Count)
    } else {
        match field {
            None => None,
            Some(f) => if kind == "sum"@ {
                Some(AggView::Sum(f))
            } else if kind == "mean"@ {
                Some(AggView::Mean(f))
            } else if kind == "min"@ {
                Some(AggView::Min(f))
            } else if kind == "max"@ {
                Some(AggView::Max(f))
            } else {
                None
            },
        }
    }
}

/// A text that may be missing.
pub open spec fn text_of(s: Option<String>) -> Option<Seq<char>> {
    match s {
        Some(t) => Some(t@),
        None => None,
    }
}

/// The kind of an aggregate in a receipt, and its field.
pub fn agg_to_parts(agg: &Agg) -> (out: (String, Option<String>))
    ensures
        (out.0@, text_of(out.1)) == agg_parts(agg@),
{
    match agg {
        Agg::Count => ("count".to_owned(), None),
        Agg::Sum(f) => ("sum".to_owned(), Some(f.clone())),
        Agg::Mean(f) => ("mean".to_owned(), Some(f.clone())),
        Agg::Min(f) => ("min".to_owned(), Some(f.clone())),
        Agg::Max(f) => ("max".to_owned(), Some(f.clone())),
    }
}

/// The aggregate of a kind over a field.
pub fn agg_from_parts(kind: &str, field: &Option<String>) -> (out: Option<Agg>)
    ensures
        match out {
            Some(agg) => agg_of_parts(kind@, text_of(*field)) == Some(agg@),
            None => agg_of_parts(kind@, text_of(*field)) is None,
        },
{
    if same_text(kind, "count") {
        return Some(Agg::Count);
    }
    match field {
        None => None,
        Some(f) => if same_text(kind, "sum") {
            Some(Agg::Sum(f.clone()))
        } else if same_text(kind, "mean") {
            Some(Agg::Mean(f.clone()))
        } else if same_text(kind, "min") {
            Some(Agg::Min(f.clone()))
        } else if same_text(kind, "max") {
            Some(Agg::Max(f.clone()))
        } else {
            None
        },
    }
}

/// An operator is read back from its name, and an aggregate from its parts.
pub proof fn law_names_round_trip(op: Op, agg: AggView)
    ensures
        op_named(op_name(op)) == Some(op),
        agg_of_parts(agg_parts(agg).0, agg_parts(agg).1) == Some(agg),
{
    reveal_strlit("eq");
    reveal_strlit("ne");
    reveal_strlit("gt");
    reveal_strlit("ge");
    reveal_strlit("lt");
    reveal_strlit("le");
    reveal_strlit("count");
    reveal_strlit("sum");
    reveal_strlit("mean");
    reveal_strlit("min");
    reveal_strlit("max");
    assert("eq"@[0] == 'e' && "ne"@[0] == 'n' && "gt"@[0] == 'g' && "ge"@[0] == 'g' && "lt"@[0]
        == 'l' && "le"@[0] == 'l');
    assert("gt"@[1] == 't' && "ge"@[1] == 'e' && "lt"@[1] == 't' && "le"@[1] == 'e');
    assert("count"@[0] == 'c' && "sum"@[0] == 's' && "mean"@[0] == 'm' && "min"@[0] == 'm'
        && "max"@[0] == 'm');
    assert("mean"@[1] == 'e' && "min"@[1] == 'i' && "max"@[1] == 'a');
}

// ---------------------------------------------------------------------------
// Receipts
// ---------------------------------------------------------------------------

/// One comparison of a receipt.
#[derive(Debug, PartialEq)]
pub struct ReceiptPredicate {
    /// The field.
    pub field: String,
    /// The name of the operator.
    pub op: String,
    /// The value compared with.
    pub value: Json,
}

/// One comparison of a receipt as plain values.
pub struct ReceiptPredicateView {
    pub field: Seq<char>,
    pub op: Seq<char>,
    pub value: Tree,
}

impl View for ReceiptPredicate {
    type V = ReceiptPredicateView;

    open spec fn view(&self) -> ReceiptPredicateView {
        ReceiptPredicateView { field: self.field@, op: self.op@, value: self.value@ }
    }
}

/// The comparisons of a receipt as plain values.
pub open spec fn receipt_predicate_views(query: Seq<ReceiptPredicate>) -> Seq<
    ReceiptPredicateView,
> {
    Seq::new(query.len(), |i: int| query[i]@)
}

/// A proof that an aggregate has a value over certain records.
#[derive(Debug, PartialEq)]
pub struct Receipt {
    /// The comparisons: a record is behind the answer if all of them hold.
    pub query: Vec<ReceiptPredicate>,
    /// The kind of the aggregate.
    pub agg: String,
    /// The aggregated field.
    pub agg_field: Option<String>,
    /// The attested answer, by the bits of a double.
    pub value: u64,
    /// The numbers of the records behind the answer.
    pub matched: Vec<usize>,
    /// The content hash of the array of the records behind the answer.
    pub backing_sha256: String,
    /// The length of the input in bytes.
    pub input_len: usize,
    /// The content hash of the input.
    pub input_sha256: String,
    /// When the receipt was issued, in seconds since 1970. The library reads no
    /// clock.
    pub issued_unix: Option<u64>,
}

/// A receipt as plain values.
pub struct ReceiptView {
    pub query: Seq<ReceiptPredicateView>,
    pub agg: Seq<char>,
    pub agg_field: Option<Seq<char>>,
    pub value: u64,
    pub matched: Seq<usize>,
    pub backing_sha256: Seq<char>,
    pub input_len: nat,
    pub input_sha256: Seq<char>,
    pub issued_unix: Option<u64>,
}

impl View for Receipt {
    type V = ReceiptView;

    open spec fn view(&self) -> ReceiptView {
        ReceiptView {
            query: receipt_predicate_views(self.query@),
            agg: self.agg@,
            agg_field: text_of(self.agg_field),
            value: self.value,
            matched: self.matched@,
            backing_sha256: self.backing_sha256@,
            input_len: self.input_len as nat,
            input_sha256: self.input_sha256@,
            issued_unix: self.issued_unix,
        }
    }
}

/// The outcome of checking a receipt. Doubles are given by their bits.
#[derive(Clone, Copy, Debug, PartialEq, Eq, Structural)]
pub enum ReceiptVerdict {
    /// The input gives the attested answer from the attested records.
    Valid,
    /// The input gives another answer.
    ValueMismatch {
        /// The attested answer.
        expected: u64,
        /// The answer that the input gives.
        actual: u64,
    },
    /// The answer is the same, and the records behind it are not.
    BackingTampered,
    /// The query cannot be answered over the input.
    Refused,
    /// The receipt names an unknown operator or aggregate.
    MalformedReceipt,
}

/// The comparisons with their operators by name.
pub open spec fn named_predicates(predicates: Seq<PredicateView>) -> Seq<ReceiptPredicateView> {
    Seq::new(
        predicates.len(),
        |i: int|
            ReceiptPredicateView {
                field: predicates[i].field,
                op: op_name(predicates[i].op),
                value: predicates[i].value,
            },
    )
}

/// The aggregate of a query over an input, and the array of the records behind
/// it: nothing where the query is refused.
pub open spec fn executed(input: Seq<u8>, predicates: Seq<PredicateView>, agg: AggView) -> Option<
    ReductionView,
> {
    match rows_of(input) {
        Some(rows) => aggregate(rows, matches_of(rows, predicates), agg),
        None => None,
    }
}

/// The records behind a query.
pub open spec fn backing_rows(input: Seq<u8>, predicates: Seq<PredicateView>) -> Seq<usize> {
    matches_of(rows_of(input)->0, predicates)
}

/// The receipt of an answer `value` to a query.
pub open spec fn receipt_of(
    input: Seq<u8>,
    predicates: Seq<PredicateView>,
    agg: AggView,
    value: u64,
) -> ReceiptView {
    let matched = backing_rows(input, predicates);
    ReceiptView {
        query: named_predicates(predicates),
        agg: agg_parts(agg).0,
        agg_field: agg_parts(agg).1,
        value,
        matched,
        backing_sha256: content_key(picked(input, matched)->0),
        input_len: input.len(),
        input_sha256: content_key(input),
        issued_unix: None,
    }
}

/// A receipt can be issued: the query is answered, and the records behind the
/// answer can be cut out of the input.
pub open spec fn can_issue(
    input: Seq<u8>,
    predicates: Seq<PredicateView>,
    agg: AggView,
) -> bool {
    &&& executed(input, predicates, agg) is Some
    &&& picked(input, backing_rows(input, predicates)) is Some
}

/// A receipt but for the answer, and what is left to compute for it.
#[derive(Debug)]
pub struct ReceiptPlan {
    /// What is left to compute.
    pub reduction: Reduction,
    /// The receipt, with a zero in place of the answer.
    pub blank: Receipt,
}

impl ReceiptPlan {
    /// The receipt, given the bits of the answer.
    pub fn finish(self, value: u64) -> (out: Receipt)
        ensures
            out@ == (ReceiptView { value, ..self.blank@ }),
    {
        Receipt {
            query: self.blank.query,
            agg: self.blank.agg,
            agg_field: self.blank.agg_field,
            value,
            matched: self.blank.matched,
            backing_sha256: self.blank.backing_sha256,
            input_len: self.blank.input_len,
            input_sha256: self.blank.input_sha256,
            issued_unix: self.blank.issued_unix,
        }
    }
}

fn name_predicates(predicates: &[Predicate]) -> (out: Vec<ReceiptPredicate>)
    ensures
        receipt_predicate_views(out@) == named_predicates(predicate_views(predicates@)),
{
    let mut out: Vec<ReceiptPredicate> = Vec::new();
    let mut i: usize = 0;
    let ghost wanted = named_predicates(predicate_views(predicates@));
    while i < predicates.len()
        invariant
            i <= predicates@.len(),
            wanted == named_predicates(predicate_views(predicates@)),
            out@.len() == i,
            forall|k: int| 0 <= k < i ==> (#[trigger] out@[k])@ == wanted[k],
        decreases predicates@.len() - i,
    {
        let p = &predicates[i];
        out.push(
            ReceiptPredicate {
                field: p.field.clone(),
                op: op_to_str(p.op).to_owned(),
                value: p.value.copy(),
            },
        );
        i += 1;
    }
    assert(receipt_predicate_views(out@) =~= wanted);
    out
}

/// Issues a receipt for an aggregate over the records that pass the
/// comparisons. There is none where the query is refused.
pub fn issue_receipt(input: &[u8], predicates: &[Predicate], agg: &Agg) -> (out: Option<
    ReceiptPlan,
>)
    ensures
        match out {
            Some(plan) => {
                &&& can_issue(input@, predicate_views(predicates@), agg@)
                &&& executed(input@, predicate_views(predicates@), agg@) == Some(plan.reduction@)
                &&& plan.blank@ == receipt_of(input@, predicate_views(predicates@), agg@, 0)
            },
            None => !can_issue(input@, predicate_views(predicates@), agg@),
        },
{
    let plan = match query_aggregate(input, predicates, agg) {
        Some(plan) => plan,
        None => {
            return None;
        },
    };
    let backing = match pick_rows(input, plan.matched.as_slice()) {
        Some(backing) => backing,
        None => {
            return None;
        },
    };
    let (kind, field) = agg_to_parts(agg);
    let query = name_predicates(predicates);
    let blank = Receipt {
        query,
        agg: kind,
        agg_field: field,
        value: 0,
        matched: plan.matched,
        backing_sha256: ContentHash::of(backing.as_slice()).as_str().to_owned(),
        input_len: input.len(),
        input_sha256: ContentHash::of(input).as_str().to_owned(),
        issued_unix: None,
    };
    assert(blank@.matched == backing_rows(input@, predicate_views(predicates@)));
    Some(ReceiptPlan { reduction: plan.reduction, blank })
}

// ---------------------------------------------------------------------------
// Checking
// ---------------------------------------------------------------------------

/// The comparisons of a receipt; nothing, where an operator is unknown.
pub open spec fn query_of(query: Seq<ReceiptPredicateView>) -> Option<Seq<PredicateView>>
    decreases query.len(),
{
    if query.len() == 0 {
        Some(Seq::empty())
    } else {
        match (query_of(query.drop_last()), op_named(query.last().op)) {
            (Some(before), Some(op)) => Some(
                before.push(
                    PredicateView { field: query.last().field, op, value: query.last().value },
                ),
            ),
            _ => None,
        }
    }
}

/// How the records behind the answer compare with those of a receipt.
#[derive(Clone, Copy, Debug, PartialEq, Eq, Structural)]
pub enum Backing {
    /// They cannot be cut out of the input.
    Unavailable,
    /// They are others, or have other bytes.
    Differs,
    /// They are the same.
    Same,
}

/// The state of a check before the answers are compared.
#[derive(Debug, PartialEq, Eq)]
pub enum Recheck {
    /// The verdict does not depend on the answer.
    Decided(ReceiptVerdict),
    /// The answers are to be compared.
    Compare {
        /// What is left to compute for the answer of the input.
        reduction: Reduction,
        /// How the records behind it compare.
        backing: Backing,
    },
}

/// The state of a check as plain values.
pub enum RecheckView {
    Decided(ReceiptVerdict),
    Compare { reduction: ReductionView, backing: Backing },
}

impl View for Recheck {
    type V = RecheckView;

    open spec fn view(&self) -> RecheckView {
        match *self {
            Recheck::Decided(v) => RecheckView::Decided(v),
            Recheck::Compare { reduction, backing } => RecheckView::Compare {
                reduction: reduction@,
                backing,
            },
        }
    }
}

/// How the records behind a query over an input compare with a receipt.
pub open spec fn backing_of(
    receipt: ReceiptView,
    input: Seq<u8>,
    predicates: Seq<PredicateView>,
) -> Backing {
    let matched = backing_rows(input, predicates);
    match picked(input, matched) {
        None => Backing::Unavailable,
        Some(bytes) => if matched == receipt.matched && content_key(bytes)
            == receipt.backing_sha256 {
            Backing::Same
        } else {
            Backing::Differs
        },
    }
}

/// The state of the check of a receipt over an input.
pub open spec fn recheck_of(receipt: ReceiptView, input: Seq<u8>) -> RecheckView {
    match (query_of(receipt.query), agg_of_parts(receipt.agg, receipt.agg_field)) {
        (Some(predicates), Some(agg)) => match executed(input, predicates, agg) {
            None => RecheckView::Decided(ReceiptVerdict::Refused),
            Some(reduction) => RecheckView::Compare {
                reduction,
                backing: backing_of(receipt, input, predicates),
            },
        },
        _ => RecheckView::Decided(ReceiptVerdict::MalformedReceipt),
    }
}

/// The verdict, given the attested answer, that of the input, and whether the
/// two are close.
pub open spec fn verdict_of(
    check: RecheckView,
    expected: u64,
    actual: u64,
    close: bool,
) -> ReceiptVerdict {
    match check {
        RecheckView::Decided(v) => v,
        RecheckView::Compare { backing, .. } => if !close {
            ReceiptVerdict::ValueMismatch { expected, actual }
        } else {
            match backing {
                Backing::Unavailable => ReceiptVerdict::Refused,
                Backing::Differs => ReceiptVerdict::BackingTampered,
                Backing::Same => ReceiptVerdict::Valid,
            }
        },
    }
}

impl Recheck {
    /// The verdict, given the attested answer, that of the input, and whether
    /// the two are close.
    pub fn finish(&self, expected: u64, actual: u64, close: bool) -> (out: ReceiptVerdict)
        ensures
            out == verdict_of(self@, expected, actual, close),
    {
        match self {
            Recheck::Decided(v) => *v,
            Recheck::Compare { backing, .. } => if !close {
                ReceiptVerdict::ValueMismatch { expected, actual }
            } else {
                match backing {
                    Backing::Unavailable => ReceiptVerdict::Refused,
                    Backing::Differs => ReceiptVerdict::BackingTampered,
                    Backing::Same => ReceiptVerdict::Valid,
                }
            },
        }
    }
}

proof fn lemma_query_none(query: Seq<ReceiptPredicateView>, n: int)
    requires
        0 <= n <= query.len(),
        query_of(query.take(n)) is None,
    ensures
        query_of(query) is None,
    decreases query.len(),
{
    if n < query.len() {
        assert(query.drop_last().take(n) =~= query.take(n));
        lemma_query_none(query.drop_last(), n);
    } else {
        assert(query.take(n) =~= query);
    }
}

fn read_query(query: &[ReceiptPredicate]) -> (out: Option<Vec<Predicate>>)
    ensures
        match out {
            Some(v) => query_of(receipt_predicate_views(query@)) == Some(predicate_views(v@)),
            None => query_of(receipt_predicate_views(query@)) is None,
        },
{
    let ghost all = receipt_predicate_views(query@);
    let mut out: Vec<Predicate> = Vec::new();
    let mut i: usize = 0;
    assert(predicate_views(out@) =~= Seq::empty());
    while i < query.len()
        invariant
            i <= query@.len(),
            all == receipt_predicate_views(query@),
            query_of(all.take(i as int)) == Some(predicate_views(out@)),
        decreases query@.len() - i,
    {
        let ghost next = all.take(i as int + 1);
        assert(next.drop_last() =~= all.take(i as int));
        assert(next.last() == query@[i as int]@);
        let rp = &query[i];
        match op_from_str(rp.op.as_str()) {
            None => {
                proof {
                    lemma_query_none(all, i as int + 1);
                }
                return None;
            },
            Some(op) => {
                let ghost before = predicate_views(out@);
                let p = Predicate { field: rp.field.clone(), op, value: rp.value.copy() };
                let ghost entry = p@;
                out.push(p);
                assert(predicate_views(out@) =~= before.push(entry));
            },
        }
        i += 1;
    }
    assert(all.take(i as int) =~= all);
    Some(out)
}

fn same_numbers(a: &[usize], b: &[usize]) -> (r: bool)
    ensures
        r == (a@ == b@),
{
    if a.len() != b.len() {
        return false;
    }
    let mut i: usize = 0;
    while i < a.len()
        invariant
            i <= a@.len(),
            a@.len() == b@.len(),
            forall|k: int| 0 <= k < i ==> a@[k] == b@[k],
        decreases a@.len() - i,
    {
        if a[i] != b[i] {
            return false;
        }
        i += 1;
    }
    assert(a@ =~= b@);
    true
}

/// Answers the query of a receipt over an input, and compares the records
/// behind the answer with those of the receipt.
pub fn verify_receipt(receipt: &Receipt, input: &[u8]) -> (out: Recheck)
    ensures
        out@ == recheck_of(receipt@, input@),
{
    let predicates = match read_query(receipt.query.as_slice()) {
        Some(predicates) => predicates,
        None => {
            return Recheck::Decided(ReceiptVerdict::MalformedReceipt);
        },
    };
    let agg = match agg_from_parts(receipt.agg.as_str(), &receipt.agg_field) {
        Some(agg) => agg,
        None => {
            return Recheck::Decided(ReceiptVerdict::MalformedReceipt);
        },
    };
    let plan = match query_aggregate(input, predicates.as_slice(), &agg) {
        Some(plan) => plan,
        None => {
            return Recheck::Decided(ReceiptVerdict::Refused);
        },
    };
    let backing = match pick_rows(input, plan.matched.as_slice()) {
        None => Backing::Unavailable,
        Some(bytes) => {
            let hash = ContentHash::of(bytes.as_slice());
            if same_numbers(plan.matched.as_slice(), receipt.matched.as_slice()) && same_text(
                hash.as_str(),
                receipt.backing_sha256.as_str(),
            ) {
                Backing::Same
            } else {
                Backing::Differs
            }
        },
    };
    Recheck::Compare { reduction: plan.reduction, backing }
}

// ---------------------------------------------------------------------------
// Laws
// ---------------------------------------------------------------------------

proof fn lemma_query_of_named(predicates: Seq<PredicateView>)
    ensures
        query_of(named_predicates(predicates)) == Some(predicates),
    decreases predicates.len(),
{
    let named = named_predicates(predicates);
    if predicates.len() == 0 {
        assert(predicates =~= Seq::empty());
    } else {
        let before = predicates.drop_last();
        lemma_query_of_named(before);
        assert(named.drop_last() =~= named_predicates(before));
        law_names_round_trip(predicates.last().op, AggView::Count);
        assert(before.push(predicates.last()) =~= predicates);
    }
}

/// A receipt checked over the input it was issued over asks for the same
/// reduction from the same records, and is valid wherever the answers are close.
pub proof fn law_own_input_is_valid(
    input: Seq<u8>,
    predicates: Seq<PredicateView>,
    agg: AggView,
    value: u64,
    actual: u64,
)
    requires
        can_issue(input, predicates, agg),
    ensures
        recheck_of(receipt_of(input, predicates, agg, value), input) == (RecheckView::Compare {
            reduction: executed(input, predicates, agg)->0,
            backing: Backing::Same,
        }),
        verdict_of(
            recheck_of(receipt_of(input, predicates, agg, value), input),
            value,
            actual,
            true,
        ) == ReceiptVerdict::Valid,
{
    lemma_query_of_named(predicates);
    law_names_round_trip(Op::Eq, agg);
}

/// A receipt is valid over another input only if the query is answered there,
/// the answers are close, the same records are behind them, and the arrays of
/// these records have the same content hash.
pub proof fn law_valid_means_same_backing(
    input: Seq<u8>,
    predicates: Seq<PredicateView>,
    agg: AggView,
    value: u64,
    other: Seq<u8>,
    actual: u64,
    close: bool,
)
    requires
        can_issue(input, predicates, agg),
    ensures
        verdict_of(
            recheck_of(receipt_of(input, predicates, agg, value), other),
            value,
            actual,
            close,
        ) == ReceiptVerdict::Valid <==> {
            &&& close
            &&& executed(other, predicates, agg) is Some
            &&& backing_rows(other, predicates) == backing_rows(input, predicates)
            &&& picked(other, backing_rows(other, predicates)) is Some
            &&& content_key(picked(other, backing_rows(other, predicates))->0) == content_key(
                picked(input, backing_rows(input, predicates))->0,
            )
        },
{
    lemma_query_of_named(predicates);
    law_names_round_trip(Op::Eq, agg);
}

/// What a receipt says: the query by name, every matching row in order, the hash
/// of those rows as an array, and the size and hash of the whole input.
pub proof fn law_receipt(
    input: Seq<u8>,
    predicates: Seq<PredicateView>,
    agg: AggView,
    value: u64,
)
    ensures
        ({
            let r = receipt_of(input, predicates, agg, value);
            let at = matches_of(rows_of(input)->0, predicates);
            &&& r.query == predicates.map_values(
                |p: PredicateView|
                    ReceiptPredicateView { field: p.field, op: op_name(p.op), value: p.value },
            )
            &&& (r.agg, r.agg_field) == agg_parts(agg)
            &&& r.value == value
            &&& r.matched == at
            &&& r.backing_sha256 == content_key(picked(input, at)->0)
            &&& r.input_len == input.len()
            &&& r.input_sha256 == content_key(input)
            &&& r.issued_unix is None
        }),
        can_issue(input, predicates, agg) <==> {
            let at = matches_of(rows_of(input)->0, predicates);
            &&& rows_of(input) is Some
            &&& aggregate(rows_of(input)->0, at, agg) is Some
            &&& picked(input, at) is Some
        },
{
    assert(named_predicates(predicates) =~= predicates.map_values(
        |p: PredicateView|
            ReceiptPredicateView { field: p.field, op: op_name(p.op), value: p.value },
    ));
}

/// The names of the operators and aggregates in a receipt.
pub proof fn law_receipt_names(f: Seq<char>)
    ensures
        op_name(Op::Eq) == "eq"@ && op_name(Op::Ne) == "ne"@ && op_name(Op::Gt) == "gt"@,
        op_name(Op::Ge) == "ge"@ && op_name(Op::Lt) == "lt"@ && op_name(Op::Le) == "le"@,
        agg_parts(AggView::Count) == ("count"@, None::<Seq<char>>),
        agg_parts(AggView::Sum(f)) == ("sum"@, Some(f)),
        agg_parts(AggView::Mean(f)) == ("mean"@, Some(f)),
        agg_parts(AggView::Min(f)) == ("min"@, Some(f)),
        agg_parts(AggView::Max(f)) == ("max"@, Some(f)),
{
}

/// A receipt's query is read back only if every operator in it is known.
pub proof fn law_receipt_query(query: Seq<ReceiptPredicateView>)
    ensures
        query_of(query) is Some <==> forall|i: int|
            0 <= i < query.len() ==> op_named((#[trigger] query[i]).op) is Some,
        query_of(query) is Some ==> query_of(query)->0 == query.map_values(
            |p: ReceiptPredicateView|
                PredicateView { field: p.field, op: op_named(p.op)->0, value: p.value },
        ),
    decreases query.len(),
{
    if query.len() > 0 {
        let before = query.drop_last();
        assert(forall|i: int| 0 <= i < before.len() ==> #[trigger] before[i] == query[i]);
        law_receipt_query(before);
        assert(query[query.len() - 1] == query.last());
        if query_of(query) is Some {
            assert forall|i: int| 0 <= i < query.len() implies op_named((#[trigger] query[i]).op)
                is Some by {
                if i < before.len() {
                    assert(op_named(before[i].op) is Some);
                }
            }
        } else if query_of(before) is None {
            let i = choose|i: int| 0 <= i < before.len() && op_named((#[trigger] before[i]).op)
                is None;
            assert(op_named(query[i].op) is None);
        }
    }
    if query_of(query) is Some {
        assert(query_of(query)->0 =~= query.map_values(
            |p: ReceiptPredicateView|
                PredicateView { field: p.field, op: op_named(p.op)->0, value: p.value },
        ));
    }
}

/// Each verdict and when it is given. What cannot be read is malformed; what no
/// longer runs is refused; then the value decides, and then the backing rows.
pub proof fn law_verdicts(
    receipt: ReceiptView,
    input: Seq<u8>,
    expected: u64,
    actual: u64,
    close: bool,
)
    ensures
        ({
            let verdict = verdict_of(recheck_of(receipt, input), expected, actual, close);
            let query = query_of(receipt.query);
            let agg = agg_of_parts(receipt.agg, receipt.agg_field);
            let rows = rows_of(input);
            let at = matches_of(rows->0, query->0);
            let runs = rows is Some && aggregate(rows->0, at, agg->0) is Some;
            let read = query is Some && agg is Some;
            let same = at == receipt.matched && content_key(picked(input, at)->0)
                == receipt.backing_sha256;
            &&& verdict == ReceiptVerdict::MalformedReceipt <==> !read
            &&& verdict == ReceiptVerdict::Refused <==> read && (!runs || (close && picked(input, at)
                is None))
            &&& verdict == (ReceiptVerdict::ValueMismatch { expected, actual }) <==> read && runs
                && !close
            &&& verdict == ReceiptVerdict::BackingTampered <==> read && runs && close && picked(
                input,
                at,
            ) is Some && !same
            &&& verdict == ReceiptVerdict::Valid <==> read && runs && close && picked(input, at)
                is Some && same
        }),
{
}

/// A receipt and what is left of a check say what their fields say.
pub proof fn law_receipt_views(
    r: Receipt,
    verdict: ReceiptVerdict,
    reduction: Reduction,
    backing: Backing,
    i: int,
)
    ensures
        r@.query.len() == r.query@.len(),
        0 <= i < r.query@.len() ==> r@.query[i].field == r.query@[i].field@ && r@.query[i].op
            == r.query@[i].op@ && r@.query[i].value == r.query@[i].value@,
        r@.agg == r.agg@,
        r@.agg_field is Some <==> r.agg_field is Some,
        r.agg_field is Some ==> r@.agg_field == Some(r.agg_field->0@),
        r@.value == r.value,
        r@.matched == r.matched@,
        r@.backing_sha256 == r.backing_sha256@,
        r@.input_len == r.input_len,
        r@.input_sha256 == r.input_sha256@,
        r@.issued_unix == r.issued_unix,
        Recheck::Decided(verdict)@ == RecheckView::Decided(verdict),
        (Recheck::Compare { reduction, backing })@ == (RecheckView::Compare {
            reduction: reduction@,
            backing,
        }),
{
}

} // verus!
