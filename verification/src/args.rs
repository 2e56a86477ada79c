//! Reading the arguments of a request, and wording its answer.
use crate::groups::GroupAggregate;
use crate::json::{json_of_bytes, Json, Tree};
use crate::op::Op;
use crate::query::{predicate_views, Agg, AggView, Predicate, PredicateView};
use crate::text::{decimal, decimal_of, join, join_of, same_text, texts};
use vstd::prelude::*;
use vstd::utf8::encode_utf8;

verus! {

/// The operator that a name or a sign stands for; equality for anything else.
pub open spec fn op_of_arg(s: Seq<char>) -> Op {
    if s == "ne"@ || s == "!="@ {
        Op::Ne
    } else if s == "gt"@ || s == ">"@ {
        Op::Gt
    } else if s == "ge"@ || s == ">="@ {
        Op::Ge
    } else if s == "lt"@ || s == "<"@ {
        Op::Lt
    } else if s == "le"@ || s == "<="@ {
        Op::Le
    } else {
        Op::Eq
    }
}

/// The operator that a name or a sign stands for.
pub fn parse_op(op: &str) -> (out: Op)
    ensures
        out == op_of_arg(op@),
{
    if same_text(op, "ne") || same_text(op, "!=") {
        Op::Ne
    } else if same_text(op, "gt") || same_text(op, ">") {
        Op::Gt
    } else if same_text(op, "ge") || same_text(op, ">=") {
        Op::Ge
    } else if same_text(op, "lt") || same_text(op, "<") {
        Op::Lt
    } else if same_text(op, "le") || same_text(op, "<=") {
        Op::Le
    } else {
        Op::Eq
    }
}

/// The value that an argument stands for: the JSON document it is, or else its
/// text.
pub open spec fn value_of_arg(raw: Seq<char>) -> Tree {
    match json_of_bytes(encode_utf8(raw)) {
        Some(t) => t,
        None => Tree::Text(raw),
    }
}

/// The value that an argument stands for.
pub fn parse_value_arg(raw: &str) -> (out: Json)
    ensures
        out@ == value_of_arg(raw@),
{
    match Json::parse(raw.as_bytes()) {
        Some(value) => value,
        None => Json::Text(raw.to_owned()),
    }
}

/// The aggregate that a name stands for, over a field: none for an unknown
/// name, or where the aggregate needs a field and there is none.
pub open spec fn agg_of_arg(agg: Seq<char>, field: Option<Seq<char>>) -> Option<AggView> {
    if agg == "count"@ {
        Some(AggView::Count)
    } else {
        match field {
            None => None,
            Some(f) => if agg == "sum"@ {
                Some(AggView::Sum(f))
            } else if agg == "mean"@ || agg == "avg"@ {
                Some(AggView::Mean(f))
            } else if agg == "min"@ {
                Some(AggView::Min(f))
            } else if agg == "max"@ {
                Some(AggView::Max(f))
            } else {
                None
            },
        }
    }
}

/// The aggregate that a name stands for, over a field.
pub fn parse_agg(agg: &str, field: Option<&str>) -> (out: Option<Agg>)
    ensures
        match out {
            Some(a) => agg_of_arg(agg@, crate::limits::setting(field)) == Some(a@),
            None => agg_of_arg(agg@, crate::limits::setting(field)) is None,
        },
{
    if same_text(agg, "count") {
        return Some(Agg::Count);
    }
    match field {
        None => None,
        Some(f) => if same_text(agg, "sum") {
            Some(Agg::Sum(f.to_owned()))
        } else if same_text(agg, "mean") || same_text(agg, "avg") {
            Some(Agg::Mean(f.to_owned()))
        } else if same_text(agg, "min") {
            Some(Agg::Min(f.to_owned()))
        } else if same_text(agg, "max") {
            Some(Agg::Max(f.to_owned()))
        } else {
            None
        },
    }
}

/// A comparison as it comes with a request.
#[derive(Debug)]
pub struct PredicateArg {
    /// The field.
    pub field: String,
    /// The name or sign of the operator.
    pub op: String,
    /// The value, as JSON or as bare text.
    pub value: String,
}

/// The comparison that an argument stands for.
pub open spec fn predicate_of_arg(arg: PredicateArg) -> PredicateView {
    PredicateView {
        field: arg.field@,
        op: op_of_arg(arg.op@),
        value: value_of_arg(arg.value@),
    }
}

/// The comparisons that the arguments stand for.
pub open spec fn predicates_of_args(args: Seq<PredicateArg>) -> Seq<PredicateView> {
    Seq::new(args.len(), |i: int| predicate_of_arg(args[i]))
}

/// The comparisons that the arguments stand for.
pub fn predicates_from_args(args: &[PredicateArg]) -> (out: Vec<Predicate>)
    ensures
        predicate_views(out@) == predicates_of_args(args@),
{
    let mut out: Vec<Predicate> = Vec::new();
    let mut i: usize = 0;
    while i < args.len()
        invariant
            i <= args@.len(),
            out@.len() == i,
            forall|k: int| 0 <= k < i ==> (#[trigger] out@[k])@ == predicate_of_arg(args@[k]),
        decreases args@.len() - i,
    {
        out.push(
            Predicate {
                field: args[i].field.clone(),
                op: parse_op(args[i].op.as_str()),
                value: parse_value_arg(args[i].value.as_str()),
            },
        );
        i += 1;
    }
    assert(predicate_views(out@) =~= predicates_of_args(args@));
    out
}

// ---------------------------------------------------------------------------
// Answers
// ---------------------------------------------------------------------------

/// How many record numbers, and how many groups, an answer lists.
pub const SHOWN: usize = 64;

/// Numbers in brackets.
pub open spec fn number_list(numbers: Seq<usize>) -> Seq<char> {
    "["@ + join(Seq::new(numbers.len(), |i: int| decimal(numbers[i] as nat)), ", "@) + "]"@
}

/// The record numbers, or the first of them and how many there are.
pub open spec fn index_text(matched: Seq<usize>) -> Seq<char> {
    if matched.len() <= SHOWN {
        number_list(matched)
    } else {
        number_list(matched.take(SHOWN as int)) + " … ("@ + decimal(matched.len()) + " total)"@
    }
}

fn number_list_of(numbers: &[usize], n: usize) -> (out: String)
    requires
        n <= numbers@.len(),
    ensures
        out@ == number_list(numbers@.take(n as int)),
{
    let mut parts: Vec<String> = Vec::new();
    let mut i: usize = 0;
    while i < n
        invariant
            i <= n <= numbers@.len(),
            parts@.len() == i,
            forall|k: int| 0 <= k < i ==> (#[trigger] parts@[k])@ == decimal(numbers@[k] as nat),
        decreases n - i,
    {
        parts.push(decimal_of(numbers[i]));
        i += 1;
    }
    let ghost cut = numbers@.take(n as int);
    assert(texts(parts@) =~= Seq::new(cut.len(), |k: int| decimal(cut[k] as nat)));
    "[".to_owned().concat(join_of(parts.as_slice(), ", ").as_str()).concat("]")
}

/// The record numbers, or the first of them and how many there are.
pub fn index_text_of(matched: &[usize]) -> (out: String)
    ensures
        out@ == index_text(matched@),
{
    if matched.len() <= SHOWN {
        assert(matched@.take(matched@.len() as int) =~= matched@);
        number_list_of(matched, matched.len())
    } else {
        number_list_of(matched, SHOWN).concat(" … (").concat(
            decimal_of(matched.len()).as_str(),
        ).concat(" total)")
    }
}

/// The line of a group, given the text of its result.
pub open spec fn group_line(key: Seq<char>, shown: Seq<char>, members: nat) -> Seq<char> {
    "  "@ + key + " → "@ + shown + " ("@ + decimal(members) + " rows)\n"@
}

/// The lines of the first `n` groups.
pub open spec fn group_lines(g: GroupAggregate, shown: Seq<String>, n: nat) -> Seq<char>
    decreases n,
{
    if n == 0 {
        Seq::empty()
    } else {
        group_lines(g, shown, (n - 1) as nat) + group_line(
            g.groups@[n - 1].key@,
            shown[n - 1]@,
            g.groups@[n - 1].matched@.len(),
        )
    }
}

/// Groups in words, given the texts of their results: the summary line, a line
/// for each of the first groups, and how many there are where there are more.
pub open spec fn groups_text(g: GroupAggregate, shown: Seq<String>) -> Seq<char> {
    let n = if g.groups@.len() <= SHOWN {
        g.groups@.len()
    } else {
        SHOWN as nat
    };
    g.display@ + "\n"@ + group_lines(g, shown, n) + (if g.groups@.len() > SHOWN {
        "  … ("@ + decimal(g.groups@.len()) + " groups total)\n"@
    } else {
        Seq::empty()
    })
        + "Computed over ALL rows including offloaded ones; each group lists its backing-row count."@
}

/// Groups in words, given the texts of their results.
pub fn group_aggregate_text(g: &GroupAggregate, shown: &[String]) -> (out: String)
    requires
        shown@.len() == g.groups@.len(),
    ensures
        out@ == groups_text(*g, shown@),
{
    let n: usize = if g.groups.len() <= SHOWN {
        g.groups.len()
    } else {
        SHOWN
    };
    let mut body = String::new();
    let mut i: usize = 0;
    assert(body@ =~= Seq::empty());
    while i < n
        invariant
            i <= n <= g.groups@.len(),
            shown@.len() == g.groups@.len(),
            body@ == group_lines(*g, shown@, i as nat),
        decreases n - i,
    {
        let line = "  ".to_owned().concat(g.groups[i].key.as_str()).concat(" → ").concat(
            shown[i].as_str(),
        ).concat(" (").concat(decimal_of(g.groups[i].matched.len()).as_str()).concat(" rows)\n");
        body = body.concat(line.as_str());
        i += 1;
    }
    let more = if g.groups.len() > SHOWN {
        "  … (".to_owned().concat(decimal_of(g.groups.len()).as_str()).concat(
            " groups total)\n",
        )
    } else {
        String::new()
    };
    assert(g.groups@.len() <= SHOWN ==> more@ =~= Seq::<char>::empty());
    g.display.clone().concat("\n").concat(body.as_str()).concat(more.as_str()).concat(
        "Computed over ALL rows including offloaded ones; each group lists its backing-row count.",
    )
}

/// How an operator is written: by name or by sign; anything else means equality.
pub proof fn law_operator_arg(s: Seq<char>)
    ensures
        op_of_arg(s) == Op::Ne <==> s == "ne"@ || s == "!="@,
        op_of_arg(s) == Op::Gt <==> s == "gt"@ || s == ">"@,
        op_of_arg(s) == Op::Ge <==> s == "ge"@ || s == ">="@,
        op_of_arg(s) == Op::Lt <==> s == "lt"@ || s == "<"@,
        op_of_arg(s) == Op::Le <==> s == "le"@ || s == "<="@,
{
    reveal_strlit("ne");
    reveal_strlit("!=");
    reveal_strlit("gt");
    reveal_strlit(">");
    reveal_strlit("ge");
    reveal_strlit(">=");
    reveal_strlit("lt");
    reveal_strlit("<");
    reveal_strlit("le");
    reveal_strlit("<=");
    assert("ne"@[0] == 'n');
    assert("!="@[0] == '!');
    assert("gt"@[0] == 'g' && "gt"@[1] == 't');
    assert("ge"@[0] == 'g' && "ge"@[1] == 'e');
    assert("lt"@[0] == 'l' && "lt"@[1] == 't');
    assert("le"@[0] == 'l' && "le"@[1] == 'e');
    assert(">"@[0] == '>' && ">="@[0] == '>' && "<"@[0] == '<' && "<="@[0] == '<');
    assert(">"@.len() == 1 && ">="@.len() == 2 && "<"@.len() == 1 && "<="@.len() == 2);
}

/// How an aggregate is written, and that all but the count need a field; a value
/// is what it reads as in JSON, or else the text itself.
pub proof fn law_aggregate_arg(f: Seq<char>, raw: Seq<char>, args: Seq<PredicateArg>)
    ensures
        agg_of_arg("count"@, None) == Some(AggView::Count),
        agg_of_arg("count"@, Some(f)) == Some(AggView::Count),
        agg_of_arg("sum"@, Some(f)) == Some(AggView::Sum(f)),
        agg_of_arg("mean"@, Some(f)) == Some(AggView::Mean(f)),
        agg_of_arg("avg"@, Some(f)) == Some(AggView::Mean(f)),
        agg_of_arg("min"@, Some(f)) == Some(AggView::Min(f)),
        agg_of_arg("max"@, Some(f)) == Some(AggView::Max(f)),
        raw != "count"@ ==> agg_of_arg(raw, None) is None,
        raw != "count"@ && raw != "sum"@ && raw != "mean"@ && raw != "avg"@ && raw != "min"@ && raw
            != "max"@ ==> agg_of_arg(raw, Some(f)) is None,
        json_of_bytes(encode_utf8(raw)) is Some ==> value_of_arg(raw) == json_of_bytes(
            encode_utf8(raw),
        )->0,
        json_of_bytes(encode_utf8(raw)) is None ==> value_of_arg(raw) == Tree::Text(raw),
        predicates_of_args(args) == args.map_values(
            |a: PredicateArg|
                PredicateView { field: a.field@, op: op_of_arg(a.op@), value: value_of_arg(a.value@) },
        ),
{
    reveal_strlit("count");
    reveal_strlit("sum");
    reveal_strlit("mean");
    reveal_strlit("avg");
    reveal_strlit("min");
    reveal_strlit("max");
    assert("sum"@[0] == 's' && "avg"@[0] == 'a');
    assert("sum"@.len() == 3 && "mean"@.len() == 4 && "count"@.len() == 5);
    assert("min"@[0] == 'm' && "min"@[1] == 'i' && "max"@[0] == 'm' && "max"@[1] == 'a');
    assert(predicates_of_args(args) =~= args.map_values(
        |a: PredicateArg|
            PredicateView { field: a.field@, op: op_of_arg(a.op@), value: value_of_arg(a.value@) },
    ));
}

/// Row numbers are all listed up to 64 of them; of more, the first 64 and how many
/// there are.
pub proof fn law_index_text(matched: Seq<usize>)
    ensures
        number_list(matched) == "["@ + join(
            matched.map_values(|n: usize| decimal(n as nat)),
            ", "@,
        ) + "]"@,
        matched.len() <= 64 ==> index_text(matched) == number_list(matched),
        matched.len() > 64 ==> index_text(matched) == number_list(matched.take(64)) + " … ("@
            + decimal(matched.len()) + " total)"@,
{
    assert(Seq::new(matched.len(), |i: int| decimal(matched[i] as nat)) =~= matched.map_values(
        |n: usize| decimal(n as nat),
    ));
}

/// Groups are listed one to a line, up to 64 of them, with the number of their
/// rows; of more, how many there are.
pub proof fn law_groups_text(g: GroupAggregate, shown: Seq<String>, n: nat)
    ensures
        group_lines(g, shown, 0) == Seq::<char>::empty(),
        group_lines(g, shown, n + 1) == group_lines(g, shown, n) + ("  "@ + g.groups@[n as int].key@
            + " → "@ + shown[n as int]@ + " ("@ + decimal(g.groups@[n as int].matched@.len())
            + " rows)\n"@),
        g.groups@.len() <= 64 ==> groups_text(g, shown) == g.display@ + "\n"@ + group_lines(
            g,
            shown,
            g.groups@.len(),
        )
            + "Computed over ALL rows including offloaded ones; each group lists its backing-row count."@,
        g.groups@.len() > 64 ==> groups_text(g, shown) == g.display@ + "\n"@ + group_lines(
            g,
            shown,
            64,
        ) + ("  … ("@ + decimal(g.groups@.len()) + " groups total)\n"@)
            + "Computed over ALL rows including offloaded ones; each group lists its backing-row count."@,
{
    let lead = g.display@ + "\n"@ + group_lines(g, shown, g.groups@.len());
    assert(lead + Seq::<char>::empty() =~= lead);
}

} // verus!
