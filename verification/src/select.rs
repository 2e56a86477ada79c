//! Keeping the units that a test lets through.
use crate::cas::Cas;
use crate::doc::{rebuilt, CompressedDoc, Fault};
use crate::emit::{emit_kept, law_selection_is_reversible, pieces};
use crate::json::{json_of_bytes, Json, Tree};
use crate::op::{passes, value_passes, Op};
use crate::tiling::{collision_free, regions, stored_all, tiled, Piece};
use crate::units::{
    dedup_mask, dedup_survivor_mask, law_units_are_ordered, span_bytes, spans, unit_noun,
    unit_spans, units_for,
};
use vstd::prelude::*;

verus! {

/// The pieces of an input of which the units marked in `kept` are kept.
pub open spec fn selected(input: Seq<u8>, kept: Seq<bool>) -> Seq<Piece> {
    pieces(input, unit_spans(input), kept, unit_noun(input))
}

/// `keep` may have said `verdict` of the bytes.
pub open spec fn may_say<P: Fn(&[u8]) -> bool>(keep: P, bytes: Seq<u8>, verdict: bool) -> bool {
    exists|unit: &[u8]| unit@ == bytes && #[trigger] call_ensures(keep, (unit,), verdict)
}

/// `kept` is what `keep` may have said of each unit.
pub open spec fn kept_by<P: Fn(&[u8]) -> bool>(
    input: Seq<u8>,
    keep: P,
    kept: Seq<bool>,
) -> bool {
    &&& kept.len() == unit_spans(input).len()
    &&& forall|i: int|
        0 <= i < kept.len() ==> may_say(
            keep,
            span_bytes(input, unit_spans(input)[i]),
            #[trigger] kept[i],
        )
}

/// Keeps the units for which `keep` says true and offloads the others.
pub fn compress_by_predicate<C: Cas, P: Fn(&[u8]) -> bool>(
    input: &[u8],
    cas: &mut C,
    keep: P,
) -> (doc: CompressedDoc)
    requires
        forall|unit: &[u8]| #[trigger] call_requires(keep, (unit,)),
    ensures
        exists|kept: Seq<bool>|
            #![trigger selected(input@, kept)]
            kept_by(input@, keep, kept) && doc@ == tiled(selected(input@, kept))
                && final(cas).objects() == stored_all(
                old(cas).objects(),
                regions(selected(input@, kept)),
            ),
{
    let (units, noun) = units_for(input);
    proof {
        law_units_are_ordered(input@);
    }
    let mut kept: Vec<bool> = Vec::new();
    let mut i: usize = 0;
    while i < units.len()
        invariant
            i <= units@.len(),
            spans(units@) == unit_spans(input@),
            crate::units::ordered(unit_spans(input@), input@.len() as int),
            kept@.len() == i,
            forall|unit: &[u8]| #[trigger] call_requires(keep, (unit,)),
            forall|k: int|
                0 <= k < i ==> may_say(
                    keep,
                    span_bytes(input@, unit_spans(input@)[k]),
                    #[trigger] kept@[k],
                ),
        decreases units@.len() - i,
    {
        assert(unit_spans(input@)[i as int] == (
            units@[i as int].start as int,
            units@[i as int].end as int,
        ));
        let unit = vstd::slice::slice_subrange(input, units[i].start, units[i].end);
        let verdict = keep(unit);
        assert(call_ensures(keep, (unit,), verdict));
        kept.push(verdict);
        i += 1;
    }
    let doc = emit_kept(input, units.as_slice(), kept.as_slice(), cas, noun);
    assert(kept_by(input@, keep, kept@));
    assert(doc@ == tiled(selected(input@, kept@)));
    doc
}

/// Keeps the first of each run of equal units and offloads the others.
pub fn compress_dedup<C: Cas>(input: &[u8], cas: &mut C) -> (doc: CompressedDoc)
    ensures
        doc@ == tiled(selected(input@, dedup_mask(input@, unit_spans(input@)))),
        final(cas).objects() == stored_all(
            old(cas).objects(),
            regions(selected(input@, dedup_mask(input@, unit_spans(input@)))),
        ),
{
    let (units, noun) = units_for(input);
    proof {
        law_units_are_ordered(input@);
    }
    let kept = dedup_survivor_mask(input, units.as_slice());
    emit_kept(input, units.as_slice(), kept.as_slice(), cas, noun)
}

/// The unit is an object whose field passes the comparison.
pub open spec fn unit_passes(unit: Seq<u8>, field: Seq<char>, op: Op, target: Tree) -> bool {
    match json_of_bytes(unit) {
        Some(t) => match t.get(field) {
            Some(v) => passes(v, op, target),
            None => false,
        },
        None => false,
    }
}

/// For each unit whether it passes.
pub open spec fn where_mask(input: Seq<u8>, field: Seq<char>, op: Op, target: Tree) -> Seq<bool> {
    let at = unit_spans(input);
    Seq::new(at.len(), |i: int| unit_passes(span_bytes(input, at[i]), field, op, target))
}

/// Whether the bytes are an object whose field passes the comparison.
pub fn row_passes(unit: &[u8], field: &str, op: Op, target: &Json) -> (r: bool)
    ensures
        r == unit_passes(unit@, field@, op, target@),
{
    match Json::parse(unit) {
        Some(row) => match row.get(field) {
            Some(value) => value_passes(value, op, target),
            None => false,
        },
        None => false,
    }
}

/// Keeps the rows of which `field op value` holds and offloads the others. A row
/// that is no object, or has no such field, does not match.
pub fn compress_json_where<C: Cas>(
    input: &[u8],
    cas: &mut C,
    field: &str,
    op: Op,
    value: &Json,
) -> (doc: CompressedDoc)
    ensures
        doc@ == tiled(selected(input@, where_mask(input@, field@, op, value@))),
        final(cas).objects() == stored_all(
            old(cas).objects(),
            regions(selected(input@, where_mask(input@, field@, op, value@))),
        ),
{
    let (units, noun) = units_for(input);
    proof {
        law_units_are_ordered(input@);
    }
    let mut kept: Vec<bool> = Vec::new();
    let mut i: usize = 0;
    while i < units.len()
        invariant
            i <= units@.len(),
            spans(units@) == unit_spans(input@),
            crate::units::ordered(unit_spans(input@), input@.len() as int),
            kept@.len() == i,
            forall|k: int|
                0 <= k < i ==> kept@[k] == where_mask(input@, field@, op, value@)[k],
        decreases units@.len() - i,
    {
        assert(unit_spans(input@)[i as int] == (
            units@[i as int].start as int,
            units@[i as int].end as int,
        ));
        let unit = vstd::slice::slice_subrange(input, units[i].start, units[i].end);
        kept.push(row_passes(unit, field, op, value));
        i += 1;
    }
    assert(kept@ =~= where_mask(input@, field@, op, value@));
    emit_kept(input, units.as_slice(), kept.as_slice(), cas, noun)
}

/// Every selection of units is reversible.
pub proof fn law_selected_is_reversible(
    input: Seq<u8>,
    kept: Seq<bool>,
    objects: Map<Seq<char>, Seq<u8>>,
    later: Seq<Seq<u8>>,
)
    requires
        kept.len() == unit_spans(input).len(),
        collision_free(objects, regions(selected(input, kept))),
    ensures
        rebuilt(
            tiled(selected(input, kept)),
            stored_all(stored_all(objects, regions(selected(input, kept))), later),
        ) == Ok::<Seq<u8>, Fault>(input),
{
    law_units_are_ordered(input);
    law_selection_is_reversible(
        input,
        unit_spans(input),
        kept,
        unit_noun(input),
        objects,
        later,
    );
}

/// A unit is kept by a comparison exactly if it is JSON, has the field, and the
/// field's value passes.
pub proof fn law_where_mask(input: Seq<u8>, field: Seq<char>, op: Op, target: Tree, i: int)
    ensures
        where_mask(input, field, op, target).len() == unit_spans(input).len(),
        0 <= i < unit_spans(input).len() ==> (where_mask(input, field, op, target)[i] <==> {
            let unit = input.subrange(unit_spans(input)[i].0, unit_spans(input)[i].1);
            &&& json_of_bytes(unit) is Some
            &&& json_of_bytes(unit)->0.get(field) is Some
            &&& passes(json_of_bytes(unit)->0.get(field)->0, op, target)
        }),
        forall|kept: Seq<bool>| #[trigger]
            selected(input, kept) == pieces(input, unit_spans(input), kept, unit_noun(input)),
{
}

/// A predicate is asked about every unit, and what it says of each decides.
pub proof fn law_predicate_decides<P: Fn(&[u8]) -> bool>(
    input: Seq<u8>,
    keep: P,
    kept: Seq<bool>,
    i: int,
)
    requires
        kept_by(input, keep, kept),
        0 <= i < unit_spans(input).len(),
    ensures
        kept.len() == unit_spans(input).len(),
        exists|unit: &[u8]|
            unit@ == input.subrange(unit_spans(input)[i].0, unit_spans(input)[i].1)
                && #[trigger] call_ensures(keep, (unit,), kept[i]),
{
    assert(may_say(keep, span_bytes(input, unit_spans(input)[i]), kept[i]));
}

} // verus!
