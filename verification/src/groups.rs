//! Aggregates by group.
use crate::budget::marked;
use crate::json::{trees, Json, Tree};
use crate::order::{ints, key_views, law_sorted_order, sorted_order, sorted_order_of, SortKey};
use crate::query::{
    aggregate, apply_agg, lemma_marked_below, Agg, AggView, Reduction, ReductionView,
};
use crate::text::{chars_of, same_chars, string_of};
use vstd::prelude::*;

verus! {

/// One group: its key, what is left to compute over it, and its members.
#[derive(Debug, PartialEq, Eq)]
pub struct GroupPart {
    /// The key.
    pub key: String,
    /// What is left to compute.
    pub reduction: Reduction,
    /// The numbers of the members.
    pub matched: Vec<usize>,
}

/// What a grouped aggregate found: everything but the results of the
/// reductions.
#[derive(Debug, PartialEq, Eq)]
pub struct GroupPlan {
    /// The summary line.
    pub display: String,
    /// The groups, in order.
    pub groups: Vec<GroupPart>,
}

/// One group with its result.
#[derive(Debug, PartialEq, Eq)]
pub struct GroupBucket {
    /// The key.
    pub key: String,
    /// The result, by the bits of a double.
    pub value: u64,
    /// The numbers of the members.
    pub matched: Vec<usize>,
}

/// The answer of a grouped aggregate.
#[derive(Debug, PartialEq, Eq)]
pub struct GroupAggregate {
    /// The summary line.
    pub display: String,
    /// The groups, in order.
    pub groups: Vec<GroupBucket>,
}

/// A group as plain values.
pub struct GroupView {
    pub key: Seq<char>,
    pub reduction: ReductionView,
    pub matched: Seq<usize>,
}

impl View for GroupPart {
    type V = GroupView;

    open spec fn view(&self) -> GroupView {
        GroupView { key: self.key@, reduction: self.reduction@, matched: self.matched@ }
    }
}

/// The groups as plain values.
pub open spec fn group_views(groups: Seq<GroupPart>) -> Seq<GroupView> {
    Seq::new(groups.len(), |i: int| groups[i]@)
}

impl GroupPlan {
    /// The answer, given the result of each group's reduction.
    pub fn finish(self, values: &[u64]) -> (out: GroupAggregate)
        requires
            values@.len() == self.groups@.len(),
        ensures
            out.display@ == self.display@,
            out.groups@.len() == self.groups@.len(),
            forall|i: int|
                0 <= i < out.groups@.len() ==> (#[trigger] out.groups@[i]).key@
                    == self.groups@[i].key@ && out.groups@[i].value == values@[i]
                    && out.groups@[i].matched@ == self.groups@[i].matched@,
    {
        let mut groups: Vec<GroupBucket> = Vec::new();
        let display = self.display;
        let ghost all = self.groups@;
        let mut i: usize = 0;
        for part in it: self.groups
            invariant
                it.seq() == all,
                i == it.index(),
                values@.len() == all.len(),
                groups@.len() == i,
                forall|k: int|
                    0 <= k < i ==> (#[trigger] groups@[k]).key@ == all[k].key@ && groups@[k].value
                        == values@[k] && groups@[k].matched@ == all[k].matched@,
        {
            assert(part == all[i as int]);
            groups.push(GroupBucket { key: part.key, value: values[i], matched: part.matched });
            i += 1;
        }
        GroupAggregate { display, groups }
    }
}

// ---------------------------------------------------------------------------
// Grouping
// ---------------------------------------------------------------------------

/// The key that a record is grouped under, with the weight that orders the
/// groups.
pub struct GroupKey {
    /// Groups with smaller weights come first.
    pub weight: i128,
    /// The key. Among equal weights, groups with smaller keys come first.
    pub key: String,
}

impl View for GroupKey {
    type V = (int, Seq<char>);

    open spec fn view(&self) -> (int, Seq<char>) {
        (self.weight as int, self.key@)
    }
}

/// The keys as plain values; a record without a key is in no group.
pub open spec fn assigned_views(assigned: Seq<Option<GroupKey>>) -> Seq<
    Option<(int, Seq<char>)>,
> {
    Seq::new(assigned.len(), |i: int| group_key_view(assigned[i]))
}

/// A key, if there is one, as plain values.
pub open spec fn group_key_view(key: Option<GroupKey>) -> Option<(int, Seq<char>)> {
    match key {
        Some(k) => Some(k@),
        None => None,
    }
}

/// The key of a record that has one.
pub open spec fn assigned_key(assigned: Seq<Option<(int, Seq<char>)>>, i: int) -> Seq<char> {
    match assigned[i] {
        Some(k) => k.1,
        None => Seq::empty(),
    }
}

/// The key is among the groups.
pub open spec fn has_key(names: Seq<(int, Seq<char>)>, key: Seq<char>) -> bool {
    exists|i: int| 0 <= i < names.len() && (#[trigger] names[i]).1 == key
}

/// The groups in the order in which their keys are first seen, each with the
/// weight that it is first seen with.
pub open spec fn group_names(assigned: Seq<Option<(int, Seq<char>)>>) -> Seq<(int, Seq<char>)>
    decreases assigned.len(),
{
    if assigned.len() == 0 {
        Seq::empty()
    } else {
        let before = group_names(assigned.drop_last());
        match assigned.last() {
            Some(k) => if has_key(before, k.1) {
                before
            } else {
                before.push(k)
            },
            None => before,
        }
    }
}

/// For each record whether it is in the group.
pub open spec fn member_mask(assigned: Seq<Option<(int, Seq<char>)>>, key: Seq<char>) -> Seq<bool> {
    Seq::new(
        assigned.len(),
        |i: int|
            match assigned[i] {
                Some(k) => k.1 == key,
                None => false,
            },
    )
}

/// The numbers of the members of a group, in order.
pub open spec fn members(assigned: Seq<Option<(int, Seq<char>)>>, key: Seq<char>) -> Seq<usize> {
    marked(member_mask(assigned, key))
}

/// The groups in order, each with its members and its aggregate; nothing where
/// the aggregate of any group is refused.
pub open spec fn grouped(
    rows: Seq<Tree>,
    assigned: Seq<Option<(int, Seq<char>)>>,
    agg: AggView,
) -> Option<Seq<GroupView>> {
    let names = group_names(assigned);
    let order = sorted_order(names);
    if forall|k: int|
        0 <= k < names.len() ==> aggregate(
            rows,
            members(assigned, (#[trigger] names[k]).1),
            agg,
        ) is Some {
        Some(
            Seq::new(
                names.len(),
                |j: int| group_view(rows, assigned, names[order[j]].1, agg),
            ),
        )
    } else {
        None
    }
}

/// One group with its members and its aggregate.
pub open spec fn group_view(
    rows: Seq<Tree>,
    assigned: Seq<Option<(int, Seq<char>)>>,
    key: Seq<char>,
    agg: AggView,
) -> GroupView {
    GroupView {
        key,
        reduction: aggregate(rows, members(assigned, key), agg)->0,
        matched: members(assigned, key),
    }
}

fn known_key(names: &[SortKey], key: &[char]) -> (r: bool)
    ensures
        r == has_key(key_views(names@), key@),
{
    let mut i: usize = 0;
    while i < names.len()
        invariant
            i <= names@.len(),
            forall|k: int| 0 <= k < i ==> (#[trigger] key_views(names@)[k]).1 != key@,
        decreases names@.len() - i,
    {
        assert(key_views(names@)[i as int] == names@[i as int]@);
        if same_chars(&names[i].text, key) {
            return true;
        }
        i += 1;
    }
    false
}

fn names_of(assigned: &[Option<GroupKey>]) -> (names: Vec<SortKey>)
    ensures
        key_views(names@) == group_names(assigned_views(assigned@)),
{
    let ghost all = assigned_views(assigned@);
    let mut names: Vec<SortKey> = Vec::new();
    let mut i: usize = 0;
    assert(key_views(names@) =~= Seq::empty());
    while i < assigned.len()
        invariant
            i <= assigned@.len(),
            all == assigned_views(assigned@),
            key_views(names@) == group_names(all.take(i as int)),
        decreases assigned@.len() - i,
    {
        let ghost next = all.take(i as int + 1);
        assert(next.drop_last() =~= all.take(i as int));
        assert(next.last() == all[i as int]);
        match &assigned[i] {
            Some(k) => {
                let text = chars_of(k.key.as_str());
                if !known_key(names.as_slice(), &text) {
                    let ghost before = key_views(names@);
                    let ghost entry = k@;
                    names.push(SortKey { weight: k.weight, text });
                    assert(key_views(names@) =~= before.push(entry));
                }
            },
            None => {},
        }
        i += 1;
    }
    assert(all.take(i as int) =~= all);
    names
}

fn members_of(assigned: &[Option<GroupKey>], key: &[char]) -> (out: Vec<usize>)
    ensures
        out@ == members(assigned_views(assigned@), key@),
{
    let ghost all = assigned_views(assigned@);
    let ghost mask = member_mask(all, key@);
    let mut out: Vec<usize> = Vec::new();
    let mut i: usize = 0;
    while i < assigned.len()
        invariant
            i <= assigned@.len(),
            all == assigned_views(assigned@),
            mask == member_mask(all, key@),
            out@ == marked(mask.take(i as int)),
        decreases assigned@.len() - i,
    {
        assert(mask.take(i as int + 1).drop_last() =~= mask.take(i as int));
        assert(all[i as int] == group_key_view(assigned@[i as int]));
        match &assigned[i] {
            Some(k) => {
                let text = chars_of(k.key.as_str());
                if same_chars(&text, key) {
                    out.push(i);
                }
            },
            None => {},
        }
        i += 1;
    }
    assert(mask.take(i as int) =~= mask);
    out
}

/// The groups in order, each with its members and its aggregate.
pub fn finish_groups(rows: &[Json], assigned: &[Option<GroupKey>], agg: &Agg) -> (out: Option<
    Vec<GroupPart>,
>)
    requires
        assigned@.len() == rows@.len(),
    ensures
        match out {
            Some(groups) => grouped(trees(rows@), assigned_views(assigned@), agg@) == Some(
                group_views(groups@),
            ),
            None => grouped(trees(rows@), assigned_views(assigned@), agg@) is None,
        },
{
    let names = names_of(assigned);
    let order = sorted_order_of(names.as_slice());
    let ghost ts = trees(rows@);
    let ghost all = assigned_views(assigned@);
    let ghost views = key_views(names@);
    let ghost sorted = sorted_order(views);
    proof {
        law_sorted_order(views, views.len());
        assert(rows.len() == rows@.len());
        assert(forall|k: int| 0 <= k < sorted.len() ==> sorted[k] == #[trigger] order@[k] as int)
            by {
            assert(forall|k: int|
                0 <= k < order@.len() ==> ints(order@)[k] == #[trigger] order@[k] as int);
        }
    }
    let mut groups: Vec<GroupPart> = Vec::new();
    let mut j: usize = 0;
    while j < order.len()
        invariant
            j <= order@.len() == names@.len(),
            rows@.len() <= usize::MAX,
            assigned@.len() == rows@.len(),
            ts == trees(rows@),
            all == assigned_views(assigned@),
            views == key_views(names@),
            views == group_names(all),
            sorted == sorted_order(views),
            forall|k: int| 0 <= k < order@.len() ==> (#[trigger] order@[k]) < names@.len(),
            forall|k: int| 0 <= k < sorted.len() ==> sorted[k] == #[trigger] order@[k] as int,
            sorted.len() == order@.len(),
            groups@.len() == j,
            forall|k: int|
                0 <= k < j ==> aggregate(
                    ts,
                    members(all, views[#[trigger] order@[k] as int].1),
                    agg@,
                ) is Some,
            forall|k: int|
                0 <= k < j ==> (#[trigger] groups@[k])@ == group_view(
                    ts,
                    all,
                    views[sorted[k]].1,
                    agg@,
                ),
        decreases order@.len() - j,
    {
        let at: usize = order[j];
        let name = &names[at];
        assert(views[at as int] == name@);
        let matched = members_of(assigned, &name.text);
        proof {
            lemma_marked_below(member_mask(all, name.text@));
        }
        match apply_agg(rows, matched.as_slice(), agg) {
            None => {
                assert(aggregate(ts, members(all, views[at as int].1), agg@) is None);
                return None;
            },
            Some(reduction) => {
                groups.push(GroupPart { key: string_of(&name.text), reduction, matched });
            },
        }
        j += 1;
    }
    proof {
        broadcast use vstd::seq_lib::group_to_multiset_ensures;

        let n = views.len();
        let plain = Seq::new(n, |i: int| i);
        assert forall|k: int| 0 <= k < views.len() implies aggregate(
            ts,
            members(all, (#[trigger] views[k]).1),
            agg@,
        ) is Some by {
            assert(plain[k] == k);
            assert(plain.contains(k));
            assert(plain.to_multiset().count(k) > 0);
            assert(sorted.to_multiset().count(k) > 0);
            assert(sorted.contains(k));
            let p = choose|p: int| 0 <= p < sorted.len() && sorted[p] == k;
            assert(order@[p] as int == k);
        }
        assert(group_views(groups@) =~= Seq::new(
            n,
            |i: int| group_view(ts, all, views[sorted[i]].1, agg@),
        ));
    }
    Some(groups)
}

/// Every record with a key is in exactly the group of its key.
pub proof fn law_groups_partition_the_records(
    assigned: Seq<Option<(int, Seq<char>)>>,
    i: int,
)
    requires
        assigned.len() <= usize::MAX,
        0 <= i < assigned.len(),
    ensures
        assigned[i] is Some ==> has_key(group_names(assigned), assigned_key(assigned, i)),
        forall|key: Seq<char>| #[trigger]
            members(assigned, key).contains(i as usize) <==> assigned[i] is Some
                && assigned_key(assigned, i) == key,
{
    if assigned[i] is Some {
        lemma_names_cover(assigned, i);
    }
    assert forall|key: Seq<char>| #[trigger]
        members(assigned, key).contains(i as usize) <==> assigned[i] is Some && assigned_key(assigned, i)
            == key by {
        let mask = member_mask(assigned, key);
        lemma_marked_below(mask);
        assert(mask[i] == (assigned[i] is Some && assigned_key(assigned, i) == key));
        if members(assigned, key).contains(i as usize) {
            let k = choose|k: int| 0 <= k < marked(mask).len() && marked(mask)[k] == i as usize;
            assert(mask[marked(mask)[k] as int]);
        }
    }
}

proof fn lemma_names_cover(assigned: Seq<Option<(int, Seq<char>)>>, i: int)
    requires
        0 <= i < assigned.len(),
        assigned[i] is Some,
    ensures
        has_key(group_names(assigned), assigned_key(assigned, i)),
    decreases assigned.len(),
{
    let before = assigned.drop_last();
    let names = group_names(before);
    let all = group_names(assigned);
    if i < before.len() {
        lemma_names_cover(before, i);
        assert(before[i] == assigned[i]);
        let k = choose|k: int| 0 <= k < names.len() && (#[trigger] names[k]).1 == assigned_key(assigned, i);
        assert(all[k] == names[k]);
    } else {
        assert(assigned.last() == assigned[i]);
        if !has_key(names, assigned_key(assigned, i)) {
            assert(all[names.len() as int] == assigned[i]->0);
        }
    }
}

/// There is one group for each key that a record has, with the weight that the
/// first record with the key has.
pub proof fn law_group_names(assigned: Seq<Option<(int, Seq<char>)>>, key: Seq<char>, i: int)
    ensures
        (exists|k: int| 0 <= k < group_names(assigned).len() && (#[trigger] group_names(
            assigned,
        )[k]).1 == key) <==> exists|k: int|
            0 <= k < assigned.len() && #[trigger] assigned[k] is Some && (assigned[k]->0).1 == key,
        forall|a: int, b: int|
            0 <= a < b < group_names(assigned).len() ==> (#[trigger] group_names(assigned)[a]).1
                != (#[trigger] group_names(assigned)[b]).1,
        0 <= i < assigned.len() && assigned[i] is Some && (forall|k: int|
            0 <= k < i && #[trigger] assigned[k] is Some ==> (assigned[k]->0).1 != (
            assigned[i]->0).1) ==> group_names(assigned).contains(assigned[i]->0),
    decreases assigned.len(),
{
    if assigned.len() > 0 {
        let rest = assigned.drop_last();
        let before = group_names(rest);
        let names = group_names(assigned);
        let n = assigned.len() - 1;
        assert(forall|k: int| 0 <= k < rest.len() ==> #[trigger] rest[k] == assigned[k]);
        law_group_names(rest, key, i);
        if assigned[n] is Some {
            let new = assigned[n]->0;
            law_group_names(rest, new.1, i);
            if !has_key(before, new.1) {
                assert(names[before.len() as int] == new);
            }
            assert(forall|k: int| 0 <= k < before.len() ==> #[trigger] names[k] == before[k]);
        }
        if exists|k: int|
            0 <= k < assigned.len() && #[trigger] assigned[k] is Some && (assigned[k]->0).1
                == key {
            let k = choose|k: int|
                0 <= k < assigned.len() && #[trigger] assigned[k] is Some && (assigned[k]->0).1
                    == key;
            if k < n {
                assert(rest[k] is Some && (rest[k]->0).1 == key);
                let j = choose|j: int| 0 <= j < before.len() && (#[trigger] before[j]).1 == key;
                assert(names[j].1 == key);
            } else if has_key(before, key) {
                let j = choose|j: int| 0 <= j < before.len() && (#[trigger] before[j]).1 == key;
                assert(names[j].1 == key);
            } else {
                assert(names[before.len() as int].1 == key);
            }
        }
        if exists|k: int| 0 <= k < names.len() && (#[trigger] names[k]).1 == key {
            let k = choose|k: int| 0 <= k < names.len() && (#[trigger] names[k]).1 == key;
            if k < before.len() {
                assert(before[k].1 == key);
                let j = choose|j: int|
                    0 <= j < rest.len() && #[trigger] rest[j] is Some && (rest[j]->0).1 == key;
                assert(assigned[j] is Some);
            } else {
                assert(assigned[n] is Some);
            }
        }
        if 0 <= i < assigned.len() && assigned[i] is Some && (forall|k: int|
            0 <= k < i && #[trigger] assigned[k] is Some ==> (assigned[k]->0).1 != (
            assigned[i]->0).1) {
            if i < n {
                assert forall|k: int| 0 <= k < i && #[trigger] rest[k] is Some implies (rest[k]->0).1
                    != (rest[i]->0).1 by {
                    assert(assigned[k] is Some);
                }
                let j = choose|j: int| 0 <= j < before.len() && before[j] == assigned[i]->0;
                assert(before.contains(assigned[i]->0));
                assert(names[j] == assigned[i]->0);
            } else {
                if has_key(before, (assigned[n]->0).1) {
                    let j = choose|j: int|
                        0 <= j < rest.len() && #[trigger] rest[j] is Some && (rest[j]->0).1 == (
                        assigned[n]->0).1;
                    assert(assigned[j] is Some);
                }
                assert(names[before.len() as int] == assigned[n]->0);
            }
        }
    }
}

/// The groups come in the order of their weights, then of their keys; each is the
/// aggregate over every record with its key, and its records. A group without an
/// aggregate means there is no answer.
pub proof fn law_grouped(
    rows: Seq<Tree>,
    assigned: Seq<Option<(int, Seq<char>)>>,
    agg: AggView,
    j: int,
)
    ensures
        grouped(rows, assigned, agg) is Some <==> forall|k: int|
            0 <= k < group_names(assigned).len() ==> aggregate(
                rows,
                members(assigned, (#[trigger] group_names(assigned)[k]).1),
                agg,
            ) is Some,
        grouped(rows, assigned, agg) is Some ==> (grouped(rows, assigned, agg)->0).len()
            == group_names(assigned).len(),
        grouped(rows, assigned, agg) is Some && 0 <= j < group_names(assigned).len() ==> {
            let names = group_names(assigned);
            let key = names[sorted_order(names)[j]].1;
            let at = marked(
                assigned.map_values(|k: Option<(int, Seq<char>)>| k is Some && (k->0).1 == key),
            );
            (grouped(rows, assigned, agg)->0)[j] == (GroupView {
                key,
                reduction: aggregate(rows, at, agg)->0,
                matched: at,
            })
        },
{
    let names = group_names(assigned);
    if 0 <= j < names.len() {
        let key = names[sorted_order(names)[j]].1;
        assert(member_mask(assigned, key) =~= assigned.map_values(
            |k: Option<(int, Seq<char>)>| k is Some && (k->0).1 == key,
        ));
    }
}

/// A grouped answer has every one of its groups, and every record its key.
pub proof fn law_group_views(groups: Seq<GroupPart>, assigned: Seq<Option<GroupKey>>, i: int)
    ensures
        group_views(groups).len() == groups.len(),
        0 <= i < groups.len() ==> group_views(groups)[i] == (GroupView {
            key: groups[i].key@,
            reduction: groups[i].reduction@,
            matched: groups[i].matched@,
        }),
        assigned_views(assigned).len() == assigned.len(),
        0 <= i < assigned.len() ==> assigned_views(assigned)[i] == (match assigned[i] {
            Some(k) => Some((k.weight as int, k.key@)),
            None => None,
        }),
{
}

} // verus!
