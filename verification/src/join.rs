//! Aggregates over two datasets joined on a key.
use crate::budget::marked;
use crate::column::in_list;
use crate::groups::{
    assigned_views, finish_groups, group_key_view, group_views, grouped, member_mask, members,
    GroupKey, GroupPlan, GroupView,
};
use crate::json::{compact, law_strings_are_told_apart, trees, Json, Tree};
use crate::op::passes;
use crate::query::{
    agg_label, agg_text, aggregate, apply_agg, law_marked, law_matching, lemma_marked_below,
    parse_rows, predicate_views, record_matches, row_matches, rows_of, where_clause, where_text, Agg, AggView, Predicate,
    PredicateView, QueryPlan,
};
use crate::text::{decimal, decimal_of, same_text, texts};
use vstd::prelude::*;

verus! {

// ---------------------------------------------------------------------------
// Semi-join
// ---------------------------------------------------------------------------

/// The join key of a record: the compact text of its field, so that a number
/// never equals a string.
pub open spec fn key_text(row: Tree, field: Seq<char>) -> Option<Seq<char>> {
    match row.get(field) {
        Some(v) => Some(compact(v)),
        None => None,
    }
}

/// The right record has the key and passes every comparison.
pub open spec fn offers(
    right: Tree,
    right_key: Seq<char>,
    right_where: Seq<PredicateView>,
    key: Seq<char>,
) -> bool {
    row_matches(right, right_where) && key_text(right, right_key) == Some(key)
}

/// The left record joins at least one right record that passes every comparison.
pub open spec fn joins(
    left: Tree,
    rights: Seq<Tree>,
    left_key: Seq<char>,
    right_key: Seq<char>,
    right_where: Seq<PredicateView>,
) -> bool {
    match key_text(left, left_key) {
        Some(key) => exists|j: int|
            0 <= j < rights.len() && offers(#[trigger] rights[j], right_key, right_where, key),
        None => false,
    }
}

/// For each left record whether it joins.
pub open spec fn join_mask(
    lefts: Seq<Tree>,
    rights: Seq<Tree>,
    left_key: Seq<char>,
    right_key: Seq<char>,
    right_where: Seq<PredicateView>,
) -> Seq<bool> {
    Seq::new(
        lefts.len(),
        |i: int| joins(lefts[i], rights, left_key, right_key, right_where),
    )
}

/// The summary line of a semi-join up to the result.
pub open spec fn join_text(
    agg: AggView,
    left_key: Seq<char>,
    right_key: Seq<char>,
    right_where: Seq<PredicateView>,
    matched: nat,
) -> Seq<char> {
    "[index] "@ + agg_text(agg) + " over left ⋉ right on "@ + left_key + "="@ + right_key
        + where_text("right."@, right_where) + " ("@ + decimal(matched)
        + " matched left records) = "@
}

/// `plan` answers the semi-join.
pub open spec fn join_answers(
    lefts: Seq<Tree>,
    rights: Seq<Tree>,
    left_key: Seq<char>,
    right_key: Seq<char>,
    right_where: Seq<PredicateView>,
    agg: AggView,
    plan: QueryPlan,
) -> bool {
    let matched = marked(join_mask(lefts, rights, left_key, right_key, right_where));
    &&& plan.matched@ == matched
    &&& plan.lead@ == join_text(agg, left_key, right_key, right_where, matched.len())
    &&& aggregate(lefts, matched, agg) == Some(plan.reduction@)
}

fn key_of(row: &Json, field: &str) -> (key: Option<String>)
    ensures
        match key {
            Some(k) => key_text(row@, field@) == Some(k@),
            None => key_text(row@, field@) is None,
        },
{
    match row.get(field) {
        Some(value) => Some(value.compact()),
        None => None,
    }
}

/// The keys of the right records that pass every comparison.
fn allowed_keys(rights: &[Json], right_key: &str, right_where: &[Predicate]) -> (out: Vec<String>)
    ensures
        forall|key: Seq<char>| #[trigger]
            texts(out@).contains(key) <==> exists|j: int|
                0 <= j < rights@.len() && offers(
                    #[trigger] trees(rights@)[j],
                    right_key@,
                    predicate_views(right_where@),
                    key,
                ),
{
    let ghost rs = trees(rights@);
    let ghost preds = predicate_views(right_where@);
    let mut out: Vec<String> = Vec::new();
    let mut j: usize = 0;
    assert(texts(out@) =~= Seq::empty());
    while j < rights.len()
        invariant
            j <= rights@.len(),
            rs == trees(rights@),
            preds == predicate_views(right_where@),
            forall|key: Seq<char>| #[trigger]
                texts(out@).contains(key) <==> exists|k: int|
                    0 <= k < j && offers(#[trigger] rs[k], right_key@, preds, key),
        decreases rights@.len() - j,
    {
        assert(rs[j as int] == rights@[j as int]@);
        let ghost before = texts(out@);
        if record_matches(&rights[j], right_where) {
            if let Some(key) = key_of(&rights[j], right_key) {
                let ghost added = key@;
                out.push(key);
                assert(texts(out@) =~= before.push(added));
            }
        }
        assert forall|key: Seq<char>| #[trigger]
            texts(out@).contains(key) <==> exists|k: int|
                0 <= k < j + 1 && offers(#[trigger] rs[k], right_key@, preds, key) by {
            let now = texts(out@);
            if now.contains(key) {
                let p = choose|p: int| 0 <= p < now.len() && now[p] == key;
                if p < before.len() {
                    assert(before[p] == key);
                    assert(before.contains(key));
                } else {
                    assert(offers(rs[j as int], right_key@, preds, key));
                }
            }
            if exists|k: int| 0 <= k < j + 1 && offers(#[trigger] rs[k], right_key@, preds, key) {
                let k = choose|k: int|
                    0 <= k < j + 1 && offers(#[trigger] rs[k], right_key@, preds, key);
                if k < j {
                    assert(before.contains(key));
                    let p = choose|p: int| 0 <= p < before.len() && before[p] == key;
                    assert(now[p] == key);
                } else {
                    assert(now[before.len() as int] == key);
                }
            }
        }
        j += 1;
    }
    out
}


/// The semi-join over records.
pub fn join_aggregate_rows(
    lefts: &[Json],
    rights: &[Json],
    left_key: &str,
    right_key: &str,
    right_where: &[Predicate],
    agg: &Agg,
) -> (out: Option<QueryPlan>)
    ensures
        match out {
            Some(plan) => join_answers(
                trees(lefts@),
                trees(rights@),
                left_key@,
                right_key@,
                predicate_views(right_where@),
                agg@,
                plan,
            ),
            None => aggregate(
                trees(lefts@),
                marked(
                    join_mask(
                        trees(lefts@),
                        trees(rights@),
                        left_key@,
                        right_key@,
                        predicate_views(right_where@),
                    ),
                ),
                agg@,
            ) is None,
        },
{
    let ghost ls = trees(lefts@);
    let ghost rs = trees(rights@);
    let ghost preds = predicate_views(right_where@);
    let ghost mask = join_mask(ls, rs, left_key@, right_key@, preds);
    let allowed = allowed_keys(rights, right_key, right_where);
    let mut matched: Vec<usize> = Vec::new();
    let mut i: usize = 0;
    while i < lefts.len()
        invariant
            i <= lefts@.len(),
            ls == trees(lefts@),
            rs == trees(rights@),
            preds == predicate_views(right_where@),
            mask == join_mask(ls, rs, left_key@, right_key@, preds),
            forall|key: Seq<char>| #[trigger]
                texts(allowed@).contains(key) <==> exists|j: int|
                    0 <= j < rs.len() && offers(#[trigger] rs[j], right_key@, preds, key),
            matched@ == marked(mask.take(i as int)),
        decreases lefts@.len() - i,
    {
        assert(mask.take(i as int + 1).drop_last() =~= mask.take(i as int));
        assert(ls[i as int] == lefts@[i as int]@);
        let hit = match key_of(&lefts[i], left_key) {
            Some(key) => in_list(allowed.as_slice(), key.as_str()),
            None => false,
        };
        assert(hit == mask[i as int]);
        if hit {
            matched.push(i);
        }
        i += 1;
    }
    assert(mask.take(i as int) =~= mask);
    proof {
        assert(lefts.len() == lefts@.len());
        lemma_marked_below(mask);
    }
    match apply_agg(lefts, matched.as_slice(), agg) {
        None => None,
        Some(reduction) => {
            let lead = "[index] ".to_owned().concat(agg_label(agg).as_str()).concat(
                " over left ⋉ right on ",
            ).concat(left_key).concat("=").concat(right_key).concat(
                where_clause("right.", right_where).as_str(),
            ).concat(" (").concat(decimal_of(matched.len()).as_str()).concat(
                " matched left records) = ",
            );
            Some(QueryPlan { lead, matched, reduction })
        },
    }
}

/// The semi-join of the JSON arrays in `left` and `right`: the aggregate over
/// the left records that have a right record with the same key which passes
/// every comparison. It is refused where either input is no JSON array, or
/// where the aggregate is.
pub fn join_aggregate(
    left: &[u8],
    right: &[u8],
    left_key: &str,
    right_key: &str,
    right_where: &[Predicate],
    agg: &Agg,
) -> (out: Option<QueryPlan>)
    ensures
        match out {
            Some(plan) => rows_of(left@) is Some && rows_of(right@) is Some && join_answers(
                rows_of(left@)->0,
                rows_of(right@)->0,
                left_key@,
                right_key@,
                predicate_views(right_where@),
                agg@,
                plan,
            ),
            None => rows_of(left@) is None || rows_of(right@) is None || aggregate(
                rows_of(left@)->0,
                marked(
                    join_mask(
                        rows_of(left@)->0,
                        rows_of(right@)->0,
                        left_key@,
                        right_key@,
                        predicate_views(right_where@),
                    ),
                ),
                agg@,
            ) is None,
        },
{
    match parse_rows(left) {
        None => None,
        Some(lefts) => match parse_rows(right) {
            None => None,
            Some(rights) => join_aggregate_rows(
                lefts.as_slice(),
                rights.as_slice(),
                left_key,
                right_key,
                right_where,
                agg,
            ),
        },
    }
}

/// A right key that appears many times counts a left record once: repeating the
/// right records changes nothing.
pub proof fn law_semi_join_counts_once(
    left: Tree,
    rights: Seq<Tree>,
    left_key: Seq<char>,
    right_key: Seq<char>,
    right_where: Seq<PredicateView>,
)
    ensures
        joins(left, rights + rights, left_key, right_key, right_where) == joins(
            left,
            rights,
            left_key,
            right_key,
            right_where,
        ),
{
    let twice = rights + rights;
    match key_text(left, left_key) {
        Some(key) => {
            if joins(left, rights, left_key, right_key, right_where) {
                let j = choose|j: int|
                    0 <= j < rights.len() && offers(
                        #[trigger] rights[j],
                        right_key,
                        right_where,
                        key,
                    );
                assert(twice[j] == rights[j]);
            }
            if joins(left, twice, left_key, right_key, right_where) {
                let j = choose|j: int|
                    0 <= j < twice.len() && offers(#[trigger] twice[j], right_key, right_where, key);
                if j < rights.len() {
                    assert(twice[j] == rights[j]);
                } else {
                    assert(twice[j] == rights[j - rights.len()]);
                }
            }
        },
        None => {},
    }
}

// ---------------------------------------------------------------------------
// Grouping by an attribute of the right side
// ---------------------------------------------------------------------------

/// The key and the group value of a right record that has both.
pub open spec fn key_and_group(
    right: Tree,
    right_key: Seq<char>,
    group_field: Seq<char>,
) -> Option<(Seq<char>, Seq<char>)> {
    match (key_text(right, right_key), key_text(right, group_field)) {
        (Some(k), Some(g)) => Some((k, g)),
        _ => None,
    }
}

/// The group value of a key: that of the first right record with the key.
pub open spec fn group_of(
    rights: Seq<Tree>,
    right_key: Seq<char>,
    group_field: Seq<char>,
    key: Seq<char>,
) -> Option<Seq<char>>
    decreases rights.len(),
{
    if rights.len() == 0 {
        None
    } else {
        match group_of(rights.drop_last(), right_key, group_field, key) {
            Some(g) => Some(g),
            None => match key_and_group(rights.last(), right_key, group_field) {
                Some(kg) => if kg.0 == key {
                    Some(kg.1)
                } else {
                    None
                },
                None => None,
            },
        }
    }
}

/// Every right record is an object, and no key has two group values.
pub open spec fn unambiguous(
    rights: Seq<Tree>,
    right_key: Seq<char>,
    group_field: Seq<char>,
) -> bool {
    &&& forall|j: int| 0 <= j < rights.len() ==> (#[trigger] rights[j]) is Object
    &&& forall|j: int|
        0 <= j < rights.len() ==> match key_and_group(
            #[trigger] rights[j],
            right_key,
            group_field,
        ) {
            Some(kg) => group_of(rights, right_key, group_field, kg.0) == Some(kg.1),
            None => true,
        }
}

/// For each left record the group that its key has on the right.
pub open spec fn right_groups(
    lefts: Seq<Tree>,
    rights: Seq<Tree>,
    left_key: Seq<char>,
    right_key: Seq<char>,
    group_field: Seq<char>,
) -> Seq<Option<(int, Seq<char>)>> {
    Seq::new(
        lefts.len(),
        |i: int|
            match key_text(lefts[i], left_key) {
                Some(key) => match group_of(rights, right_key, group_field, key) {
                    Some(g) => Some((0int, g)),
                    None => None,
                },
                None => None,
            },
    )
}

/// The summary line of a grouped join.
pub open spec fn group_join_text(
    agg: AggView,
    left_key: Seq<char>,
    right_key: Seq<char>,
    group_field: Seq<char>,
    groups: nat,
) -> Seq<char> {
    "[index] "@ + agg_text(agg) + " over left ⋈ right on "@ + left_key + "="@ + right_key
        + " grouped by right."@ + group_field + " -> "@ + decimal(groups) + " groups"@
}

/// The groups of a grouped join: nothing where a key has two group values on the
/// right, a right record is no object, or the aggregate of a group is refused.
pub open spec fn group_join(
    lefts: Seq<Tree>,
    rights: Seq<Tree>,
    left_key: Seq<char>,
    right_key: Seq<char>,
    group_field: Seq<char>,
    agg: AggView,
) -> Option<Seq<GroupView>> {
    if unambiguous(rights, right_key, group_field) {
        grouped(lefts, right_groups(lefts, rights, left_key, right_key, group_field), agg)
    } else {
        None
    }
}

/// The group values that were collected so far.
struct KeyGroups {
    keys: Vec<String>,
    groups: Vec<String>,
}

/// The collected values are those of the right records.
spec fn collected(
    pairs: KeyGroups,
    rights: Seq<Tree>,
    right_key: Seq<char>,
    group_field: Seq<char>,
) -> bool {
    &&& pairs.keys@.len() == pairs.groups@.len()
    &&& forall|p: int|
        0 <= p < pairs.keys@.len() ==> group_of(
            rights,
            right_key,
            group_field,
            (#[trigger] pairs.keys@[p])@,
        ) == Some(pairs.groups@[p]@)
    &&& forall|key: Seq<char>|
        (#[trigger] group_of(rights, right_key, group_field, key)) is Some ==> exists|p: int|
            0 <= p < pairs.keys@.len() && (#[trigger] pairs.keys@[p])@ == key
}

impl KeyGroups {
    /// The position of `key`; the number of keys where it is not.
    fn position(&self, key: &str) -> (at: usize)
        ensures
            at <= self.keys@.len(),
            at < self.keys@.len() ==> self.keys@[at as int]@ == key@,
            forall|k: int| 0 <= k < at ==> (#[trigger] self.keys@[k])@ != key@,
    {
        let mut i: usize = 0;
        while i < self.keys.len()
            invariant
                i <= self.keys@.len(),
                forall|k: int| 0 <= k < i ==> (#[trigger] self.keys@[k])@ != key@,
            decreases self.keys@.len() - i,
        {
            if same_text(self.keys[i].as_str(), key) {
                return i;
            }
            i += 1;
        }
        i
    }
}

proof fn lemma_group_of_stays(
    rights: Seq<Tree>,
    right_key: Seq<char>,
    group_field: Seq<char>,
    key: Seq<char>,
    n: int,
)
    requires
        0 <= n <= rights.len(),
        group_of(rights.take(n), right_key, group_field, key) is Some,
    ensures
        group_of(rights, right_key, group_field, key) == group_of(
            rights.take(n),
            right_key,
            group_field,
            key,
        ),
    decreases rights.len(),
{
    if n < rights.len() {
        assert(rights.drop_last().take(n) =~= rights.take(n));
        lemma_group_of_stays(rights.drop_last(), right_key, group_field, key, n);
    } else {
        assert(rights.take(n) =~= rights);
    }
}

/// Collects the group value of each right key; nothing where a right record is
/// no object or a key has two group values.
fn collect_groups(rights: &[Json], right_key: &str, group_field: &str) -> (out: Option<KeyGroups>)
    ensures
        match out {
            Some(pairs) => unambiguous(trees(rights@), right_key@, group_field@) && collected(
                pairs,
                trees(rights@),
                right_key@,
                group_field@,
            ),
            None => !unambiguous(trees(rights@), right_key@, group_field@),
        },
{
    let ghost rs = trees(rights@);
    let mut pairs = KeyGroups { keys: Vec::new(), groups: Vec::new() };
    let mut j: usize = 0;
    assert(rs.take(0) =~= Seq::empty());
    while j < rights.len()
        invariant
            j <= rights@.len(),
            rs == trees(rights@),
            collected(pairs, rs.take(j as int), right_key@, group_field@),
            forall|k: int| 0 <= k < j ==> (#[trigger] rs[k]) is Object,
            forall|k: int|
                0 <= k < j ==> match key_and_group(#[trigger] rs[k], right_key@, group_field@) {
                    Some(kg) => group_of(rs.take(j as int), right_key@, group_field@, kg.0) == Some(
                        kg.1,
                    ),
                    None => true,
                },
        decreases rights@.len() - j,
    {
        let ghost before = rs.take(j as int);
        let ghost now = rs.take(j as int + 1);
        assert(now.drop_last() =~= before);
        assert(now.last() == rs[j as int]);
        assert(rs[j as int] == rights@[j as int]@);
        let row = &rights[j];
        let is_object = match row {
            Json::Object(_) => true,
            _ => false,
        };
        if !is_object {
            assert(!(rs[j as int] is Object));
            return None;
        }
        let key = key_of(row, right_key);
        let group = key_of(row, group_field);
        let ghost old_pairs = pairs;
        if let Some(k) = key {
            if let Some(g) = group {
                let at = pairs.position(k.as_str());
                if at < pairs.keys.len() {
                    if !same_text(pairs.groups[at].as_str(), g.as_str()) {
                        proof {
                            assert(group_of(before, right_key@, group_field@, k@) == Some(
                                pairs.groups@[at as int]@,
                            ));
                            lemma_group_of_stays(rs, right_key@, group_field@, k@, j as int);
                            assert(key_and_group(rs[j as int], right_key@, group_field@) == Some(
                                (k@, g@),
                            ));
                        }
                        return None;
                    }
                } else {
                    proof {
                        assert(group_of(before, right_key@, group_field@, k@) is None);
                    }
                    pairs.keys.push(k);
                    pairs.groups.push(g);
                }
            }
        }
        proof {
            assert forall|key: Seq<char>| group_of(before, right_key@, group_field@, key) is Some
                implies #[trigger] group_of(now, right_key@, group_field@, key) == group_of(
                before,
                right_key@,
                group_field@,
                key,
            ) by {}
            assert forall|p: int| 0 <= p < pairs.keys@.len() implies group_of(
                now,
                right_key@,
                group_field@,
                (#[trigger] pairs.keys@[p])@,
            ) == Some(pairs.groups@[p]@) by {
                if p < old_pairs.keys@.len() {
                    assert(pairs.keys@[p] == old_pairs.keys@[p]);
                }
            }
            assert forall|key: Seq<char>|
                (#[trigger] group_of(now, right_key@, group_field@, key)) is Some implies exists|
                p: int,
            | 0 <= p < pairs.keys@.len() && (#[trigger] pairs.keys@[p])@ == key by {
                if group_of(before, right_key@, group_field@, key) is Some {
                    let p = choose|p: int|
                        0 <= p < old_pairs.keys@.len() && (#[trigger] old_pairs.keys@[p])@ == key;
                    assert(pairs.keys@[p] == old_pairs.keys@[p]);
                } else {
                    assert(pairs.keys@[old_pairs.keys@.len() as int]@ == key);
                }
            }
            assert forall|k: int| 0 <= k < j + 1 implies match key_and_group(
                #[trigger] rs[k],
                right_key@,
                group_field@,
            ) {
                Some(kg) => group_of(now, right_key@, group_field@, kg.0) == Some(kg.1),
                None => true,
            } by {
                if k < j {
                    match key_and_group(rs[k], right_key@, group_field@) {
                        Some(kg) => {
                            assert(group_of(before, right_key@, group_field@, kg.0) == Some(kg.1));
                        },
                        None => {},
                    }
                }
            }
        }
        j += 1;
    }
    assert(rs.take(j as int) =~= rs);
    Some(pairs)
}

/// The grouped join over records.
pub fn join_group_aggregate_rows(
    lefts: &[Json],
    rights: &[Json],
    left_key: &str,
    right_key: &str,
    group_field: &str,
    agg: &Agg,
) -> (out: Option<GroupPlan>)
    ensures
        match out {
            Some(plan) => {
                let found = group_join(
                    trees(lefts@),
                    trees(rights@),
                    left_key@,
                    right_key@,
                    group_field@,
                    agg@,
                );
                &&& found == Some(group_views(plan.groups@))
                &&& plan.display@ == group_join_text(
                    agg@,
                    left_key@,
                    right_key@,
                    group_field@,
                    plan.groups@.len(),
                )
            },
            None => group_join(
                trees(lefts@),
                trees(rights@),
                left_key@,
                right_key@,
                group_field@,
                agg@,
            ) is None,
        },
{
    let ghost ls = trees(lefts@);
    let ghost rs = trees(rights@);
    let pairs = match collect_groups(rights, right_key, group_field) {
        None => {
            return None;
        },
        Some(pairs) => pairs,
    };
    let ghost wanted = right_groups(ls, rs, left_key@, right_key@, group_field@);
    let mut assigned: Vec<Option<GroupKey>> = Vec::new();
    let mut i: usize = 0;
    assert(assigned_views(assigned@) =~= wanted.take(0));
    while i < lefts.len()
        invariant
            i <= lefts@.len(),
            ls == trees(lefts@),
            rs == trees(rights@),
            collected(pairs, rs, right_key@, group_field@),
            wanted == right_groups(ls, rs, left_key@, right_key@, group_field@),
            assigned@.len() == i,
            assigned_views(assigned@) == wanted.take(i as int),
        decreases lefts@.len() - i,
    {
        assert(ls[i as int] == lefts@[i as int]@);
        let group: Option<GroupKey> = match key_of(&lefts[i], left_key) {
            None => None,
            Some(key) => {
                let at = pairs.position(key.as_str());
                if at < pairs.keys.len() {
                    Some(GroupKey { weight: 0, key: pairs.groups[at].clone() })
                } else {
                    assert(group_of(rs, right_key@, group_field@, key@) is None);
                    None
                }
            },
        };
        let ghost before = assigned_views(assigned@);
        let ghost entry = group_key_view(group);
        assigned.push(group);
        assert(assigned_views(assigned@) =~= before.push(entry));
        assert(entry == wanted[i as int]);
        assert(wanted.take(i as int + 1) =~= wanted.take(i as int).push(wanted[i as int]));
        i += 1;
    }
    assert(wanted.take(i as int) =~= wanted);
    match finish_groups(lefts, assigned.as_slice(), agg) {
        None => None,
        Some(groups) => {
            let display = "[index] ".to_owned().concat(agg_label(agg).as_str()).concat(
                " over left ⋈ right on ",
            ).concat(left_key).concat("=").concat(right_key).concat(" grouped by right.").concat(
                group_field,
            ).concat(" -> ").concat(decimal_of(groups.len()).as_str()).concat(" groups");
            Some(GroupPlan { display, groups })
        },
    }
}

/// The grouped join of the JSON arrays in `left` and `right`: the left records
/// that join, grouped by an attribute of the right side. It is refused where
/// either input is no JSON array, where a key has two group values on the right,
/// or where an aggregate is refused.
pub fn join_group_aggregate(
    left: &[u8],
    right: &[u8],
    left_key: &str,
    right_key: &str,
    group_field: &str,
    agg: &Agg,
) -> (out: Option<GroupPlan>)
    ensures
        match out {
            Some(plan) => {
                &&& rows_of(left@) is Some
                &&& rows_of(right@) is Some
                &&& group_join(
                    rows_of(left@)->0,
                    rows_of(right@)->0,
                    left_key@,
                    right_key@,
                    group_field@,
                    agg@,
                ) == Some(group_views(plan.groups@))
                &&& plan.display@ == group_join_text(
                    agg@,
                    left_key@,
                    right_key@,
                    group_field@,
                    plan.groups@.len(),
                )
            },
            None => rows_of(left@) is None || rows_of(right@) is None || group_join(
                rows_of(left@)->0,
                rows_of(right@)->0,
                left_key@,
                right_key@,
                group_field@,
                agg@,
            ) is None,
        },
{
    match parse_rows(left) {
        None => None,
        Some(lefts) => match parse_rows(right) {
            None => None,
            Some(rights) => join_group_aggregate_rows(
                lefts.as_slice(),
                rights.as_slice(),
                left_key,
                right_key,
                group_field,
                agg,
            ),
        },
    }
}

proof fn lemma_group_of_some(
    rights: Seq<Tree>,
    right_key: Seq<char>,
    group_field: Seq<char>,
    key: Seq<char>,
)
    ensures
        group_of(rights, right_key, group_field, key) is Some <==> exists|j: int|
            0 <= j < rights.len() && offers_group(
                #[trigger] rights[j],
                right_key,
                group_field,
                key,
            ),
        group_of(rights, right_key, group_field, key) is Some ==> exists|j: int|
            0 <= j < rights.len() && key_and_group(#[trigger] rights[j], right_key, group_field)
                == Some((key, group_of(rights, right_key, group_field, key)->0)),
    decreases rights.len(),
{
    if rights.len() > 0 {
        let before = rights.drop_last();
        lemma_group_of_some(before, right_key, group_field, key);
        assert(forall|j: int| 0 <= j < before.len() ==> #[trigger] before[j] == rights[j]);
        if group_of(before, right_key, group_field, key) is Some {
            let j = choose|j: int|
                0 <= j < before.len() && key_and_group(
                    #[trigger] before[j],
                    right_key,
                    group_field,
                ) == Some((key, group_of(before, right_key, group_field, key)->0));
            assert(rights[j] == before[j]);
        } else {
            let last = rights.len() - 1;
            assert(rights[last] == rights.last());
            assert forall|j: int| 0 <= j < rights.len() && offers_group(
                #[trigger] rights[j],
                right_key,
                group_field,
                key,
            ) implies j == last by {
                if j < last {
                    assert(before[j] == rights[j]);
                }
            }
        }
    }
}

/// The right record has the key, and a group value.
pub open spec fn offers_group(
    right: Tree,
    right_key: Seq<char>,
    group_field: Seq<char>,
    key: Seq<char>,
) -> bool {
    match key_and_group(right, right_key, group_field) {
        Some(kg) => kg.0 == key,
        None => false,
    }
}

/// Where every right record with a key has a group value, the groups of a join
/// cover exactly the left records that the join without a filter counts, and
/// where they all have the same value, the one group is that join.
pub proof fn law_groups_cover_the_semi_join(
    lefts: Seq<Tree>,
    rights: Seq<Tree>,
    left_key: Seq<char>,
    right_key: Seq<char>,
    group_field: Seq<char>,
    value: Seq<char>,
)
    requires
        forall|j: int|
            0 <= j < rights.len() && key_text(#[trigger] rights[j], right_key) is Some
                ==> key_text(rights[j], group_field) is Some,
    ensures
        forall|i: int|
            0 <= i < lefts.len() ==> ((#[trigger] right_groups(
                lefts,
                rights,
                left_key,
                right_key,
                group_field,
            )[i]) is Some <==> joins(lefts[i], rights, left_key, right_key, Seq::empty())),
        (forall|j: int|
            0 <= j < rights.len() && key_text(#[trigger] rights[j], group_field) is Some
                ==> key_text(rights[j], group_field) == Some(value)) ==> members(
            right_groups(lefts, rights, left_key, right_key, group_field),
            value,
        ) == marked(join_mask(lefts, rights, left_key, right_key, Seq::empty())),
{
    let groups = right_groups(lefts, rights, left_key, right_key, group_field);
    let none = Seq::<PredicateView>::empty();
    assert forall|i: int| 0 <= i < lefts.len() implies ((#[trigger] groups[i]) is Some <==> joins(
        lefts[i],
        rights,
        left_key,
        right_key,
        none,
    )) by {
        if key_text(lefts[i], left_key) is Some {
            let key = key_text(lefts[i], left_key)->0;
            lemma_group_of_some(rights, right_key, group_field, key);
            if groups[i] is Some {
                let j = choose|j: int|
                    0 <= j < rights.len() && offers_group(
                        #[trigger] rights[j],
                        right_key,
                        group_field,
                        key,
                    );
                assert(offers(rights[j], right_key, none, key));
            }
            if joins(lefts[i], rights, left_key, right_key, none) {
                let j = choose|j: int|
                    0 <= j < rights.len() && offers(#[trigger] rights[j], right_key, none, key);
                assert(offers_group(rights[j], right_key, group_field, key));
            }
        }
    }
    if forall|j: int|
        0 <= j < rights.len() && key_text(#[trigger] rights[j], group_field) is Some ==> key_text(
            rights[j],
            group_field,
        ) == Some(value) {
        let mask = join_mask(lefts, rights, left_key, right_key, none);
        assert forall|i: int| 0 <= i < lefts.len() implies member_mask(groups, value)[i]
            == #[trigger] mask[i] by {
            assert(groups[i] is Some <==> joins(lefts[i], rights, left_key, right_key, none));
            if groups[i] is Some {
                let key = key_text(lefts[i], left_key)->0;
                lemma_group_of_some(rights, right_key, group_field, key);
            }
        }
        assert(member_mask(groups, value) =~= mask);
    }
}

// ---------------------------------------------------------------------------
// What a join is
// ---------------------------------------------------------------------------

/// A right record passes every comparison, and the whole text of its key is that
/// of the left record's key.
pub open spec fn pairs_up(
    left: Tree,
    right: Tree,
    left_key: Seq<char>,
    right_key: Seq<char>,
    right_where: Seq<PredicateView>,
) -> bool {
    &&& left.get(left_key) is Some
    &&& right.get(right_key) is Some
    &&& compact(left.get(left_key)->0) == compact(right.get(right_key)->0)
    &&& forall|k: int|
        0 <= k < right_where.len() ==> right.get((#[trigger] right_where[k]).field) is Some
            && passes(
            right.get(right_where[k].field)->0,
            right_where[k].op,
            right_where[k].value,
        )
}

/// A left record is joined exactly if some right record that passes every
/// comparison has the same key, by its whole text; the aggregate is over all of
/// them.
pub proof fn law_join_is_by_whole_keys(
    lefts: Seq<Tree>,
    rights: Seq<Tree>,
    left_key: Seq<char>,
    right_key: Seq<char>,
    right_where: Seq<PredicateView>,
    agg: AggView,
    plan: QueryPlan,
    i: int,
)
    requires
        lefts.len() <= usize::MAX,
        join_answers(lefts, rights, left_key, right_key, right_where, agg, plan),
        0 <= i < lefts.len(),
    ensures
        plan.matched@.contains(i as usize) <==> exists|j: int|
            0 <= j < rights.len() && lefts[i].get(left_key) is Some && (#[trigger] rights[j]).get(
                right_key,
            ) is Some && compact(lefts[i].get(left_key)->0) == compact(rights[j].get(right_key)->0)
                && forall|k: int|
                0 <= k < right_where.len() ==> rights[j].get((#[trigger] right_where[k]).field)
                    is Some && passes(
                    rights[j].get(right_where[k].field)->0,
                    right_where[k].op,
                    right_where[k].value,
                ),
        forall|j: int, k: int|
            0 <= j < k < plan.matched@.len() ==> (#[trigger] plan.matched@[j]) < (
            #[trigger] plan.matched@[k]) < lefts.len(),
        aggregate(lefts, plan.matched@, agg) == Some(plan.reduction@),
        (" ("@ + decimal(plan.matched@.len()) + " matched left records) = "@).is_suffix_of(
            plan.lead@,
        ),
{
    let mask = join_mask(lefts, rights, left_key, right_key, right_where);
    law_marked(mask);
    assert(mask[i] == joins(lefts[i], rights, left_key, right_key, right_where));
    lemma_joins(lefts[i], rights, left_key, right_key, right_where);
    let tail = " ("@ + decimal(plan.matched@.len()) + " matched left records) = "@;
    let head = "[index] "@ + agg_text(agg) + " over left ⋉ right on "@ + left_key + "="@ + right_key
        + where_text("right."@, right_where);
    assert(plan.lead@ =~= head + tail);
    assert(tail =~= plan.lead@.subrange(head.len() as int, plan.lead@.len() as int));
}

proof fn lemma_joins(
    left: Tree,
    rights: Seq<Tree>,
    left_key: Seq<char>,
    right_key: Seq<char>,
    right_where: Seq<PredicateView>,
)
    ensures
        joins(left, rights, left_key, right_key, right_where) <==> exists|j: int|
            0 <= j < rights.len() && pairs_up(
                left,
                #[trigger] rights[j],
                left_key,
                right_key,
                right_where,
            ),
{
    assert forall|j: int| 0 <= j < rights.len() && left.get(left_key) is Some implies (pairs_up(
        left,
        #[trigger] rights[j],
        left_key,
        right_key,
        right_where,
    ) <==> offers(rights[j], right_key, right_where, compact(left.get(left_key)->0))) by {
        law_matching(rights[j], right_where);
    }
    if joins(left, rights, left_key, right_key, right_where) {
        let key = key_text(left, left_key)->0;
        let j = choose|j: int|
            0 <= j < rights.len() && offers(#[trigger] rights[j], right_key, right_where, key);
        assert(pairs_up(left, rights[j], left_key, right_key, right_where));
    }
}

/// Two records with string keys join exactly if the strings are equal and the
/// right record passes every comparison.
pub proof fn law_string_keys_join_if_equal(
    left: Tree,
    right: Tree,
    left_key: Seq<char>,
    right_key: Seq<char>,
    right_where: Seq<PredicateView>,
    x: Seq<char>,
    y: Seq<char>,
)
    requires
        left.get(left_key) == Some(Tree::Text(x)),
        right.get(right_key) == Some(Tree::Text(y)),
    ensures
        joins(left, seq![right], left_key, right_key, right_where) <==> x == y && forall|k: int|
            0 <= k < right_where.len() ==> right.get((#[trigger] right_where[k]).field) is Some
                && passes(
                right.get(right_where[k].field)->0,
                right_where[k].op,
                right_where[k].value,
            ),
{
    lemma_joins(left, seq![right], left_key, right_key, right_where);
    law_strings_are_told_apart(x, y);
    assert(seq![right][0] == right);
}

/// A grouped join puts a left record into the group of the right records with
/// its key: it is in one exactly if some right record has the key and a group,
/// both by their whole texts, and then in that of every such record. Where the
/// right records with one key have several groups, or one of them is no object,
/// the join is refused.
pub proof fn law_grouped_join(
    lefts: Seq<Tree>,
    rights: Seq<Tree>,
    left_key: Seq<char>,
    right_key: Seq<char>,
    group_field: Seq<char>,
    i: int,
    j: int,
)
    requires
        0 <= i < lefts.len(),
        0 <= j < rights.len(),
    ensures
        unambiguous(rights, right_key, group_field) <==> (forall|a: int|
            0 <= a < rights.len() ==> (#[trigger] rights[a]) is Object) && (forall|a: int, b: int|
            0 <= a < rights.len() && 0 <= b < rights.len() && (#[trigger] rights[a]).get(
                right_key,
            ) is Some && rights[a].get(group_field) is Some && (#[trigger] rights[b]).get(
                right_key,
            ) is Some && rights[b].get(group_field) is Some && compact(rights[a].get(right_key)->0)
                == compact(rights[b].get(right_key)->0) ==> compact(rights[a].get(group_field)->0)
                == compact(rights[b].get(group_field)->0)),
        unambiguous(rights, right_key, group_field) && lefts[i].get(left_key) is Some
            && rights[j].get(right_key) is Some && rights[j].get(group_field) is Some && compact(
            lefts[i].get(left_key)->0,
        ) == compact(rights[j].get(right_key)->0) ==> right_groups(
            lefts,
            rights,
            left_key,
            right_key,
            group_field,
        )[i] == Some((0int, compact(rights[j].get(group_field)->0))),
        right_groups(lefts, rights, left_key, right_key, group_field)[i] is Some ==> exists|b: int|
            0 <= b < rights.len() && lefts[i].get(left_key) is Some && (#[trigger] rights[b]).get(
                right_key,
            ) is Some && rights[b].get(group_field) is Some && compact(lefts[i].get(left_key)->0)
                == compact(rights[b].get(right_key)->0),
{
    assert forall|a: int| 0 <= a < rights.len() implies (match key_and_group(
        #[trigger] rights[a],
        right_key,
        group_field,
    ) {
        Some(kg) => rights[a].get(right_key) is Some && rights[a].get(group_field) is Some && kg.0
            == compact(rights[a].get(right_key)->0) && kg.1 == compact(
            rights[a].get(group_field)->0,
        ),
        None => rights[a].get(right_key) is None || rights[a].get(group_field) is None,
    }) by {}
    let same = forall|a: int, b: int|
        0 <= a < rights.len() && 0 <= b < rights.len() && (#[trigger] rights[a]).get(
            right_key,
        ) is Some && rights[a].get(group_field) is Some && (#[trigger] rights[b]).get(
            right_key,
        ) is Some && rights[b].get(group_field) is Some && compact(rights[a].get(right_key)->0)
            == compact(rights[b].get(right_key)->0) ==> compact(rights[a].get(group_field)->0)
            == compact(rights[b].get(group_field)->0);
    if unambiguous(rights, right_key, group_field) {
        assert forall|a: int, b: int|
            0 <= a < rights.len() && 0 <= b < rights.len() && (#[trigger] rights[a]).get(
                right_key,
            ) is Some && rights[a].get(group_field) is Some && (#[trigger] rights[b]).get(
                right_key,
            ) is Some && rights[b].get(group_field) is Some && compact(rights[a].get(right_key)->0)
                == compact(rights[b].get(right_key)->0) implies compact(
            rights[a].get(group_field)->0,
        ) == compact(rights[b].get(group_field)->0) by {
            assert(key_and_group(rights[a], right_key, group_field) is Some);
            assert(key_and_group(rights[b], right_key, group_field) is Some);
        }
    }
    if same && (forall|a: int| 0 <= a < rights.len() ==> (#[trigger] rights[a]) is Object) {
        assert forall|a: int| 0 <= a < rights.len() implies (match key_and_group(
            #[trigger] rights[a],
            right_key,
            group_field,
        ) {
            Some(kg) => group_of(rights, right_key, group_field, kg.0) == Some(kg.1),
            None => true,
        }) by {
            match key_and_group(rights[a], right_key, group_field) {
                Some(kg) => {
                    lemma_group_of_some(rights, right_key, group_field, kg.0);
                    assert(offers_group(rights[a], right_key, group_field, kg.0));
                    let b = choose|b: int|
                        0 <= b < rights.len() && key_and_group(
                            #[trigger] rights[b],
                            right_key,
                            group_field,
                        ) == Some((kg.0, group_of(rights, right_key, group_field, kg.0)->0));
                    assert(rights[b].get(right_key) is Some);
                },
                None => {},
            }
        }
    }
    if lefts[i].get(left_key) is Some {
        let key = compact(lefts[i].get(left_key)->0);
        lemma_group_of_some(rights, right_key, group_field, key);
        if right_groups(lefts, rights, left_key, right_key, group_field)[i] is Some {
            let b = choose|b: int|
                0 <= b < rights.len() && offers_group(
                    #[trigger] rights[b],
                    right_key,
                    group_field,
                    key,
                );
            assert(rights[b].get(right_key) is Some);
        }
        if unambiguous(rights, right_key, group_field) && rights[j].get(right_key) is Some
            && rights[j].get(group_field) is Some && key == compact(rights[j].get(right_key)->0) {
            assert(key_and_group(rights[j], right_key, group_field) == Some(
                (key, compact(rights[j].get(group_field)->0)),
            ));
        }
    }
}

/// A join by groups is the aggregate by the right records' group values, if each
/// key has one; its line and that of a join without groups name the keys.
pub proof fn law_join_lines(
    lefts: Seq<Tree>,
    rights: Seq<Tree>,
    left_key: Seq<char>,
    right_key: Seq<char>,
    group_field: Seq<char>,
    right_where: Seq<PredicateView>,
    agg: AggView,
    n: nat,
)
    ensures
        !unambiguous(rights, right_key, group_field) ==> group_join(
            lefts,
            rights,
            left_key,
            right_key,
            group_field,
            agg,
        ) is None,
        unambiguous(rights, right_key, group_field) ==> group_join(
            lefts,
            rights,
            left_key,
            right_key,
            group_field,
            agg,
        ) == grouped(lefts, right_groups(lefts, rights, left_key, right_key, group_field), agg),
        right_groups(lefts, rights, left_key, right_key, group_field).len() == lefts.len(),
        join_text(agg, left_key, right_key, right_where, n) == "[index] "@ + agg_text(agg)
            + " over left ⋉ right on "@ + left_key + "="@ + right_key + where_text(
            "right."@,
            right_where,
        ) + " ("@ + decimal(n) + " matched left records) = "@,
        group_join_text(agg, left_key, right_key, group_field, n) == "[index] "@ + agg_text(agg)
            + " over left ⋈ right on "@ + left_key + "="@ + right_key + " grouped by right."@
            + group_field + " -> "@ + decimal(n) + " groups"@,
{
}

} // verus!
