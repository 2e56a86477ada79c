//! Sorting by a weight and, among equal weights, by a text.
use crate::text::{chars_lt, lemma_text_lt_total, lemma_text_lt_trans, text_lt};
use vstd::prelude::*;

verus! {

/// What an item is sorted by.
pub struct SortKey {
    /// The smaller weight comes first.
    pub weight: i128,
    /// Among equal weights the smaller text comes first.
    pub text: Vec<char>,
}

impl View for SortKey {
    type V = (int, Seq<char>);

    open spec fn view(&self) -> (int, Seq<char>) {
        (self.weight as int, self.text@)
    }
}

/// The keys as plain values.
pub open spec fn key_views(keys: Seq<SortKey>) -> Seq<(int, Seq<char>)> {
    Seq::new(keys.len(), |i: int| keys[i]@)
}

/// `a` comes strictly before `b`.
pub open spec fn comes_before(a: (int, Seq<char>), b: (int, Seq<char>)) -> bool {
    a.0 < b.0 || (a.0 == b.0 && text_lt(a.1, b.1))
}

/// A sorted list of item numbers with `i` put in, after the items that it does
/// not come before.
pub open spec fn put_in(keys: Seq<(int, Seq<char>)>, order: Seq<int>, i: int) -> Seq<int>
    decreases order.len(),
{
    if order.len() == 0 {
        seq![i]
    } else if comes_before(keys[i], keys[order.last()]) {
        put_in(keys, order.drop_last(), i).push(order.last())
    } else {
        order.push(i)
    }
}

/// The numbers of the first `n` items in sorted order. Items with equal keys
/// stay in the order they have.
pub open spec fn sorted_first(keys: Seq<(int, Seq<char>)>, n: nat) -> Seq<int>
    decreases n,
{
    if n == 0 {
        Seq::empty()
    } else {
        put_in(keys, sorted_first(keys, (n - 1) as nat), n - 1)
    }
}

/// The numbers of the items in sorted order.
pub open spec fn sorted_order(keys: Seq<(int, Seq<char>)>) -> Seq<int> {
    sorted_first(keys, keys.len())
}

/// The list of numbers is sorted by their keys.
pub open spec fn in_order(keys: Seq<(int, Seq<char>)>, order: Seq<int>) -> bool {
    forall|a: int, b: int|
        0 <= a < b < order.len() ==> !comes_before(
            keys[#[trigger] order[b]],
            keys[#[trigger] order[a]],
        )
}

proof fn lemma_comes_before(a: (int, Seq<char>), b: (int, Seq<char>), c: (int, Seq<char>))
    ensures
        comes_before(a, b) && comes_before(b, c) ==> comes_before(a, c),
        !comes_before(b, a) && !comes_before(c, b) ==> !comes_before(c, a),
        !(comes_before(a, b) && comes_before(b, a)),
{
    lemma_text_lt_total(a.1, b.1);
    lemma_text_lt_total(b.1, c.1);
    lemma_text_lt_total(a.1, c.1);
    if text_lt(a.1, b.1) && text_lt(b.1, c.1) {
        lemma_text_lt_trans(a.1, b.1, c.1);
    }
    if text_lt(c.1, a.1) && text_lt(a.1, b.1) {
        lemma_text_lt_trans(c.1, a.1, b.1);
    }
    if text_lt(b.1, c.1) && text_lt(c.1, a.1) {
        lemma_text_lt_trans(b.1, c.1, a.1);
    }
}

proof fn lemma_put_in(keys: Seq<(int, Seq<char>)>, order: Seq<int>, i: int)
    requires
        in_order(keys, order),
    ensures
        put_in(keys, order, i).len() == order.len() + 1,
        in_order(keys, put_in(keys, order, i)),
        put_in(keys, order, i).to_multiset() == order.to_multiset().insert(i),
    decreases order.len(),
{
    broadcast use vstd::seq_lib::group_to_multiset_ensures;

    let out = put_in(keys, order, i);
    if order.len() == 0 {
        assert(out =~= order.push(i));
    } else {
        let before = order.drop_last();
        let last = order.last();
        assert(order =~= before.push(last));
        assert forall|a: int, b: int| 0 <= a < b < before.len() implies !comes_before(
            keys[#[trigger] before[b]],
            keys[#[trigger] before[a]],
        ) by {
            assert(before[b] == order[b]);
            assert(before[a] == order[a]);
        }
        if comes_before(keys[i], keys[last]) {
            lemma_put_in(keys, before, i);
            let inner = put_in(keys, before, i);
            assert(out == inner.push(last));
            assert(order.to_multiset() =~= before.to_multiset().insert(last));
            assert(out.to_multiset() =~= inner.to_multiset().insert(last));
            assert(out.to_multiset() =~= order.to_multiset().insert(i));
            assert forall|a: int, b: int| 0 <= a < b < out.len() implies !comes_before(
                keys[#[trigger] out[b]],
                keys[#[trigger] out[a]],
            ) by {
                if b < inner.len() {
                    assert(out[b] == inner[b]);
                    assert(out[a] == inner[a]);
                } else {
                    assert(out[b] == last);
                    assert(inner.contains(out[a])) by {
                        assert(inner[a] == out[a]);
                    }
                    assert(inner.to_multiset().count(out[a]) > 0);
                    lemma_comes_before(keys[i], keys[last], keys[i]);
                    if out[a] != i {
                        assert(before.to_multiset().count(out[a]) > 0);
                        assert(before.contains(out[a]));
                        let k = choose|k: int| 0 <= k < before.len() && before[k] == out[a];
                        assert(order[k] == out[a]);
                        assert(order[order.len() - 1] == last);
                    }
                }
            }
        } else {
            assert forall|a: int, b: int| 0 <= a < b < out.len() implies !comes_before(
                keys[#[trigger] out[b]],
                keys[#[trigger] out[a]],
            ) by {
                if b < order.len() {
                    assert(out[b] == order[b]);
                    assert(out[a] == order[a]);
                } else {
                    assert(out[b] == i);
                    assert(out[a] == order[a]);
                    if a < order.len() - 1 {
                        assert(!comes_before(keys[order[order.len() - 1]], keys[order[a]]));
                        lemma_comes_before(keys[order[a]], keys[last], keys[i]);
                    }
                }
            }
        }
    }
}

/// The sorted order is sorted, and it holds the number of every item once.
pub proof fn law_sorted_order(keys: Seq<(int, Seq<char>)>, n: nat)
    requires
        n <= keys.len(),
    ensures
        sorted_first(keys, n).len() == n,
        in_order(keys, sorted_first(keys, n)),
        sorted_first(keys, n).to_multiset() == Seq::new(n, |i: int| i).to_multiset(),
        forall|k: int| 0 <= k < n ==> 0 <= #[trigger] sorted_first(keys, n)[k] < n,
    decreases n,
{
    broadcast use vstd::seq_lib::group_to_multiset_ensures;

    if n > 0 {
        let m = (n - 1) as nat;
        law_sorted_order(keys, m);
        lemma_put_in(keys, sorted_first(keys, m), n - 1);
        assert(Seq::new(n, |i: int| i) =~= Seq::new(m, |i: int| i).push(n - 1));
    } else {
        assert(Seq::new(n, |i: int| i) =~= Seq::<int>::empty());
    }
    let order = sorted_first(keys, n);
    let plain = Seq::new(n, |i: int| i);
    assert forall|k: int| 0 <= k < n implies 0 <= #[trigger] order[k] < n by {
        assert(order.contains(order[k]));
        assert(order.to_multiset().count(order[k]) > 0);
        assert(plain.to_multiset().count(order[k]) > 0);
        assert(plain.contains(order[k]));
        let at = choose|at: int| 0 <= at < plain.len() && plain[at] == order[k];
    }
}

fn key_before(a: &SortKey, b: &SortKey) -> (r: bool)
    ensures
        r == comes_before(a@, b@),
{
    a.weight < b.weight || (a.weight == b.weight && chars_lt(&a.text, &b.text))
}

/// The list as integers.
pub open spec fn ints(order: Seq<usize>) -> Seq<int> {
    Seq::new(order.len(), |i: int| order[i] as int)
}

/// The numbers of the items in sorted order.
pub fn sorted_order_of(keys: &[SortKey]) -> (order: Vec<usize>)
    ensures
        ints(order@) == sorted_order(key_views(keys@)),
        order@.len() == keys@.len(),
        forall|k: int| 0 <= k < order@.len() ==> (#[trigger] order@[k]) < keys@.len(),
{
    let ghost views = key_views(keys@);
    let mut order: Vec<usize> = Vec::new();
    let mut i: usize = 0;
    assert(ints(order@) =~= Seq::empty());
    while i < keys.len()
        invariant
            i <= keys@.len(),
            views == key_views(keys@),
            order@.len() == i,
            ints(order@) == sorted_first(views, i as nat),
            forall|k: int| 0 <= k < order@.len() ==> (#[trigger] order@[k]) < i,
        decreases keys@.len() - i,
    {
        let ghost all = ints(order@);
        let mut p: usize = order.len();
        assert(all.take(p as int) =~= all);
        assert(put_in(views, all.take(p as int), i as int) + all.skip(p as int) =~= put_in(
            views,
            all,
            i as int,
        ));
        while p > 0 && key_before(&keys[i], &keys[order[p - 1]])
            invariant
                i < keys@.len(),
                views == key_views(keys@),
                order@.len() == i,
                all == ints(order@),
                p <= order@.len(),
                forall|k: int| 0 <= k < order@.len() ==> (#[trigger] order@[k]) < i,
                put_in(views, all.take(p as int), i as int) + all.skip(p as int) == put_in(
                    views,
                    all,
                    i as int,
                ),
            decreases p,
        {
            let ghost front = all.take(p as int);
            assert(front.last() == order@[p - 1] as int);
            assert(views[i as int] == keys@[i as int]@);
            assert(views[front.last()] == keys@[order@[p - 1] as int]@);
            assert(front.drop_last() =~= all.take(p - 1));
            assert(put_in(views, all.take(p - 1), i as int) + all.skip(p - 1) =~= put_in(
                views,
                front,
                i as int,
            ) + all.skip(p as int));
            p -= 1;
        }
        let ghost front = all.take(p as int);
        proof {
            if p > 0 {
                assert(front.last() == order@[p - 1] as int);
                assert(views[i as int] == keys@[i as int]@);
                assert(views[front.last()] == keys@[order@[p - 1] as int]@);
            } else {
                assert(front =~= Seq::empty());
            }
            assert(put_in(views, front, i as int) =~= front.push(i as int));
        }
        let ghost held = order@;
        order.insert(p, i);
        assert(ints(order@) =~= front.push(i as int) + all.skip(p as int));
        assert forall|k: int| 0 <= k < order@.len() implies (#[trigger] order@[k]) < i + 1 by {
            if k < p {
                assert(order@[k] == held[k]);
            } else if k > p {
                assert(order@[k] == held[k - 1]);
            }
        }
        i += 1;
    }
    order
}

/// What a sorting is: every number below the length stands in it once, a smaller
/// weight before a larger one, of equal weights the lesser text first, and of
/// equal keys the earlier one first.
pub proof fn law_sorting(keys: Seq<(int, Seq<char>)>)
    ensures
        sorted_order(keys).len() == keys.len(),
        sorted_order(keys).no_duplicates(),
        forall|i: int| 0 <= i < keys.len() ==> #[trigger] sorted_order(keys).contains(i),
        forall|k: int| 0 <= k < keys.len() ==> 0 <= #[trigger] sorted_order(keys)[k] < keys.len(),
        forall|a: int, b: int|
            0 <= a < b < keys.len() ==> {
                let x = #[trigger] sorted_order(keys)[a];
                let y = #[trigger] sorted_order(keys)[b];
                ||| keys[x].0 < keys[y].0
                ||| keys[x].0 == keys[y].0 && text_lt(keys[x].1, keys[y].1)
                ||| keys[x] == keys[y] && x < y
            },
{
    let n = keys.len();
    let order = sorted_order(keys);
    law_sorted_order(keys, n);
    lemma_stable(keys, n);
    let all = Seq::new(n, |i: int| i);
    assert(all.no_duplicates());
    all.lemma_multiset_has_no_duplicates();
    assert(order.to_multiset() == all.to_multiset());
    order.lemma_multiset_has_no_duplicates_conv();
    broadcast use vstd::seq_lib::group_to_multiset_ensures;

    assert forall|i: int| 0 <= i < n implies #[trigger] order.contains(i) by {
        assert(all[i] == i);
        assert(all.contains(i));
        assert(all.to_multiset().count(i) > 0);
        assert(order.to_multiset().count(i) > 0);
    }
    assert forall|a: int, b: int| 0 <= a < b < n implies ({
        let x = #[trigger] order[a];
        let y = #[trigger] order[b];
        ||| keys[x].0 < keys[y].0
        ||| keys[x].0 == keys[y].0 && text_lt(keys[x].1, keys[y].1)
        ||| keys[x] == keys[y] && x < y
    }) by {
        let x = order[a];
        let y = order[b];
        assert(!comes_before(keys[y], keys[x]));
        crate::text::lemma_text_lt_total(keys[x].1, keys[y].1);
        if keys[x].0 == keys[y].0 && keys[x].1 == keys[y].1 {
            assert(keys[x] == keys[y]);
            assert(x < y);
        }
    }
}

proof fn lemma_put_in_stable(keys: Seq<(int, Seq<char>)>, order: Seq<int>, i: int)
    requires
        in_order(keys, order),
        forall|k: int| 0 <= k < order.len() ==> (#[trigger] order[k]) < i,
        forall|a: int, b: int|
            0 <= a < b < order.len() && keys[#[trigger] order[a]] == keys[#[trigger] order[b]]
                ==> order[a] < order[b],
    ensures
        forall|k: int| 0 <= k < put_in(keys, order, i).len() ==> (#[trigger] put_in(
            keys,
            order,
            i,
        )[k]) <= i,
        forall|a: int, b: int|
            0 <= a < b < put_in(keys, order, i).len() && keys[#[trigger] put_in(keys, order, i)[a]]
                == keys[#[trigger] put_in(keys, order, i)[b]] ==> put_in(keys, order, i)[a]
                < put_in(keys, order, i)[b],
    decreases order.len(),
{
    if order.len() > 0 && comes_before(keys[i], keys[order.last()]) {
        let before = order.drop_last();
        assert(forall|k: int| 0 <= k < before.len() ==> #[trigger] before[k] == order[k]);
        lemma_put_in_stable(keys, before, i);
        lemma_put_in(keys, before, i);
        let inner = put_in(keys, before, i);
        let out = put_in(keys, order, i);
        assert(out =~= inner.push(order.last()));
        assert forall|a: int, b: int|
            0 <= a < b < out.len() && keys[#[trigger] out[a]] == keys[#[trigger] out[b]]
            implies out[a] < out[b] by {
            if b < inner.len() {
                assert(inner[a] == out[a] && inner[b] == out[b]);
            } else {
                assert(out[b] == order.last());
                assert(out[a] == inner[a]);
                // The new one comes strictly before the last, so it is not equal to it.
                if out[a] != i {
                    broadcast use vstd::seq_lib::group_to_multiset_ensures;

                    assert(inner.to_multiset().count(out[a]) > 0) by {
                        assert(inner.contains(inner[a]));
                    }
                    assert(before.to_multiset().count(out[a]) > 0);
                    assert(before.contains(out[a]));
                    let k = choose|k: int| 0 <= k < before.len() && before[k] == out[a];
                    assert(order[k] == out[a]);
                    assert(order[order.len() - 1] == order.last());
                } else {
                    lemma_comes_before(keys[i], keys[order.last()], keys[i]);
                }
            }
        }
    } else {
        let out = put_in(keys, order, i);
        assert(order.len() == 0 ==> order.push(i) =~= seq![i]);
        assert(out =~= order.push(i));
        assert forall|a: int, b: int|
            0 <= a < b < out.len() && keys[#[trigger] out[a]] == keys[#[trigger] out[b]]
            implies out[a] < out[b] by {
            assert(out[a] == order[a]);
            if b < order.len() {
                assert(out[b] == order[b]);
            }
        }
    }
}

proof fn lemma_stable(keys: Seq<(int, Seq<char>)>, n: nat)
    requires
        n <= keys.len(),
    ensures
        forall|k: int| 0 <= k < sorted_first(keys, n).len() ==> (#[trigger] sorted_first(
            keys,
            n,
        )[k]) < n,
        forall|a: int, b: int|
            0 <= a < b < sorted_first(keys, n).len() && keys[#[trigger] sorted_first(keys, n)[a]]
                == keys[#[trigger] sorted_first(keys, n)[b]] ==> sorted_first(keys, n)[a]
                < sorted_first(keys, n)[b],
    decreases n,
{
    if n > 0 {
        let m = (n - 1) as nat;
        lemma_stable(keys, m);
        law_sorted_order(keys, m);
        lemma_put_in_stable(keys, sorted_first(keys, m), m as int);
    }
}

/// Keys are sorted by their weight and text, every one.
pub proof fn law_key_views(keys: Seq<SortKey>, order: Seq<usize>, i: int)
    ensures
        key_views(keys).len() == keys.len(),
        0 <= i < keys.len() ==> key_views(keys)[i] == (keys[i].weight as int, keys[i].text@),
        ints(order).len() == order.len(),
        0 <= i < order.len() ==> ints(order)[i] == order[i],
{
}

} // verus!
