//! Stable ranking of a list by an order.

use vstd::prelude::*;
use vstd::seq_lib::*;

verus! {

/// An order on the items of a list, as a type without values.
pub trait Order<T: View> {
    /// Whether the first item is to stand ahead of the second one.
    spec fn ahead(a: T::V, b: T::V) -> bool;

    /// Decides [`Order::ahead`].
    fn is_ahead(a: &T, b: &T) -> (r: bool)
        ensures
            r == Self::ahead(a@, b@),
    ;
}

/// The order of `O`, as a function.
pub open spec fn order_of<T: View, O: Order<T>>() -> spec_fn(T::V, T::V) -> bool {
    |a: T::V, b: T::V| O::ahead(a, b)
}

/// The views of a list.
pub open spec fn views<T: View>(items: Seq<T>) -> Seq<T::V> {
    Seq::new(items.len(), |i: int| items[i]@)
}

/// A ranked list with one more item: it moves up past those at the end that it is ahead of.
pub open spec fn placed<V>(ranked: Seq<V>, item: V, ahead: spec_fn(V, V) -> bool) -> Seq<V>
    decreases ranked.len(),
{
    if ranked.len() > 0 && ahead(item, ranked.last()) {
        placed(ranked.drop_last(), item, ahead).push(ranked.last())
    } else {
        ranked.push(item)
    }
}

/// A list ranked by an order; items of which neither is ahead keep their places to each other.
pub open spec fn ranked<V>(items: Seq<V>, ahead: spec_fn(V, V) -> bool) -> Seq<V>
    decreases items.len(),
{
    if items.len() == 0 {
        items
    } else {
        placed(ranked(items.drop_last(), ahead), items.last(), ahead)
    }
}

/// The first items of a list, at most `n`.
pub open spec fn first<V>(items: Seq<V>, n: nat) -> Seq<V> {
    if items.len() <= n {
        items
    } else {
        items.take(n as int)
    }
}

/// Whether a relation ranks: no two items are each ahead of the other, and what is behind or
/// level with an item that is behind or level with a third is behind or level with the third.
pub open spec fn ranks<V>(ahead: spec_fn(V, V) -> bool) -> bool {
    &&& forall|a: V, b: V| #[trigger] ahead(a, b) ==> !ahead(b, a)
    &&& forall|a: V, b: V, c: V|
        !(#[trigger] ahead(a, b)) && !(#[trigger] ahead(b, c)) ==> !ahead(a, c)
}

/// Whether no item of a list stands ahead of an earlier one.
pub open spec fn in_order<V>(items: Seq<V>, ahead: spec_fn(V, V) -> bool) -> bool {
    forall|i: int, j: int|
        0 <= i < j < items.len() ==> !ahead(#[trigger] items[j], #[trigger] items[i])
}

/// Placing an item adds it and nothing else.
proof fn lemma_placed_items<V>(list: Seq<V>, item: V, ahead: spec_fn(V, V) -> bool)
    ensures
        placed(list, item, ahead).len() == list.len() + 1,
        placed(list, item, ahead).to_multiset() == list.to_multiset().insert(item),
    decreases list.len(),
{
    broadcast use group_to_multiset_ensures;

    if list.len() > 0 && ahead(item, list.last()) {
        lemma_placed_items(list.drop_last(), item, ahead);
        assert(list.drop_last().push(list.last()) =~= list);
        assert(list.drop_last().to_multiset().insert(item).insert(list.last())
            =~= list.drop_last().to_multiset().insert(list.last()).insert(item));
    }
}

/// Ranking a list keeps its items, each as often as it was there.
pub proof fn lemma_ranked_items<V>(items: Seq<V>, ahead: spec_fn(V, V) -> bool)
    ensures
        ranked(items, ahead).len() == items.len(),
        ranked(items, ahead).to_multiset() == items.to_multiset(),
    decreases items.len(),
{
    broadcast use group_to_multiset_ensures;

    if items.len() > 0 {
        lemma_ranked_items(items.drop_last(), ahead);
        lemma_placed_items(ranked(items.drop_last(), ahead), items.last(), ahead);
        assert(items.drop_last().push(items.last()) =~= items);
    }
}

/// What stands in a list after placing an item is that item or stood there before.
proof fn lemma_placed_contains<V>(
    list: Seq<V>,
    item: V,
    ahead: spec_fn(V, V) -> bool,
    k: int,
)
    requires
        0 <= k < placed(list, item, ahead).len(),
    ensures
        placed(list, item, ahead)[k] == item || list.contains(placed(list, item, ahead)[k]),
{
    broadcast use group_to_multiset_ensures;

    lemma_placed_items(list, item, ahead);
    let x = placed(list, item, ahead)[k];
    assert(placed(list, item, ahead).contains(x));
    assert(placed(list, item, ahead).to_multiset().count(x) > 0);
    if x != item {
        assert(list.to_multiset().count(x) > 0);
    }
}

/// Placing an item into a list in order leaves it in order.
proof fn lemma_placed_in_order<V>(list: Seq<V>, item: V, ahead: spec_fn(V, V) -> bool)
    requires
        ranks(ahead),
        in_order(list, ahead),
    ensures
        in_order(placed(list, item, ahead), ahead),
    decreases list.len(),
{
    let out = placed(list, item, ahead);
    lemma_placed_items(list, item, ahead);
    if list.len() > 0 && ahead(item, list.last()) {
        let shorter = placed(list.drop_last(), item, ahead);
        assert(in_order(list.drop_last(), ahead));
        lemma_placed_in_order(list.drop_last(), item, ahead);
        lemma_placed_items(list.drop_last(), item, ahead);
        assert forall|i: int, j: int| 0 <= i < j < out.len() implies !ahead(
            #[trigger] out[j],
            #[trigger] out[i],
        ) by {
            if j == out.len() - 1 {
                assert(out[i] == shorter[i]);
                lemma_placed_contains(list.drop_last(), item, ahead, i);
                if out[i] != item {
                    let m = choose|m: int|
                        0 <= m < list.drop_last().len() && list.drop_last()[m] == shorter[i];
                    assert(!ahead(list[list.len() - 1], list[m]));
                }
            } else {
                assert(out[i] == shorter[i] && out[j] == shorter[j]);
            }
        }
    } else {
        assert forall|i: int, j: int| 0 <= i < j < out.len() implies !ahead(
            #[trigger] out[j],
            #[trigger] out[i],
        ) by {
            if j == list.len() {
                if i < list.len() - 1 {
                    assert(!ahead(list[list.len() - 1], list[i]));
                    assert(!ahead(item, list.last()));
                }
            } else {
                assert(out[i] == list[i] && out[j] == list[j]);
            }
        }
    }
}

/// A ranked list is in order: none of its items is ahead of an earlier one.
pub proof fn lemma_ranked_in_order<V>(items: Seq<V>, ahead: spec_fn(V, V) -> bool)
    requires
        ranks(ahead),
    ensures
        in_order(ranked(items, ahead), ahead),
    decreases items.len(),
{
    if items.len() > 0 {
        lemma_ranked_in_order(items.drop_last(), ahead);
        lemma_placed_in_order(ranked(items.drop_last(), ahead), items.last(), ahead);
    }
}

/// Whether an item is level with another one: neither is ahead.
pub open spec fn level_with<V>(other: V, ahead: spec_fn(V, V) -> bool) -> spec_fn(V) -> bool {
    |item: V| !ahead(item, other) && !ahead(other, item)
}

/// Placing an item puts it behind all that are level with it.
proof fn lemma_placed_stable<V>(list: Seq<V>, item: V, other: V, ahead: spec_fn(V, V) -> bool)
    requires
        ranks(ahead),
    ensures
        placed(list, item, ahead).filter(level_with(other, ahead)) == list.push(item).filter(
            level_with(other, ahead),
        ),
    decreases list.len(),
{
    reveal(Seq::filter);
    let level = level_with(other, ahead);
    if list.len() > 0 && ahead(item, list.last()) {
        let shorter = list.drop_last();
        lemma_placed_stable(shorter, item, other, ahead);
        assert(placed(list, item, ahead).drop_last() =~= placed(shorter, item, ahead));
        assert(shorter.push(item).drop_last() =~= shorter);
        assert(list.push(item).drop_last() =~= list);
        // The item and the one it passes are not both level with the same third one.
        assert(!(level(item) && level(list.last())));
        let kept = shorter.filter(level);
        assert(shorter.push(item).filter(level) == if level(item) {
            kept.push(item)
        } else {
            kept
        });
        assert(list.filter(level) == if level(list.last()) {
            kept.push(list.last())
        } else {
            kept
        });
        assert(list.push(item).filter(level) == if level(item) {
            list.filter(level).push(item)
        } else {
            list.filter(level)
        });
    }
}

/// Ranking is stable: among the items level with any given one the order of the list is kept.
pub proof fn lemma_ranked_stable<V>(items: Seq<V>, other: V, ahead: spec_fn(V, V) -> bool)
    requires
        ranks(ahead),
    ensures
        ranked(items, ahead).filter(level_with(other, ahead)) == items.filter(
            level_with(other, ahead),
        ),
    decreases items.len(),
{
    reveal(Seq::filter);
    if items.len() > 0 {
        let shorter = items.drop_last();
        lemma_ranked_stable(shorter, other, ahead);
        lemma_placed_stable(ranked(shorter, ahead), items.last(), other, ahead);
        assert(ranked(shorter, ahead).push(items.last()).drop_last() =~= ranked(shorter, ahead));
    }
}

/// Two lists of the same items, each with every item ahead of all later ones, are the same.
proof fn lemma_strict_order_unique<V>(s: Seq<V>, t: Seq<V>, ahead: spec_fn(V, V) -> bool)
    requires
        ranks(ahead),
        s.to_multiset() == t.to_multiset(),
        forall|i: int, j: int| 0 <= i < j < s.len() ==> ahead(#[trigger] s[i], #[trigger] s[j]),
        forall|i: int, j: int| 0 <= i < j < t.len() ==> ahead(#[trigger] t[i], #[trigger] t[j]),
    ensures
        s == t,
    decreases s.len(),
{
    broadcast use group_to_multiset_ensures;

    assert(s.len() == s.to_multiset().len());
    assert(t.len() == t.to_multiset().len());
    if s.len() == 0 {
        assert(s =~= t);
    } else {
        let a = s.last();
        let b = t.last();
        assert(s.contains(a));
        assert(t.to_multiset().count(a) > 0);
        assert(t.contains(b));
        assert(s.to_multiset().count(b) > 0);
        let k = choose|k: int| 0 <= k < t.len() && t[k] == a;
        let m = choose|m: int| 0 <= m < s.len() && s[m] == b;
        assert(t[k] == a && s[m] == b);
        if a != b {
            assert(ahead(t[k], t[t.len() - 1]));
            assert(ahead(s[m], s[s.len() - 1]));
        }
        assert(s.drop_last() =~= s.remove(s.len() - 1));
        assert(t.drop_last() =~= t.remove(t.len() - 1));
        lemma_strict_order_unique(s.drop_last(), t.drop_last(), ahead);
        assert(s =~= s.drop_last().push(a));
        assert(t =~= t.drop_last().push(b));
    }
}

/// Where the order decides between any two different items of a list without repetition, the
/// ranked list depends on the items alone, not on the order in which they were given.
pub proof fn lemma_ranked_unique<V>(s: Seq<V>, t: Seq<V>, ahead: spec_fn(V, V) -> bool)
    requires
        ranks(ahead),
        s.no_duplicates(),
        s.to_multiset() == t.to_multiset(),
        forall|a: V, b: V|
            #![trigger ahead(a, b)]
            s.contains(a) && s.contains(b) && a != b ==> ahead(a, b) || ahead(b, a),
    ensures
        ranked(s, ahead) == ranked(t, ahead),
{
    broadcast use group_to_multiset_ensures;

    lemma_ranked_items(s, ahead);
    lemma_ranked_items(t, ahead);
    lemma_ranked_in_order(s, ahead);
    lemma_ranked_in_order(t, ahead);
    lemma_strictly_ranked(s, ranked(s, ahead), ahead);
    lemma_strictly_ranked(s, ranked(t, ahead), ahead);
    lemma_strict_order_unique(ranked(s, ahead), ranked(t, ahead), ahead);
}

/// Where the order decides between any two different items of a list without repetition, every
/// item of the ranked list is ahead of all later ones.
pub proof fn lemma_ranked_strict<V>(s: Seq<V>, ahead: spec_fn(V, V) -> bool)
    requires
        ranks(ahead),
        s.no_duplicates(),
        forall|a: V, b: V|
            #![trigger ahead(a, b)]
            s.contains(a) && s.contains(b) && a != b ==> ahead(a, b) || ahead(b, a),
    ensures
        forall|i: int, j: int|
            0 <= i < j < s.len() ==> ahead(
                #[trigger] ranked(s, ahead)[i],
                #[trigger] ranked(s, ahead)[j],
            ),
{
    lemma_ranked_items(s, ahead);
    lemma_ranked_in_order(s, ahead);
    lemma_strictly_ranked(s, ranked(s, ahead), ahead);
}

/// Where the order decides between any two different items of a list without repetition, those
/// shown first are ahead of all that are left out.
pub proof fn lemma_first_ahead<V>(s: Seq<V>, ahead: spec_fn(V, V) -> bool, n: nat, item: V)
    requires
        ranks(ahead),
        s.no_duplicates(),
        forall|a: V, b: V|
            #![trigger ahead(a, b)]
            s.contains(a) && s.contains(b) && a != b ==> ahead(a, b) || ahead(b, a),
        s.contains(item),
        !first(ranked(s, ahead), n).contains(item),
    ensures
        first(ranked(s, ahead), n).len() == n,
        forall|i: int| 0 <= i < n ==> ahead(#[trigger] first(ranked(s, ahead), n)[i], item),
{
    broadcast use group_to_multiset_ensures;

    lemma_ranked_items(s, ahead);
    lemma_ranked_strict(s, ahead);
    let all = ranked(s, ahead);
    let shown = first(all, n);
    assert(s.to_multiset().count(item) > 0);
    assert(all.contains(item));
    let k = choose|k: int| 0 <= k < all.len() && all[k] == item;
    if k < shown.len() {
        assert(shown[k] == item);
    }
    assert forall|i: int| 0 <= i < n implies ahead(#[trigger] shown[i], item) by {
        assert(ahead(all[i], all[k]));
    }
}

/// A list in order of items without repetition, between any two of which the order decides, has
/// every item ahead of all later ones.
proof fn lemma_strictly_ranked<V>(s: Seq<V>, list: Seq<V>, ahead: spec_fn(V, V) -> bool)
    requires
        s.no_duplicates(),
        s.to_multiset() == list.to_multiset(),
        in_order(list, ahead),
        forall|a: V, b: V|
            #![trigger ahead(a, b)]
            s.contains(a) && s.contains(b) && a != b ==> ahead(a, b) || ahead(b, a),
    ensures
        forall|i: int, j: int|
            0 <= i < j < list.len() ==> ahead(#[trigger] list[i], #[trigger] list[j]),
{
    broadcast use group_to_multiset_ensures;

    s.lemma_multiset_has_no_duplicates();
    assert forall|x: V| list.to_multiset().contains(x) implies list.to_multiset().count(x) == 1 by {
        assert(s.to_multiset().contains(x));
    }
    list.lemma_multiset_has_no_duplicates_conv();
    assert forall|i: int, j: int| 0 <= i < j < list.len() implies ahead(
        #[trigger] list[i],
        #[trigger] list[j],
    ) by {
        let a = list[i];
        let b = list[j];
        assert(list.contains(a) && list.contains(b));
        assert(s.to_multiset().count(a) > 0 && s.to_multiset().count(b) > 0);
        assert(s.contains(a) && s.contains(b));
        assert(a != b);
        assert(!ahead(b, a));
        assert(ahead(a, b) || ahead(b, a));
    }
}

/// Ranks a list by the order `O`.
pub(crate) fn rank<T: View, O: Order<T>>(items: Vec<T>) -> (out: Vec<T>)
    ensures
        views(out@) == ranked(views(items@), order_of::<T, O>()),
{
    let ghost ahead = order_of::<T, O>();
    let ghost all = views(items@);
    let mut rest: Vec<T> = items;
    let mut out: Vec<T> = Vec::new();
    let ghost mut done: int = 0;
    assert(all.take(0) =~= Seq::<T::V>::empty());
    assert(views(out@) =~= ranked(all.take(0), ahead));
    assert(views(rest@) =~= all.skip(0));
    while rest.len() > 0
        invariant
            ahead == order_of::<T, O>(),
            0 <= done <= all.len(),
            views(rest@) == all.skip(done),
            rest@.len() == all.len() - done,
            views(out@) == ranked(all.take(done), ahead),
        decreases rest@.len(),
    {
        let ghost left = rest@;
        let item: T = rest.remove(0);
        assert(views(left)[0] == all[done]);
        assert(views(rest@) =~= all.skip(done + 1)) by {
            assert forall|i: int| 0 <= i < rest@.len() implies #[trigger] views(rest@)[i]
                == all.skip(done + 1)[i] by {
                assert(views(left)[i + 1] == all.skip(done)[i + 1]);
            }
        }
        let ghost so_far = views(out@);
        let mut place: usize = out.len();
        assert(so_far.take(place as int) =~= so_far);
        assert(so_far.skip(place as int) =~= Seq::<T::V>::empty());
        assert(placed(so_far, item@, ahead) =~= placed(so_far.take(place as int), item@, ahead)
            + so_far.skip(place as int));
        while place > 0 && O::is_ahead(&item, &out[place - 1])
            invariant
                ahead == order_of::<T, O>(),
                so_far == views(out@),
                0 <= place <= out@.len(),
                placed(so_far, item@, ahead) == placed(so_far.take(place as int), item@, ahead)
                    + so_far.skip(place as int),
            decreases place,
        {
            proof {
                let head = so_far.take(place as int);
                assert(head.last() == out@[place - 1]@);
                assert(head.drop_last() =~= so_far.take(place - 1));
                assert(placed(head.drop_last(), item@, ahead).push(head.last()) + so_far.skip(
                    place as int,
                ) =~= placed(so_far.take(place - 1), item@, ahead) + so_far.skip(place - 1));
            }
            place = place - 1;
        }
        proof {
            let head = so_far.take(place as int);
            if place > 0 {
                assert(head.last() == out@[place - 1]@);
            }
            assert(placed(head, item@, ahead) == head.push(item@));
        }
        let ghost before = out@;
        out.insert(place, item);
        proof {
            assert(views(out@) =~= so_far.take(place as int).push(item@) + so_far.skip(
                place as int,
            ));
            assert(all.take(done + 1).drop_last() =~= all.take(done));
            done = done + 1;
        }
    }
    assert(all.take(done) =~= all);
    out
}

}
