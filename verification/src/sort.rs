//! Stable sorting by a strict weak order.
use vstd::prelude::*;

verus! {

/// Values with a strict weak order: a strict order in which "neither comes
/// before the other" is an equivalence.
pub trait Ordered: Sized {
    spec fn precedes(self, other: Self) -> bool;

    proof fn order_laws(a: Self, b: Self, c: Self)
        ensures
            !a.precedes(a),
            a.precedes(b) && b.precedes(c) ==> a.precedes(c),
            a.precedes(c) ==> a.precedes(b) || b.precedes(c),
    ;

    fn comes_before(&self, other: &Self) -> (before: bool)
        ensures
            before == self.precedes(*other),
    ;
}

/// No element comes before an earlier one.
pub open spec fn sorted<T: Ordered>(s: Seq<T>) -> bool {
    forall|i: int, j: int| 0 <= i < j < s.len() ==> !(#[trigger] s[j]).precedes(#[trigger] s[i])
}

/// Two sorted sequences merged into one. Of two elements of which neither comes
/// before the other, the one from `left` goes first.
pub open spec fn merged<T: Ordered>(left: Seq<T>, right: Seq<T>) -> Seq<T>
    decreases left.len() + right.len(),
{
    if left.len() == 0 {
        right
    } else if right.len() == 0 {
        left
    } else if right.last().precedes(left.last()) {
        merged(left.drop_last(), right).push(left.last())
    } else {
        merged(left, right.drop_last()).push(right.last())
    }
}

/// The sequence in stable sorted order; [`law_stable_sort`] says what that is.
pub open spec fn stable_sorted<T: Ordered>(s: Seq<T>) -> Seq<T>
    decreases s.len(),
{
    if s.len() <= 1 {
        s
    } else {
        let middle = s.len() as int / 2;
        merged(stable_sorted(s.take(middle)), stable_sorted(s.skip(middle)))
    }
}

/// The elements that neither come before nor behind `pivot`, in their order.
pub open spec fn ties<T: Ordered>(s: Seq<T>, pivot: T) -> Seq<T>
    decreases s.len(),
{
    if s.len() == 0 {
        s
    } else if s.last().precedes(pivot) || pivot.precedes(s.last()) {
        ties(s.drop_last(), pivot)
    } else {
        ties(s.drop_last(), pivot).push(s.last())
    }
}

proof fn lemma_merged_members<T: Ordered>(left: Seq<T>, right: Seq<T>)
    ensures
        merged(left, right).len() == left.len() + right.len(),
        merged(left, right).to_multiset() == left.to_multiset().add(right.to_multiset()),
        forall|i: int|
            0 <= i < merged(left, right).len() ==> left.contains(#[trigger] merged(left, right)[i])
                || right.contains(merged(left, right)[i]),
    decreases left.len() + right.len(),
{
    broadcast use vstd::seq_lib::group_to_multiset_ensures;

    let all = merged(left, right);
    if left.len() == 0 {
        assert(left =~= Seq::empty());
        assert(all.to_multiset() =~= left.to_multiset().add(right.to_multiset()));
        assert forall|i: int| 0 <= i < all.len() implies right.contains(#[trigger] all[i]) by {}
    } else if right.len() == 0 {
        assert(right =~= Seq::empty());
        assert(all.to_multiset() =~= left.to_multiset().add(right.to_multiset()));
        assert forall|i: int| 0 <= i < all.len() implies left.contains(#[trigger] all[i]) by {}
    } else if right.last().precedes(left.last()) {
        lemma_merged_members(left.drop_last(), right);
        let fewer = merged(left.drop_last(), right);
        assert(left =~= left.drop_last().push(left.last()));
        assert(all.to_multiset() =~= left.to_multiset().add(right.to_multiset()));
        assert forall|i: int| 0 <= i < all.len() implies left.contains(#[trigger] all[i])
            || right.contains(all[i]) by {
            if i < fewer.len() {
                assert(all[i] == fewer[i]);
                if left.drop_last().contains(fewer[i]) {
                    let k = choose|k: int|
                        0 <= k < left.drop_last().len() && left.drop_last()[k] == fewer[i];
                    assert(left[k] == all[i]);
                }
            } else {
                assert(left[left.len() - 1] == all[i]);
            }
        }
    } else {
        lemma_merged_members(left, right.drop_last());
        let fewer = merged(left, right.drop_last());
        assert(right =~= right.drop_last().push(right.last()));
        assert(all.to_multiset() =~= left.to_multiset().add(right.to_multiset()));
        assert forall|i: int| 0 <= i < all.len() implies left.contains(#[trigger] all[i])
            || right.contains(all[i]) by {
            if i < fewer.len() {
                assert(all[i] == fewer[i]);
                if right.drop_last().contains(fewer[i]) {
                    let k = choose|k: int|
                        0 <= k < right.drop_last().len() && right.drop_last()[k] == fewer[i];
                    assert(right[k] == all[i]);
                }
            } else {
                assert(right[right.len() - 1] == all[i]);
            }
        }
    }
}

proof fn lemma_merged_sorted<T: Ordered>(left: Seq<T>, right: Seq<T>)
    requires
        sorted(left),
        sorted(right),
    ensures
        sorted(merged(left, right)),
    decreases left.len() + right.len(),
{
    if left.len() > 0 && right.len() > 0 {
        let all = merged(left, right);
        let from_left = right.last().precedes(left.last());
        let fewer = if from_left {
            merged(left.drop_last(), right)
        } else {
            merged(left, right.drop_last())
        };
        if from_left {
            lemma_merged_sorted(left.drop_last(), right);
            lemma_merged_members(left.drop_last(), right);
        } else {
            lemma_merged_sorted(left, right.drop_last());
            lemma_merged_members(left, right.drop_last());
        }
        assert forall|i: int, j: int| 0 <= i < j < all.len() implies !(
        #[trigger] all[j]).precedes(#[trigger] all[i]) by {
            if j < fewer.len() {
                assert(all[i] == fewer[i] && all[j] == fewer[j]);
            } else {
                let x = fewer[i];
                assert(all[i] == x);
                if from_left {
                    T::order_laws(left.last(), x, right.last());
                    T::order_laws(right.last(), left.last(), x);
                    T::order_laws(left.last(), left.last(), x);
                    if left.drop_last().contains(x) {
                        let k = choose|k: int|
                            0 <= k < left.drop_last().len() && left.drop_last()[k] == x;
                        assert(left[k] == x);
                        assert(!left[left.len() - 1].precedes(left[k]));
                    } else {
                        let k = choose|k: int| 0 <= k < right.len() && right[k] == x;
                        if k < right.len() - 1 {
                            assert(!right[right.len() - 1].precedes(right[k]));
                        }
                    }
                } else {
                    T::order_laws(right.last(), left.last(), x);
                    T::order_laws(right.last(), x, left.last());
                    T::order_laws(right.last(), right.last(), x);
                    if left.contains(x) {
                        let k = choose|k: int| 0 <= k < left.len() && left[k] == x;
                        if k < left.len() - 1 {
                            assert(!left[left.len() - 1].precedes(left[k]));
                        }
                    } else {
                        let k = choose|k: int|
                            0 <= k < right.drop_last().len() && right.drop_last()[k] == x;
                        assert(right[k] == x);
                        assert(!right[right.len() - 1].precedes(right[k]));
                    }
                }
            }
        }
    }
}

proof fn lemma_no_ties_below<T: Ordered>(s: Seq<T>, pivot: T)
    requires
        forall|i: int| 0 <= i < s.len() ==> (#[trigger] s[i]).precedes(pivot),
    ensures
        ties(s, pivot) == Seq::<T>::empty(),
    decreases s.len(),
{
    if s.len() > 0 {
        assert(s[s.len() - 1].precedes(pivot));
        assert forall|i: int| 0 <= i < s.drop_last().len() implies (
        #[trigger] s.drop_last()[i]).precedes(pivot) by {
            assert(s.drop_last()[i] == s[i]);
        }
        lemma_no_ties_below(s.drop_last(), pivot);
    } else {
        assert(s =~= Seq::empty());
    }
}

/// Everything in a sorted sequence whose last element comes before `pivot` comes
/// before `pivot`.
proof fn lemma_all_below<T: Ordered>(s: Seq<T>, pivot: T)
    requires
        sorted(s),
        s.len() > 0,
        s.last().precedes(pivot),
    ensures
        forall|i: int| 0 <= i < s.len() ==> (#[trigger] s[i]).precedes(pivot),
{
    assert forall|i: int| 0 <= i < s.len() implies (#[trigger] s[i]).precedes(pivot) by {
        if i < s.len() - 1 {
            assert(!s[s.len() - 1].precedes(s[i]));
            T::order_laws(s.last(), s[i], pivot);
        }
    }
}

proof fn lemma_merged_ties<T: Ordered>(left: Seq<T>, right: Seq<T>, pivot: T)
    requires
        sorted(left),
        sorted(right),
    ensures
        ties(merged(left, right), pivot) == ties(left, pivot) + ties(right, pivot),
    decreases left.len() + right.len(),
{
    if left.len() == 0 {
        assert(ties(left, pivot) =~= Seq::<T>::empty());
        assert(ties(left, pivot) + ties(right, pivot) =~= ties(right, pivot));
    } else if right.len() == 0 {
        assert(ties(right, pivot) =~= Seq::<T>::empty());
        assert(ties(left, pivot) + ties(right, pivot) =~= ties(left, pivot));
    } else if right.last().precedes(left.last()) {
        let fewer = merged(left.drop_last(), right);
        lemma_merged_ties(left.drop_last(), right, pivot);
        assert(merged(left, right).drop_last() =~= fewer);
        let last = left.last();
        if !last.precedes(pivot) && !pivot.precedes(last) {
            T::order_laws(right.last(), pivot, last);
            lemma_all_below(right, pivot);
            lemma_no_ties_below(right, pivot);
            assert(ties(left, pivot) + ties(right, pivot) =~= ties(left, pivot));
            assert(ties(left.drop_last(), pivot) + ties(right, pivot) =~= ties(
                left.drop_last(),
                pivot,
            ));
        }
    } else {
        let fewer = merged(left, right.drop_last());
        lemma_merged_ties(left, right.drop_last(), pivot);
        assert(merged(left, right).drop_last() =~= fewer);
        assert(ties(merged(left, right), pivot) =~= ties(left, pivot) + ties(right, pivot));
    }
}

pub proof fn lemma_ties_concat<T: Ordered>(left: Seq<T>, right: Seq<T>, pivot: T)
    ensures
        ties(left + right, pivot) == ties(left, pivot) + ties(right, pivot),
    decreases right.len(),
{
    if right.len() == 0 {
        assert(left + right =~= left);
        assert(ties(left, pivot) + ties(right, pivot) =~= ties(left, pivot));
    } else {
        lemma_ties_concat(left, right.drop_last(), pivot);
        assert((left + right).drop_last() =~= left + right.drop_last());
        assert(ties(left + right, pivot) =~= ties(left, pivot) + ties(right, pivot));
    }
}

/// Stable sorting permutes the elements, puts them in order, and keeps elements
/// that neither come before nor behind each other in the order they had.
pub proof fn law_stable_sort<T: Ordered>(s: Seq<T>, pivot: T)
    ensures
        sorted(stable_sorted(s)),
        stable_sorted(s).to_multiset() == s.to_multiset(),
        stable_sorted(s).len() == s.len(),
        ties(stable_sorted(s), pivot) == ties(s, pivot),
    decreases s.len(),
{
    broadcast use vstd::seq_lib::group_to_multiset_ensures;

    if s.len() > 1 {
        let middle = s.len() as int / 2;
        let left = s.take(middle);
        let right = s.skip(middle);
        law_stable_sort(left, pivot);
        law_stable_sort(right, pivot);
        lemma_merged_members(stable_sorted(left), stable_sorted(right));
        lemma_merged_sorted(stable_sorted(left), stable_sorted(right));
        lemma_merged_ties(stable_sorted(left), stable_sorted(right), pivot);
        assert(left + right =~= s);
        lemma_ties_concat(left, right, pivot);
        vstd::seq_lib::lemma_multiset_commutative(left, right);
    }
}

/// Sorts in place, keeping the order of elements that tie.
pub fn stable_sort<T: Ordered>(items: &mut Vec<T>)
    ensures
        final(items)@ == stable_sorted(old(items)@),
    decreases old(items)@.len(),
{
    let count = items.len();
    if count <= 1 {
        return;
    }
    let middle: usize = count / 2;
    let ghost whole = items@;
    let mut right = items.split_off(middle);
    assert(items@ =~= whole.take(middle as int));
    assert(right@ =~= whole.skip(middle as int));
    stable_sort(items);
    stable_sort(&mut right);
    merge(items, right);
}

/// Merges a sorted vector into another one.
fn merge<T: Ordered>(items: &mut Vec<T>, right: Vec<T>)
    ensures
        final(items)@ == merged(old(items)@, right@),
{
    let mut right = right;
    let ghost left_whole = items@;
    let ghost right_whole = right@;
    let mut reversed: Vec<T> = Vec::new();
    assert(merged(items@, right@) + reversed@.reverse() =~= merged(left_whole, right_whole));
    while items.len() > 0 && right.len() > 0
        invariant
            merged(items@, right@) + reversed@.reverse() == merged(left_whole, right_whole),
        decreases items@.len() + right@.len(),
    {
        let ghost left_before = items@;
        let ghost right_before = right@;
        let ghost reversed_before = reversed@;
        let from_left = right[right.len() - 1].comes_before(&items[items.len() - 1]);
        let next = if from_left {
            items.pop()
        } else {
            right.pop()
        };
        if let Some(item) = next {
            reversed.push(item);
            assert(merged(items@, right@) + reversed@.reverse() =~= merged(
                left_before,
                right_before,
            ) + reversed_before.reverse());
        }
    }
    let ghost reversed_all = reversed@;
    if items.len() == 0 {
        items.append(&mut right);
    }
    let ghost prefix = items@;
    assert(prefix + reversed_all.reverse() =~= merged(left_whole, right_whole));
    while reversed.len() > 0
        invariant
            items@ + reversed@.reverse() == merged(left_whole, right_whole),
        decreases reversed@.len(),
    {
        let ghost items_before = items@;
        let ghost reversed_before = reversed@;
        if let Some(item) = reversed.pop() {
            items.push(item);
            assert(items@ + reversed@.reverse() =~= items_before + reversed_before.reverse());
        }
    }
    assert(items@ + reversed@.reverse() =~= items@);
}

/// Whether `order` lists the indices of `keys` in the order of the keys, indices
/// of keys that tie from low to high.
pub open spec fn lists_in_order<K: Ordered>(keys: Seq<K>, order: Seq<usize>) -> bool {
    &&& order.len() == keys.len()
    &&& forall|i: int| 0 <= i < order.len() ==> #[trigger] order[i] < keys.len()
    &&& forall|v: usize| v < keys.len() ==> #[trigger] order.contains(v)
    &&& forall|i: int, j: int|
        0 <= i < j < order.len() ==> goes_first(
            keys,
            #[trigger] order[i] as int,
            #[trigger] order[j] as int,
        )
}

/// Whether the key at `u` is listed before the key at `v`.
pub open spec fn goes_first<K: Ordered>(keys: Seq<K>, u: int, v: int) -> bool {
    keys[u].precedes(keys[v]) || (!keys[v].precedes(keys[u]) && u < v)
}

/// A key with the index that it came from.
pub struct Indexed<K> {
    pub key: K,
    pub index: usize,
}

impl<K: Ordered> Ordered for Indexed<K> {
    open spec fn precedes(self, other: Indexed<K>) -> bool {
        self.key.precedes(other.key) || (!other.key.precedes(self.key) && self.index < other.index)
    }

    proof fn order_laws(a: Indexed<K>, b: Indexed<K>, c: Indexed<K>) {
        K::order_laws(a.key, b.key, c.key);
        K::order_laws(a.key, c.key, b.key);
        K::order_laws(b.key, a.key, c.key);
        K::order_laws(b.key, c.key, a.key);
        K::order_laws(c.key, a.key, b.key);
        K::order_laws(c.key, b.key, a.key);
    }

    fn comes_before(&self, other: &Indexed<K>) -> (before: bool) {
        self.key.comes_before(&other.key) || (!other.key.comes_before(&self.key) && self.index
            < other.index)
    }
}

/// The indices of keys in the order of the keys.
pub fn sorted_indices<K: Ordered>(keys: Vec<K>) -> (order: Vec<usize>)
    ensures
        lists_in_order(keys@, order@),
{
    let ghost all = keys@;
    let count = keys.len();
    let mut rest = keys;
    let mut reversed: Vec<Indexed<K>> = Vec::new();
    assert(rest@ =~= all.take(all.len() as int));
    while rest.len() > 0
        invariant
            rest@ == all.take(rest@.len() as int),
            rest@.len() + reversed@.len() == all.len(),
            forall|i: int|
                0 <= i < reversed@.len() ==> (#[trigger] reversed@[i]).index == all.len() - 1 - i
                    && reversed@[i].key == all[all.len() - 1 - i],
        decreases rest@.len(),
    {
        let index: usize = rest.len() - 1;
        let ghost before = rest@;
        if let Some(key) = rest.pop() {
            assert(key == all[index as int]);
            reversed.push(Indexed { key, index });
            assert(rest@ =~= all.take(rest@.len() as int));
        }
    }
    let ghost given = reversed@;
    stable_sort(&mut reversed);
    let ghost found = reversed@;
    proof {
        lemma_permutation_of_distinct(all, given, found);
    }
    let mut order: Vec<usize> = Vec::new();
    let mut position: usize = 0;
    while position < reversed.len()
        invariant
            position <= reversed@.len(),
            reversed@ == found,
            order@.len() == position,
            forall|i: int| 0 <= i < position ==> #[trigger] order@[i] == found[i].index,
        decreases reversed@.len() - position,
    {
        order.push(reversed[position].index);
        position = position + 1;
    }
    proof {
        assert forall|v: usize| v < all.len() implies #[trigger] order@.contains(v) by {
            let at = v as int;
            assert(holds_index(found, at));
            let i = choose|i: int| 0 <= i < found.len() && (#[trigger] found[i]).index == at;
            assert(order@[i] == v);
        }
        assert forall|i: int, j: int| 0 <= i < j < order@.len() implies goes_first(
            all,
            #[trigger] order@[i] as int,
            #[trigger] order@[j] as int,
        ) by {
            assert(found[i].index == order@[i] && found[j].index == order@[j]);
            assert(!found[j].precedes(found[i]));
            assert(found[i].index != found[j].index);
        }
    }
    order
}

spec fn holds_index<K>(items: Seq<Indexed<K>>, v: int) -> bool {
    exists|i: int| 0 <= i < items.len() && (#[trigger] items[i]).index == v
}

proof fn lemma_permutation_of_distinct<K: Ordered>(
    all: Seq<K>,
    given: Seq<Indexed<K>>,
    found: Seq<Indexed<K>>,
)
    requires
        given.len() == all.len(),
        forall|i: int|
            0 <= i < given.len() ==> (#[trigger] given[i]).index == all.len() - 1 - i
                && given[i].key == all[all.len() - 1 - i],
        found == stable_sorted(given),
    ensures
        found.len() == all.len(),
        sorted(found),
        forall|i: int|
            0 <= i < found.len() ==> (#[trigger] found[i]).index < all.len() && found[i].key
                == all[found[i].index as int],
        forall|i: int, j: int|
            0 <= i < j < found.len() ==> (#[trigger] found[i]).index != (#[trigger] found[j]).index,
        forall|v: int| 0 <= v < all.len() ==> #[trigger] holds_index(found, v),
{
    broadcast use vstd::seq_lib::group_to_multiset_ensures;

    if all.len() > 0 {
        law_stable_sort(given, given[0]);
    } else {
        assert(found =~= given);
    }
    assert(given.no_duplicates()) by {
        assert forall|i: int, j: int| 0 <= i < given.len() && 0 <= j < given.len() && i
            != j implies given[i] != given[j] by {
            assert(given[i].index != given[j].index);
        }
    }
    given.lemma_multiset_has_no_duplicates();
    assert(found.no_duplicates()) by {
        found.lemma_multiset_has_no_duplicates_conv();
    }
    assert forall|i: int| 0 <= i < found.len() implies (#[trigger] found[i]).index < all.len()
        && found[i].key == all[found[i].index as int] by {
        assert(found.to_multiset().count(found[i]) > 0);
        assert(given.contains(found[i]));
        let k = choose|k: int| 0 <= k < given.len() && given[k] == found[i];
        assert(given[k].index == all.len() - 1 - k);
    }
    assert forall|i: int, j: int| 0 <= i < j < found.len() implies (#[trigger] found[i]).index != (
    #[trigger] found[j]).index by {
        if found[i].index == found[j].index {
            assert(found[i].key == found[j].key);
            assert(found[i] == found[j]);
        }
    }
    assert forall|v: int| 0 <= v < all.len() implies #[trigger] holds_index(found, v) by {
        let item = given[all.len() - 1 - v];
        assert(item.index == v);
        assert(given.to_multiset().count(item) > 0);
        assert(found.contains(item));
        let i = choose|i: int| 0 <= i < found.len() && found[i] == item;
        assert(found[i].index == v);
    }
}

/// An order of indices is determined by the keys.
pub proof fn law_listing_is_unique<K: Ordered>(
    keys: Seq<K>,
    first: Seq<usize>,
    second: Seq<usize>,
)
    requires
        lists_in_order(keys, first),
        lists_in_order(keys, second),
    ensures
        first == second,
{
    lemma_listing_prefix(keys, first, second, first.len());
    assert(first =~= second);
}

proof fn lemma_listing_prefix<K: Ordered>(
    keys: Seq<K>,
    first: Seq<usize>,
    second: Seq<usize>,
    count: nat,
)
    requires
        lists_in_order(keys, first),
        lists_in_order(keys, second),
        count <= first.len(),
    ensures
        forall|i: int| 0 <= i < count ==> first[i] == second[i],
    decreases count,
{
    if count > 0 {
        lemma_listing_prefix(keys, first, second, (count - 1) as nat);
        let k = count - 1;
        let u = first[k] as int;
        let v = second[k] as int;
        assert(u < keys.len());
        assert(v < keys.len());
        assert(second.contains(u as usize));
        assert(first.contains(v as usize));
        let a = choose|a: int| 0 <= a < second.len() && second[a] == u as usize;
        let b = choose|b: int| 0 <= b < first.len() && first[b] == v as usize;
        if u != v {
            K::order_laws(keys[u], keys[u], keys[u]);
            K::order_laws(keys[u], keys[v], keys[u]);
            K::order_laws(keys[v], keys[u], keys[v]);
            if a < k {
                assert(first[a] == second[a]);
                assert(goes_first(keys, first[a] as int, first[k] as int));
            }
            if b < k {
                assert(first[b] == second[b]);
                assert(goes_first(keys, second[b] as int, second[k] as int));
            }
            assert(goes_first(keys, second[k] as int, second[a] as int));
            assert(goes_first(keys, first[k] as int, first[b] as int));
        }
    }
}

/// Whether any two different elements are told apart by the order.
pub open spec fn told_apart<T: Ordered>(s: Seq<T>) -> bool {
    forall|i: int, j: int|
        0 <= i < s.len() && 0 <= j < s.len() && s[i] != s[j] ==> (#[trigger] s[i]).precedes(
            #[trigger] s[j],
        ) || s[j].precedes(s[i])
}

proof fn lemma_sorted_permutation<T: Ordered>(left: Seq<T>, right: Seq<T>)
    requires
        sorted(left),
        sorted(right),
        told_apart(left),
        left.to_multiset() == right.to_multiset(),
    ensures
        left == right,
    decreases left.len(),
{
    broadcast use vstd::seq_lib::group_to_multiset_ensures;

    left.to_multiset_ensures();
    right.to_multiset_ensures();
    assert(left.len() == right.len());
    if left.len() == 0 {
        assert(left =~= right);
    } else {
        let a = left.last();
        let b = right.last();
        assert(left.contains(a)) by {
            assert(left[left.len() - 1] == a);
        }
        assert(right.contains(b)) by {
            assert(right[right.len() - 1] == b);
        }
        assert(right.to_multiset().count(a) > 0);
        assert(left.to_multiset().count(b) > 0);
        assert(right.contains(a));
        assert(left.contains(b));
        let j = choose|j: int| 0 <= j < right.len() && right[j] == a;
        let i = choose|i: int| 0 <= i < left.len() && left[i] == b;
        if a != b {
            assert(!right[right.len() - 1].precedes(right[j]));
            assert(!left[left.len() - 1].precedes(left[i]));
            assert(left[i].precedes(left[left.len() - 1]) || left[left.len() - 1].precedes(
                left[i],
            ));
        }
        let shorter_left = left.drop_last();
        let shorter_right = right.drop_last();
        assert(left =~= shorter_left.push(a));
        assert(right =~= shorter_right.push(b));
        assert(shorter_left.to_multiset() =~= left.to_multiset().remove(a));
        assert(shorter_right.to_multiset() =~= right.to_multiset().remove(b));
        assert(sorted(shorter_left)) by {
            assert forall|x: int, y: int| 0 <= x < y < shorter_left.len() implies !(
            #[trigger] shorter_left[y]).precedes(#[trigger] shorter_left[x]) by {
                assert(!left[y].precedes(left[x]));
            }
        }
        assert(sorted(shorter_right)) by {
            assert forall|x: int, y: int| 0 <= x < y < shorter_right.len() implies !(
            #[trigger] shorter_right[y]).precedes(#[trigger] shorter_right[x]) by {
                assert(!right[y].precedes(right[x]));
            }
        }
        assert(told_apart(shorter_left)) by {
            assert forall|x: int, y: int|
                0 <= x < shorter_left.len() && 0 <= y < shorter_left.len() && shorter_left[x]
                    != shorter_left[y] implies (#[trigger] shorter_left[x]).precedes(
                #[trigger] shorter_left[y],
            ) || shorter_left[y].precedes(shorter_left[x]) by {
                assert(left[x].precedes(left[y]) || left[y].precedes(left[x]));
            }
        }
        lemma_sorted_permutation(shorter_left, shorter_right);
    }
}

/// Sorting forgets the order in which elements were given, provided that the
/// order tells any two different elements apart.
pub proof fn law_sorting_forgets_order<T: Ordered>(left: Seq<T>, right: Seq<T>)
    requires
        told_apart(left),
        left.to_multiset() == right.to_multiset(),
    ensures
        stable_sorted(left) == stable_sorted(right),
{
    broadcast use vstd::seq_lib::group_to_multiset_ensures;

    left.to_multiset_ensures();
    right.to_multiset_ensures();
    if left.len() == 0 {
        assert(left =~= right);
    } else {
        law_stable_sort(left, left[0]);
        law_stable_sort(right, left[0]);
        let a = stable_sorted(left);
        let b = stable_sorted(right);
        assert(told_apart(a)) by {
            assert forall|x: int, y: int|
                0 <= x < a.len() && 0 <= y < a.len() && a[x] != a[y] implies (
            #[trigger] a[x]).precedes(#[trigger] a[y]) || a[y].precedes(a[x]) by {
                assert(a.to_multiset().count(a[x]) > 0);
                assert(a.to_multiset().count(a[y]) > 0);
                assert(left.contains(a[x]));
                assert(left.contains(a[y]));
                let i = choose|i: int| 0 <= i < left.len() && left[i] == a[x];
                let j = choose|j: int| 0 <= j < left.len() && left[j] == a[y];
                assert(left[i].precedes(left[j]) || left[j].precedes(left[i]));
            }
        }
        lemma_sorted_permutation(a, b);
    }
}

/// What is in order is fixed by its ties.
pub proof fn lemma_sorted_by_ties<T: Ordered>(left: Seq<T>, right: Seq<T>)
    requires
        sorted(left),
        sorted(right),
        forall|pivot: T| #[trigger] ties(left, pivot) == ties(right, pivot),
    ensures
        left == right,
    decreases left.len() + right.len(),
{
    if left.len() == 0 && right.len() == 0 {
        assert(left =~= right);
    } else if left.len() == 0 {
        lemma_own_tie(right);
        assert(ties(left, right.last()) == ties(right, right.last()));
    } else {
        let a = left.last();
        lemma_own_tie(left);
        assert(ties(left, a) == ties(right, a));
        assert(right.len() > 0) by {
            if right.len() == 0 {
                assert(ties(right, a).len() == 0);
            }
        }
        let b = right.last();
        lemma_own_tie(right);
        assert(ties(left, b) == ties(right, b));
        let i = lemma_tie_found(left, b);
        let j = lemma_tie_found(right, a);
        T::order_laws(a, left[i], b);
        T::order_laws(a, b, left[i]);
        T::order_laws(b, right[j], a);
        T::order_laws(b, a, right[j]);
        if i < left.len() - 1 {
            assert(!left[left.len() - 1].precedes(left[i]));
        }
        if j < right.len() - 1 {
            assert(!right[right.len() - 1].precedes(right[j]));
        }
        assert(!a.precedes(b) && !b.precedes(a));
        assert(a == b);
        let (rest, more) = (left.drop_last(), right.drop_last());
        assert forall|pivot: T| #[trigger] ties(rest, pivot) == ties(more, pivot) by {
            assert(ties(left, pivot) == ties(right, pivot));
            if !(a.precedes(pivot) || pivot.precedes(a)) {
                assert(ties(left, pivot).drop_last() =~= ties(rest, pivot));
                assert(ties(right, pivot).drop_last() =~= ties(more, pivot));
            }
        }
        assert(sorted(rest)) by {
            assert forall|x: int, y: int| 0 <= x < y < rest.len() implies !(
            #[trigger] rest[y]).precedes(#[trigger] rest[x]) by {
                assert(!left[y].precedes(left[x]));
            }
        }
        assert(sorted(more)) by {
            assert forall|x: int, y: int| 0 <= x < y < more.len() implies !(
            #[trigger] more[y]).precedes(#[trigger] more[x]) by {
                assert(!right[y].precedes(right[x]));
            }
        }
        lemma_sorted_by_ties(rest, more);
        assert(left =~= rest.push(a));
        assert(right =~= more.push(b));
    }
}

proof fn lemma_own_tie<T: Ordered>(s: Seq<T>)
    requires
        s.len() > 0,
    ensures
        ties(s, s.last()).len() > 0,
        ties(s, s.last()).last() == s.last(),
{
    T::order_laws(s.last(), s.last(), s.last());
}

proof fn lemma_tie_found<T: Ordered>(s: Seq<T>, pivot: T) -> (at: int)
    requires
        ties(s, pivot).len() > 0,
    ensures
        0 <= at < s.len(),
        !s[at].precedes(pivot),
        !pivot.precedes(s[at]),
    decreases s.len(),
{
    if s.last().precedes(pivot) || pivot.precedes(s.last()) {
        lemma_tie_found(s.drop_last(), pivot)
    } else {
        s.len() - 1
    }
}

/// [`merged`] under an order that is given.
pub open spec fn merged_by<T>(
    left: Seq<T>,
    right: Seq<T>,
    before: spec_fn(T, T) -> bool,
) -> Seq<T>
    decreases left.len() + right.len(),
{
    if left.len() == 0 {
        right
    } else if right.len() == 0 {
        left
    } else if before(right.last(), left.last()) {
        merged_by(left.drop_last(), right, before).push(left.last())
    } else {
        merged_by(left, right.drop_last(), before).push(right.last())
    }
}

/// [`stable_sorted`] under an order that is given.
pub open spec fn stable_sorted_by<T>(s: Seq<T>, before: spec_fn(T, T) -> bool) -> Seq<T>
    decreases s.len(),
{
    if s.len() <= 1 {
        s
    } else {
        let middle = s.len() as int / 2;
        merged_by(
            stable_sorted_by(s.take(middle), before),
            stable_sorted_by(s.skip(middle), before),
            before,
        )
    }
}

proof fn lemma_merged_view<T: Ordered, U>(
    left: Seq<T>,
    right: Seq<T>,
    view: spec_fn(T) -> U,
    before: spec_fn(U, U) -> bool,
)
    requires
        forall|a: T, b: T| #[trigger] before(view(a), view(b)) == a.precedes(b),
    ensures
        merged(left, right).map_values(view) == merged_by(
            left.map_values(view),
            right.map_values(view),
            before,
        ),
    decreases left.len() + right.len(),
{
    let shown_left = left.map_values(view);
    let shown_right = right.map_values(view);
    if left.len() > 0 && right.len() > 0 {
        assert(before(view(right.last()), view(left.last())) == right.last().precedes(left.last()));
        if right.last().precedes(left.last()) {
            lemma_merged_view(left.drop_last(), right, view, before);
            assert(shown_left.drop_last() =~= left.drop_last().map_values(view));
        } else {
            lemma_merged_view(left, right.drop_last(), view, before);
            assert(shown_right.drop_last() =~= right.drop_last().map_values(view));
        }
        assert(merged(left, right).map_values(view) =~= merged_by(
            shown_left,
            shown_right,
            before,
        ));
    }
}

/// Sorting commutes with a view that keeps the order.
pub proof fn lemma_sorted_view<T: Ordered, U>(
    s: Seq<T>,
    view: spec_fn(T) -> U,
    before: spec_fn(U, U) -> bool,
)
    requires
        forall|a: T, b: T| #[trigger] before(view(a), view(b)) == a.precedes(b),
    ensures
        stable_sorted(s).map_values(view) == stable_sorted_by(s.map_values(view), before),
    decreases s.len(),
{
    if s.len() > 1 {
        let middle = s.len() as int / 2;
        lemma_sorted_view(s.take(middle), view, before);
        lemma_sorted_view(s.skip(middle), view, before);
        lemma_merged_view(
            stable_sorted(s.take(middle)),
            stable_sorted(s.skip(middle)),
            view,
            before,
        );
        assert(s.map_values(view).take(middle) =~= s.take(middle).map_values(view));
        assert(s.map_values(view).skip(middle) =~= s.skip(middle).map_values(view));
    }
}

proof fn lemma_merged_by_keeps<T>(
    left: Seq<T>,
    right: Seq<T>,
    before: spec_fn(T, T) -> bool,
    wanted: spec_fn(T) -> bool,
)
    requires
        forall|i: int| 0 <= i < left.len() ==> wanted(#[trigger] left[i]),
        forall|i: int| 0 <= i < right.len() ==> wanted(#[trigger] right[i]),
    ensures
        forall|i: int|
            0 <= i < merged_by(left, right, before).len() ==> wanted(
                #[trigger] merged_by(left, right, before)[i],
            ),
    decreases left.len() + right.len(),
{
    if left.len() > 0 && right.len() > 0 {
        let all = merged_by(left, right, before);
        let (rest, last) = if before(right.last(), left.last()) {
            lemma_merged_by_keeps(left.drop_last(), right, before, wanted);
            (merged_by(left.drop_last(), right, before), left.last())
        } else {
            lemma_merged_by_keeps(left, right.drop_last(), before, wanted);
            (merged_by(left, right.drop_last(), before), right.last())
        };
        assert(all == rest.push(last));
        assert forall|i: int| 0 <= i < all.len() implies wanted(#[trigger] all[i]) by {
            if i < rest.len() {
                assert(all[i] == rest[i]);
            } else {
                assert(all[i] == last);
            }
        }
    }
}

/// What holds of all elements holds of all elements in order.
pub proof fn lemma_sorted_by_keeps<T>(
    s: Seq<T>,
    before: spec_fn(T, T) -> bool,
    wanted: spec_fn(T) -> bool,
)
    requires
        forall|i: int| 0 <= i < s.len() ==> wanted(#[trigger] s[i]),
    ensures
        forall|i: int|
            0 <= i < stable_sorted_by(s, before).len() ==> wanted(
                #[trigger] stable_sorted_by(s, before)[i],
            ),
    decreases s.len(),
{
    if s.len() > 1 {
        let middle = s.len() as int / 2;
        lemma_sorted_by_keeps(s.take(middle), before, wanted);
        lemma_sorted_by_keeps(s.skip(middle), before, wanted);
        lemma_merged_by_keeps(
            stable_sorted_by(s.take(middle), before),
            stable_sorted_by(s.skip(middle), before),
            before,
            wanted,
        );
    }
}

/// Whether a relation orders elements, as far as it tells them apart.
pub open spec fn weak_order<T>(before: spec_fn(T, T) -> bool) -> bool {
    &&& forall|a: T, b: T| #[trigger] before(a, b) ==> !before(b, a)
    &&& forall|a: T, b: T, c: T|
        !#[trigger] before(b, a) && !#[trigger] before(c, b) ==> !before(c, a)
}

/// Whether no element comes before an earlier one.
pub open spec fn sorted_by<T>(s: Seq<T>, before: spec_fn(T, T) -> bool) -> bool {
    forall|i: int, j: int| 0 <= i < j < s.len() ==> !before(#[trigger] s[j], #[trigger] s[i])
}

proof fn lemma_merged_by_law<T>(left: Seq<T>, right: Seq<T>, before: spec_fn(T, T) -> bool)
    requires
        weak_order(before),
        sorted_by(left, before),
        sorted_by(right, before),
    ensures
        sorted_by(merged_by(left, right, before), before),
        merged_by(left, right, before).to_multiset() == left.to_multiset().add(
            right.to_multiset(),
        ),
        merged_by(left, right, before).len() == left.len() + right.len(),
    decreases left.len() + right.len(),
{
    broadcast use vstd::seq_lib::group_to_multiset_ensures;

    let all = merged_by(left, right, before);
    if left.len() == 0 {
        assert(left =~= Seq::empty());
        assert(all.to_multiset() =~= left.to_multiset().add(right.to_multiset()));
    } else if right.len() == 0 {
        assert(right =~= Seq::empty());
        assert(all.to_multiset() =~= left.to_multiset().add(right.to_multiset()));
    } else {
        let from_left = before(right.last(), left.last());
        let (fewer, last, shorter, other) = if from_left {
            let shorter = left.drop_last();
            lemma_merged_by_law(shorter, right, before);
            assert(left =~= shorter.push(left.last()));
            (merged_by(shorter, right, before), left.last(), shorter, right)
        } else {
            let shorter = right.drop_last();
            lemma_merged_by_law(left, shorter, before);
            assert(right =~= shorter.push(right.last()));
            (merged_by(left, shorter, before), right.last(), shorter, left)
        };
        assert(all == fewer.push(last));
        assert(all.to_multiset() =~= left.to_multiset().add(right.to_multiset()));
        let wanted = |x: T| !before(last, x);
        assert forall|i: int| 0 <= i < shorter.len() implies wanted(#[trigger] shorter[i]) by {
            if from_left {
                assert(left[i] == shorter[i] && left[left.len() - 1] == last);
            } else {
                assert(right[i] == shorter[i] && right[right.len() - 1] == last);
            }
        }
        assert forall|i: int| 0 <= i < other.len() implies wanted(#[trigger] other[i]) by {
            let end = other[other.len() - 1];
            assert(end == other.last());
            assert(!before(last, end));
            if i < other.len() - 1 {
                assert(!before(end, other[i]));
            }
        }
        if from_left {
            lemma_merged_by_keeps(shorter, right, before, wanted);
        } else {
            lemma_merged_by_keeps(left, shorter, before, wanted);
        }
        assert forall|i: int, j: int| 0 <= i < j < all.len() implies !before(
            #[trigger] all[j],
            #[trigger] all[i],
        ) by {
            assert(all[i] == fewer[i]);
            if j < fewer.len() {
                assert(all[j] == fewer[j]);
            } else {
                assert(wanted(fewer[i]));
            }
        }
    }
}

/// Elements in an order are the elements, none before an earlier one.
pub proof fn law_sorted_by<T>(s: Seq<T>, before: spec_fn(T, T) -> bool)
    requires
        weak_order(before),
    ensures
        sorted_by(stable_sorted_by(s, before), before),
        stable_sorted_by(s, before).to_multiset() == s.to_multiset(),
        stable_sorted_by(s, before).len() == s.len(),
    decreases s.len(),
{
    broadcast use vstd::seq_lib::group_to_multiset_ensures;

    if s.len() > 1 {
        let middle = s.len() as int / 2;
        let left = s.take(middle);
        let right = s.skip(middle);
        law_sorted_by(left, before);
        law_sorted_by(right, before);
        lemma_merged_by_law(
            stable_sorted_by(left, before),
            stable_sorted_by(right, before),
            before,
        );
        assert(left + right =~= s);
        vstd::seq_lib::lemma_multiset_commutative(left, right);
    }
}

} // verus!
