use vstd::prelude::*;
use vstd::multiset::Multiset;
use vstd::seq_lib::{to_multiset_contains, to_multiset_build, to_multiset_insert, to_multiset_remove};
use crate::distance_item::DistanceItem;

verus! {

/// Whether `worst` is an item of `set` that none is farther than.
pub open spec fn is_worst(set: Multiset<DistanceItem>, worst: DistanceItem) -> bool {
    &&& set.count(worst) > 0
    &&& forall|other: DistanceItem| #[trigger] set.count(other) > 0 ==> other.1 <= worst.1
}

/// The place above `i` in the heap.
pub open spec fn parent(i: int) -> int {
    (i - 1) / 2
}

/// No item is farther than the one above it.
pub open spec fn heap_ordered(items: Seq<DistanceItem>) -> bool {
    forall|i: int| 0 < i < items.len() ==> items[parent(i)].1 >= (#[trigger] items[i]).1
}

/// The heap order with one place left out: the item at `hole` may be farther
/// than the one above it, and the items below `hole` are already no farther
/// than the one above `hole`.
pub open spec fn ordered_but_above(items: Seq<DistanceItem>, hole: int) -> bool {
    &&& forall|i: int|
        0 < i < items.len() && i != hole ==> items[parent(i)].1 >= (#[trigger] items[i]).1
    &&& forall|i: int|
        0 < i < items.len() && parent(i) == hole && hole > 0 ==> items[parent(hole)].1 >= (
        #[trigger] items[i]).1
}

/// The heap order with one place left out: the items below `hole` may be
/// farther than the item at `hole`, and they are already no farther than the
/// one above `hole`.
pub open spec fn ordered_but_below(items: Seq<DistanceItem>, hole: int) -> bool {
    &&& forall|i: int|
        0 < i < items.len() && parent(i) != hole ==> items[parent(i)].1 >= (#[trigger] items[i]).1
    &&& forall|i: int|
        0 < i < items.len() && parent(i) == hole && hole > 0 ==> items[parent(hole)].1 >= (
        #[trigger] items[i]).1
}

/// In a heap no item is farther than the first.
pub proof fn lemma_first_is_worst(items: Seq<DistanceItem>, i: int)
    requires
        heap_ordered(items),
        0 <= i < items.len(),
    ensures
        items[i].1 <= items[0].1,
    decreases i,
{
    if i > 0 {
        lemma_first_is_worst(items, parent(i));
    }
}

/// The first item of a heap is a farthest item of what the heap holds.
pub proof fn lemma_front_is_worst(items: Seq<DistanceItem>)
    requires
        heap_ordered(items),
        items.len() > 0,
    ensures
        is_worst(items.to_multiset(), items[0]),
{
    items.to_multiset_ensures();
    assert forall|other: DistanceItem| #[trigger]
        items.to_multiset().count(other) > 0 implies other.1 <= items[0].1 by {
        to_multiset_contains(items, other);
        let i = choose|i: int| 0 <= i < items.len() && items[i] == other;
        lemma_first_is_worst(items, i);
    }
}

/// Exchanging two items keeps what the sequence holds.
pub proof fn lemma_exchange_keeps_items(items: Seq<DistanceItem>, i: int, j: int)
    requires
        0 <= i < j < items.len(),
    ensures
        items.update(i, items[j]).update(j, items[i]).to_multiset() == items.to_multiset(),
{
    let rest = items.remove(j).remove(i);
    let exchanged = items.update(i, items[j]).update(j, items[i]);
    assert(items =~= rest.insert(i, items[i]).insert(j, items[j]));
    assert(exchanged =~= rest.insert(i, items[j]).insert(j, items[i]));
    to_multiset_insert(rest, i, items[i]);
    to_multiset_insert(rest.insert(i, items[i]), j, items[j]);
    to_multiset_insert(rest, i, items[j]);
    to_multiset_insert(rest.insert(i, items[j]), j, items[i]);
}

/// Moving the last item to the front in place of the first takes one
/// occurrence of the first item away.
pub proof fn lemma_swap_remove_first(items: Seq<DistanceItem>)
    requires
        items.len() > 0,
    ensures
        items.update(0, items.last()).drop_last().to_multiset() == items.to_multiset().remove(
            items[0],
        ),
{
    let moved = items.update(0, items.last()).drop_last();
    to_multiset_remove(items, 0);
    if items.len() == 1 {
        assert(moved =~= items.remove(0));
    } else {
        let middle = items.subrange(1, items.len() - 1);
        assert(moved =~= middle.insert(0, items.last()));
        assert(items.remove(0) =~= middle.push(items.last()));
        to_multiset_insert(middle, 0, items.last());
        to_multiset_build(middle, items.last());
    }
}

/// A sequence without items holds nothing.
pub proof fn lemma_empty_holds_nothing()
    ensures
        Seq::<DistanceItem>::empty().to_multiset() == Multiset::<DistanceItem>::empty(),
{
    Seq::<DistanceItem>::empty().to_multiset_ensures();
}

/// Exchanges the items at `i` and `j`.
fn exchange(items: &mut Vec<DistanceItem>, i: usize, j: usize)
    requires
        i < j < old(items)@.len(),
    ensures
        final(items)@ == old(items)@.update(i as int, old(items)@[j as int]).update(
            j as int,
            old(items)@[i as int],
        ),
        final(items)@.to_multiset() == old(items)@.to_multiset(),
{
    proof {
        lemma_exchange_keeps_items(items@, i as int, j as int);
    }
    let upper: DistanceItem = items[i];
    let lower: DistanceItem = items[j];
    items[i] = lower;
    items[j] = upper;
}

/// Moves the item at `start` up until the one above it is no closer.
fn sift_up(items: &mut Vec<DistanceItem>, start: usize)
    requires
        start < old(items)@.len(),
        ordered_but_above(old(items)@, start as int),
    ensures
        heap_ordered(final(items)@),
        final(items)@.len() == old(items)@.len(),
        final(items)@.to_multiset() == old(items)@.to_multiset(),
{
    let mut i: usize = start;
    while i > 0
        invariant
            i < items@.len(),
            items@.len() == old(items)@.len(),
            ordered_but_above(items@, i as int),
            items@.to_multiset() == old(items)@.to_multiset(),
        ensures
            heap_ordered(items@),
            items@.len() == old(items)@.len(),
            items@.to_multiset() == old(items)@.to_multiset(),
        decreases i,
    {
        let above: usize = (i - 1) / 2;
        if items[above].1 < items[i].1 {
            exchange(items, above, i);
            i = above;
        } else {
            break ;
        }
    }
}

/// Moves the item at the front down until neither item below it is farther.
fn sift_down(items: &mut Vec<DistanceItem>)
    requires
        ordered_but_below(old(items)@, 0),
    ensures
        heap_ordered(final(items)@),
        final(items)@.len() == old(items)@.len(),
        final(items)@.to_multiset() == old(items)@.to_multiset(),
{
    let len: usize = items.len();
    let mut i: usize = 0;
    while i < len / 2
        invariant
            len == items@.len(),
            len == old(items)@.len(),
            ordered_but_below(items@, i as int),
            items@.to_multiset() == old(items)@.to_multiset(),
        ensures
            heap_ordered(items@),
            items@.len() == old(items)@.len(),
            items@.to_multiset() == old(items)@.to_multiset(),
        decreases len - i,
    {
        let left: usize = 2 * i + 1;
        let right: usize = left + 1;
        let farther: usize = if right < len && items[right].1 > items[left].1 {
            right
        } else {
            left
        };
        if items[farther].1 > items[i].1 {
            exchange(items, i, farther);
            i = farther;
        } else {
            break ;
        }
    }
}

/// A set of distance items of fixed capacity that hands out its farthest
/// item at once: a binary heap with the farthest item in front.
///
/// An item may occur more than once, so the set is modelled as a multiset.
#[derive(Debug)]
pub struct BoundedNearestSet {
    items: Vec<DistanceItem>,
    capacity: usize,
}

impl View for BoundedNearestSet {
    type V = Multiset<DistanceItem>;

    closed spec fn view(&self) -> Multiset<DistanceItem> {
        self.items@.to_multiset()
    }
}

impl BoundedNearestSet {
    #[verifier::type_invariant]
    spec fn well_formed(self) -> bool {
        &&& heap_ordered(self.items@)
        &&& self.items@.len() <= self.capacity
    }

    /// The number of items the set takes.
    pub closed spec fn limit(self) -> nat {
        self.capacity as nat
    }

    /// An empty set that takes no item.
    pub fn new() -> (set: Self)
        ensures
            set@ == Multiset::<DistanceItem>::empty(),
            set.limit() == 0,
    {
        proof {
            lemma_empty_holds_nothing();
        }
        BoundedNearestSet { items: Vec::new(), capacity: 0 }
    }

    /// An empty set that takes up to `capacity` items.
    pub fn with_capacity(capacity: usize) -> (set: Self)
        ensures
            set@ == Multiset::<DistanceItem>::empty(),
            set.limit() == capacity,
    {
        proof {
            lemma_empty_holds_nothing();
        }
        BoundedNearestSet { items: Vec::new(), capacity }
    }

    /// The number of items the set takes.
    pub fn capacity(&self) -> (capacity: usize)
        ensures
            capacity == self.limit(),
    {
        self.capacity
    }

    /// The number of items in the set.
    pub fn len(&self) -> (len: usize)
        ensures
            len == self@.len(),
            len <= self.limit(),
    {
        proof {
            use_type_invariant(self);
            self.items@.to_multiset_ensures();
        }
        self.items.len()
    }

    /// Whether the set holds no item.
    pub fn is_empty(&self) -> (empty: bool)
        ensures
            empty == (self@.len() == 0),
    {
        self.len() == 0
    }

    /// Whether the set holds as many items as it takes.
    pub fn is_full(&self) -> (full: bool)
        ensures
            full == (self@.len() == self.limit()),
    {
        self.len() == self.capacity
    }

    /// The farthest item, if there is any. Of several equally far items it
    /// is one of them.
    pub fn peek(&self) -> (worst: Option<DistanceItem>)
        ensures
            worst is None <==> self@.len() == 0,
            worst matches Some(item) ==> is_worst(self@, item),
    {
        proof {
            use_type_invariant(self);
            self.items@.to_multiset_ensures();
        }
        if self.items.len() == 0 {
            None
        } else {
            proof {
                lemma_front_is_worst(self.items@);
            }
            Some(self.items[0])
        }
    }

    /// Adds `item` unless the set is full; the result says whether it was
    /// added.
    pub fn push(&mut self, item: DistanceItem) -> (pushed: bool)
        ensures
            final(self).limit() == old(self).limit(),
            pushed == (old(self)@.len() < old(self).limit()),
            pushed ==> final(self)@ == old(self)@.insert(item),
            !pushed ==> final(self)@ == old(self)@,
    {
        proof {
            use_type_invariant(&*self);
            self.items@.to_multiset_ensures();
        }
        if self.items.len() >= self.capacity {
            return false;
        }
        let mut taken = BoundedNearestSet::new();
        core::mem::swap(self, &mut taken);
        let BoundedNearestSet { items: mut items, capacity } = taken;
        let last: usize = items.len();
        proof {
            to_multiset_build(items@, item);
        }
        items.push(item);
        sift_up(&mut items, last);
        *self = BoundedNearestSet { items, capacity };
        true
    }

    /// Takes the farthest item out, if there is any. Of several equally far
    /// items it is one of them.
    pub fn pop(&mut self) -> (worst: Option<DistanceItem>)
        ensures
            final(self).limit() == old(self).limit(),
            worst is None <==> old(self)@.len() == 0,
            worst is None ==> final(self)@ == old(self)@,
            worst matches Some(item) ==> is_worst(old(self)@, item) && final(self)@ == old(
                self,
            )@.remove(item),
    {
        proof {
            use_type_invariant(&*self);
            self.items@.to_multiset_ensures();
        }
        if self.items.len() == 0 {
            return None;
        }
        let mut taken = BoundedNearestSet::new();
        core::mem::swap(self, &mut taken);
        let BoundedNearestSet { items: mut items, capacity } = taken;
        proof {
            lemma_front_is_worst(items@);
            lemma_swap_remove_first(items@);
        }
        let front: DistanceItem = items.swap_remove(0);
        sift_down(&mut items);
        *self = BoundedNearestSet { items, capacity };
        Some(front)
    }

    /// The items, in no order that a caller may rely on.
    pub fn into_vec(self) -> (items: Vec<DistanceItem>)
        ensures
            items@.to_multiset() == self@,
    {
        self.items
    }

    /// The items, in no order that a caller may rely on.
    pub fn as_slice(&self) -> (items: &[DistanceItem])
        ensures
            items@.to_multiset() == self@,
    {
        self.items.as_slice()
    }
}

} // verus!
