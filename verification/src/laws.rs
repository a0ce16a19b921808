use vstd::prelude::*;
use vstd::multiset::Multiset;
use vstd::multiset::lemma_multiset_empty_len;
use vstd::relations::total_ordering;
use vstd::seq_lib::{lemma_multiset_commutative, to_multiset_build, to_multiset_remove};
use crate::distance_item::DistanceItem;
use crate::geometry::Point;
use crate::partition::{splitting_segment, unbounded, Segment};
use crate::shape::{
    is_n_nearest, is_nearest, lemma_inserted_distances, lemma_inserted_entries,
    lemma_inserted_ordered, measured, Entry, Shape,
};

verus! {

/// What a scan over `entries` yields for the query point `query`: for each
/// entry its identifier and squared distance, in the order of the entries.
pub open spec fn measured_all(entries: Seq<Entry>, query: Point) -> Seq<DistanceItem> {
    Seq::new(entries.len(), |i: int| measured(entries[i], query))
}

/// The closest item that a scan over `entries` from the first to the last
/// finds for `query`; of equally close ones the first.
pub open spec fn closest_by_scan(entries: Seq<Entry>, query: Point) -> Option<DistanceItem>
    decreases entries.len(),
{
    if entries.len() == 0 {
        None
    } else {
        let last = measured(entries.last(), query);
        match closest_by_scan(entries.drop_last(), query) {
            None => Some(last),
            Some(best) => if last.1 < best.1 {
                Some(last)
            } else {
                Some(best)
            },
        }
    }
}

/// Whether no two different items of `all` are equally far.
pub open spec fn tie_free(all: Multiset<DistanceItem>) -> bool {
    forall|a: DistanceItem, b: DistanceItem|
        #![trigger all.count(a), all.count(b)]
        all.count(a) > 0 && all.count(b) > 0 && a.1 == b.1 ==> a == b
}

/// An index holds exactly what was inserted, as often as it was inserted.
pub proof fn lemma_built_entries(entries: Seq<Entry>)
    ensures
        Shape::built(entries).entries() == entries.to_multiset(),
        Shape::built(entries).size() == entries.len(),
    decreases entries.len(),
{
    if entries.len() == 0 {
        entries.to_multiset_ensures();
        assert(entries.to_multiset() =~= Multiset::empty());
    } else {
        lemma_built_entries(entries.drop_last());
        lemma_inserted_entries(Shape::built(entries.drop_last()), entries.last(), 0);
        to_multiset_build(entries.drop_last(), entries.last());
        assert(entries.drop_last().push(entries.last()) =~= entries);
    }
}

/// Whatever is inserted in whatever order, the index is in search-tree
/// order: on the axis of each node, the entries of its lesser side are not
/// above it and those of its greater side are.
pub proof fn lemma_built_ordered(entries: Seq<Entry>)
    ensures
        Shape::built(entries).ordered(0),
    decreases entries.len(),
{
    if entries.len() > 0 {
        lemma_built_ordered(entries.drop_last());
        lemma_inserted_ordered(Shape::built(entries.drop_last()), entries.last(), 0);
    }
}

/// What the queries see of an index is what a scan over the inserted entries
/// sees.
pub proof fn lemma_built_distances(entries: Seq<Entry>, query: Point)
    ensures
        Shape::built(entries).distances(query) == measured_all(entries, query).to_multiset(),
    decreases entries.len(),
{
    let items = measured_all(entries, query);
    if entries.len() == 0 {
        items.to_multiset_ensures();
        assert(items.to_multiset() =~= Multiset::empty());
    } else {
        let before = entries.drop_last();
        lemma_built_distances(before, query);
        lemma_inserted_distances(Shape::built(before), entries.last(), 0, query);
        to_multiset_build(measured_all(before, query), measured(entries.last(), query));
        assert(measured_all(before, query).push(measured(entries.last(), query)) =~= items);
    }
}

/// Two sequences that hold the same entries equally often give the same
/// distance items equally often.
pub proof fn lemma_permuted_scan(first: Seq<Entry>, second: Seq<Entry>, query: Point)
    requires
        first.to_multiset() == second.to_multiset(),
    ensures
        measured_all(first, query).to_multiset() == measured_all(second, query).to_multiset(),
    decreases first.len(),
{
    first.to_multiset_ensures();
    second.to_multiset_ensures();
    let first_items = measured_all(first, query);
    let second_items = measured_all(second, query);
    if first.len() == 0 {
        assert(first_items =~= second_items);
    } else {
        let entry = first.last();
        assert(first.contains(entry));
        assert(second.to_multiset().count(entry) > 0);
        assert(second.contains(entry));
        let j = choose|j: int| 0 <= j < second.len() && second[j] == entry;
        let first_rest = first.drop_last();
        let second_rest = second.remove(j);
        to_multiset_remove(second, j);
        to_multiset_remove(first, first.len() - 1);
        assert(first.remove(first.len() - 1) =~= first_rest);
        lemma_permuted_scan(first_rest, second_rest, query);
        let item = measured(entry, query);
        assert(first_items =~= measured_all(first_rest, query).push(item));
        to_multiset_build(measured_all(first_rest, query), item);
        assert(second_items.remove(j) =~= measured_all(second_rest, query));
        to_multiset_remove(second_items, j);
        second_items.to_multiset_ensures();
        assert(second_items.contains(second_items[j]));
        assert(second_items.to_multiset() =~= second_items.to_multiset().remove(item).insert(
            item,
        ));
    }
}

/// The order of insertion does not matter to the queries: two indexes that
/// were given the same entries, in any two orders, hold the same entries and
/// show the same distance items to every query.
pub proof fn lemma_insertion_order_irrelevant(first: Seq<Entry>, second: Seq<Entry>, query: Point)
    requires
        first.to_multiset() == second.to_multiset(),
    ensures
        Shape::built(first).entries() == Shape::built(second).entries(),
        Shape::built(first).distances(query) == Shape::built(second).distances(query),
{
    lemma_built_entries(first);
    lemma_built_entries(second);
    lemma_built_distances(first, query);
    lemma_built_distances(second, query);
    lemma_permuted_scan(first, second, query);
}

/// The scan from the first entry to the last finds an item that none is
/// closer than.
pub proof fn lemma_scan_finds_nearest(entries: Seq<Entry>, query: Point)
    requires
        entries.len() > 0,
    ensures
        closest_by_scan(entries, query) is Some,
        is_nearest(
            measured_all(entries, query).to_multiset(),
            closest_by_scan(entries, query)->0,
        ),
    decreases entries.len(),
{
    let before = entries.drop_last();
    let last = measured(entries.last(), query);
    let items = measured_all(entries, query);
    let items_before = measured_all(before, query);
    assert(items_before.push(last) =~= items);
    to_multiset_build(items_before, last);
    if before.len() == 0 {
        items_before.to_multiset_ensures();
        assert(items_before.to_multiset() =~= Multiset::empty());
        assert(closest_by_scan(before, query) is None);
    } else {
        lemma_scan_finds_nearest(before, query);
    }
}

/// Right after an entry was inserted, a query at its location finds an entry
/// at the distance 0.
pub proof fn lemma_inserted_is_nearest_to_itself(shape: Shape, entry: Entry, found: DistanceItem)
    requires
        is_nearest(shape.inserted(entry, 0).distances(entry.location), found),
    ensures
        found.1 == 0,
{
    lemma_inserted_distances(shape, entry, 0, entry.location);
    let own = measured(entry, entry.location);
    assert(own.1 == 0);
    assert(shape.inserted(entry, 0).distances(entry.location).count(own) > 0);
}

/// All nearest items are equally far; where no two different items are
/// equally far there is one nearest item only.
pub proof fn lemma_nearest_unique(all: Multiset<DistanceItem>, one: DistanceItem, other: DistanceItem)
    requires
        is_nearest(all, one),
        is_nearest(all, other),
    ensures
        one.1 == other.1,
        tie_free(all) ==> one == other,
{
}

/// Two indexes that were given the same entries, in any two orders, find
/// nearest entries that are equally far from the query, and the same entry
/// where no two entries are equally far.
pub proof fn lemma_nearest_order_independent(
    first: Seq<Entry>,
    second: Seq<Entry>,
    query: Point,
    found_first: DistanceItem,
    found_second: DistanceItem,
)
    requires
        first.to_multiset() == second.to_multiset(),
        is_nearest(Shape::built(first).distances(query), found_first),
        is_nearest(Shape::built(second).distances(query), found_second),
    ensures
        found_first.1 == found_second.1,
        tie_free(Shape::built(first).distances(query)) ==> found_first == found_second,
{
    lemma_insertion_order_irrelevant(first, second, query);
    lemma_nearest_unique(Shape::built(first).distances(query), found_first, found_second);
}

/// The nearest entry that the index finds is as close as the one that a scan
/// over all inserted entries finds, and it is the same entry where no two
/// entries are equally far from the query.
pub proof fn lemma_nearest_matches_scan(entries: Seq<Entry>, query: Point, found: DistanceItem)
    requires
        is_nearest(Shape::built(entries).distances(query), found),
    ensures
        closest_by_scan(entries, query) matches Some(scanned) && found.1 == scanned.1,
        tie_free(Shape::built(entries).distances(query)) ==> Some(found) == closest_by_scan(
            entries,
            query,
        ),
{
    lemma_built_distances(entries, query);
    if entries.len() == 0 {
        let items = measured_all(entries, query);
        items.to_multiset_ensures();
        assert(items.to_multiset() =~= Multiset::empty());
    } else {
        lemma_scan_finds_nearest(entries, query);
        lemma_nearest_unique(
            Shape::built(entries).distances(query),
            found,
            closest_by_scan(entries, query)->0,
        );
    }
}

/// The order of a scan's result: by distance, and among equally far items
/// by identifier.
pub open spec fn closer_or_equal(a: DistanceItem, b: DistanceItem) -> bool {
    a.1 < b.1 || (a.1 == b.1 && a.0 <= b.0)
}

/// The `n` closest items that a scan over `entries` finds for `query`, the
/// closest first: all items put in order, and the first `n` of them taken,
/// or all where there are fewer.
pub open spec fn n_closest_by_scan(entries: Seq<Entry>, query: Point, n: nat) -> Seq<DistanceItem> {
    let sorted = measured_all(entries, query).sort_by(|a: DistanceItem, b: DistanceItem| closer_or_equal(a, b));
    if n <= sorted.len() {
        sorted.take(n as int)
    } else {
        sorted
    }
}

/// The number of items of `set` at the squared distance `distance`.
pub open spec fn count_at(set: Multiset<DistanceItem>, distance: u128) -> nat {
    set.filter(|item: DistanceItem| item.1 == distance).len()
}

/// Putting all items in order and taking the first `n` gives the `n`
/// nearest.
pub proof fn lemma_scan_finds_n_nearest(entries: Seq<Entry>, query: Point, n: nat)
    ensures
        is_n_nearest(
            measured_all(entries, query).to_multiset(),
            n,
            n_closest_by_scan(entries, query, n).to_multiset(),
        ),
{
    let leq = |a: DistanceItem, b: DistanceItem| closer_or_equal(a, b);
    let items = measured_all(entries, query);
    let all = items.to_multiset();
    let sorted = items.sort_by(leq);
    assert(total_ordering(leq)) by {
        assert forall|x: DistanceItem, y: DistanceItem| #[trigger]
            leq(x, y) && #[trigger] leq(y, x) implies x == y by {}
    }
    items.lemma_sort_by_ensures(leq);
    items.to_multiset_ensures();
    sorted.to_multiset_ensures();
    let taken = n_closest_by_scan(entries, query, n);
    let k: int = if n <= sorted.len() {
        n as int
    } else {
        sorted.len() as int
    };
    let left = sorted.skip(k);
    assert(taken =~= sorted.take(k));
    assert(taken + left =~= sorted);
    lemma_multiset_commutative(taken, left);
    taken.to_multiset_ensures();
    left.to_multiset_ensures();
    let chosen = taken.to_multiset();
    assert(all =~= chosen.add(left.to_multiset()));
    assert(all.sub(chosen) =~= left.to_multiset());
    assert(chosen.subset_of(all));
    assert forall|a: DistanceItem, b: DistanceItem|
        #![trigger chosen.count(a), all.sub(chosen).count(b)]
        chosen.count(a) > 0 && all.sub(chosen).count(b) > 0 implies a.1 <= b.1 by {
        assert(taken.contains(a));
        assert(left.contains(b));
        let i = choose|i: int| 0 <= i < taken.len() && taken[i] == a;
        let j = choose|j: int| 0 <= j < left.len() && left[j] == b;
        assert(sorted[i] == a);
        assert(sorted[k + j] == b);
        assert(leq(sorted[i], sorted[k + j]));
    }
}

/// Two choices of the `n` nearest items differ at most in which of several
/// equally far items they hold: at every distance they hold equally many, and
/// where no two different items are equally far they are the same.
pub proof fn lemma_n_nearest_unique(
    all: Multiset<DistanceItem>,
    n: nat,
    one: Multiset<DistanceItem>,
    other: Multiset<DistanceItem>,
)
    requires
        is_n_nearest(all, n, one),
        is_n_nearest(all, n, other),
    ensures
        one.len() == other.len(),
        forall|distance: u128| count_at(one, distance) == count_at(other, distance),
        tie_free(all) ==> one == other,
{
    let only_one = one.sub(other);
    let only_other = other.sub(one);
    let both = one.sub(only_one);
    assert(one =~= both.add(only_one));
    assert(other =~= both.add(only_other));
    assert(only_one.len() == only_other.len());
    if only_one.len() == 0 {
        lemma_multiset_empty_len(only_one);
        lemma_multiset_empty_len(only_other);
        assert(one =~= other);
    } else {
        lemma_multiset_empty_len(only_one);
        lemma_multiset_empty_len(only_other);
        let x = choose|x: DistanceItem| 0 < only_one.count(x);
        let y = choose|y: DistanceItem| 0 < only_other.count(y);
        assert forall|a: DistanceItem, b: DistanceItem|
            only_one.count(a) > 0 && only_other.count(b) > 0 implies a.1 == b.1 by {
            assert(one.count(a) > 0 && all.sub(other).count(a) > 0);
            assert(other.count(b) > 0 && all.sub(one).count(b) > 0);
        }
        assert(x.1 == y.1);
        assert(x != y);
        assert(all.count(x) > 0 && all.count(y) > 0);
        assert forall|distance: u128| count_at(one, distance) == count_at(other, distance) by {
            let at = |item: DistanceItem| item.1 == distance;
            assert(one.filter(at) =~= both.filter(at).add(only_one.filter(at)));
            assert(other.filter(at) =~= both.filter(at).add(only_other.filter(at)));
            if distance == x.1 {
                assert(only_one.filter(at) =~= only_one) by {
                    assert forall|a: DistanceItem| only_one.filter(at).count(a) == only_one.count(
                        a,
                    ) by {
                        if only_one.count(a) > 0 {
                            assert(a.1 == y.1);
                        }
                    }
                }
                assert(only_other.filter(at) =~= only_other) by {
                    assert forall|b: DistanceItem| only_other.filter(at).count(b)
                        == only_other.count(b) by {
                        if only_other.count(b) > 0 {
                            assert(x.1 == b.1);
                        }
                    }
                }
            } else {
                assert(only_one.filter(at) =~= Multiset::empty()) by {
                    assert forall|a: DistanceItem| only_one.filter(at).count(a) == 0 by {
                        if only_one.count(a) > 0 {
                            assert(a.1 == y.1);
                        }
                    }
                }
                assert(only_other.filter(at) =~= Multiset::empty()) by {
                    assert forall|b: DistanceItem| only_other.filter(at).count(b) == 0 by {
                        if only_other.count(b) > 0 {
                            assert(x.1 == b.1);
                        }
                    }
                }
            }
        }
    }
}

/// Two indexes that were given the same entries, in any two orders, find
/// equally many nearest entries, at every distance equally many, and the same
/// entries where no two entries are equally far.
pub proof fn lemma_n_nearest_order_independent(
    first: Seq<Entry>,
    second: Seq<Entry>,
    query: Point,
    n: nat,
    found_first: Multiset<DistanceItem>,
    found_second: Multiset<DistanceItem>,
)
    requires
        first.to_multiset() == second.to_multiset(),
        is_n_nearest(Shape::built(first).distances(query), n, found_first),
        is_n_nearest(Shape::built(second).distances(query), n, found_second),
    ensures
        found_first.len() == found_second.len(),
        forall|distance: u128| count_at(found_first, distance) == count_at(found_second, distance),
        tie_free(Shape::built(first).distances(query)) ==> found_first == found_second,
{
    lemma_insertion_order_irrelevant(first, second, query);
    lemma_n_nearest_unique(Shape::built(first).distances(query), n, found_first, found_second);
}

/// The `n` nearest entries that the index finds are as many as a scan over
/// all inserted entries finds, at every distance equally many, and the same
/// entries where no two entries are equally far from the query.
pub proof fn lemma_n_nearest_matches_scan(
    entries: Seq<Entry>,
    query: Point,
    n: nat,
    found: Multiset<DistanceItem>,
)
    requires
        is_n_nearest(Shape::built(entries).distances(query), n, found),
    ensures
        found.len() == if n <= entries.len() {
            n
        } else {
            entries.len()
        },
        forall|distance: u128|
            count_at(found, distance) == count_at(
                n_closest_by_scan(entries, query, n).to_multiset(),
                distance,
            ),
        tie_free(Shape::built(entries).distances(query)) ==> found == n_closest_by_scan(
            entries,
            query,
            n,
        ).to_multiset(),
{
    lemma_built_distances(entries, query);
    measured_all(entries, query).to_multiset_ensures();
    lemma_scan_finds_n_nearest(entries, query, n);
    lemma_n_nearest_unique(
        Shape::built(entries).distances(query),
        n,
        found,
        n_closest_by_scan(entries, query, n).to_multiset(),
    );
}

/// An empty index has no boundary line, and an index of one entry has one:
/// the line through the entry from the lower end of the grid to the upper,
/// at the entry's x.
pub proof fn lemma_boundary_of_one(entry: Entry)
    ensures
        Shape::Empty.boundary_segments() == Seq::<Segment>::empty(),
        Shape::leaf(entry).boundary_segments() == seq![
            Segment {
                from: Point { x: entry.location.x, y: i32::MIN },
                to: Point { x: entry.location.x, y: i32::MAX },
            },
        ],
{
    let one = Shape::leaf(entry);
    assert(Shape::Empty.height() == 0);
    assert(one.height() == 1);
    assert(one.segments_above(0) == Seq::<Segment>::empty());
    assert(one.segments_above(1) == one.segments_above(0) + one.level_segments(0, unbounded(), 0));
    assert(one.boundary_segments() =~= seq![splitting_segment(entry.location, 0, unbounded())]);
}

} // verus!
