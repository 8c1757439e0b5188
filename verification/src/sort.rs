//! Sorting by path.

use vstd::prelude::*;

use crate::path::{self, Part, SavePath};

verus! {

/// What has a path to sort it by.
pub trait Located: View + Sized {
    /// The path of a value that looks like `view`.
    spec fn parts(view: Self::V) -> Seq<Part>;

    /// The path of the value.
    fn location(&self) -> (path: &SavePath)
        ensures
            path@.parts == Self::parts(self@),
    ;
}

/// What each of a list of values looks like.
pub open spec fn views<T: View>(items: Seq<T>) -> Seq<T::V> {
    Seq::new(items.len(), |i: int| items[i]@)
}

/// The sorted list `items` and one more value, after those that it equals.
pub open spec fn inserted<T: Located>(items: Seq<T::V>, item: T::V) -> Seq<T::V>
    decreases items.len(),
{
    if items.len() == 0 || path::parts_le(T::parts(items.last()), T::parts(item)) {
        items.push(item)
    } else {
        inserted::<T>(items.drop_last(), item).push(items.last())
    }
}

/// The list `items` by path, equal ones in their order.
pub open spec fn sorted<T: Located>(items: Seq<T::V>) -> Seq<T::V>
    decreases items.len(),
{
    if items.len() == 0 {
        items
    } else {
        inserted::<T>(sorted::<T>(items.drop_last()), items.last())
    }
}

/// Whether `items` stand by path.
pub open spec fn in_order<T: Located>(items: Seq<T::V>) -> bool {
    forall|i: int, j: int|
        0 <= i < j < items.len() ==> path::parts_le(
            T::parts(#[trigger] items[i]),
            T::parts(#[trigger] items[j]),
        )
}

/// A value goes before the last ones, all of which are greater, where it does not go
/// before the one before them.
proof fn lemma_inserted_at<T: Located>(items: Seq<T::V>, item: T::V, at: int)
    requires
        0 <= at <= items.len(),
        at > 0 ==> path::parts_le(T::parts(items[at - 1]), T::parts(item)),
        forall|i: int|
            at <= i < items.len() ==> !path::parts_le(
                T::parts(#[trigger] items[i]),
                T::parts(item),
            ),
    ensures
        inserted::<T>(items, item) == items.insert(at, item),
    decreases items.len(),
{
    if at < items.len() {
        assert(!path::parts_le(T::parts(items[items.len() - 1]), T::parts(item)));
        lemma_inserted_at::<T>(items.drop_last(), item, at);
        assert(inserted::<T>(items, item) =~= items.insert(at, item));
    } else {
        assert(items.insert(at, item) =~= items.push(item));
    }
}

/// Inserting keeps the order, and adds nothing but the value.
proof fn lemma_inserted<T: Located>(items: Seq<T::V>, item: T::V)
    requires
        in_order::<T>(items),
    ensures
        in_order::<T>(inserted::<T>(items, item)),
        inserted::<T>(items, item).len() == items.len() + 1,
        inserted::<T>(items, item).to_multiset() == items.to_multiset().insert(item),
        forall|i: int|
            0 <= i < inserted::<T>(items, item).len() ==> {
                let value = #[trigger] inserted::<T>(items, item)[i];
                value == item || items.contains(value)
            },
    decreases items.len(),
{
    broadcast use vstd::seq_lib::group_to_multiset_ensures;

    let result = inserted::<T>(items, item);
    if items.len() == 0 || path::parts_le(T::parts(items.last()), T::parts(item)) {
        assert forall|i: int, j: int| 0 <= i < j < result.len() implies path::parts_le(
            T::parts(#[trigger] result[i]),
            T::parts(#[trigger] result[j]),
        ) by {
            if j == items.len() && i < items.len() - 1 {
                path::lemma_parts_le_trans(
                    T::parts(items[i]),
                    T::parts(items[items.len() - 1]),
                    T::parts(item),
                );
            }
        }
        assert forall|i: int| 0 <= i < result.len() implies {
            let value = #[trigger] result[i];
            value == item || items.contains(value)
        } by {
            if i < items.len() {
                assert(items[i] == result[i]);
            }
        }
    } else {
        let before = items.drop_last();
        let inner = inserted::<T>(before, item);
        lemma_inserted::<T>(before, item);
        path::lemma_parts_le_total(T::parts(items.last()), T::parts(item));
        assert(items =~= before.push(items.last()));
        assert forall|i: int, j: int| 0 <= i < j < result.len() implies path::parts_le(
            T::parts(#[trigger] result[i]),
            T::parts(#[trigger] result[j]),
        ) by {
            if j < inner.len() {
                assert(result[i] == inner[i] && result[j] == inner[j]);
            } else {
                assert(result[i] == inner[i]);
                if inner[i] != item {
                    let k = choose|k: int| 0 <= k < before.len() && before[k] == inner[i];
                    assert(items[k] == inner[i]);
                    assert(items[items.len() - 1] == result[j]);
                }
            }
        }
        assert forall|i: int| 0 <= i < result.len() implies {
            let value = #[trigger] result[i];
            value == item || items.contains(value)
        } by {
            if i < inner.len() {
                assert(result[i] == inner[i]);
                if inner[i] != item {
                    let k = choose|k: int| 0 <= k < before.len() && before[k] == inner[i];
                    assert(items[k] == inner[i]);
                }
            } else {
                assert(items[items.len() - 1] == result[i]);
            }
        }
        assert(items.to_multiset() == before.to_multiset().insert(items.last()));
        assert(result.to_multiset() == inner.to_multiset().insert(items.last()));
        assert(before.to_multiset().insert(item).insert(items.last())
            =~= before.to_multiset().insert(items.last()).insert(item));
    }
}

/// A sorted list stands in order and holds what was sorted, no more and no less.
pub proof fn law_sorting<T: Located>(items: Seq<T::V>)
    ensures
        in_order::<T>(sorted::<T>(items)),
        sorted::<T>(items).len() == items.len(),
        sorted::<T>(items).to_multiset() == items.to_multiset(),
    decreases items.len(),
{
    broadcast use vstd::seq_lib::group_to_multiset_ensures;

    if items.len() > 0 {
        law_sorting::<T>(items.drop_last());
        lemma_inserted::<T>(sorted::<T>(items.drop_last()), items.last());
        assert(items =~= items.drop_last().push(items.last()));
    }
}

/// Sorts `items` by path, equal ones in their order.
pub fn sort_by_path<T: Located>(items: Vec<T>) -> (result: Vec<T>)
    ensures
        views(result@) == sorted::<T>(views(items@)),
{
    let ghost all = views(items@);
    let mut items = items;
    let mut rest: Vec<T> = Vec::new();
    while items.len() > 0
        invariant
            all == views(items@) + views(rest@).reverse(),
        decreases items.len(),
    {
        let ghost before = views(items@);
        let ghost later = views(rest@);
        if let Some(item) = items.pop() {
            rest.push(item);
            assert(views(items@) =~= before.drop_last());
            assert(views(rest@) =~= later.push(item@));
            assert(all =~= views(items@) + views(rest@).reverse());
        }
    }
    assert(all =~= views(rest@).reverse());
    let mut result: Vec<T> = Vec::new();
    assert(views(result@) =~= sorted::<T>(all.take(0)));
    while rest.len() > 0
        invariant
            all == views(rest@).reverse() || all.len() >= rest.len(),
            all.skip(all.len() - rest.len()) == views(rest@).reverse(),
            views(result@) == sorted::<T>(all.take(all.len() - rest.len())),
            result.len() + rest.len() == all.len(),
        decreases rest.len(),
    {
        let ghost n = all.len() - rest.len();
        let ghost later = views(rest@);
        let ghost before = views(result@);
        if let Some(item) = rest.pop() {
            assert(views(rest@) =~= later.drop_last());
            assert(item@ == all[n]) by {
                assert(all.skip(n)[0] == later.reverse()[0]);
            }
            assert(all.skip(n + 1) =~= views(rest@).reverse()) by {
                assert(all.skip(n + 1) =~= all.skip(n).skip(1));
                assert(later.reverse().skip(1) =~= later.drop_last().reverse());
            }
            let at = place(&result, item.location(), Ghost(item@));
            result.insert(at, item);
            proof {
                lemma_inserted_at::<T>(before, item@, at as int);
                assert(all.take(n + 1).drop_last() =~= all.take(n));
                assert(views(result@) =~= before.insert(at as int, item@));
            }
        }
    }
    assert(all.take(all.len() as int) =~= all);
    result
}

/// Where `wanted`, the path of a value that looks like `item`, goes in the sorted
/// list `items`.
fn place<T: Located>(items: &Vec<T>, wanted: &SavePath, Ghost(item): Ghost<T::V>) -> (at: usize)
    requires
        wanted@.parts == T::parts(item),
        exists|source: Seq<T::V>| views(items@) == #[trigger] sorted::<T>(source),
    ensures
        0 <= at <= items.len(),
        at > 0 ==> path::parts_le(T::parts(views(items@)[at - 1]), T::parts(item)),
        forall|i: int|
            at <= i < items.len() ==> !path::parts_le(
                T::parts(#[trigger] views(items@)[i]),
                T::parts(item),
            ),
{
    let ghost list = views(items@);
    proof {
        let source = choose|source: Seq<T::V>| list == #[trigger] sorted::<T>(source);
        law_sorting::<T>(source);
    }
    let mut low: usize = 0;
    let mut high: usize = items.len();
    while low < high
        invariant
            low <= high <= items.len(),
            list == views(items@),
            in_order::<T>(list),
            wanted@.parts == T::parts(item),
            low > 0 ==> path::parts_le(T::parts(list[low - 1]), T::parts(item)),
            forall|i: int|
                high <= i < list.len() ==> !path::parts_le(
                    T::parts(#[trigger] list[i]),
                    T::parts(item),
                ),
        decreases high - low,
    {
        let middle = low + (high - low) / 2;
        assert(list[middle as int] == items@[middle as int]@);
        if items[middle].location().precedes(wanted) {
            low = middle + 1;
        } else {
            assert forall|i: int| middle <= i < list.len() implies !path::parts_le(
                T::parts(#[trigger] list[i]),
                T::parts(item),
            ) by {
                if middle < i && path::parts_le(T::parts(list[i]), T::parts(item)) {
                    path::lemma_parts_le_trans(
                        T::parts(list[middle as int]),
                        T::parts(list[i]),
                        T::parts(item),
                    );
                }
            }
            high = middle;
        }
    }
    low
}

} // verus!
