//! Lists that name each of their items once.

use vstd::prelude::*;

verus! {

/// A list without repetitions stays one when an item that it lacks is added at its end, and
/// then holds that item beside those it held.
pub proof fn lemma_push_fresh<T>(list: Seq<T>, item: T)
    requires
        list.no_duplicates(),
        !list.contains(item),
    ensures
        list.push(item).no_duplicates(),
        forall|other: T|
            #[trigger] list.push(item).contains(other) <==> list.contains(other) || other == item,
{
    let longer = list.push(item);
    assert forall|other: T| #[trigger]
        longer.contains(other) <==> list.contains(other) || other == item by {
        if list.contains(other) {
            let i = choose|i: int| 0 <= i < list.len() && list[i] == other;
            assert(longer[i] == other);
        }
        if other == item {
            assert(longer[list.len() as int] == other);
        }
    }
}

} // verus!
