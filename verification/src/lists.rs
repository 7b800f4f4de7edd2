//! What lists hold after they grow.

use vstd::prelude::*;

verus! {

/// What a list holds after an item was pushed.
pub proof fn lemma_pushed_contains<T>(items: Seq<T>, item: T, other: T)
    ensures
        items.push(item).contains(other) <==> items.contains(other) || other == item,
{
    let more = items.push(item);
    if more.contains(other) {
        let j = choose|j: int| 0 <= j < more.len() && more[j] == other;
        if j < items.len() {
            assert(items[j] == other);
        }
    }
    if items.contains(other) {
        let j = choose|j: int| 0 <= j < items.len() && items[j] == other;
        assert(more[j] == other);
    }
    if other == item {
        assert(more[items.len() as int] == other);
    }
}

/// What one more item of a list adds to what its first items hold.
pub proof fn lemma_take_contains<T>(items: Seq<T>, k: int, other: T)
    requires
        0 <= k < items.len(),
    ensures
        items.take(k + 1).contains(other) <==> items.take(k).contains(other) || other == items[k],
{
    assert(items.take(k + 1) =~= items.take(k).push(items[k]));
    lemma_pushed_contains(items.take(k), items[k], other);
}

/// What a list followed by another holds.
pub proof fn lemma_concat_contains<T>(first: Seq<T>, second: Seq<T>, item: T)
    ensures
        (first + second).contains(item) <==> first.contains(item) || second.contains(item),
{
    let both = first + second;
    if both.contains(item) {
        let i = choose|i: int| 0 <= i < both.len() && both[i] == item;
        if i < first.len() {
            assert(first[i] == item);
        } else {
            assert(second[i - first.len()] == item);
        }
    }
    if first.contains(item) {
        let i = choose|i: int| 0 <= i < first.len() && first[i] == item;
        assert(both[i] == item);
    }
    if second.contains(item) {
        let i = choose|i: int| 0 <= i < second.len() && second[i] == item;
        assert(both[first.len() + i] == item);
    }
}

} // verus!
