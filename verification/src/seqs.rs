//! Sequences that are kept free of repetitions.

use vstd::prelude::*;

verus! {

/// The elements of `items` but `gone`, in their order.
pub open spec fn without<T>(items: Seq<T>, gone: T) -> Seq<T>
    decreases items.len(),
{
    if items.len() == 0 {
        Seq::empty()
    } else if items.last() == gone {
        without(items.drop_last(), gone)
    } else {
        without(items.drop_last(), gone).push(items.last())
    }
}

/// Whether no element occurs twice.
pub open spec fn distinct<T>(items: Seq<T>) -> bool {
    forall|i: int, j: int| 0 <= i < j < items.len() ==> items[i] != items[j]
}

/// What is left when an element is taken out: every other element, and not
/// that one; no more elements than there were; and no element twice where
/// none was there twice.
#[verifier::rlimit(50)]
pub proof fn lemma_without<T>(items: Seq<T>, gone: T)
    ensures
        !without(items, gone).contains(gone),
        forall|other: T|
            other != gone ==> (#[trigger] without(items, gone).contains(other) <==> items.contains(
                other,
            )),
        without(items, gone).len() <= items.len(),
        !items.contains(gone) ==> without(items, gone) == items,
        distinct(items) ==> distinct(without(items, gone)),
    decreases items.len(),
{
    if items.len() > 0 {
        let front = items.drop_last();
        let last = items.last();
        lemma_without(front, gone);
        let kept = without(front, gone);
        let all = without(items, gone);
        if all.contains(gone) {
            let k = choose|k: int| 0 <= k < all.len() && all[k] == gone;
            if k < kept.len() {
                assert(kept[k] == gone);
            }
        }
        assert forall|other: T| other != gone implies (#[trigger] all.contains(other)
            <==> items.contains(other)) by {
            if all.contains(other) {
                let k = choose|k: int| 0 <= k < all.len() && all[k] == other;
                if k < kept.len() {
                    assert(kept[k] == other);
                    assert(kept.contains(other));
                    let j = choose|j: int| 0 <= j < front.len() && front[j] == other;
                    assert(items[j] == other);
                } else {
                    assert(items[items.len() - 1] == other);
                }
            }
            if items.contains(other) {
                let j = choose|j: int| 0 <= j < items.len() && items[j] == other;
                if j < front.len() {
                    assert(front[j] == other);
                    assert(front.contains(other));
                    assert(kept.contains(other));
                    let k = choose|k: int| 0 <= k < kept.len() && kept[k] == other;
                    assert(all[k] == other);
                } else {
                    assert(all[all.len() - 1] == other);
                }
            }
        }
        if !items.contains(gone) {
            assert(!front.contains(gone)) by {
                if front.contains(gone) {
                    let j = choose|j: int| 0 <= j < front.len() && front[j] == gone;
                    assert(items[j] == gone);
                }
            }
            assert(last != gone) by {
                if last == gone {
                    assert(items[items.len() - 1] == gone);
                }
            }
            assert(all =~= items);
        }
        if distinct(items) {
            assert(distinct(front)) by {
                assert forall|i: int, j: int| 0 <= i < j < front.len() implies front[i]
                    != front[j] by {
                    assert(items[i] != items[j]);
                }
            }
            if last != gone {
                assert forall|i: int, j: int| 0 <= i < j < all.len() implies all[i] != all[j] by {
                    if j == all.len() - 1 {
                        assert(kept.contains(kept[i]));
                        if kept[i] == last {
                            assert(front.contains(last));
                            let m = choose|m: int| 0 <= m < front.len() && front[m] == last;
                            assert(items[m] != items[items.len() - 1]);
                        }
                    } else {
                        assert(kept[i] != kept[j]);
                    }
                }
            }
        }
    } else {
        assert(without(items, gone) =~= items);
    }
}

} // verus!
