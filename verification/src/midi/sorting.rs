//! Putting things in the order of their keys.
use vstd::prelude::*;

verus! {

/// Whether `order` lists the places of `keys` by ascending key, places of
/// equal keys in their own order. There is one such list for every `keys`.
pub open spec fn is_stable_order(keys: Seq<i64>, order: Seq<usize>) -> bool {
    &&& order.len() == keys.len()
    &&& forall|i: int| 0 <= i < order.len() ==> #[trigger] order[i] < keys.len()
    &&& forall|i: int, j: int|
        0 <= i < j < order.len() ==> keys[#[trigger] order[i] as int] <= keys[#[trigger] order[j] as int]
    &&& forall|i: int, j: int|
        0 <= i < j < order.len() && keys[#[trigger] order[i] as int] == keys[#[trigger] order[j] as int]
            ==> order[i] < order[j]
}

/// The places of `keys` by ascending key, places of equal keys in their own order.
pub fn stable_order(keys: &Vec<i64>) -> (order: Vec<usize>)
    ensures
        is_stable_order(keys@, order@),
{
    let n = keys.len();
    let mut order: Vec<usize> = Vec::new();
    let mut i: usize = 0;
    while i < n
        invariant
            i <= n,
            n == keys.len(),
            order.len() == i,
            forall|a: int| 0 <= a < order.len() ==> #[trigger] order[a] < i,
            forall|a: int, b: int|
                0 <= a < b < order.len() ==> keys[#[trigger] order[a] as int] <= keys[#[trigger] order[b] as int],
            forall|a: int, b: int|
                0 <= a < b < order.len() && keys[#[trigger] order[a] as int] == keys[#[trigger] order[b] as int]
                    ==> order[a] < order[b],
        decreases n - i,
    {
        let key = keys[i];
        let mut at: usize = i;
        while at > 0 && keys[order[at - 1]] > key
            invariant
                at <= i,
                i < n,
                n == keys.len(),
                order.len() == i,
                key == keys[i as int],
                forall|a: int| 0 <= a < order.len() ==> #[trigger] order[a] < i,
                forall|a: int| at <= a < order.len() ==> keys[#[trigger] order[a] as int] > key,
            decreases at,
        {
            at -= 1;
        }
        let ghost before = order@;
        order.insert(at, i);
        proof {
            let after = order@;
            assert(after == before.insert(at as int, i));
            assert forall|a: int| 0 <= a < after.len() implies #[trigger] after[a] < i + 1 by {
                if a < at {
                    assert(after[a] == before[a]);
                } else if a > at {
                    assert(after[a] == before[a - 1]);
                }
            }
            assert forall|a: int| 0 <= a < at implies keys[#[trigger] before[a] as int] <= key by {
                assert(keys[before[at - 1] as int] <= key);
                if a < at - 1 {
                    assert(keys[before[a] as int] <= keys[before[at - 1] as int]);
                }
            }
            assert forall|a: int, b: int| 0 <= a < b < after.len() implies keys[#[trigger] after[a] as int]
                <= keys[#[trigger] after[b] as int] by {
                let x = if a < at { a } else { a - 1 };
                let y = if b < at { b } else { b - 1 };
                if a != at && b != at {
                    assert(after[a] == before[x] && after[b] == before[y]);
                    assert(keys[before[x] as int] <= keys[before[y] as int]);
                } else if a == at {
                    assert(after[b] == before[y]);
                    assert(keys[before[y] as int] > key);
                } else {
                    assert(after[a] == before[x]);
                    assert(keys[before[x] as int] <= key);
                }
            }
            assert forall|a: int, b: int|
                0 <= a < b < after.len() && keys[#[trigger] after[a] as int] == keys[#[trigger] after[b] as int]
                implies after[a] < after[b] by {
                let x = if a < at { a } else { a - 1 };
                let y = if b < at { b } else { b - 1 };
                if a != at && b != at {
                    assert(after[a] == before[x] && after[b] == before[y]);
                    assert(keys[before[x] as int] == keys[before[y] as int]);
                } else if a == at {
                    assert(after[b] == before[y]);
                    assert(keys[before[y] as int] > key);
                } else {
                    assert(after[a] == before[x]);
                    assert(before[x] < i);
                }
            }
        }
        i += 1;
    }
    order
}

/// The items in the given order: first the item at the first place listed, and so on.
pub open spec fn arranged<T>(items: Seq<T>, order: Seq<usize>) -> Seq<T> {
    Seq::new(order.len(), |i: int| items[order[i] as int])
}

/// The items in the given order.
pub fn arrange<T: Copy>(items: &Vec<T>, order: &Vec<usize>) -> (r: Vec<T>)
    requires
        forall|i: int| 0 <= i < order.len() ==> #[trigger] order[i] < items.len(),
    ensures
        r@ == arranged(items@, order@),
{
    let mut r: Vec<T> = Vec::new();
    let mut i: usize = 0;
    while i < order.len()
        invariant
            i <= order.len(),
            forall|k: int| 0 <= k < order.len() ==> #[trigger] order[k] < items.len(),
            r@.len() == i,
            forall|k: int| 0 <= k < i ==> r@[k] == items@[order@[k] as int],
        decreases order.len() - i,
    {
        r.push(items[order[i]]);
        i += 1;
    }
    assert(r@ =~= arranged(items@, order@));
    r
}

} // verus!
