//! Binary search over the sorted keys of one node.

use super::entries::sorted;
use crate::order::{before, group_order, is_before, lawful};
use vstd::prelude::*;

verus! {

/// How many of the sorted `keys` are at or before `key`.
pub fn partition_point<K: Ord + Clone>(keys: &Vec<K>, key: &K) -> (at: usize)
    requires
        lawful::<K>(),
        sorted(keys@),
    ensures
        at <= keys.len(),
        forall|i: int| 0 <= i < at ==> !before(*key, #[trigger] keys[i]),
        forall|i: int| at <= i < keys.len() ==> before(*key, #[trigger] keys[i]),
{
    let mut lo: usize = 0;
    let mut hi: usize = keys.len();
    while lo < hi
        invariant
            lawful::<K>(),
            sorted(keys@),
            lo <= hi <= keys.len(),
            forall|i: int| 0 <= i < lo ==> !before(*key, #[trigger] keys[i]),
            forall|i: int| hi <= i < keys.len() ==> before(*key, #[trigger] keys[i]),
        decreases hi - lo,
    {
        broadcast use group_order;

        let mid: usize = lo + (hi - lo) / 2;
        if is_before(key, &keys[mid]) {
            hi = mid;
        } else {
            lo = mid + 1;
        }
    }
    lo
}

/// The position of `key` in the sorted `keys`, or the one at which it would have to be inserted.
pub fn binary_search<K: Ord + Clone>(keys: &Vec<K>, key: &K) -> (found: Result<usize, usize>)
    requires
        lawful::<K>(),
        sorted(keys@),
    ensures
        match found {
            Ok(at) => {
                &&& at < keys.len()
                &&& !before(*key, keys[at as int])
                &&& !before(keys[at as int], *key)
                &&& forall|i: int| 0 <= i < at ==> before(#[trigger] keys[i], *key)
                &&& forall|i: int| at < i < keys.len() ==> before(*key, #[trigger] keys[i])
            },
            Err(at) => {
                &&& at <= keys.len()
                &&& forall|i: int| 0 <= i < at ==> before(#[trigger] keys[i], *key)
                &&& forall|i: int| at <= i < keys.len() ==> before(*key, #[trigger] keys[i])
            },
        },
{
    let mut lo: usize = 0;
    let mut hi: usize = keys.len();
    while lo < hi
        invariant
            lawful::<K>(),
            sorted(keys@),
            lo <= hi <= keys.len(),
            forall|i: int| 0 <= i < lo ==> before(#[trigger] keys[i], *key),
            forall|i: int| hi <= i < keys.len() ==> before(*key, #[trigger] keys[i]),
        decreases hi - lo,
    {
        broadcast use group_order;

        let mid: usize = lo + (hi - lo) / 2;
        if is_before(&keys[mid], key) {
            lo = mid + 1;
        } else if is_before(key, &keys[mid]) {
            hi = mid;
        } else {
            return Ok(mid);
        }
    }
    Err(lo)
}

} // verus!
