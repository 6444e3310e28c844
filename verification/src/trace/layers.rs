//! Layered trie storage: columns of keys and weights, and ordered layers
//! that index into a layer below.

pub mod column_layer;
pub mod ordered;

use vstd::prelude::*;

verus! {

/// `function` holds at position `n - 1` of `slice` and fails at position `n`,
/// as far as those positions exist.
pub open spec fn turns_at<T, F: Fn(&T) -> bool>(function: F, slice: Seq<T>, n: int) -> bool {
    &&& 0 <= n <= slice.len()
    &&& n > 0 ==> call_ensures(function, (&slice[n - 1],), true)
    &&& n < slice.len() ==> call_ensures(function, (&slice[n],), false)
}

/// Reports how many leading elements of `slice` to step over: a position
/// at which `function` turns from holding to failing.
///
/// Where `function` holds on a prefix of the slice and fails behind it, that
/// is the length of the prefix. The search gallops: it doubles its step
/// while `function` holds and then halves it, so it asks `function` about
/// a number of elements logarithmic in the answer.
pub fn advance<T, F: Fn(&T) -> bool>(slice: &[T], function: F) -> (n: usize)
    requires
        forall|i: int| 0 <= i < slice@.len() ==> call_requires(function, (&slice@[i],)),
    ensures
        turns_at(function, slice@, n as int),
{
    let len = slice.len();
    if len == 0 {
        return 0;
    }
    if !function(&slice[0]) {
        return 0;
    }
    // `function` holds at `index`
    let mut index: usize = 0;
    let mut step: usize = 1;
    while step < len - index && function(&slice[index + step])
        invariant
            len == slice@.len(),
            index < len,
            step >= 1,
            forall|i: int| 0 <= i < slice@.len() ==> call_requires(function, (&slice@[i],)),
            call_ensures(function, (&slice@[index as int],), true),
        decreases len - index,
    {
        index += step;
        if step <= len / 2 {
            step = step + step;
        } else {
            step = len;
        }
    }
    // `function` fails at `index + step`, if that is a position
    let mut hi: usize = if step < len - index {
        index + step
    } else {
        len
    };
    while hi - index > 1
        invariant
            len == slice@.len(),
            index < hi <= len,
            forall|i: int| 0 <= i < slice@.len() ==> call_requires(function, (&slice@[i],)),
            call_ensures(function, (&slice@[index as int],), true),
            hi < len ==> call_ensures(function, (&slice@[hi as int],), false),
        decreases hi - index,
    {
        let mid = index + (hi - index) / 2;
        if function(&slice[mid]) {
            index = mid;
        } else {
            hi = mid;
        }
    }
    index + 1
}

} // verus!
