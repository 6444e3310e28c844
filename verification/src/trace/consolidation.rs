//! Consolidation kernels: sort a run of `(key, weight)` pairs, add up the
//! weights of equal keys and drop the keys whose weights cancel.

pub mod fill_indices;

use vstd::prelude::*;
use crate::algebra::MonoidValue;
use crate::trace::consolidation::fill_indices::identity_indices;
use crate::zset::pairs;
use crate::zset::lemma_weight_swap;
use crate::algebra::clone_weight;
use crate::order::compare;
use crate::order::key_le;
use crate::order::key_lt;
use crate::order::lawful;
use crate::order::same;
use crate::order::lemma_lt_le_transitive;
use crate::zset::consolidated;
use crate::zset::same_weights;
use crate::zset::share;
use crate::zset::weight_of;
use crate::zset::lemma_consolidated_unique;
use crate::zset::lemma_weight_absent;
use crate::zset::lemma_weight_concat;
use crate::zset::lemma_weight_one;
use crate::zset::lemma_weight_permutation;
use crate::zset::lemma_weight_push;
use crate::zset::lemma_zero_add;

verus! {

/// The keys of `s` never decrease.
pub open spec fn keys_sorted<K: Ord, R>(s: Seq<(K, R)>) -> bool {
    forall|i: int, j: int| 0 <= i < j < s.len() ==> key_le(s[i].0, s[j].0)
}

/// Sorts the pairs by key with `<[T]>::sort_unstable_by`.
///
/// Trusted: the slice afterwards holds the pairs it held before, in an order
/// in which the keys never decrease. Pairs with equal keys may change places.
#[verifier::external_body]
fn sort_pairs<K: Ord, R>(slice: &mut [(K, R)])
    requires
        lawful::<K>(),
    ensures
        final(slice)@.to_multiset() == old(slice)@.to_multiset(),
        final(slice)@.len() == old(slice)@.len(),
        keys_sorted(final(slice)@),
{
    slice.sort_unstable_by(|a, b| compare(&a.0, &b.0));
}

/// Sorts the pairs of `vec` by key.
pub fn sort_by_key<K: Ord, R>(vec: &mut Vec<(K, R)>)
    requires
        lawful::<K>(),
    ensures
        final(vec)@.to_multiset() == old(vec)@.to_multiset(),
        final(vec)@.len() == old(vec)@.len(),
        keys_sorted(final(vec)@),
{
    sort_pairs(vec.as_mut_slice());
}

/// Exchanges the elements at `a` and `b`.
pub fn swap_items<T>(slice: &mut [T], a: usize, b: usize)
    requires
        a < old(slice)@.len(),
        b < old(slice)@.len(),
    ensures
        final(slice)@ == old(slice)@.update(a as int, old(slice)@[b as int]).update(
            b as int,
            old(slice)@[a as int],
        ),
{
    if a == b {
        assert(slice@ =~= slice@.update(a as int, slice@[b as int]).update(b as int, slice@[a as int]));
        return ;
    }
    let lo = if a < b { a } else { b };
    let hi = if a < b { b } else { a };
    let ghost before = slice@;
    let (head, tail) = slice.split_at_mut(hi);
    assert(head@.len() == hi);
    assert(tail@.len() == before.len() - hi);
    core::mem::swap(&mut head[lo], &mut tail[0]);
    proof {
        assert(head@ =~= before.subrange(0, hi as int).update(lo as int, before[hi as int]));
        assert(tail@ =~= before.subrange(hi as int, before.len() as int).update(0, before[lo as int]));
        assert(head@ + tail@ =~= before.update(a as int, before[b as int]).update(
            b as int,
            before[a as int],
        ));
    }
}

/// The weight of a key in a run in which every pair has the key `key`.
proof fn lemma_weight_run<K, R: MonoidValue>(run: Seq<(K, R)>, key: K, k: K)
    requires
        forall|p: int| 0 <= p < run.len() ==> (#[trigger] run[p]).0 == key,
        k != key,
    ensures
        weight_of(run, k) == R::zero_spec(),
{
    lemma_weight_absent(run, k);
}

/// Adds up the weights of equal neighbours in a slice that is sorted by key,
/// and moves the pairs whose weight is not zero to the front, in order.
/// Returns how many there are; what lies behind them is left over.
fn compact_sorted<K: Ord, R: MonoidValue>(slice: &mut [(K, R)]) -> (len: usize)
    requires
        lawful::<K>(),
        keys_sorted(old(slice)@),
    ensures
        final(slice)@.len() == old(slice)@.len(),
        len <= old(slice)@.len(),
        consolidated(final(slice)@.subrange(0, len as int)),
        same_weights(final(slice)@.subrange(0, len as int), old(slice)@),
{
    let n = slice.len();
    let ghost src = slice@;
    let mut i: usize = 0;
    let mut w: usize = 0;
    proof {
        assert(src.subrange(0, n as int) =~= src);
        assert forall|k: K|
            (#[trigger] weight_of(slice@.subrange(0, 0), k)).add_spec(
                weight_of(src.subrange(0, n as int), k),
            ) == weight_of(src, k) by {
            lemma_zero_add(weight_of(src, k));
        }
    }
    while i < n
        invariant
            lawful::<K>(),
            keys_sorted(src),
            n == src.len(),
            slice@.len() == n,
            w <= i <= n,
            forall|p: int| i <= p < n ==> slice@[p] == src[p],
            consolidated(slice@.subrange(0, w as int)),
            forall|p: int, q: int| 0 <= p < w && i <= q < n ==> key_lt(slice@[p].0, src[q].0),
            forall|k: K|
                (#[trigger] weight_of(slice@.subrange(0, w as int), k)).add_spec(
                    weight_of(src.subrange(i as int, n as int), k),
                ) == weight_of(src, k),
        decreases n - i,
    {
        let ghost key = src[i as int].0;
        let mut acc = clone_weight(&slice[i].1);
        let mut j: usize = i + 1;
        proof {
            assert(src.subrange(i as int, j as int) =~= seq![src[i as int]]);
            lemma_weight_one(src[i as int], key);
        }
        while j < n && same(&slice[j].0, &slice[i].0)
            invariant
                lawful::<K>(),
                n == src.len(),
                slice@.len() == n,
                i < j <= n,
                key == src[i as int].0,
                forall|p: int| i <= p < n ==> slice@[p] == src[p],
                forall|p: int| i <= p < j ==> (#[trigger] src[p]).0 == key,
                acc == weight_of(src.subrange(i as int, j as int), key),
            decreases n - j,
        {
            acc.add_assign_by_ref(&slice[j].1);
            proof {
                assert(src.subrange(i as int, j + 1) =~= src.subrange(i as int, j as int).push(
                    src[j as int],
                ));
                lemma_weight_push(src.subrange(i as int, j as int), src[j as int], key);
            }
            j += 1;
        }
        let ghost out = slice@.subrange(0, w as int);
        let ghost run = src.subrange(i as int, j as int);
        let ghost rest = src.subrange(j as int, n as int);
        proof {
            assert(src.subrange(i as int, n as int) =~= run + rest);
            // every later key is beyond the key of the run
            assert forall|q: int| j <= q < n implies key_lt(key, (#[trigger] src[q]).0) by {
                assert(key_le(src[i as int].0, src[j as int].0));
                assert(src[j as int].0 != key);
                if q > j {
                    assert(key_le(src[j as int].0, src[q].0));
                    lemma_lt_le_transitive(key, src[j as int].0, src[q].0);
                }
            }
        }
        if !acc.is_zero() {
            swap_items(slice, w, i);
            slice[w].1 = acc;
            proof {
                let e = (key, acc);
                let out2 = slice@.subrange(0, w + 1);
                assert(out2 =~= out.push(e));
                assert forall|p: int, q: int| 0 <= p < q < out2.len() implies key_lt(
                    out2[p].0,
                    out2[q].0,
                ) by {
                    if q < w {
                        assert(out2[p] == out[p] && out2[q] == out[q]);
                    } else {
                        assert(out2[p] == out[p]);
                        assert(key_lt(out[p].0, src[i as int].0));
                    }
                }
                assert forall|p: int| 0 <= p < out2.len() implies (#[trigger] out2[p]).1
                    != R::zero_spec() by {
                    if p < w {
                        assert(out2[p] == out[p]);
                    }
                }
                assert forall|p: int, q: int| 0 <= p < w + 1 && j <= q < n implies key_lt(
                    slice@[p].0,
                    src[q].0,
                ) by {
                    if p < w {
                        assert(slice@[p] == out[p]);
                        assert(key_lt(out[p].0, src[q].0));
                    }
                }
                assert forall|k: K|
                    (#[trigger] weight_of(out2, k)).add_spec(weight_of(rest, k)) == weight_of(
                        src,
                        k,
                    ) by {
                    lemma_weight_push(out, e, k);
                    lemma_weight_concat(run, rest, k);
                    assert(weight_of(out, k).add_spec(weight_of(run + rest, k)) == weight_of(
                        src,
                        k,
                    ));
                    if k != key {
                        lemma_weight_run(run, key, k);
                    }
                    assert(weight_of(run, k) == share(e, k));
                    R::lemma_add_associative(weight_of(out, k), share(e, k), weight_of(rest, k));
                }
            }
            w += 1;
        } else {
            proof {
                assert forall|k: K|
                    (#[trigger] weight_of(out, k)).add_spec(weight_of(rest, k)) == weight_of(
                        src,
                        k,
                    ) by {
                    lemma_weight_concat(run, rest, k);
                    assert(weight_of(out, k).add_spec(weight_of(run + rest, k)) == weight_of(
                        src,
                        k,
                    ));
                    if k != key {
                        lemma_weight_run(run, key, k);
                    }
                    lemma_zero_add(weight_of(rest, k));
                }
            }
        }
        i = j;
    }
    proof {
        assert forall|k: K| #[trigger]
            weight_of(slice@.subrange(0, w as int), k) == weight_of(src, k) by {
            assert(src.subrange(n as int, n as int) =~= Seq::<(K, R)>::empty());
            assert((weight_of(slice@.subrange(0, w as int), k)).add_spec(
                weight_of(src.subrange(i as int, n as int), k),
            ) == weight_of(src, k));
            R::lemma_add_zero(weight_of(slice@.subrange(0, w as int), k));
        }
    }
    w
}

/// Sorts and consolidates a slice in place and returns the length of the
/// consolidated prefix. The elements behind the prefix are left over.
pub fn consolidate_slice<K: Ord, R: MonoidValue>(slice: &mut [(K, R)]) -> (len: usize)
    requires
        lawful::<K>(),
    ensures
        final(slice)@.len() == old(slice)@.len(),
        len <= old(slice)@.len(),
        consolidated(final(slice)@.subrange(0, len as int)),
        same_weights(final(slice)@.subrange(0, len as int), old(slice)@),
        consolidated(old(slice)@) ==> final(slice)@.subrange(0, len as int) == old(slice)@,
{
    let ghost before = slice@;
    sort_pairs(slice);
    let ghost sorted = slice@;
    let len = compact_sorted(slice);
    proof {
        let out = slice@.subrange(0, len as int);
        assert forall|k: K| #[trigger] weight_of(out, k) == weight_of(before, k) by {
            assert(weight_of(out, k) == weight_of(sorted, k));
            lemma_weight_permutation(sorted, before, k);
        }
        if consolidated(before) {
            lemma_consolidated_unique(out, before);
        }
    }
    len
}

/// Consolidates the part of `vec` from `offset` on and leaves the part
/// before it as it is.
pub fn consolidate_from<K: Ord, R: MonoidValue>(vec: &mut Vec<(K, R)>, offset: usize)
    requires
        lawful::<K>(),
        offset <= old(vec)@.len(),
    ensures
        offset <= final(vec)@.len() <= old(vec)@.len(),
        final(vec)@.subrange(0, offset as int) == old(vec)@.subrange(0, offset as int),
        consolidated(final(vec)@.subrange(offset as int, final(vec)@.len() as int)),
        same_weights(
            final(vec)@.subrange(offset as int, final(vec)@.len() as int),
            old(vec)@.subrange(offset as int, old(vec)@.len() as int),
        ),
        consolidated(old(vec)@.subrange(offset as int, old(vec)@.len() as int)) ==> final(vec)@
            == old(vec)@,
{
    let ghost before = vec@;
    let total = vec.len();
    let slice = vec.as_mut_slice();
    let (head, tail) = slice.split_at_mut(offset);
    let length = consolidate_slice(tail);
    let ghost tail_after = tail@;
    proof {
        assert(vec@ == head@ + tail_after);
        assert(head@ == before.subrange(0, offset as int));
        assert(offset + length <= total);
    }
    vec.truncate(offset + length);
    proof {
        let head_seq = before.subrange(0, offset as int);
        assert(vec@ =~= head_seq + tail_after.subrange(0, length as int));
        assert(vec@.subrange(0, offset as int) =~= head_seq);
        assert(vec@.subrange(offset as int, vec@.len() as int) =~= tail_after.subrange(
            0,
            length as int,
        ));
        if consolidated(before.subrange(offset as int, before.len() as int)) {
            assert(vec@ =~= before);
        }
    }
}

/// Sorts `vec` by key, adds up the weights of equal keys and drops the keys
/// whose weight is zero.
///
/// The result is the consolidated form of the Z-set that `vec` held, so a
/// second call changes nothing.
pub fn consolidate<K: Ord, R: MonoidValue>(vec: &mut Vec<(K, R)>)
    requires
        lawful::<K>(),
    ensures
        consolidated(final(vec)@),
        same_weights(final(vec)@, old(vec)@),
        final(vec)@.len() <= old(vec)@.len(),
        consolidated(old(vec)@) ==> final(vec)@ == old(vec)@,
{
    let ghost before = vec@;
    consolidate_from(vec, 0);
    proof {
        assert(vec@.subrange(0, vec@.len() as int) =~= vec@);
        assert(before.subrange(0, before.len() as int) =~= before);
    }
}

/// The items read in the order of `indices`: element `i` of the result is
/// `items[indices[i]]`.
pub open spec fn picked<T>(items: Seq<T>, indices: Seq<usize>) -> Seq<T> {
    Seq::new(indices.len(), |i: int| items[indices[i] as int])
}

/// Every index is an index into a sequence of length `n`.
pub open spec fn indices_within(indices: Seq<usize>, n: nat) -> bool {
    forall|i: int| 0 <= i < indices.len() ==> (#[trigger] indices[i]) < n
}

/// Read in the order of `indices`, the keys never decrease.
pub open spec fn picked_sorted<K: Ord>(keys: Seq<K>, indices: Seq<usize>) -> bool {
    forall|i: int, j: int|
        0 <= i < j < indices.len() ==> key_le(
            keys[(#[trigger] indices[i]) as int],
            keys[(#[trigger] indices[j]) as int],
        )
}

/// Sorts indices by the keys they point at with `<[T]>::sort_by`.
///
/// Trusted: `indices` afterwards holds the indices it held before, in an
/// order in which the keys they point at never decrease.
#[verifier::external_body]
fn sort_indices<K: Ord>(indices: &mut Vec<usize>, keys: &[K])
    requires
        lawful::<K>(),
        indices_within(old(indices)@, keys@.len()),
    ensures
        final(indices)@.to_multiset() == old(indices)@.to_multiset(),
        picked_sorted(keys@, final(indices)@),
{
    indices.sort_by(|a, b| compare(&keys[*a], &keys[*b]));
}

/// Some element of `indices` is `l`.
pub open spec fn hit_by(indices: Seq<usize>, l: int) -> bool {
    exists|p: int| 0 <= p < indices.len() && #[trigger] indices[p] == l
}

/// A rearrangement of `0..n` is within range, hits every index and hits
/// none twice.
proof fn lemma_rearranged_identity(indices: Seq<usize>, n: nat)
    requires
        n <= usize::MAX,
        indices.to_multiset() == identity_indices(n).to_multiset(),
    ensures
        indices.len() == n,
        indices_within(indices, n),
        indices.no_duplicates(),
        forall|l: int| 0 <= l < n ==> #[trigger] hit_by(indices, l),
{
    broadcast use vstd::seq_lib::group_to_multiset_ensures;

    let id = identity_indices(n);
    indices.to_multiset_ensures();
    id.to_multiset_ensures();
    assert forall|i: int| 0 <= i < indices.len() implies (#[trigger] indices[i]) < n by {
        assert(indices.contains(indices[i]));
        assert(id.to_multiset().count(indices[i]) > 0);
        assert(id.contains(indices[i]));
    }
    assert forall|l: int| 0 <= l < n implies #[trigger] hit_by(indices, l) by {
        assert(id[l] == l as usize);
        assert(id.contains(l as usize));
        assert(indices.to_multiset().count(l as usize) > 0);
        assert(indices.contains(l as usize));
        let p = choose|p: int| 0 <= p < indices.len() && indices[p] == l as usize;
        assert(indices[p] == l);
    }
    assert(id.no_duplicates());
    id.lemma_multiset_has_no_duplicates();
    indices.lemma_multiset_has_no_duplicates_conv();
}

/// Rearranges two parallel columns so that position `p` holds what stood at
/// `indices[p]`, where `indices` is a rearrangement of the positions.
fn apply_permutation<K, R: MonoidValue>(keys: &mut [K], diffs: &mut [R], indices: &mut Vec<usize>)
    requires
        old(keys)@.len() == old(diffs)@.len(),
        old(indices)@.to_multiset() == identity_indices(old(keys)@.len()).to_multiset(),
    ensures
        final(keys)@ == picked(old(keys)@, old(indices)@),
        final(diffs)@ == picked(old(diffs)@, old(indices)@),
        same_weights(pairs(final(keys)@, final(diffs)@), pairs(old(keys)@, old(diffs)@)),
{
    let n = keys.len();
    let ghost keys0 = keys@;
    let ghost diffs0 = diffs@;
    let ghost idx0 = indices@;
    let ghost want_keys = picked(keys0, idx0);
    let ghost want_diffs = picked(diffs0, idx0);
    proof {
        lemma_rearranged_identity(idx0, n as nat);
    }
    // where each position is wanted
    let mut inverse: Vec<usize> = Vec::new();
    let mut p: usize = 0;
    while p < n
        invariant
            p <= n,
            inverse@.len() == p,
        decreases n - p,
    {
        inverse.push(0);
        p += 1;
    }
    p = 0;
    while p < n
        invariant
            p <= n,
            n == idx0.len(),
            indices@ == idx0,
            inverse@.len() == n,
            indices_within(idx0, n as nat),
            idx0.no_duplicates(),
            forall|q: int| 0 <= q < p ==> inverse@[(#[trigger] idx0[q]) as int] == q,
        decreases n - p,
    {
        let at = indices[p];
        inverse[at] = p;
        p += 1;
    }
    proof {
        assert forall|l: int| 0 <= l < n implies (#[trigger] inverse@[l]) < n && idx0[inverse@[l] as int]
            == l by {
            assert(hit_by(idx0, l));
            let q = choose|q: int| 0 <= q < idx0.len() && #[trigger] idx0[q] == l;
            assert(inverse@[idx0[q] as int] == q);
        }
    }
    let mut i: usize = 0;
    while i < n
        invariant
            i <= n,
            n == idx0.len(),
            keys@.len() == n,
            diffs@.len() == n,
            indices@.len() == n,
            inverse@.len() == n,
            want_keys == picked(keys0, idx0),
            want_diffs == picked(diffs0, idx0),
            forall|q: int| 0 <= q < i ==> keys@[q] == want_keys[q] && diffs@[q] == want_diffs[q],
            forall|q: int|
                i <= q < n ==> i <= (#[trigger] indices@[q]) < n && keys@[indices@[q] as int]
                    == want_keys[q] && diffs@[indices@[q] as int] == want_diffs[q]
                    && inverse@[indices@[q] as int] == q,
            forall|l: int|
                i <= l < n ==> i <= (#[trigger] inverse@[l]) < n && indices@[inverse@[l] as int]
                    == l,
            same_weights(pairs(keys@, diffs@), pairs(keys0, diffs0)),
        decreases n - i,
    {
        let j = indices[i];
        let q = inverse[i];
        if j != i {
            let ghost keys1 = keys@;
            let ghost diffs1 = diffs@;
            let ghost idx1 = indices@;
            let ghost inv1 = inverse@;
            swap_items(keys, i, j);
            swap_items(diffs, i, j);
            indices[q] = j;
            inverse[j] = q;
            proof {
                assert(idx1[q as int] == i);
                assert(q != i);
                assert forall|r: int| i + 1 <= r < n implies i + 1 <= (#[trigger] indices@[r]) < n
                    && keys@[indices@[r] as int] == want_keys[r] && diffs@[indices@[r] as int]
                    == want_diffs[r] && inverse@[indices@[r] as int] == r by {
                    if r != q {
                        assert(inv1[idx1[r] as int] == r);
                        assert(idx1[r] != i);
                        assert(idx1[r] != j);
                    }
                }
                assert forall|l: int| i + 1 <= l < n implies i + 1 <= (#[trigger] inverse@[l]) < n
                    && indices@[inverse@[l] as int] == l by {
                    if l != j {
                        assert(idx1[inv1[l] as int] == l);
                        assert(inv1[l] != q);
                        assert(inv1[l] != i);
                    }
                }
                assert(pairs(keys@, diffs@) =~= pairs(keys1, diffs1).update(
                    i as int,
                    pairs(keys1, diffs1)[j as int],
                ).update(j as int, pairs(keys1, diffs1)[i as int]));
                assert forall|k: K| #[trigger]
                    weight_of(pairs(keys@, diffs@), k) == weight_of(pairs(keys0, diffs0), k) by {
                    lemma_weight_swap(pairs(keys1, diffs1), i as int, j as int, k);
                    assert(weight_of(pairs(keys1, diffs1), k) == weight_of(
                        pairs(keys0, diffs0),
                        k,
                    ));
                }
            }
        } else {
            proof {
                assert(inverse@[indices@[i as int] as int] == i);
            }
        }
        i += 1;
    }
    proof {
        assert(keys@ =~= want_keys);
        assert(diffs@ =~= want_diffs);
    }
}

/// The consolidated pairs at the front of two parallel columns.
pub open spec fn paired_prefix<K, R>(keys: Seq<K>, diffs: Seq<R>, len: int) -> Seq<(K, R)> {
    pairs(keys.subrange(0, len), diffs.subrange(0, len))
}

/// As `compact_sorted`, on two parallel columns.
fn compact_paired<K: Ord, R: MonoidValue>(keys: &mut [K], diffs: &mut [R]) -> (len: usize)
    requires
        lawful::<K>(),
        old(keys)@.len() == old(diffs)@.len(),
        keys_sorted(pairs(old(keys)@, old(diffs)@)),
    ensures
        final(keys)@.len() == old(keys)@.len(),
        final(diffs)@.len() == old(diffs)@.len(),
        len <= old(keys)@.len(),
        consolidated(paired_prefix(final(keys)@, final(diffs)@, len as int)),
        same_weights(
            paired_prefix(final(keys)@, final(diffs)@, len as int),
            pairs(old(keys)@, old(diffs)@),
        ),
{
    let n = keys.len();
    let ghost src = pairs(keys@, diffs@);
    let mut i: usize = 0;
    let mut w: usize = 0;
    proof {
        assert(src.subrange(0, n as int) =~= src);
        assert forall|k: K|
            (#[trigger] weight_of(paired_prefix(keys@, diffs@, 0), k)).add_spec(
                weight_of(src.subrange(0, n as int), k),
            ) == weight_of(src, k) by {
            assert(paired_prefix(keys@, diffs@, 0) =~= Seq::<(K, R)>::empty());
            lemma_zero_add(weight_of(src, k));
        }
    }
    while i < n
        invariant
            lawful::<K>(),
            keys_sorted(src),
            n == src.len(),
            keys@.len() == n,
            diffs@.len() == n,
            w <= i <= n,
            forall|p: int| i <= p < n ==> keys@[p] == src[p].0 && diffs@[p] == src[p].1,
            consolidated(paired_prefix(keys@, diffs@, w as int)),
            forall|p: int, q: int| 0 <= p < w && i <= q < n ==> key_lt(keys@[p], src[q].0),
            forall|k: K|
                (#[trigger] weight_of(paired_prefix(keys@, diffs@, w as int), k)).add_spec(
                    weight_of(src.subrange(i as int, n as int), k),
                ) == weight_of(src, k),
        decreases n - i,
    {
        let ghost key = src[i as int].0;
        let mut acc = clone_weight(&diffs[i]);
        let mut j: usize = i + 1;
        proof {
            assert(src.subrange(i as int, j as int) =~= seq![src[i as int]]);
            lemma_weight_one(src[i as int], key);
        }
        while j < n && same(&keys[j], &keys[i])
            invariant
                lawful::<K>(),
                n == src.len(),
                keys@.len() == n,
                diffs@.len() == n,
                i < j <= n,
                key == src[i as int].0,
                forall|p: int| i <= p < n ==> keys@[p] == src[p].0 && diffs@[p] == src[p].1,
                forall|p: int| i <= p < j ==> (#[trigger] src[p]).0 == key,
                acc == weight_of(src.subrange(i as int, j as int), key),
            decreases n - j,
        {
            acc.add_assign_by_ref(&diffs[j]);
            proof {
                assert(src.subrange(i as int, j + 1) =~= src.subrange(i as int, j as int).push(
                    src[j as int],
                ));
                lemma_weight_push(src.subrange(i as int, j as int), src[j as int], key);
            }
            j += 1;
        }
        let ghost out = paired_prefix(keys@, diffs@, w as int);
        let ghost run = src.subrange(i as int, j as int);
        let ghost rest = src.subrange(j as int, n as int);
        proof {
            assert(src.subrange(i as int, n as int) =~= run + rest);
            assert forall|q: int| j <= q < n implies key_lt(key, (#[trigger] src[q]).0) by {
                assert(key_le(src[i as int].0, src[j as int].0));
                assert(src[j as int].0 != key);
                if q > j {
                    assert(key_le(src[j as int].0, src[q].0));
                    lemma_lt_le_transitive(key, src[j as int].0, src[q].0);
                }
            }
        }
        if !acc.is_zero() {
            swap_items(keys, w, i);
            diffs[w] = acc;
            proof {
                let e = (key, acc);
                let out2 = paired_prefix(keys@, diffs@, w + 1);
                assert(out2 =~= out.push(e));
                assert forall|p: int, q: int| 0 <= p < q < out2.len() implies key_lt(
                    out2[p].0,
                    out2[q].0,
                ) by {
                    if q < w {
                        assert(out2[p] == out[p] && out2[q] == out[q]);
                    } else {
                        assert(out2[p] == out[p]);
                        assert(key_lt(out[p].0, src[i as int].0));
                    }
                }
                assert forall|p: int| 0 <= p < out2.len() implies (#[trigger] out2[p]).1
                    != R::zero_spec() by {
                    if p < w {
                        assert(out2[p] == out[p]);
                    }
                }
                assert forall|p: int, q: int| 0 <= p < w + 1 && j <= q < n implies key_lt(
                    keys@[p],
                    src[q].0,
                ) by {
                    if p < w {
                        assert(keys@[p] == out[p].0);
                        assert(key_lt(out[p].0, src[q].0));
                    }
                }
                assert forall|k: K|
                    (#[trigger] weight_of(out2, k)).add_spec(weight_of(rest, k)) == weight_of(
                        src,
                        k,
                    ) by {
                    lemma_weight_push(out, e, k);
                    lemma_weight_concat(run, rest, k);
                    assert(weight_of(out, k).add_spec(weight_of(run + rest, k)) == weight_of(
                        src,
                        k,
                    ));
                    if k != key {
                        lemma_weight_run(run, key, k);
                    }
                    assert(weight_of(run, k) == share(e, k));
                    R::lemma_add_associative(weight_of(out, k), share(e, k), weight_of(rest, k));
                }
            }
            w += 1;
        } else {
            proof {
                assert forall|k: K|
                    (#[trigger] weight_of(out, k)).add_spec(weight_of(rest, k)) == weight_of(
                        src,
                        k,
                    ) by {
                    lemma_weight_concat(run, rest, k);
                    assert(weight_of(out, k).add_spec(weight_of(run + rest, k)) == weight_of(
                        src,
                        k,
                    ));
                    if k != key {
                        lemma_weight_run(run, key, k);
                    }
                    lemma_zero_add(weight_of(rest, k));
                }
            }
        }
        i = j;
    }
    proof {
        assert forall|k: K| #[trigger]
            weight_of(paired_prefix(keys@, diffs@, w as int), k) == weight_of(src, k) by {
            assert(src.subrange(n as int, n as int) =~= Seq::<(K, R)>::empty());
            assert((weight_of(paired_prefix(keys@, diffs@, w as int), k)).add_spec(
                weight_of(src.subrange(i as int, n as int), k),
            ) == weight_of(src, k));
            R::lemma_add_zero(weight_of(paired_prefix(keys@, diffs@, w as int), k));
        }
    }
    w
}

/// Consolidates two parallel columns of keys and weights in place and
/// returns the length of the consolidated prefix of both.
///
/// The keys are sorted through a permutation of their indices, which is
/// built in `indices` and then applied to both columns; `indices` is
/// scratch space, and what it holds afterwards is of no use.
pub fn consolidate_paired_slices<K: Ord, R: MonoidValue>(
    keys: &mut [K],
    diffs: &mut [R],
    indices: &mut Vec<usize>,
) -> (len: usize)
    requires
        lawful::<K>(),
        old(keys)@.len() == old(diffs)@.len(),
    ensures
        final(keys)@.len() == old(keys)@.len(),
        final(diffs)@.len() == old(diffs)@.len(),
        len <= old(keys)@.len(),
        consolidated(paired_prefix(final(keys)@, final(diffs)@, len as int)),
        same_weights(
            paired_prefix(final(keys)@, final(diffs)@, len as int),
            pairs(old(keys)@, old(diffs)@),
        ),
        consolidated(pairs(old(keys)@, old(diffs)@)) ==> paired_prefix(
            final(keys)@,
            final(diffs)@,
            len as int,
        ) == pairs(old(keys)@, old(diffs)@),
{
    let ghost keys0 = keys@;
    let ghost diffs0 = diffs@;
    let n = keys.len();
    fill_indices::fill_indices(n, indices);
    proof {
        assert(indices_within(indices@, n as nat));
    }
    sort_indices(indices, keys);
    let ghost order = indices@;
    apply_permutation(keys, diffs, indices);
    proof {
        lemma_rearranged_identity(order, n as nat);
        let sorted = pairs(keys@, diffs@);
        assert forall|i: int, j: int| 0 <= i < j < sorted.len() implies key_le(
            sorted[i].0,
            sorted[j].0,
        ) by {
            assert(sorted[i].0 == keys0[order[i] as int]);
            assert(sorted[j].0 == keys0[order[j] as int]);
        }
    }
    let ghost sorted = pairs(keys@, diffs@);
    let len = compact_paired(keys, diffs);
    proof {
        let out = paired_prefix(keys@, diffs@, len as int);
        assert forall|k: K| #[trigger] weight_of(out, k) == weight_of(pairs(keys0, diffs0), k) by {
            assert(weight_of(out, k) == weight_of(sorted, k));
            assert(weight_of(sorted, k) == weight_of(pairs(keys0, diffs0), k));
        }
        if consolidated(pairs(keys0, diffs0)) {
            lemma_consolidated_unique(out, pairs(keys0, diffs0));
        }
    }
    len
}

/// The elements of `items` whose mark in `keep` is set, in order.
pub open spec fn kept<T>(items: Seq<T>, keep: Seq<bool>) -> Seq<T>
    decreases items.len(),
{
    if items.len() == 0 {
        Seq::empty()
    } else if keep.last() {
        kept(items.drop_last(), keep.drop_last()).push(items.last())
    } else {
        kept(items.drop_last(), keep.drop_last())
    }
}

/// `keep` marks each element with what `retain` answers for it.
pub open spec fn marks_retained<T, F: Fn(&T) -> bool>(retain: F, items: Seq<T>, keep: Seq<bool>) -> bool {
    &&& keep.len() == items.len()
    &&& forall|i: int| 0 <= i < items.len() ==> call_ensures(retain, (&items[i],), #[trigger] keep[i])
}

/// The last marked position before `i`, where position 0 is marked.
pub open spec fn last_kept(keep: Seq<bool>, i: int) -> int
    decreases i,
{
    if i <= 1 {
        0
    } else if keep[i - 1] {
        i - 1
    } else {
        last_kept(keep, i - 1)
    }
}

/// `keep` marks the first element, and each later one unless `same_bucket`
/// answers that it equals the last marked element before it.
pub open spec fn marks_distinct<T, F: Fn(&T, &T) -> bool>(
    same_bucket: F,
    items: Seq<T>,
    keep: Seq<bool>,
) -> bool {
    &&& keep.len() == items.len()
    &&& items.len() > 0 ==> keep[0]
    &&& forall|i: int|
        1 <= i < items.len() ==> call_ensures(
            same_bucket,
            (&items[i], &items[last_kept(keep, i)]),
            !(#[trigger] keep[i]),
        )
}

proof fn lemma_last_kept_prefix(keep: Seq<bool>, longer: Seq<bool>, i: int)
    requires
        1 <= i <= keep.len() <= longer.len(),
        forall|j: int| 0 <= j < keep.len() ==> keep[j] == longer[j],
    ensures
        last_kept(keep, i) == last_kept(longer, i),
        0 <= last_kept(keep, i) < i,
    decreases i,
{
    if i > 1 && !keep[i - 1] {
        lemma_last_kept_prefix(keep, longer, i - 1);
    }
}

/// Removes the elements from `starting_point` on for which `retain` answers
/// `false`, and keeps the others in order. The elements before
/// `starting_point` are not asked about and stay.
pub fn retain_starting_at<T, F: Fn(&T) -> bool>(vec: &mut Vec<T>, starting_point: usize, retain: F)
    requires
        forall|i: int|
            starting_point <= i < old(vec)@.len() ==> call_requires(retain, (&old(vec)@[i],)),
    ensures
        starting_point >= old(vec)@.len() ==> final(vec)@ == old(vec)@,
        starting_point < old(vec)@.len() ==> exists|keep: Seq<bool>|
            {
                &&& marks_retained(
                    retain,
                    old(vec)@.subrange(starting_point as int, old(vec)@.len() as int),
                    keep,
                )
                &&& final(vec)@ == old(vec)@.subrange(0, starting_point as int) + kept(
                    old(vec)@.subrange(starting_point as int, old(vec)@.len() as int),
                    keep,
                )
            },
{
    let n = vec.len();
    if starting_point >= n {
        return ;
    }
    let ghost before = vec@;
    let ghost head = before.subrange(0, starting_point as int);
    let ghost items = before.subrange(starting_point as int, n as int);
    let ghost mut keep: Seq<bool> = Seq::empty();
    let mut w: usize = starting_point;
    let mut r: usize = starting_point;
    proof {
        assert(vec@.subrange(0, w as int) =~= head + kept(items.subrange(0, 0), keep));
    }
    while r < n
        invariant
            n == before.len(),
            vec@.len() == n,
            starting_point <= w <= r <= n,
            head == before.subrange(0, starting_point as int),
            items == before.subrange(starting_point as int, n as int),
            forall|i: int| starting_point <= i < n ==> call_requires(retain, (&before[i],)),
            forall|i: int| r <= i < n ==> vec@[i] == before[i],
            marks_retained(retain, items.subrange(0, r - starting_point), keep),
            vec@.subrange(0, w as int) == head + kept(items.subrange(0, r - starting_point), keep),
        decreases n - r,
    {
        let ghost seen = items.subrange(0, r - starting_point);
        let ghost front = vec@.subrange(0, w as int);
        proof {
            assert(call_requires(retain, (&before[r as int],)));
        }
        let answer = retain(&vec[r]);
        let ghost keep2 = keep.push(answer);
        let ghost seen2 = items.subrange(0, r + 1 - starting_point);
        proof {
            assert(seen2 =~= seen.push(before[r as int]));
            assert(seen2.drop_last() =~= seen);
            assert(keep2.drop_last() =~= keep);
            assert forall|i: int| 0 <= i < seen2.len() implies call_ensures(
                retain,
                (&seen2[i],),
                #[trigger] keep2[i],
            ) by {
                if i < seen.len() {
                    assert(seen2[i] == seen[i]);
                    assert(keep2[i] == keep[i]);
                }
            }
        }
        if answer {
            let slice = vec.as_mut_slice();
            swap_items(slice, w, r);
            proof {
                assert(vec@.subrange(0, w + 1) =~= front.push(before[r as int]));
                assert(front.push(before[r as int]) =~= head + kept(seen, keep).push(
                    before[r as int],
                ));
            }
            w += 1;
        }
        proof {
            keep = keep2;
        }
        r += 1;
    }
    vec.truncate(w);
    proof {
        assert(items.subrange(0, n - starting_point) =~= items);
        assert(vec@ =~= head + kept(items, keep));
    }
}

/// Removes, from `starting_point` on, each element that `same_bucket` calls
/// equal to the last element kept before it. The first element from
/// `starting_point` on is kept, and so is everything before it.
pub fn dedup_starting_at<T, F: Fn(&T, &T) -> bool>(
    vec: &mut Vec<T>,
    starting_point: usize,
    same_bucket: F,
)
    requires
        forall|i: int, j: int|
            starting_point <= j < i < old(vec)@.len() ==> call_requires(
                same_bucket,
                (&old(vec)@[i], &old(vec)@[j]),
            ),
    ensures
        starting_point >= old(vec)@.len() ==> final(vec)@ == old(vec)@,
        starting_point < old(vec)@.len() ==> exists|keep: Seq<bool>|
            {
                &&& marks_distinct(
                    same_bucket,
                    old(vec)@.subrange(starting_point as int, old(vec)@.len() as int),
                    keep,
                )
                &&& final(vec)@ == old(vec)@.subrange(0, starting_point as int) + kept(
                    old(vec)@.subrange(starting_point as int, old(vec)@.len() as int),
                    keep,
                )
            },
{
    let n = vec.len();
    if starting_point >= n {
        return ;
    }
    let ghost before = vec@;
    let ghost head = before.subrange(0, starting_point as int);
    let ghost items = before.subrange(starting_point as int, n as int);
    let ghost mut keep: Seq<bool> = seq![true];
    let ghost mut last: int = 0;
    let mut w: usize = starting_point + 1;
    let mut r: usize = starting_point + 1;
    proof {
        let one = items.subrange(0, 1);
        assert(one.len() == 1);
        assert(one.drop_last() =~= Seq::<T>::empty());
        assert(kept(one.drop_last(), keep.drop_last()) =~= Seq::<T>::empty());
        assert(kept(one, keep) =~= seq![items[0]]);
        assert(vec@.subrange(0, w as int) =~= head + kept(one, keep));
    }
    while r < n
        invariant
            n == before.len(),
            vec@.len() == n,
            starting_point < w <= r <= n,
            head == before.subrange(0, starting_point as int),
            items == before.subrange(starting_point as int, n as int),
            forall|i: int, j: int|
                starting_point <= j < i < n ==> call_requires(same_bucket, (&before[i], &before[j])),
            forall|i: int| r <= i < n ==> vec@[i] == before[i],
            keep.len() == r - starting_point,
            marks_distinct(same_bucket, items.subrange(0, r - starting_point), keep),
            vec@.subrange(0, w as int) == head + kept(items.subrange(0, r - starting_point), keep),
            0 <= last < r - starting_point,
            last == last_kept(keep, r - starting_point),
            vec@[w - 1] == items[last],
        decreases n - r,
    {
        let ghost seen = items.subrange(0, r - starting_point);
        let ghost front = vec@.subrange(0, w as int);
        let ghost at = r - starting_point;
        proof {
            assert(items[last] == before[starting_point + last]);
            assert(call_requires(same_bucket, (&before[r as int], &before[starting_point + last])));
        }
        let equal = same_bucket(&vec[r], &vec[w - 1]);
        let ghost keep2 = keep.push(!equal);
        let ghost seen2 = items.subrange(0, at + 1);
        proof {
            assert(seen2 =~= seen.push(before[r as int]));
            assert(seen2.drop_last() =~= seen);
            assert(keep2.drop_last() =~= keep);
            assert forall|i: int| 1 <= i < seen2.len() implies call_ensures(
                same_bucket,
                (&seen2[i], &seen2[last_kept(keep2, i)]),
                !(#[trigger] keep2[i]),
            ) by {
                lemma_last_kept_prefix(keep, keep2, i);
                if i < at {
                    assert(seen2[i] == seen[i]);
                    assert(seen2[last_kept(keep, i)] == seen[last_kept(keep, i)]);
                    assert(keep2[i] == keep[i]);
                } else {
                    assert(seen2[last] == items[last]);
                }
            }
        }
        if !equal {
            let slice = vec.as_mut_slice();
            swap_items(slice, w, r);
            proof {
                assert(vec@.subrange(0, w + 1) =~= front.push(before[r as int]));
                assert(front.push(before[r as int]) =~= head + kept(seen, keep).push(
                    before[r as int],
                ));
                last = at;
            }
            w += 1;
        }
        proof {
            lemma_last_kept_prefix(keep, keep2, at);
            assert(keep2[at] == !equal);
            keep = keep2;
        }
        r += 1;
    }
    vec.truncate(w);
    proof {
        assert(items.subrange(0, n - starting_point) =~= items);
        assert(vec@ =~= head + kept(items, keep));
    }
}

} // verus!
