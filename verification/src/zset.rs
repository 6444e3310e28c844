//! Z-sets as weight functions.
//!
//! A sequence of `(key, weight)` pairs stands for the function that gives
//! each key the sum of the weights it occurs with. Two sequences are the same
//! Z-set when they give every key the same weight; among them exactly one is
//! consolidated: strictly sorted by key and free of zero weights.

use vstd::prelude::*;
use crate::algebra::GroupValue;
use crate::algebra::MonoidValue;
use crate::algebra::lemma_neg_add;
use crate::algebra::lemma_neg_zero;
use crate::order::key_lt;
use crate::order::lawful;
use crate::order::lemma_lt_total;

verus! {

/// The sum of the weights that `k` occurs with in `s`.
pub open spec fn weight_of<K, R: MonoidValue>(s: Seq<(K, R)>, k: K) -> R
    decreases s.len(),
{
    if s.len() == 0 {
        R::zero_spec()
    } else if s.last().0 == k {
        weight_of(s.drop_last(), k).add_spec(s.last().1)
    } else {
        weight_of(s.drop_last(), k)
    }
}

/// What one pair adds to the weight of `k`.
pub open spec fn share<K, R: MonoidValue>(e: (K, R), k: K) -> R {
    if e.0 == k {
        e.1
    } else {
        R::zero_spec()
    }
}

/// Two parallel columns read as one sequence of pairs.
pub open spec fn pairs<K, R>(keys: Seq<K>, diffs: Seq<R>) -> Seq<(K, R)> {
    Seq::new(keys.len(), |i: int| (keys[i], diffs[i]))
}

/// Every key has the same weight in `a` as in `b`.
pub open spec fn same_weights<K, R: MonoidValue>(a: Seq<(K, R)>, b: Seq<(K, R)>) -> bool {
    forall|k: K| #[trigger] weight_of(a, k) == weight_of(b, k)
}

/// The keys of `s` are strictly increasing.
pub open spec fn keys_ascend<K: Ord, R>(s: Seq<(K, R)>) -> bool {
    forall|i: int, j: int| 0 <= i < j < s.len() ==> key_lt(s[i].0, s[j].0)
}

/// No pair of `s` has weight zero.
pub open spec fn no_zero<K, R: MonoidValue>(s: Seq<(K, R)>) -> bool {
    forall|i: int| 0 <= i < s.len() ==> (#[trigger] s[i]).1 != R::zero_spec()
}

/// Strictly sorted by key, and no weight is zero.
pub open spec fn consolidated<K: Ord, R: MonoidValue>(s: Seq<(K, R)>) -> bool {
    keys_ascend(s) && no_zero(s)
}

/// Zero added to a weight from the left leaves the weight.
pub proof fn lemma_zero_add<R: MonoidValue>(a: R)
    ensures
        R::zero_spec().add_spec(a) == a,
{
    R::lemma_add_commutative(R::zero_spec(), a);
    R::lemma_add_zero(a);
}

/// Adding a pair at the end adds its share.
pub proof fn lemma_weight_push<K, R: MonoidValue>(s: Seq<(K, R)>, e: (K, R), k: K)
    ensures
        weight_of(s.push(e), k) == weight_of(s, k).add_spec(share(e, k)),
{
    assert(s.push(e).drop_last() =~= s);
    assert(s.push(e).last() == e);
    if e.0 != k {
        R::lemma_add_zero(weight_of(s, k));
    }
}

/// The weight in a concatenation is the sum of the weights in its parts.
pub proof fn lemma_weight_concat<K, R: MonoidValue>(a: Seq<(K, R)>, b: Seq<(K, R)>, k: K)
    ensures
        weight_of(a + b, k) == weight_of(a, k).add_spec(weight_of(b, k)),
    decreases b.len(),
{
    if b.len() == 0 {
        assert(a + b =~= a);
        R::lemma_add_zero(weight_of(a, k));
    } else {
        let b1 = b.drop_last();
        assert((a + b).drop_last() =~= a + b1);
        assert((a + b).last() == b.last());
        lemma_weight_concat(a, b1, k);
        if b.last().0 == k {
            R::lemma_add_associative(weight_of(a, k), weight_of(b1, k), b.last().1);
        }
    }
}

/// A key that does not occur has weight zero.
pub proof fn lemma_weight_absent<K, R: MonoidValue>(s: Seq<(K, R)>, k: K)
    requires
        forall|i: int| 0 <= i < s.len() ==> (#[trigger] s[i]).0 != k,
    ensures
        weight_of(s, k) == R::zero_spec(),
    decreases s.len(),
{
    if s.len() > 0 {
        assert(s.last() == s[s.len() - 1]);
        assert forall|i: int| 0 <= i < s.drop_last().len() implies (#[trigger] s.drop_last()[i]).0
            != k by {
            assert(s.drop_last()[i] == s[i]);
        }
        lemma_weight_absent(s.drop_last(), k);
    }
}

/// The weight of one pair alone is its share.
pub proof fn lemma_weight_one<K, R: MonoidValue>(e: (K, R), k: K)
    ensures
        weight_of(seq![e], k) == share(e, k),
{
    assert(seq![e] =~= Seq::<(K, R)>::empty().push(e));
    lemma_weight_push(Seq::<(K, R)>::empty(), e, k);
    lemma_zero_add(share(e, k));
}

/// Taking one pair out takes its share out.
pub proof fn lemma_weight_remove<K, R: MonoidValue>(s: Seq<(K, R)>, j: int, k: K)
    requires
        0 <= j < s.len(),
    ensures
        weight_of(s, k) == weight_of(s.remove(j), k).add_spec(share(s[j], k)),
{
    let head = s.subrange(0, j);
    let tail = s.subrange(j + 1, s.len() as int);
    let one = seq![s[j]];
    assert(s =~= (head + one) + tail);
    assert(s.remove(j) =~= head + tail);
    lemma_weight_concat(head + one, tail, k);
    lemma_weight_concat(head, one, k);
    lemma_weight_concat(head, tail, k);
    lemma_weight_one(s[j], k);
    let h = weight_of(head, k);
    let t = weight_of(tail, k);
    let x = share(s[j], k);
    R::lemma_add_associative(h, x, t);
    R::lemma_add_commutative(x, t);
    R::lemma_add_associative(h, t, x);
}

/// The weight of a key does not depend on the order of the pairs.
pub proof fn lemma_weight_permutation<K, R: MonoidValue>(a: Seq<(K, R)>, b: Seq<(K, R)>, k: K)
    requires
        a.to_multiset() == b.to_multiset(),
    ensures
        weight_of(a, k) == weight_of(b, k),
    decreases a.len(),
{
    broadcast use vstd::seq_lib::group_to_multiset_ensures;

    a.to_multiset_ensures();
    b.to_multiset_ensures();
    if a.len() == 0 {
        assert(b.len() == 0);
        assert(a =~= b);
    } else {
        let e = a.last();
        let j_a = a.len() - 1;
        assert(a[j_a] == e);
        assert(a.contains(e));
        assert(b.to_multiset().count(e) > 0);
        assert(b.contains(e));
        let j = choose|j: int| 0 <= j < b.len() && b[j] == e;
        let a1 = a.remove(j_a);
        let b1 = b.remove(j);
        assert(a1.to_multiset() =~= a.to_multiset().remove(e));
        assert(b1.to_multiset() =~= b.to_multiset().remove(e));
        a.remove_ensures(j_a);
        lemma_weight_permutation(a1, b1, k);
        lemma_weight_remove(a, j_a, k);
        lemma_weight_remove(b, j, k);
    }
}

/// Where the keys are distinct, each key's weight is the weight it stands with.
pub proof fn lemma_weight_at<K: Ord, R: MonoidValue>(s: Seq<(K, R)>, i: int)
    requires
        lawful::<K>(),
        keys_ascend(s),
        0 <= i < s.len(),
    ensures
        weight_of(s, s[i].0) == s[i].1,
{
    let k = s[i].0;
    let rest = s.remove(i);
    s.remove_ensures(i);
    assert forall|j: int| 0 <= j < rest.len() implies (#[trigger] rest[j]).0 != k by {
        if j < i {
            assert(rest[j] == s[j]);
            lemma_lt_total(s[j].0, s[i].0);
        } else {
            assert(rest[j] == s[j + 1]);
            lemma_lt_total(s[i].0, s[j + 1].0);
        }
    }
    lemma_weight_absent(rest, k);
    lemma_weight_remove(s, i, k);
    lemma_zero_add(s[i].1);
}

/// Below a strict upper bound of the keys, nothing has weight.
pub proof fn lemma_weight_beyond<K: Ord, R: MonoidValue>(s: Seq<(K, R)>, k: K)
    requires
        lawful::<K>(),
        forall|i: int| 0 <= i < s.len() ==> key_lt((#[trigger] s[i]).0, k),
    ensures
        weight_of(s, k) == R::zero_spec(),
{
    assert forall|i: int| 0 <= i < s.len() implies (#[trigger] s[i]).0 != k by {
        lemma_lt_total(s[i].0, k);
    }
    lemma_weight_absent(s, k);
}

/// A consolidated sequence is the only consolidated form of its Z-set.
pub proof fn lemma_consolidated_unique<K: Ord, R: MonoidValue>(a: Seq<(K, R)>, b: Seq<(K, R)>)
    requires
        lawful::<K>(),
        consolidated(a),
        consolidated(b),
        same_weights(a, b),
    ensures
        a == b,
    decreases a.len() + b.len(),
{
    if a.len() == 0 && b.len() == 0 {
        assert(a =~= b);
    } else if a.len() == 0 {
        lemma_weight_at(b, 0);
        assert(weight_of(a, b[0].0) == weight_of(b, b[0].0));
    } else if b.len() == 0 {
        lemma_weight_at(a, 0);
        assert(weight_of(a, a[0].0) == weight_of(b, a[0].0));
    } else {
        let la = a.len() - 1;
        let lb = b.len() - 1;
        let ka = a[la].0;
        let kb = b[lb].0;
        lemma_weight_at(a, la);
        lemma_weight_at(b, lb);
        lemma_lt_total(ka, kb);
        if key_lt(ka, kb) {
            assert forall|i: int| 0 <= i < a.len() implies key_lt((#[trigger] a[i]).0, kb) by {
                if i < la {
                    crate::order::lemma_lt_transitive(a[i].0, ka, kb);
                }
            }
            lemma_weight_beyond(a, kb);
            assert(weight_of(a, kb) == weight_of(b, kb));
            assert(false);
        }
        if key_lt(kb, ka) {
            assert forall|i: int| 0 <= i < b.len() implies key_lt((#[trigger] b[i]).0, ka) by {
                if i < lb {
                    crate::order::lemma_lt_transitive(b[i].0, kb, ka);
                }
            }
            lemma_weight_beyond(b, ka);
            assert(weight_of(a, ka) == weight_of(b, ka));
            assert(false);
        }
        assert(ka == kb);
        assert(weight_of(a, ka) == weight_of(b, ka));
        assert(a[la] == b[lb]);
        let a1 = a.drop_last();
        let b1 = b.drop_last();
        assert forall|k: K| #[trigger] weight_of(a1, k) == weight_of(b1, k) by {
            assert(weight_of(a, k) == weight_of(b, k));
            if k == ka {
                assert forall|i: int| 0 <= i < a1.len() implies key_lt((#[trigger] a1[i]).0, k) by {
                    assert(a1[i] == a[i]);
                }
                assert forall|i: int| 0 <= i < b1.len() implies key_lt((#[trigger] b1[i]).0, k) by {
                    assert(b1[i] == b[i]);
                }
                lemma_weight_beyond(a1, k);
                lemma_weight_beyond(b1, k);
            }
        }
        assert(consolidated(a1)) by {
            assert forall|i: int, j: int| 0 <= i < j < a1.len() implies key_lt(a1[i].0, a1[j].0) by {
                assert(a1[i] == a[i] && a1[j] == a[j]);
            }
            assert forall|i: int| 0 <= i < a1.len() implies (#[trigger] a1[i]).1
                != R::zero_spec() by {
                assert(a1[i] == a[i]);
            }
        }
        assert(consolidated(b1)) by {
            assert forall|i: int, j: int| 0 <= i < j < b1.len() implies key_lt(b1[i].0, b1[j].0) by {
                assert(b1[i] == b[i] && b1[j] == b[j]);
            }
            assert forall|i: int| 0 <= i < b1.len() implies (#[trigger] b1[i]).1
                != R::zero_spec() by {
                assert(b1[i] == b[i]);
            }
        }
        lemma_consolidated_unique(a1, b1);
        assert(a =~= a1.push(a[la]));
        assert(b =~= b1.push(b[lb]));
    }
}

/// Exchanging two pairs changes no weight.
pub proof fn lemma_weight_swap<K, R: MonoidValue>(s: Seq<(K, R)>, a: int, b: int, k: K)
    requires
        0 <= a < s.len(),
        0 <= b < s.len(),
    ensures
        weight_of(s.update(a, s[b]).update(b, s[a]), k) == weight_of(s, k),
{
    broadcast use vstd::seq_lib::group_to_multiset_ensures;

    let t = s.update(a, s[b]).update(b, s[a]);
    if a == b {
        assert(t =~= s);
    } else {
        let lo = if a < b { a } else { b };
        let hi = if a < b { b } else { a };
        // take the pair at `hi` out of both, then the pair at `lo`
        let s1 = s.remove(hi);
        let t1 = t.remove(hi);
        let s2 = s1.remove(lo);
        let t2 = t1.remove(lo);
        assert(s2 =~= t2);
        lemma_weight_remove(s, hi, k);
        lemma_weight_remove(s1, lo, k);
        lemma_weight_remove(t, hi, k);
        lemma_weight_remove(t1, lo, k);
        assert(s1[lo] == s[lo]);
        assert(t1[lo] == s[hi]);
        assert(t[hi] == s[lo]);
        let base = weight_of(s2, k);
        let x = share(s[lo], k);
        let y = share(s[hi], k);
        R::lemma_add_associative(base, x, y);
        R::lemma_add_associative(base, y, x);
        R::lemma_add_commutative(x, y);
    }
}

/// `(a + b) + (c + d)` is `(a + c) + (b + d)`.
pub proof fn lemma_add_interchange<R: MonoidValue>(a: R, b: R, c: R, d: R)
    ensures
        a.add_spec(b).add_spec(c.add_spec(d)) == a.add_spec(c).add_spec(b.add_spec(d)),
{
    R::lemma_add_associative(a, b, c.add_spec(d));
    R::lemma_add_associative(b, c, d);
    R::lemma_add_commutative(b, c);
    R::lemma_add_associative(c, b, d);
    R::lemma_add_associative(a, c, b.add_spec(d));
}

/// A part of a consolidated sequence is consolidated.
pub proof fn lemma_consolidated_subrange<K: Ord, R: MonoidValue>(s: Seq<(K, R)>, lower: int, upper: int)
    requires
        consolidated(s),
        0 <= lower <= upper <= s.len(),
    ensures
        consolidated(s.subrange(lower, upper)),
{
    let t = s.subrange(lower, upper);
    assert forall|i: int, j: int| 0 <= i < j < t.len() implies key_lt(t[i].0, t[j].0) by {
        assert(t[i] == s[lower + i] && t[j] == s[lower + j]);
    }
    assert forall|i: int| 0 <= i < t.len() implies (#[trigger] t[i]).1 != R::zero_spec() by {
        assert(t[i] == s[lower + i]);
    }
}

/// Two consolidated sequences, the keys of the first all before the keys of
/// the second, make a consolidated sequence together.
pub proof fn lemma_consolidated_concat<K: Ord, R: MonoidValue>(a: Seq<(K, R)>, b: Seq<(K, R)>)
    requires
        lawful::<K>(),
        consolidated(a),
        consolidated(b),
        a.len() > 0 && b.len() > 0 ==> key_lt(a.last().0, b[0].0),
    ensures
        consolidated(a + b),
{
    let t = a + b;
    assert forall|i: int, j: int| 0 <= i < j < t.len() implies key_lt(t[i].0, t[j].0) by {
        if j < a.len() {
            assert(t[i] == a[i] && t[j] == a[j]);
        } else if i >= a.len() {
            assert(t[i] == b[i - a.len()] && t[j] == b[j - a.len()]);
        } else {
            assert(t[i] == a[i] && t[j] == b[j - a.len()]);
            let la = a.len() - 1;
            if i < la {
                crate::order::lemma_lt_transitive(a[i].0, a[la].0, b[0].0);
            }
            if j - a.len() > 0 {
                crate::order::lemma_lt_transitive(a[i].0, b[0].0, b[j - a.len()].0);
            }
        }
    }
    assert forall|i: int| 0 <= i < t.len() implies (#[trigger] t[i]).1 != R::zero_spec() by {
        if i < a.len() {
            assert(t[i] == a[i]);
        } else {
            assert(t[i] == b[i - a.len()]);
        }
    }
}

/// In a merge of two sequences, taking more from the left keeps the sum.
pub proof fn lemma_merge_left<K, R: MonoidValue>(
    out: Seq<(K, R)>,
    left: Seq<(K, R)>,
    more: Seq<(K, R)>,
    right: Seq<(K, R)>,
    k: K,
)
    requires
        weight_of(out, k) == weight_of(left, k).add_spec(weight_of(right, k)),
    ensures
        weight_of(out + more, k) == weight_of(left + more, k).add_spec(weight_of(right, k)),
{
    lemma_weight_concat(out, more, k);
    lemma_weight_concat(left, more, k);
    let a = weight_of(left, k);
    let b = weight_of(right, k);
    let c = weight_of(more, k);
    R::lemma_add_associative(a, b, c);
    R::lemma_add_commutative(b, c);
    R::lemma_add_associative(a, c, b);
}

/// In a merge of two sequences, taking more from the right keeps the sum.
pub proof fn lemma_merge_right<K, R: MonoidValue>(
    out: Seq<(K, R)>,
    left: Seq<(K, R)>,
    right: Seq<(K, R)>,
    more: Seq<(K, R)>,
    k: K,
)
    requires
        weight_of(out, k) == weight_of(left, k).add_spec(weight_of(right, k)),
    ensures
        weight_of(out + more, k) == weight_of(left, k).add_spec(weight_of(right + more, k)),
{
    lemma_weight_concat(out, more, k);
    lemma_weight_concat(right, more, k);
    R::lemma_add_associative(weight_of(left, k), weight_of(right, k), weight_of(more, k));
}

/// In a merge of two sequences, taking one pair from each side, with the
/// same key, keeps the sum: `met` is what the two pairs make together.
pub proof fn lemma_merge_both<K, R: MonoidValue>(
    out: Seq<(K, R)>,
    left: Seq<(K, R)>,
    a: (K, R),
    right: Seq<(K, R)>,
    b: (K, R),
    met: Seq<(K, R)>,
    k: K,
)
    requires
        weight_of(out, k) == weight_of(left, k).add_spec(weight_of(right, k)),
        a.0 == b.0,
        met.len() == 0 ==> a.1.add_spec(b.1) == R::zero_spec(),
        met.len() != 0 ==> met == seq![(a.0, a.1.add_spec(b.1))],
    ensures
        weight_of(out + met, k) == weight_of(left.push(a), k).add_spec(weight_of(right.push(b), k)),
{
    lemma_weight_push(left, a, k);
    lemma_weight_push(right, b, k);
    lemma_weight_concat(out, met, k);
    let sa = share(a, k);
    let sb = share(b, k);
    assert(weight_of(met, k) == sa.add_spec(sb)) by {
        if met.len() == 0 {
            if a.0 != k {
                R::lemma_add_zero(R::zero_spec());
            }
        } else {
            lemma_weight_one((a.0, a.1.add_spec(b.1)), k);
            if a.0 != k {
                R::lemma_add_zero(R::zero_spec());
            }
        }
    }
    lemma_add_interchange(weight_of(left, k), weight_of(right, k), sa, sb);
}

/// `t` holds the pairs of `s` with every weight replaced by its opposite.
pub open spec fn negated<K, R: GroupValue>(s: Seq<(K, R)>, t: Seq<(K, R)>) -> bool {
    &&& t.len() == s.len()
    &&& forall|i: int| 0 <= i < s.len() ==> (#[trigger] t[i]) == (s[i].0, s[i].1.neg_spec())
}

/// Negating every weight negates the weight of every key.
pub proof fn lemma_weight_negated<K, R: GroupValue>(s: Seq<(K, R)>, t: Seq<(K, R)>, k: K)
    requires
        negated(s, t),
    ensures
        weight_of(t, k) == weight_of(s, k).neg_spec(),
    decreases s.len(),
{
    lemma_neg_zero(R::zero_spec());
    if s.len() > 0 {
        let s1 = s.drop_last();
        let t1 = t.drop_last();
        assert(negated(s1, t1)) by {
            assert forall|i: int| 0 <= i < s1.len() implies (#[trigger] t1[i]) == (
                s1[i].0,
                s1[i].1.neg_spec(),
            ) by {
                assert(t1[i] == t[i]);
            }
        }
        lemma_weight_negated(s1, t1, k);
        assert(t.last() == t[s.len() - 1]);
        if s.last().0 == k {
            lemma_neg_add(weight_of(s1, k), s.last().1);
        }
    }
}

/// Negating every weight of a consolidated sequence leaves it consolidated.
pub proof fn lemma_consolidated_negated<K: Ord, R: GroupValue>(s: Seq<(K, R)>, t: Seq<(K, R)>)
    requires
        negated(s, t),
        consolidated(s),
    ensures
        consolidated(t),
{
    assert forall|i: int, j: int| 0 <= i < j < t.len() implies key_lt(t[i].0, t[j].0) by {
        assert(t[i].0 == s[i].0 && t[j].0 == s[j].0);
    }
    assert forall|i: int| 0 <= i < t.len() implies (#[trigger] t[i]).1 != R::zero_spec() by {
        lemma_neg_zero(s[i].1);
    }
}

/// A consolidated sequence stays consolidated when a pair is added whose
/// key is behind its last key and whose weight is not zero.
pub proof fn lemma_consolidated_push<K: Ord, R: MonoidValue>(s: Seq<(K, R)>, e: (K, R))
    requires
        lawful::<K>(),
        consolidated(s),
        e.1 != R::zero_spec(),
        s.len() > 0 ==> key_lt(s.last().0, e.0),
    ensures
        consolidated(s.push(e)),
{
    let one = seq![e];
    assert(consolidated(one));
    assert(s.push(e) =~= s + one);
    lemma_consolidated_concat(s, one);
}

/// Where every weight is zero, every key weighs zero.
pub proof fn lemma_weight_all_zero<K, R: MonoidValue>(s: Seq<(K, R)>, k: K)
    requires
        forall|i: int| 0 <= i < s.len() ==> (#[trigger] s[i]).1 == R::zero_spec(),
    ensures
        weight_of(s, k) == R::zero_spec(),
    decreases s.len(),
{
    if s.len() > 0 {
        assert(s.last() == s[s.len() - 1]);
        assert forall|i: int| 0 <= i < s.drop_last().len() implies (#[trigger] s.drop_last()[i]).1
            == R::zero_spec() by {
            assert(s.drop_last()[i] == s[i]);
        }
        lemma_weight_all_zero(s.drop_last(), k);
        R::lemma_add_zero(R::zero_spec());
    }
}

/// The sum of all weights of a sequence.
pub open spec fn weight_sum<K, R: MonoidValue>(s: Seq<(K, R)>) -> R
    decreases s.len(),
{
    if s.len() == 0 {
        R::zero_spec()
    } else {
        weight_sum(s.drop_last()).add_spec(s.last().1)
    }
}

/// The pairs of `s` whose key is not `k`, in order.
pub open spec fn without<K, R>(s: Seq<(K, R)>, k: K) -> Seq<(K, R)>
    decreases s.len(),
{
    if s.len() == 0 {
        Seq::empty()
    } else if s.last().0 == k {
        without(s.drop_last(), k)
    } else {
        without(s.drop_last(), k).push(s.last())
    }
}

/// Taking a key out of a sequence takes its weight out of the sum of all
/// weights, leaves the weights of the other keys, and makes the sequence
/// no longer.
pub proof fn lemma_without<K, R: MonoidValue>(s: Seq<(K, R)>, k: K, other: K)
    ensures
        weight_sum(s) == weight_sum(without(s, k)).add_spec(weight_of(s, k)),
        without(s, k).len() <= s.len(),
        weight_of(without(s, k), k) == R::zero_spec(),
        other != k ==> weight_of(without(s, k), other) == weight_of(s, other),
        weight_of(s, k) != R::zero_spec() ==> without(s, k).len() < s.len(),
    decreases s.len(),
{
    if s.len() == 0 {
        R::lemma_add_zero(R::zero_spec());
    } else {
        let front = s.drop_last();
        let last = s.last();
        lemma_without(front, k, other);
        let rest = without(front, k);
        if last.0 == k {
            R::lemma_add_associative(weight_sum(rest), weight_of(front, k), last.1);
        } else {
            lemma_weight_push(rest, last, k);
            lemma_weight_push(rest, last, other);
            R::lemma_add_zero(R::zero_spec());
            assert(rest.push(last).drop_last() =~= rest);
            let a = weight_sum(rest);
            let w = weight_of(front, k);
            R::lemma_add_associative(a, w, last.1);
            R::lemma_add_commutative(w, last.1);
            R::lemma_add_associative(a, last.1, w);
        }
        if weight_of(s, k) != R::zero_spec() && rest.len() == front.len() && last.0 != k {
            assert(weight_of(front, k) != R::zero_spec());
        }
    }
}

/// Sequences that give every key the same weight have the same sum of
/// all weights, where one of them is consolidated: consolidation keeps
/// the sum of the weights.
pub proof fn lemma_weight_sum_kept<K: Ord, R: MonoidValue>(c: Seq<(K, R)>, s: Seq<(K, R)>)
    requires
        lawful::<K>(),
        consolidated(c),
        same_weights(c, s),
    ensures
        weight_sum(c) == weight_sum(s),
    decreases c.len(),
{
    if c.len() == 0 {
        assert forall|k: K| #[trigger] weight_of(s, k) == R::zero_spec() by {
            assert(weight_of(c, k) == weight_of(s, k));
        }
        lemma_weight_sum_of_zero(s);
    } else {
        let last = c.last();
        let front = c.drop_last();
        let rest = without(s, last.0);
        lemma_weight_at(c, c.len() - 1);
        lemma_consolidated_subrange(c, 0, c.len() - 1);
        assert(front =~= c.subrange(0, c.len() - 1));
        assert forall|k: K| #[trigger] weight_of(front, k) == weight_of(rest, k) by {
            lemma_without(s, last.0, k);
            assert(weight_of(c, k) == weight_of(s, k));
            if k == last.0 {
                assert forall|i: int| 0 <= i < front.len() implies key_lt(
                    (#[trigger] front[i]).0,
                    k,
                ) by {
                    assert(front[i] == c[i]);
                }
                lemma_weight_beyond(front, k);
            }
        }
        lemma_weight_sum_kept(front, rest);
        lemma_without(s, last.0, last.0);
        assert(weight_of(c, last.0) == weight_of(s, last.0));
    }
}

/// A sequence in which every key has weight zero has weights that sum
/// to zero.
pub proof fn lemma_weight_sum_of_zero<K, R: MonoidValue>(s: Seq<(K, R)>)
    requires
        forall|k: K| #[trigger] weight_of(s, k) == R::zero_spec(),
    ensures
        weight_sum(s) == R::zero_spec(),
    decreases s.len(),
{
    if s.len() > 0 {
        let k = s.last().0;
        let rest = without(s, k);
        lemma_without(s, k, k);
        assert(rest.len() < s.len()) by {
            lemma_without_shrinks(s);
        }
        assert forall|other: K| #[trigger] weight_of(rest, other) == R::zero_spec() by {
            lemma_without(s, k, other);
            assert(weight_of(s, other) == R::zero_spec());
        }
        lemma_weight_sum_of_zero(rest);
        R::lemma_add_zero(R::zero_spec());
    }
}

/// Taking the key of the last pair out of a sequence makes it shorter.
proof fn lemma_without_shrinks<K, R: MonoidValue>(s: Seq<(K, R)>)
    requires
        s.len() > 0,
    ensures
        without(s, s.last().0).len() < s.len(),
{
    lemma_without(s.drop_last(), s.last().0, s.last().0);
}

} // verus!
