//! Keys and their total order.
//!
//! Every sorted structure of the crate orders its keys by the key type's own
//! `Ord`. The contracts hold for key types whose comparison is a strict total
//! order that agrees with equality; `lawful` names that condition.

use vstd::prelude::*;
use core::cmp::Ordering;
use vstd::std_specs::cmp::OrdSpec;
use vstd::std_specs::cmp::PartialOrdSpec;
use vstd::std_specs::cmp::PartialEqSpec;

verus! {

/// The comparison operators of `K` follow one total order, and `==` on `K`
/// is equality of values.
pub open spec fn lawful<K: Ord>() -> bool {
    &&& vstd::laws_cmp::obeys_cmp::<K>()
    &&& vstd::laws_eq::obeys_concrete_eq::<K>()
}

/// A clone of a `K` is equal to the value it was made from.
pub open spec fn faithful_clone<K: Clone>() -> bool {
    forall|a: K, b: K| #[trigger] cloned(a, b) ==> a == b
}

/// `a` stands strictly before `b`.
pub open spec fn key_lt<K: Ord>(a: K, b: K) -> bool {
    a.cmp_spec(&b) == Ordering::Less
}

/// `a` stands before `b` or is `b`.
pub open spec fn key_le<K: Ord>(a: K, b: K) -> bool {
    key_lt(a, b) || a == b
}

/// Each element of `s` stands strictly before the next.
pub open spec fn strictly_increasing<K: Ord>(s: Seq<K>) -> bool {
    forall|i: int, j: int| 0 <= i < j < s.len() ==> key_lt(s[i], s[j])
}

/// No key stands before itself.
pub proof fn lemma_lt_irreflexive<K: Ord>(a: K)
    requires
        lawful::<K>(),
    ensures
        !key_lt(a, a),
{
    reveal(vstd::laws_cmp::obeys_cmp_partial_ord);
    reveal(vstd::laws_cmp::obeys_cmp_ord);
    reveal(vstd::laws_cmp::obeys_partial_cmp_spec_properties);
    reveal(vstd::laws_eq::obeys_concrete_eq);
    reveal(vstd::laws_eq::obeys_eq_spec_properties);
}

/// A key before a key that is before a third is before the third.
pub proof fn lemma_lt_transitive<K: Ord>(a: K, b: K, c: K)
    requires
        lawful::<K>(),
        key_lt(a, b),
        key_lt(b, c),
    ensures
        key_lt(a, c),
{
    reveal(vstd::laws_cmp::obeys_cmp_partial_ord);
    reveal(vstd::laws_cmp::obeys_cmp_ord);
    reveal(vstd::laws_cmp::obeys_partial_cmp_spec_properties);
    reveal(vstd::laws_eq::obeys_concrete_eq);
    reveal(vstd::laws_eq::obeys_eq_spec_properties);
    assert(a.partial_cmp_spec(&b) == Some(Ordering::Less));
    assert(b.partial_cmp_spec(&c) == Some(Ordering::Less));
    assert(a.partial_cmp_spec(&c) == Some(Ordering::Less));
}

/// Exactly one of `a < b`, `a == b`, `b < a` holds.
pub proof fn lemma_lt_total<K: Ord>(a: K, b: K)
    requires
        lawful::<K>(),
    ensures
        key_lt(a, b) || a == b || key_lt(b, a),
        !(key_lt(a, b) && key_lt(b, a)),
        key_lt(a, b) ==> a != b,
        key_lt(b, a) ==> a != b,
{
    reveal(vstd::laws_cmp::obeys_cmp_partial_ord);
    reveal(vstd::laws_cmp::obeys_cmp_ord);
    reveal(vstd::laws_cmp::obeys_partial_cmp_spec_properties);
    reveal(vstd::laws_eq::obeys_concrete_eq);
    reveal(vstd::laws_eq::obeys_eq_spec_properties);
    assert(a.partial_cmp_spec(&b) == Some(a.cmp_spec(&b)));
    assert(b.partial_cmp_spec(&a) == Some(b.cmp_spec(&a)));
}

/// A key not behind a key that is before a third is before the third.
pub proof fn lemma_le_lt_transitive<K: Ord>(a: K, b: K, c: K)
    requires
        lawful::<K>(),
        key_le(a, b),
        key_lt(b, c),
    ensures
        key_lt(a, c),
{
    if a != b {
        lemma_lt_transitive(a, b, c);
    }
}

/// A key before a key that is not behind a third is before the third.
pub proof fn lemma_lt_le_transitive<K: Ord>(a: K, b: K, c: K)
    requires
        lawful::<K>(),
        key_lt(a, b),
        key_le(b, c),
    ensures
        key_lt(a, c),
{
    if b != c {
        lemma_lt_transitive(a, b, c);
    }
}

/// A key not behind a key that is not behind a third is not behind the third.
pub proof fn lemma_le_transitive<K: Ord>(a: K, b: K, c: K)
    requires
        lawful::<K>(),
        key_le(a, b),
        key_le(b, c),
    ensures
        key_le(a, c),
{
    if a != b && b != c {
        lemma_lt_transitive(a, b, c);
    }
}

/// Whether `a` stands strictly before `b`.
pub fn less<K: Ord>(a: &K, b: &K) -> (r: bool)
    requires
        lawful::<K>(),
    ensures
        r == key_lt(*a, *b),
{
    proof {
        reveal(vstd::laws_cmp::obeys_cmp_partial_ord);
        reveal(vstd::laws_cmp::obeys_cmp_ord);
    }
    *a < *b
}

/// Whether `a` and `b` are the same key.
pub fn same<K: Ord>(a: &K, b: &K) -> (r: bool)
    requires
        lawful::<K>(),
    ensures
        r == (*a == *b),
{
    proof {
        reveal(vstd::laws_cmp::obeys_cmp_partial_ord);
        reveal(vstd::laws_cmp::obeys_cmp_ord);
        reveal(vstd::laws_eq::obeys_concrete_eq);
    }
    *a == *b
}

/// The three-way comparison of `a` with `b`.
pub fn compare<K: Ord>(a: &K, b: &K) -> (o: Ordering)
    requires
        lawful::<K>(),
    ensures
        o == Ordering::Less <==> key_lt(*a, *b),
        o == Ordering::Equal <==> *a == *b,
        o == Ordering::Greater <==> key_lt(*b, *a),
{
    proof {
        lemma_lt_total(*a, *b);
        lemma_lt_irreflexive(*a);
        reveal(vstd::laws_cmp::obeys_cmp_partial_ord);
        reveal(vstd::laws_cmp::obeys_cmp_ord);
        reveal(vstd::laws_cmp::obeys_partial_cmp_spec_properties);
        reveal(vstd::laws_eq::obeys_concrete_eq);
        assert(a.partial_cmp_spec(b) == Some(a.cmp_spec(b)));
        assert(b.partial_cmp_spec(a) == Some(b.cmp_spec(a)));
    }
    a.cmp(b)
}

/// A copy of `a`.
pub fn duplicate<K: Clone>(a: &K) -> (r: K)
    requires
        faithful_clone::<K>(),
    ensures
        r == *a,
{
    let r = a.clone();
    proof {
        assert(cloned(*a, r));
    }
    r
}

/// The machine integers are lawful keys with faithful clones.
pub proof fn lemma_integers_lawful()
    ensures
        lawful::<u8>(),
        lawful::<u16>(),
        lawful::<u32>(),
        lawful::<u64>(),
        lawful::<u128>(),
        lawful::<usize>(),
        lawful::<i8>(),
        lawful::<i16>(),
        lawful::<i32>(),
        lawful::<i64>(),
        lawful::<isize>(),
        faithful_clone::<u8>(),
        faithful_clone::<u16>(),
        faithful_clone::<u32>(),
        faithful_clone::<u64>(),
        faithful_clone::<u128>(),
        faithful_clone::<usize>(),
        faithful_clone::<i8>(),
        faithful_clone::<i16>(),
        faithful_clone::<i32>(),
        faithful_clone::<i64>(),
        faithful_clone::<isize>(),
{
    broadcast use vstd::laws_cmp::group_laws_cmp;
    broadcast use vstd::laws_eq::group_laws_eq;
}

/// A pair of lawful keys, ordered first by its left part, is a lawful key.
pub proof fn lemma_pairs_lawful<A: Ord, B: Ord>()
    requires
        lawful::<A>(),
        lawful::<B>(),
    ensures
        lawful::<(A, B)>(),
{
    broadcast use vstd::laws_cmp::group_laws_cmp;
    broadcast use vstd::laws_eq::group_laws_eq;
}

/// Pairs are ordered by their left parts first, then by their right parts.
pub proof fn lemma_pair_lt<A: Ord, B: Ord>(a: (A, B), b: (A, B))
    requires
        lawful::<A>(),
        lawful::<B>(),
    ensures
        key_lt(a, b) <==> (key_lt(a.0, b.0) || (a.0 == b.0 && key_lt(a.1, b.1))),
{
    lemma_lt_total(a.0, b.0);
    lemma_lt_irreflexive(a.0);
    reveal(vstd::laws_cmp::obeys_cmp_partial_ord);
    reveal(vstd::laws_cmp::obeys_cmp_ord);
    reveal(vstd::laws_cmp::obeys_partial_cmp_spec_properties);
    reveal(vstd::laws_eq::obeys_concrete_eq);
    assert(a.0.partial_cmp_spec(&b.0) == Some(a.0.cmp_spec(&b.0)));
    assert(b.0.partial_cmp_spec(&a.0) == Some(b.0.cmp_spec(&a.0)));
}

/// A copy of a vector of keys.
pub fn duplicate_all<K: Clone>(keys: &Vec<K>) -> (copy: Vec<K>)
    requires
        faithful_clone::<K>(),
    ensures
        copy@ == keys@,
{
    let n = keys.len();
    let mut copy: Vec<K> = Vec::with_capacity(n);
    let mut i: usize = 0;
    while i < n
        invariant
            faithful_clone::<K>(),
            n == keys@.len(),
            i <= n,
            copy@ == keys@.subrange(0, i as int),
        decreases n - i,
    {
        copy.push(duplicate(&keys[i]));
        proof {
            assert(copy@ =~= keys@.subrange(0, i + 1));
        }
        i += 1;
    }
    proof {
        assert(keys@.subrange(0, n as int) =~= keys@);
    }
    copy
}

} // verus!
