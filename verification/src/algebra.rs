//! Weights: the values that tuples of a Z-set carry.

use vstd::prelude::*;

verus! {

/// A commutative monoid: weights that can be added and tested for zero.
///
/// The laws are part of the trait, so whoever implements it proves them.
pub trait MonoidValue: Sized + Clone {
    /// The neutral element.
    spec fn zero_spec() -> Self;

    /// The sum of two weights.
    spec fn add_spec(self, rhs: Self) -> Self;

    proof fn lemma_add_commutative(a: Self, b: Self)
        ensures
            a.add_spec(b) == b.add_spec(a),
    ;

    proof fn lemma_add_associative(a: Self, b: Self, c: Self)
        ensures
            a.add_spec(b).add_spec(c) == a.add_spec(b.add_spec(c)),
    ;

    proof fn lemma_add_zero(a: Self)
        ensures
            a.add_spec(Self::zero_spec()) == a,
    ;

    proof fn lemma_clone_faithful(a: Self, b: Self)
        requires
            cloned(a, b),
        ensures
            a == b,
    ;

    fn zero() -> (z: Self)
        ensures
            z == Self::zero_spec(),
    ;

    fn is_zero(&self) -> (b: bool)
        ensures
            b == (*self == Self::zero_spec()),
    ;

    fn add_by_ref(&self, rhs: &Self) -> (sum: Self)
        ensures
            sum == self.add_spec(*rhs),
    ;

    fn add_assign_by_ref(&mut self, rhs: &Self)
        ensures
            *final(self) == old(self).add_spec(*rhs),
    ;
}

/// An abelian group: a monoid whose every weight has an opposite.
pub trait GroupValue: MonoidValue {
    /// The opposite of a weight.
    spec fn neg_spec(self) -> Self;

    proof fn lemma_add_neg(a: Self)
        ensures
            a.add_spec(a.neg_spec()) == Self::zero_spec(),
    ;

    fn neg_by_ref(&self) -> (n: Self)
        ensures
            n == self.neg_spec(),
    ;
}

/// The opposite of `x` is the only weight that adds up to zero with `x`.
pub proof fn lemma_neg_unique<R: GroupValue>(x: R, y: R)
    requires
        x.add_spec(y) == R::zero_spec(),
    ensures
        y == x.neg_spec(),
{
    let n = x.neg_spec();
    R::lemma_add_zero(y);
    R::lemma_add_neg(x);
    R::lemma_add_associative(y, x, n);
    R::lemma_add_commutative(y, x);
    R::lemma_add_commutative(R::zero_spec(), n);
    R::lemma_add_zero(n);
}

/// The opposite of a sum is the sum of the opposites.
pub proof fn lemma_neg_add<R: GroupValue>(a: R, b: R)
    ensures
        a.add_spec(b).neg_spec() == a.neg_spec().add_spec(b.neg_spec()),
{
    let na = a.neg_spec();
    let nb = b.neg_spec();
    // (a + b) + (na + nb) = (a + na) + (b + nb) = 0
    R::lemma_add_associative(a, b, na.add_spec(nb));
    R::lemma_add_associative(b, na, nb);
    R::lemma_add_commutative(b, na);
    R::lemma_add_associative(na, b, nb);
    R::lemma_add_associative(a, na, b.add_spec(nb));
    R::lemma_add_neg(a);
    R::lemma_add_neg(b);
    R::lemma_add_zero(R::zero_spec());
    lemma_neg_unique(a.add_spec(b), na.add_spec(nb));
}

/// Zero is its own opposite, and nothing else has zero as its opposite.
pub proof fn lemma_neg_zero<R: GroupValue>(a: R)
    ensures
        R::zero_spec().neg_spec() == R::zero_spec(),
        a.neg_spec() == R::zero_spec() <==> a == R::zero_spec(),
{
    R::lemma_add_zero(R::zero_spec());
    lemma_neg_unique(R::zero_spec(), R::zero_spec());
    R::lemma_add_neg(a);
    R::lemma_add_zero(a);
}

/// A copy of a weight.
pub fn clone_weight<R: MonoidValue>(r: &R) -> (c: R)
    ensures
        c == *r,
{
    let c = r.clone();
    proof {
        R::lemma_clone_faithful(*r, c);
    }
    c
}

/// `i32` under wrapping addition, which makes the machine integers a group.
impl MonoidValue for i32 {
    open spec fn zero_spec() -> Self {
        0i32
    }

    open spec fn add_spec(self, rhs: Self) -> Self {
        vstd::wrapping::i32_specs::wrapping_add(self, rhs)
    }

    proof fn lemma_add_commutative(a: Self, b: Self) {
    }

    proof fn lemma_add_associative(a: Self, b: Self, c: Self) {
    }

    proof fn lemma_add_zero(a: Self) {
    }

    proof fn lemma_clone_faithful(a: Self, b: Self) {
    }

    fn zero() -> (z: Self) {
        0i32
    }

    fn is_zero(&self) -> (b: bool) {
        *self == 0i32
    }

    fn add_by_ref(&self, rhs: &Self) -> (sum: Self) {
        self.wrapping_add(*rhs)
    }

    fn add_assign_by_ref(&mut self, rhs: &Self) {
        *self = self.wrapping_add(*rhs);
    }
}

impl GroupValue for i32 {
    open spec fn neg_spec(self) -> Self {
        vstd::wrapping::i32_specs::wrapping_sub(0i32, self)
    }

    proof fn lemma_add_neg(a: Self) {
    }

    fn neg_by_ref(&self) -> (n: Self) {
        0i32.wrapping_sub(*self)
    }
}

/// `i64` under wrapping addition, which makes the machine integers a group.
impl MonoidValue for i64 {
    open spec fn zero_spec() -> Self {
        0i64
    }

    open spec fn add_spec(self, rhs: Self) -> Self {
        vstd::wrapping::i64_specs::wrapping_add(self, rhs)
    }

    proof fn lemma_add_commutative(a: Self, b: Self) {
    }

    proof fn lemma_add_associative(a: Self, b: Self, c: Self) {
    }

    proof fn lemma_add_zero(a: Self) {
    }

    proof fn lemma_clone_faithful(a: Self, b: Self) {
    }

    fn zero() -> (z: Self) {
        0i64
    }

    fn is_zero(&self) -> (b: bool) {
        *self == 0i64
    }

    fn add_by_ref(&self, rhs: &Self) -> (sum: Self) {
        self.wrapping_add(*rhs)
    }

    fn add_assign_by_ref(&mut self, rhs: &Self) {
        *self = self.wrapping_add(*rhs);
    }
}

impl GroupValue for i64 {
    open spec fn neg_spec(self) -> Self {
        vstd::wrapping::i64_specs::wrapping_sub(0i64, self)
    }

    proof fn lemma_add_neg(a: Self) {
    }

    fn neg_by_ref(&self) -> (n: Self) {
        0i64.wrapping_sub(*self)
    }
}

/// `isize` under wrapping addition, which makes the machine integers a group.
impl MonoidValue for isize {
    open spec fn zero_spec() -> Self {
        0isize
    }

    open spec fn add_spec(self, rhs: Self) -> Self {
        vstd::wrapping::isize_specs::wrapping_add(self, rhs)
    }

    proof fn lemma_add_commutative(a: Self, b: Self) {
    }

    proof fn lemma_add_associative(a: Self, b: Self, c: Self) {
    }

    proof fn lemma_add_zero(a: Self) {
    }

    proof fn lemma_clone_faithful(a: Self, b: Self) {
    }

    fn zero() -> (z: Self) {
        0isize
    }

    fn is_zero(&self) -> (b: bool) {
        *self == 0isize
    }

    fn add_by_ref(&self, rhs: &Self) -> (sum: Self) {
        self.wrapping_add(*rhs)
    }

    fn add_assign_by_ref(&mut self, rhs: &Self) {
        *self = self.wrapping_add(*rhs);
    }
}

impl GroupValue for isize {
    open spec fn neg_spec(self) -> Self {
        vstd::wrapping::isize_specs::wrapping_sub(0isize, self)
    }

    proof fn lemma_add_neg(a: Self) {
    }

    fn neg_by_ref(&self) -> (n: Self) {
        0isize.wrapping_sub(*self)
    }
}

/// The number of entries of a value: what a batch holds, or 1 for a
/// scalar.
pub trait NumEntries {
    /// The number of entries at the top level: the keys of a batch.
    spec fn entries_shallow(&self) -> nat;

    /// The number of entries altogether: the tuples of a batch.
    spec fn entries_deep(&self) -> nat;

    fn num_entries_shallow(&self) -> (n: usize)
        ensures
            n == self.entries_shallow(),
    ;

    fn num_entries_deep(&self) -> (n: usize)
        ensures
            n == self.entries_deep(),
    ;
}

/// Values of a stream that have a zero.
///
/// What a value stands for is its model; the laws of the operators are
/// laws of the models. `usable` holds what the type's parameters must
/// satisfy, and `wf` what makes a value of the type a valid one.
pub trait HasZero: Sized {
    /// What a value stands for.
    type Model;

    /// The type's parameters are such that the operators work.
    spec fn usable() -> bool;

    /// The value is a valid one.
    spec fn wf(&self) -> bool;

    /// What the value stands for.
    spec fn model(&self) -> Self::Model;

    /// What zero stands for.
    spec fn zero_model() -> Self::Model;

    fn zero() -> (z: Self)
        requires
            Self::usable(),
        ensures
            z.wf(),
            z.model() == Self::zero_model(),
    ;

    fn is_zero(&self) -> (b: bool)
        requires
            Self::usable(),
            self.wf(),
        ensures
            b == (self.model() == Self::zero_model()),
    ;

    /// A copy of the value.
    fn duplicate(&self) -> (copy: Self)
        requires
            Self::usable(),
            self.wf(),
        ensures
            copy.wf(),
            copy.model() == self.model(),
    ;
}

/// Values of a stream that can be added: a commutative monoid.
pub trait AddByRef: HasZero {
    /// What the sum of two values stands for.
    spec fn add_model(a: Self::Model, b: Self::Model) -> Self::Model;

    proof fn lemma_add_model_commutative(a: Self::Model, b: Self::Model)
        ensures
            Self::add_model(a, b) == Self::add_model(b, a),
    ;

    proof fn lemma_add_model_associative(a: Self::Model, b: Self::Model, c: Self::Model)
        ensures
            Self::add_model(Self::add_model(a, b), c) == Self::add_model(a, Self::add_model(b, c)),
    ;

    proof fn lemma_add_model_zero(a: Self::Model)
        ensures
            Self::add_model(a, Self::zero_model()) == a,
    ;

    fn add_by_ref(&self, other: &Self) -> (sum: Self)
        requires
            Self::usable(),
            self.wf(),
            other.wf(),
        ensures
            sum.wf(),
            sum.model() == Self::add_model(self.model(), other.model()),
    ;

    fn add_assign_by_ref(&mut self, other: &Self)
        requires
            Self::usable(),
            old(self).wf(),
            other.wf(),
        ensures
            final(self).wf(),
            final(self).model() == Self::add_model(old(self).model(), other.model()),
    ;

    /// The sum of two values that are given up for it.
    fn plus(self, other: Self) -> (sum: Self)
        requires
            Self::usable(),
            self.wf(),
            other.wf(),
        ensures
            sum.wf(),
            sum.model() == Self::add_model(self.model(), other.model()),
    ;
}

/// Values of a stream that have opposites: an abelian group.
pub trait NegByRef: AddByRef {
    /// What the opposite of a value stands for.
    spec fn neg_model(a: Self::Model) -> Self::Model;

    proof fn lemma_add_model_neg(a: Self::Model)
        ensures
            Self::add_model(a, Self::neg_model(a)) == Self::zero_model(),
    ;

    fn neg_by_ref(&self) -> (opposite: Self)
        requires
            Self::usable(),
            self.wf(),
        ensures
            opposite.wf(),
            opposite.model() == Self::neg_model(self.model()),
    ;

    /// The opposite of a value that is given up for it.
    fn neg(self) -> (opposite: Self)
        requires
            Self::usable(),
            self.wf(),
        ensures
            opposite.wf(),
            opposite.model() == Self::neg_model(self.model()),
    ;
}

impl NumEntries for i32 {
    open spec fn entries_shallow(&self) -> nat {
        1
    }

    open spec fn entries_deep(&self) -> nat {
        1
    }

    fn num_entries_shallow(&self) -> (n: usize) {
        1
    }

    fn num_entries_deep(&self) -> (n: usize) {
        1
    }
}

impl HasZero for i32 {
    type Model = i32;

    open spec fn usable() -> bool {
        true
    }

    open spec fn wf(&self) -> bool {
        true
    }

    open spec fn model(&self) -> i32 {
        *self
    }

    open spec fn zero_model() -> i32 {
        0i32
    }

    fn zero() -> (z: Self) {
        0i32
    }

    fn is_zero(&self) -> (b: bool) {
        *self == 0i32
    }

    fn duplicate(&self) -> (copy: Self) {
        *self
    }
}

impl AddByRef for i32 {
    open spec fn add_model(a: i32, b: i32) -> i32 {
        vstd::wrapping::i32_specs::wrapping_add(a, b)
    }

    proof fn lemma_add_model_commutative(a: i32, b: i32) {
    }

    proof fn lemma_add_model_associative(a: i32, b: i32, c: i32) {
    }

    proof fn lemma_add_model_zero(a: i32) {
    }

    fn add_by_ref(&self, other: &Self) -> (sum: Self) {
        self.wrapping_add(*other)
    }

    fn add_assign_by_ref(&mut self, other: &Self) {
        *self = self.wrapping_add(*other);
    }

    fn plus(self, other: Self) -> (sum: Self) {
        self.wrapping_add(other)
    }
}

impl NegByRef for i32 {
    open spec fn neg_model(a: i32) -> i32 {
        vstd::wrapping::i32_specs::wrapping_sub(0i32, a)
    }

    proof fn lemma_add_model_neg(a: i32) {
    }

    fn neg_by_ref(&self) -> (opposite: Self) {
        0i32.wrapping_sub(*self)
    }

    fn neg(self) -> (opposite: Self) {
        0i32.wrapping_sub(self)
    }
}

impl NumEntries for i64 {
    open spec fn entries_shallow(&self) -> nat {
        1
    }

    open spec fn entries_deep(&self) -> nat {
        1
    }

    fn num_entries_shallow(&self) -> (n: usize) {
        1
    }

    fn num_entries_deep(&self) -> (n: usize) {
        1
    }
}

impl HasZero for i64 {
    type Model = i64;

    open spec fn usable() -> bool {
        true
    }

    open spec fn wf(&self) -> bool {
        true
    }

    open spec fn model(&self) -> i64 {
        *self
    }

    open spec fn zero_model() -> i64 {
        0i64
    }

    fn zero() -> (z: Self) {
        0i64
    }

    fn is_zero(&self) -> (b: bool) {
        *self == 0i64
    }

    fn duplicate(&self) -> (copy: Self) {
        *self
    }
}

impl AddByRef for i64 {
    open spec fn add_model(a: i64, b: i64) -> i64 {
        vstd::wrapping::i64_specs::wrapping_add(a, b)
    }

    proof fn lemma_add_model_commutative(a: i64, b: i64) {
    }

    proof fn lemma_add_model_associative(a: i64, b: i64, c: i64) {
    }

    proof fn lemma_add_model_zero(a: i64) {
    }

    fn add_by_ref(&self, other: &Self) -> (sum: Self) {
        self.wrapping_add(*other)
    }

    fn add_assign_by_ref(&mut self, other: &Self) {
        *self = self.wrapping_add(*other);
    }

    fn plus(self, other: Self) -> (sum: Self) {
        self.wrapping_add(other)
    }
}

impl NegByRef for i64 {
    open spec fn neg_model(a: i64) -> i64 {
        vstd::wrapping::i64_specs::wrapping_sub(0i64, a)
    }

    proof fn lemma_add_model_neg(a: i64) {
    }

    fn neg_by_ref(&self) -> (opposite: Self) {
        0i64.wrapping_sub(*self)
    }

    fn neg(self) -> (opposite: Self) {
        0i64.wrapping_sub(self)
    }
}

impl NumEntries for isize {
    open spec fn entries_shallow(&self) -> nat {
        1
    }

    open spec fn entries_deep(&self) -> nat {
        1
    }

    fn num_entries_shallow(&self) -> (n: usize) {
        1
    }

    fn num_entries_deep(&self) -> (n: usize) {
        1
    }
}

impl HasZero for isize {
    type Model = isize;

    open spec fn usable() -> bool {
        true
    }

    open spec fn wf(&self) -> bool {
        true
    }

    open spec fn model(&self) -> isize {
        *self
    }

    open spec fn zero_model() -> isize {
        0isize
    }

    fn zero() -> (z: Self) {
        0isize
    }

    fn is_zero(&self) -> (b: bool) {
        *self == 0isize
    }

    fn duplicate(&self) -> (copy: Self) {
        *self
    }
}

impl AddByRef for isize {
    open spec fn add_model(a: isize, b: isize) -> isize {
        vstd::wrapping::isize_specs::wrapping_add(a, b)
    }

    proof fn lemma_add_model_commutative(a: isize, b: isize) {
    }

    proof fn lemma_add_model_associative(a: isize, b: isize, c: isize) {
    }

    proof fn lemma_add_model_zero(a: isize) {
    }

    fn add_by_ref(&self, other: &Self) -> (sum: Self) {
        self.wrapping_add(*other)
    }

    fn add_assign_by_ref(&mut self, other: &Self) {
        *self = self.wrapping_add(*other);
    }

    fn plus(self, other: Self) -> (sum: Self) {
        self.wrapping_add(other)
    }
}

impl NegByRef for isize {
    open spec fn neg_model(a: isize) -> isize {
        vstd::wrapping::isize_specs::wrapping_sub(0isize, a)
    }

    proof fn lemma_add_model_neg(a: isize) {
    }

    fn neg_by_ref(&self) -> (opposite: Self) {
        0isize.wrapping_sub(*self)
    }

    fn neg(self) -> (opposite: Self) {
        0isize.wrapping_sub(self)
    }
}

} // verus!
