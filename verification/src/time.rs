//! Logical times: partially ordered values with a meet and a join, the
//! clocks that advance them, and antichains of them.

use vstd::prelude::*;

verus! {

/// The nesting depth of a clock: 0 is the innermost clock, larger scopes
/// are the loops around it.
pub type Scope = u16;

/// A partial order in which any two values have a greatest lower bound
/// and a least upper bound. The laws are part of the trait.
pub trait Lattice: Sized {
    /// `self` is before `other`, or is `other`.
    spec fn le_spec(&self, other: &Self) -> bool;

    /// The greatest value that is before both.
    spec fn meet_spec(&self, other: &Self) -> Self;

    /// The least value that both are before.
    spec fn join_spec(&self, other: &Self) -> Self;

    proof fn lemma_le_reflexive(a: Self)
        ensures
            a.le_spec(&a),
    ;

    proof fn lemma_le_transitive(a: Self, b: Self, c: Self)
        requires
            a.le_spec(&b),
            b.le_spec(&c),
        ensures
            a.le_spec(&c),
    ;

    proof fn lemma_le_antisymmetric(a: Self, b: Self)
        requires
            a.le_spec(&b),
            b.le_spec(&a),
        ensures
            a == b,
    ;

    proof fn lemma_meet_greatest(a: Self, b: Self, c: Self)
        ensures
            a.meet_spec(&b).le_spec(&a),
            a.meet_spec(&b).le_spec(&b),
            c.le_spec(&a) && c.le_spec(&b) ==> c.le_spec(&a.meet_spec(&b)),
    ;

    proof fn lemma_join_least(a: Self, b: Self, c: Self)
        ensures
            a.le_spec(&a.join_spec(&b)),
            b.le_spec(&a.join_spec(&b)),
            a.le_spec(&c) && b.le_spec(&c) ==> a.join_spec(&b).le_spec(&c),
    ;

    fn less_equal(&self, other: &Self) -> (b: bool)
        ensures
            b == self.le_spec(other),
    ;

    fn meet(&self, other: &Self) -> (m: Self)
        ensures
            m == self.meet_spec(other),
    ;

    fn join(&self, other: &Self) -> (j: Self)
        ensures
            j == self.join_spec(other),
    ;

    fn meet_assign(&mut self, other: &Self)
        ensures
            *final(self) == old(self).meet_spec(other),
    ;
}

/// A logical time: a lattice value that clocks start, advance and take
/// back.
pub trait Timestamp: Lattice {
    /// The time at which every clock starts.
    spec fn clock_start_spec() -> Self;

    /// The time after one tick of the clock at `scope`.
    spec fn advance_spec(&self, scope: Scope) -> Self;

    /// The last time of the current epoch of the clock at `scope`.
    spec fn epoch_end_spec(&self, scope: Scope) -> Self;

    /// The time one tick of the clock at `scope` earlier.
    spec fn recede_spec(&self, scope: Scope) -> Self;

    fn clock_start() -> (t: Self)
        ensures
            t == Self::clock_start_spec(),
    ;

    fn advance(&self, scope: Scope) -> (t: Self)
        ensures
            t == self.advance_spec(scope),
    ;

    fn epoch_end(&self, scope: Scope) -> (t: Self)
        ensures
            t == self.epoch_end_spec(scope),
    ;

    fn recede(&self, scope: Scope) -> (t: Self)
        ensures
            t == self.recede_spec(scope),
    ;

    /// A copy of the time.
    fn copy_time(&self) -> (t: Self)
        ensures
            t == *self,
    ;
}

/// The time of untimed batches: there is one such time.
impl Lattice for () {
    open spec fn le_spec(&self, other: &Self) -> bool {
        true
    }

    open spec fn meet_spec(&self, other: &Self) -> Self {
        ()
    }

    open spec fn join_spec(&self, other: &Self) -> Self {
        ()
    }

    proof fn lemma_le_reflexive(a: Self) {
    }

    proof fn lemma_le_transitive(a: Self, b: Self, c: Self) {
    }

    proof fn lemma_le_antisymmetric(a: Self, b: Self) {
    }

    proof fn lemma_meet_greatest(a: Self, b: Self, c: Self) {
    }

    proof fn lemma_join_least(a: Self, b: Self, c: Self) {
    }

    fn less_equal(&self, other: &Self) -> (b: bool) {
        true
    }

    fn meet(&self, other: &Self) -> (m: Self) {
        ()
    }

    fn join(&self, other: &Self) -> (j: Self) {
        ()
    }

    fn meet_assign(&mut self, other: &Self) {
    }
}

impl Timestamp for () {
    open spec fn clock_start_spec() -> Self {
        ()
    }

    open spec fn advance_spec(&self, scope: Scope) -> Self {
        ()
    }

    open spec fn epoch_end_spec(&self, scope: Scope) -> Self {
        ()
    }

    open spec fn recede_spec(&self, scope: Scope) -> Self {
        ()
    }

    fn clock_start() -> (t: Self) {
        ()
    }

    fn advance(&self, scope: Scope) -> (t: Self) {
        ()
    }

    fn epoch_end(&self, scope: Scope) -> (t: Self) {
        ()
    }

    fn recede(&self, scope: Scope) -> (t: Self) {
        ()
    }

    fn copy_time(&self) -> (t: Self) {
        ()
    }
}

/// A single clock that counts ticks.
impl Lattice for u32 {
    open spec fn le_spec(&self, other: &Self) -> bool {
        *self <= *other
    }

    open spec fn meet_spec(&self, other: &Self) -> Self {
        if *self <= *other {
            *self
        } else {
            *other
        }
    }

    open spec fn join_spec(&self, other: &Self) -> Self {
        if *self <= *other {
            *other
        } else {
            *self
        }
    }

    proof fn lemma_le_reflexive(a: Self) {
    }

    proof fn lemma_le_transitive(a: Self, b: Self, c: Self) {
    }

    proof fn lemma_le_antisymmetric(a: Self, b: Self) {
    }

    proof fn lemma_meet_greatest(a: Self, b: Self, c: Self) {
    }

    proof fn lemma_join_least(a: Self, b: Self, c: Self) {
    }

    fn less_equal(&self, other: &Self) -> (b: bool) {
        *self <= *other
    }

    fn meet(&self, other: &Self) -> (m: Self) {
        if *self <= *other {
            *self
        } else {
            *other
        }
    }

    fn join(&self, other: &Self) -> (j: Self) {
        if *self <= *other {
            *other
        } else {
            *self
        }
    }

    fn meet_assign(&mut self, other: &Self) {
        if *other < *self {
            *self = *other;
        }
    }
}

/// A single clock that counts ticks: only scope 0 moves it, and it stays
/// at its last tick rather than wrap around.
impl Timestamp for u32 {
    open spec fn clock_start_spec() -> Self {
        0u32
    }

    open spec fn advance_spec(&self, scope: Scope) -> Self {
        if scope == 0 && *self < u32::MAX {
            (*self + 1) as u32
        } else {
            *self
        }
    }

    open spec fn epoch_end_spec(&self, scope: Scope) -> Self {
        u32::MAX
    }

    open spec fn recede_spec(&self, scope: Scope) -> Self {
        if scope == 0 && *self > 0 {
            (*self - 1) as u32
        } else {
            *self
        }
    }

    fn clock_start() -> (t: Self) {
        0u32
    }

    fn advance(&self, scope: Scope) -> (t: Self) {
        if scope == 0 && *self < u32::MAX {
            *self + 1
        } else {
            *self
        }
    }

    fn epoch_end(&self, scope: Scope) -> (t: Self) {
        u32::MAX
    }

    fn recede(&self, scope: Scope) -> (t: Self) {
        if scope == 0 && *self > 0 {
            *self - 1
        } else {
            *self
        }
    }

    fn copy_time(&self) -> (t: Self) {
        *self
    }
}

/// A set of times none of which is before another.
#[derive(Debug, Clone, PartialEq, Eq)]
pub struct Antichain<T> {
    /// The times of the antichain.
    pub elements: Vec<T>,
}

impl<T: Lattice> Antichain<T> {
    /// Some time of the antichain is before `time`, or is `time`.
    pub open spec fn le_spec(&self, time: &T) -> bool {
        exists|i: int| 0 <= i < self.elements@.len() && (#[trigger] self.elements@[i]).le_spec(time)
    }

    /// No time of the antichain is before another.
    pub open spec fn wf(&self) -> bool {
        forall|i: int, j: int|
            0 <= i < self.elements@.len() && 0 <= j < self.elements@.len() && i != j
                ==> !self.elements@[i].le_spec(&self.elements@[j])
    }

    /// The empty antichain, which no time is behind.
    pub fn new() -> (antichain: Self)
        ensures
            antichain.wf(),
            antichain.elements@.len() == 0,
            forall|t: T| !(#[trigger] antichain.le_spec(&t)),
    {
        Antichain { elements: Vec::new() }
    }

    /// The antichain of one time.
    pub fn from_elem(element: T) -> (antichain: Self)
        ensures
            antichain.wf(),
            antichain.elements@ == seq![element],
            forall|t: T| #[trigger] antichain.le_spec(&t) <==> element.le_spec(&t),
    {
        let mut elements = Vec::new();
        elements.push(element);
        let antichain = Antichain { elements };
        proof {
            assert forall|t: T| #[trigger] antichain.le_spec(&t) <==> element.le_spec(&t) by {
                if element.le_spec(&t) {
                    assert(antichain.elements@[0].le_spec(&t));
                }
            }
        }
        antichain
    }

    /// The times of the antichain.
    pub fn elements(&self) -> (elements: &Vec<T>)
        ensures
            elements == &self.elements,
    {
        &self.elements
    }

    /// Whether some time of the antichain is before `time`, or is `time`.
    pub fn less_equal(&self, time: &T) -> (b: bool)
        ensures
            b == self.le_spec(time),
    {
        let n = self.elements.len();
        let mut i: usize = 0;
        while i < n
            invariant
                n == self.elements@.len(),
                i <= n,
                forall|j: int| 0 <= j < i ==> !(#[trigger] self.elements@[j]).le_spec(time),
            decreases n - i,
        {
            if self.elements[i].less_equal(time) {
                return true;
            }
            i += 1;
        }
        false
    }

    /// Adds `element` unless a time of the antichain is before it, and
    /// removes the times that `element` is before. Reports whether it was
    /// added.
    pub fn insert(&mut self, element: T) -> (added: bool)
        requires
            old(self).wf(),
        ensures
            final(self).wf(),
            added == !old(self).le_spec(&element),
            forall|t: T| #[trigger]
                final(self).le_spec(&t) <==> (old(self).le_spec(&t) || element.le_spec(&t)),
    {
        if self.less_equal(&element) {
            proof {
                assert forall|t: T| #[trigger]
                    self.le_spec(&t) <==> (old(self).le_spec(&t) || element.le_spec(&t)) by {
                    if element.le_spec(&t) {
                        let i = choose|i: int|
                            0 <= i < self.elements@.len() && (#[trigger] self.elements@[i]).le_spec(
                                &element,
                            );
                        T::lemma_le_transitive(self.elements@[i], element, t);
                    }
                }
            }
            return false;
        }
        let ghost before = self.elements@;
        let mut kept: Vec<T> = Vec::new();
        let mut held: Vec<T> = Vec::new();
        core::mem::swap(&mut self.elements, &mut held);
        let ghost mut origin: Seq<int> = Seq::empty();
        for x in it: held.into_iter()
            invariant
                it.seq() == before,
                origin.len() == kept@.len(),
                forall|j: int|
                    0 <= j < kept@.len() ==> 0 <= (#[trigger] origin[j]) < it.index() && kept@[j]
                        == before[origin[j]] && !element.le_spec(&kept@[j]),
                forall|a: int, b: int| 0 <= a < b < kept@.len() ==> origin[a] < origin[b],
                forall|i: int|
                    0 <= i < it.index() && !element.le_spec(&before[i]) ==> exists|j: int|
                        0 <= j < kept@.len() && #[trigger] origin[j] == i,
        {
            let ghost at = it.index();
            if !element.less_equal(&x) {
                kept.push(x);
                proof {
                    let ghost older = origin;
                    origin = origin.push(at);
                    assert forall|i: int|
                        0 <= i < at + 1 && !element.le_spec(&before[i]) implies exists|j: int|
                        0 <= j < kept@.len() && #[trigger] origin[j] == i by {
                        if i < at {
                            let j = choose|j: int| 0 <= j < older.len() && #[trigger] older[j] == i;
                            assert(origin[j] == i);
                        } else {
                            assert(origin[kept@.len() - 1] == i);
                        }
                    }
                }
            }
        }
        let ghost thinned = kept@;
        kept.push(element);
        self.elements = kept;
        proof {
            assert forall|i: int, j: int|
                0 <= i < self.elements@.len() && 0 <= j < self.elements@.len() && i
                    != j implies !self.elements@[i].le_spec(&self.elements@[j]) by {
                let n = thinned.len() as int;
                if i < n && j < n {
                    assert(thinned[i] == before[origin[i]]);
                    assert(thinned[j] == before[origin[j]]);
                    assert(origin[i] != origin[j]);
                } else if i < n {
                    // a kept time before `element` would have kept `element` out
                    assert(thinned[i] == before[origin[i]]);
                } else {
                    assert(!element.le_spec(&thinned[j]));
                }
            }
            assert forall|t: T| #[trigger]
                self.le_spec(&t) <==> (old(self).le_spec(&t) || element.le_spec(&t)) by {
                let n = thinned.len() as int;
                if self.le_spec(&t) {
                    let i = choose|i: int|
                        0 <= i < self.elements@.len() && (#[trigger] self.elements@[i]).le_spec(&t);
                    if i < n {
                        assert(thinned[i] == before[origin[i]]);
                        assert(before[origin[i]].le_spec(&t));
                    }
                }
                if old(self).le_spec(&t) {
                    let i = choose|i: int|
                        0 <= i < before.len() && (#[trigger] before[i]).le_spec(&t);
                    if element.le_spec(&before[i]) {
                        T::lemma_le_transitive(element, before[i], t);
                        assert(self.elements@[n].le_spec(&t));
                    } else {
                        let j = choose|j: int| 0 <= j < n && #[trigger] origin[j] == i;
                        assert(self.elements@[j].le_spec(&t));
                    }
                }
                if element.le_spec(&t) {
                    assert(self.elements@[n].le_spec(&t));
                }
            }
        }
        true
    }
}

impl<T: Timestamp> Antichain<T> {
    /// A copy of the antichain.
    pub fn copy(&self) -> (copy: Self)
        ensures
            copy.elements@ == self.elements@,
    {
        let n = self.elements.len();
        let mut elements: Vec<T> = Vec::with_capacity(n);
        let mut i: usize = 0;
        while i < n
            invariant
                n == self.elements@.len(),
                i <= n,
                elements@ == self.elements@.subrange(0, i as int),
            decreases n - i,
        {
            elements.push(self.elements[i].copy_time());
            proof {
                assert(elements@ =~= self.elements@.subrange(0, i + 1));
            }
            i += 1;
        }
        proof {
            assert(self.elements@.subrange(0, n as int) =~= self.elements@);
        }
        Antichain { elements }
    }

    /// The antichain of the times that are behind a time of `self` or
    /// behind a time of `other`: the lower bound of both.
    pub fn meet(&self, other: &Self) -> (met: Self)
        requires
            self.wf(),
            other.wf(),
        ensures
            met.wf(),
            forall|t: T| #[trigger] met.le_spec(&t) <==> (self.le_spec(&t) || other.le_spec(&t)),
    {
        let mut met = Antichain::new();
        let n = self.elements.len();
        let mut i: usize = 0;
        while i < n
            invariant
                n == self.elements@.len(),
                i <= n,
                met.wf(),
                forall|t: T| #[trigger]
                    met.le_spec(&t) <==> exists|j: int|
                        0 <= j < i && (#[trigger] self.elements@[j]).le_spec(&t),
            decreases n - i,
        {
            let ghost was = met;
            met.insert(self.elements[i].copy_time());
            proof {
                assert forall|t: T| #[trigger]
                    met.le_spec(&t) <==> exists|j: int|
                        0 <= j < i + 1 && (#[trigger] self.elements@[j]).le_spec(&t) by {
                    assert(met.le_spec(&t) <==> (was.le_spec(&t) || self.elements@[i as int].le_spec(
                        &t,
                    )));
                    if was.le_spec(&t) {
                        let j = choose|j: int|
                            0 <= j < i && (#[trigger] self.elements@[j]).le_spec(&t);
                        assert(self.elements@[j].le_spec(&t));
                    }
                }
            }
            i += 1;
        }
        let m = other.elements.len();
        let mut i: usize = 0;
        while i < m
            invariant
                m == other.elements@.len(),
                i <= m,
                met.wf(),
                forall|t: T| #[trigger]
                    met.le_spec(&t) <==> (self.le_spec(&t) || exists|j: int|
                        0 <= j < i && (#[trigger] other.elements@[j]).le_spec(&t)),
            decreases m - i,
        {
            let ghost was = met;
            met.insert(other.elements[i].copy_time());
            proof {
                assert forall|t: T| #[trigger]
                    met.le_spec(&t) <==> (self.le_spec(&t) || exists|j: int|
                        0 <= j < i + 1 && (#[trigger] other.elements@[j]).le_spec(&t)) by {
                    assert(met.le_spec(&t) <==> (was.le_spec(&t) || other.elements@[i as int].le_spec(
                        &t,
                    )));
                    if was.le_spec(&t) && !self.le_spec(&t) {
                        let j = choose|j: int|
                            0 <= j < i && (#[trigger] other.elements@[j]).le_spec(&t);
                        assert(other.elements@[j].le_spec(&t));
                    }
                }
            }
            i += 1;
        }
        met
    }

    /// The antichain of the times that are behind a time of `self` and
    /// behind a time of `other`: the upper bound of both.
    pub fn join(&self, other: &Self) -> (joined: Self)
        requires
            self.wf(),
            other.wf(),
        ensures
            joined.wf(),
            forall|t: T| #[trigger] joined.le_spec(&t) <==> (self.le_spec(&t) && other.le_spec(&t)),
    {
        let mut joined = Antichain::new();
        let n = self.elements.len();
        let m = other.elements.len();
        let mut i: usize = 0;
        while i < n
            invariant
                n == self.elements@.len(),
                m == other.elements@.len(),
                i <= n,
                joined.wf(),
                forall|t: T| #[trigger]
                    joined.le_spec(&t) <==> (other.le_spec(&t) && exists|a: int|
                        0 <= a < i && (#[trigger] self.elements@[a]).le_spec(&t)),
            decreases n - i,
        {
            let ghost outer = joined;
            let mut j: usize = 0;
            while j < m
                invariant
                    n == self.elements@.len(),
                    m == other.elements@.len(),
                    i < n,
                    j <= m,
                    joined.wf(),
                    forall|t: T| #[trigger]
                        joined.le_spec(&t) <==> (outer.le_spec(&t) || (self.elements@[i as int].le_spec(
                            &t,
                        ) && exists|b: int| 0 <= b < j && (#[trigger] other.elements@[b]).le_spec(&t))),
                decreases m - j,
            {
                let ghost was = joined;
                let both = self.elements[i].join(&other.elements[j]);
                joined.insert(both);
                proof {
                    assert forall|t: T| #[trigger]
                        joined.le_spec(&t) <==> (outer.le_spec(&t) || (
                        self.elements@[i as int].le_spec(&t) && exists|b: int|
                            0 <= b < j + 1 && (#[trigger] other.elements@[b]).le_spec(&t))) by {
                        T::lemma_join_least(self.elements@[i as int], other.elements@[j as int], t);
                        let x = self.elements@[i as int];
                        let y = other.elements@[j as int];
                        if both.le_spec(&t) {
                            T::lemma_le_transitive(x, both, t);
                            T::lemma_le_transitive(y, both, t);
                            assert(other.elements@[j as int].le_spec(&t));
                        }
                        if was.le_spec(&t) && !outer.le_spec(&t) {
                            let b = choose|b: int|
                                0 <= b < j && (#[trigger] other.elements@[b]).le_spec(&t);
                            assert(other.elements@[b].le_spec(&t));
                        }
                    }
                }
                j += 1;
            }
            proof {
                assert forall|t: T| #[trigger]
                    joined.le_spec(&t) <==> (other.le_spec(&t) && exists|a: int|
                        0 <= a < i + 1 && (#[trigger] self.elements@[a]).le_spec(&t)) by {
                    if outer.le_spec(&t) {
                        let a = choose|a: int|
                            0 <= a < i && (#[trigger] self.elements@[a]).le_spec(&t);
                        assert(self.elements@[a].le_spec(&t));
                    }
                    if joined.le_spec(&t) && !outer.le_spec(&t) {
                        assert(self.elements@[i as int].le_spec(&t));
                    }
                }
            }
            i += 1;
        }
        joined
    }
}

} // verus!
