//! Defines an operator which negates the input value

use vstd::prelude::*;
use core::marker::PhantomData;
use crate::algebra::NegByRef;
use crate::circuit::CacheKey;
use crate::circuit::Circuit;
use crate::circuit::NodeKind;
use crate::circuit::OwnershipPreference;
use crate::circuit::ShardingPolicy;
use crate::circuit::Stream;
use crate::time::Scope;

verus! {

/// The operator that gives the opposite of its input.
pub struct UnaryMinus<T> {
    phantom: PhantomData<T>,
}

impl<T> UnaryMinus<T> {
    /// The operator, which holds no state.
    pub fn new() -> Self {
        Self { phantom: PhantomData }
    }

    /// The name of the operator.
    pub fn name(&self) -> (name: &'static str)
        ensures
            name@ == "UnaryMinus"@,
    {
        "UnaryMinus"
    }

    /// The operator keeps no state, so it is always at a fixed point.
    pub fn fixedpoint(&self, _scope: Scope) -> (fixed: bool)
        ensures
            fixed,
    {
        true
    }

    /// Negation in place saves a copy.
    pub fn input_preference(&self) -> (preference: OwnershipPreference)
        ensures
            preference == OwnershipPreference::PreferOwned,
    {
        OwnershipPreference::PreferOwned
    }
}

impl<T: NegByRef> UnaryMinus<T> {
    /// The opposite of a borrowed input.
    pub fn eval(&mut self, input: &T) -> (output: T)
        requires
            T::usable(),
            input.wf(),
        ensures
            output.wf(),
            output.model() == T::neg_model(input.model()),
    {
        input.neg_by_ref()
    }

    /// The opposite of an owned input.
    pub fn eval_owned(&mut self, input: T) -> (output: T)
        requires
            T::usable(),
            input.wf(),
        ensures
            output.wf(),
            output.model() == T::neg_model(input.model()),
    {
        input.neg()
    }
}

impl<D> Stream<D> {
    /// The stream of the opposites of the values of `self`.
    ///
    /// The operator reads the sharded version of `self` where one is
    /// known; its output is then sharded as well, and is marked so.
    pub fn neg(&self, circuit: &mut Circuit) -> (negated: Stream<D>)
        requires
            old(circuit).wf(),
            self.node < old(circuit).nodes@.len(),
        ensures
            final(circuit).wf(),
            final(circuit).same_setting(old(circuit)),
            negated.node == old(circuit).nodes@.len(),
            final(circuit).extends(old(circuit), 1),
            final(circuit).node_is(
                negated.node,
                NodeKind::UnaryMinus,
                seq![(old(circuit).sharded_version(self.node), OwnershipPreference::PreferOwned)],
            ),
            old(circuit).cached(CacheKey::ShardId(self.node, ShardingPolicy)).is_some()
                ==> final(circuit).caches(
                old(circuit),
                CacheKey::ShardId(negated.node, ShardingPolicy),
                negated.node,
            ),
            old(circuit).cached(CacheKey::ShardId(self.node, ShardingPolicy)).is_none()
                ==> final(circuit).cache@ == old(circuit).cache@,
    {
        let input = self.try_sharded_version(circuit);
        let node = circuit.add_unary(
            NodeKind::UnaryMinus,
            input.node,
            OwnershipPreference::PreferOwned,
        );
        let negated: Stream<D> = Stream::at(node);
        // If the input stream is sharded then the negated stream is sharded
        negated.mark_sharded_if(circuit, self);
        negated
    }
}

} // verus!
