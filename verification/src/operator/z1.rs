//! z^-1 operator delays its input by one timestamp.

use vstd::prelude::*;
use vstd::std_specs::cmp::PartialEqSpec;
use crate::algebra::NumEntries;
use crate::circuit::CacheKey;
use crate::circuit::Circuit;
use crate::circuit::NodeId;
use crate::circuit::NodeKind;
use crate::circuit::OwnershipPreference;
use crate::circuit::Stream;
use crate::order::faithful_clone;
use crate::time::Scope;

verus! {

/// z^-1 operator delays its input by one timestamp.
///
/// The operator outputs a user-defined "zero" value in the first timestamp
/// after [clock_start](`Z1::clock_start`).  For all subsequent timestamps, it
/// outputs the value received as input at the previous timestamp.  The zero
/// value is typically the neutral element of a monoid (e.g., 0 for addition
/// or 1 for multiplication).
///
/// It is a strict operator.
///
/// # Examples
///
/// ```text
/// time | input | output
/// ---------------------
///   0  |   5   |   0
///   1  |   6   |   5
///   2  |   7   |   6
///   3  |   8   |   7
///         ...
/// ```
pub struct Z1<T> {
    zero: T,
    empty_output: bool,
    values: T,
}

impl<T: Clone> Z1<T> {
    /// The zero that the operator starts from.
    pub closed spec fn zero_value(&self) -> T {
        self.zero
    }

    /// The value that the operator holds back for the next tick.
    pub closed spec fn held(&self) -> T {
        self.values
    }

    /// Whether the last output taken by `get_output` had no entries.
    pub closed spec fn empty_output(&self) -> bool {
        self.empty_output
    }

    /// The delay that starts from `zero`.
    pub fn new(zero: T) -> (z1: Self)
        ensures
            cloned(zero, z1.zero_value()),
            z1.held() == zero,
            !z1.empty_output(),
    {
        Self { zero: zero.clone(), empty_output: false, values: zero }
    }

    /// The name of the operator.
    pub fn name(&self) -> (name: &'static str)
        ensures
            name@ == "Z^-1"@,
    {
        "Z^-1"
    }

    /// A clock starts: nothing changes.
    pub fn clock_start(&mut self, _scope: Scope)
        ensures
            *final(self) == *old(self),
    {
    }

    /// A clock ends: the operator holds a copy of zero again.
    pub fn clock_end(&mut self, _scope: Scope)
        ensures
            final(self).zero_value() == old(self).zero_value(),
            cloned(old(self).zero_value(), final(self).held()),
            !final(self).empty_output(),
    {
        self.empty_output = false;
        self.values = self.zero.clone();
    }

    /// Gives out the value held and holds back a copy of `i`.
    pub fn eval(&mut self, i: &T) -> (output: T)
        ensures
            output == old(self).held(),
            cloned(*i, final(self).held()),
            final(self).zero_value() == old(self).zero_value(),
            final(self).empty_output() == old(self).empty_output(),
    {
        let mut next = i.clone();
        core::mem::swap(&mut self.values, &mut next);
        next
    }

    /// Gives out the value held and holds back `i`.
    pub fn eval_owned(&mut self, i: T) -> (output: T)
        ensures
            output == old(self).held(),
            final(self).held() == i,
            final(self).zero_value() == old(self).zero_value(),
            final(self).empty_output() == old(self).empty_output(),
    {
        let mut next = i;
        core::mem::swap(&mut self.values, &mut next);
        next
    }

    /// Owning the input saves a copy.
    pub fn input_preference(&self) -> (preference: OwnershipPreference)
        ensures
            preference == OwnershipPreference::PreferOwned,
    {
        OwnershipPreference::PreferOwned
    }

    /// Holds back a copy of `i`, as the second half of a tick whose first
    /// half was `get_output`.
    pub fn eval_strict(&mut self, i: &T)
        ensures
            cloned(*i, final(self).held()),
            final(self).zero_value() == old(self).zero_value(),
            final(self).empty_output() == old(self).empty_output(),
    {
        self.values = i.clone();
    }

    /// Holds back `i`, as the second half of a tick whose first half was
    /// `get_output`.
    pub fn eval_strict_owned(&mut self, i: T)
        ensures
            final(self).held() == i,
            final(self).zero_value() == old(self).zero_value(),
            final(self).empty_output() == old(self).empty_output(),
    {
        self.values = i;
    }
}

impl<T: Clone + NumEntries> Z1<T> {
    /// At the innermost clock the operator is at a fixed point when it
    /// holds no entries and the last output had none. It never stops an
    /// outer clock.
    pub fn fixedpoint(&self, scope: Scope) -> (fixed: bool)
        ensures
            scope == 0 ==> fixed == (self.held().entries_shallow() == 0 && self.empty_output()),
            scope != 0 ==> fixed,
    {
        if scope == 0 {
            self.values.num_entries_shallow() == 0 && self.empty_output
        } else {
            true
        }
    }

    /// Gives out the value held, as the first half of a tick, and holds a
    /// copy of zero until `eval_strict` brings the input. Notes whether
    /// what it gave out had no entries.
    pub fn get_output(&mut self) -> (output: T)
        ensures
            output == old(self).held(),
            cloned(old(self).zero_value(), final(self).held()),
            final(self).zero_value() == old(self).zero_value(),
            final(self).empty_output() == (old(self).held().entries_shallow() == 0),
    {
        self.empty_output = self.values.num_entries_shallow() == 0;
        let mut next = self.zero.clone();
        core::mem::swap(&mut self.values, &mut next);
        next
    }

    /// As `get_output`.
    pub fn get_final_output(&mut self) -> (output: T)
        ensures
            output == old(self).held(),
            cloned(old(self).zero_value(), final(self).held()),
            final(self).zero_value() == old(self).zero_value(),
            final(self).empty_output() == (old(self).held().entries_shallow() == 0),
    {
        self.get_output()
    }
}

/// The outputs of a delay that holds `first` and is fed `inputs`, tick by
/// tick: `first`, then each input one tick late.
pub open spec fn delayed<T>(first: T, inputs: Seq<T>) -> Seq<T> {
    Seq::new(inputs.len(), |i: int| if i == 0 { first } else { inputs[i - 1] })
}

/// What a delay holds after it was fed `inputs`: the last of them, or
/// `first` where there were none.
pub open spec fn held_after<T>(first: T, inputs: Seq<T>) -> T {
    if inputs.len() == 0 {
        first
    } else {
        inputs.last()
    }
}

/// A delay shifts its input by one tick: where each output is what was
/// held before the tick and each input is what is held after it, the
/// outputs are `first` followed by the inputs but the last.
pub proof fn lemma_delay_shifts<T>(first: T, inputs: Seq<T>, outputs: Seq<T>)
    requires
        outputs.len() == inputs.len(),
        forall|i: int|
            0 <= i < inputs.len() ==> #[trigger] outputs[i] == held_after(
                first,
                inputs.subrange(0, i),
            ),
    ensures
        outputs == delayed(first, inputs),
{
    assert forall|i: int| 0 <= i < inputs.len() implies outputs[i] == delayed(first, inputs)[i] by {
        if i > 0 {
            assert(inputs.subrange(0, i).last() == inputs[i - 1]);
        }
    }
    assert(outputs =~= delayed(first, inputs));
}

/// Feeds `inputs` to `z1`, tick by tick, and returns its outputs.
pub fn run_delay<T: Clone>(z1: &mut Z1<T>, inputs: Vec<T>) -> (outputs: Vec<T>)
    ensures
        outputs@ == delayed(old(z1).held(), inputs@),
        final(z1).held() == held_after(old(z1).held(), inputs@),
        final(z1).zero_value() == old(z1).zero_value(),
{
    let ghost first = z1.held();
    let mut outputs: Vec<T> = Vec::with_capacity(inputs.len());
    for input in it: inputs.into_iter()
        invariant
            it.seq() == inputs@,
            outputs@.len() == it.index(),
            z1.zero_value() == old(z1).zero_value(),
            z1.held() == held_after(first, inputs@.subrange(0, it.index())),
            forall|i: int|
                0 <= i < it.index() ==> #[trigger] outputs@[i] == held_after(
                    first,
                    inputs@.subrange(0, i),
                ),
    {
        let ghost at = it.index();
        let output = z1.eval_owned(input);
        outputs.push(output);
        proof {
            assert(inputs@.subrange(0, at + 1).last() == inputs@[at]);
        }
    }
    proof {
        assert(inputs@.subrange(0, inputs@.len() as int) =~= inputs@);
        lemma_delay_shifts(first, inputs@, outputs@);
    }
    outputs
}

/// z^-1 operator over streams of streams.
///
/// The operator stores a complete nested stream consumed at the last iteration
/// of the parent clock and outputs it at the next parent clock cycle.
/// It outputs a stream of zeros in the first parent clock tick.
///
/// One important subtlety is that mathematically speaking nested streams are
/// infinite, but we can only compute and store finite prefixes of such
/// streams.  When asked to produce output beyond the stored prefix, the z^-1
/// operator repeats the last value in the stored prefix.  The assumption
/// here is that the circuit was evaluated to a fixed point at the previous
/// parent timestamp, and hence the rest of the stream will contain the same
/// fixed point value.  This is not generally true for all circuits, and
/// users should keep this in mind when instantiating the operator.
///
/// It is a strict operator.
///
/// # Examples
///
/// Input (one row per parent timestamps):
///
/// ```text
/// 1 2 3 4
/// 1 1 1 1 1
/// 2 2 2 0 0
/// ```
///
/// Output:
///
/// ```text
/// 0 0 0 0
/// 1 2 3 4 4
/// 1 1 1 1 1
/// ```
pub struct Z1Nested<T> {
    zero: T,
    timestamp: usize,
    values: Vec<T>,
}

impl<T> Z1Nested<T> {
    /// The zero that the operator starts from.
    pub closed spec fn zero_value(&self) -> T {
        self.zero
    }

    /// The position in the inner stream.
    pub closed spec fn timestamp(&self) -> usize {
        self.timestamp
    }

    /// The inner stream stored at the last tick of the outer clock, as far
    /// as it was not yet overwritten by the inner stream of this one.
    pub closed spec fn stored(&self) -> Seq<T> {
        self.values@
    }

    /// The position is within the stored stream or at its end.
    pub open spec fn wf(&self) -> bool {
        self.timestamp() <= self.stored().len()
    }

    /// The delay that starts from `zero`, with nothing stored.
    pub fn new(zero: T) -> (z1: Self)
        ensures
            z1.zero_value() == zero,
            z1.timestamp() == 0,
            z1.stored() == Seq::<T>::empty(),
    {
        Self { zero, timestamp: 0, values: Vec::new() }
    }

    /// Forgets the stored stream.
    pub fn reset(&mut self)
        ensures
            final(self).zero_value() == old(self).zero_value(),
            final(self).timestamp() == 0,
            final(self).stored() == Seq::<T>::empty(),
    {
        self.timestamp = 0;
        self.values.clear();
    }

    /// The name of the operator.
    pub fn name(&self) -> (name: &'static str)
        ensures
            name@ == "Z^-1 (nested)"@,
    {
        "Z^-1 (nested)"
    }

    /// A clock starts. At the start of the inner clock the stored stream
    /// is cut to the length of the inner stream just written; in any case
    /// the position returns to the start.
    pub fn clock_start(&mut self, scope: Scope)
        ensures
            final(self).zero_value() == old(self).zero_value(),
            final(self).timestamp() == 0,
            scope == 0 && old(self).timestamp() <= old(self).stored().len() ==> final(self).stored()
                == old(self).stored().subrange(0, old(self).timestamp() as int),
            scope != 0 || old(self).timestamp() > old(self).stored().len() ==> final(self).stored()
                == old(self).stored(),
    {
        if scope == 0 {
            self.values.truncate(self.timestamp);
        }
        self.timestamp = 0;
    }

    /// A clock ends. At the end of an outer clock the stored stream is
    /// forgotten.
    pub fn clock_end(&mut self, scope: Scope)
        ensures
            final(self).zero_value() == old(self).zero_value(),
            scope > 0 ==> final(self).timestamp() == 0 && final(self).stored() == Seq::<T>::empty(),
            scope == 0 ==> *final(self) == *old(self),
    {
        if scope > 0 {
            self.reset();
        }
    }

    /// Owning the input saves a copy.
    pub fn input_preference(&self) -> (preference: OwnershipPreference)
        ensures
            preference == OwnershipPreference::PreferOwned,
    {
        OwnershipPreference::PreferOwned
    }
}

impl<T: Clone> Z1Nested<T> {
    /// Makes the stored stream long enough to be read at the position:
    /// where the position is at its end, a copy of zero is added; where it
    /// is on the last stored value, a copy of that value is added behind
    /// it, so that the value is read again at the next position.
    fn extend(&mut self)
        requires
            old(self).wf(),
        ensures
            final(self).zero_value() == old(self).zero_value(),
            final(self).timestamp() == old(self).timestamp(),
            final(self).timestamp() < final(self).stored().len(),
            old(self).timestamp() == old(self).stored().len() ==> exists|copy: T|
                #[trigger] cloned(old(self).zero_value(), copy) && final(self).stored() == old(self).stored().push(copy),
            old(self).timestamp() == old(self).stored().len() - 1 ==> exists|copy: T|
                #[trigger] cloned(old(self).stored().last(), copy) && final(self).stored() == old(self).stored().push(copy),
            old(self).timestamp() < old(self).stored().len() - 1 ==> final(self).stored() == old(self).stored(),
    {
        let length = self.values.len();
        if self.timestamp == length {
            let copy = self.zero.clone();
            self.values.push(copy);
            proof {
                assert(cloned(old(self).zero_value(), copy));
            }
        } else if self.timestamp == length - 1 {
            let copy = self.values[length - 1].clone();
            self.values.push(copy);
            proof {
                assert(cloned(old(self).stored().last(), copy));
            }
        }
    }

    /// Gives out what is stored at the position, stores `i` there and
    /// moves on.
    ///
    /// Behind the end of the stored stream it gives out a copy of zero.
    /// On the last stored value it gives out that value and keeps a copy
    /// of it behind the position: a stream that is read beyond what was
    /// stored repeats its last value.
    pub fn eval_owned(&mut self, i: T) -> (output: T)
        requires
            old(self).wf(),
        ensures
            final(self).wf(),
            final(self).zero_value() == old(self).zero_value(),
            final(self).timestamp() == old(self).timestamp() + 1,
            old(self).timestamp() == old(self).stored().len() ==> cloned(
                old(self).zero_value(),
                output,
            ) && final(self).stored() == old(self).stored().push(i),
            old(self).timestamp() < old(self).stored().len() ==> output == old(self).stored()[old(self).timestamp() as int],
            old(self).timestamp() == old(self).stored().len() - 1 ==> exists|copy: T|
                #[trigger] cloned(old(self).stored().last(), copy) && final(self).stored() == old(self).stored().update(old(self).timestamp() as int, i).push(copy),
            old(self).timestamp() < old(self).stored().len() - 1 ==> final(self).stored() == old(self).stored().update(old(self).timestamp() as int, i),
    {
        self.extend();
        let ghost ready = self.values@;
        let mut next = i;
        let length = self.values.len();
        core::mem::swap(&mut self.values[self.timestamp], &mut next);
        assert(self.timestamp < length);
        self.timestamp += 1;
        proof {
            let was = old(self).stored();
            let at = old(self).timestamp() as int;
            if at == was.len() {
                let copy = choose|copy: T|
                    #[trigger] cloned(old(self).zero_value(), copy) && ready == was.push(copy);
                assert(self.stored() =~= was.push(i));
            } else if at == was.len() - 1 {
                let copy = choose|copy: T|
                    #[trigger] cloned(was.last(), copy) && ready == was.push(copy);
                assert(self.stored() =~= was.update(at, i).push(copy));
            }
        }
        next
    }

    /// As `eval_owned` with a copy of `i`.
    pub fn eval(&mut self, i: &T) -> (output: T)
        requires
            old(self).wf(),
        ensures
            final(self).wf(),
            final(self).zero_value() == old(self).zero_value(),
            final(self).timestamp() == old(self).timestamp() + 1,
            old(self).timestamp() == old(self).stored().len() ==> cloned(
                old(self).zero_value(),
                output,
            ) && final(self).stored().len() == old(self).stored().len() + 1,
            old(self).timestamp() < old(self).stored().len() ==> output == old(self).stored()[old(self).timestamp() as int],
            cloned(*i, final(self).stored()[old(self).timestamp() as int]),
            forall|j: int|
                0 <= j < old(self).stored().len() && j != old(self).timestamp() ==> final(self).stored()[j] == old(self).stored()[j],
            old(self).timestamp() == old(self).stored().len() - 1 ==> final(self).stored().len()
                == old(self).stored().len() + 1 && cloned(
                old(self).stored().last(),
                final(self).stored().last(),
            ),
            old(self).timestamp() < old(self).stored().len() - 1 ==> final(self).stored().len()
                == old(self).stored().len(),
    {
        let copy = i.clone();
        let output = self.eval_owned(copy);
        proof {
            let was = old(self).stored();
            let at = old(self).timestamp() as int;
            if at == was.len() - 1 {
                let kept = choose|kept: T|
                    #[trigger] cloned(was.last(), kept) && self.stored() == was.update(
                        at,
                        copy,
                    ).push(kept);
                assert(self.stored().last() == kept);
            }
        }
        output
    }

    /// Gives out what is stored at the position, as the first half of a
    /// tick, and stores a copy of zero there until `eval_strict` brings
    /// the input. The position stays. Beyond what was stored the stream
    /// repeats its last value, as under `eval_owned`.
    pub fn get_output(&mut self) -> (output: T)
        requires
            old(self).wf(),
        ensures
            final(self).zero_value() == old(self).zero_value(),
            final(self).timestamp() == old(self).timestamp(),
            final(self).timestamp() < final(self).stored().len(),
            old(self).timestamp() == old(self).stored().len() ==> cloned(
                old(self).zero_value(),
                output,
            ) && final(self).stored().len() == old(self).stored().len() + 1,
            old(self).timestamp() < old(self).stored().len() ==> output == old(self).stored()[old(self).timestamp() as int],
            cloned(old(self).zero_value(), final(self).stored()[old(self).timestamp() as int]),
            forall|j: int|
                0 <= j < old(self).stored().len() && j != old(self).timestamp() ==> final(self).stored()[j] == old(self).stored()[j],
            old(self).timestamp() == old(self).stored().len() - 1 ==> final(self).stored().len()
                == old(self).stored().len() + 1 && cloned(
                old(self).stored().last(),
                final(self).stored().last(),
            ),
            old(self).timestamp() < old(self).stored().len() - 1 ==> final(self).stored().len()
                == old(self).stored().len(),
    {
        self.extend();
        let ghost ready = self.values@;
        let mut next = self.zero.clone();
        core::mem::swap(&mut self.values[self.timestamp], &mut next);
        proof {
            let was = old(self).stored();
            let at = old(self).timestamp() as int;
            if at == was.len() {
                let copy = choose|copy: T|
                    #[trigger] cloned(old(self).zero_value(), copy) && ready == was.push(copy);
                assert(next == copy);
            } else if at == was.len() - 1 {
                let copy = choose|copy: T|
                    #[trigger] cloned(was.last(), copy) && ready == was.push(copy);
                assert(self.stored().last() == copy);
            }
        }
        next
    }

    /// As `get_output`.
    pub fn get_final_output(&mut self) -> (output: T)
        requires
            old(self).wf(),
        ensures
            final(self).zero_value() == old(self).zero_value(),
            final(self).timestamp() == old(self).timestamp(),
            final(self).timestamp() < final(self).stored().len(),
            old(self).timestamp() < old(self).stored().len() ==> output == old(self).stored()[old(self).timestamp() as int],
            old(self).timestamp() == old(self).stored().len() ==> cloned(
                old(self).zero_value(),
                output,
            ),
    {
        self.get_output()
    }

    /// Stores `i` at the position and moves on, as the second half of a
    /// tick whose first half was `get_output`.
    pub fn eval_strict_owned(&mut self, i: T)
        requires
            old(self).timestamp() < old(self).stored().len(),
        ensures
            final(self).wf(),
            final(self).zero_value() == old(self).zero_value(),
            final(self).timestamp() == old(self).timestamp() + 1,
            final(self).stored() == old(self).stored().update(old(self).timestamp() as int, i),
    {
        let length = self.values.len();
        self.values[self.timestamp] = i;
        assert(self.timestamp < length);
        self.timestamp += 1;
    }

    /// As `eval_strict_owned` with a copy of `i`.
    pub fn eval_strict(&mut self, i: &T)
        requires
            old(self).timestamp() < old(self).stored().len(),
        ensures
            final(self).wf(),
            final(self).zero_value() == old(self).zero_value(),
            final(self).timestamp() == old(self).timestamp() + 1,
            final(self).stored().len() == old(self).stored().len(),
            cloned(*i, final(self).stored()[old(self).timestamp() as int]),
            forall|j: int|
                0 <= j < old(self).stored().len() && j != old(self).timestamp() ==> final(self).stored()[j] == old(self).stored()[j],
    {
        self.eval_strict_owned(i.clone())
    }
}

impl<T: Clone + PartialEq> Z1Nested<T> {
    /// At the inner clock the operator is at a fixed point when every
    /// value from the one last written on is zero. It never lets an outer
    /// clock stop.
    pub fn fixedpoint(&self, scope: Scope) -> (fixed: bool)
        requires
            scope == 0 ==> self.timestamp() >= 1,
        ensures
            scope != 0 ==> !fixed,
            scope == 0 && T::obeys_eq_spec() ==> fixed == (forall|i: int|
                self.timestamp() - 1 <= i < self.stored().len() ==> (#[trigger] self.stored()[i]).eq_spec(
                    &self.zero_value(),
                )),
    {
        if scope == 0 {
            let length = self.values.len();
            let mut at = self.timestamp - 1;
            while at < length
                invariant
                    length == self.values@.len(),
                    self.timestamp - 1 <= at,
                    T::obeys_eq_spec() ==> forall|i: int|
                        self.timestamp - 1 <= i < at && i < length ==> (#[trigger] self.values@[i]).eq_spec(
                            &self.zero,
                        ),
                decreases length - at,
            {
                if !(self.values[at] == self.zero) {
                    proof {
                        if T::obeys_eq_spec() {
                            assert(!self.stored()[at as int].eq_spec(&self.zero_value()));
                        }
                    }
                    return false;
                }
                at += 1;
            }
            true
        } else {
            false
        }
    }
}

/// What a nested delay gives out at the position `at` of an inner
/// stream, where `stored` is the inner stream of the tick before of the
/// outer clock: the value stored at the position; behind the end of the
/// stored stream its last value, again and again; and zero where nothing
/// is stored.
pub open spec fn nested_delayed<T>(zero: T, stored: Seq<T>, at: int) -> T {
    if at < stored.len() {
        stored[at]
    } else if stored.len() > 0 {
        stored.last()
    } else {
        zero
    }
}

/// What a nested delay holds once the inner stream `inputs` was written
/// over `stored` from the start: the inputs, then what is left of the
/// stored stream behind them, or, where nothing is left, the last
/// stored value, kept to be given out at the next position.
pub open spec fn nested_stored<T>(stored: Seq<T>, inputs: Seq<T>) -> Seq<T> {
    if inputs.len() == 0 {
        stored
    } else if inputs.len() < stored.len() {
        inputs + stored.subrange(inputs.len() as int, stored.len() as int)
    } else if stored.len() > 0 {
        inputs.push(stored.last())
    } else {
        inputs
    }
}

/// Feeds the inner stream `inputs` to `z1`, which stands at the start
/// of an inner clock, tick by tick, and returns its outputs: the inner
/// stream stored before, and behind its end its last value.
pub fn run_nested_delay<T: Clone>(z1: &mut Z1Nested<T>, inputs: Vec<T>) -> (outputs: Vec<T>)
    requires
        old(z1).timestamp() == 0,
        faithful_clone::<T>(),
    ensures
        outputs@.len() == inputs@.len(),
        forall|i: int|
            0 <= i < inputs@.len() ==> #[trigger] outputs@[i] == nested_delayed(
                old(z1).zero_value(),
                old(z1).stored(),
                i,
            ),
        final(z1).stored() == nested_stored(old(z1).stored(), inputs@),
        final(z1).timestamp() == inputs@.len(),
        final(z1).zero_value() == old(z1).zero_value(),
        final(z1).wf(),
{
    let ghost zero = z1.zero_value();
    let ghost stored = z1.stored();
    let mut outputs: Vec<T> = Vec::with_capacity(inputs.len());
    proof {
        assert(inputs@.subrange(0, 0) =~= Seq::<T>::empty());
    }
    for input in it: inputs.into_iter()
        invariant
            it.seq() == inputs@,
            faithful_clone::<T>(),
            outputs@.len() == it.index(),
            z1.wf(),
            z1.zero_value() == zero,
            z1.timestamp() == it.index(),
            z1.stored() == nested_stored(stored, inputs@.subrange(0, it.index())),
            forall|i: int|
                0 <= i < it.index() ==> #[trigger] outputs@[i] == nested_delayed(zero, stored, i),
    {
        let ghost at = it.index();
        let ghost held = z1.stored();
        let ghost seen = inputs@.subrange(0, at);
        let output = z1.eval_owned(input);
        outputs.push(output);
        proof {
            let now = inputs@.subrange(0, at + 1);
            assert(now =~= seen.push(input));
            if at == held.len() {
                // the position is behind what is held only where nothing was stored
                assert(stored.len() == 0);
                assert(z1.stored() =~= nested_stored(stored, now));
            } else if at == held.len() - 1 {
                if at < stored.len() {
                    assert(at == stored.len() - 1);
                    assert(held.last() == stored.last());
                }
                assert(z1.stored() =~= nested_stored(stored, now));
            } else {
                assert(z1.stored() =~= nested_stored(stored, now));
            }
        }
    }
    proof {
        assert(inputs@.subrange(0, inputs@.len() as int) =~= inputs@);
    }
    outputs
}


/// A feedback loop through a [`Z1`] operator: the output of the loop can
/// be used before its input is known.
///
/// The output is remembered as the delay of the input, so that `delay`
/// of the input yields this loop.
pub struct DelayedFeedback<D> {
    feedback: NodeId,
    output: Stream<D>,
    export: Stream<D>,
}

impl<D> DelayedFeedback<D> {
    /// The node of the [`Z1`] operator, which waits for its input.
    pub closed spec fn feedback(&self) -> NodeId {
        self.feedback
    }

    /// The node of the output.
    pub closed spec fn output(&self) -> NodeId {
        self.output.node
    }

    /// The node that exports the output to the parent circuit.
    pub closed spec fn export(&self) -> NodeId {
        self.export.node
    }

    /// Create a feedback loop with `Z1` operator.  Use [`Self::connect`] to
    /// close the loop.
    pub fn new(circuit: &mut Circuit) -> (feedback: Self)
        requires
            old(circuit).wf(),
        ensures
            final(circuit).wf(),
            final(circuit).same_setting(old(circuit)),
            final(circuit).extends(old(circuit), 2),
            final(circuit).cache@ == old(circuit).cache@,
            feedback.feedback() == old(circuit).nodes@.len(),
            feedback.output() == feedback.feedback(),
            feedback.export() == feedback.feedback() + 1,
            final(circuit).node_is(feedback.feedback(), NodeKind::Z1, Seq::empty()),
            final(circuit).node_is(
                feedback.export(),
                NodeKind::Export,
                seq![(feedback.feedback(), OwnershipPreference::Indifferent)],
            ),
    {
        let node = circuit.add_node(NodeKind::Z1, Vec::new());
        let export = circuit.add_unary(NodeKind::Export, node, OwnershipPreference::Indifferent);
        Self { feedback: node, output: Stream::at(node), export: Stream::at(export) }
    }

    /// Output stream of the `Z1` operator.
    pub fn stream(&self) -> (stream: &Stream<D>)
        ensures
            stream.node == self.output(),
    {
        &self.output
    }

    /// Connect `input` stream to the input of the `Z1` operator.
    pub fn connect(self, circuit: &mut Circuit, input: &Stream<D>)
        requires
            old(circuit).wf(),
            self.feedback() < old(circuit).nodes@.len(),
            self.output() < old(circuit).nodes@.len(),
            self.export() < old(circuit).nodes@.len(),
            input.node < old(circuit).nodes@.len(),
        ensures
            final(circuit).wf(),
            final(circuit).same_setting(old(circuit)),
            final(circuit).nodes@.len() == old(circuit).nodes@.len(),
            final(circuit).nodes@[self.feedback() as int].kind == old(circuit).nodes@[self.feedback() as int].kind,
            final(circuit).nodes@[self.feedback() as int].inputs@ == old(circuit).nodes@[self.feedback() as int].inputs@.push(
                (input.node, OwnershipPreference::StronglyPreferOwned),
            ),
            forall|i: int|
                0 <= i < old(circuit).nodes@.len() && i != self.feedback() ==> final(circuit).nodes@[i] == old(circuit).nodes@[i],
            final(circuit).cached(CacheKey::DelayedId(input.node)) == Some(self.output()),
            final(circuit).cached(CacheKey::ExportId(input.node)) == Some(self.export()),
            forall|other: CacheKey|
                other != CacheKey::DelayedId(input.node) && other != CacheKey::ExportId(input.node)
                    ==> #[trigger] final(circuit).cached(other) == old(circuit).cached(other),
    {
        circuit.connect(self.feedback, input.node, OwnershipPreference::StronglyPreferOwned);
        let ghost linked = *circuit;
        circuit.cache_insert(CacheKey::DelayedId(input.origin_node_id()), self.output.node);
        let ghost noted = *circuit;
        circuit.cache_insert(CacheKey::ExportId(input.origin_node_id()), self.export.node);
        proof {
            let delayed = CacheKey::DelayedId(input.node);
            let exported = CacheKey::ExportId(input.node);
            assert(circuit.cached(delayed) == noted.cached(delayed));
            assert forall|other: CacheKey| other != delayed && other != exported implies #[trigger] circuit.cached(
                other,
            ) == old(circuit).cached(other) by {
                assert(circuit.cached(other) == noted.cached(other));
                assert(noted.cached(other) == linked.cached(other));
            }
        }
    }
}

/// A feedback loop through a [`Z1Nested`] operator.
pub struct DelayedNestedFeedback<D> {
    feedback: NodeId,
    output: Stream<D>,
}

impl<D> DelayedNestedFeedback<D> {
    /// The node of the [`Z1Nested`] operator, which waits for its input.
    pub closed spec fn feedback(&self) -> NodeId {
        self.feedback
    }

    /// The node of the output.
    pub closed spec fn output(&self) -> NodeId {
        self.output.node
    }

    /// Create a feedback loop with `Z1Nested` operator.  Use
    /// [`Self::connect`] to close the loop.
    pub fn new(circuit: &mut Circuit) -> (feedback: Self)
        requires
            old(circuit).wf(),
        ensures
            final(circuit).wf(),
            final(circuit).same_setting(old(circuit)),
            final(circuit).extends(old(circuit), 1),
            final(circuit).cache@ == old(circuit).cache@,
            feedback.feedback() == old(circuit).nodes@.len(),
            feedback.output() == feedback.feedback(),
            final(circuit).node_is(feedback.feedback(), NodeKind::Z1Nested, Seq::empty()),
    {
        let node = circuit.add_node(NodeKind::Z1Nested, Vec::new());
        Self { feedback: node, output: Stream::at(node) }
    }

    /// Output stream of the `Z1Nested` operator.
    pub fn stream(&self) -> (stream: &Stream<D>)
        ensures
            stream.node == self.output(),
    {
        &self.output
    }

    /// Connect `input` stream to the input of the `Z1Nested` operator.
    pub fn connect(self, circuit: &mut Circuit, input: &Stream<D>)
        requires
            old(circuit).wf(),
            self.feedback() < old(circuit).nodes@.len(),
            self.output() < old(circuit).nodes@.len(),
            input.node < old(circuit).nodes@.len(),
        ensures
            final(circuit).wf(),
            final(circuit).same_setting(old(circuit)),
            final(circuit).nodes@.len() == old(circuit).nodes@.len(),
            final(circuit).nodes@[self.feedback() as int].kind == old(circuit).nodes@[self.feedback() as int].kind,
            final(circuit).nodes@[self.feedback() as int].inputs@ == old(circuit).nodes@[self.feedback() as int].inputs@.push(
                (input.node, OwnershipPreference::StronglyPreferOwned),
            ),
            forall|i: int|
                0 <= i < old(circuit).nodes@.len() && i != self.feedback() ==> final(circuit).nodes@[i] == old(circuit).nodes@[i],
            final(circuit).caches(
                old(circuit),
                CacheKey::NestedDelayedId(input.node),
                self.output(),
            ),
    {
        circuit.connect(self.feedback, input.node, OwnershipPreference::StronglyPreferOwned);
        circuit.cache_insert(CacheKey::NestedDelayedId(input.origin_node_id()), self.output.node);
    }
}

impl<D> Stream<D> {
    /// The node that an operator of kind `kind` on this stream is
    /// remembered under `key`, or a new one.
    fn cached_unary(&self, circuit: &mut Circuit, key: CacheKey, kind: NodeKind) -> (stream: Stream<
        D,
    >)
        requires
            old(circuit).wf(),
            self.node < old(circuit).nodes@.len(),
        ensures
            final(circuit).wf(),
            final(circuit).same_setting(old(circuit)),
            stream.node < final(circuit).nodes@.len(),
            final(circuit).cached(key) == Some(stream.node),
            old(circuit).cached(key) matches Some(node) ==> stream.node == node && *final(circuit)
                == *old(circuit),
            old(circuit).cached(key).is_none() ==> {
                &&& stream.node == old(circuit).nodes@.len()
                &&& final(circuit).extends(old(circuit), 1)
                &&& final(circuit).node_is(
                    stream.node,
                    kind,
                    seq![(self.node, OwnershipPreference::PreferOwned)],
                )
                &&& final(circuit).caches(old(circuit), key, stream.node)
            },
    {
        match circuit.cache_get(key) {
            Some(node) => Stream::at(node),
            None => {
                let node = circuit.add_unary(kind, self.node, OwnershipPreference::PreferOwned);
                circuit.cache_insert(key, node);
                Stream::at(node)
            },
        }
    }

    /// Applies [`Z1`] operator to `self`: the stream one tick late. Asked
    /// for twice, it is one operator.
    pub fn delay(&self, circuit: &mut Circuit) -> (delayed: Stream<D>)
        requires
            old(circuit).wf(),
            self.node < old(circuit).nodes@.len(),
        ensures
            final(circuit).wf(),
            final(circuit).same_setting(old(circuit)),
            delayed.node < final(circuit).nodes@.len(),
            final(circuit).cached(CacheKey::DelayedId(self.node)) == Some(delayed.node),
            old(circuit).cached(CacheKey::DelayedId(self.node)) matches Some(node)
                ==> delayed.node == node && *final(circuit) == *old(circuit),
            old(circuit).cached(CacheKey::DelayedId(self.node)).is_none() ==> {
                &&& delayed.node == old(circuit).nodes@.len()
                &&& final(circuit).extends(old(circuit), 1)
                &&& final(circuit).node_is(
                    delayed.node,
                    NodeKind::Z1,
                    seq![(self.node, OwnershipPreference::PreferOwned)],
                )
                &&& final(circuit).caches(
                    old(circuit),
                    CacheKey::DelayedId(self.node),
                    delayed.node,
                )
            },
    {
        self.cached_unary(circuit, CacheKey::DelayedId(self.origin_node_id()), NodeKind::Z1)
    }

    /// Applies [`Z1Nested`] operator to `self`. Asked for twice, it is one
    /// operator.
    pub fn delay_nested(&self, circuit: &mut Circuit) -> (delayed: Stream<D>)
        requires
            old(circuit).wf(),
            self.node < old(circuit).nodes@.len(),
        ensures
            final(circuit).wf(),
            final(circuit).same_setting(old(circuit)),
            delayed.node < final(circuit).nodes@.len(),
            final(circuit).cached(CacheKey::NestedDelayedId(self.node)) == Some(delayed.node),
            old(circuit).cached(CacheKey::NestedDelayedId(self.node)) matches Some(node)
                ==> delayed.node == node && *final(circuit) == *old(circuit),
            old(circuit).cached(CacheKey::NestedDelayedId(self.node)).is_none() ==> {
                &&& delayed.node == old(circuit).nodes@.len()
                &&& final(circuit).extends(old(circuit), 1)
                &&& final(circuit).node_is(
                    delayed.node,
                    NodeKind::Z1Nested,
                    seq![(self.node, OwnershipPreference::PreferOwned)],
                )
                &&& final(circuit).caches(
                    old(circuit),
                    CacheKey::NestedDelayedId(self.node),
                    delayed.node,
                )
            },
    {
        self.cached_unary(
            circuit,
            CacheKey::NestedDelayedId(self.origin_node_id()),
            NodeKind::Z1Nested,
        )
    }
}

} // verus!
