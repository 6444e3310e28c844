//! N-ary plus operator.

use vstd::prelude::*;
use core::cmp::Ordering;
use core::marker::PhantomData;
use std::borrow::Cow;
use crate::algebra::AddByRef;
use crate::algebra::HasZero;
use crate::algebra::NumEntries;
use crate::circuit::Circuit;
use crate::circuit::NodeId;
use crate::circuit::NodeKind;
use crate::circuit::OwnershipPreference;
use crate::circuit::Stream;
use crate::time::Scope;

verus! {

/// What an input stands for, borrowed or owned.
pub open spec fn input_model<'a, D: Clone + HasZero>(input: Cow<'a, D>) -> D::Model {
    match input {
        Cow::Borrowed(value) => value.model(),
        Cow::Owned(value) => value.model(),
    }
}

/// The input is a valid value, borrowed or owned.
pub open spec fn input_wf<'a, D: Clone + HasZero>(input: Cow<'a, D>) -> bool {
    match input {
        Cow::Borrowed(value) => value.wf(),
        Cow::Owned(value) => value.wf(),
    }
}

/// The number of entries of an input at its top level.
pub open spec fn input_size<'a, D: Clone + NumEntries>(input: Cow<'a, D>) -> nat {
    match input {
        Cow::Borrowed(value) => value.entries_shallow(),
        Cow::Owned(value) => value.entries_shallow(),
    }
}

/// What the sum of the inputs stands for: zero where there are none.
pub open spec fn sum_of<'a, D: Clone + AddByRef>(inputs: Seq<Cow<'a, D>>) -> D::Model
    decreases inputs.len(),
{
    if inputs.len() == 0 {
        D::zero_model()
    } else {
        D::add_model(sum_of(inputs.drop_last()), input_model(inputs.last()))
    }
}

/// No input has more entries than a later one.
pub open spec fn smallest_first<'a, D: Clone + NumEntries>(inputs: Seq<Cow<'a, D>>) -> bool {
    forall|i: int, j: int|
        0 <= i < j < inputs.len() ==> input_size(inputs[i]) <= input_size(inputs[j])
}

/// The number of entries of an input at its top level.
pub fn size_of_input<'a, D: Clone + NumEntries>(input: &Cow<'a, D>) -> (size: usize)
    ensures
        size == input_size(*input),
{
    match input {
        Cow::Borrowed(value) => value.num_entries_shallow(),
        Cow::Owned(value) => value.num_entries_shallow(),
    }
}

/// Orders two inputs by their numbers of entries.
pub fn order_by_size<'a, D: Clone + NumEntries>(a: &Cow<'a, D>, b: &Cow<'a, D>) -> (order: Ordering)
    ensures
        order == Ordering::Less <==> input_size(*a) < input_size(*b),
        order == Ordering::Equal <==> input_size(*a) == input_size(*b),
        order == Ordering::Greater <==> input_size(*a) > input_size(*b),
{
    let size_a = size_of_input(a);
    let size_b = size_of_input(b);
    if size_a < size_b {
        Ordering::Less
    } else if size_a == size_b {
        Ordering::Equal
    } else {
        Ordering::Greater
    }
}

/// Sorts the inputs by their numbers of entries with `<[T]>::sort_by`.
///
/// Trusted: the vector afterwards holds the inputs it held before, in an
/// order in which the numbers of entries never decrease.
#[verifier::external_body]
fn sort_by_size<'a, D: Clone + NumEntries>(inputs: &mut Vec<Cow<'a, D>>)
    ensures
        final(inputs)@.to_multiset() == old(inputs)@.to_multiset(),
        final(inputs)@.len() == old(inputs)@.len(),
        smallest_first(final(inputs)@),
{
    inputs.sort_by(|a, b| order_by_size(a, b));
}

/// Puts the inputs in the order in which they are added up: by their
/// numbers of entries, the largest last.
pub fn arrange_inputs<'a, D: Clone + NumEntries>(inputs: &mut Vec<Cow<'a, D>>)
    ensures
        final(inputs)@.to_multiset() == old(inputs)@.to_multiset(),
        final(inputs)@.len() == old(inputs)@.len(),
        smallest_first(final(inputs)@),
{
    sort_by_size(inputs);
}

/// Zero added to a value from the left leaves the value.
pub proof fn lemma_zero_plus<D: AddByRef>(a: D::Model)
    ensures
        D::add_model(D::zero_model(), a) == a,
{
    D::lemma_add_model_commutative(D::zero_model(), a);
    D::lemma_add_model_zero(a);
}

/// The sum of a concatenation is the sum of the sums of its parts.
pub proof fn lemma_sum_concat<'a, D: Clone + AddByRef>(a: Seq<Cow<'a, D>>, b: Seq<Cow<'a, D>>)
    ensures
        sum_of(a + b) == D::add_model(sum_of(a), sum_of(b)),
    decreases b.len(),
{
    if b.len() == 0 {
        assert(a + b =~= a);
        D::lemma_add_model_zero(sum_of(a));
    } else {
        assert((a + b).drop_last() =~= a + b.drop_last());
        assert((a + b).last() == b.last());
        lemma_sum_concat(a, b.drop_last());
        D::lemma_add_model_associative(sum_of(a), sum_of(b.drop_last()), input_model(b.last()));
    }
}

/// Taking one input out takes what it stands for out of the sum.
pub proof fn lemma_sum_remove<'a, D: Clone + AddByRef>(inputs: Seq<Cow<'a, D>>, j: int)
    requires
        0 <= j < inputs.len(),
    ensures
        sum_of(inputs) == D::add_model(sum_of(inputs.remove(j)), input_model(inputs[j])),
{
    let head = inputs.subrange(0, j);
    let tail = inputs.subrange(j + 1, inputs.len() as int);
    let one = seq![inputs[j]];
    assert(inputs =~= (head + one) + tail);
    assert(inputs.remove(j) =~= head + tail);
    lemma_sum_concat(head + one, tail);
    lemma_sum_concat(head, one);
    lemma_sum_concat(head, tail);
    assert(one.drop_last() =~= Seq::<Cow<'a, D>>::empty());
    assert(sum_of(one.drop_last()) == D::zero_model());
    assert(one.last() == inputs[j]);
    lemma_zero_plus::<D>(input_model(inputs[j]));
    let h = sum_of(head);
    let t = sum_of(tail);
    let x = input_model(inputs[j]);
    assert(sum_of(one) == x);
    D::lemma_add_model_associative(h, x, t);
    D::lemma_add_model_commutative(x, t);
    D::lemma_add_model_associative(h, t, x);
}

/// The sum does not depend on the order of the inputs.
pub proof fn lemma_sum_permutation<'a, D: Clone + AddByRef>(a: Seq<Cow<'a, D>>, b: Seq<Cow<'a, D>>)
    requires
        a.to_multiset() == b.to_multiset(),
    ensures
        sum_of(a) == sum_of(b),
    decreases a.len(),
{
    broadcast use vstd::seq_lib::group_to_multiset_ensures;

    a.to_multiset_ensures();
    b.to_multiset_ensures();
    if a.len() == 0 {
        assert(b.len() == 0);
        assert(a =~= b);
    } else {
        let e = a.last();
        let at = a.len() - 1;
        assert(a[at] == e);
        assert(a.contains(e));
        assert(b.to_multiset().count(e) > 0);
        assert(b.contains(e));
        let j = choose|j: int| 0 <= j < b.len() && b[j] == e;
        let a1 = a.remove(at);
        let b1 = b.remove(j);
        assert(a1.to_multiset() =~= a.to_multiset().remove(e));
        assert(b1.to_multiset() =~= b.to_multiset().remove(e));
        a.remove_ensures(at);
        lemma_sum_permutation(a1, b1);
        lemma_sum_remove(a, at);
        lemma_sum_remove(b, j);
    }
}

/// Operator that computes the sum of values across all its input streams at
/// each timestamp.
pub struct Sum<D> {
    phantom: PhantomData<D>,
}

impl<D> Sum<D> {
    /// The operator, which holds no state.
    pub fn new() -> Self {
        Self { phantom: PhantomData }
    }

    /// The name of the operator.
    pub fn name(&self) -> (name: &'static str)
        ensures
            name@ == "Sum"@,
    {
        "Sum"
    }

    /// The operator keeps no state, so it is always at a fixed point.
    pub fn fixedpoint(&self, _scope: Scope) -> (fixed: bool)
        ensures
            fixed,
    {
        true
    }

    /// An owned input can be added to in place.
    pub fn input_preference(&self) -> (preference: OwnershipPreference)
        ensures
            preference == OwnershipPreference::PreferOwned,
    {
        OwnershipPreference::PreferOwned
    }
}

impl<D: Clone + AddByRef + NumEntries> Sum<D> {
    /// The sum of the inputs. The vector is left empty, to be filled
    /// again at the next tick.
    ///
    /// The inputs are added up from the largest to the smallest, so that
    /// the large ones are added to rather than added: an owned input is
    /// taken as it is or added in place, a borrowed one is copied only
    /// where the sum starts with it.
    pub fn eval<'a>(&mut self, inputs: &mut Vec<Cow<'a, D>>) -> (sum: D)
        requires
            D::usable(),
            forall|i: int| 0 <= i < old(inputs)@.len() ==> input_wf(#[trigger] old(inputs)@[i]),
        ensures
            sum.wf(),
            sum.model() == sum_of(old(inputs)@),
            final(inputs)@.len() == 0,
    {
        let ghost given = inputs@;
        arrange_inputs(inputs);
        let ghost sorted = inputs@;
        let mut res = D::zero();
        proof {
            broadcast use vstd::seq_lib::group_to_multiset_ensures;

            lemma_sum_permutation::<D>(sorted, given);
            lemma_zero_plus::<D>(sum_of(sorted));
            sorted.to_multiset_ensures();
            given.to_multiset_ensures();
            assert forall|i: int| 0 <= i < sorted.len() implies input_wf(#[trigger] sorted[i]) by {
                assert(sorted.contains(sorted[i]));
                assert(given.to_multiset().count(sorted[i]) > 0);
                assert(given.contains(sorted[i]));
            }
        }
        while inputs.len() > 0
            invariant
                D::usable(),
                res.wf(),
                forall|i: int| 0 <= i < inputs@.len() ==> input_wf(#[trigger] inputs@[i]),
                D::add_model(res.model(), sum_of(inputs@)) == sum_of(sorted),
            decreases inputs@.len(),
        {
            let ghost rest = inputs@.drop_last();
            let ghost last = inputs@.last();
            let ghost so_far = res.model();
            let popped = inputs.pop();
            let input = popped.unwrap();
            proof {
                assert(inputs@ =~= rest);
                assert(input == last);
                assert(input_wf(last));
                // res + (rest + last) == (res + last) + rest
                D::lemma_add_model_commutative(sum_of(rest), input_model(last));
                D::lemma_add_model_associative(so_far, input_model(last), sum_of(rest));
            }
            if res.is_zero() {
                proof {
                    lemma_zero_plus::<D>(input_model(last));
                }
                res = match input {
                    Cow::Borrowed(value) => value.duplicate(),
                    Cow::Owned(value) => value,
                };
            } else {
                match input {
                    Cow::Borrowed(value) => res.add_assign_by_ref(value),
                    Cow::Owned(value) => {
                        res = res.plus(value);
                    },
                }
            }
        }
        proof {
            assert(inputs@ =~= Seq::<Cow<'a, D>>::empty());
            D::lemma_add_model_zero(res.model());
        }
        res
    }
}

/// `self` first, then the others: the inputs of a sum, each preferred
/// owned.
pub open spec fn sum_inputs<D>(first: NodeId, others: Seq<Stream<D>>) -> Seq<
    (NodeId, OwnershipPreference),
> {
    Seq::new(
        others.len() + 1,
        |i: int|
            if i == 0 {
                (first, OwnershipPreference::PreferOwned)
            } else {
                (others[i - 1].node, OwnershipPreference::PreferOwned)
            },
    )
}

impl<D> Stream<D> {
    /// Apply the [`Sum`] operator to `self` and all streams in `streams`.
    /// A stream may occur more than once: it is then added as often.
    pub fn sum(&self, circuit: &mut Circuit, streams: &Vec<Stream<D>>) -> (total: Stream<D>)
        requires
            old(circuit).wf(),
            self.node < old(circuit).nodes@.len(),
            forall|i: int| 0 <= i < streams@.len() ==> (#[trigger] streams@[i]).node < old(circuit).nodes@.len(),
        ensures
            final(circuit).wf(),
            final(circuit).same_setting(old(circuit)),
            total.node == old(circuit).nodes@.len(),
            final(circuit).extends(old(circuit), 1),
            final(circuit).node_is(total.node, NodeKind::Sum, sum_inputs(self.node, streams@)),
            final(circuit).cache@ == old(circuit).cache@,
    {
        let mut inputs: Vec<(NodeId, OwnershipPreference)> = Vec::with_capacity(streams.len());
        inputs.push((self.node, OwnershipPreference::PreferOwned));
        let n = streams.len();
        let mut i: usize = 0;
        while i < n
            invariant
                n == streams@.len(),
                i <= n,
                inputs@.len() == i + 1,
                forall|j: int| 0 <= j < inputs@.len() ==> inputs@[j] == sum_inputs(
                    self.node,
                    streams@,
                )[j],
            decreases n - i,
        {
            inputs.push((streams[i].node, OwnershipPreference::PreferOwned));
            i += 1;
        }
        proof {
            assert(inputs@ =~= sum_inputs(self.node, streams@));
            assert forall|j: int| 0 <= j < inputs@.len() implies (#[trigger] inputs@[j]).0 < circuit.nodes@.len() by {
                if j > 0 {
                    assert(streams@[j - 1].node < circuit.nodes@.len());
                }
            }
        }
        let node = circuit.add_node(NodeKind::Sum, inputs);
        Stream::at(node)
    }
}

/// A stream that is given to the sum twice is added twice: the sum of
/// `c`, `b`, `a` and `c` again is twice `c`, and `b`, and `a`.
pub proof fn lemma_sum_with_alias<'a, D: Clone + AddByRef>(
    a: Cow<'a, D>,
    b: Cow<'a, D>,
    c: Cow<'a, D>,
)
    ensures
        sum_of(seq![c, b, a, c]) == D::add_model(
            D::add_model(D::add_model(input_model(c), input_model(c)), input_model(b)),
            input_model(a),
        ),
{
    let twice = seq![c, c, b, a];
    let given = seq![c, b, a, c];
    assert(given.to_multiset() =~= twice.to_multiset()) by {
        broadcast use vstd::seq_lib::group_to_multiset_ensures;

        let empty = Seq::<Cow<'a, D>>::empty();
        assert(given =~= empty.push(c).push(b).push(a).push(c));
        assert(twice =~= empty.push(c).push(c).push(b).push(a));
        empty.to_multiset_ensures();
        empty.push(c).to_multiset_ensures();
        empty.push(c).push(b).to_multiset_ensures();
        empty.push(c).push(b).push(a).to_multiset_ensures();
        empty.push(c).push(c).to_multiset_ensures();
        empty.push(c).push(c).push(b).to_multiset_ensures();
    }
    lemma_sum_permutation(given, twice);
    assert(twice.drop_last() =~= seq![c, c, b]);
    assert(twice.drop_last().drop_last() =~= seq![c, c]);
    assert(twice.drop_last().drop_last().drop_last() =~= seq![c]);
    assert(seq![c].drop_last() =~= Seq::<Cow<'a, D>>::empty());
    assert(sum_of(seq![c].drop_last()) == D::zero_model());
    assert(seq![c].last() == c);
    assert(sum_of(seq![c]) == D::add_model(D::zero_model(), input_model(c)));
    lemma_zero_plus::<D>(input_model(c));
    assert(sum_of(seq![c, c]) == D::add_model(sum_of(seq![c]), input_model(c)));
    assert(sum_of(seq![c, c, b]) == D::add_model(sum_of(seq![c, c]), input_model(b)));
    assert(sum_of(twice) == D::add_model(sum_of(seq![c, c, b]), input_model(a)));
}

} // verus!
