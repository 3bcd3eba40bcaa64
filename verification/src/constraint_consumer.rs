//! The accumulator into which the constraints of one evaluation point are
//! folded: a running sum in which every constraint emitted so far is weighted
//! by a power of one random element `alpha`.

use crate::field::{fadd, fmul, Felt};
use vstd::prelude::*;

verus! {

/// What a consumer holds, over representatives.
pub struct ConsumerState {
    /// The random weight.
    pub alpha: int,
    /// The running sum.
    pub acc: int,
    /// The value, at the point being evaluated, of the polynomial that
    /// vanishes exactly on the last row of the trace.
    pub z_last: int,
    /// The value of the Lagrange basis polynomial of the first row.
    pub lagrange_basis_first: int,
    /// The value of the Lagrange basis polynomial of the last row.
    pub lagrange_basis_last: int,
}

/// The running sum after the terms `terms` were folded into `acc`, first term
/// first: each step multiplies the sum by `alpha` and adds the term.
pub open spec fn absorb(acc: int, alpha: int, terms: Seq<int>) -> int
    decreases terms.len(),
{
    if terms.len() == 0 {
        acc
    } else {
        fadd(fmul(absorb(acc, alpha, terms.drop_last()), alpha), terms.last())
    }
}

/// A constraint that is to hold on all rows but the last, as the term that is
/// folded in: the constraint times the polynomial that vanishes on the last
/// row.
pub open spec fn transition_term(constraint: int, z_last: int) -> int {
    fmul(constraint, z_last)
}

impl ConsumerState {
    /// The state after `terms` were emitted as constraints on all rows.
    pub open spec fn absorbed(self, terms: Seq<int>) -> ConsumerState {
        ConsumerState { acc: absorb(self.acc, self.alpha, terms), ..self }
    }

    /// A constraint that is to hold on all rows but the last, as the term that
    /// is folded in.
    pub open spec fn transition(self, constraint: int) -> int {
        transition_term(constraint, self.z_last)
    }

    /// A constraint that is to hold on the first row only, as the term that is
    /// folded in.
    pub open spec fn first_row(self, constraint: int) -> int {
        fmul(constraint, self.lagrange_basis_first)
    }

    /// A constraint that is to hold on the last row only, as the term that is
    /// folded in.
    pub open spec fn last_row(self, constraint: int) -> int {
        fmul(constraint, self.lagrange_basis_last)
    }
}

/// Folding in one more term is one more step.
pub proof fn lemma_absorb_push(acc: int, alpha: int, terms: Seq<int>, term: int)
    ensures
        absorb(acc, alpha, terms.push(term)) == fadd(fmul(absorb(acc, alpha, terms), alpha), term),
{
    assert(terms.push(term).drop_last() =~= terms);
}

/// Folding in two runs of terms one after the other is folding in their
/// concatenation.
pub proof fn lemma_absorb_concat(acc: int, alpha: int, first: Seq<int>, second: Seq<int>)
    ensures
        absorb(acc, alpha, first + second) == absorb(absorb(acc, alpha, first), alpha, second),
    decreases second.len(),
{
    if second.len() == 0 {
        assert(first + second =~= first);
    } else {
        lemma_absorb_concat(acc, alpha, first, second.drop_last());
        assert((first + second).drop_last() =~= first + second.drop_last());
        assert((first + second).last() == second.last());
    }
}

/// Accumulates the constraints of one evaluation point.
pub struct ConstraintConsumer {
    alpha: Felt,
    constraint_acc: Felt,
    z_last: Felt,
    lagrange_basis_first: Felt,
    lagrange_basis_last: Felt,
}

impl View for ConstraintConsumer {
    type V = ConsumerState;

    closed spec fn view(&self) -> ConsumerState {
        ConsumerState {
            alpha: self.alpha@,
            acc: self.constraint_acc@,
            z_last: self.z_last@,
            lagrange_basis_first: self.lagrange_basis_first@,
            lagrange_basis_last: self.lagrange_basis_last@,
        }
    }
}

impl ConstraintConsumer {
    /// A consumer with an empty sum.
    pub fn new(
        alpha: Felt,
        z_last: Felt,
        lagrange_basis_first: Felt,
        lagrange_basis_last: Felt,
    ) -> (r: ConstraintConsumer)
        ensures
            r@ == (ConsumerState {
                alpha: alpha@,
                acc: 0,
                z_last: z_last@,
                lagrange_basis_first: lagrange_basis_first@,
                lagrange_basis_last: lagrange_basis_last@,
            }),
    {
        ConstraintConsumer {
            alpha,
            constraint_acc: Felt::zero(),
            z_last,
            lagrange_basis_first,
            lagrange_basis_last,
        }
    }

    /// The running sum.
    pub fn accumulator(&self) -> (r: Felt)
        ensures
            r@ == self@.acc,
    {
        self.constraint_acc
    }

    /// Adds one constraint that is to hold on all rows.
    pub fn constraint(&mut self, constraint: Felt)
        ensures
            final(self)@ == old(self)@.absorbed(seq![constraint@]),
    {
        proof {
            lemma_absorb_push(self@.acc, self@.alpha, Seq::<int>::empty(), constraint@);
            assert(Seq::<int>::empty().push(constraint@) =~= seq![constraint@]);
        }
        self.constraint_acc = self.constraint_acc.mul(self.alpha).add(constraint);
    }

    /// Adds one constraint that is to hold on all rows but the last.
    pub fn constraint_transition(&mut self, constraint: Felt)
        ensures
            final(self)@ == old(self)@.absorbed(seq![old(self)@.transition(constraint@)]),
    {
        let weighted = constraint.mul(self.z_last);
        self.constraint(weighted);
    }

    /// Adds one constraint that is to hold on the first row only.
    pub fn constraint_first_row(&mut self, constraint: Felt)
        ensures
            final(self)@ == old(self)@.absorbed(seq![old(self)@.first_row(constraint@)]),
    {
        let weighted = constraint.mul(self.lagrange_basis_first);
        self.constraint(weighted);
    }

    /// Adds one constraint that is to hold on the last row only.
    pub fn constraint_last_row(&mut self, constraint: Felt)
        ensures
            final(self)@ == old(self)@.absorbed(seq![old(self)@.last_row(constraint@)]),
    {
        let weighted = constraint.mul(self.lagrange_basis_last);
        self.constraint(weighted);
    }
}

/// Two runs of constraints emitted one after the other are one run.
pub proof fn lemma_absorbed_concat(state: ConsumerState, first: Seq<int>, second: Seq<int>)
    ensures
        state.absorbed(first).absorbed(second) == state.absorbed(first + second),
        state.absorbed(Seq::<int>::empty()) == state,
{
    lemma_absorb_concat(state.acc, state.alpha, first, second);
}

} // verus!
