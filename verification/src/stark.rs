//! What a table must offer to be proved: its shape, and its constraints on
//! two rows that follow each other.

use crate::constraint_consumer::{lemma_absorbed_concat, ConstraintConsumer, ConsumerState};
use crate::field::{felts, fsub, Felt};
use vstd::prelude::*;

verus! {

/// A table with constraints between each row and the next.
pub trait Stark {
    /// The number of columns of the table.
    spec fn columns(&self) -> nat;

    /// The number of public inputs of the table.
    spec fn public_inputs(&self) -> nat;

    /// The constraints on a row and the row after it, in the order in which
    /// they are emitted, each as the term that is folded into a consumer in
    /// state `state`.
    spec fn constraint_terms(
        &self,
        local_values: Seq<int>,
        next_values: Seq<int>,
        public_inputs: Seq<int>,
        state: ConsumerState,
    ) -> Seq<int>;

    fn num_columns(&self) -> (r: usize)
        ensures
            r == self.columns(),
    ;

    fn num_public_inputs(&self) -> (r: usize)
        ensures
            r == self.public_inputs(),
    ;

    /// Emits the constraints on a row and the row after it.
    fn eval_packed_base(
        &self,
        local_values: &Vec<Felt>,
        next_values: &Vec<Felt>,
        public_inputs: &Vec<Felt>,
        yield_constr: &mut ConstraintConsumer,
    )
        requires
            local_values@.len() == self.columns(),
            next_values@.len() == self.columns(),
            public_inputs@.len() == self.public_inputs(),
        ensures
            final(yield_constr)@ == old(yield_constr)@.absorbed(
                self.constraint_terms(
                    felts(local_values@),
                    felts(next_values@),
                    felts(public_inputs@),
                    old(yield_constr)@,
                ),
            ),
    ;
}

/// The table with one column that starts at its public input and grows by
/// one from each row to the next.
#[derive(Clone, Copy, Debug)]
pub struct CounterStark {}

impl Stark for CounterStark {
    open spec fn columns(&self) -> nat {
        1
    }

    open spec fn public_inputs(&self) -> nat {
        1
    }

    open spec fn constraint_terms(
        &self,
        local_values: Seq<int>,
        next_values: Seq<int>,
        public_inputs: Seq<int>,
        state: ConsumerState,
    ) -> Seq<int> {
        seq![
            state.first_row(fsub(local_values[0], public_inputs[0])),
            state.transition(fsub(fsub(next_values[0], local_values[0]), 1)),
        ]
    }

    fn num_columns(&self) -> (r: usize) {
        1
    }

    fn num_public_inputs(&self) -> (r: usize) {
        1
    }

    fn eval_packed_base(
        &self,
        local_values: &Vec<Felt>,
        next_values: &Vec<Felt>,
        public_inputs: &Vec<Felt>,
        yield_constr: &mut ConstraintConsumer,
    ) {
        let ghost start = yield_constr@;
        // The first row holds the public input.
        let first = local_values[0].sub(public_inputs[0]);
        yield_constr.constraint_first_row(first);
        // Each row but the last is followed by its value plus one.
        let step = next_values[0].sub(local_values[0]).sub(Felt::one());
        yield_constr.constraint_transition(step);
        proof {
            let a = seq![start.first_row(first@)];
            let b = seq![start.transition(step@)];
            lemma_absorbed_concat(start, a, b);
            assert(a + b =~= self.constraint_terms(
                felts(local_values@),
                felts(next_values@),
                felts(public_inputs@),
                start,
            ));
        }
    }
}

} // verus!
