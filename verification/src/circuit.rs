//! Constraints in circuit form: instead of computing a value, each operation
//! appends a gate to a list and hands back the wire that will carry the
//! value. Whoever holds the finished list replays it, gate by gate, on a
//! circuit of their own.
//!
//! What a wire carries is defined here for every assignment of values to the
//! input wires, so that a list of gates can be compared with a computation on
//! field elements.

use crate::constraint_consumer::{lemma_absorb_push, ConsumerState};
use crate::field::{
    fadd, felts, fmul, fsub, lemma_fmul_commutes, lemma_view_canonical, reduce, Felt,
};
use vstd::prelude::*;

verus! {

/// A wire: the result of gate number `index`.
#[derive(Clone, Copy, Debug, PartialEq, Eq)]
pub struct Target {
    pub index: usize,
}

/// One gate. Its operands are wires of earlier gates.
#[derive(Clone, Copy, Debug)]
pub enum Gate {
    /// A wire whose value is supplied from outside.
    Input,
    /// A constant.
    Constant(Felt),
    /// The product of two wires.
    Mul(Target, Target),
    /// The first wire minus the second.
    Sub(Target, Target),
    /// The product of the first two wires, minus the third.
    MulSub(Target, Target, Target),
    /// The product of the first two wires, plus the third.
    MulAdd(Target, Target, Target),
    /// `const_0 * multiplicand_0 * multiplicand_1 + const_1 * addend`.
    Arithmetic {
        const_0: Felt,
        const_1: Felt,
        multiplicand_0: Target,
        multiplicand_1: Target,
        addend: Target,
    },
}

/// The value on the wire of gate `i`, when the input wires carry `inputs`
/// (the input gate with index `k` carries `inputs[k]`). A gate with an operand
/// that is not the wire of an earlier gate carries 0, and so does an input
/// gate beyond the end of `inputs`.
#[verifier::opaque]
pub open spec fn target_value(gates: Seq<Gate>, inputs: Seq<int>, i: int) -> int
    decreases i, 1int,
{
    if i < 0 || i >= gates.len() {
        0
    } else {
        gate_result(gates, inputs, i, gates[i])
    }
}

/// What `gate` computes as gate number `n`, from what the wires of earlier
/// gates carry.
#[verifier::opaque]
pub open spec fn gate_result(gates: Seq<Gate>, inputs: Seq<int>, n: int, gate: Gate) -> int
    decreases n, 0int,
{
    match gate {
        Gate::Input => if 0 <= n < inputs.len() {
            reduce(inputs[n])
        } else {
            0
        },
        Gate::Constant(c) => c@,
        Gate::Mul(a, b) => if a.index < n && b.index < n {
            fmul(
                target_value(gates, inputs, a.index as int),
                target_value(gates, inputs, b.index as int),
            )
        } else {
            0
        },
        Gate::Sub(a, b) => if a.index < n && b.index < n {
            fsub(
                target_value(gates, inputs, a.index as int),
                target_value(gates, inputs, b.index as int),
            )
        } else {
            0
        },
        Gate::MulSub(a, b, c) => if a.index < n && b.index < n && c.index < n {
            fsub(
                fmul(
                    target_value(gates, inputs, a.index as int),
                    target_value(gates, inputs, b.index as int),
                ),
                target_value(gates, inputs, c.index as int),
            )
        } else {
            0
        },
        Gate::MulAdd(a, b, c) => if a.index < n && b.index < n && c.index < n {
            fadd(
                fmul(
                    target_value(gates, inputs, a.index as int),
                    target_value(gates, inputs, b.index as int),
                ),
                target_value(gates, inputs, c.index as int),
            )
        } else {
            0
        },
        Gate::Arithmetic { const_0, const_1, multiplicand_0, multiplicand_1, addend } => if
            multiplicand_0.index < n && multiplicand_1.index < n && addend.index < n {
            fadd(
                fmul(
                    const_0@,
                    fmul(
                        target_value(gates, inputs, multiplicand_0.index as int),
                        target_value(gates, inputs, multiplicand_1.index as int),
                    ),
                ),
                fmul(const_1@, target_value(gates, inputs, addend.index as int)),
            )
        } else {
            0
        },
    }
}

/// Whether `longer` starts with the gates of `shorter`.
pub open spec fn extends(longer: Seq<Gate>, shorter: Seq<Gate>) -> bool {
    &&& shorter.len() <= longer.len()
    &&& forall|k: int| 0 <= k < shorter.len() ==> longer[k] == shorter[k]
}

/// Whether `longer` starts with the gates of `shorter`, with what this means
/// for the wires: those of `shorter` carry in `longer` what they carry in
/// `shorter`.
pub open spec fn grown(longer: Seq<Gate>, shorter: Seq<Gate>) -> bool {
    &&& extends(longer, shorter)
    &&& forall|i: int, inputs: Seq<int>|
        0 <= i < shorter.len() ==> #[trigger] target_value(longer, inputs, i) == target_value(
            shorter,
            inputs,
            i,
        )
}

/// A list that starts with the gates of another has grown from it.
pub proof fn lemma_extends_grown(longer: Seq<Gate>, shorter: Seq<Gate>)
    requires
        extends(longer, shorter),
    ensures
        grown(longer, shorter),
{
    assert forall|i: int, inputs: Seq<int>| 0 <= i < shorter.len() implies #[trigger] target_value(
        longer,
        inputs,
        i,
    ) == target_value(shorter, inputs, i) by {
        lemma_extends_value(longer, shorter, inputs, i);
    }
}

/// Gates that are appended do not change what earlier wires carry.
pub proof fn lemma_extends_value(longer: Seq<Gate>, shorter: Seq<Gate>, inputs: Seq<int>, i: int)
    requires
        extends(longer, shorter),
        0 <= i < shorter.len(),
    ensures
        target_value(longer, inputs, i) == target_value(shorter, inputs, i),
    decreases i,
{
    reveal(target_value);
    reveal(gate_result);
    match shorter[i] {
        Gate::Input => {},
        Gate::Constant(c) => {},
        Gate::Mul(a, b) => {
            if a.index < i && b.index < i {
                lemma_extends_value(longer, shorter, inputs, a.index as int);
                lemma_extends_value(longer, shorter, inputs, b.index as int);
            }
        },
        Gate::Sub(a, b) => {
            if a.index < i && b.index < i {
                lemma_extends_value(longer, shorter, inputs, a.index as int);
                lemma_extends_value(longer, shorter, inputs, b.index as int);
            }
        },
        Gate::MulSub(a, b, c) => {
            if a.index < i && b.index < i && c.index < i {
                lemma_extends_value(longer, shorter, inputs, a.index as int);
                lemma_extends_value(longer, shorter, inputs, b.index as int);
                lemma_extends_value(longer, shorter, inputs, c.index as int);
            }
        },
        Gate::MulAdd(a, b, c) => {
            if a.index < i && b.index < i && c.index < i {
                lemma_extends_value(longer, shorter, inputs, a.index as int);
                lemma_extends_value(longer, shorter, inputs, b.index as int);
                lemma_extends_value(longer, shorter, inputs, c.index as int);
            }
        },
        Gate::Arithmetic { const_0, const_1, multiplicand_0, multiplicand_1, addend } => {
            if multiplicand_0.index < i && multiplicand_1.index < i && addend.index < i {
                lemma_extends_value(longer, shorter, inputs, multiplicand_0.index as int);
                lemma_extends_value(longer, shorter, inputs, multiplicand_1.index as int);
                lemma_extends_value(longer, shorter, inputs, addend.index as int);
            }
        },
    }
}

/// The wire of a gate that was just appended carries what that gate computes
/// from the wires before it.
pub proof fn lemma_appended_value(before: Seq<Gate>, gate: Gate, inputs: Seq<int>)
    ensures
        target_value(before.push(gate), inputs, before.len() as int) == gate_result(
            before,
            inputs,
            before.len() as int,
            gate,
        ),
{
    reveal(target_value);
    reveal(gate_result);
    let after = before.push(gate);
    let n = before.len() as int;
    assert(after[n] == gate);
    assert(extends(after, before));
    match gate {
        Gate::Input => {},
        Gate::Constant(c) => {},
        Gate::Mul(a, b) => {
            if a.index < n && b.index < n {
                lemma_extends_value(after, before, inputs, a.index as int);
                lemma_extends_value(after, before, inputs, b.index as int);
            }
        },
        Gate::Sub(a, b) => {
            if a.index < n && b.index < n {
                lemma_extends_value(after, before, inputs, a.index as int);
                lemma_extends_value(after, before, inputs, b.index as int);
            }
        },
        Gate::MulSub(a, b, c) => {
            if a.index < n && b.index < n && c.index < n {
                lemma_extends_value(after, before, inputs, a.index as int);
                lemma_extends_value(after, before, inputs, b.index as int);
                lemma_extends_value(after, before, inputs, c.index as int);
            }
        },
        Gate::MulAdd(a, b, c) => {
            if a.index < n && b.index < n && c.index < n {
                lemma_extends_value(after, before, inputs, a.index as int);
                lemma_extends_value(after, before, inputs, b.index as int);
                lemma_extends_value(after, before, inputs, c.index as int);
            }
        },
        Gate::Arithmetic { const_0, const_1, multiplicand_0, multiplicand_1, addend } => {
            if multiplicand_0.index < n && multiplicand_1.index < n && addend.index < n {
                lemma_extends_value(after, before, inputs, multiplicand_0.index as int);
                lemma_extends_value(after, before, inputs, multiplicand_1.index as int);
                lemma_extends_value(after, before, inputs, addend.index as int);
            }
        },
    }
}

/// A growing list of gates.
pub struct CircuitBuilder {
    gates: Vec<Gate>,
}

impl View for CircuitBuilder {
    type V = Seq<Gate>;

    closed spec fn view(&self) -> Seq<Gate> {
        self.gates@
    }
}

impl CircuitBuilder {
    /// Whether `t` is a wire of this list.
    pub open spec fn has(&self, t: Target) -> bool {
        t.index < self@.len()
    }

    /// What `t` carries under `inputs`.
    pub open spec fn value(&self, t: Target, inputs: Seq<int>) -> int {
        target_value(self@, inputs, t.index as int)
    }

    /// What the list is after `gate` was appended and `r` handed back: the
    /// old list with `gate` at its end, of which `r` is the wire.
    pub open spec fn appended(&self, before: &CircuitBuilder, gate: Gate, r: Target) -> bool {
        &&& self@ == before@.push(gate)
        &&& r.index == before@.len()
        &&& grown(self@, before@)
        &&& forall|inputs: Seq<int>| #[trigger]
            target_value(self@, inputs, r.index as int) == gate_result(
                before@,
                inputs,
                before@.len() as int,
                gate,
            )
    }

    /// An empty list.
    pub fn new() -> (r: CircuitBuilder)
        ensures
            r@ == Seq::<Gate>::empty(),
    {
        CircuitBuilder { gates: Vec::new() }
    }

    /// The number of gates.
    pub fn num_gates(&self) -> (r: usize)
        ensures
            r == self@.len(),
    {
        self.gates.len()
    }

    /// Gate number `i`.
    pub fn gate(&self, i: usize) -> (r: Gate)
        requires
            i < self@.len(),
        ensures
            r == self@[i as int],
    {
        self.gates[i]
    }

    /// What every wire carries when the input wires carry `inputs`.
    pub fn evaluate(&self, inputs: &Vec<Felt>) -> (values: Vec<Felt>)
        ensures
            values@.len() == self@.len(),
            forall|i: int|
                0 <= i < values@.len() ==> (#[trigger] values@[i])@ == target_value(
                    self@,
                    felts(inputs@),
                    i,
                ),
    {
        let mut values: Vec<Felt> = Vec::new();
        let mut i: usize = 0;
        while i < self.gates.len()
            invariant
                i <= self.gates@.len(),
                values@.len() == i,
                forall|j: int|
                    0 <= j < i ==> (#[trigger] values@[j])@ == target_value(
                        self@,
                        felts(inputs@),
                        j,
                    ),
            decreases self.gates@.len() - i,
        {
            proof {
                reveal(target_value);
                reveal(gate_result);
            }
            let value = match self.gates[i] {
                Gate::Input => {
                    if i < inputs.len() {
                        proof {
                            lemma_view_canonical(inputs@[i as int]);
                        }
                        inputs[i]
                    } else {
                        Felt::zero()
                    }
                },
                Gate::Constant(c) => c,
                Gate::Mul(a, b) => {
                    if a.index < i && b.index < i {
                        values[a.index].mul(values[b.index])
                    } else {
                        Felt::zero()
                    }
                },
                Gate::Sub(a, b) => {
                    if a.index < i && b.index < i {
                        values[a.index].sub(values[b.index])
                    } else {
                        Felt::zero()
                    }
                },
                Gate::MulSub(a, b, c) => {
                    if a.index < i && b.index < i && c.index < i {
                        values[a.index].mul(values[b.index]).sub(values[c.index])
                    } else {
                        Felt::zero()
                    }
                },
                Gate::MulAdd(a, b, c) => {
                    if a.index < i && b.index < i && c.index < i {
                        values[a.index].mul(values[b.index]).add(values[c.index])
                    } else {
                        Felt::zero()
                    }
                },
                Gate::Arithmetic { const_0, const_1, multiplicand_0, multiplicand_1, addend } => {
                    if multiplicand_0.index < i && multiplicand_1.index < i && addend.index < i {
                        let product = values[multiplicand_0.index].mul(
                            values[multiplicand_1.index],
                        );
                        const_0.mul(product).add(const_1.mul(values[addend.index]))
                    } else {
                        Felt::zero()
                    }
                },
            };
            values.push(value);
            i = i + 1;
        }
        values
    }

    fn append(&mut self, gate: Gate) -> (r: Target)
        ensures
            final(self).appended(old(self), gate, r),
    {
        let r = Target { index: self.gates.len() };
        self.gates.push(gate);
        proof {
            let before = old(self)@;
            let after = self@;
            lemma_extends_grown(after, before);
            assert forall|inputs: Seq<int>| #[trigger]
                target_value(after, inputs, r.index as int) == gate_result(
                    before,
                    inputs,
                    before.len() as int,
                    gate,
                ) by {
                lemma_appended_value(before, gate, inputs);
            }
        }
        r
    }

    /// A new input wire.
    pub fn add_virtual_extension_target(&mut self) -> (r: Target)
        ensures
            final(self).appended(old(self), Gate::Input, r),
            forall|inputs: Seq<int>| #[trigger]
                target_value(final(self)@, inputs, r.index as int) == (if r.index
                    < inputs.len() {
                    reduce(inputs[r.index as int])
                } else {
                    0
                }),
    {
        proof {
            reveal(target_value);
            reveal(gate_result);
        }
        self.append(Gate::Input)
    }

    /// A wire that carries `c`.
    pub fn constant_extension(&mut self, c: Felt) -> (r: Target)
        ensures
            final(self).appended(old(self), Gate::Constant(c), r),
            forall|inputs: Seq<int>| #[trigger]
                target_value(final(self)@, inputs, r.index as int) == c@,
    {
        proof {
            reveal(target_value);
            reveal(gate_result);
        }
        self.append(Gate::Constant(c))
    }

    /// A wire that carries `a * b`.
    pub fn mul_extension(&mut self, a: Target, b: Target) -> (r: Target)
        requires
            old(self).has(a),
            old(self).has(b),
        ensures
            final(self).appended(old(self), Gate::Mul(a, b), r),
            forall|inputs: Seq<int>| #[trigger]
                target_value(final(self)@, inputs, r.index as int) == fmul(
                    target_value(old(self)@, inputs, a.index as int),
                    target_value(old(self)@, inputs, b.index as int),
                ),
    {
        proof {
            reveal(target_value);
            reveal(gate_result);
        }
        self.append(Gate::Mul(a, b))
    }

    /// A wire that carries `a - b`.
    pub fn sub_extension(&mut self, a: Target, b: Target) -> (r: Target)
        requires
            old(self).has(a),
            old(self).has(b),
        ensures
            final(self).appended(old(self), Gate::Sub(a, b), r),
            forall|inputs: Seq<int>| #[trigger]
                target_value(final(self)@, inputs, r.index as int) == fsub(
                    target_value(old(self)@, inputs, a.index as int),
                    target_value(old(self)@, inputs, b.index as int),
                ),
    {
        proof {
            reveal(target_value);
            reveal(gate_result);
        }
        self.append(Gate::Sub(a, b))
    }

    /// A wire that carries `a * b - c`.
    pub fn mul_sub_extension(&mut self, a: Target, b: Target, c: Target) -> (r: Target)
        requires
            old(self).has(a),
            old(self).has(b),
            old(self).has(c),
        ensures
            final(self).appended(old(self), Gate::MulSub(a, b, c), r),
            forall|inputs: Seq<int>| #[trigger]
                target_value(final(self)@, inputs, r.index as int) == fsub(
                    fmul(
                        target_value(old(self)@, inputs, a.index as int),
                        target_value(old(self)@, inputs, b.index as int),
                    ),
                    target_value(old(self)@, inputs, c.index as int),
                ),
    {
        proof {
            reveal(target_value);
            reveal(gate_result);
        }
        self.append(Gate::MulSub(a, b, c))
    }

    /// A wire that carries `a * b + c`.
    pub fn scalar_mul_add_extension(&mut self, a: Target, b: Target, c: Target) -> (r: Target)
        requires
            old(self).has(a),
            old(self).has(b),
            old(self).has(c),
        ensures
            final(self).appended(old(self), Gate::MulAdd(a, b, c), r),
            forall|inputs: Seq<int>| #[trigger]
                target_value(final(self)@, inputs, r.index as int) == fadd(
                    fmul(
                        target_value(old(self)@, inputs, a.index as int),
                        target_value(old(self)@, inputs, b.index as int),
                    ),
                    target_value(old(self)@, inputs, c.index as int),
                ),
    {
        proof {
            reveal(target_value);
            reveal(gate_result);
        }
        self.append(Gate::MulAdd(a, b, c))
    }

    /// A wire that carries
    /// `const_0 * multiplicand_0 * multiplicand_1 + const_1 * addend`.
    pub fn arithmetic_extension(
        &mut self,
        const_0: Felt,
        const_1: Felt,
        multiplicand_0: Target,
        multiplicand_1: Target,
        addend: Target,
    ) -> (r: Target)
        requires
            old(self).has(multiplicand_0),
            old(self).has(multiplicand_1),
            old(self).has(addend),
        ensures
            final(self).appended(
                old(self),
                (Gate::Arithmetic { const_0, const_1, multiplicand_0, multiplicand_1, addend }),
                r,
            ),
            forall|inputs: Seq<int>| #[trigger]
                target_value(final(self)@, inputs, r.index as int) == fadd(
                    fmul(
                        const_0@,
                        fmul(
                            target_value(old(self)@, inputs, multiplicand_0.index as int),
                            target_value(old(self)@, inputs, multiplicand_1.index as int),
                        ),
                    ),
                    fmul(const_1@, target_value(old(self)@, inputs, addend.index as int)),
                ),
    {
        proof {
            reveal(target_value);
            reveal(gate_result);
        }
        self.append(Gate::Arithmetic { const_0, const_1, multiplicand_0, multiplicand_1, addend })
    }
}

/// Accumulates the constraints of one evaluation point, in circuit form: the
/// running sum is a wire.
#[derive(Clone, Copy, Debug)]
pub struct RecursiveConstraintConsumer {
    /// The wire of the random weight.
    pub alpha: Target,
    /// The wire of the running sum.
    pub constraint_acc: Target,
    /// The wire of the polynomial that vanishes on the last row.
    pub z_last: Target,
    /// The wire of the Lagrange basis polynomial of the first row.
    pub lagrange_basis_first: Target,
    /// The wire of the Lagrange basis polynomial of the last row.
    pub lagrange_basis_last: Target,
}

impl RecursiveConstraintConsumer {
    /// Whether all wires of the consumer are among the first `n`.
    pub open spec fn within(&self, n: int) -> bool {
        &&& self.alpha.index < n
        &&& self.constraint_acc.index < n
        &&& self.z_last.index < n
        &&& self.lagrange_basis_first.index < n
        &&& self.lagrange_basis_last.index < n
    }

    /// What the consumer holds when the input wires carry `inputs`.
    pub open spec fn state(&self, gates: Seq<Gate>, inputs: Seq<int>) -> ConsumerState {
        ConsumerState {
            alpha: target_value(gates, inputs, self.alpha.index as int),
            acc: target_value(gates, inputs, self.constraint_acc.index as int),
            z_last: target_value(gates, inputs, self.z_last.index as int),
            lagrange_basis_first: target_value(
                gates,
                inputs,
                self.lagrange_basis_first.index as int,
            ),
            lagrange_basis_last: target_value(gates, inputs, self.lagrange_basis_last.index as int),
        }
    }

    /// Whether the consumer differs from `before` in its running sum only.
    pub open spec fn same_weights(&self, before: &RecursiveConstraintConsumer) -> bool {
        &&& self.alpha == before.alpha
        &&& self.z_last == before.z_last
        &&& self.lagrange_basis_first == before.lagrange_basis_first
        &&& self.lagrange_basis_last == before.lagrange_basis_last
    }

    /// A consumer whose running sum is the wire `zero`.
    pub fn new(
        zero: Target,
        alpha: Target,
        z_last: Target,
        lagrange_basis_first: Target,
        lagrange_basis_last: Target,
    ) -> (r: RecursiveConstraintConsumer)
        ensures
            r == (RecursiveConstraintConsumer {
                alpha,
                constraint_acc: zero,
                z_last,
                lagrange_basis_first,
                lagrange_basis_last,
            }),
    {
        RecursiveConstraintConsumer {
            alpha,
            constraint_acc: zero,
            z_last,
            lagrange_basis_first,
            lagrange_basis_last,
        }
    }

    /// The wire of the running sum.
    pub fn accumulator(&self) -> (r: Target)
        ensures
            r == self.constraint_acc,
    {
        self.constraint_acc
    }

    /// Adds one constraint that is to hold on all rows.
    pub fn constraint(&mut self, builder: &mut CircuitBuilder, constraint: Target)
        requires
            old(self).within(old(builder)@.len() as int),
            old(builder).has(constraint),
        ensures
            final(builder)@ == old(builder)@.push(
                Gate::MulAdd(old(self).alpha, old(self).constraint_acc, constraint),
            ),
            final(self).constraint_acc.index == old(builder)@.len(),
            grown(final(builder)@, old(builder)@),
            final(self).within(final(builder)@.len() as int),
            final(self).same_weights(old(self)),
            forall|inputs: Seq<int>| #[trigger]
                final(self).state(final(builder)@, inputs) == old(self).state(
                    old(builder)@,
                    inputs,
                ).absorbed(seq![target_value(old(builder)@, inputs, constraint.index as int)]),
    {
        let ghost before = builder@;
        let acc = builder.scalar_mul_add_extension(self.alpha, self.constraint_acc, constraint);
        self.constraint_acc = acc;
        proof {
            assert forall|inputs: Seq<int>| #[trigger]
                self.state(builder@, inputs) == old(self).state(before, inputs).absorbed(
                    seq![target_value(before, inputs, constraint.index as int)],
                ) by {
                let start = old(self).state(before, inputs);
                let term = target_value(before, inputs, constraint.index as int);
                lemma_absorb_push(start.acc, start.alpha, Seq::<int>::empty(), term);
                assert(Seq::<int>::empty().push(term) =~= seq![term]);
                lemma_fmul_commutes(start.alpha, start.acc);
                assert(target_value(builder@, inputs, acc.index as int) == fadd(
                    fmul(start.alpha, start.acc),
                    term,
                ));
            }
        }
    }

    /// Adds one constraint that is to hold on all rows but the last.
    pub fn constraint_transition(&mut self, builder: &mut CircuitBuilder, constraint: Target)
        requires
            old(self).within(old(builder)@.len() as int),
            old(builder).has(constraint),
        ensures
            final(builder)@ == old(builder)@.push(Gate::Mul(constraint, old(self).z_last)).push(
                Gate::MulAdd(
                    old(self).alpha,
                    old(self).constraint_acc,
                    Target { index: old(builder)@.len() as usize },
                ),
            ),
            final(self).constraint_acc.index == old(builder)@.len() + 1,
            grown(final(builder)@, old(builder)@),
            final(self).within(final(builder)@.len() as int),
            final(self).same_weights(old(self)),
            forall|inputs: Seq<int>| #[trigger]
                final(self).state(final(builder)@, inputs) == old(self).state(
                    old(builder)@,
                    inputs,
                ).absorbed(
                    seq![
                        old(self).state(old(builder)@, inputs).transition(
                            target_value(old(builder)@, inputs, constraint.index as int),
                        ),
                    ],
                ),
    {
        let ghost before = builder@;
        let filtered = builder.mul_extension(constraint, self.z_last);
        let ghost middle = builder@;
        self.constraint(builder, filtered);
        proof {
            assert forall|inputs: Seq<int>| #[trigger]
                self.state(builder@, inputs) == old(self).state(before, inputs).absorbed(
                    seq![
                        old(self).state(before, inputs).transition(
                            target_value(before, inputs, constraint.index as int),
                        ),
                    ],
                ) by {
                assert(old(self).state(middle, inputs) == old(self).state(before, inputs));
            }
        }
    }
}

} // verus!
