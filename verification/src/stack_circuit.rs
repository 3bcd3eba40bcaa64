//! The stack constraints in circuit form.
//!
//! Each function here appends the gates of the constraints that its
//! counterpart on field elements computes. The contracts say so for every
//! assignment of values to the input wires: what the wires of the emitted
//! constraints carry are the terms that the counterpart emits on the rows
//! that the wires of the two rows carry.

use crate::circuit::{
    extends, grown, lemma_extends_value, target_value, CircuitBuilder, Gate,
    RecursiveConstraintConsumer, Target,
};
use crate::columns::{
    CpuColumnsView, MemoryChannelView, RowValues, NUM_GP_CHANNELS, NUM_OPS, SEGMENT_STACK,
    VALUE_LIMBS,
};
use crate::constraint_consumer::{lemma_absorbed_concat, transition_term, ConsumerState};
use crate::field::{
    fmul, fsub, lemma_arithmetic_minus, lemma_arithmetic_plus, lemma_fmul_commutes,
    lemma_mul_sub_self, lemma_reduce_canonical, lemma_sub_sub, Felt,
};
use crate::stack::{
    access_terms, extra_pop_empty_terms, extra_pop_read_terms, first_unused_channel,
    keep_top_terms, lemma_table_wf, limb_terms, next_top_terms, pop_terms, pops_terms,
    push_empty_terms, push_only_terms, push_write_terms, stack_behaviors, stack_behaviors_table,
    stack_len_term, stack_terms, table_terms, transition_limb_terms, unused_channel_terms,
    StackBehavior,
};
use vstd::prelude::*;

verus! {

/// Reads a wire as what it carries when the input wires carry `inputs`.
pub open spec fn wire_value(gates: Seq<Gate>, inputs: Seq<int>) -> spec_fn(Target) -> int {
    |t: Target| target_value(gates, inputs, t.index as int)
}

/// Whether all wires of the channel are among the first `n`.
pub open spec fn channel_within(channel: MemoryChannelView<Target>, n: int) -> bool {
    &&& channel.used.index < n
    &&& channel.is_read.index < n
    &&& channel.addr_context.index < n
    &&& channel.addr_segment.index < n
    &&& channel.addr_virtual.index < n
    &&& forall|k: int| 0 <= k < VALUE_LIMBS ==> (#[trigger] channel.value@[k]).index < n
}

impl CpuColumnsView<Target> {
    /// Whether all wires of the row are among the first `n`.
    pub open spec fn within(self, n: int) -> bool {
        &&& forall|k: int| 0 <= k < NUM_OPS ==> (#[trigger] self.op.as_seq()[k]).index < n
        &&& self.context.index < n
        &&& self.stack_len.index < n
        &&& self.stack_inv.index < n
        &&& self.stack_inv_aux.index < n
        &&& forall|i: int|
            0 <= i < NUM_GP_CHANNELS ==> channel_within(#[trigger] self.mem_channels@[i], n)
    }

    /// The row that the wires carry when the input wires carry `inputs`.
    pub open spec fn values(self, gates: Seq<Gate>, inputs: Seq<int>) -> RowValues {
        self.values_by(wire_value(gates, inputs))
    }
}

/// Gates that are appended do not change the row that wires carry.
pub proof fn lemma_row_values_frame(
    row: CpuColumnsView<Target>,
    longer: Seq<Gate>,
    shorter: Seq<Gate>,
    inputs: Seq<int>,
)
    requires
        row.within(shorter.len() as int),
        extends(longer, shorter),
    ensures
        row.values(longer, inputs) == row.values(shorter, inputs),
{
    let a = row.values(longer, inputs);
    let b = row.values(shorter, inputs);
    lemma_extends_value(longer, shorter, inputs, row.context.index as int);
    lemma_extends_value(longer, shorter, inputs, row.stack_len.index as int);
    lemma_extends_value(longer, shorter, inputs, row.stack_inv.index as int);
    lemma_extends_value(longer, shorter, inputs, row.stack_inv_aux.index as int);
    assert forall|k: int| 0 <= k < NUM_OPS implies a.op[k] == b.op[k] by {
        lemma_extends_value(longer, shorter, inputs, row.op.as_seq()[k].index as int);
    }
    assert(a.op =~= b.op);
    assert forall|i: int| 0 <= i < NUM_GP_CHANNELS implies a.mem_channels[i]
        == b.mem_channels[i] by {
        let channel = row.mem_channels@[i];
        assert(channel_within(channel, shorter.len() as int));
        lemma_extends_value(longer, shorter, inputs, channel.used.index as int);
        lemma_extends_value(longer, shorter, inputs, channel.is_read.index as int);
        lemma_extends_value(longer, shorter, inputs, channel.addr_context.index as int);
        lemma_extends_value(longer, shorter, inputs, channel.addr_segment.index as int);
        lemma_extends_value(longer, shorter, inputs, channel.addr_virtual.index as int);
        assert forall|k: int| 0 <= k < VALUE_LIMBS implies a.mem_channels[i].value[k]
            == b.mem_channels[i].value[k] by {
            lemma_extends_value(longer, shorter, inputs, channel.value@[k].index as int);
        }
        assert(a.mem_channels[i].value =~= b.mem_channels[i].value);
    }
    assert(a.mem_channels =~= b.mem_channels);
}

/// What the wire `t` carries.
pub open spec fn wire(gates: Seq<Gate>, inputs: Seq<int>, t: Target) -> int {
    target_value(gates, inputs, t.index as int)
}

/// What the wires `ts` carry.
pub open spec fn wires(gates: Seq<Gate>, inputs: Seq<int>, ts: Seq<Target>) -> Seq<int> {
    Seq::new(ts.len(), |k: int| wire(gates, inputs, ts[k]))
}

/// Whether the builder and the consumer went from the first pair to the
/// second by appending gates only, with the consumer's fixed wires kept.
pub open spec fn advanced(
    before: Seq<Gate>,
    consumer_before: RecursiveConstraintConsumer,
    after: Seq<Gate>,
    consumer_after: RecursiveConstraintConsumer,
) -> bool {
    &&& grown(after, before)
    &&& consumer_after.within(after.len() as int)
    &&& consumer_after.same_weights(&consumer_before)
}

/// Folding in the first `j` of some terms and then the next is folding in the
/// first `j + 1`.
pub proof fn lemma_absorbed_step(state: ConsumerState, terms: Seq<int>, j: int)
    requires
        0 <= j < terms.len(),
    ensures
        state.absorbed(terms.take(j)).absorbed(seq![terms[j]]) == state.absorbed(terms.take(j + 1)),
        state.absorbed(terms.take(0)) == state,
        terms.take(terms.len() as int) == terms,
{
    lemma_absorbed_concat(state, terms.take(j), seq![terms[j]]);
    assert(terms.take(j) + seq![terms[j]] =~= terms.take(j + 1));
    assert(terms.take(0) =~= Seq::<int>::empty());
    assert(terms.take(terms.len() as int) =~= terms);
}

/// Appends the constraints on the channel through which the word `i` places
/// below the top is read.
fn pop_channel_circuit(
    builder: &mut CircuitBuilder,
    lv: &CpuColumnsView<Target>,
    filter: Target,
    i: usize,
    yield_constr: &mut RecursiveConstraintConsumer,
)
    requires
        i < NUM_GP_CHANNELS,
        lv.within(old(builder)@.len() as int),
        old(builder).has(filter),
        old(yield_constr).within(old(builder)@.len() as int),
    ensures
        advanced(old(builder)@, *old(yield_constr), final(builder)@, *final(yield_constr)),
        forall|inputs: Seq<int>| #[trigger]
            final(yield_constr).state(final(builder)@, inputs) == old(yield_constr).state(
                old(builder)@,
                inputs,
            ).absorbed(
                pop_terms(
                    lv.values(old(builder)@, inputs),
                    wire(old(builder)@, inputs, filter),
                    i as int,
                ),
            ),
{
    let ghost b0 = builder@;
    let ghost y0 = *yield_constr;
    let channel = lv.mem_channels[i];
    proof {
        assert(channel_within(lv.mem_channels@[i as int], b0.len() as int));
    }
    let minus_segment = Felt::from_canonical_u64(SEGMENT_STACK).neg();
    {
        let constr = builder.mul_sub_extension(filter, channel.used, filter);
        yield_constr.constraint(builder, constr);
    }
    proof {
        assert forall|inputs: Seq<int>| #[trigger]
            yield_constr.state(builder@, inputs) == y0.state(b0, inputs).absorbed(
                pop_terms(lv.values(b0, inputs), wire(b0, inputs, filter), i as int).take(1),
            ) by {
            let lvv = lv.values(b0, inputs);
            let f = wire(b0, inputs, filter);
            lemma_mul_sub_self(f, lvv.mem_channels[i as int].used);
            lemma_absorbed_step(y0.state(b0, inputs), pop_terms(lvv, f, i as int), 0);
        }
    }
    let ghost b1 = builder@;
    let ghost y1 = *yield_constr;
    {
        let constr = builder.mul_sub_extension(filter, channel.is_read, filter);
        yield_constr.constraint(builder, constr);
    }
    proof {
        assert forall|inputs: Seq<int>| #[trigger]
            yield_constr.state(builder@, inputs) == y0.state(b0, inputs).absorbed(
                pop_terms(lv.values(b0, inputs), wire(b0, inputs, filter), i as int).take(2),
            ) by {
            let lvv = lv.values(b0, inputs);
            let f = wire(b0, inputs, filter);
            lemma_mul_sub_self(f, lvv.mem_channels[i as int].is_read);
            assert(y1.state(b1, inputs) == y0.state(b0, inputs).absorbed(
                pop_terms(lvv, f, i as int).take(1),
            ));
            lemma_absorbed_step(y0.state(b0, inputs), pop_terms(lvv, f, i as int), 1);
        }
    }
    let ghost b2 = builder@;
    let ghost y2 = *yield_constr;
    {
        let diff = builder.sub_extension(channel.addr_context, lv.context);
        let constr = builder.mul_extension(filter, diff);
        yield_constr.constraint(builder, constr);
    }
    proof {
        assert forall|inputs: Seq<int>| #[trigger]
            yield_constr.state(builder@, inputs) == y0.state(b0, inputs).absorbed(
                pop_terms(lv.values(b0, inputs), wire(b0, inputs, filter), i as int).take(3),
            ) by {
            let lvv = lv.values(b0, inputs);
            let f = wire(b0, inputs, filter);
            assert(y2.state(b2, inputs) == y0.state(b0, inputs).absorbed(
                pop_terms(lvv, f, i as int).take(2),
            ));
            lemma_absorbed_step(y0.state(b0, inputs), pop_terms(lvv, f, i as int), 2);
        }
    }
    let ghost b3 = builder@;
    let ghost y3 = *yield_constr;
    {
        let constr = builder.arithmetic_extension(
            Felt::one(),
            minus_segment,
            filter,
            channel.addr_segment,
            filter,
        );
        yield_constr.constraint(builder, constr);
    }
    proof {
        assert forall|inputs: Seq<int>| #[trigger]
            yield_constr.state(builder@, inputs) == y0.state(b0, inputs).absorbed(
                pop_terms(lv.values(b0, inputs), wire(b0, inputs, filter), i as int).take(4),
            ) by {
            let lvv = lv.values(b0, inputs);
            let f = wire(b0, inputs, filter);
            lemma_reduce_canonical(SEGMENT_STACK as int);
            lemma_arithmetic_minus(
                f,
                lvv.mem_channels[i as int].addr_segment,
                SEGMENT_STACK as int,
            );
            assert(y3.state(b3, inputs) == y0.state(b0, inputs).absorbed(
                pop_terms(lvv, f, i as int).take(3),
            ));
            lemma_absorbed_step(y0.state(b0, inputs), pop_terms(lvv, f, i as int), 3);
        }
    }
    let ghost b4 = builder@;
    let ghost y4 = *yield_constr;
    // The first read is for the second word of the stack.
    {
        let diff = builder.sub_extension(channel.addr_virtual, lv.stack_len);
        let constr = builder.arithmetic_extension(
            Felt::one(),
            Felt::from_canonical_usize(i + 1),
            filter,
            diff,
            filter,
        );
        yield_constr.constraint(builder, constr);
    }
    proof {
        assert forall|inputs: Seq<int>| #[trigger]
            yield_constr.state(builder@, inputs) == y0.state(b0, inputs).absorbed(
                pop_terms(lv.values(b0, inputs), wire(b0, inputs, filter), i as int),
            ) by {
            let lvv = lv.values(b0, inputs);
            let f = wire(b0, inputs, filter);
            lemma_reduce_canonical(i + 1);
            lemma_arithmetic_plus(
                f,
                lvv.mem_channels[i as int].addr_virtual,
                lvv.stack_len,
                i + 1,
            );
            assert(y4.state(b4, inputs) == y0.state(b0, inputs).absorbed(
                pop_terms(lvv, f, i as int).take(4),
            ));
            lemma_absorbed_step(y0.state(b0, inputs), pop_terms(lvv, f, i as int), 4);
        }
    }
}

/// Appends the constraints on the channels through which the words below the
/// top are read.
fn pop_circuit(
    builder: &mut CircuitBuilder,
    lv: &CpuColumnsView<Target>,
    filter: Target,
    num_pops: usize,
    yield_constr: &mut RecursiveConstraintConsumer,
)
    requires
        num_pops <= NUM_GP_CHANNELS,
        lv.within(old(builder)@.len() as int),
        old(builder).has(filter),
        old(yield_constr).within(old(builder)@.len() as int),
    ensures
        advanced(old(builder)@, *old(yield_constr), final(builder)@, *final(yield_constr)),
        forall|inputs: Seq<int>| #[trigger]
            final(yield_constr).state(final(builder)@, inputs) == old(yield_constr).state(
                old(builder)@,
                inputs,
            ).absorbed(
                pops_terms(
                    lv.values(old(builder)@, inputs),
                    wire(old(builder)@, inputs, filter),
                    num_pops as int,
                ),
            ),
{
    let ghost b0 = builder@;
    let ghost y0 = *yield_constr;
    proof {
        assert forall|inputs: Seq<int>| #[trigger]
            yield_constr.state(builder@, inputs) == y0.state(b0, inputs).absorbed(
                pops_terms(lv.values(b0, inputs), wire(b0, inputs, filter), 1),
            ) by {
            lemma_absorbed_concat(y0.state(b0, inputs), Seq::empty(), Seq::empty());
        }
    }
    let mut i: usize = 1;
    while i < num_pops
        invariant
            1 <= i,
            num_pops <= NUM_GP_CHANNELS,
            i <= num_pops || (num_pops == 0 && i == 1),
            lv.within(b0.len() as int),
            filter.index < b0.len(),
            advanced(b0, y0, builder@, *yield_constr),
            forall|inputs: Seq<int>| #[trigger]
                yield_constr.state(builder@, inputs) == y0.state(b0, inputs).absorbed(
                    pops_terms(lv.values(b0, inputs), wire(b0, inputs, filter), i as int),
                ),
        decreases num_pops - i,
    {
        let ghost b1 = builder@;
        let ghost y1 = *yield_constr;
        pop_channel_circuit(builder, lv, filter, i, yield_constr);
        proof {
            assert forall|inputs: Seq<int>| #[trigger]
                yield_constr.state(builder@, inputs) == y0.state(b0, inputs).absorbed(
                    pops_terms(lv.values(b0, inputs), wire(b0, inputs, filter), i + 1),
                ) by {
                let lvv = lv.values(b0, inputs);
                let f = wire(b0, inputs, filter);
                lemma_row_values_frame(*lv, b1, b0, inputs);
                lemma_absorbed_concat(
                    y0.state(b0, inputs),
                    pops_terms(lvv, f, i as int),
                    pop_terms(lvv, f, i as int),
                );
                assert(y1.state(b1, inputs) == y0.state(b0, inputs).absorbed(
                    pops_terms(lvv, f, i as int),
                ));
            }
        }
        i = i + 1;
    }
    proof {
        if num_pops == 0 {
            assert forall|inputs: Seq<int>| #[trigger]
                yield_constr.state(builder@, inputs) == y0.state(b0, inputs).absorbed(
                    pops_terms(lv.values(b0, inputs), wire(b0, inputs, filter), 0),
                ) by {
                assert(yield_constr.state(builder@, inputs) == y0.state(b0, inputs).absorbed(
                    pops_terms(lv.values(b0, inputs), wire(b0, inputs, filter), 1),
                ));
            }
        }
    }
}

/// Appends the first constraints of an operation that pops and does not
/// push, and hands back the wire of the stack length after the pops.
fn extra_pop_read_circuit(
    builder: &mut CircuitBuilder,
    lv: &CpuColumnsView<Target>,
    nv: &CpuColumnsView<Target>,
    filter: Target,
    num_pops: usize,
    yield_constr: &mut RecursiveConstraintConsumer,
) -> (len_diff: Target)
    requires
        num_pops <= NUM_GP_CHANNELS,
        nv.within(old(builder)@.len() as int),
        lv.within(old(builder)@.len() as int),
        old(builder).has(filter),
        old(yield_constr).within(old(builder)@.len() as int),
    ensures
        advanced(old(builder)@, *old(yield_constr), final(builder)@, *final(yield_constr)),
        final(builder).has(len_diff),
        forall|inputs: Seq<int>| #[trigger]
            wire(final(builder)@, inputs, len_diff) == fsub(
                lv.values(old(builder)@, inputs).stack_len,
                num_pops as int,
            ),
        forall|inputs: Seq<int>| #[trigger]
            final(yield_constr).state(final(builder)@, inputs) == old(yield_constr).state(
                old(builder)@,
                inputs,
            ).absorbed(
                extra_pop_read_terms(
                    lv.values(old(builder)@, inputs),
                    nv.values(old(builder)@, inputs),
                    wire(old(builder)@, inputs, filter),
                    num_pops as int,
                    old(yield_constr).state(old(builder)@, inputs).z_last,
                ),
            ),
{
    let ghost b0 = builder@;
    let ghost y0 = *yield_constr;
    // The stack is not empty after the pops exactly if `len_diff` is not zero.
    let target_num_pops = builder.constant_extension(Felt::from_canonical_usize(num_pops));
    let len_diff = builder.sub_extension(lv.stack_len, target_num_pops);
    let new_filter = builder.mul_extension(filter, len_diff);
    let ghost bp = builder@;
    // The next row reads one more word: its top.
    let channel = nv.mem_channels[0];
    proof {
        assert(channel_within(nv.mem_channels@[0], b0.len() as int));
    }
    let minus_segment = Felt::from_canonical_u64(SEGMENT_STACK).neg();
    {
        let constr = builder.mul_sub_extension(new_filter, channel.used, new_filter);
        yield_constr.constraint_transition(builder, constr);
    }
    proof {
        assert forall|inputs: Seq<int>| #[trigger]
            yield_constr.state(builder@, inputs) == y0.state(b0, inputs).absorbed(
                extra_pop_read_terms(
                    lv.values(b0, inputs),
                    nv.values(b0, inputs),
                    wire(b0, inputs, filter),
                    num_pops as int,
                    y0.state(b0, inputs).z_last,
                ).take(1),
            ) by {
            let lvv = lv.values(b0, inputs);
            let nvv = nv.values(b0, inputs);
            let f = wire(b0, inputs, filter);
            let s0 = y0.state(b0, inputs);
            let terms = extra_pop_read_terms(lvv, nvv, f, num_pops as int, s0.z_last);
            let ch = nvv.mem_channels[0];
            let len_diff_v = fsub(lvv.stack_len, num_pops as int);
            let nf = fmul(len_diff_v, f);
            lemma_reduce_canonical(num_pops as int);
            lemma_fmul_commutes(f, len_diff_v);
            assert(wire(bp, inputs, len_diff) == len_diff_v);
            assert(wire(bp, inputs, new_filter) == nf);
            lemma_mul_sub_self(nf, ch.used);
            lemma_absorbed_step(s0, terms, 0);
        }
    }
    let ghost b1 = builder@;
    let ghost y1 = *yield_constr;
    {
        let constr = builder.mul_sub_extension(new_filter, channel.is_read, new_filter);
        yield_constr.constraint_transition(builder, constr);
    }
    proof {
        assert forall|inputs: Seq<int>| #[trigger]
            yield_constr.state(builder@, inputs) == y0.state(b0, inputs).absorbed(
                extra_pop_read_terms(
                    lv.values(b0, inputs),
                    nv.values(b0, inputs),
                    wire(b0, inputs, filter),
                    num_pops as int,
                    y0.state(b0, inputs).z_last,
                ).take(2),
            ) by {
            let lvv = lv.values(b0, inputs);
            let nvv = nv.values(b0, inputs);
            let f = wire(b0, inputs, filter);
            let s0 = y0.state(b0, inputs);
            let terms = extra_pop_read_terms(lvv, nvv, f, num_pops as int, s0.z_last);
            let ch = nvv.mem_channels[0];
            let len_diff_v = fsub(lvv.stack_len, num_pops as int);
            let nf = fmul(len_diff_v, f);
            assert(y1.state(b1, inputs) == s0.absorbed(terms.take(1)));
            lemma_reduce_canonical(num_pops as int);
            lemma_fmul_commutes(f, len_diff_v);
            assert(wire(bp, inputs, len_diff) == len_diff_v);
            assert(wire(bp, inputs, new_filter) == nf);
            lemma_mul_sub_self(nf, ch.is_read);
            lemma_absorbed_step(s0, terms, 1);
        }
    }
    let ghost b2 = builder@;
    let ghost y2 = *yield_constr;
    {
        let diff = builder.sub_extension(channel.addr_context, nv.context);
        let constr = builder.mul_extension(new_filter, diff);
        yield_constr.constraint_transition(builder, constr);
    }
    proof {
        assert forall|inputs: Seq<int>| #[trigger]
            yield_constr.state(builder@, inputs) == y0.state(b0, inputs).absorbed(
                extra_pop_read_terms(
                    lv.values(b0, inputs),
                    nv.values(b0, inputs),
                    wire(b0, inputs, filter),
                    num_pops as int,
                    y0.state(b0, inputs).z_last,
                ).take(3),
            ) by {
            let lvv = lv.values(b0, inputs);
            let nvv = nv.values(b0, inputs);
            let f = wire(b0, inputs, filter);
            let s0 = y0.state(b0, inputs);
            let terms = extra_pop_read_terms(lvv, nvv, f, num_pops as int, s0.z_last);
            let ch = nvv.mem_channels[0];
            let len_diff_v = fsub(lvv.stack_len, num_pops as int);
            let nf = fmul(len_diff_v, f);
            assert(y2.state(b2, inputs) == s0.absorbed(terms.take(2)));
            lemma_reduce_canonical(num_pops as int);
            lemma_fmul_commutes(f, len_diff_v);
            assert(wire(bp, inputs, len_diff) == len_diff_v);
            assert(wire(bp, inputs, new_filter) == nf);
            lemma_absorbed_step(s0, terms, 2);
        }
    }
    let ghost b3 = builder@;
    let ghost y3 = *yield_constr;
    {
        let constr = builder.arithmetic_extension(
            Felt::one(),
            minus_segment,
            new_filter,
            channel.addr_segment,
            new_filter,
        );
        yield_constr.constraint_transition(builder, constr);
    }
    proof {
        assert forall|inputs: Seq<int>| #[trigger]
            yield_constr.state(builder@, inputs) == y0.state(b0, inputs).absorbed(
                extra_pop_read_terms(
                    lv.values(b0, inputs),
                    nv.values(b0, inputs),
                    wire(b0, inputs, filter),
                    num_pops as int,
                    y0.state(b0, inputs).z_last,
                ).take(4),
            ) by {
            let lvv = lv.values(b0, inputs);
            let nvv = nv.values(b0, inputs);
            let f = wire(b0, inputs, filter);
            let s0 = y0.state(b0, inputs);
            let terms = extra_pop_read_terms(lvv, nvv, f, num_pops as int, s0.z_last);
            let ch = nvv.mem_channels[0];
            let len_diff_v = fsub(lvv.stack_len, num_pops as int);
            let nf = fmul(len_diff_v, f);
            assert(y3.state(b3, inputs) == s0.absorbed(terms.take(3)));
            lemma_reduce_canonical(num_pops as int);
            lemma_fmul_commutes(f, len_diff_v);
            assert(wire(bp, inputs, len_diff) == len_diff_v);
            assert(wire(bp, inputs, new_filter) == nf);
            lemma_reduce_canonical(SEGMENT_STACK as int);
            lemma_arithmetic_minus(nf, ch.addr_segment, SEGMENT_STACK as int);
            lemma_absorbed_step(s0, terms, 3);
        }
    }
    let ghost b4 = builder@;
    let ghost y4 = *yield_constr;
    {
        let diff = builder.sub_extension(channel.addr_virtual, nv.stack_len);
        let constr = builder.arithmetic_extension(
            Felt::one(),
            Felt::one(),
            new_filter,
            diff,
            new_filter,
        );
        yield_constr.constraint_transition(builder, constr);
    }
    proof {
        assert forall|inputs: Seq<int>| #[trigger]
            yield_constr.state(builder@, inputs) == y0.state(b0, inputs).absorbed(
                extra_pop_read_terms(
                    lv.values(b0, inputs),
                    nv.values(b0, inputs),
                    wire(b0, inputs, filter),
                    num_pops as int,
                    y0.state(b0, inputs).z_last,
                ),
            ) by {
            let lvv = lv.values(b0, inputs);
            let nvv = nv.values(b0, inputs);
            let f = wire(b0, inputs, filter);
            let s0 = y0.state(b0, inputs);
            let terms = extra_pop_read_terms(lvv, nvv, f, num_pops as int, s0.z_last);
            let ch = nvv.mem_channels[0];
            let len_diff_v = fsub(lvv.stack_len, num_pops as int);
            let nf = fmul(len_diff_v, f);
            assert(y4.state(b4, inputs) == s0.absorbed(terms.take(4)));
            lemma_reduce_canonical(num_pops as int);
            lemma_fmul_commutes(f, len_diff_v);
            assert(wire(bp, inputs, len_diff) == len_diff_v);
            assert(wire(bp, inputs, new_filter) == nf);
            lemma_arithmetic_plus(nf, ch.addr_virtual, nvv.stack_len, 1);
            lemma_absorbed_step(s0, terms, 4);
        }
    }
    proof {
        assert forall|inputs: Seq<int>| #[trigger]
            wire(builder@, inputs, len_diff) == fsub(
                lv.values(b0, inputs).stack_len,
                num_pops as int,
            ) by {
            lemma_reduce_canonical(num_pops as int);
            assert(wire(bp, inputs, len_diff) == fsub(
                lv.values(b0, inputs).stack_len,
                num_pops as int,
            ));
        }
    }
    len_diff
}

/// Appends the last constraints of an operation that pops and does not
/// push. `len_diff` is the wire of the stack length after the pops.
fn extra_pop_empty_circuit(
    builder: &mut CircuitBuilder,
    lv: &CpuColumnsView<Target>,
    nv: &CpuColumnsView<Target>,
    filter: Target,
    num_pops: usize,
    len_diff: Target,
    yield_constr: &mut RecursiveConstraintConsumer,
)
    requires
        num_pops <= NUM_GP_CHANNELS,
        nv.within(old(builder)@.len() as int),
        old(builder).has(len_diff),
        forall|inputs: Seq<int>| #[trigger]
            wire(old(builder)@, inputs, len_diff) == fsub(
                lv.values(old(builder)@, inputs).stack_len,
                num_pops as int,
            ),
        lv.within(old(builder)@.len() as int),
        old(builder).has(filter),
        old(yield_constr).within(old(builder)@.len() as int),
    ensures
        advanced(old(builder)@, *old(yield_constr), final(builder)@, *final(yield_constr)),
        forall|inputs: Seq<int>| #[trigger]
            final(yield_constr).state(final(builder)@, inputs) == old(yield_constr).state(
                old(builder)@,
                inputs,
            ).absorbed(
                extra_pop_empty_terms(
                    lv.values(old(builder)@, inputs),
                    nv.values(old(builder)@, inputs),
                    wire(old(builder)@, inputs, filter),
                    num_pops as int,
                    old(yield_constr).state(old(builder)@, inputs).z_last,
                ),
            ),
{
    let ghost b0 = builder@;
    let ghost y0 = *yield_constr;
    let channel = nv.mem_channels[0];
    proof {
        assert(channel_within(nv.mem_channels@[0], b0.len() as int));
    }
    // `stack_inv_aux` is the product of `len_diff` and its claimed inverse.
    {
        let prod = builder.mul_extension(len_diff, lv.stack_inv);
        let diff = builder.sub_extension(prod, lv.stack_inv_aux);
        let constr = builder.mul_extension(filter, diff);
        yield_constr.constraint(builder, constr);
    }
    proof {
        assert forall|inputs: Seq<int>| #[trigger]
            yield_constr.state(builder@, inputs) == y0.state(b0, inputs).absorbed(
                extra_pop_empty_terms(
                    lv.values(b0, inputs),
                    nv.values(b0, inputs),
                    wire(b0, inputs, filter),
                    num_pops as int,
                    y0.state(b0, inputs).z_last,
                ).take(1),
            ) by {
            let lvv = lv.values(b0, inputs);
            let nvv = nv.values(b0, inputs);
            let f = wire(b0, inputs, filter);
            let s0 = y0.state(b0, inputs);
            let terms = extra_pop_empty_terms(lvv, nvv, f, num_pops as int, s0.z_last);
            assert(wire(b0, inputs, len_diff) == fsub(lvv.stack_len, num_pops as int));
            lemma_absorbed_step(s0, terms, 0);
        }
    }
    let ghost b1 = builder@;
    let ghost y1 = *yield_constr;
    // Where that product is not 1, the read is switched off.
    {
        let empty_stack_filter = builder.mul_sub_extension(filter, lv.stack_inv_aux, filter);
        let constr = builder.mul_extension(empty_stack_filter, channel.used);
        yield_constr.constraint_transition(builder, constr);
    }
    proof {
        assert forall|inputs: Seq<int>| #[trigger]
            yield_constr.state(builder@, inputs) == y0.state(b0, inputs).absorbed(
                extra_pop_empty_terms(
                    lv.values(b0, inputs),
                    nv.values(b0, inputs),
                    wire(b0, inputs, filter),
                    num_pops as int,
                    y0.state(b0, inputs).z_last,
                ),
            ) by {
            let lvv = lv.values(b0, inputs);
            let nvv = nv.values(b0, inputs);
            let f = wire(b0, inputs, filter);
            let s0 = y0.state(b0, inputs);
            let terms = extra_pop_empty_terms(lvv, nvv, f, num_pops as int, s0.z_last);
            assert(y1.state(b1, inputs) == s0.absorbed(terms.take(1)));
            assert(wire(b0, inputs, len_diff) == fsub(lvv.stack_len, num_pops as int));
            lemma_mul_sub_self(f, lvv.stack_inv_aux);
            lemma_absorbed_step(s0, terms, 1);
        }
    }
}

/// Appends the first constraints of an operation that pushes and pops
/// nothing, and hands back the wire of the flag they are multiplied by.
fn push_write_circuit(
    builder: &mut CircuitBuilder,
    lv: &CpuColumnsView<Target>,
    filter: Target,
    yield_constr: &mut RecursiveConstraintConsumer,
) -> (new_filter: Target)
    requires
        lv.within(old(builder)@.len() as int),
        old(builder).has(filter),
        old(yield_constr).within(old(builder)@.len() as int),
    ensures
        advanced(old(builder)@, *old(yield_constr), final(builder)@, *final(yield_constr)),
        final(builder).has(new_filter),
        forall|inputs: Seq<int>| #[trigger]
            wire(final(builder)@, inputs, new_filter) == fmul(
                lv.values(old(builder)@, inputs).stack_len,
                wire(old(builder)@, inputs, filter),
            ),
        forall|inputs: Seq<int>| #[trigger]
            final(yield_constr).state(final(builder)@, inputs) == old(yield_constr).state(
                old(builder)@,
                inputs,
            ).absorbed(
                push_write_terms(
                    lv.values(old(builder)@, inputs),
                    wire(old(builder)@, inputs, filter),
                ),
            ),
{
    let ghost b0 = builder@;
    let ghost y0 = *yield_constr;
    // The stack is not empty exactly if `stack_len` is not zero.
    let new_filter = builder.mul_extension(lv.stack_len, filter);
    let ghost bp = builder@;
    // The old top of the stack is written through the last channel.
    let channel = lv.mem_channels[NUM_GP_CHANNELS - 1];
    proof {
        assert(channel_within(lv.mem_channels@[NUM_GP_CHANNELS - 1], b0.len() as int));
    }
    let minus_segment = Felt::from_canonical_u64(SEGMENT_STACK).neg();
    {
        let constr = builder.mul_sub_extension(new_filter, channel.used, new_filter);
        yield_constr.constraint(builder, constr);
    }
    proof {
        assert forall|inputs: Seq<int>| #[trigger]
            yield_constr.state(builder@, inputs) == y0.state(b0, inputs).absorbed(
                push_write_terms(lv.values(b0, inputs), wire(b0, inputs, filter)).take(1),
            ) by {
            let lvv = lv.values(b0, inputs);
            let f = wire(b0, inputs, filter);
            let s0 = y0.state(b0, inputs);
            let terms = push_write_terms(lvv, f);
            let ch = lvv.mem_channels[NUM_GP_CHANNELS - 1];
            let nf = fmul(lvv.stack_len, f);
            assert(wire(bp, inputs, new_filter) == nf);
            lemma_mul_sub_self(nf, ch.used);
            lemma_absorbed_step(s0, terms, 0);
        }
    }
    let ghost b1 = builder@;
    let ghost y1 = *yield_constr;
    {
        let constr = builder.mul_extension(new_filter, channel.is_read);
        yield_constr.constraint(builder, constr);
    }
    proof {
        assert forall|inputs: Seq<int>| #[trigger]
            yield_constr.state(builder@, inputs) == y0.state(b0, inputs).absorbed(
                push_write_terms(lv.values(b0, inputs), wire(b0, inputs, filter)).take(2),
            ) by {
            let lvv = lv.values(b0, inputs);
            let f = wire(b0, inputs, filter);
            let s0 = y0.state(b0, inputs);
            let terms = push_write_terms(lvv, f);
            let ch = lvv.mem_channels[NUM_GP_CHANNELS - 1];
            let nf = fmul(lvv.stack_len, f);
            assert(y1.state(b1, inputs) == s0.absorbed(terms.take(1)));
            assert(wire(bp, inputs, new_filter) == nf);
            lemma_absorbed_step(s0, terms, 1);
        }
    }
    let ghost b2 = builder@;
    let ghost y2 = *yield_constr;
    {
        let diff = builder.sub_extension(channel.addr_context, lv.context);
        let constr = builder.mul_extension(new_filter, diff);
        yield_constr.constraint(builder, constr);
    }
    proof {
        assert forall|inputs: Seq<int>| #[trigger]
            yield_constr.state(builder@, inputs) == y0.state(b0, inputs).absorbed(
                push_write_terms(lv.values(b0, inputs), wire(b0, inputs, filter)).take(3),
            ) by {
            let lvv = lv.values(b0, inputs);
            let f = wire(b0, inputs, filter);
            let s0 = y0.state(b0, inputs);
            let terms = push_write_terms(lvv, f);
            let ch = lvv.mem_channels[NUM_GP_CHANNELS - 1];
            let nf = fmul(lvv.stack_len, f);
            assert(y2.state(b2, inputs) == s0.absorbed(terms.take(2)));
            assert(wire(bp, inputs, new_filter) == nf);
            lemma_absorbed_step(s0, terms, 2);
        }
    }
    let ghost b3 = builder@;
    let ghost y3 = *yield_constr;
    {
        let constr = builder.arithmetic_extension(
            Felt::one(),
            minus_segment,
            new_filter,
            channel.addr_segment,
            new_filter,
        );
        yield_constr.constraint(builder, constr);
    }
    proof {
        assert forall|inputs: Seq<int>| #[trigger]
            yield_constr.state(builder@, inputs) == y0.state(b0, inputs).absorbed(
                push_write_terms(lv.values(b0, inputs), wire(b0, inputs, filter)).take(4),
            ) by {
            let lvv = lv.values(b0, inputs);
            let f = wire(b0, inputs, filter);
            let s0 = y0.state(b0, inputs);
            let terms = push_write_terms(lvv, f);
            let ch = lvv.mem_channels[NUM_GP_CHANNELS - 1];
            let nf = fmul(lvv.stack_len, f);
            assert(y3.state(b3, inputs) == s0.absorbed(terms.take(3)));
            assert(wire(bp, inputs, new_filter) == nf);
            lemma_reduce_canonical(SEGMENT_STACK as int);
            lemma_arithmetic_minus(nf, ch.addr_segment, SEGMENT_STACK as int);
            lemma_absorbed_step(s0, terms, 3);
        }
    }
    let ghost b4 = builder@;
    let ghost y4 = *yield_constr;
    {
        let diff = builder.sub_extension(channel.addr_virtual, lv.stack_len);
        let constr = builder.arithmetic_extension(
            Felt::one(),
            Felt::one(),
            new_filter,
            diff,
            new_filter,
        );
        yield_constr.constraint(builder, constr);
    }
    proof {
        assert forall|inputs: Seq<int>| #[trigger]
            yield_constr.state(builder@, inputs) == y0.state(b0, inputs).absorbed(
                push_write_terms(lv.values(b0, inputs), wire(b0, inputs, filter)),
            ) by {
            let lvv = lv.values(b0, inputs);
            let f = wire(b0, inputs, filter);
            let s0 = y0.state(b0, inputs);
            let terms = push_write_terms(lvv, f);
            let ch = lvv.mem_channels[NUM_GP_CHANNELS - 1];
            let nf = fmul(lvv.stack_len, f);
            assert(y4.state(b4, inputs) == s0.absorbed(terms.take(4)));
            assert(wire(bp, inputs, new_filter) == nf);
            lemma_arithmetic_plus(nf, ch.addr_virtual, lvv.stack_len, 1);
            lemma_absorbed_step(s0, terms, 4);
        }
    }
    proof {
        assert forall|inputs: Seq<int>| #[trigger]
            wire(builder@, inputs, new_filter) == fmul(
                lv.values(b0, inputs).stack_len,
                wire(b0, inputs, filter),
            ) by {
            assert(wire(bp, inputs, new_filter) == fmul(
                lv.values(b0, inputs).stack_len,
                wire(b0, inputs, filter),
            ));
        }
    }
    new_filter
}

/// Appends the last constraints of an operation that pushes and pops
/// nothing.
fn push_empty_circuit(
    builder: &mut CircuitBuilder,
    lv: &CpuColumnsView<Target>,
    filter: Target,
    yield_constr: &mut RecursiveConstraintConsumer,
)
    requires
        lv.within(old(builder)@.len() as int),
        old(builder).has(filter),
        old(yield_constr).within(old(builder)@.len() as int),
    ensures
        advanced(old(builder)@, *old(yield_constr), final(builder)@, *final(yield_constr)),
        forall|inputs: Seq<int>| #[trigger]
            final(yield_constr).state(final(builder)@, inputs) == old(yield_constr).state(
                old(builder)@,
                inputs,
            ).absorbed(
                push_empty_terms(
                    lv.values(old(builder)@, inputs),
                    wire(old(builder)@, inputs, filter),
                ),
            ),
{
    let ghost b0 = builder@;
    let ghost y0 = *yield_constr;
    let channel = lv.mem_channels[NUM_GP_CHANNELS - 1];
    proof {
        assert(channel_within(lv.mem_channels@[NUM_GP_CHANNELS - 1], b0.len() as int));
    }
    // `stack_inv_aux` is the product of the stack length and its claimed
    // inverse.
    {
        let diff = builder.mul_extension(lv.stack_len, lv.stack_inv);
        let diff = builder.sub_extension(diff, lv.stack_inv_aux);
        let constr = builder.mul_extension(filter, diff);
        yield_constr.constraint(builder, constr);
    }
    proof {
        assert forall|inputs: Seq<int>| #[trigger]
            yield_constr.state(builder@, inputs) == y0.state(b0, inputs).absorbed(
                push_empty_terms(lv.values(b0, inputs), wire(b0, inputs, filter)).take(1),
            ) by {
            let lvv = lv.values(b0, inputs);
            let f = wire(b0, inputs, filter);
            let s0 = y0.state(b0, inputs);
            let terms = push_empty_terms(lvv, f);
            lemma_absorbed_step(s0, terms, 0);
        }
    }
    let ghost b1 = builder@;
    let ghost y1 = *yield_constr;
    // Where that product is not 1, the channel is switched off.
    {
        let empty_stack_filter = builder.mul_sub_extension(filter, lv.stack_inv_aux, filter);
        let constr = builder.mul_extension(empty_stack_filter, channel.used);
        yield_constr.constraint(builder, constr);
    }
    proof {
        assert forall|inputs: Seq<int>| #[trigger]
            yield_constr.state(builder@, inputs) == y0.state(b0, inputs).absorbed(
                push_empty_terms(lv.values(b0, inputs), wire(b0, inputs, filter)),
            ) by {
            let lvv = lv.values(b0, inputs);
            let f = wire(b0, inputs, filter);
            let s0 = y0.state(b0, inputs);
            let terms = push_empty_terms(lvv, f);
            assert(y1.state(b1, inputs) == s0.absorbed(terms.take(1)));
            lemma_mul_sub_self(f, lvv.stack_inv_aux);
            lemma_absorbed_step(s0, terms, 1);
        }
    }
}

/// Whether the wires of a word are among the first `n`.
pub open spec fn limbs_within(limbs: Seq<Target>, n: int) -> bool {
    forall|k: int| 0 <= k < limbs.len() ==> (#[trigger] limbs[k]).index < n
}

/// Gates that are appended do not change what the wires of a word carry.
pub proof fn lemma_wires_frame(
    limbs: Seq<Target>,
    longer: Seq<Gate>,
    shorter: Seq<Gate>,
    inputs: Seq<int>,
)
    requires
        limbs_within(limbs, shorter.len() as int),
        extends(longer, shorter),
    ensures
        wires(longer, inputs, limbs) == wires(shorter, inputs, limbs),
{
    assert forall|k: int| 0 <= k < limbs.len() implies wires(longer, inputs, limbs)[k] == wires(
        shorter,
        inputs,
        limbs,
    )[k] by {
        lemma_extends_value(longer, shorter, inputs, limbs[k].index as int);
    }
    assert(wires(longer, inputs, limbs) =~= wires(shorter, inputs, limbs));
}

/// The word of a channel of a row is what the wires of that word carry.
pub proof fn lemma_channel_word(
    row: CpuColumnsView<Target>,
    gates: Seq<Gate>,
    inputs: Seq<int>,
    i: int,
)
    requires
        0 <= i < NUM_GP_CHANNELS,
    ensures
        row.values(gates, inputs).mem_channels[i].value == wires(
            gates,
            inputs,
            row.mem_channels@[i].value@,
        ),
{
    assert(row.values(gates, inputs).mem_channels[i].value =~= wires(
        gates,
        inputs,
        row.mem_channels@[i].value@,
    ));
}

/// The terms of the first `n` limbs, as constraints on all rows or on all but
/// the last.
pub open spec fn limb_terms_as(
    transition: bool,
    z_last: int,
    filter: int,
    a: Seq<int>,
    b: Seq<int>,
    n: nat,
) -> Seq<int> {
    if transition {
        transition_limb_terms(z_last, filter, a, b, n)
    } else {
        limb_terms(filter, a, b, n)
    }
}

/// Appends, limb by limb, the constraint `filter` times the difference of two
/// words.
fn limb_circuit(
    builder: &mut CircuitBuilder,
    filter: Target,
    a: &[Target; VALUE_LIMBS],
    b: &[Target; VALUE_LIMBS],
    transition: bool,
    yield_constr: &mut RecursiveConstraintConsumer,
)
    requires
        old(builder).has(filter),
        limbs_within(a@, old(builder)@.len() as int),
        limbs_within(b@, old(builder)@.len() as int),
        old(yield_constr).within(old(builder)@.len() as int),
    ensures
        advanced(old(builder)@, *old(yield_constr), final(builder)@, *final(yield_constr)),
        forall|inputs: Seq<int>| #[trigger]
            final(yield_constr).state(final(builder)@, inputs) == old(yield_constr).state(
                old(builder)@,
                inputs,
            ).absorbed(
                limb_terms_as(
                    transition,
                    old(yield_constr).state(old(builder)@, inputs).z_last,
                    wire(old(builder)@, inputs, filter),
                    wires(old(builder)@, inputs, a@),
                    wires(old(builder)@, inputs, b@),
                    VALUE_LIMBS as nat,
                ),
            ),
{
    let ghost b0 = builder@;
    let ghost y0 = *yield_constr;
    proof {
        assert forall|inputs: Seq<int>| #[trigger]
            yield_constr.state(builder@, inputs) == y0.state(b0, inputs).absorbed(
                limb_terms_as(
                    transition,
                    y0.state(b0, inputs).z_last,
                    wire(b0, inputs, filter),
                    wires(b0, inputs, a@),
                    wires(b0, inputs, b@),
                    0,
                ),
            ) by {
            lemma_absorbed_concat(y0.state(b0, inputs), Seq::empty(), Seq::empty());
            assert(limb_terms_as(
                transition,
                y0.state(b0, inputs).z_last,
                wire(b0, inputs, filter),
                wires(b0, inputs, a@),
                wires(b0, inputs, b@),
                0,
            ) =~= Seq::<int>::empty());
        }
    }
    let mut k: usize = 0;
    while k < VALUE_LIMBS
        invariant
            k <= VALUE_LIMBS,
            filter.index < b0.len(),
            limbs_within(a@, b0.len() as int),
            limbs_within(b@, b0.len() as int),
            advanced(b0, y0, builder@, *yield_constr),
            forall|inputs: Seq<int>| #[trigger]
                yield_constr.state(builder@, inputs) == y0.state(b0, inputs).absorbed(
                    limb_terms_as(
                        transition,
                        y0.state(b0, inputs).z_last,
                        wire(b0, inputs, filter),
                        wires(b0, inputs, a@),
                        wires(b0, inputs, b@),
                        k as nat,
                    ),
                ),
        decreases VALUE_LIMBS - k,
    {
        let ghost b1 = builder@;
        let ghost y1 = *yield_constr;
        proof {
            assert(a@[k as int].index < b0.len());
            assert(b@[k as int].index < b0.len());
        }
        let diff = builder.sub_extension(a[k], b[k]);
        let constr = builder.mul_extension(filter, diff);
        if transition {
            yield_constr.constraint_transition(builder, constr);
        } else {
            yield_constr.constraint(builder, constr);
        }
        proof {
            assert forall|inputs: Seq<int>| #[trigger]
                yield_constr.state(builder@, inputs) == y0.state(b0, inputs).absorbed(
                    limb_terms_as(
                        transition,
                        y0.state(b0, inputs).z_last,
                        wire(b0, inputs, filter),
                        wires(b0, inputs, a@),
                        wires(b0, inputs, b@),
                        (k + 1) as nat,
                    ),
                ) by {
                let s0 = y0.state(b0, inputs);
                let f = wire(b0, inputs, filter);
                let av = wires(b0, inputs, a@);
                let bv = wires(b0, inputs, b@);
                let done = limb_terms_as(transition, s0.z_last, f, av, bv, k as nat);
                let plain = fmul(f, fsub(av[k as int], bv[k as int]));
                let term = if transition {
                    transition_term(plain, s0.z_last)
                } else {
                    plain
                };
                assert(y1.state(b1, inputs) == s0.absorbed(done));
                assert(wire(b1, inputs, a@[k as int]) == av[k as int]);
                assert(wire(b1, inputs, b@[k as int]) == bv[k as int]);
                lemma_absorbed_concat(s0, done, seq![term]);
                assert(done + seq![term] =~= limb_terms_as(
                    transition,
                    s0.z_last,
                    f,
                    av,
                    bv,
                    (k + 1) as nat,
                ));
            }
        }
        k = k + 1;
    }
}

/// Appends the constraints that switch off the channels `from` to `to - 1`.
fn unused_channel_circuit(
    builder: &mut CircuitBuilder,
    lv: &CpuColumnsView<Target>,
    filter: Target,
    from: usize,
    to: usize,
    yield_constr: &mut RecursiveConstraintConsumer,
)
    requires
        to <= NUM_GP_CHANNELS,
        lv.within(old(builder)@.len() as int),
        old(builder).has(filter),
        old(yield_constr).within(old(builder)@.len() as int),
    ensures
        advanced(old(builder)@, *old(yield_constr), final(builder)@, *final(yield_constr)),
        forall|inputs: Seq<int>| #[trigger]
            final(yield_constr).state(final(builder)@, inputs) == old(yield_constr).state(
                old(builder)@,
                inputs,
            ).absorbed(
                unused_channel_terms(
                    lv.values(old(builder)@, inputs),
                    wire(old(builder)@, inputs, filter),
                    from as int,
                    to as int,
                ),
            ),
{
    let ghost b0 = builder@;
    let ghost y0 = *yield_constr;
    proof {
        assert forall|inputs: Seq<int>| #[trigger]
            yield_constr.state(builder@, inputs) == y0.state(b0, inputs).absorbed(
                unused_channel_terms(
                    lv.values(b0, inputs),
                    wire(b0, inputs, filter),
                    from as int,
                    from as int,
                ),
            ) by {
            lemma_absorbed_concat(y0.state(b0, inputs), Seq::empty(), Seq::empty());
            assert(unused_channel_terms(
                lv.values(b0, inputs),
                wire(b0, inputs, filter),
                from as int,
                from as int,
            ) =~= Seq::<int>::empty());
        }
    }
    let mut i: usize = from;
    while i < to
        invariant
            from <= i,
            to <= NUM_GP_CHANNELS,
            i <= to || (to < from && i == from),
            lv.within(b0.len() as int),
            filter.index < b0.len(),
            advanced(b0, y0, builder@, *yield_constr),
            forall|inputs: Seq<int>| #[trigger]
                yield_constr.state(builder@, inputs) == y0.state(b0, inputs).absorbed(
                    unused_channel_terms(
                        lv.values(b0, inputs),
                        wire(b0, inputs, filter),
                        from as int,
                        i as int,
                    ),
                ),
        decreases to - i,
    {
        let ghost b1 = builder@;
        let ghost y1 = *yield_constr;
        let channel = lv.mem_channels[i];
        proof {
            assert(channel_within(lv.mem_channels@[i as int], b0.len() as int));
        }
        let constr = builder.mul_extension(filter, channel.used);
        yield_constr.constraint(builder, constr);
        proof {
            assert forall|inputs: Seq<int>| #[trigger]
                yield_constr.state(builder@, inputs) == y0.state(b0, inputs).absorbed(
                    unused_channel_terms(
                        lv.values(b0, inputs),
                        wire(b0, inputs, filter),
                        from as int,
                        i + 1,
                    ),
                ) by {
                let s0 = y0.state(b0, inputs);
                let lvv = lv.values(b0, inputs);
                let f = wire(b0, inputs, filter);
                let done = unused_channel_terms(lvv, f, from as int, i as int);
                let term = fmul(f, lvv.mem_channels[i as int].used);
                assert(y1.state(b1, inputs) == s0.absorbed(done));
                assert(wire(b1, inputs, channel.used) == lvv.mem_channels[i as int].used);
                lemma_absorbed_concat(s0, done, seq![term]);
                assert(done + seq![term] =~= unused_channel_terms(lvv, f, from as int, i + 1));
            }
        }
        i = i + 1;
    }
    proof {
        if to < from {
            assert forall|inputs: Seq<int>| #[trigger]
                yield_constr.state(builder@, inputs) == y0.state(b0, inputs).absorbed(
                    unused_channel_terms(
                        lv.values(b0, inputs),
                        wire(b0, inputs, filter),
                        from as int,
                        to as int,
                    ),
                ) by {
                assert(unused_channel_terms(
                    lv.values(b0, inputs),
                    wire(b0, inputs, filter),
                    from as int,
                    to as int,
                ) =~= unused_channel_terms(
                    lv.values(b0, inputs),
                    wire(b0, inputs, filter),
                    from as int,
                    from as int,
                ));
            }
        }
    }
}

/// A row whose wires are among the first `n` has them among the first `m`,
/// for every `m` from `n` on.
pub proof fn lemma_within_monotone(row: CpuColumnsView<Target>, n: int, m: int)
    requires
        row.within(n),
        n <= m,
    ensures
        row.within(m),
        forall|i: int|
            0 <= i < NUM_GP_CHANNELS ==> limbs_within(#[trigger] row.mem_channels@[i].value@, m),
{
    assert forall|i: int| 0 <= i < NUM_GP_CHANNELS implies channel_within(
        #[trigger] row.mem_channels@[i],
        m,
    ) && limbs_within(row.mem_channels@[i].value@, m) by {
        assert(channel_within(row.mem_channels@[i], n));
    }
}

/// Appends the constraints of an operation that neither pops nor pushes.
fn keep_top_circuit(
    builder: &mut CircuitBuilder,
    lv: &CpuColumnsView<Target>,
    nv: &CpuColumnsView<Target>,
    filter: Target,
    yield_constr: &mut RecursiveConstraintConsumer,
)
    requires
        lv.within(old(builder)@.len() as int),
        nv.within(old(builder)@.len() as int),
        old(builder).has(filter),
        old(yield_constr).within(old(builder)@.len() as int),
    ensures
        advanced(old(builder)@, *old(yield_constr), final(builder)@, *final(yield_constr)),
        forall|inputs: Seq<int>| #[trigger]
            final(yield_constr).state(final(builder)@, inputs) == old(yield_constr).state(
                old(builder)@,
                inputs,
            ).absorbed(
                keep_top_terms(
                    lv.values(old(builder)@, inputs),
                    nv.values(old(builder)@, inputs),
                    wire(old(builder)@, inputs, filter),
                ),
            ),
{
    let ghost b0 = builder@;
    let ghost y0 = *yield_constr;
    let old_top = lv.mem_channels[0];
    let new_top = nv.mem_channels[0];
    proof {
        assert(channel_within(nv.mem_channels@[0], b0.len() as int));
    }
    let constr = builder.mul_extension(filter, new_top.used);
    yield_constr.constraint(builder, constr);
    let ghost b1 = builder@;
    let ghost y1 = *yield_constr;
    proof {
        lemma_within_monotone(*lv, b0.len() as int, b1.len() as int);
        lemma_within_monotone(*nv, b0.len() as int, b1.len() as int);
        lemma_within_monotone(*lv, b0.len() as int, b0.len() as int);
        lemma_within_monotone(*nv, b0.len() as int, b0.len() as int);
    }
    limb_circuit(builder, filter, &old_top.value, &new_top.value, false, yield_constr);
    proof {
        assert forall|inputs: Seq<int>| #[trigger]
            yield_constr.state(builder@, inputs) == y0.state(b0, inputs).absorbed(
                keep_top_terms(
                    lv.values(b0, inputs),
                    nv.values(b0, inputs),
                    wire(b0, inputs, filter),
                ),
            ) by {
            let s0 = y0.state(b0, inputs);
            let lvv = lv.values(b0, inputs);
            let nvv = nv.values(b0, inputs);
            let f = wire(b0, inputs, filter);
            let first = seq![fmul(f, nvv.mem_channels[0].used)];
            let limbs = limb_terms(
                f,
                lvv.mem_channels[0].value,
                nvv.mem_channels[0].value,
                VALUE_LIMBS as nat,
            );
            assert(y1.state(b1, inputs) == s0.absorbed(first));
            lemma_channel_word(*lv, b0, inputs, 0);
            lemma_channel_word(*nv, b0, inputs, 0);
            lemma_wires_frame(old_top.value@, b1, b0, inputs);
            lemma_wires_frame(new_top.value@, b1, b0, inputs);
            assert(wire(b1, inputs, filter) == f);
            lemma_absorbed_concat(s0, first, limbs);
        }
    }
}

/// Appends the constraints of an operation that pushes and pops nothing.
fn push_only_circuit(
    builder: &mut CircuitBuilder,
    lv: &CpuColumnsView<Target>,
    filter: Target,
    yield_constr: &mut RecursiveConstraintConsumer,
)
    requires
        lv.within(old(builder)@.len() as int),
        old(builder).has(filter),
        old(yield_constr).within(old(builder)@.len() as int),
    ensures
        advanced(old(builder)@, *old(yield_constr), final(builder)@, *final(yield_constr)),
        forall|inputs: Seq<int>| #[trigger]
            final(yield_constr).state(final(builder)@, inputs) == old(yield_constr).state(
                old(builder)@,
                inputs,
            ).absorbed(
                push_only_terms(
                    lv.values(old(builder)@, inputs),
                    wire(old(builder)@, inputs, filter),
                ),
            ),
{
    let ghost b0 = builder@;
    let ghost y0 = *yield_constr;
    let new_filter = push_write_circuit(builder, lv, filter, yield_constr);
    let ghost b1 = builder@;
    let ghost y1 = *yield_constr;
    let channel = lv.mem_channels[NUM_GP_CHANNELS - 1];
    let top = lv.mem_channels[0];
    proof {
        lemma_within_monotone(*lv, b0.len() as int, b1.len() as int);
        lemma_within_monotone(*lv, b0.len() as int, b0.len() as int);
    }
    limb_circuit(builder, new_filter, &channel.value, &top.value, false, yield_constr);
    let ghost b2 = builder@;
    let ghost y2 = *yield_constr;
    proof {
        lemma_within_monotone(*lv, b0.len() as int, b2.len() as int);
    }
    push_empty_circuit(builder, lv, filter, yield_constr);
    proof {
        assert forall|inputs: Seq<int>| #[trigger]
            yield_constr.state(builder@, inputs) == y0.state(b0, inputs).absorbed(
                push_only_terms(lv.values(b0, inputs), wire(b0, inputs, filter)),
            ) by {
            let s0 = y0.state(b0, inputs);
            let lvv = lv.values(b0, inputs);
            let f = wire(b0, inputs, filter);
            let head = push_write_terms(lvv, f);
            let limbs = limb_terms(
                fmul(lvv.stack_len, f),
                lvv.mem_channels[NUM_GP_CHANNELS - 1].value,
                lvv.mem_channels[0].value,
                VALUE_LIMBS as nat,
            );
            let tail = push_empty_terms(lvv, f);
            assert(y1.state(b1, inputs) == s0.absorbed(head));
            lemma_channel_word(*lv, b0, inputs, NUM_GP_CHANNELS - 1);
            lemma_channel_word(*lv, b0, inputs, 0);
            lemma_wires_frame(channel.value@, b1, b0, inputs);
            lemma_wires_frame(top.value@, b1, b0, inputs);
            assert(wire(b1, inputs, new_filter) == fmul(lvv.stack_len, f));
            assert(y2.state(b2, inputs) == s0.absorbed(head).absorbed(limbs));
            lemma_row_values_frame(*lv, b2, b0, inputs);
            assert(wire(b2, inputs, filter) == f);
            lemma_absorbed_concat(s0, head, limbs);
            lemma_absorbed_concat(s0, head + limbs, tail);
        }
    }
}

/// Appends the constraints on how the operation uses the channels of its own
/// row and the first channel of the next.
fn access_circuit(
    builder: &mut CircuitBuilder,
    lv: &CpuColumnsView<Target>,
    nv: &CpuColumnsView<Target>,
    filter: Target,
    stack_behavior: StackBehavior,
    yield_constr: &mut RecursiveConstraintConsumer,
)
    requires
        stack_behavior.wf(),
        lv.within(old(builder)@.len() as int),
        nv.within(old(builder)@.len() as int),
        old(builder).has(filter),
        old(yield_constr).within(old(builder)@.len() as int),
    ensures
        advanced(old(builder)@, *old(yield_constr), final(builder)@, *final(yield_constr)),
        forall|inputs: Seq<int>| #[trigger]
            final(yield_constr).state(final(builder)@, inputs) == old(yield_constr).state(
                old(builder)@,
                inputs,
            ).absorbed(
                access_terms(
                    lv.values(old(builder)@, inputs),
                    nv.values(old(builder)@, inputs),
                    wire(old(builder)@, inputs, filter),
                    stack_behavior,
                    old(yield_constr).state(old(builder)@, inputs).z_last,
                ),
            ),
{
    let ghost b0 = builder@;
    let ghost y0 = *yield_constr;
    if stack_behavior.num_pops > 0 {
        pop_circuit(builder, lv, filter, stack_behavior.num_pops, yield_constr);
        // An operation that also pushes leaves the new top in a channel of
        // its own row. Otherwise the next row reads it, unless the stack is
        // empty.
        if !stack_behavior.pushes {
            let ghost b1 = builder@;
            let ghost y1 = *yield_constr;
            proof {
                lemma_within_monotone(*lv, b0.len() as int, b1.len() as int);
                lemma_within_monotone(*nv, b0.len() as int, b1.len() as int);
            }
            let len_diff = extra_pop_read_circuit(
                builder,
                lv,
                nv,
                filter,
                stack_behavior.num_pops,
                yield_constr,
            );
            let ghost b2 = builder@;
            let ghost y2 = *yield_constr;
            proof {
                lemma_within_monotone(*lv, b0.len() as int, b2.len() as int);
                lemma_within_monotone(*nv, b0.len() as int, b2.len() as int);
                assert forall|inputs: Seq<int>| #[trigger]
                    wire(b2, inputs, len_diff) == fsub(
                        lv.values(b2, inputs).stack_len,
                        stack_behavior.num_pops as int,
                    ) by {
                    lemma_row_values_frame(*lv, b2, b1, inputs);
                }
            }
            extra_pop_empty_circuit(
                builder,
                lv,
                nv,
                filter,
                stack_behavior.num_pops,
                len_diff,
                yield_constr,
            );
            proof {
                assert forall|inputs: Seq<int>| #[trigger]
                    yield_constr.state(builder@, inputs) == y0.state(b0, inputs).absorbed(
                        access_terms(
                            lv.values(b0, inputs),
                            nv.values(b0, inputs),
                            wire(b0, inputs, filter),
                            stack_behavior,
                            y0.state(b0, inputs).z_last,
                        ),
                    ) by {
                    let s0 = y0.state(b0, inputs);
                    let lvv = lv.values(b0, inputs);
                    let nvv = nv.values(b0, inputs);
                    let f = wire(b0, inputs, filter);
                    let n = stack_behavior.num_pops as int;
                    let pops = pops_terms(lvv, f, n);
                    let read = extra_pop_read_terms(lvv, nvv, f, n, s0.z_last);
                    let empty = extra_pop_empty_terms(lvv, nvv, f, n, s0.z_last);
                    assert(y1.state(b1, inputs) == s0.absorbed(pops));
                    lemma_row_values_frame(*lv, b1, b0, inputs);
                    lemma_row_values_frame(*nv, b1, b0, inputs);
                    assert(wire(b1, inputs, filter) == f);
                    assert(y2.state(b2, inputs) == s0.absorbed(pops).absorbed(read));
                    lemma_row_values_frame(*lv, b2, b0, inputs);
                    lemma_row_values_frame(*nv, b2, b0, inputs);
                    assert(wire(b2, inputs, filter) == f);
                    lemma_absorbed_concat(s0, pops, read);
                    lemma_absorbed_concat(s0, pops + read, empty);
                    assert((pops + read) + empty =~= pops + (read + empty));
                }
            }
        } else {
            proof {
                assert forall|inputs: Seq<int>| #[trigger]
                    yield_constr.state(builder@, inputs) == y0.state(b0, inputs).absorbed(
                        access_terms(
                            lv.values(b0, inputs),
                            nv.values(b0, inputs),
                            wire(b0, inputs, filter),
                            stack_behavior,
                            y0.state(b0, inputs).z_last,
                        ),
                    ) by {
                    let pops = pops_terms(
                        lv.values(b0, inputs),
                        wire(b0, inputs, filter),
                        stack_behavior.num_pops as int,
                    );
                    assert(pops + Seq::<int>::empty() =~= pops);
                }
            }
        }
    } else if stack_behavior.pushes {
        push_only_circuit(builder, lv, filter, yield_constr);
    } else {
        keep_top_circuit(builder, lv, nv, filter, yield_constr);
    }
}

/// The terms of `stack_terms` up to those that make a channel the next top.
pub open spec fn terms_through_next_top(
    lv: RowValues,
    nv: RowValues,
    filter: int,
    behavior: StackBehavior,
    z_last: int,
) -> Seq<int> {
    access_terms(lv, nv, filter, behavior, z_last) + (match behavior.new_top_stack_channel {
        Some(channel) => next_top_terms(lv, nv, filter, channel as int, z_last),
        None => Seq::<int>::empty(),
    })
}

/// The terms of `stack_terms` up to those that switch off unused channels.
pub open spec fn terms_through_unused(
    lv: RowValues,
    nv: RowValues,
    filter: int,
    behavior: StackBehavior,
    z_last: int,
) -> Seq<int> {
    terms_through_next_top(lv, nv, filter, behavior, z_last) + (if behavior.disable_other_channels {
        unused_channel_terms(
            lv,
            filter,
            first_unused_channel(behavior.num_pops as int),
            NUM_GP_CHANNELS - behavior.pushed(),
        )
    } else {
        Seq::<int>::empty()
    })
}

/// Appends the constraints of one kind of operation, in circuit form: those of
/// `stack_behavior`, each multiplied by `filter`, the wire of the flag of the
/// operation.
///
/// For every assignment of values to the input wires, the terms folded into
/// the consumer are those that `eval_packed_one` folds in on the rows that
/// the wires of `lv` and `nv` carry.
pub fn eval_ext_circuit_one(
    builder: &mut CircuitBuilder,
    lv: &CpuColumnsView<Target>,
    nv: &CpuColumnsView<Target>,
    filter: Target,
    stack_behavior: StackBehavior,
    yield_constr: &mut RecursiveConstraintConsumer,
)
    requires
        stack_behavior.wf(),
        lv.within(old(builder)@.len() as int),
        nv.within(old(builder)@.len() as int),
        old(builder).has(filter),
        old(yield_constr).within(old(builder)@.len() as int),
    ensures
        advanced(old(builder)@, *old(yield_constr), final(builder)@, *final(yield_constr)),
        forall|inputs: Seq<int>| #[trigger]
            final(yield_constr).state(final(builder)@, inputs) == old(yield_constr).state(
                old(builder)@,
                inputs,
            ).absorbed(
                stack_terms(
                    lv.values(old(builder)@, inputs),
                    nv.values(old(builder)@, inputs),
                    wire(old(builder)@, inputs, filter),
                    stack_behavior,
                    old(yield_constr).state(old(builder)@, inputs).z_last,
                ),
            ),
{
    let ghost b0 = builder@;
    let ghost y0 = *yield_constr;
    access_circuit(builder, lv, nv, filter, stack_behavior, yield_constr);
    let ghost b1 = builder@;
    let ghost y1 = *yield_constr;
    proof {
        lemma_within_monotone(*lv, b0.len() as int, b0.len() as int);
        lemma_within_monotone(*nv, b0.len() as int, b0.len() as int);
        lemma_within_monotone(*lv, b0.len() as int, b1.len() as int);
        lemma_within_monotone(*nv, b0.len() as int, b1.len() as int);
    }

    // Where the behavior names a channel, its word is the top of the stack
    // in the next row.
    if let Some(next_top_ch) = stack_behavior.new_top_stack_channel {
        let source = lv.mem_channels[next_top_ch];
        let new_top = nv.mem_channels[0];
        limb_circuit(builder, filter, &source.value, &new_top.value, true, yield_constr);
        proof {
            assert forall|inputs: Seq<int>| #[trigger]
                yield_constr.state(builder@, inputs) == y0.state(b0, inputs).absorbed(
                    terms_through_next_top(
                        lv.values(b0, inputs),
                        nv.values(b0, inputs),
                        wire(b0, inputs, filter),
                        stack_behavior,
                        y0.state(b0, inputs).z_last,
                    ),
                ) by {
                let s0 = y0.state(b0, inputs);
                let lvv = lv.values(b0, inputs);
                let nvv = nv.values(b0, inputs);
                let f = wire(b0, inputs, filter);
                let access = access_terms(lvv, nvv, f, stack_behavior, s0.z_last);
                let next = next_top_terms(lvv, nvv, f, next_top_ch as int, s0.z_last);
                assert(y1.state(b1, inputs) == s0.absorbed(access));
                lemma_channel_word(*lv, b0, inputs, next_top_ch as int);
                lemma_channel_word(*nv, b0, inputs, 0);
                lemma_wires_frame(source.value@, b1, b0, inputs);
                lemma_wires_frame(new_top.value@, b1, b0, inputs);
                assert(wire(b1, inputs, filter) == f);
                lemma_absorbed_concat(s0, access, next);
            }
        }
    } else {
        proof {
            assert forall|inputs: Seq<int>| #[trigger]
                yield_constr.state(builder@, inputs) == y0.state(b0, inputs).absorbed(
                    terms_through_next_top(
                        lv.values(b0, inputs),
                        nv.values(b0, inputs),
                        wire(b0, inputs, filter),
                        stack_behavior,
                        y0.state(b0, inputs).z_last,
                    ),
                ) by {
                let access = access_terms(
                    lv.values(b0, inputs),
                    nv.values(b0, inputs),
                    wire(b0, inputs, filter),
                    stack_behavior,
                    y0.state(b0, inputs).z_last,
                );
                assert(access + Seq::<int>::empty() =~= access);
            }
        }
    }
    let ghost b2 = builder@;
    let ghost y2 = *yield_constr;
    proof {
        lemma_within_monotone(*lv, b0.len() as int, b2.len() as int);
        lemma_within_monotone(*nv, b0.len() as int, b2.len() as int);
    }

    if stack_behavior.disable_other_channels {
        // The first channel holds the top of the stack and is constrained
        // with the operation itself.
        let from: usize = if stack_behavior.num_pops < 1 {
            1
        } else {
            stack_behavior.num_pops
        };
        let to: usize = if stack_behavior.pushes {
            NUM_GP_CHANNELS - 1
        } else {
            NUM_GP_CHANNELS
        };
        unused_channel_circuit(builder, lv, filter, from, to, yield_constr);
        proof {
            assert forall|inputs: Seq<int>| #[trigger]
                yield_constr.state(builder@, inputs) == y0.state(b0, inputs).absorbed(
                    terms_through_unused(
                        lv.values(b0, inputs),
                        nv.values(b0, inputs),
                        wire(b0, inputs, filter),
                        stack_behavior,
                        y0.state(b0, inputs).z_last,
                    ),
                ) by {
                let s0 = y0.state(b0, inputs);
                let lvv = lv.values(b0, inputs);
                let nvv = nv.values(b0, inputs);
                let f = wire(b0, inputs, filter);
                let before = terms_through_next_top(lvv, nvv, f, stack_behavior, s0.z_last);
                let unused = unused_channel_terms(lvv, f, from as int, to as int);
                assert(y2.state(b2, inputs) == s0.absorbed(before));
                lemma_row_values_frame(*lv, b2, b0, inputs);
                assert(wire(b2, inputs, filter) == f);
                lemma_absorbed_concat(s0, before, unused);
            }
        }
    } else {
        proof {
            assert forall|inputs: Seq<int>| #[trigger]
                yield_constr.state(builder@, inputs) == y0.state(b0, inputs).absorbed(
                    terms_through_unused(
                        lv.values(b0, inputs),
                        nv.values(b0, inputs),
                        wire(b0, inputs, filter),
                        stack_behavior,
                        y0.state(b0, inputs).z_last,
                    ),
                ) by {
                let before = terms_through_next_top(
                    lv.values(b0, inputs),
                    nv.values(b0, inputs),
                    wire(b0, inputs, filter),
                    stack_behavior,
                    y0.state(b0, inputs).z_last,
                );
                assert(y2.state(b2, inputs) == y0.state(b0, inputs).absorbed(before));
                assert(before + Seq::<int>::empty() =~= before);
            }
        }
    }
    let ghost b3 = builder@;
    let ghost y3 = *yield_constr;

    // The stack length of the next row.
    let push = if stack_behavior.pushes {
        Felt::one()
    } else {
        Felt::zero()
    };
    let change = Felt::from_canonical_usize(stack_behavior.num_pops).sub(push);
    let diff = builder.constant_extension(change);
    let diff = builder.sub_extension(lv.stack_len, diff);
    let diff = builder.sub_extension(nv.stack_len, diff);
    let constr = builder.mul_extension(filter, diff);
    yield_constr.constraint_transition(builder, constr);
    proof {
        assert forall|inputs: Seq<int>| #[trigger]
            yield_constr.state(builder@, inputs) == y0.state(b0, inputs).absorbed(
                stack_terms(
                    lv.values(b0, inputs),
                    nv.values(b0, inputs),
                    wire(b0, inputs, filter),
                    stack_behavior,
                    y0.state(b0, inputs).z_last,
                ),
            ) by {
            let s0 = y0.state(b0, inputs);
            let lvv = lv.values(b0, inputs);
            let nvv = nv.values(b0, inputs);
            let f = wire(b0, inputs, filter);
            let before = terms_through_unused(lvv, nvv, f, stack_behavior, s0.z_last);
            let term = stack_len_term(lvv, nvv, f, stack_behavior, s0.z_last);
            assert(y3.state(b3, inputs) == s0.absorbed(before));
            lemma_reduce_canonical(stack_behavior.num_pops as int);
            lemma_sub_sub(lvv.stack_len, stack_behavior.num_pops as int, stack_behavior.pushed());
            assert(wire(b3, inputs, lv.stack_len) == lvv.stack_len);
            assert(wire(b3, inputs, nv.stack_len) == nvv.stack_len);
            assert(wire(b3, inputs, filter) == f);
            lemma_absorbed_concat(s0, before, seq![term]);
        }
    }
}

/// Appends the stack constraints of a row, in circuit form: for every kind of
/// operation with a behavior in the table, the constraints of that behavior,
/// multiplied by the wire of the flag of the operation.
///
/// For every assignment of values to the input wires, the terms folded into
/// the consumer are those that `eval_packed` folds in on the rows that the
/// wires of `lv` and `nv` carry.
pub fn eval_ext_circuit(
    builder: &mut CircuitBuilder,
    lv: &CpuColumnsView<Target>,
    nv: &CpuColumnsView<Target>,
    yield_constr: &mut RecursiveConstraintConsumer,
)
    requires
        lv.within(old(builder)@.len() as int),
        nv.within(old(builder)@.len() as int),
        old(yield_constr).within(old(builder)@.len() as int),
    ensures
        advanced(old(builder)@, *old(yield_constr), final(builder)@, *final(yield_constr)),
        forall|inputs: Seq<int>| #[trigger]
            final(yield_constr).state(final(builder)@, inputs) == old(yield_constr).state(
                old(builder)@,
                inputs,
            ).absorbed(
                table_terms(
                    lv.values(old(builder)@, inputs),
                    nv.values(old(builder)@, inputs),
                    old(yield_constr).state(old(builder)@, inputs).z_last,
                    NUM_OPS as int,
                ),
            ),
{
    let ghost b0 = builder@;
    let ghost y0 = *yield_constr;
    proof {
        assert forall|inputs: Seq<int>| #[trigger]
            yield_constr.state(builder@, inputs) == y0.state(b0, inputs).absorbed(
                table_terms(
                    lv.values(b0, inputs),
                    nv.values(b0, inputs),
                    y0.state(b0, inputs).z_last,
                    0,
                ),
            ) by {
            lemma_absorbed_concat(y0.state(b0, inputs), Seq::empty(), Seq::empty());
        }
    }
    let ops = lv.op.into_vec();
    let behaviors = stack_behaviors().into_vec();
    let mut k: usize = 0;
    while k < NUM_OPS
        invariant
            k <= NUM_OPS,
            ops@ == lv.op.as_seq(),
            behaviors@ == stack_behaviors_table().as_seq(),
            ops@.len() == NUM_OPS,
            behaviors@.len() == NUM_OPS,
            lv.within(b0.len() as int),
            nv.within(b0.len() as int),
            advanced(b0, y0, builder@, *yield_constr),
            forall|inputs: Seq<int>| #[trigger]
                yield_constr.state(builder@, inputs) == y0.state(b0, inputs).absorbed(
                    table_terms(
                        lv.values(b0, inputs),
                        nv.values(b0, inputs),
                        y0.state(b0, inputs).z_last,
                        k as int,
                    ),
                ),
        decreases NUM_OPS - k,
    {
        let ghost b1 = builder@;
        let ghost y1 = *yield_constr;
        if let Some(stack_behavior) = behaviors[k] {
            proof {
                lemma_table_wf(k as int);
                lemma_within_monotone(*lv, b0.len() as int, b1.len() as int);
                lemma_within_monotone(*nv, b0.len() as int, b1.len() as int);
                assert(lv.op.as_seq()[k as int].index < b0.len());
            }
            eval_ext_circuit_one(builder, lv, nv, ops[k], stack_behavior, yield_constr);
            proof {
                assert forall|inputs: Seq<int>| #[trigger]
                    yield_constr.state(builder@, inputs) == y0.state(b0, inputs).absorbed(
                        table_terms(
                            lv.values(b0, inputs),
                            nv.values(b0, inputs),
                            y0.state(b0, inputs).z_last,
                            k + 1,
                        ),
                    ) by {
                    let s0 = y0.state(b0, inputs);
                    let lvv = lv.values(b0, inputs);
                    let nvv = nv.values(b0, inputs);
                    let before = table_terms(lvv, nvv, s0.z_last, k as int);
                    let these = stack_terms(lvv, nvv, lvv.op[k as int], stack_behavior, s0.z_last);
                    assert(y1.state(b1, inputs) == s0.absorbed(before));
                    lemma_row_values_frame(*lv, b1, b0, inputs);
                    lemma_row_values_frame(*nv, b1, b0, inputs);
                    assert(wire(b1, inputs, ops[k as int]) == lvv.op[k as int]);
                    lemma_absorbed_concat(s0, before, these);
                }
            }
        } else {
            proof {
                assert forall|inputs: Seq<int>| #[trigger]
                    yield_constr.state(builder@, inputs) == y0.state(b0, inputs).absorbed(
                        table_terms(
                            lv.values(b0, inputs),
                            nv.values(b0, inputs),
                            y0.state(b0, inputs).z_last,
                            k + 1,
                        ),
                    ) by {
                    let before = table_terms(
                        lv.values(b0, inputs),
                        nv.values(b0, inputs),
                        y0.state(b0, inputs).z_last,
                        k as int,
                    );
                    assert(before + Seq::<int>::empty() =~= before);
                }
            }
        }
        k = k + 1;
    }
}

} // verus!
