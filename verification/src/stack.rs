//! The constraints that tie an operation's effect on the stack to the memory
//! channels of its row.
//!
//! The word on top of the stack is kept in the first memory channel of a row.
//! An operation that pops reads the words below the top through the channels
//! that follow; one that pushes writes the old top through the last channel.

use crate::columns::{
    CpuColumnsView, OpsColumnsView, RowValues, NUM_GP_CHANNELS, NUM_OPS, SEGMENT_STACK,
    VALUE_LIMBS,
};
use crate::constraint_consumer::{
    lemma_absorbed_concat, transition_term, ConstraintConsumer, ConsumerState,
};
use crate::field::{
    fadd, felts, fmul, fsub, is_canonical, lemma_reduce_canonical, modulus, Felt,
};
use vstd::prelude::*;

verus! {

/// How one kind of operation uses the stack.
#[derive(Clone, Copy, Debug)]
pub struct StackBehavior {
    /// The number of words that the operation pops.
    pub num_pops: usize,
    /// Whether the operation pushes a word.
    pub pushes: bool,
    /// The channel that holds the word that is on top after the operation, if
    /// the operation leaves it in one.
    pub new_top_stack_channel: Option<usize>,
    /// Whether the channels that the operation does not use for the stack are
    /// switched off.
    pub disable_other_channels: bool,
}

impl StackBehavior {
    /// Every channel that the behavior names exists.
    pub open spec fn wf(self) -> bool {
        &&& self.num_pops <= NUM_GP_CHANNELS
        &&& (self.new_top_stack_channel matches Some(channel) ==> channel < NUM_GP_CHANNELS)
    }

    /// The change of the stack length: pushes minus pops.
    pub open spec fn pushed(self) -> int {
        if self.pushes {
            1
        } else {
            0
        }
    }
}

/// The behavior, or none for an operation that is constrained elsewhere.
pub open spec fn behavior(
    num_pops: usize,
    pushes: bool,
    new_top_stack_channel: Option<usize>,
    disable_other_channels: bool,
) -> Option<StackBehavior> {
    Some(StackBehavior { num_pops, pushes, new_top_stack_channel, disable_other_channels })
}

/// The stack behavior of every kind of operation; none where the behavior
/// depends on more than the kind.
pub open spec fn stack_behaviors_table() -> OpsColumnsView<Option<StackBehavior>> {
    let top: Option<usize> = Some((NUM_GP_CHANNELS - 1) as usize);
    let basic_binary_op = behavior(2, true, top, true);
    OpsColumnsView {
        binary_op: basic_binary_op,
        ternary_op: behavior(3, true, top, true),
        fp254_op: basic_binary_op,
        eq_iszero: None,
        logic_op: basic_binary_op,
        not: behavior(1, true, top, true),
        shift: behavior(2, true, top, false),
        keccak_general: behavior(4, true, top, true),
        prover_input: None,
        pop: behavior(1, false, None, true),
        jumps: None,
        pc: behavior(0, true, None, true),
        jumpdest: behavior(0, false, None, true),
        push0: behavior(0, true, None, true),
        push: None,
        dup: None,
        swap: None,
        get_context: behavior(0, true, None, true),
        set_context: None,
        mload_32bytes: behavior(4, true, Some(4), false),
        mstore_32bytes: behavior(5, false, None, false),
        exit_kernel: behavior(1, false, None, true),
        m_op_general: None,
        syscall: behavior(0, true, None, false),
        exception: behavior(0, true, None, false),
    }
}

/// The constraints on the channel through which the word `i` places below
/// the top is read.
pub open spec fn pop_terms(lv: RowValues, filter: int, i: int) -> Seq<int> {
    let channel = lv.mem_channels[i];
    seq![
        fmul(filter, fsub(channel.used, 1)),
        fmul(filter, fsub(channel.is_read, 1)),
        fmul(filter, fsub(channel.addr_context, lv.context)),
        fmul(filter, fsub(channel.addr_segment, SEGMENT_STACK as int)),
        fmul(filter, fsub(channel.addr_virtual, fsub(lv.stack_len, i + 1))),
    ]
}

/// The constraints on the channels `1` to `num_pops - 1`, through which an
/// operation that pops `num_pops` words reads those below the top.
pub open spec fn pops_terms(lv: RowValues, filter: int, num_pops: int) -> Seq<int>
    decreases num_pops,
{
    if num_pops <= 1 {
        Seq::empty()
    } else {
        pops_terms(lv, filter, num_pops - 1) + pop_terms(lv, filter, num_pops - 1)
    }
}

/// The first constraints of an operation that pops `num_pops` words and pushes
/// none: unless the stack is empty afterwards, the next row reads its top
/// through its first channel.
pub open spec fn extra_pop_read_terms(
    lv: RowValues,
    nv: RowValues,
    filter: int,
    num_pops: int,
    z_last: int,
) -> Seq<int> {
    let len_diff = fsub(lv.stack_len, num_pops);
    let new_filter = fmul(len_diff, filter);
    let channel = nv.mem_channels[0];
    seq![
        transition_term(fmul(new_filter, fsub(channel.used, 1)), z_last),
        transition_term(fmul(new_filter, fsub(channel.is_read, 1)), z_last),
        transition_term(fmul(new_filter, fsub(channel.addr_context, nv.context)), z_last),
        transition_term(
            fmul(new_filter, fsub(channel.addr_segment, SEGMENT_STACK as int)),
            z_last,
        ),
        transition_term(
            fmul(new_filter, fsub(channel.addr_virtual, fsub(nv.stack_len, 1))),
            z_last,
        ),
    ]
}

/// The last constraints of an operation that pops `num_pops` words and pushes
/// none: where the stack is empty afterwards, the next row does not read.
pub open spec fn extra_pop_empty_terms(
    lv: RowValues,
    nv: RowValues,
    filter: int,
    num_pops: int,
    z_last: int,
) -> Seq<int> {
    let len_diff = fsub(lv.stack_len, num_pops);
    let empty_stack_filter = fmul(filter, fsub(lv.stack_inv_aux, 1));
    seq![
        fmul(filter, fsub(fmul(len_diff, lv.stack_inv), lv.stack_inv_aux)),
        transition_term(fmul(empty_stack_filter, nv.mem_channels[0].used), z_last),
    ]
}

/// The constraints of an operation that pops `num_pops` words and pushes
/// none.
pub open spec fn extra_pop_terms(
    lv: RowValues,
    nv: RowValues,
    filter: int,
    num_pops: int,
    z_last: int,
) -> Seq<int> {
    extra_pop_read_terms(lv, nv, filter, num_pops, z_last) + extra_pop_empty_terms(
        lv,
        nv,
        filter,
        num_pops,
        z_last,
    )
}

/// For each of the first `n` limbs, `filter` times the difference of the two
/// words in that limb.
pub open spec fn limb_terms(filter: int, a: Seq<int>, b: Seq<int>, n: nat) -> Seq<int> {
    Seq::new(n, |k: int| fmul(filter, fsub(a[k], b[k])))
}

/// As `limb_terms`, each term as a constraint on all rows but the last.
pub open spec fn transition_limb_terms(
    z_last: int,
    filter: int,
    a: Seq<int>,
    b: Seq<int>,
    n: nat,
) -> Seq<int> {
    Seq::new(n, |k: int| transition_term(fmul(filter, fsub(a[k], b[k])), z_last))
}

/// The first constraints of an operation that pushes and pops nothing: unless
/// the stack is empty, the last channel writes at the address of the old top.
pub open spec fn push_write_terms(lv: RowValues, filter: int) -> Seq<int> {
    let new_filter = fmul(lv.stack_len, filter);
    let channel = lv.mem_channels[NUM_GP_CHANNELS - 1];
    seq![
        fmul(new_filter, fsub(channel.used, 1)),
        fmul(new_filter, channel.is_read),
        fmul(new_filter, fsub(channel.addr_context, lv.context)),
        fmul(new_filter, fsub(channel.addr_segment, SEGMENT_STACK as int)),
        fmul(new_filter, fsub(channel.addr_virtual, fsub(lv.stack_len, 1))),
    ]
}

/// The last constraints of an operation that pushes and pops nothing: where
/// the stack is empty, the last channel is switched off.
pub open spec fn push_empty_terms(lv: RowValues, filter: int) -> Seq<int> {
    let channel = lv.mem_channels[NUM_GP_CHANNELS - 1];
    let empty_stack_filter = fmul(filter, fsub(lv.stack_inv_aux, 1));
    seq![
        fmul(filter, fsub(fmul(lv.stack_len, lv.stack_inv), lv.stack_inv_aux)),
        fmul(empty_stack_filter, channel.used),
    ]
}

/// The constraints of an operation that pushes and pops nothing: unless the
/// stack is empty, the old top is written through the last channel.
pub open spec fn push_only_terms(lv: RowValues, filter: int) -> Seq<int> {
    push_write_terms(lv, filter) + limb_terms(
        fmul(lv.stack_len, filter),
        lv.mem_channels[NUM_GP_CHANNELS - 1].value,
        lv.mem_channels[0].value,
        VALUE_LIMBS as nat,
    ) + push_empty_terms(lv, filter)
}

/// The constraints of an operation that neither pops nor pushes: the top of
/// the stack stays, and the next row does not use its first channel.
pub open spec fn keep_top_terms(lv: RowValues, nv: RowValues, filter: int) -> Seq<int> {
    seq![fmul(filter, nv.mem_channels[0].used)] + limb_terms(
        filter,
        lv.mem_channels[0].value,
        nv.mem_channels[0].value,
        VALUE_LIMBS as nat,
    )
}

/// The constraints that make the word in channel `channel` the top of the
/// stack in the next row.
pub open spec fn next_top_terms(
    lv: RowValues,
    nv: RowValues,
    filter: int,
    channel: int,
    z_last: int,
) -> Seq<int> {
    transition_limb_terms(
        z_last,
        filter,
        lv.mem_channels[channel].value,
        nv.mem_channels[0].value,
        VALUE_LIMBS as nat,
    )
}

/// The constraints that switch off the channels `from` to `to - 1`.
pub open spec fn unused_channel_terms(lv: RowValues, filter: int, from: int, to: int) -> Seq<int> {
    Seq::new(
        if from <= to {
            (to - from) as nat
        } else {
            0
        },
        |k: int| fmul(filter, lv.mem_channels[from + k].used),
    )
}

/// The first channel that an operation which pops `num_pops` words does not
/// read the stack through.
pub open spec fn first_unused_channel(num_pops: int) -> int {
    if num_pops < 1 {
        1
    } else {
        num_pops
    }
}

/// The constraint on the stack length of the next row.
pub open spec fn stack_len_term(
    lv: RowValues,
    nv: RowValues,
    filter: int,
    behavior: StackBehavior,
    z_last: int,
) -> int {
    transition_term(
        fmul(
            filter,
            fsub(
                nv.stack_len,
                fadd(fsub(lv.stack_len, behavior.num_pops as int), behavior.pushed()),
            ),
        ), z_last)
}

/// The constraints on how the operation uses the channels of its own row and
/// the first channel of the next.
pub open spec fn access_terms(
    lv: RowValues,
    nv: RowValues,
    filter: int,
    behavior: StackBehavior,
    z_last: int,
) -> Seq<int> {
    if behavior.num_pops > 0 {
        pops_terms(lv, filter, behavior.num_pops as int) + (if behavior.pushes {
            Seq::<int>::empty()
        } else {
            extra_pop_terms(lv, nv, filter, behavior.num_pops as int, z_last)
        })
    } else if behavior.pushes {
        push_only_terms(lv, filter)
    } else {
        keep_top_terms(lv, nv, filter)
    }
}

/// All constraints of an operation with stack behavior `behavior` whose flag
/// is `filter`, in the order in which they are emitted, each as the term that
/// is folded into a consumer in state `state`.
pub open spec fn stack_terms(
    lv: RowValues,
    nv: RowValues,
    filter: int,
    behavior: StackBehavior,
    z_last: int,
) -> Seq<int> {
    access_terms(lv, nv, filter, behavior, z_last) + (match behavior.new_top_stack_channel {
        Some(channel) => next_top_terms(lv, nv, filter, channel as int, z_last),
        None => Seq::<int>::empty(),
    }) + (if behavior.disable_other_channels {
        unused_channel_terms(
            lv,
            filter,
            first_unused_channel(behavior.num_pops as int),
            NUM_GP_CHANNELS - behavior.pushed(),
        )
    } else {
        Seq::<int>::empty()
    }) + seq![stack_len_term(lv, nv, filter, behavior, z_last)]
}

/// The constraints of the first `n` kinds of operation, those without a
/// behavior in the table left out.
pub open spec fn table_terms(lv: RowValues, nv: RowValues, z_last: int, n: int) -> Seq<int>
    decreases n,
{
    if n <= 0 {
        Seq::empty()
    } else {
        table_terms(lv, nv, z_last, n - 1) + (match stack_behaviors_table().as_seq()[n - 1] {
            Some(behavior) => stack_terms(lv, nv, lv.op[n - 1], behavior, z_last),
            None => Seq::<int>::empty(),
        })
    }
}

/// A behavior by its parts.
pub fn make_behavior(
    num_pops: usize,
    pushes: bool,
    new_top_stack_channel: Option<usize>,
    disable_other_channels: bool,
) -> (r: Option<StackBehavior>)
    ensures
        r == behavior(num_pops, pushes, new_top_stack_channel, disable_other_channels),
{
    Some(StackBehavior { num_pops, pushes, new_top_stack_channel, disable_other_channels })
}

/// The behavior of a jump without a condition.
pub fn jump_op() -> (r: Option<StackBehavior>)
    ensures
        r == behavior(1, false, None, false),
{
    make_behavior(1, false, None, false)
}

/// The behavior of a conditional jump.
pub fn jumpi_op() -> (r: Option<StackBehavior>)
    ensures
        r == behavior(2, false, None, false),
{
    make_behavior(2, false, None, false)
}

/// The behavior of a load from an address given on the stack.
pub fn mload_general_op() -> (r: Option<StackBehavior>)
    ensures
        r == behavior(3, true, None, false),
{
    make_behavior(3, true, None, false)
}

/// The behavior of a test for equality.
pub fn eq_stack_behavior() -> (r: Option<StackBehavior>)
    ensures
        r == behavior(2, true, Some(2), true),
{
    make_behavior(2, true, Some(2), true)
}

/// The behavior of a test for zero.
pub fn is_zero_stack_behavior() -> (r: Option<StackBehavior>)
    ensures
        r == behavior(1, true, Some(2), true),
{
    make_behavior(1, true, Some(2), true)
}

/// The stack behavior of every kind of operation.
pub fn stack_behaviors() -> (r: OpsColumnsView<Option<StackBehavior>>)
    ensures
        r == stack_behaviors_table(),
{
    let top: Option<usize> = Some(NUM_GP_CHANNELS - 1);
    let basic_binary_op = make_behavior(2, true, top, true);
    OpsColumnsView {
        binary_op: basic_binary_op,
        ternary_op: make_behavior(3, true, top, true),
        fp254_op: basic_binary_op,
        eq_iszero: None,
        logic_op: basic_binary_op,
        not: make_behavior(1, true, top, true),
        shift: make_behavior(2, true, top, false),
        keccak_general: make_behavior(4, true, top, true),
        prover_input: None,
        pop: make_behavior(1, false, None, true),
        jumps: None,
        pc: make_behavior(0, true, None, true),
        jumpdest: make_behavior(0, false, None, true),
        push0: make_behavior(0, true, None, true),
        push: None,
        dup: None,
        swap: None,
        get_context: make_behavior(0, true, None, true),
        set_context: None,
        mload_32bytes: make_behavior(4, true, Some(4), false),
        mstore_32bytes: make_behavior(5, false, None, false),
        exit_kernel: make_behavior(1, false, None, true),
        m_op_general: None,
        syscall: make_behavior(0, true, None, false),
        exception: make_behavior(0, true, None, false),
    }
}

/// Every behavior in the table names only channels that exist.
pub proof fn lemma_table_wf(k: int)
    requires
        0 <= k < NUM_OPS,
    ensures
        stack_behaviors_table().as_seq()[k] matches Some(behavior) ==> behavior.wf(),
{
}

fn emit(
    yield_constr: &mut ConstraintConsumer,
    constraint: Felt,
    Ghost(start): Ghost<ConsumerState>,
    Ghost(emitted): Ghost<Seq<int>>,
)
    requires
        old(yield_constr)@ == start.absorbed(emitted),
    ensures
        final(yield_constr)@ == start.absorbed(emitted.push(constraint@)),
{
    yield_constr.constraint(constraint);
    proof {
        lemma_absorbed_concat(start, emitted, seq![constraint@]);
        assert(emitted + seq![constraint@] =~= emitted.push(constraint@));
    }
}

fn emit_transition(
    yield_constr: &mut ConstraintConsumer,
    constraint: Felt,
    Ghost(start): Ghost<ConsumerState>,
    Ghost(emitted): Ghost<Seq<int>>,
)
    requires
        old(yield_constr)@ == start.absorbed(emitted),
    ensures
        final(yield_constr)@ == start.absorbed(
            emitted.push(transition_term(constraint@, start.z_last)),
        ),
{
    yield_constr.constraint_transition(constraint);
    proof {
        let term = transition_term(constraint@, start.z_last);
        lemma_absorbed_concat(start, emitted, seq![term]);
        assert(emitted + seq![term] =~= emitted.push(term));
    }
}

/// Emits, limb by limb, `filter` times the difference of two words.
fn limb_constraints(
    filter: Felt,
    a: &[Felt; VALUE_LIMBS],
    b: &[Felt; VALUE_LIMBS],
    transition: bool,
    yield_constr: &mut ConstraintConsumer,
)
    ensures
        final(yield_constr)@ == old(yield_constr)@.absorbed(
            if transition {
                transition_limb_terms(
                    old(yield_constr)@.z_last,
                    filter@,
                    felts(a@),
                    felts(b@),
                    VALUE_LIMBS as nat,
                )
            } else {
                limb_terms(filter@, felts(a@), felts(b@), VALUE_LIMBS as nat)
            },
        ),
{
    let ghost start = yield_constr@;
    proof {
        lemma_absorbed_concat(start, Seq::empty(), Seq::empty());
        assert(limb_terms(filter@, felts(a@), felts(b@), 0) =~= Seq::<int>::empty());
        assert(transition_limb_terms(start.z_last, filter@, felts(a@), felts(b@), 0) =~= Seq::<
            int,
        >::empty());
    }
    let mut k: usize = 0;
    while k < VALUE_LIMBS
        invariant
            k <= VALUE_LIMBS,
            yield_constr@ == start.absorbed(
                if transition {
                    transition_limb_terms(start.z_last, filter@, felts(a@), felts(b@), k as nat)
                } else {
                    limb_terms(filter@, felts(a@), felts(b@), k as nat)
                },
            ),
        decreases VALUE_LIMBS - k,
    {
        let constraint = filter.mul(a[k].sub(b[k]));
        if transition {
            let ghost emitted = transition_limb_terms(
                start.z_last,
                filter@,
                felts(a@),
                felts(b@),
                k as nat,
            );
            emit_transition(yield_constr, constraint, Ghost(start), Ghost(emitted));
            let ghost term = transition_term(constraint@, start.z_last);
            assert(emitted.push(term) =~= transition_limb_terms(
                start.z_last,
                filter@,
                felts(a@),
                felts(b@),
                (k + 1) as nat,
            ));
        } else {
            let ghost emitted = limb_terms(filter@, felts(a@), felts(b@), k as nat);
            emit(yield_constr, constraint, Ghost(start), Ghost(emitted));
            assert(emitted.push(constraint@) =~= limb_terms(
                filter@,
                felts(a@),
                felts(b@),
                (k + 1) as nat,
            ));
        }
        k = k + 1;
    }
}

/// Emits the constraints on the channels through which the words below the
/// top are read.
fn pop_constraints(
    lv: &CpuColumnsView<Felt>,
    filter: Felt,
    num_pops: usize,
    yield_constr: &mut ConstraintConsumer,
)
    requires
        num_pops <= NUM_GP_CHANNELS,
    ensures
        final(yield_constr)@ == old(yield_constr)@.absorbed(
            pops_terms(lv@, filter@, num_pops as int),
        ),
{
    let ghost start = yield_constr@;
    proof {
        lemma_absorbed_concat(start, Seq::empty(), Seq::empty());
    }
    let mut i: usize = 1;
    while i < num_pops
        invariant
            1 <= i,
            num_pops <= NUM_GP_CHANNELS,
            i <= num_pops || (num_pops == 0 && i == 1),
            yield_constr@ == start.absorbed(pops_terms(lv@, filter@, i as int)),
        decreases num_pops - i,
    {
        let channel = lv.mem_channels[i];
        let ghost before = pops_terms(lv@, filter@, i as int);
        let ghost mut emitted = before;

        let c = filter.mul(channel.used.sub(Felt::one()));
        emit(yield_constr, c, Ghost(start), Ghost(emitted));
        proof {
            emitted = emitted.push(c@);
        }
        let c = filter.mul(channel.is_read.sub(Felt::one()));
        emit(yield_constr, c, Ghost(start), Ghost(emitted));
        proof {
            emitted = emitted.push(c@);
        }
        let c = filter.mul(channel.addr_context.sub(lv.context));
        emit(yield_constr, c, Ghost(start), Ghost(emitted));
        proof {
            emitted = emitted.push(c@);
        }
        let c = filter.mul(channel.addr_segment.sub(Felt::from_canonical_u64(SEGMENT_STACK)));
        emit(yield_constr, c, Ghost(start), Ghost(emitted));
        proof {
            emitted = emitted.push(c@);
            lemma_reduce_canonical(SEGMENT_STACK as int);
        }
        // The first read is for the second word of the stack.
        let addr_virtual = lv.stack_len.sub(Felt::from_canonical_usize(i + 1));
        let c = filter.mul(channel.addr_virtual.sub(addr_virtual));
        emit(yield_constr, c, Ghost(start), Ghost(emitted));
        proof {
            emitted = emitted.push(c@);
            lemma_reduce_canonical(i + 1);
            assert(emitted =~= before + pop_terms(lv@, filter@, i as int));
        }
        i = i + 1;
    }
    proof {
        if num_pops == 0 {
            assert(pops_terms(lv@, filter@, 1) =~= pops_terms(lv@, filter@, 0));
        }
    }
}

/// Emits the constraints of an operation that pops and does not push.
fn extra_pop_constraints(
    lv: &CpuColumnsView<Felt>,
    nv: &CpuColumnsView<Felt>,
    filter: Felt,
    num_pops: usize,
    yield_constr: &mut ConstraintConsumer,
)
    requires
        num_pops <= NUM_GP_CHANNELS,
    ensures
        final(yield_constr)@ == old(yield_constr)@.absorbed(
            extra_pop_terms(lv@, nv@, filter@, num_pops as int, old(yield_constr)@.z_last),
        ),
{
    let ghost start = yield_constr@;
    let ghost mut emitted = Seq::<int>::empty();
    proof {
        lemma_absorbed_concat(start, Seq::empty(), Seq::empty());
        lemma_reduce_canonical(num_pops as int);
        lemma_reduce_canonical(SEGMENT_STACK as int);
    }
    // The stack is not empty after the pops exactly if `len_diff` is not zero.
    let len_diff = lv.stack_len.sub(Felt::from_canonical_usize(num_pops));
    let new_filter = len_diff.mul(filter);
    // The next row reads one more word: its top.
    let channel = nv.mem_channels[0];

    let c = new_filter.mul(channel.used.sub(Felt::one()));
    emit_transition(yield_constr, c, Ghost(start), Ghost(emitted));
    proof {
        emitted = emitted.push(transition_term(c@, start.z_last));
    }
    let c = new_filter.mul(channel.is_read.sub(Felt::one()));
    emit_transition(yield_constr, c, Ghost(start), Ghost(emitted));
    proof {
        emitted = emitted.push(transition_term(c@, start.z_last));
    }
    let c = new_filter.mul(channel.addr_context.sub(nv.context));
    emit_transition(yield_constr, c, Ghost(start), Ghost(emitted));
    proof {
        emitted = emitted.push(transition_term(c@, start.z_last));
    }
    let c = new_filter.mul(channel.addr_segment.sub(Felt::from_canonical_u64(SEGMENT_STACK)));
    emit_transition(yield_constr, c, Ghost(start), Ghost(emitted));
    proof {
        emitted = emitted.push(transition_term(c@, start.z_last));
    }
    let addr_virtual = nv.stack_len.sub(Felt::one());
    let c = new_filter.mul(channel.addr_virtual.sub(addr_virtual));
    emit_transition(yield_constr, c, Ghost(start), Ghost(emitted));
    proof {
        emitted = emitted.push(transition_term(c@, start.z_last));
    }
    // `stack_inv_aux` is the product of `len_diff` and its claimed inverse.
    let c = filter.mul(len_diff.mul(lv.stack_inv).sub(lv.stack_inv_aux));
    emit(yield_constr, c, Ghost(start), Ghost(emitted));
    proof {
        emitted = emitted.push(c@);
    }
    // Where that product is not 1, the read is switched off.
    let empty_stack_filter = filter.mul(lv.stack_inv_aux.sub(Felt::one()));
    let c = empty_stack_filter.mul(channel.used);
    emit_transition(yield_constr, c, Ghost(start), Ghost(emitted));
    proof {
        emitted = emitted.push(transition_term(c@, start.z_last));
        assert(emitted =~= extra_pop_terms(lv@, nv@, filter@, num_pops as int, start.z_last));
    }
}

/// Emits the constraints of an operation that pushes and pops nothing.
fn push_only_constraints(
    lv: &CpuColumnsView<Felt>,
    filter: Felt,
    yield_constr: &mut ConstraintConsumer,
)
    ensures
        final(yield_constr)@ == old(yield_constr)@.absorbed(push_only_terms(lv@, filter@)),
{
    let ghost start = yield_constr@;
    let ghost mut emitted = Seq::<int>::empty();
    proof {
        lemma_absorbed_concat(start, Seq::empty(), Seq::empty());
        lemma_reduce_canonical(SEGMENT_STACK as int);
    }
    // The stack is not empty exactly if `stack_len` is not zero.
    let new_filter = lv.stack_len.mul(filter);
    // The old top of the stack is written through the last channel.
    let channel = lv.mem_channels[NUM_GP_CHANNELS - 1];

    let c = new_filter.mul(channel.used.sub(Felt::one()));
    emit(yield_constr, c, Ghost(start), Ghost(emitted));
    proof {
        emitted = emitted.push(c@);
    }
    let c = new_filter.mul(channel.is_read);
    emit(yield_constr, c, Ghost(start), Ghost(emitted));
    proof {
        emitted = emitted.push(c@);
    }
    let c = new_filter.mul(channel.addr_context.sub(lv.context));
    emit(yield_constr, c, Ghost(start), Ghost(emitted));
    proof {
        emitted = emitted.push(c@);
    }
    let c = new_filter.mul(channel.addr_segment.sub(Felt::from_canonical_u64(SEGMENT_STACK)));
    emit(yield_constr, c, Ghost(start), Ghost(emitted));
    proof {
        emitted = emitted.push(c@);
    }
    let addr_virtual = lv.stack_len.sub(Felt::one());
    let c = new_filter.mul(channel.addr_virtual.sub(addr_virtual));
    emit(yield_constr, c, Ghost(start), Ghost(emitted));
    proof {
        emitted = emitted.push(c@);
    }
    let top = lv.mem_channels[0];
    let ghost limbs = limb_terms(
        new_filter@,
        felts(channel.value@),
        felts(top.value@),
        VALUE_LIMBS as nat,
    );
    limb_constraints(new_filter, &channel.value, &top.value, false, yield_constr);
    proof {
        lemma_absorbed_concat(start, emitted, limbs);
        emitted = emitted + limbs;
    }
    // Where the stack is empty, the channel is switched off.
    let c = filter.mul(lv.stack_len.mul(lv.stack_inv).sub(lv.stack_inv_aux));
    emit(yield_constr, c, Ghost(start), Ghost(emitted));
    proof {
        emitted = emitted.push(c@);
    }
    let empty_stack_filter = filter.mul(lv.stack_inv_aux.sub(Felt::one()));
    let c = empty_stack_filter.mul(channel.used);
    emit(yield_constr, c, Ghost(start), Ghost(emitted));
    proof {
        emitted = emitted.push(c@);
        assert(limbs =~= limb_terms(
            new_filter@,
            lv@.mem_channels[NUM_GP_CHANNELS - 1].value,
            lv@.mem_channels[0].value,
            VALUE_LIMBS as nat,
        ));
        assert(emitted =~= push_only_terms(lv@, filter@));
    }
}

/// Emits the constraints of an operation that neither pops nor pushes.
fn keep_top_constraints(
    lv: &CpuColumnsView<Felt>,
    nv: &CpuColumnsView<Felt>,
    filter: Felt,
    yield_constr: &mut ConstraintConsumer,
)
    ensures
        final(yield_constr)@ == old(yield_constr)@.absorbed(keep_top_terms(lv@, nv@, filter@)),
{
    let ghost start = yield_constr@;
    proof {
        lemma_absorbed_concat(start, Seq::empty(), Seq::empty());
    }
    let old_top = lv.mem_channels[0];
    let new_top = nv.mem_channels[0];
    let c = filter.mul(new_top.used);
    emit(yield_constr, c, Ghost(start), Ghost(Seq::empty()));
    let ghost limbs = limb_terms(
        filter@,
        felts(old_top.value@),
        felts(new_top.value@),
        VALUE_LIMBS as nat,
    );
    limb_constraints(filter, &old_top.value, &new_top.value, false, yield_constr);
    proof {
        lemma_absorbed_concat(start, Seq::<int>::empty().push(c@), limbs);
        assert(limbs =~= limb_terms(
            filter@,
            lv@.mem_channels[0].value,
            nv@.mem_channels[0].value,
            VALUE_LIMBS as nat,
        ));
        assert(Seq::<int>::empty().push(c@) + limbs =~= keep_top_terms(lv@, nv@, filter@));
    }
}

/// Emits the constraints that make the word in one channel of this row the
/// top of the stack in the next.
fn next_top_constraints(
    lv: &CpuColumnsView<Felt>,
    nv: &CpuColumnsView<Felt>,
    filter: Felt,
    next_top_ch: usize,
    yield_constr: &mut ConstraintConsumer,
)
    requires
        next_top_ch < NUM_GP_CHANNELS,
    ensures
        final(yield_constr)@ == old(yield_constr)@.absorbed(
            next_top_terms(lv@, nv@, filter@, next_top_ch as int, old(yield_constr)@.z_last),
        ),
{
    let ghost start = yield_constr@;
    let source = lv.mem_channels[next_top_ch];
    let new_top = nv.mem_channels[0];
    limb_constraints(filter, &source.value, &new_top.value, true, yield_constr);
    proof {
        assert(transition_limb_terms(
            start.z_last,
            filter@,
            felts(source.value@),
            felts(new_top.value@),
            VALUE_LIMBS as nat,
        ) =~= next_top_terms(lv@, nv@, filter@, next_top_ch as int, start.z_last));
    }
}

/// Emits the constraints that switch off the channels `from` to `to - 1`.
fn unused_channel_constraints(
    lv: &CpuColumnsView<Felt>,
    filter: Felt,
    from: usize,
    to: usize,
    yield_constr: &mut ConstraintConsumer,
)
    requires
        to <= NUM_GP_CHANNELS,
    ensures
        final(yield_constr)@ == old(yield_constr)@.absorbed(
            unused_channel_terms(lv@, filter@, from as int, to as int),
        ),
{
    let ghost start = yield_constr@;
    proof {
        lemma_absorbed_concat(start, Seq::empty(), Seq::empty());
        assert(unused_channel_terms(lv@, filter@, from as int, from as int) =~= Seq::<
            int,
        >::empty());
    }
    let mut i: usize = from;
    while i < to
        invariant
            from <= i,
            to <= NUM_GP_CHANNELS,
            i <= to || (to < from && i == from),
            yield_constr@ == start.absorbed(
                unused_channel_terms(lv@, filter@, from as int, i as int),
            ),
        decreases to - i,
    {
        let channel = lv.mem_channels[i];
        let c = filter.mul(channel.used);
        let ghost emitted = unused_channel_terms(lv@, filter@, from as int, i as int);
        emit(yield_constr, c, Ghost(start), Ghost(emitted));
        assert(emitted.push(c@) =~= unused_channel_terms(
            lv@,
            filter@,
            from as int,
            (i + 1) as int,
        ));
        i = i + 1;
    }
    proof {
        if to < from {
            assert(unused_channel_terms(lv@, filter@, from as int, to as int) =~= Seq::<
                int,
            >::empty());
        }
    }
}

/// Emits the constraints of one kind of operation: those of `stack_behavior`,
/// each multiplied by `filter`, the flag of the operation.
pub fn eval_packed_one(
    lv: &CpuColumnsView<Felt>,
    nv: &CpuColumnsView<Felt>,
    filter: Felt,
    stack_behavior: StackBehavior,
    yield_constr: &mut ConstraintConsumer,
)
    requires
        stack_behavior.wf(),
    ensures
        final(yield_constr)@ == old(yield_constr)@.absorbed(
            stack_terms(lv@, nv@, filter@, stack_behavior, old(yield_constr)@.z_last),
        ),
{
    let ghost start = yield_constr@;
    let ghost mut emitted = Seq::<int>::empty();
    proof {
        lemma_absorbed_concat(start, Seq::empty(), Seq::empty());
    }
    if stack_behavior.num_pops > 0 {
        pop_constraints(lv, filter, stack_behavior.num_pops, yield_constr);
        proof {
            emitted = pops_terms(lv@, filter@, stack_behavior.num_pops as int);
        }
        // An operation that also pushes leaves the new top in a channel of
        // its own row. Otherwise the next row reads it, unless the stack is
        // empty.
        if !stack_behavior.pushes {
            extra_pop_constraints(lv, nv, filter, stack_behavior.num_pops, yield_constr);
            proof {
                let extra = extra_pop_terms(
                    lv@,
                    nv@,
                    filter@,
                    stack_behavior.num_pops as int,
                    start.z_last,
                );
                lemma_absorbed_concat(start, emitted, extra);
                emitted = emitted + extra;
            }
        } else {
            proof {
                assert(emitted + Seq::<int>::empty() =~= emitted);
            }
        }
    } else if stack_behavior.pushes {
        push_only_constraints(lv, filter, yield_constr);
        proof {
            emitted = push_only_terms(lv@, filter@);
        }
    } else {
        keep_top_constraints(lv, nv, filter, yield_constr);
        proof {
            emitted = keep_top_terms(lv@, nv@, filter@);
        }
    }
    assert(emitted == access_terms(lv@, nv@, filter@, stack_behavior, start.z_last));
    assert(yield_constr@ == start.absorbed(emitted));

    if let Some(next_top_ch) = stack_behavior.new_top_stack_channel {
        next_top_constraints(lv, nv, filter, next_top_ch, yield_constr);
        proof {
            let next = next_top_terms(lv@, nv@, filter@, next_top_ch as int, start.z_last);
            lemma_absorbed_concat(start, emitted, next);
            emitted = emitted + next;
        }
    } else {
        proof {
            assert(emitted + Seq::<int>::empty() =~= emitted);
        }
    }

    if stack_behavior.disable_other_channels {
        // The first channel holds the top of the stack and is constrained
        // with the operation itself.
        let from: usize = if stack_behavior.num_pops < 1 {
            1
        } else {
            stack_behavior.num_pops
        };
        let to: usize = if stack_behavior.pushes {
            NUM_GP_CHANNELS - 1
        } else {
            NUM_GP_CHANNELS
        };
        unused_channel_constraints(lv, filter, from, to, yield_constr);
        proof {
            let unused = unused_channel_terms(lv@, filter@, from as int, to as int);
            lemma_absorbed_concat(start, emitted, unused);
            emitted = emitted + unused;
        }
    } else {
        proof {
            assert(emitted + Seq::<int>::empty() =~= emitted);
        }
    }

    let num_pops = Felt::from_canonical_usize(stack_behavior.num_pops);
    let push = if stack_behavior.pushes {
        Felt::one()
    } else {
        Felt::zero()
    };
    let c = filter.mul(nv.stack_len.sub(lv.stack_len.sub(num_pops).add(push)));
    emit_transition(yield_constr, c, Ghost(start), Ghost(emitted));
    proof {
        lemma_reduce_canonical(stack_behavior.num_pops as int);
        assert(emitted.push(transition_term(c@, start.z_last)) =~= stack_terms(
            lv@,
            nv@,
            filter@,
            stack_behavior,
            start.z_last,
        ));
    }
}

/// Emits the stack constraints of a row: for every kind of operation with a
/// behavior in the table, the constraints of that behavior, multiplied by the
/// flag of the operation.
pub fn eval_packed(
    lv: &CpuColumnsView<Felt>,
    nv: &CpuColumnsView<Felt>,
    yield_constr: &mut ConstraintConsumer,
)
    ensures
        final(yield_constr)@ == old(yield_constr)@.absorbed(
            table_terms(lv@, nv@, old(yield_constr)@.z_last, NUM_OPS as int),
        ),
{
    let ghost start = yield_constr@;
    proof {
        lemma_absorbed_concat(start, Seq::empty(), Seq::empty());
    }
    let ops = lv.op.into_vec();
    let behaviors = stack_behaviors().into_vec();
    let mut k: usize = 0;
    while k < NUM_OPS
        invariant
            k <= NUM_OPS,
            ops@ == lv.op.as_seq(),
            behaviors@ == stack_behaviors_table().as_seq(),
            ops@.len() == NUM_OPS,
            behaviors@.len() == NUM_OPS,
            yield_constr@ == start.absorbed(table_terms(lv@, nv@, start.z_last, k as int)),
        decreases NUM_OPS - k,
    {
        let ghost before = table_terms(lv@, nv@, start.z_last, k as int);
        if let Some(stack_behavior) = behaviors[k] {
            proof {
                lemma_table_wf(k as int);
            }
            eval_packed_one(lv, nv, ops[k], stack_behavior, yield_constr);
            proof {
                lemma_absorbed_concat(
                    start,
                    before,
                    stack_terms(lv@, nv@, ops[k as int]@, stack_behavior, start.z_last),
                );
            }
        } else {
            proof {
                assert(before + Seq::<int>::empty() =~= before);
            }
        }
        k = k + 1;
    }
}

/// Whether every term is zero.
pub open spec fn all_zero(terms: Seq<int>) -> bool {
    forall|k: int| 0 <= k < terms.len() ==> terms[k] == 0
}

/// A product with a factor zero is zero.
pub proof fn lemma_fmul_zero()
    ensures
        forall|x: int| #[trigger] fmul(0, x) == 0,
        forall|x: int| #[trigger] fmul(x, 0) == 0,
{
    reveal(fmul);
    lemma_reduce_canonical(0);
    assert forall|x: int| #[trigger] fmul(0, x) == 0 by {
        assert(0 * x == 0) by (nonlinear_arith);
    }
    assert forall|x: int| #[trigger] fmul(x, 0) == 0 by {
        assert(x * 0 == 0) by (nonlinear_arith);
    }
}

proof fn lemma_pops_terms_flag_off(lv: RowValues, num_pops: int)
    ensures
        all_zero(pops_terms(lv, 0, num_pops)),
    decreases num_pops,
{
    lemma_fmul_zero();
    if num_pops > 1 {
        lemma_pops_terms_flag_off(lv, num_pops - 1);
    }
}

/// An operation whose flag is off is not constrained: each of its terms is
/// zero, whatever the rows hold.
pub proof fn lemma_flag_off(lv: RowValues, nv: RowValues, behavior: StackBehavior, z_last: int)
    ensures
        all_zero(stack_terms(lv, nv, 0, behavior, z_last)),
{
    lemma_fmul_zero();
    lemma_pops_terms_flag_off(lv, behavior.num_pops as int);
    assert(all_zero(access_terms(lv, nv, 0, behavior, z_last)));
}

/// Where the constraint on the next stack length is met by an operation
/// whose flag is on, off the last row, the stack has grown by the pushes
/// less the pops.
pub proof fn lemma_stack_len_constraint(
    lv: RowValues,
    nv: RowValues,
    behavior: StackBehavior,
)
    requires
        is_canonical(nv.stack_len),
        stack_len_term(lv, nv, 1, behavior, 1) == 0,
    ensures
        nv.stack_len == fadd(fsub(lv.stack_len, behavior.num_pops as int), behavior.pushed()),
{
    reveal(fmul);
    reveal(fsub);
    reveal(fadd);
    let expected = fadd(fsub(lv.stack_len, behavior.num_pops as int), behavior.pushed());
    let diff = fsub(nv.stack_len, expected);
    lemma_reduce_canonical(nv.stack_len - expected);
    assert(1 * diff == diff) by (nonlinear_arith);
    assert(diff * 1 == diff) by (nonlinear_arith);
    lemma_reduce_canonical(diff);
    lemma_reduce_canonical(
        fsub(lv.stack_len, behavior.num_pops as int) + behavior.pushed(),
    );
    lemma_difference_zero(nv.stack_len, expected);
}

/// Two representatives whose difference reduces to zero are the same.
pub proof fn lemma_difference_zero(a: int, b: int)
    requires
        is_canonical(a),
        is_canonical(b),
        fsub(a, b) == 0,
    ensures
        a == b,
{
    reveal(fsub);
    let m = modulus();
    if a != b {
        if a > b {
            vstd::arithmetic::div_mod::lemma_small_mod((a - b) as nat, m as nat);
        } else {
            vstd::arithmetic::div_mod::lemma_mod_add_multiples_vanish(a - b, m);
            vstd::arithmetic::div_mod::lemma_small_mod((a - b + m) as nat, m as nat);
        }
    }
}

/// Where the constraints on the empty stack are met by a popping operation
/// whose flag is on, off the last row, and the next row reads its top, the
/// claimed inverse is one: the stack is not empty after the pops.
pub proof fn lemma_read_means_not_empty(
    lv: RowValues,
    nv: RowValues,
    num_pops: int,
)
    requires
        is_canonical(lv.stack_inv_aux),
        nv.mem_channels[0].used == 1,
        all_zero(extra_pop_empty_terms(lv, nv, 1, num_pops, 1)),
    ensures
        fmul(fsub(lv.stack_len, num_pops), lv.stack_inv) == 1,
        fsub(lv.stack_len, num_pops) != 0,
{
    reveal(fmul);
    reveal(fsub);
    let terms = extra_pop_empty_terms(lv, nv, 1, num_pops, 1);
    let len_diff = fsub(lv.stack_len, num_pops);
    let product = fmul(len_diff, lv.stack_inv);
    assert(terms[0] == 0);
    assert(terms[1] == 0);
    // The second term: (aux - 1) * used = 0 with used = 1.
    let aux_less_one = fsub(lv.stack_inv_aux, 1);
    lemma_reduce_canonical(lv.stack_inv_aux - 1);
    assert(1 * aux_less_one == aux_less_one) by (nonlinear_arith);
    assert(aux_less_one * 1 == aux_less_one) by (nonlinear_arith);
    lemma_reduce_canonical(aux_less_one);
    lemma_reduce_canonical(1);
    lemma_difference_zero(lv.stack_inv_aux, 1);
    // The first term: len_diff * inv - aux = 0.
    let gap = fsub(product, lv.stack_inv_aux);
    lemma_reduce_canonical(product - lv.stack_inv_aux);
    assert(1 * gap == gap) by (nonlinear_arith);
    lemma_reduce_canonical(gap);
    lemma_reduce_canonical(len_diff * lv.stack_inv);
    lemma_difference_zero(product, lv.stack_inv_aux);
    if len_diff == 0 {
        assert(0 * lv.stack_inv == 0) by (nonlinear_arith);
        lemma_reduce_canonical(0);
    }
}

} // verus!
