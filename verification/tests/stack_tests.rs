use starkcore::circuit::{CircuitBuilder, RecursiveConstraintConsumer, Target};
use starkcore::columns::{
    CpuColumnsView, MemoryChannelView, OpsColumnsView, NUM_GP_CHANNELS, NUM_OPS, VALUE_LIMBS,
};
use starkcore::constraint_consumer::ConstraintConsumer;
use starkcore::field::{Felt, ORDER};
use starkcore::stack::{
    eq_stack_behavior, eval_packed, eval_packed_one, is_zero_stack_behavior, jump_op, jumpi_op,
    mload_general_op, stack_behaviors, StackBehavior,
};
use starkcore::stack_circuit::{eval_ext_circuit, eval_ext_circuit_one};

fn f(n: u64) -> Felt {
    Felt::new(n)
}

fn inverse(a: Felt) -> Felt {
    // a^(ORDER - 2)
    let mut result = Felt::one();
    let mut base = a;
    let mut e = ORDER - 2;
    while e > 0 {
        if e & 1 == 1 {
            result = result.mul(base);
        }
        base = base.square();
        e >>= 1;
    }
    result
}

fn ops_of<T: Copy>(v: &[T]) -> OpsColumnsView<T> {
    assert_eq!(v.len(), NUM_OPS);
    OpsColumnsView {
        binary_op: v[0],
        ternary_op: v[1],
        fp254_op: v[2],
        eq_iszero: v[3],
        logic_op: v[4],
        not: v[5],
        shift: v[6],
        keccak_general: v[7],
        prover_input: v[8],
        pop: v[9],
        jumps: v[10],
        pc: v[11],
        jumpdest: v[12],
        push0: v[13],
        push: v[14],
        dup: v[15],
        swap: v[16],
        get_context: v[17],
        set_context: v[18],
        mload_32bytes: v[19],
        mstore_32bytes: v[20],
        exit_kernel: v[21],
        m_op_general: v[22],
        syscall: v[23],
        exception: v[24],
    }
}

/// The number of cells of a row.
const CELLS: usize = NUM_OPS + 4 + NUM_GP_CHANNELS * (5 + VALUE_LIMBS);

fn row_of<T: Copy>(cells: &[T]) -> CpuColumnsView<T> {
    assert_eq!(cells.len(), CELLS);
    let mut at = NUM_OPS + 4;
    let mut channels = Vec::new();
    for _ in 0..NUM_GP_CHANNELS {
        let mut value = [cells[0]; VALUE_LIMBS];
        for k in 0..VALUE_LIMBS {
            value[k] = cells[at + 5 + k];
        }
        channels.push(MemoryChannelView {
            used: cells[at],
            is_read: cells[at + 1],
            addr_context: cells[at + 2],
            addr_segment: cells[at + 3],
            addr_virtual: cells[at + 4],
            value,
        });
        at += 5 + VALUE_LIMBS;
    }
    CpuColumnsView {
        op: ops_of(&cells[0..NUM_OPS]),
        context: cells[NUM_OPS],
        stack_len: cells[NUM_OPS + 1],
        stack_inv: cells[NUM_OPS + 2],
        stack_inv_aux: cells[NUM_OPS + 3],
        mem_channels: [channels[0], channels[1], channels[2], channels[3], channels[4]],
    }
}

struct Lcg(u64);

impl Lcg {
    fn next(&mut self) -> u64 {
        self.0 = self.0.wrapping_mul(6364136223846793005).wrapping_add(1442695040888963407);
        self.0 ^ (self.0 >> 29)
    }

    fn cells(&mut self) -> Vec<Felt> {
        (0..CELLS).map(|_| f(self.next())).collect()
    }
}

fn zero_row() -> CpuColumnsView<Felt> {
    row_of(&vec![Felt::zero(); CELLS])
}

fn behavior(
    num_pops: usize,
    pushes: bool,
    new_top_stack_channel: Option<usize>,
    disable_other_channels: bool,
) -> StackBehavior {
    StackBehavior { num_pops, pushes, new_top_stack_channel, disable_other_channels }
}

fn pop_behavior() -> StackBehavior {
    behavior(1, false, None, true)
}

/// A row and its successor on which a pop with three words on the stack
/// meets every constraint.
fn valid_pop_rows() -> (CpuColumnsView<Felt>, CpuColumnsView<Felt>) {
    let mut lv = zero_row();
    let mut nv = zero_row();
    lv.op.pop = f(1);
    lv.context = f(5);
    lv.stack_len = f(3);
    lv.stack_inv = inverse(f(2));
    lv.stack_inv_aux = f(1);
    nv.context = f(5);
    nv.stack_len = f(2);
    nv.mem_channels[0].used = f(1);
    nv.mem_channels[0].is_read = f(1);
    nv.mem_channels[0].addr_context = f(5);
    nv.mem_channels[0].addr_segment = f(1);
    nv.mem_channels[0].addr_virtual = f(1);
    (lv, nv)
}

fn packed_one(
    lv: &CpuColumnsView<Felt>,
    nv: &CpuColumnsView<Felt>,
    filter: Felt,
    b: StackBehavior,
    alpha: Felt,
    z_last: Felt,
) -> Felt {
    let mut c = ConstraintConsumer::new(alpha, z_last, f(0), f(0));
    eval_packed_one(lv, nv, filter, b, &mut c);
    c.accumulator()
}

#[test]
fn a_valid_pop_meets_every_constraint() {
    let (lv, nv) = valid_pop_rows();
    let acc = packed_one(&lv, &nv, f(1), pop_behavior(), f(0xdead_beef), f(77));
    assert!(acc.is_zero());
}

#[test]
fn a_wrong_stack_length_is_caught() {
    let (lv, mut nv) = valid_pop_rows();
    nv.stack_len = f(3);
    nv.mem_channels[0].addr_virtual = f(2);
    // Only the last constraint fails: filter * (3 - (3 - 1 + 0)) = 1, as a
    // transition constraint it is folded in as z_last.
    let acc = packed_one(&lv, &nv, f(1), pop_behavior(), f(0xdead_beef), f(77));
    assert_eq!(acc.to_canonical_u64(), 77);
}

#[test]
fn a_used_channel_that_should_be_off_is_caught() {
    let (mut lv, nv) = valid_pop_rows();
    lv.mem_channels[4].used = f(1);
    // The constraint on channel 4 is the last but one: 1 * alpha + 0.
    let acc = packed_one(&lv, &nv, f(1), pop_behavior(), f(1000), f(77));
    assert_eq!(acc.to_canonical_u64(), 1000);
}

#[test]
fn an_empty_stack_after_a_pop_switches_the_read_off() {
    let (mut lv, mut nv) = valid_pop_rows();
    // One word on the stack: after the pop the stack is empty.
    lv.stack_len = f(1);
    lv.stack_inv = f(0);
    lv.stack_inv_aux = f(0);
    nv.stack_len = f(0);
    nv.mem_channels[0].used = f(0);
    nv.mem_channels[0].is_read = f(0);
    nv.mem_channels[0].addr_context = f(0);
    nv.mem_channels[0].addr_segment = f(0);
    nv.mem_channels[0].addr_virtual = f(0);
    let acc = packed_one(&lv, &nv, f(1), pop_behavior(), f(0xdead_beef), f(77));
    assert!(acc.is_zero());
    // With the read left on, the constraint on the empty stack fails.
    nv.mem_channels[0].used = f(1);
    let acc = packed_one(&lv, &nv, f(1), pop_behavior(), f(0xdead_beef), f(77));
    assert!(!acc.is_zero());
}

#[test]
fn a_claimed_inverse_that_is_none_is_caught() {
    let (mut lv, nv) = valid_pop_rows();
    // stack_inv_aux claims 1, but stack_inv is not the inverse of 2.
    lv.stack_inv = f(3);
    let acc = packed_one(&lv, &nv, f(1), pop_behavior(), f(0xdead_beef), f(77));
    assert!(!acc.is_zero());
}

#[test]
fn a_flag_that_is_off_binds_nothing() {
    let mut rng = Lcg(1);
    let lv = row_of(&rng.cells());
    let nv = row_of(&rng.cells());
    for b in [
        behavior(2, true, Some(4), true),
        behavior(1, false, None, true),
        behavior(0, true, None, true),
        behavior(0, false, None, true),
        behavior(5, false, None, false),
    ] {
        let acc = packed_one(&lv, &nv, f(0), b, f(rng.next()), f(rng.next()));
        assert!(acc.is_zero());
    }
}

#[test]
fn a_push_on_a_nonempty_stack() {
    let mut lv = zero_row();
    let mut nv = zero_row();
    let b = behavior(0, true, None, true);
    lv.context = f(9);
    lv.stack_len = f(4);
    lv.stack_inv = inverse(f(4));
    lv.stack_inv_aux = f(1);
    for k in 0..VALUE_LIMBS {
        lv.mem_channels[0].value[k] = f(100 + k as u64);
        lv.mem_channels[4].value[k] = f(100 + k as u64);
    }
    lv.mem_channels[4].used = f(1);
    lv.mem_channels[4].is_read = f(0);
    lv.mem_channels[4].addr_context = f(9);
    lv.mem_channels[4].addr_segment = f(1);
    lv.mem_channels[4].addr_virtual = f(3);
    nv.stack_len = f(5);
    assert!(packed_one(&lv, &nv, f(1), b, f(31), f(77)).is_zero());
    // The word written must be the old top.
    lv.mem_channels[4].value[7] = f(1);
    assert!(!packed_one(&lv, &nv, f(1), b, f(31), f(77)).is_zero());
}

#[test]
fn an_operation_without_stack_effect_keeps_the_top() {
    let mut lv = zero_row();
    let mut nv = zero_row();
    let b = behavior(0, false, None, true);
    lv.stack_len = f(4);
    nv.stack_len = f(4);
    for k in 0..VALUE_LIMBS {
        lv.mem_channels[0].value[k] = f(7 * k as u64);
        nv.mem_channels[0].value[k] = f(7 * k as u64);
    }
    assert!(packed_one(&lv, &nv, f(1), b, f(31), f(77)).is_zero());
    nv.mem_channels[0].value[0] = f(1);
    // The first limb differs by -1; it is followed by 7 limbs, 4 unused
    // channels and the stack length: alpha^12 * (0 - 1).
    let acc = packed_one(&lv, &nv, f(1), b, f(2), f(77));
    assert_eq!(acc.to_canonical_u64(), ORDER - 4096);
}

#[test]
fn a_binary_operation_leaves_its_result_on_top() {
    let mut lv = zero_row();
    let mut nv = zero_row();
    let b = behavior(2, true, Some(NUM_GP_CHANNELS - 1), true);
    lv.context = f(2);
    lv.stack_len = f(6);
    lv.mem_channels[1].used = f(1);
    lv.mem_channels[1].is_read = f(1);
    lv.mem_channels[1].addr_context = f(2);
    lv.mem_channels[1].addr_segment = f(1);
    lv.mem_channels[1].addr_virtual = f(4);
    for k in 0..VALUE_LIMBS {
        lv.mem_channels[4].value[k] = f(50 + k as u64);
        nv.mem_channels[0].value[k] = f(50 + k as u64);
    }
    nv.stack_len = f(5);
    assert!(packed_one(&lv, &nv, f(1), b, f(31), f(77)).is_zero());
    lv.mem_channels[1].addr_virtual = f(5);
    assert!(!packed_one(&lv, &nv, f(1), b, f(31), f(77)).is_zero());
}

#[test]
fn the_table_has_the_behavior_of_each_operation() {
    let t = stack_behaviors();
    let binary = t.binary_op.unwrap();
    assert_eq!(binary.num_pops, 2);
    assert!(binary.pushes);
    assert_eq!(binary.new_top_stack_channel, Some(NUM_GP_CHANNELS - 1));
    assert!(binary.disable_other_channels);
    assert_eq!(t.ternary_op.unwrap().num_pops, 3);
    assert_eq!(t.keccak_general.unwrap().num_pops, 4);
    assert!(!t.shift.unwrap().disable_other_channels);
    let pop = t.pop.unwrap();
    assert_eq!(pop.num_pops, 1);
    assert!(!pop.pushes);
    assert_eq!(pop.new_top_stack_channel, None);
    assert_eq!(t.mload_32bytes.unwrap().new_top_stack_channel, Some(4));
    assert_eq!(t.mstore_32bytes.unwrap().num_pops, 5);
    assert!(t.eq_iszero.is_none());
    assert!(t.jumps.is_none());
    assert!(t.push.is_none());
    assert!(t.dup.is_none());
    assert!(t.swap.is_none());
    assert!(t.set_context.is_none());
    assert!(t.m_op_general.is_none());
    assert!(t.prover_input.is_none());
    let all = t.into_vec();
    assert_eq!(all.len(), NUM_OPS);
    assert_eq!(all.iter().filter(|b| b.is_some()).count(), 17);
}

#[test]
fn eval_packed_with_no_flag_set_binds_nothing() {
    let mut rng = Lcg(2);
    let mut cells = rng.cells();
    for k in 0..NUM_OPS {
        cells[k] = f(0);
    }
    let lv = row_of(&cells);
    let nv = row_of(&rng.cells());
    let mut c = ConstraintConsumer::new(f(rng.next()), f(rng.next()), f(0), f(0));
    eval_packed(&lv, &nv, &mut c);
    assert!(c.accumulator().is_zero());
}

#[test]
fn eval_packed_applies_the_behavior_of_the_flagged_operation() {
    let (lv, mut nv) = valid_pop_rows();
    let mut c = ConstraintConsumer::new(f(0xabcdef), f(77), f(0), f(0));
    eval_packed(&lv, &nv, &mut c);
    assert!(c.accumulator().is_zero());
    nv.stack_len = f(9);
    nv.mem_channels[0].addr_virtual = f(8);
    let mut c = ConstraintConsumer::new(f(0xabcdef), f(77), f(0), f(0));
    eval_packed(&lv, &nv, &mut c);
    assert!(!c.accumulator().is_zero());
}

#[test]
fn eval_packed_is_the_fold_over_the_table() {
    let mut rng = Lcg(3);
    let lv = row_of(&rng.cells());
    let nv = row_of(&rng.cells());
    let alpha = f(rng.next());
    let z_last = f(rng.next());
    let mut whole = ConstraintConsumer::new(alpha, z_last, f(0), f(0));
    eval_packed(&lv, &nv, &mut whole);
    let mut parts = ConstraintConsumer::new(alpha, z_last, f(0), f(0));
    let flags = lv.op.into_vec();
    let behaviors = stack_behaviors().into_vec();
    for k in 0..NUM_OPS {
        if let Some(b) = behaviors[k] {
            eval_packed_one(&lv, &nv, flags[k], b, &mut parts);
        }
    }
    assert!(whole.accumulator().equals(parts.accumulator()));
}

/// A builder with one input wire for each cell of two rows and for the
/// weights of a consumer, and what those wires carry.
struct Wired {
    builder: CircuitBuilder,
    lv: CpuColumnsView<Target>,
    nv: CpuColumnsView<Target>,
    consumer: RecursiveConstraintConsumer,
    inputs: Vec<Felt>,
}

fn wire_up(
    lv: &[Felt],
    nv: &[Felt],
    alpha: Felt,
    z_last: Felt,
) -> Wired {
    let mut builder = CircuitBuilder::new();
    let mut inputs = Vec::new();
    let mut lv_wires = Vec::new();
    for &cell in lv {
        lv_wires.push(builder.add_virtual_extension_target());
        inputs.push(cell);
    }
    let mut nv_wires = Vec::new();
    for &cell in nv {
        nv_wires.push(builder.add_virtual_extension_target());
        inputs.push(cell);
    }
    let alpha_wire = builder.add_virtual_extension_target();
    inputs.push(alpha);
    let z_last_wire = builder.add_virtual_extension_target();
    inputs.push(z_last);
    let zero = builder.constant_extension(Felt::zero());
    let consumer = RecursiveConstraintConsumer::new(zero, alpha_wire, z_last_wire, zero, zero);
    Wired { builder, lv: row_of(&lv_wires), nv: row_of(&nv_wires), consumer, inputs }
}

fn circuit_one(
    lv: &[Felt],
    nv: &[Felt],
    flag: usize,
    b: StackBehavior,
    alpha: Felt,
    z_last: Felt,
) -> Felt {
    let mut w = wire_up(lv, nv, alpha, z_last);
    let filter = w.lv.op.into_vec()[flag];
    eval_ext_circuit_one(&mut w.builder, &w.lv, &w.nv, filter, b, &mut w.consumer);
    let values = w.builder.evaluate(&w.inputs);
    values[w.consumer.accumulator().index]
}

#[test]
fn circuit_and_packed_form_agree_on_every_behavior() {
    let mut rng = Lcg(4);
    let mut behaviors: Vec<StackBehavior> =
        stack_behaviors().into_vec().into_iter().flatten().collect();
    behaviors.push(behavior(1, false, None, false));
    behaviors.push(behavior(2, false, None, false));
    behaviors.push(behavior(3, true, None, false));
    behaviors.push(behavior(2, true, Some(2), true));
    behaviors.push(behavior(1, true, Some(2), true));
    behaviors.push(behavior(5, true, Some(0), true));
    behaviors.push(behavior(0, false, Some(3), false));
    for b in behaviors {
        for flag in [0usize, 9, 24] {
            let lv = rng.cells();
            let nv = rng.cells();
            let alpha = f(rng.next());
            let z_last = f(rng.next());
            let packed = packed_one(
                &row_of(&lv),
                &row_of(&nv),
                lv[flag],
                b,
                alpha,
                z_last,
            );
            let circuit = circuit_one(&lv, &nv, flag, b, alpha, z_last);
            assert!(packed.equals(circuit));
        }
    }
}

#[test]
fn circuit_and_packed_form_agree_on_a_valid_pop() {
    let (lv, nv) = valid_pop_rows();
    let lv_cells = cells_of(&lv);
    let nv_cells = cells_of(&nv);
    let acc = circuit_one(&lv_cells, &nv_cells, 9, pop_behavior(), f(0xdead_beef), f(77));
    assert!(acc.is_zero());
    let mut bad = nv;
    bad.stack_len = f(3);
    bad.mem_channels[0].addr_virtual = f(2);
    let acc = circuit_one(&lv_cells, &cells_of(&bad), 9, pop_behavior(), f(0xdead_beef), f(77));
    assert_eq!(acc.to_canonical_u64(), 77);
}

fn cells_of(row: &CpuColumnsView<Felt>) -> Vec<Felt> {
    let mut cells = row.op.into_vec();
    cells.push(row.context);
    cells.push(row.stack_len);
    cells.push(row.stack_inv);
    cells.push(row.stack_inv_aux);
    for channel in row.mem_channels.iter() {
        cells.push(channel.used);
        cells.push(channel.is_read);
        cells.push(channel.addr_context);
        cells.push(channel.addr_segment);
        cells.push(channel.addr_virtual);
        cells.extend_from_slice(&channel.value);
    }
    cells
}

#[test]
fn eval_ext_circuit_agrees_with_eval_packed() {
    let mut rng = Lcg(5);
    for _ in 0..3 {
        let lv = rng.cells();
        let nv = rng.cells();
        let alpha = f(rng.next());
        let z_last = f(rng.next());
        let mut c = ConstraintConsumer::new(alpha, z_last, f(0), f(0));
        eval_packed(&row_of(&lv), &row_of(&nv), &mut c);
        let mut w = wire_up(&lv, &nv, alpha, z_last);
        eval_ext_circuit(&mut w.builder, &w.lv, &w.nv, &mut w.consumer);
        let values = w.builder.evaluate(&w.inputs);
        assert!(c.accumulator().equals(values[w.consumer.accumulator().index]));
    }
}

#[test]
fn the_builder_appends_one_gate_for_each_operation() {
    let mut b = CircuitBuilder::new();
    let x = b.add_virtual_extension_target();
    let y = b.add_virtual_extension_target();
    let three = b.constant_extension(f(3));
    let p = b.mul_extension(x, y);
    let d = b.sub_extension(p, three);
    let ms = b.mul_sub_extension(x, y, three);
    let ma = b.scalar_mul_add_extension(x, y, three);
    let ar = b.arithmetic_extension(f(2), f(5), x, y, three);
    assert_eq!(b.num_gates(), 8);
    assert_eq!(ar.index, 7);
    let v = b.evaluate(&vec![f(10), f(4)]);
    assert_eq!(v[three.index].to_canonical_u64(), 3);
    assert_eq!(v[p.index].to_canonical_u64(), 40);
    assert_eq!(v[d.index].to_canonical_u64(), 37);
    assert_eq!(v[ms.index].to_canonical_u64(), 37);
    assert_eq!(v[ma.index].to_canonical_u64(), 43);
    // 2 * 10 * 4 + 5 * 3
    assert_eq!(v[ar.index].to_canonical_u64(), 95);
}

#[test]
fn the_recursive_consumer_folds_like_the_numeric_one() {
    let mut b = CircuitBuilder::new();
    let alpha = b.add_virtual_extension_target();
    let z_last = b.add_virtual_extension_target();
    let c1 = b.add_virtual_extension_target();
    let c2 = b.add_virtual_extension_target();
    let zero = b.constant_extension(f(0));
    let mut rc = RecursiveConstraintConsumer::new(zero, alpha, z_last, zero, zero);
    rc.constraint(&mut b, c1);
    rc.constraint_transition(&mut b, c2);
    let v = b.evaluate(&vec![f(3), f(10), f(5), f(2)]);
    // 5 * 3 + 2 * 10
    assert_eq!(v[rc.accumulator().index].to_canonical_u64(), 35);
}

#[test]
fn the_behaviors_of_operations_that_the_table_leaves_out() {
    let jump = jump_op().unwrap();
    assert_eq!((jump.num_pops, jump.pushes), (1, false));
    assert_eq!(jump.new_top_stack_channel, None);
    assert!(!jump.disable_other_channels);
    let jumpi = jumpi_op().unwrap();
    assert_eq!((jumpi.num_pops, jumpi.pushes), (2, false));
    assert!(!jumpi.disable_other_channels);
    let mload = mload_general_op().unwrap();
    assert_eq!((mload.num_pops, mload.pushes), (3, true));
    assert_eq!(mload.new_top_stack_channel, None);
    let eq = eq_stack_behavior().unwrap();
    assert_eq!((eq.num_pops, eq.pushes), (2, true));
    assert_eq!(eq.new_top_stack_channel, Some(2));
    assert!(eq.disable_other_channels);
    let is_zero = is_zero_stack_behavior().unwrap();
    assert_eq!((is_zero.num_pops, is_zero.pushes), (1, true));
    assert_eq!(is_zero.new_top_stack_channel, Some(2));
    assert!(is_zero.disable_other_channels);
}

#[test]
fn a_met_stack_length_constraint_fixes_the_next_length() {
    // With the flag on and z_last one, the last term is
    // next - (length - pops + pushes).
    let mut lv = zero_row();
    let mut nv = zero_row();
    lv.stack_len = f(10);
    for (b, next) in [
        (behavior(2, true, None, false), 9u64),
        (behavior(0, true, None, false), 11),
        (behavior(5, false, None, false), 5),
        (behavior(0, false, None, false), 10),
    ] {
        nv.stack_len = f(next);
        let mut ok = ConstraintConsumer::new(f(0), f(1), f(0), f(0));
        eval_packed_one(&lv, &nv, f(1), b, &mut ok);
        // With alpha zero only the last term is left.
        assert!(ok.accumulator().is_zero());
        nv.stack_len = f(next + 1);
        let mut bad = ConstraintConsumer::new(f(0), f(1), f(0), f(0));
        eval_packed_one(&lv, &nv, f(1), b, &mut bad);
        assert_eq!(bad.accumulator().to_canonical_u64(), 1);
    }
}
