//! One row of the CPU table, as far as the stack constraints read it.

use crate::field::Felt;
use vstd::prelude::*;

verus! {

/// The number of general-purpose memory channels of a row.
pub const NUM_GP_CHANNELS: usize = 5;

/// The number of limbs of a memory word.
pub const VALUE_LIMBS: usize = 8;

/// The number of operation flags of a row.
pub const NUM_OPS: usize = 25;

/// The number of the memory segment that holds the stack.
pub const SEGMENT_STACK: u64 = 1;

/// One value per kind of operation; in a row, the flag of each operation.
#[derive(Clone, Copy, Debug)]
pub struct OpsColumnsView<T> {
    pub binary_op: T,
    pub ternary_op: T,
    pub fp254_op: T,
    pub eq_iszero: T,
    pub logic_op: T,
    pub not: T,
    pub shift: T,
    pub keccak_general: T,
    pub prover_input: T,
    pub pop: T,
    pub jumps: T,
    pub pc: T,
    pub jumpdest: T,
    pub push0: T,
    pub push: T,
    pub dup: T,
    pub swap: T,
    pub get_context: T,
    pub set_context: T,
    pub mload_32bytes: T,
    pub mstore_32bytes: T,
    pub exit_kernel: T,
    pub m_op_general: T,
    pub syscall: T,
    pub exception: T,
}

impl<T> OpsColumnsView<T> {
    /// The values in the order of the columns.
    pub open spec fn as_seq(self) -> Seq<T> {
        seq![
            self.binary_op,
            self.ternary_op,
            self.fp254_op,
            self.eq_iszero,
            self.logic_op,
            self.not,
            self.shift,
            self.keccak_general,
            self.prover_input,
            self.pop,
            self.jumps,
            self.pc,
            self.jumpdest,
            self.push0,
            self.push,
            self.dup,
            self.swap,
            self.get_context,
            self.set_context,
            self.mload_32bytes,
            self.mstore_32bytes,
            self.exit_kernel,
            self.m_op_general,
            self.syscall,
            self.exception,
        ]
    }

    /// The values in the order of the columns.
    pub fn into_vec(self) -> (v: Vec<T>)
        ensures
            v@ == self.as_seq(),
            v@.len() == NUM_OPS,
    {
        let mut v: Vec<T> = Vec::new();
        v.push(self.binary_op);
        v.push(self.ternary_op);
        v.push(self.fp254_op);
        v.push(self.eq_iszero);
        v.push(self.logic_op);
        v.push(self.not);
        v.push(self.shift);
        v.push(self.keccak_general);
        v.push(self.prover_input);
        v.push(self.pop);
        v.push(self.jumps);
        v.push(self.pc);
        v.push(self.jumpdest);
        v.push(self.push0);
        v.push(self.push);
        v.push(self.dup);
        v.push(self.swap);
        v.push(self.get_context);
        v.push(self.set_context);
        v.push(self.mload_32bytes);
        v.push(self.mstore_32bytes);
        v.push(self.exit_kernel);
        v.push(self.m_op_general);
        v.push(self.syscall);
        v.push(self.exception);
        assert(v@ =~= self.as_seq());
        v
    }
}

/// One memory channel of a row.
#[derive(Clone, Copy, Debug)]
pub struct MemoryChannelView<T> {
    /// 1 if the channel is used in this row, else 0.
    pub used: T,
    /// 1 if the channel reads, 0 if it writes.
    pub is_read: T,
    pub addr_context: T,
    pub addr_segment: T,
    pub addr_virtual: T,
    pub value: [T; VALUE_LIMBS],
}

/// One row of the CPU table.
#[derive(Clone, Copy, Debug)]
pub struct CpuColumnsView<T> {
    /// The flag of each operation.
    pub op: OpsColumnsView<T>,
    /// The context in which the row executes.
    pub context: T,
    /// The number of words on the stack before the operation.
    pub stack_len: T,
    /// The claimed inverse of the stack length that is tested for zero.
    pub stack_inv: T,
    /// The product of that stack length and its claimed inverse.
    pub stack_inv_aux: T,
    pub mem_channels: [MemoryChannelView<T>; NUM_GP_CHANNELS],
}

/// A memory channel over representatives.
pub struct ChannelValues {
    pub used: int,
    pub is_read: int,
    pub addr_context: int,
    pub addr_segment: int,
    pub addr_virtual: int,
    pub value: Seq<int>,
}

/// A row over representatives.
pub struct RowValues {
    pub op: Seq<int>,
    pub context: int,
    pub stack_len: int,
    pub stack_inv: int,
    pub stack_inv_aux: int,
    pub mem_channels: Seq<ChannelValues>,
}

impl<T> MemoryChannelView<T> {
    /// The channel with every cell read through `f`.
    pub open spec fn values_by(self, f: spec_fn(T) -> int) -> ChannelValues {
        ChannelValues {
            used: f(self.used),
            is_read: f(self.is_read),
            addr_context: f(self.addr_context),
            addr_segment: f(self.addr_segment),
            addr_virtual: f(self.addr_virtual),
            value: Seq::new(VALUE_LIMBS as nat, |k: int| f(self.value@[k])),
        }
    }
}

impl<T> CpuColumnsView<T> {
    /// The row with every cell read through `f`.
    pub open spec fn values_by(self, f: spec_fn(T) -> int) -> RowValues {
        RowValues {
            op: Seq::new(NUM_OPS as nat, |k: int| f(self.op.as_seq()[k])),
            context: f(self.context),
            stack_len: f(self.stack_len),
            stack_inv: f(self.stack_inv),
            stack_inv_aux: f(self.stack_inv_aux),
            mem_channels: Seq::new(
                NUM_GP_CHANNELS as nat,
                |i: int| self.mem_channels@[i].values_by(f),
            ),
        }
    }
}

/// Reads a field element as its representative.
pub open spec fn felt_value() -> spec_fn(Felt) -> int {
    |x: Felt| x@
}

impl View for CpuColumnsView<Felt> {
    type V = RowValues;

    open spec fn view(&self) -> RowValues {
        self.values_by(felt_value())
    }
}

} // verus!
