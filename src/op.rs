//! Instructions and the helpers that append them to a program.
use vstd::prelude::*;

verus! {

/// What an instruction does.
#[derive(Clone, Copy, Debug, PartialEq, Eq, Structural)]
pub enum OpKind {
    /// Add the operand to the current cell, modulo 256.
    Increment,
    /// Subtract the operand from the current cell, modulo 256.
    Decrement,
    /// Read one input byte into the current cell.
    ReadByte,
    /// Emit the current cell as a raw byte, operand times.
    WriteByteAsChar,
    /// Emit the current cell as decimal text, operand times.
    WriteByteAsNumber,
    /// Move the tape pointer left by the operand.
    MoveLeft,
    /// Move the tape pointer right by the operand.
    MoveRight,
    /// Jump to the operand when the current cell is zero.
    BranchIfZero,
    /// Jump to the operand when the current cell is not zero.
    BranchIfNonZero,
}

/// One instruction: a kind and its operand.
///
/// For the arithmetic, move and output kinds the operand is a repeat count;
/// for the two branch kinds it is the index of the jump target. The operand
/// is a full `usize`, so folded runs and jump targets are not limited to
/// eight bits.
#[derive(Clone, Copy, Debug, PartialEq, Eq, Structural)]
pub struct Op {
    pub kind: OpKind,
    pub operand: usize,
}

/// The program after appending an instruction of `kind` with folding: when the
/// last instruction has the same kind its operand grows by one, else a new
/// instruction with `operand` is appended.
pub open spec fn folded_push(ops: Seq<Op>, kind: OpKind, operand: usize) -> Seq<Op> {
    if ops.len() > 0 && ops.last().kind == kind {
        ops.update(ops.len() - 1, Op { kind, operand: (ops.last().operand + 1) as usize })
    } else {
        ops.push(Op { kind, operand })
    }
}

/// Appending with folding does not overflow the last operand.
pub open spec fn can_fold(ops: Seq<Op>, kind: OpKind) -> bool {
    ops.len() > 0 && ops.last().kind == kind ==> ops.last().operand < usize::MAX
}

impl Op {
    /// An instruction of `kind` with `operand`.
    pub fn new(kind: OpKind, operand: usize) -> (r: Op)
        ensures
            r == (Op { kind, operand }),
    {
        Op { kind, operand }
    }

    /// Appends one occurrence of `kind`, folding it into the last instruction
    /// when that has the same kind.
    pub fn push(ops: &mut Vec<Op>, kind: OpKind)
        requires
            can_fold(old(ops)@, kind),
        ensures
            final(ops)@ == folded_push(old(ops)@, kind, 1),
    {
        Op::push_custom(ops, kind, 1);
    }

    /// Appends `kind` with folding; a new instruction starts at `operand`.
    pub fn push_custom(ops: &mut Vec<Op>, kind: OpKind, operand: usize)
        requires
            can_fold(old(ops)@, kind),
        ensures
            final(ops)@ == folded_push(old(ops)@, kind, operand),
    {
        let n = ops.len();
        if n > 0 && ops[n - 1].kind == kind {
            let last = ops[n - 1];
            ops.set(n - 1, Op::new(kind, last.operand + 1));
            return;
        }
        ops.push(Op::new(kind, operand));
    }

    /// Appends `kind` with folding, exactly as `push_custom` does; a new
    /// instruction starts at `operand`.
    pub fn push_custom_op(ops: &mut Vec<Op>, kind: OpKind, operand: usize)
        requires
            can_fold(old(ops)@, kind),
        ensures
            final(ops)@ == folded_push(old(ops)@, kind, operand),
    {
        Op::push_custom(ops, kind, operand);
    }
}

} // verus!
