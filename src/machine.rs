//! The virtual machine: a tape of byte cells, a tape pointer and an
//! instruction pointer, driven one instruction at a time.
use vstd::prelude::*;
use crate::op::{Op, OpKind};

verus! {

/// The number of cells on the tape.
pub const TAPE_LEN: usize = 30000;

/// The machine as a mathematical value.
pub struct MachineState {
    pub tape: Seq<u8>,
    pub pointer: int,
    pub ip: int,
}

/// What a single step did.
#[derive(Clone, Copy, Debug, PartialEq, Eq, Structural)]
pub enum Status {
    /// An instruction was executed.
    Running,
    /// The instruction pointer is past the end of the program; nothing was done.
    Halted,
    /// A move would have taken the tape pointer off the tape; nothing was done.
    PointerOutOfRange,
}

/// How a bounded run ended.
#[derive(Clone, Copy, Debug, PartialEq, Eq, Structural)]
pub enum RunStatus {
    /// The program ran past its last instruction.
    Finished,
    /// The step budget was used up first.
    OutOfFuel,
    /// A move would have taken the tape pointer off the tape.
    PointerOutOfRange,
}

/// The tape pointer after `op`, or `None` when the move leaves the tape.
///
/// A move wraps only when it starts on the boundary cell: right from the
/// last cell goes to the first, left from the first goes to the last. Any
/// other move adds or subtracts the whole operand, and a move that would
/// overshoot an end of the tape is out of range.
pub open spec fn moved(pointer: int, op: Op) -> Option<int> {
    if op.kind == OpKind::MoveRight {
        if pointer == TAPE_LEN - 1 {
            Some(0)
        } else if pointer + op.operand < TAPE_LEN {
            Some(pointer + op.operand)
        } else {
            None
        }
    } else if op.kind == OpKind::MoveLeft {
        if pointer == 0 {
            Some(TAPE_LEN - 1)
        } else if op.operand <= pointer {
            Some(pointer - op.operand)
        } else {
            None
        }
    } else {
        Some(pointer)
    }
}

/// The current cell after `op`; arithmetic is modulo 256, and a read at the
/// end of input (`None`) leaves the cell as it was.
pub open spec fn cell_after(cell: u8, op: Op, input: Option<u8>) -> u8 {
    if op.kind == OpKind::Increment {
        ((cell + op.operand) % 256) as u8
    } else if op.kind == OpKind::Decrement {
        ((cell - op.operand) % 256) as u8
    } else if op.kind == OpKind::ReadByte {
        match input {
            Some(b) => b,
            None => cell,
        }
    } else {
        cell
    }
}

/// The instruction pointer after `op` at `ip`, with `cell` the current cell.
pub open spec fn ip_after(ip: int, cell: u8, op: Op) -> int {
    if op.kind == OpKind::BranchIfZero && cell == 0 {
        op.operand as int
    } else if op.kind == OpKind::BranchIfNonZero && cell != 0 {
        op.operand as int
    } else {
        ip + 1
    }
}

/// `s` written `n` times.
pub open spec fn repeat(s: Seq<u8>, n: nat) -> Seq<u8>
    decreases n,
{
    if n == 0 {
        Seq::empty()
    } else {
        repeat(s, (n - 1) as nat) + s
    }
}

/// The ASCII decimal numeral of `b`, without leading zeros.
pub open spec fn decimal(b: u8) -> Seq<u8> {
    if b < 10 {
        seq![(48 + b) as u8]
    } else if b < 100 {
        seq![(48 + b / 10) as u8, (48 + b % 10) as u8]
    } else {
        seq![(48 + b / 100) as u8, (48 + (b / 10) % 10) as u8, (48 + b % 10) as u8]
    }
}

/// The bytes that `op` emits when the current cell holds `cell`.
pub open spec fn output_of(cell: u8, op: Op) -> Seq<u8> {
    if op.kind == OpKind::WriteByteAsChar {
        repeat(seq![cell], op.operand as nat)
    } else if op.kind == OpKind::WriteByteAsNumber {
        repeat(decimal(cell), op.operand as nat)
    } else {
        Seq::empty()
    }
}

/// A machine whose tape has the right size and whose pointer is on it.
pub open spec fn state_wf(m: MachineState) -> bool {
    m.tape.len() == TAPE_LEN && 0 <= m.pointer < TAPE_LEN && m.ip >= 0
}

/// The machine after executing `op`, the instruction at `m.ip`, when the move
/// it makes stays on the tape.
pub open spec fn next_state(m: MachineState, op: Op, input: Option<u8>) -> MachineState {
    let cell = m.tape[m.pointer];
    MachineState {
        tape: m.tape.update(m.pointer, cell_after(cell, op, input)),
        pointer: moved(m.pointer, op)->Some_0,
        ip: ip_after(m.ip, cell, op),
    }
}

/// A fresh machine: every cell zero, both pointers at zero.
pub open spec fn initial_state() -> MachineState {
    MachineState { tape: Seq::new(TAPE_LEN as nat, |i: int| 0u8), pointer: 0, ip: 0 }
}

/// The outcome and output of running `prog` from `m` for at most `fuel`
/// steps, feeding reads from `input` one byte each.
pub open spec fn run_from(prog: Seq<Op>, m: MachineState, input: Seq<u8>, fuel: nat) -> (
    RunStatus,
    Seq<u8>,
)
    decreases fuel,
{
    if m.ip >= prog.len() {
        (RunStatus::Finished, Seq::empty())
    } else if fuel == 0 {
        (RunStatus::OutOfFuel, Seq::empty())
    } else {
        let op = prog[m.ip];
        if moved(m.pointer, op) is None {
            (RunStatus::PointerOutOfRange, Seq::empty())
        } else {
            let reads = op.kind == OpKind::ReadByte && input.len() > 0;
            let byte = if reads {
                Some(input[0])
            } else {
                None
            };
            let rest = if reads {
                input.drop_first()
            } else {
                input
            };
            let after = run_from(prog, next_state(m, op, byte), rest, (fuel - 1) as nat);
            (after.0, output_of(m.tape[m.pointer], op) + after.1)
        }
    }
}

/// The virtual machine.
pub struct Machine {
    tape: Vec<u8>,
    pointer: usize,
    ip: usize,
}

impl View for Machine {
    type V = MachineState;

    closed spec fn view(&self) -> MachineState {
        MachineState { tape: self.tape@, pointer: self.pointer as int, ip: self.ip as int }
    }
}

/// Appends the decimal numeral of `b` to `out`.
fn push_decimal(out: &mut Vec<u8>, b: u8)
    ensures
        final(out)@ == old(out)@ + decimal(b),
{
    if b >= 100 {
        out.push(48 + b / 100);
    }
    if b >= 10 {
        out.push(48 + (b / 10) % 10);
    }
    out.push(48 + b % 10);
    assert(final(out)@ =~= old(out)@ + decimal(b));
}

proof fn lemma_repeat_step(s: Seq<u8>, n: nat)
    ensures
        repeat(s, n + 1) == repeat(s, n) + s,
{
}

impl Machine {
    /// A machine with a zeroed tape and both pointers at zero.
    pub fn new() -> (r: Machine)
        ensures
            r@ == initial_state(),
            state_wf(r@),
    {
        let mut tape: Vec<u8> = Vec::new();
        let mut i: usize = 0;
        while i < TAPE_LEN
            invariant
                i <= TAPE_LEN,
                tape@ == Seq::new(i as nat, |k: int| 0u8),
            decreases TAPE_LEN - i,
        {
            tape.push(0);
            i = i + 1;
            assert(tape@ =~= Seq::new(i as nat, |k: int| 0u8));
        }
        Machine { tape, pointer: 0, ip: 0 }
    }

    /// The tape pointer.
    pub fn pointer(&self) -> (r: usize)
        ensures
            r == self@.pointer,
    {
        self.pointer
    }

    /// The instruction pointer.
    pub fn ip(&self) -> (r: usize)
        ensures
            r == self@.ip,
    {
        self.ip
    }

    /// The cell at `index`.
    pub fn cell(&self, index: usize) -> (r: u8)
        requires
            state_wf(self@),
            index < TAPE_LEN,
        ensures
            r == self@.tape[index as int],
    {
        self.tape[index]
    }

    /// Whether the next step executes a read, so that the caller should
    /// fetch an input byte first.
    pub fn needs_input(&self, program: &Vec<Op>) -> (r: bool)
        ensures
            r == (self@.ip < program@.len() && program@[self@.ip].kind == OpKind::ReadByte),
    {
        self.ip < program.len() && program[self.ip].kind == OpKind::ReadByte
    }

    /// Executes the instruction at the instruction pointer and appends what
    /// it writes to `out`.
    ///
    /// `input` is the byte a read stores; `None` means the input is at its
    /// end, and the read leaves the cell unchanged. Other instructions ignore
    /// `input`.
    pub fn step(&mut self, program: &Vec<Op>, input: Option<u8>, out: &mut Vec<u8>) -> (r: Status)
        requires
            state_wf(old(self)@),
        ensures
            state_wf(final(self)@),
            old(self)@.ip >= program@.len() ==> r == Status::Halted && final(self)@ == old(self)@
                && final(out)@ == old(out)@,
            old(self)@.ip < program@.len() && moved(
                old(self)@.pointer,
                program@[old(self)@.ip],
            ) is None ==> r == Status::PointerOutOfRange && final(self)@ == old(self)@
                && final(out)@ == old(out)@,
            old(self)@.ip < program@.len() && moved(old(self)@.pointer, program@[old(self)@.ip])
                is Some ==> r == Status::Running && final(self)@ == next_state(
                old(self)@,
                program@[old(self)@.ip],
                input,
            ) && final(out)@ == old(out)@ + output_of(
                old(self)@.tape[old(self)@.pointer],
                program@[old(self)@.ip],
            ),
    {
        if self.ip >= program.len() {
            return Status::Halted;
        }
        let op = program[self.ip];
        let cell = self.tape[self.pointer];
        let new_pointer: usize;
        if op.kind == OpKind::MoveRight {
            if self.pointer == TAPE_LEN - 1 {
                new_pointer = 0;
            } else if op.operand < TAPE_LEN - self.pointer {
                new_pointer = self.pointer + op.operand;
            } else {
                return Status::PointerOutOfRange;
            }
        } else if op.kind == OpKind::MoveLeft {
            if self.pointer == 0 {
                new_pointer = TAPE_LEN - 1;
            } else if op.operand <= self.pointer {
                new_pointer = self.pointer - op.operand;
            } else {
                return Status::PointerOutOfRange;
            }
        } else {
            new_pointer = self.pointer;
        }
        let new_cell: u8 = if op.kind == OpKind::Increment {
            ((cell as usize % 256 + op.operand % 256) % 256) as u8
        } else if op.kind == OpKind::Decrement {
            ((cell as usize + 256 - op.operand % 256) % 256) as u8
        } else if op.kind == OpKind::ReadByte {
            match input {
                Some(b) => b,
                None => cell,
            }
        } else {
            cell
        };
        assert(new_cell == cell_after(cell, op, input)) by (nonlinear_arith)
            requires
                op.kind == OpKind::Increment ==> new_cell == ((cell as usize % 256 + op.operand
                    % 256) % 256) as u8,
                op.kind == OpKind::Decrement ==> new_cell == ((cell as usize + 256 - op.operand
                    % 256) % 256) as u8,
                op.kind == OpKind::ReadByte ==> new_cell == match input {
                    Some(b) => b,
                    None => cell,
                },
                op.kind != OpKind::Increment && op.kind != OpKind::Decrement && op.kind
                    != OpKind::ReadByte ==> new_cell == cell,
        {
        }
        self.tape.set(self.pointer, new_cell);
        let count = op.operand;
        if op.kind == OpKind::WriteByteAsChar || op.kind == OpKind::WriteByteAsNumber {
            let ghost start = out@;
            let ghost unit = if op.kind == OpKind::WriteByteAsChar {
                seq![cell]
            } else {
                decimal(cell)
            };
            let mut i: usize = 0;
            while i < count
                invariant
                    i <= count,
                    unit == (if op.kind == OpKind::WriteByteAsChar {
                        seq![cell]
                    } else {
                        decimal(cell)
                    }),
                    out@ == start + repeat(unit, i as nat),
                decreases count - i,
            {
                if op.kind == OpKind::WriteByteAsChar {
                    out.push(cell);
                } else {
                    push_decimal(out, cell);
                }
                proof {
                    lemma_repeat_step(unit, i as nat);
                }
                assert(out@ =~= start + repeat(unit, (i + 1) as nat));
                i = i + 1;
            }
        } else {
            assert(out@ =~= old(out)@ + output_of(cell, op));
        }
        self.pointer = new_pointer;
        self.ip = if op.kind == OpKind::BranchIfZero && cell == 0 {
            op.operand
        } else if op.kind == OpKind::BranchIfNonZero && cell != 0 {
            op.operand
        } else {
            self.ip + 1
        };
        Status::Running
    }
}

/// The outcome and output of a bounded run.
pub struct RunOutput {
    pub status: RunStatus,
    pub output: Vec<u8>,
}

/// Runs `program` on a fresh machine for at most `fuel` steps, reading input
/// bytes from `input` in order; once `input` is used up, reads leave the
/// current cell unchanged.
pub fn run(program: &Vec<Op>, input: &Vec<u8>, fuel: usize) -> (r: RunOutput)
    ensures
        (r.status, r.output@) == run_from(program@, initial_state(), input@, fuel as nat),
{
    let mut m = Machine::new();
    let mut out: Vec<u8> = Vec::new();
    let mut pos: usize = 0;
    let mut left: usize = fuel;
    let ghost whole = run_from(program@, initial_state(), input@, fuel as nat);
    assert(input@.subrange(0, input@.len() as int) =~= input@);
    loop
        invariant
            state_wf(m@),
            pos <= input@.len(),
            whole == run_from(program@, initial_state(), input@, fuel as nat),
            whole.0 == run_from(program@, m@, input@.subrange(pos as int, input@.len() as int), left as nat).0,
            whole.1 == out@ + run_from(program@, m@, input@.subrange(pos as int, input@.len() as int), left as nat).1,
        decreases left,
    {
        let ghost rest = input@.subrange(pos as int, input@.len() as int);
        if m.ip() >= program.len() {
            assert(out@ + Seq::<u8>::empty() =~= out@);
            return RunOutput { status: RunStatus::Finished, output: out };
        }
        if left == 0 {
            assert(out@ + Seq::<u8>::empty() =~= out@);
            return RunOutput { status: RunStatus::OutOfFuel, output: out };
        }
        let mut byte: Option<u8> = None;
        if m.needs_input(program) && pos < input.len() {
            byte = Some(input[pos]);
            pos = pos + 1;
            assert(rest.drop_first() =~= input@.subrange(pos as int, input@.len() as int));
        }
        let ghost before = out@;
        let status = m.step(program, byte, &mut out);
        match status {
            Status::PointerOutOfRange => {
                assert(out@ + Seq::<u8>::empty() =~= out@);
                return RunOutput { status: RunStatus::PointerOutOfRange, output: out };
            },
            _ => {},
        }
        left = left - 1;
        assert(whole.1 == out@ + run_from(program@, m@, input@.subrange(pos as int, input@.len() as int), left as nat).1) by {
            let r2 = run_from(program@, m@, input@.subrange(pos as int, input@.len() as int), left as nat).1;
            assert(before + (out@.subrange(before.len() as int, out@.len() as int) + r2) =~= out@ + r2);
        }
    }
}

/// A move right from the last cell lands on the first, and a move left from
/// the first cell lands on the last, whatever the operand.
pub proof fn lemma_pointer_wraps(n: usize)
    ensures
        moved(TAPE_LEN - 1, Op { kind: OpKind::MoveRight, operand: n }) == Some(0int),
        moved(0, Op { kind: OpKind::MoveLeft, operand: n }) == Some(TAPE_LEN - 1),
{
}

} // verus!
