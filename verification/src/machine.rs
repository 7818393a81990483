use vstd::prelude::*;

use crate::instruction::{Instruction, SpecInstruction, stream_view};

verus! {

/// A fault raised while executing a compiled stream.
#[derive(Debug, Copy, Clone, PartialEq, Eq, Structural)]
pub enum RuntimeError {
    /// The memory cursor would move past the last cell.
    TapeOverflow,
    /// The memory cursor would move below the first cell.
    TapeUnderflow,
    /// A read was asked for with no input byte left. Running out of input
    /// is an error in this machine: that is its documented policy.
    InputExhausted,
}

/// The number of memory cells a machine owns.
pub const TAPE_LEN: usize = 30000;

/// The mathematical state of a machine: the stream it runs, the program
/// counter, the memory and its cursor, what input is left to read and what
/// output has been written. The byte sink is an in-memory buffer and
/// cannot fail, so no output fault exists.
pub struct MachineModel {
    pub insts: Seq<SpecInstruction>,
    pub pc: nat,
    pub mem: Seq<u8>,
    pub cursor: nat,
    pub input: Seq<u8>,
    pub in_pos: nat,
    pub output: Seq<u8>,
}

/// What one step does: the machine is already halted, moves to a next
/// state, or fails.
pub enum StepModel {
    Halted,
    Next(MachineModel),
    Fail(RuntimeError),
}

/// A machine state the executor maintains: full-size memory, cursor on
/// the tape, no input consumed beyond its end.
pub open spec fn machine_wf(m: MachineModel) -> bool {
    &&& m.mem.len() == TAPE_LEN
    &&& m.cursor < TAPE_LEN
    &&& m.in_pos <= m.input.len()
}

/// A cell after adding n, with eight-bit wrap-around.
pub open spec fn wrap_add(cell: u8, n: nat) -> u8 {
    (((cell as int) + n) % 256) as u8
}

/// A cell after subtracting n, with eight-bit wrap-around.
pub open spec fn wrap_sub(cell: u8, n: nat) -> u8 {
    (((cell as int) - n) % 256) as u8
}

/// The given byte, repeated.
pub open spec fn repeat_byte(b: u8, k: nat) -> Seq<u8>
    decreases k,
{
    if k == 0 {
        Seq::empty()
    } else {
        repeat_byte(b, (k - 1) as nat).push(b)
    }
}

/// One step of execution, on the model. The machine halts exactly when the
/// program counter reaches the stream's length. A branch taken lands on
/// the paired bracket instruction, which re-tests the cell itself.
pub open spec fn step_model(m: MachineModel) -> StepModel {
    if m.pc >= m.insts.len() {
        StepModel::Halted
    } else {
        let cell = m.mem[m.cursor as int];
        match m.insts[m.pc as int] {
            SpecInstruction::Inc(n) => StepModel::Next(
                MachineModel {
                    mem: m.mem.update(m.cursor as int, wrap_add(cell, n)),
                    pc: m.pc + 1,
                    ..m
                },
            ),
            SpecInstruction::Dec(n) => StepModel::Next(
                MachineModel {
                    mem: m.mem.update(m.cursor as int, wrap_sub(cell, n)),
                    pc: m.pc + 1,
                    ..m
                },
            ),
            SpecInstruction::IncMemPtr(n) => if m.cursor + n > TAPE_LEN - 1 {
                StepModel::Fail(RuntimeError::TapeOverflow)
            } else {
                StepModel::Next(MachineModel { cursor: m.cursor + n, pc: m.pc + 1, ..m })
            },
            SpecInstruction::DecMemPtr(n) => if n > m.cursor {
                StepModel::Fail(RuntimeError::TapeUnderflow)
            } else {
                StepModel::Next(
                    MachineModel { cursor: (m.cursor - n) as nat, pc: m.pc + 1, ..m },
                )
            },
            SpecInstruction::GetChar(n) => if m.in_pos + n > m.input.len() {
                StepModel::Fail(RuntimeError::InputExhausted)
            } else if n == 0 {
                StepModel::Next(MachineModel { pc: m.pc + 1, ..m })
            } else {
                StepModel::Next(
                    MachineModel {
                        mem: m.mem.update(m.cursor as int, m.input[m.in_pos + n - 1]),
                        in_pos: m.in_pos + n,
                        pc: m.pc + 1,
                        ..m
                    },
                )
            },
            SpecInstruction::PutChar(n) => StepModel::Next(
                MachineModel { output: m.output + repeat_byte(cell, n), pc: m.pc + 1, ..m },
            ),
            SpecInstruction::JmpToIfZero(t) => StepModel::Next(
                MachineModel { pc: if cell == 0 { t } else { m.pc + 1 }, ..m },
            ),
            SpecInstruction::JmpBackIfNonZero(t) => StepModel::Next(
                MachineModel { pc: if cell != 0 { t } else { m.pc + 1 }, ..m },
            ),
        }
    }
}

/// State `b` is reached from state `a` in exactly `n` successful steps.
pub open spec fn reaches(a: MachineModel, b: MachineModel, n: nat) -> bool
    decreases n,
{
    if n == 0 {
        a == b
    } else {
        step_model(a) matches StepModel::Next(m) && reaches(m, b, (n - 1) as nat)
    }
}

/// One more successful step extends a reachable chain.
pub proof fn lemma_reaches_step(a: MachineModel, b: MachineModel, c: MachineModel, n: nat)
    requires
        reaches(a, b, n),
        step_model(b) == StepModel::Next(c),
    ensures
        reaches(a, c, n + 1),
    decreases n,
{
    if n == 0 {
        assert(reaches(c, c, 0));
        assert(reaches(a, c, 1));
    } else {
        let m = choose|m: MachineModel|
            step_model(a) == StepModel::Next(m) && reaches(m, b, (n - 1) as nat);
        lemma_reaches_step(m, b, c, (n - 1) as nat);
        assert(reaches(a, c, n + 1));
    }
}

/// The two states agree on everything a program can observe: memory,
/// cursor, input position and output. Only the program counter and the
/// streams themselves may differ.
pub open spec fn same_visible_state(x: MachineModel, y: MachineModel) -> bool {
    &&& x.mem == y.mem
    &&& x.cursor == y.cursor
    &&& x.in_pos == y.in_pos
    &&& x.output == y.output
}

// Repetitions of one byte concatenate.
proof fn lemma_repeat_byte_concat(x: u8, a: nat, b: nat)
    ensures
        repeat_byte(x, a) + repeat_byte(x, b) == repeat_byte(x, a + b),
    decreases b,
{
    if b == 0 {
        assert(repeat_byte(x, a) + repeat_byte(x, 0) =~= repeat_byte(x, a));
    } else {
        lemma_repeat_byte_concat(x, a, (b - 1) as nat);
        assert(repeat_byte(x, a) + repeat_byte(x, (b - 1) as nat).push(x) =~= (repeat_byte(x, a)
            + repeat_byte(x, (b - 1) as nat)).push(x));
    }
}

/// Law: a counted instruction is semantically one run. Running the
/// one-instruction stream that counts a + b has exactly the visible effect
/// of running the two-instruction stream that counts a and then b from the
/// same memory, cursor and I/O state: both halt with the same visible
/// state, or both fail with the same fault.
#[verifier::rlimit(100)]
pub proof fn lemma_fold_is_composition(
    c: char,
    a: nat,
    b: nat,
    mem: Seq<u8>,
    cursor: nat,
    input: Seq<u8>,
    in_pos: nat,
    output: Seq<u8>,
)
    requires
        crate::token::is_foldable_char(c),
        a >= 1,
        b >= 1,
        mem.len() == TAPE_LEN,
        cursor < TAPE_LEN,
        in_pos <= input.len(),
    ensures
        ({
            let m1 = MachineModel {
                insts: Seq::empty().push(crate::lexer::fold_inst(c, a + b)),
                pc: 0,
                mem,
                cursor,
                input,
                in_pos,
                output,
            };
            let m2 = MachineModel {
                insts: Seq::empty().push(crate::lexer::fold_inst(c, a)).push(
                    crate::lexer::fold_inst(c, b),
                ),
                pc: 0,
                mem,
                cursor,
                input,
                in_pos,
                output,
            };
            match step_model(m1) {
                StepModel::Halted => false,
                StepModel::Next(f1) => step_model(f1) is Halted && (exists|f2: MachineModel|
                    reaches(m2, f2, 2) && step_model(f2) is Halted && same_visible_state(f1, f2)),
                StepModel::Fail(e) => step_model(m2) == StepModel::Fail(e) || (exists|
                    i2: MachineModel,
                |
                    reaches(m2, i2, 1) && step_model(i2) == StepModel::Fail(e)),
            }
        }),
{
    let m1 = MachineModel {
        insts: Seq::empty().push(crate::lexer::fold_inst(c, a + b)),
        pc: 0,
        mem,
        cursor,
        input,
        in_pos,
        output,
    };
    let m2 = MachineModel {
        insts: Seq::empty().push(crate::lexer::fold_inst(c, a)).push(
            crate::lexer::fold_inst(c, b),
        ),
        pc: 0,
        mem,
        cursor,
        input,
        in_pos,
        output,
    };
    let cell = mem[cursor as int];
    if c == '+' || c == '-' {
        let v1 = if c == '+' {
            wrap_add(cell, a + b)
        } else {
            wrap_sub(cell, a + b)
        };
        let va = if c == '+' {
            wrap_add(cell, a)
        } else {
            wrap_sub(cell, a)
        };
        let vab = if c == '+' {
            wrap_add(va, b)
        } else {
            wrap_sub(va, b)
        };
        assert(vab == v1) by {
            vstd::arithmetic::div_mod::lemma_mod_bound((cell as int) + a, 256);
            vstd::arithmetic::div_mod::lemma_mod_bound((cell as int) - a, 256);
            vstd::arithmetic::div_mod::lemma_add_mod_noop((cell as int) + a, b as int, 256);
            vstd::arithmetic::div_mod::lemma_add_mod_noop_right(
                ((cell as int) + a) % 256,
                b as int,
                256,
            );
            vstd::arithmetic::div_mod::lemma_sub_mod_noop((cell as int) - a, b as int, 256);
            vstd::arithmetic::div_mod::lemma_sub_mod_noop_right(
                ((cell as int) - a) % 256,
                b as int,
                256,
            );
        }
        let f1 = MachineModel { mem: mem.update(cursor as int, v1), pc: 1, ..m1 };
        assert(step_model(m1) == StepModel::Next(f1));
        let i2 = MachineModel { mem: mem.update(cursor as int, va), pc: 1, ..m2 };
        assert(step_model(m2) == StepModel::Next(i2));
        assert(i2.mem[cursor as int] == va);
        let f2 = MachineModel { mem: i2.mem.update(cursor as int, vab), pc: 2, ..m2 };
        assert(step_model(i2) == StepModel::Next(f2));
        assert(f2.mem =~= f1.mem);
        assert(reaches(f2, f2, 0));
        assert(reaches(i2, f2, 1));
        assert(reaches(m2, f2, 2));
        assert(same_visible_state(f1, f2));
    } else if c == '>' {
        if cursor + a + b > TAPE_LEN - 1 {
            if cursor + a > TAPE_LEN - 1 {
                assert(step_model(m2) == StepModel::Fail(RuntimeError::TapeOverflow));
            } else {
                let i2 = MachineModel { cursor: cursor + a, pc: 1, ..m2 };
                assert(step_model(m2) == StepModel::Next(i2));
                assert(step_model(i2) == StepModel::Fail(RuntimeError::TapeOverflow));
                assert(reaches(i2, i2, 0));
                assert(reaches(m2, i2, 1));
            }
        } else {
            let f1 = MachineModel { cursor: cursor + (a + b), pc: 1, ..m1 };
            assert(step_model(m1) == StepModel::Next(f1));
            let i2 = MachineModel { cursor: cursor + a, pc: 1, ..m2 };
            assert(step_model(m2) == StepModel::Next(i2));
            let f2 = MachineModel { cursor: cursor + a + b, pc: 2, ..m2 };
            assert(step_model(i2) == StepModel::Next(f2));
            assert(reaches(f2, f2, 0));
            assert(reaches(i2, f2, 1));
            assert(reaches(m2, f2, 2));
            assert(same_visible_state(f1, f2));
        }
    } else if c == '<' {
        if a + b > cursor {
            if a > cursor {
                assert(step_model(m2) == StepModel::Fail(RuntimeError::TapeUnderflow));
            } else {
                let i2 = MachineModel { cursor: (cursor - a) as nat, pc: 1, ..m2 };
                assert(step_model(m2) == StepModel::Next(i2));
                assert(step_model(i2) == StepModel::Fail(RuntimeError::TapeUnderflow));
                assert(reaches(i2, i2, 0));
                assert(reaches(m2, i2, 1));
            }
        } else {
            let f1 = MachineModel { cursor: (cursor - (a + b)) as nat, pc: 1, ..m1 };
            assert(step_model(m1) == StepModel::Next(f1));
            let i2 = MachineModel { cursor: (cursor - a) as nat, pc: 1, ..m2 };
            assert(step_model(m2) == StepModel::Next(i2));
            let f2 = MachineModel { cursor: (cursor - a - b) as nat, pc: 2, ..m2 };
            assert(step_model(i2) == StepModel::Next(f2));
            assert(reaches(f2, f2, 0));
            assert(reaches(i2, f2, 1));
            assert(reaches(m2, f2, 2));
            assert(same_visible_state(f1, f2));
        }
    } else if c == ',' {
        if in_pos + a + b > input.len() {
            if in_pos + a > input.len() {
                assert(step_model(m2) == StepModel::Fail(RuntimeError::InputExhausted));
            } else {
                let i2 = MachineModel {
                    mem: mem.update(cursor as int, input[in_pos + a - 1]),
                    in_pos: in_pos + a,
                    pc: 1,
                    ..m2
                };
                assert(step_model(m2) == StepModel::Next(i2));
                assert(step_model(i2) == StepModel::Fail(RuntimeError::InputExhausted));
                assert(reaches(i2, i2, 0));
                assert(reaches(m2, i2, 1));
            }
        } else {
            let f1 = MachineModel {
                mem: mem.update(cursor as int, input[in_pos + (a + b) - 1]),
                in_pos: in_pos + (a + b),
                pc: 1,
                ..m1
            };
            assert(step_model(m1) == StepModel::Next(f1));
            let i2 = MachineModel {
                mem: mem.update(cursor as int, input[in_pos + a - 1]),
                in_pos: in_pos + a,
                pc: 1,
                ..m2
            };
            assert(step_model(m2) == StepModel::Next(i2));
            let f2 = MachineModel {
                mem: i2.mem.update(cursor as int, input[in_pos + a + b - 1]),
                in_pos: in_pos + a + b,
                pc: 2,
                ..m2
            };
            assert(step_model(i2) == StepModel::Next(f2));
            assert(f2.mem =~= f1.mem);
            assert(reaches(f2, f2, 0));
            assert(reaches(i2, f2, 1));
            assert(reaches(m2, f2, 2));
            assert(same_visible_state(f1, f2));
        }
    } else {
        assert(c == '.');
        let f1 = MachineModel { output: output + repeat_byte(cell, a + b), pc: 1, ..m1 };
        assert(step_model(m1) == StepModel::Next(f1));
        let i2 = MachineModel { output: output + repeat_byte(cell, a), pc: 1, ..m2 };
        assert(step_model(m2) == StepModel::Next(i2));
        assert(i2.mem[cursor as int] == cell);
        let f2 = MachineModel {
            output: i2.output + repeat_byte(cell, b),
            pc: 2,
            ..m2
        };
        assert(step_model(i2) == StepModel::Next(f2));
        lemma_repeat_byte_concat(cell, a, b);
        assert(f2.output =~= f1.output);
        assert(reaches(f2, f2, 0));
        assert(reaches(i2, f2, 1));
        assert(reaches(m2, f2, 2));
        assert(same_visible_state(f1, f2));
    }
}

// The exec counterpart of wrap_add.
fn add_wrap(cell: u8, n: usize) -> (r: u8)
    ensures
        r == wrap_add(cell, n as nat),
{
    let v = (cell as usize + n % 256) % 256;
    proof {
        vstd::arithmetic::div_mod::lemma_add_mod_noop_right(cell as int, n as int, 256);
    }
    v as u8
}

// The exec counterpart of wrap_sub.
fn sub_wrap(cell: u8, n: usize) -> (r: u8)
    ensures
        r == wrap_sub(cell, n as nat),
{
    let v = (cell as usize + 256 - n % 256) % 256;
    proof {
        vstd::arithmetic::div_mod::lemma_mod_add_multiples_vanish(
            (cell as int) - (n as int) % 256,
            256,
        );
        vstd::arithmetic::div_mod::lemma_sub_mod_noop_right(cell as int, n as int, 256);
    }
    v as u8
}

/// The virtual machine: a compiled stream, a program counter, 30,000 bytes
/// of memory with a cursor, an input buffer it reads from and an output
/// buffer it writes to.
pub struct Machine {
    instructions: Vec<Instruction>,
    instruction_ptr: usize,
    mem: Vec<u8>,
    mem_ptr: usize,
    input: Vec<u8>,
    input_ptr: usize,
    output: Vec<u8>,
}

impl View for Machine {
    type V = MachineModel;

    closed spec fn view(&self) -> MachineModel {
        MachineModel {
            insts: stream_view(self.instructions@),
            pc: self.instruction_ptr as nat,
            mem: self.mem@,
            cursor: self.mem_ptr as nat,
            input: self.input@,
            in_pos: self.input_ptr as nat,
            output: self.output@,
        }
    }
}

impl Machine {
    /// A fresh machine over the given stream and input: the program
    /// counter and cursor at zero, the memory zeroed, nothing read or
    /// written yet.
    pub fn with_input(instructions: Vec<Instruction>, input: Vec<u8>) -> (r: Machine)
        ensures
            machine_wf(r@),
            r@ == (MachineModel {
                insts: stream_view(instructions@),
                pc: 0,
                mem: repeat_byte(0, TAPE_LEN as nat),
                cursor: 0,
                input: input@,
                in_pos: 0,
                output: Seq::empty(),
            }),
    {
        let mut mem: Vec<u8> = Vec::new();
        while mem.len() < TAPE_LEN
            invariant
                mem@ == repeat_byte(0, mem@.len() as nat),
                mem@.len() <= TAPE_LEN,
            decreases TAPE_LEN - mem@.len(),
        {
            mem.push(0);
        }
        Machine {
            instructions,
            instruction_ptr: 0,
            mem,
            mem_ptr: 0,
            input,
            input_ptr: 0,
            output: Vec::new(),
        }
    }

    /// A fresh machine with no input at all.
    pub fn new(instructions: Vec<Instruction>) -> (r: Machine)
        ensures
            machine_wf(r@),
            r@ == (MachineModel {
                insts: stream_view(instructions@),
                pc: 0,
                mem: repeat_byte(0, TAPE_LEN as nat),
                cursor: 0,
                input: Seq::empty(),
                in_pos: 0,
                output: Seq::empty(),
            }),
    {
        Machine::with_input(instructions, Vec::new())
    }

    /// Executes exactly one instruction, as `step_model` says: `Ok(None)`
    /// when already halted, `Ok(Some(()))` after a successful step, and
    /// the fault, with the state untouched, when the step fails.
    pub fn run_next(&mut self) -> (r: Result<Option<()>, RuntimeError>)
        requires
            machine_wf(old(self)@),
        ensures
            machine_wf(final(self)@),
            (match step_model(old(self)@) {
                StepModel::Halted => r == Ok::<Option<()>, RuntimeError>(None) && final(self)@
                    == old(self)@,
                StepModel::Next(m2) => r == Ok::<Option<()>, RuntimeError>(Some(()))
                    && final(self)@ == m2,
                StepModel::Fail(e) => r == Err::<Option<()>, RuntimeError>(e) && final(self)@
                    == old(self)@,
            }),
    {
        if self.instruction_ptr >= self.instructions.len() {
            return Ok(None);
        }
        let inst = self.instructions[self.instruction_ptr];
        match inst {
            Instruction::Inc(n) => {
                let cell = self.mem[self.mem_ptr];
                let v = add_wrap(cell, n);
                self.mem.set(self.mem_ptr, v);
                self.instruction_ptr = self.instruction_ptr + 1;
            },
            Instruction::Dec(n) => {
                let cell = self.mem[self.mem_ptr];
                let v = sub_wrap(cell, n);
                self.mem.set(self.mem_ptr, v);
                self.instruction_ptr = self.instruction_ptr + 1;
            },
            Instruction::IncMemPtr(n) => {
                let room = TAPE_LEN - 1 - self.mem_ptr;
                if n > room {
                    return Err(RuntimeError::TapeOverflow);
                }
                self.mem_ptr = self.mem_ptr + n;
                self.instruction_ptr = self.instruction_ptr + 1;
            },
            Instruction::DecMemPtr(n) => {
                if n > self.mem_ptr {
                    return Err(RuntimeError::TapeUnderflow);
                }
                self.mem_ptr = self.mem_ptr - n;
                self.instruction_ptr = self.instruction_ptr + 1;
            },
            Instruction::GetChar(n) => {
                let remaining = self.input.len() - self.input_ptr;
                if n > remaining {
                    return Err(RuntimeError::InputExhausted);
                }
                if n > 0 {
                    let b = self.input[self.input_ptr + n - 1];
                    self.mem.set(self.mem_ptr, b);
                    self.input_ptr = self.input_ptr + n;
                }
                self.instruction_ptr = self.instruction_ptr + 1;
            },
            Instruction::PutChar(n) => {
                let cell = self.mem[self.mem_ptr];
                let ghost out0 = self.output@;
                let mut k: usize = 0;
                while k < n
                    invariant
                        k <= n,
                        self.instructions@ == old(self).instructions@,
                        self.instruction_ptr == old(self).instruction_ptr,
                        self.mem@ == old(self).mem@,
                        self.mem_ptr == old(self).mem_ptr,
                        self.input@ == old(self).input@,
                        self.input_ptr == old(self).input_ptr,
                        self.output@ == out0 + repeat_byte(cell, k as nat),
                    decreases n - k,
                {
                    proof {
                        assert((out0 + repeat_byte(cell, k as nat)).push(cell) =~= out0
                            + repeat_byte(cell, (k + 1) as nat));
                    }
                    self.output.push(cell);
                    k = k + 1;
                }
                self.instruction_ptr = self.instruction_ptr + 1;
            },
            Instruction::JmpToIfZero(t) => {
                if self.mem[self.mem_ptr] == 0 {
                    self.instruction_ptr = t;
                } else {
                    self.instruction_ptr = self.instruction_ptr + 1;
                }
            },
            Instruction::JmpBackIfNonZero(t) => {
                if self.mem[self.mem_ptr] != 0 {
                    self.instruction_ptr = t;
                } else {
                    self.instruction_ptr = self.instruction_ptr + 1;
                }
            },
        }
        Ok(Some(()))
    }

    /// Steps until the machine halts, a step fails, or the given number
    /// of steps has been taken, whichever comes first. The budget is
    /// there so that this loop provably terminates; a caller that wants
    /// to run a program to the end keeps calling until `Ok(true)` or an
    /// error comes back. `Ok(true)` means the machine halted within the
    /// budget; `Ok(false)` means exactly the budget's worth of steps ran
    /// and the machine is still going; on `Err` the final state is
    /// exactly the state whose step failed. In every case the final state
    /// is reached from the initial one by successful steps alone.
    pub fn run_to_end(&mut self, max_steps: usize) -> (r: Result<bool, RuntimeError>)
        requires
            machine_wf(old(self)@),
        ensures
            machine_wf(final(self)@),
            r == Ok::<bool, RuntimeError>(true) ==> step_model(final(self)@) is Halted
                && (exists|n: nat| n <= max_steps && reaches(old(self)@, final(self)@, n)),
            r == Ok::<bool, RuntimeError>(false) ==> reaches(
                old(self)@,
                final(self)@,
                max_steps as nat,
            ),
            (r matches Err(e) ==> step_model(final(self)@) == StepModel::Fail(e) && (exists|
                n: nat,
            | n < max_steps && reaches(old(self)@, final(self)@, n))),
    {
        let mut i: usize = 0;
        while i < max_steps
            invariant
                machine_wf(self@),
                i <= max_steps,
                reaches(old(self)@, self@, i as nat),
            decreases max_steps - i,
        {
            let ghost pre = self@;
            match self.run_next() {
                Ok(Some(())) => {
                    proof {
                        lemma_reaches_step(old(self)@, pre, self@, i as nat);
                    }
                },
                Ok(None) => {
                    return Ok(true);
                },
                Err(e) => {
                    return Err(e);
                },
            }
            i = i + 1;
        }
        Ok(false)
    }

    /// The program counter: the index of the next instruction to run.
    pub fn instruction_ptr(&self) -> (r: usize)
        ensures
            r as nat == self@.pc,
    {
        self.instruction_ptr
    }

    /// The memory cursor.
    pub fn mem_ptr(&self) -> (r: usize)
        ensures
            r as nat == self@.cursor,
    {
        self.mem_ptr
    }

    /// The byte under the memory cursor.
    pub fn current_cell(&self) -> (r: u8)
        requires
            machine_wf(self@),
        ensures
            r == self@.mem[self@.cursor as int],
    {
        self.mem[self.mem_ptr]
    }

    /// Everything the machine has written so far.
    pub fn output(&self) -> (r: &Vec<u8>)
        ensures
            r@ == self@.output,
    {
        &self.output
    }
}

} // verus!
