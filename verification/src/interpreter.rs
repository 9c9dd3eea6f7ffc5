//! Executes a program over a fixed-capacity byte tape with wrapping
//! arithmetic; moving the data pointer off the tape is an explicit,
//! bounds-checked runtime error.
use crate::parser::Instruction;
use crate::parser::Program;
use vstd::prelude::*;

verus! {

/// The number of cells on the tape. The tape has a fixed capacity: moving
/// the data pointer outside `[0, TAPE_LEN)` fails rather than growing it.
pub const TAPE_LEN: usize = 64000;

/// A failure while executing: the data pointer left the tape; `address` is
/// the out-of-range cell index it would have reached.
#[derive(Debug, Clone, Copy, PartialEq, Eq, Structural)]
pub enum RuntimeError {
    TapeOutOfBounds { address: i128 },
}

/// The cell value after an increment instruction with run count `count`:
/// arithmetic wraps modulo 256.
pub open spec fn cell_add(cell: u8, count: usize) -> u8 {
    ((cell + count % 256) % 256) as u8
}

/// The cell value after a decrement instruction with run count `count`:
/// arithmetic wraps modulo 256.
pub open spec fn cell_sub(cell: u8, count: usize) -> u8 {
    ((cell + 256 - count % 256) % 256) as u8
}

/// The whole machine, mathematically: the program, the tape, the two
/// pointers, the program-visible input not yet consumed, and the output
/// emitted so far.
#[verifier::ext_equal]
pub struct MachineState {
    pub program: Seq<Instruction>,
    pub memory: Seq<u8>,
    pub addr: int,
    pub instruction_ptr: int,
    pub input: Seq<u8>,
    pub input_cursor: int,
    pub output: Seq<u8>,
}

/// What one instruction does to the machine: a next state, or the
/// out-of-range address the data pointer would have reached.
pub enum StepOutcome {
    Next { state: MachineState },
    Fault { address: int },
}

/// The transition the instruction under the instruction pointer makes.
pub open spec fn step(s: MachineState) -> StepOutcome
    recommends
        0 <= s.instruction_ptr < s.program.len(),
{
    match s.program[s.instruction_ptr] {
        Instruction::AddressRight(count) => if s.addr + count < s.memory.len() {
            StepOutcome::Next {
                state: MachineState {
                    addr: s.addr + count,
                    instruction_ptr: s.instruction_ptr + 1,
                    ..s
                },
            }
        } else {
            StepOutcome::Fault { address: s.addr + count }
        },
        Instruction::AddressLeft(count) => if s.addr - count >= 0 {
            StepOutcome::Next {
                state: MachineState {
                    addr: s.addr - count,
                    instruction_ptr: s.instruction_ptr + 1,
                    ..s
                },
            }
        } else {
            StepOutcome::Fault { address: s.addr - count }
        },
        Instruction::Inc(count) => StepOutcome::Next {
            state: MachineState {
                memory: s.memory.update(s.addr, cell_add(s.memory[s.addr], count)),
                instruction_ptr: s.instruction_ptr + 1,
                ..s
            },
        },
        Instruction::Dec(count) => StepOutcome::Next {
            state: MachineState {
                memory: s.memory.update(s.addr, cell_sub(s.memory[s.addr], count)),
                instruction_ptr: s.instruction_ptr + 1,
                ..s
            },
        },
        Instruction::Output(count) => StepOutcome::Next {
            state: MachineState {
                output: s.output + Seq::new(count as nat, |j: int| s.memory[s.addr]),
                instruction_ptr: s.instruction_ptr + 1,
                ..s
            },
        },
        Instruction::Input(count) => {
            let avail = s.input.len() - s.input_cursor;
            let k = if count <= avail {
                count as int
            } else {
                avail
            };
            StepOutcome::Next {
                state: MachineState {
                    memory: if k > 0 {
                        s.memory.update(s.addr, s.input[s.input_cursor + k - 1])
                    } else {
                        s.memory
                    },
                    input_cursor: s.input_cursor + k,
                    instruction_ptr: s.instruction_ptr + 1,
                    ..s
                },
            }
        },
        Instruction::JmpForward(target) => StepOutcome::Next {
            state: MachineState {
                instruction_ptr: if s.memory[s.addr] == 0 {
                    target as int
                } else {
                    s.instruction_ptr + 1
                },
                ..s
            },
        },
        Instruction::JmpBackward(target) => StepOutcome::Next {
            state: MachineState {
                instruction_ptr: if s.memory[s.addr] != 0 {
                    target as int
                } else {
                    s.instruction_ptr + 1
                },
                ..s
            },
        },
    }
}

/// Where a bounded number of steps leaves the machine: halted past the
/// program's end, still running when the budget ran out, or stopped at the
/// state whose next step faulted.
pub enum RunOutcome {
    Halted { state: MachineState },
    OutOfFuel { state: MachineState },
    Faulted { state: MachineState, address: int },
}

/// Runs `step` until the instruction pointer passes the program's end, the
/// step budget `fuel` is spent, or a step faults.
pub open spec fn run_to(s: MachineState, fuel: nat) -> RunOutcome
    decreases fuel,
{
    if s.instruction_ptr >= s.program.len() {
        RunOutcome::Halted { state: s }
    } else if fuel == 0 {
        RunOutcome::OutOfFuel { state: s }
    } else {
        match step(s) {
            StepOutcome::Next { state } => run_to(state, (fuel - 1) as nat),
            StepOutcome::Fault { address } => RunOutcome::Faulted { state: s, address },
        }
    }
}

/// The cell value after `times` single increments of one.
pub open spec fn repeat_increment(cell: u8, times: nat) -> u8
    decreases times,
{
    if times == 0 {
        cell
    } else {
        cell_add(repeat_increment(cell, (times - 1) as nat), 1)
    }
}

proof fn lemma_repeat_increment_adds(cell: u8, times: nat)
    ensures
        repeat_increment(cell, times) == ((cell + times) % 256) as u8,
    decreases times,
{
    if times > 0 {
        lemma_repeat_increment_adds(cell, (times - 1) as nat);
    }
}

/// Law: incrementing a cell 256 times returns it to its original value, and
/// so does one increment instruction whose run count is 256 — cell
/// arithmetic wraps modulo 256. `cell_add(cell, 1)` is exactly what one
/// single-count increment step writes, and `cell_add(cell, count)` what an
/// `Inc(count)` step writes.
pub proof fn lemma_increment_wraps_modulo_256(cell: u8)
    ensures
        repeat_increment(cell, 256) == cell,
        cell_add(cell, 256) == cell,
{
    lemma_repeat_increment_adds(cell, 256);
}

fn zero_tape() -> (r: Vec<u8>)
    ensures
        r@.len() == TAPE_LEN,
        forall|j: int| 0 <= j < TAPE_LEN ==> r@[j] == 0u8,
{
    let mut tape: Vec<u8> = Vec::new();
    let mut i: usize = 0;
    while i < TAPE_LEN
        invariant
            i <= TAPE_LEN,
            tape@.len() == i,
            forall|j: int| 0 <= j < i ==> tape@[j] == 0u8,
        decreases TAPE_LEN - i,
    {
        tape.push(0);
        i = i + 1;
    }
    tape
}

/// Owns the program and the tape for its whole run; executes with an
/// instruction pointer and a data pointer, collecting output bytes.
pub struct Interpreter {
    pub program: Program,
    pub memory: Vec<u8>,
    pub addr: usize,
    pub instruction_ptr: usize,
    pub input: Vec<u8>,
    pub input_cursor: usize,
    pub output: Vec<u8>,
}

impl View for Interpreter {
    type V = MachineState;

    open spec fn view(&self) -> MachineState {
        MachineState {
            program: self.program@,
            memory: self.memory@,
            addr: self.addr as int,
            instruction_ptr: self.instruction_ptr as int,
            input: self.input@,
            input_cursor: self.input_cursor as int,
            output: self.output@,
        }
    }
}

impl Interpreter {
    /// The tape has its fixed capacity, the data pointer is on it, and the
    /// input cursor has not passed the input's end.
    pub open spec fn wf(&self) -> bool {
        &&& self.memory@.len() == TAPE_LEN
        &&& self.addr < TAPE_LEN
        &&& self.input_cursor <= self.input@.len()
    }

    /// A fresh machine: zeroed tape, both pointers at zero, no input and no
    /// output yet.
    pub fn new(program: Program) -> (r: Self)
        ensures
            r.wf(),
            r@.program == program@,
            r@.memory.len() == TAPE_LEN,
            forall|j: int| 0 <= j < TAPE_LEN ==> r@.memory[j] == 0u8,
            r@.addr == 0,
            r@.instruction_ptr == 0,
            r@.input == Seq::<u8>::empty(),
            r@.input_cursor == 0,
            r@.output == Seq::<u8>::empty(),
    {
        Self {
            program,
            memory: zero_tape(),
            addr: 0,
            instruction_ptr: 0,
            input: Vec::new(),
            input_cursor: 0,
            output: Vec::new(),
        }
    }

    /// A fresh machine whose byte-input instructions will read from `input`.
    pub fn new_with_input(program: Program, input: Vec<u8>) -> (r: Self)
        ensures
            r.wf(),
            r@.program == program@,
            r@.memory.len() == TAPE_LEN,
            forall|j: int| 0 <= j < TAPE_LEN ==> r@.memory[j] == 0u8,
            r@.addr == 0,
            r@.instruction_ptr == 0,
            r@.input == input@,
            r@.input_cursor == 0,
            r@.output == Seq::<u8>::empty(),
    {
        Self {
            program,
            memory: zero_tape(),
            addr: 0,
            instruction_ptr: 0,
            input,
            input_cursor: 0,
            output: Vec::new(),
        }
    }

    /// Executes up to `fuel` instructions: `Ok(true)` when the machine
    /// halted (the instruction pointer passed the program's end), `Ok(false)`
    /// when the budget ran out first, and the out-of-bounds error when a
    /// move left the tape.
    pub fn run(&mut self, fuel: usize) -> (r: Result<bool, RuntimeError>)
        requires
            old(self).wf(),
        ensures
            final(self).wf(),
            final(self)@.program == old(self)@.program,
            final(self)@.input == old(self)@.input,
            match r {
                Ok(halted) => {
                    &&& halted ==> run_to(old(self)@, fuel as nat) == (RunOutcome::Halted {
                        state: final(self)@,
                    }) && final(self)@.instruction_ptr >= final(self)@.program.len()
                    &&& !halted ==> run_to(old(self)@, fuel as nat) == (RunOutcome::OutOfFuel {
                        state: final(self)@,
                    }) && final(self)@.instruction_ptr < final(self)@.program.len()
                },
                Err(e) => match e {
                    RuntimeError::TapeOutOfBounds { address } => run_to(old(self)@, fuel as nat)
                        == (RunOutcome::Faulted { state: final(self)@, address: address as int }),
                },
            },
    {
        let mut fuel_left = fuel;
        loop
            invariant
                self.wf(),
                fuel_left <= fuel,
                self@.program == old(self)@.program,
                self@.input == old(self)@.input,
                run_to(old(self)@, fuel as nat) == run_to(self@, fuel_left as nat),
            decreases fuel_left,
        {
            if self.instruction_ptr >= self.program.len() {
                return Ok(true);
            }
            if fuel_left == 0 {
                return Ok(false);
            }
            let ghost pre = self@;
            let instruction = self.program[self.instruction_ptr];
            match instruction {
                Instruction::AddressRight(count) => {
                    if count >= TAPE_LEN - self.addr {
                        let address = self.addr as i128 + count as i128;
                        return Err(RuntimeError::TapeOutOfBounds { address });
                    }
                    self.addr = self.addr + count;
                    self.instruction_ptr = self.instruction_ptr + 1;
                    proof {
                        assert(step(pre)->state =~= self@);
                    }
                },
                Instruction::AddressLeft(count) => {
                    if count > self.addr {
                        let address = self.addr as i128 - count as i128;
                        return Err(RuntimeError::TapeOutOfBounds { address });
                    }
                    self.addr = self.addr - count;
                    self.instruction_ptr = self.instruction_ptr + 1;
                    proof {
                        assert(step(pre)->state =~= self@);
                    }
                },
                Instruction::Inc(count) => {
                    let cell = self.memory[self.addr];
                    let v = (((cell as u16) + ((count % 256) as u16)) % 256) as u8;
                    self.memory.set(self.addr, v);
                    self.instruction_ptr = self.instruction_ptr + 1;
                    proof {
                        assert(v == cell_add(cell, count));
                        assert(step(pre)->state =~= self@);
                    }
                },
                Instruction::Dec(count) => {
                    let cell = self.memory[self.addr];
                    let v = (((cell as u16) + 256 - ((count % 256) as u16)) % 256) as u8;
                    self.memory.set(self.addr, v);
                    self.instruction_ptr = self.instruction_ptr + 1;
                    proof {
                        assert(v == cell_sub(cell, count));
                        assert(step(pre)->state =~= self@);
                    }
                },
                Instruction::Output(count) => {
                    let cell = self.memory[self.addr];
                    let mut i: usize = 0;
                    while i < count
                        invariant
                            i <= count,
                            self.wf(),
                            self@.program == pre.program,
                            self@.memory == pre.memory,
                            self@.addr == pre.addr,
                            self@.instruction_ptr == pre.instruction_ptr,
                            self@.input == pre.input,
                            self@.input_cursor == pre.input_cursor,
                            cell == pre.memory[pre.addr],
                            self@.output == pre.output + Seq::new(i as nat, |j: int| cell),
                        decreases count - i,
                    {
                        self.output.push(cell);
                        i = i + 1;
                        proof {
                            assert(pre.output + Seq::new(i as nat, |j: int| cell) =~= (pre.output
                                + Seq::new((i - 1) as nat, |j: int| cell)).push(cell));
                        }
                    }
                    self.instruction_ptr = self.instruction_ptr + 1;
                    proof {
                        assert(step(pre)->state =~= self@);
                    }
                },
                Instruction::Input(count) => {
                    let avail = self.input.len() - self.input_cursor;
                    let k = if count < avail {
                        count
                    } else {
                        avail
                    };
                    if k > 0 {
                        let byte = self.input[self.input_cursor + k - 1];
                        self.memory.set(self.addr, byte);
                    }
                    self.input_cursor = self.input_cursor + k;
                    self.instruction_ptr = self.instruction_ptr + 1;
                    proof {
                        assert(step(pre)->state =~= self@);
                    }
                },
                Instruction::JmpForward(target) => {
                    if self.memory[self.addr] == 0 {
                        self.instruction_ptr = target;
                    } else {
                        self.instruction_ptr = self.instruction_ptr + 1;
                    }
                    proof {
                        assert(step(pre)->state =~= self@);
                    }
                },
                Instruction::JmpBackward(target) => {
                    if self.memory[self.addr] != 0 {
                        self.instruction_ptr = target;
                    } else {
                        self.instruction_ptr = self.instruction_ptr + 1;
                    }
                    proof {
                        assert(step(pre)->state =~= self@);
                    }
                },
            }
            fuel_left = fuel_left - 1;
        }
    }

    /// Whether the instruction pointer has passed the program's end.
    pub fn halted(&self) -> (r: bool)
        ensures
            r == (self@.instruction_ptr >= self@.program.len()),
    {
        self.instruction_ptr >= self.program.len()
    }

    /// The value of the tape cell at `index`.
    pub fn cell_at(&self, index: usize) -> (r: u8)
        requires
            self.wf(),
            index < TAPE_LEN,
        ensures
            r == self@.memory[index as int],
    {
        self.memory[index]
    }

    /// The current data pointer.
    pub fn data_pointer(&self) -> (r: usize)
        ensures
            r == self@.addr,
    {
        self.addr
    }

    /// The current instruction pointer.
    pub fn instruction_pointer(&self) -> (r: usize)
        ensures
            r == self@.instruction_ptr,
    {
        self.instruction_ptr
    }

    /// The output bytes emitted so far, in program order.
    pub fn output(&self) -> (r: &Vec<u8>)
        ensures
            r@ == self@.output,
    {
        &self.output
    }

    /// Hands the output emitted so far to the caller and empties the
    /// machine's own buffer, so a long run can be drained piecewise.
    pub fn take_output(&mut self) -> (r: Vec<u8>)
        ensures
            r@ == old(self)@.output,
            final(self)@ == (MachineState { output: Seq::<u8>::empty(), ..old(self)@ }),
    {
        let mut out: Vec<u8> = Vec::new();
        core::mem::swap(&mut out, &mut self.output);
        out
    }
}

} // verus!
