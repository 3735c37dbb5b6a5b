//! Running compiled instructions on a circular byte tape under an iteration budget.
//!
//! The machine never reads or writes by itself: [`Machine::run`] goes on until the
//! program wants to print a byte, wants a byte of input, or stops, and reports which.
//! The caller does the I/O and, for input, hands the byte over with
//! [`Machine::supply_input`].
use vstd::prelude::*;

use crate::program::Instruction;

verus! {

/// Number of byte cells on the circular memory tape.
pub const MEMORY_SIZE: usize = 32768;

/// Why an execution stopped without error.
#[derive(Clone, Copy, Debug, PartialEq, Eq, Structural)]
pub enum ExecutionTerminationCondition {
    /// The maximum number of iterations was reached.
    MaximumIterationsReached,
    /// The program finished executing all instructions
    AllInstructionsFinished,
}

impl ExecutionTerminationCondition {
    /// A sentence describing the value, for people.
    pub fn message(&self) -> (r: String)
        ensures
            r@ == match *self {
                ExecutionTerminationCondition::MaximumIterationsReached => "Maximum iterations reached."@,
                ExecutionTerminationCondition::AllInstructionsFinished => "Finished normally."@,
            },
    {
        match self {
            ExecutionTerminationCondition::MaximumIterationsReached => String::from_str("Maximum iterations reached."),
            ExecutionTerminationCondition::AllInstructionsFinished => String::from_str("Finished normally."),
        }
    }
}

/// What a run of the machine stopped for.
#[derive(Clone, Copy, Debug, PartialEq, Eq, Structural)]
pub enum Event {
    /// The program printed this tape byte; the machine has moved past the instruction.
    Output(u8),
    /// The program reads a byte: the caller must hand one to `supply_input`.
    NeedInput,
    /// The execution is over.
    Terminated(ExecutionTerminationCondition),
}

/// The abstract state of a machine.
pub struct MachineState {
    /// the memory cells
    pub tape: Seq<u8>,
    /// the memory pointer
    pub ptr: nat,
    /// the program counter
    pub pc: nat,
    /// dispatches left in the iteration budget
    pub fuel: nat,
    /// an `Input` instruction has been dispatched and waits for its byte
    pub awaiting: bool,
}

/// A tape of the right length with the pointer on it.
pub open spec fn state_ok(s: MachineState) -> bool {
    s.tape.len() == MEMORY_SIZE && s.ptr < MEMORY_SIZE
}

/// The memory pointer after a step to the right, wrapping from the last cell to the first.
pub open spec fn move_right(p: nat) -> nat {
    (p + 1) % (MEMORY_SIZE as nat)
}

/// The memory pointer after a step to the left, wrapping from the first cell to the last.
pub open spec fn move_left(p: nat) -> nat {
    ((p + MEMORY_SIZE - 1) % (MEMORY_SIZE as int)) as nat
}

/// A cell after an increment, modulo 256.
pub open spec fn cell_increment(b: u8) -> u8 {
    ((b + 1) % 256) as u8
}

/// A cell after a decrement, modulo 256.
pub open spec fn cell_decrement(b: u8) -> u8 {
    ((b + 255) % 256) as u8
}

/// The state of a fresh execution with the given budget.
pub open spec fn initial_state(budget: nat) -> MachineState {
    MachineState {
        tape: Seq::new(MEMORY_SIZE as nat, |i: int| 0u8),
        ptr: 0,
        pc: 0,
        fuel: budget,
        awaiting: false,
    }
}

/// The state after dispatching the instruction at the program counter, which exists,
/// with budget left. An `Input` leaves the counter in place and waits for its byte.
pub open spec fn dispatch(prog: Seq<Instruction>, s: MachineState) -> MachineState {
    let fuel = (s.fuel - 1) as nat;
    let cell = s.tape[s.ptr as int];
    let next = s.pc + 1;
    match prog[s.pc as int] {
        Instruction::MoveRight => MachineState { ptr: move_right(s.ptr), pc: next, fuel, ..s },
        Instruction::MoveLeft => MachineState { ptr: move_left(s.ptr), pc: next, fuel, ..s },
        Instruction::Increment => MachineState {
            tape: s.tape.update(s.ptr as int, cell_increment(cell)),
            pc: next,
            fuel,
            ..s
        },
        Instruction::Decrement => MachineState {
            tape: s.tape.update(s.ptr as int, cell_decrement(cell)),
            pc: next,
            fuel,
            ..s
        },
        Instruction::Output => MachineState { pc: next, fuel, ..s },
        Instruction::Input => MachineState { fuel, awaiting: true, ..s },
        Instruction::JumpToLeft(target) => MachineState {
            pc: if cell == 0 { target as nat } else { next },
            fuel,
            ..s
        },
        Instruction::JumpToRight(target) => MachineState {
            pc: if cell != 0 { target as nat } else { next },
            fuel,
            ..s
        },
    }
}

/// Dispatches instructions from `s` until one prints, one reads, the program counter
/// runs past the end, or the budget is spent; gives what stopped it and the state then.
pub open spec fn run_until_event(prog: Seq<Instruction>, s: MachineState) -> (Event, MachineState)
    decreases s.fuel,
{
    if s.fuel == 0 {
        (Event::Terminated(ExecutionTerminationCondition::MaximumIterationsReached), s)
    } else if s.pc >= prog.len() {
        (Event::Terminated(ExecutionTerminationCondition::AllInstructionsFinished), s)
    } else {
        let s1 = dispatch(prog, s);
        match prog[s.pc as int] {
            Instruction::Output => (Event::Output(s.tape[s.ptr as int]), s1),
            Instruction::Input => (Event::NeedInput, s1),
            _ => run_until_event(prog, s1),
        }
    }
}

/// The state after the byte an `Input` waited for is stored.
pub open spec fn after_input(s: MachineState, byte: u8) -> MachineState {
    MachineState {
        tape: s.tape.update(s.ptr as int, byte),
        pc: s.pc + 1,
        awaiting: false,
        ..s
    }
}

/// A running execution: the tape, its pointer, the program counter and the budget left.
pub struct Machine {
    memory: Vec<u8>,
    memory_position: usize,
    next_instruction: usize,
    iterations_left: u64,
    awaiting_input: bool,
}

impl View for Machine {
    type V = MachineState;

    closed spec fn view(&self) -> MachineState {
        MachineState {
            tape: self.memory@,
            ptr: self.memory_position as nat,
            pc: self.next_instruction as nat,
            fuel: self.iterations_left as nat,
            awaiting: self.awaiting_input,
        }
    }
}

impl Machine {
    /// The machine's own invariant: its abstract state is well formed, and a waiting
    /// `Input` can still move the program counter on.
    pub closed spec fn wf(&self) -> bool {
        &&& state_ok(self@)
        &&& self.awaiting_input ==> self.next_instruction < usize::MAX
    }

    /// A fresh execution: a zeroed tape, both pointers at 0, and the given budget.
    pub fn new(maximum_iterations: u64) -> (m: Machine)
        ensures
            m.wf(),
            m@ == initial_state(maximum_iterations as nat),
    {
        let mut memory: Vec<u8> = Vec::new();
        let mut i: usize = 0;
        while i < MEMORY_SIZE
            invariant
                i <= MEMORY_SIZE,
                memory@ == Seq::new(i as nat, |j: int| 0u8),
            decreases MEMORY_SIZE - i,
        {
            memory.push(0);
            i = i + 1;
            proof {
                assert(memory@ =~= Seq::new(i as nat, |j: int| 0u8));
            }
        }
        Machine {
            memory,
            memory_position: 0,
            next_instruction: 0,
            iterations_left: maximum_iterations,
            awaiting_input: false,
        }
    }

    /// Whether an `Input` waits for its byte.
    pub fn is_awaiting_input(&self) -> (r: bool)
        ensures
            r == self@.awaiting,
    {
        self.awaiting_input
    }

    /// Runs `instructions` until the program prints, reads, finishes or spends its budget.
    pub fn run(&mut self, instructions: &Vec<Instruction>) -> (e: Event)
        requires
            old(self).wf(),
            !old(self)@.awaiting,
        ensures
            final(self).wf(),
            (e, final(self)@) == run_until_event(instructions@, old(self)@),
    {
        let ghost start = self@;
        loop
            invariant
                self.wf(),
                !self@.awaiting,
                start == old(self)@,
                run_until_event(instructions@, self@) == run_until_event(instructions@, start),
            decreases self.iterations_left,
        {
            if self.iterations_left == 0 {
                proof {
                    assert(run_until_event(instructions@, self@) == (
                    Event::Terminated(ExecutionTerminationCondition::MaximumIterationsReached),
                    self@,
                    ));
                }
                return Event::Terminated(ExecutionTerminationCondition::MaximumIterationsReached);
            }
            if self.next_instruction >= instructions.len() {
                proof {
                    assert(run_until_event(instructions@, self@) == (
                    Event::Terminated(ExecutionTerminationCondition::AllInstructionsFinished),
                    self@,
                    ));
                }
                return Event::Terminated(ExecutionTerminationCondition::AllInstructionsFinished);
            }
            let ghost s = self@;
            let instruction = instructions[self.next_instruction];
            let position = self.memory_position;
            let cell = self.memory[position];
            self.iterations_left = self.iterations_left - 1;
            match instruction {
                Instruction::MoveRight => {
                    self.memory_position = (position + 1) % MEMORY_SIZE;
                },
                Instruction::MoveLeft => {
                    self.memory_position = if position == 0 {
                        MEMORY_SIZE - 1
                    } else {
                        position - 1
                    };
                },
                Instruction::Increment => {
                    self.memory.set(position, if cell == 255 { 0 } else { cell + 1 });
                },
                Instruction::Decrement => {
                    self.memory.set(position, if cell == 0 { 255 } else { cell - 1 });
                },
                Instruction::Output => {
                    self.next_instruction = self.next_instruction + 1;
                    proof {
                        assert(self@ == dispatch(instructions@, s));
                        assert(run_until_event(instructions@, s) == (Event::Output(cell), self@));
                    }
                    return Event::Output(cell);
                },
                Instruction::Input => {
                    self.awaiting_input = true;
                    return Event::NeedInput;
                },
                Instruction::JumpToLeft(target) => {
                    if cell == 0 {
                        self.next_instruction = target;
                        proof {
                            assert(self@ == dispatch(instructions@, s));
                        }
                        continue;
                    }
                },
                Instruction::JumpToRight(target) => {
                    if cell != 0 {
                        self.next_instruction = target;
                        proof {
                            assert(self@ == dispatch(instructions@, s));
                        }
                        continue;
                    }
                },
            }
            self.next_instruction = self.next_instruction + 1;
            proof {
                assert(self@.tape =~= dispatch(instructions@, s).tape);
                assert(self@ == dispatch(instructions@, s));
            }
        }
    }

    /// Stores the byte that the waiting `Input` asked for and moves past it.
    pub fn supply_input(&mut self, byte: u8)
        requires
            old(self).wf(),
            old(self)@.awaiting,
        ensures
            final(self).wf(),
            final(self)@ == after_input(old(self)@, byte),
    {
        let position = self.memory_position;
        self.memory.set(position, byte);
        self.next_instruction = self.next_instruction + 1;
        self.awaiting_input = false;
    }
}

/// Moving left from the first cell lands on the last one, and moving right from the
/// last cell lands on the first.
pub proof fn lemma_pointer_wraps(prog: Seq<Instruction>, s: MachineState)
    requires
        state_ok(s),
        s.fuel > 0,
        s.pc < prog.len(),
    ensures
        prog[s.pc as int] == Instruction::MoveLeft && s.ptr == 0 ==> dispatch(prog, s).ptr
            == MEMORY_SIZE - 1,
        prog[s.pc as int] == Instruction::MoveRight && s.ptr == MEMORY_SIZE - 1 ==> dispatch(
            prog,
            s,
        ).ptr == 0,
{
}

/// Incrementing a cell that holds 255 leaves 0 in it, and decrementing a cell that
/// holds 0 leaves 255.
pub proof fn lemma_cell_wraps(prog: Seq<Instruction>, s: MachineState)
    requires
        state_ok(s),
        s.fuel > 0,
        s.pc < prog.len(),
    ensures
        prog[s.pc as int] == Instruction::Increment && s.tape[s.ptr as int] == 255 ==> dispatch(
            prog,
            s,
        ).tape[s.ptr as int] == 0,
        prog[s.pc as int] == Instruction::Decrement && s.tape[s.ptr as int] == 0 ==> dispatch(
            prog,
            s,
        ).tape[s.ptr as int] == 255,
{
}

/// The program holds no loop jumps.
pub open spec fn jump_free(prog: Seq<Instruction>) -> bool {
    forall|i: int|
        0 <= i < prog.len() ==> !(#[trigger] prog[i] is JumpToLeft) && !(prog[i] is JumpToRight)
}

/// The furthest instruction a jump-free program can reach from `s` before its budget
/// is spent, counting the advance still owed by a waiting `Input`.
pub open spec fn reach(s: MachineState) -> nat {
    s.pc + s.fuel + if s.awaiting {
        1nat
    } else {
        0nat
    }
}

/// A jump-free program with more instructions than its budget never finishes: a fresh
/// execution starts with its reach below the program's length, every run and every
/// supplied byte keep it there, and no run under that bound reports
/// `AllInstructionsFinished`, so the execution ends with `MaximumIterationsReached`.
pub proof fn lemma_budget_ends_short_program(prog: Seq<Instruction>, s: MachineState, byte: u8)
    requires
        jump_free(prog),
        reach(s) < prog.len(),
    ensures
        reach(initial_state(s.fuel)) == s.fuel,
        !s.awaiting ==> run_until_event(prog, s).0 != Event::Terminated(
            ExecutionTerminationCondition::AllInstructionsFinished,
        ),
        !s.awaiting ==> reach(run_until_event(prog, s).1) < prog.len(),
        s.awaiting ==> reach(after_input(s, byte)) < prog.len(),
    decreases s.fuel,
{
    if !s.awaiting && s.fuel > 0 {
        let s1 = dispatch(prog, s);
        assert(!(prog[s.pc as int] is JumpToLeft) && !(prog[s.pc as int] is JumpToRight));
        assert(reach(s1) == reach(s));
        match prog[s.pc as int] {
            Instruction::Output => {},
            Instruction::Input => {},
            _ => {
                lemma_budget_ends_short_program(prog, s1, byte);
            },
        }
    }
}

} // verus!
