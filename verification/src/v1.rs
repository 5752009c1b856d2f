//! The first interpreter: it runs a flat list of single commands, one
//! instruction at a step, and finds the ends of loops as it goes.
//!
//! [`Interpreter::step`] runs one instruction and says what is to be done
//! for it outside: print a byte, read one, go on, or stop. Whoever drives
//! the interpreter does that and steps again.

use vstd::prelude::*;

verus! {

/// A single command.
#[derive(Debug)]
pub enum Instruction {
    ShiftLeft,
    ShiftRight,
    Increment,
    Decrement,
    StartLoop,
    EndLoop,
    Read,
    Print,
}

impl Instruction {
    /// The command that a character stands for, if it stands for one.
    pub fn from_char(c: char) -> (r: Option<Self>)
        ensures
            r == (if c == '>' {
                Some(Instruction::ShiftRight)
            } else if c == '<' {
                Some(Instruction::ShiftLeft)
            } else if c == '+' {
                Some(Instruction::Increment)
            } else if c == '-' {
                Some(Instruction::Decrement)
            } else if c == '[' {
                Some(Instruction::StartLoop)
            } else if c == ']' {
                Some(Instruction::EndLoop)
            } else if c == ',' {
                Some(Instruction::Read)
            } else if c == '.' {
                Some(Instruction::Print)
            } else {
                None
            }),
    {
        match c {
            '>' => Some(Instruction::ShiftRight),
            '<' => Some(Instruction::ShiftLeft),
            '+' => Some(Instruction::Increment),
            '-' => Some(Instruction::Decrement),
            '[' => Some(Instruction::StartLoop),
            ']' => Some(Instruction::EndLoop),
            ',' => Some(Instruction::Read),
            '.' => Some(Instruction::Print),
            _ => None,
        }
    }

    /// True iff this is the end of a loop.
    pub fn is_end_loop(&self) -> (r: bool)
        ensures
            r == (self is EndLoop),
    {
        match self {
            Instruction::EndLoop => true,
            _ => false,
        }
    }

    /// True iff this is the start of a loop.
    pub fn is_start_loop(&self) -> (r: bool)
        ensures
            r == (self is StartLoop),
    {
        match self {
            Instruction::StartLoop => true,
            _ => false,
        }
    }
}

/// What is to be done outside for the instruction that just ran.
#[derive(Debug, PartialEq, Eq)]
pub enum Action {
    /// Nothing: step again.
    Continue,
    /// This byte is to be printed.
    Print(u8),
    /// A byte is to be read and handed to [`Interpreter::store`].
    Read,
    /// The program has ended.
    Stop,
    /// The program cannot go on: the pointer would leave the tape, or a
    /// loop has no other end.
    Fault,
}

/// The state of the first interpreter, as a mathematical value.
pub struct Flat {
    /// The tape, as far as it has been touched.
    pub mem: Seq<u8>,
    /// The data pointer.
    pub ptr: nat,
    /// The index of the next instruction.
    pub pc: nat,
    /// The indices of the starts of the loops that are open, innermost last.
    pub stack: Seq<nat>,
}

/// The index of the end of the loop whose body is scanned at `j`, with
/// `depth` loops open there, if it has an end.
pub open spec fn find_end(instrs: Seq<Instruction>, j: nat, depth: nat) -> Option<nat>
    decreases instrs.len() - j,
{
    if j >= instrs.len() {
        None
    } else {
        match instrs[j as int] {
            Instruction::StartLoop => find_end(instrs, j + 1, depth + 1),
            Instruction::EndLoop => if depth <= 1 {
                Some(j)
            } else {
                find_end(instrs, j + 1, (depth - 1) as nat)
            },
            _ => find_end(instrs, j + 1, depth),
        }
    }
}

impl Flat {
    /// The tape grown, with zeros, until it holds the cell under the
    /// pointer.
    pub open spec fn grown(self) -> Flat {
        if self.ptr < self.mem.len() {
            self
        } else {
            Flat {
                mem: self.mem + Seq::new((self.ptr + 1 - self.mem.len()) as nat, |i: int| 0u8),
                ..self
            }
        }
    }

    /// What the cell under the pointer holds.
    pub open spec fn cell(self) -> u8 {
        if self.ptr < self.mem.len() {
            self.mem[self.ptr as int]
        } else {
            0
        }
    }

    /// The state after `value` was put in the cell under the pointer.
    pub open spec fn put(self, value: u8) -> Flat {
        let g = self.grown();
        Flat { mem: g.mem.update(self.ptr as int, value), ..g }
    }

    /// The state with the next instruction at `pc`.
    pub open spec fn at(self, pc: nat) -> Flat {
        Flat { pc, ..self }
    }
}

/// The state after one instruction of `instrs`, and what is to be done
/// outside. A fault and a read leave the state as it was.
pub open spec fn stepped(instrs: Seq<Instruction>, s: Flat) -> (Flat, Action) {
    if s.pc >= instrs.len() {
        (s, Action::Stop)
    } else {
        match instrs[s.pc as int] {
            Instruction::ShiftRight => if s.ptr >= usize::MAX {
                (s, Action::Fault)
            } else {
                (Flat { ptr: s.ptr + 1, pc: s.pc + 1, ..s }, Action::Continue)
            },
            Instruction::ShiftLeft => if s.ptr == 0 {
                (s, Action::Fault)
            } else {
                (Flat { ptr: (s.ptr - 1) as nat, pc: s.pc + 1, ..s }, Action::Continue)
            },
            _ => if s.ptr >= usize::MAX {
                (s, Action::Fault)
            } else {
                match instrs[s.pc as int] {
                    Instruction::Increment => (
                        s.put(((s.cell() + 1) % 256) as u8).at(s.pc + 1),
                        Action::Continue,
                    ),
                    Instruction::Decrement => (
                        s.put(((s.cell() + 255) % 256) as u8).at(s.pc + 1),
                        Action::Continue,
                    ),
                    Instruction::StartLoop => if s.cell() == 0 {
                        match find_end(instrs, s.pc + 1, 1) {
                            Some(end) => (s.grown().at(end + 1), Action::Continue),
                            None => (s, Action::Fault),
                        }
                    } else {
                        (
                            Flat { stack: s.stack.push(s.pc), ..s.grown().at(s.pc + 1) },
                            Action::Continue,
                        )
                    },
                    Instruction::EndLoop => if s.stack.len() == 0 {
                        (s, Action::Fault)
                    } else if s.cell() != 0 {
                        (s.grown().at(s.stack.last() + 1), Action::Continue)
                    } else {
                        (
                            Flat { stack: s.stack.drop_last(), ..s.grown().at(s.pc + 1) },
                            Action::Continue,
                        )
                    },
                    Instruction::Read => (s, Action::Read),
                    _ => (s.grown().at(s.pc + 1), Action::Print(s.cell())),
                }
            },
        }
    }
}

/// The first interpreter.
#[derive(Debug, Clone)]
pub struct Interpreter {
    /// The tape, as far as it has been touched.
    pub mem: Vec<u8>,
    /// The data pointer.
    pub ptr: usize,
    /// The index of the next instruction.
    pub pc: usize,
    /// The indices of the starts of the loops that are open, innermost last.
    pub loop_stack: Vec<usize>,
}

impl View for Interpreter {
    type V = Flat;

    open spec fn view(&self) -> Flat {
        Flat {
            mem: self.mem@,
            ptr: self.ptr as nat,
            pc: self.pc as nat,
            stack: Seq::new(self.loop_stack@.len(), |i: int| self.loop_stack@[i] as nat),
        }
    }
}

impl Default for Interpreter {
    fn default() -> (vm: Self)
        ensures
            vm@ == (Flat { mem: Seq::empty(), ptr: 0, pc: 0, stack: Seq::empty() }),
            vm.wf(),
    {
        Interpreter::new()
    }
}

impl Interpreter {
    /// True iff every open loop starts at an index that has a next one, as
    /// each index of an instruction has.
    pub open spec fn wf(&self) -> bool {
        forall|i: int| 0 <= i < self.loop_stack@.len() ==> #[trigger] self.loop_stack@[i] < usize::MAX
    }

    /// An interpreter with an empty tape, before the first instruction.
    pub fn new() -> (vm: Self)
        ensures
            vm@ == (Flat { mem: Seq::empty(), ptr: 0, pc: 0, stack: Seq::empty() }),
            vm.wf(),
    {
        let vm = Interpreter { mem: Vec::new(), ptr: 0, pc: 0, loop_stack: Vec::new() };
        assert(vm@.stack =~= Seq::<nat>::empty());
        vm
    }

    /// What the cell at `i` holds; the tape grows to hold it.
    fn get(&mut self, i: usize) -> (value: u8)
        requires
            i < usize::MAX,
            i == old(self).ptr,
        ensures
            value == old(self)@.cell(),
            final(self)@ == old(self)@.grown(),
            final(self).loop_stack == old(self).loop_stack,
    {
        if i >= self.mem.len() {
            let ghost before = self.mem@;
            self.mem.resize(i + 1, 0);
            assert(self.mem@ =~= before + Seq::new((i + 1 - before.len()) as nat, |k: int| 0u8));
        }
        self.mem[i]
    }

    /// The cell at `i`, for writing; the tape grows to hold it.
    fn get_mut(&mut self, i: usize) -> (slot: &mut u8)
        requires
            i < usize::MAX,
            i == old(self).ptr,
        ensures
            *slot == old(self)@.cell(),
            final(self)@ == old(self)@.put(*final(slot)),
            final(self).loop_stack == old(self).loop_stack,
    {
        if i >= self.mem.len() {
            let ghost before = self.mem@;
            self.mem.resize(i + 1, 0);
            assert(self.mem@ =~= before + Seq::new((i + 1 - before.len()) as nat, |k: int| 0u8));
        }
        &mut self.mem[i]
    }

    /// Runs the next instruction of `instructions`, and says what is to be
    /// done outside.
    #[verifier::loop_isolation(false)]
    pub fn step(&mut self, instructions: &[Instruction]) -> (action: Action)
        requires
            old(self).wf(),
        ensures
            final(self).wf(),
            (final(self)@, action) == stepped(instructions@, old(self)@),
    {
        let i = self.pc;
        if i >= instructions.len() {
            return Action::Stop;
        }
        match &instructions[i] {
            Instruction::ShiftRight => {
                if self.ptr == usize::MAX {
                    return Action::Fault;
                }
                self.ptr += 1;
            },
            Instruction::ShiftLeft => {
                if self.ptr == 0 {
                    return Action::Fault;
                }
                self.ptr -= 1;
            },
            Instruction::Increment => {
                if self.ptr == usize::MAX {
                    return Action::Fault;
                }
                let slot = self.get_mut(self.ptr);
                *slot = if *slot == 255 { 0 } else { *slot + 1 };
            },
            Instruction::Decrement => {
                if self.ptr == usize::MAX {
                    return Action::Fault;
                }
                let slot = self.get_mut(self.ptr);
                *slot = if *slot == 0 { 255 } else { *slot - 1 };
            },
            Instruction::StartLoop => {
                if self.ptr == usize::MAX {
                    return Action::Fault;
                }
                let value = if self.ptr < self.mem.len() {
                    self.mem[self.ptr]
                } else {
                    0
                };
                if value == 0 {
                    let mut depth: usize = 1;
                    let mut j: usize = i + 1;
                    while j < instructions.len()
                        invariant
                            i < j <= instructions@.len(),
                            1 <= depth <= j - i,
                            find_end(instructions@, (i + 1) as nat, 1) == find_end(
                                instructions@,
                                j as nat,
                                depth as nat,
                            ),
                            *self == *old(self),
                        decreases instructions@.len() - j,
                    {
                        if instructions[j].is_start_loop() {
                            depth += 1;
                        } else if instructions[j].is_end_loop() {
                            if depth == 1 {
                                let _ = self.get(self.ptr);
                                self.pc = j + 1;
                                return Action::Continue;
                            }
                            depth -= 1;
                        }
                        j += 1;
                    }
                    return Action::Fault;
                } else {
                    let _ = self.get(self.ptr);
                    self.loop_stack.push(i);
                    assert(self@.stack =~= old(self)@.stack.push(i as nat));
                }
            },
            Instruction::EndLoop => {
                if self.ptr == usize::MAX {
                    return Action::Fault;
                }
                if self.loop_stack.len() == 0 {
                    return Action::Fault;
                }
                if self.get(self.ptr) != 0 {
                    let start = self.loop_stack[self.loop_stack.len() - 1];
                    assert(self@.stack.last() == start);
                    self.pc = start + 1;
                    return Action::Continue;
                } else {
                    self.loop_stack.pop();
                    assert(self@.stack =~= old(self)@.stack.drop_last());
                }
            },
            Instruction::Read => {
                if self.ptr == usize::MAX {
                    return Action::Fault;
                }
                return Action::Read;
            },
            Instruction::Print => {
                if self.ptr == usize::MAX {
                    return Action::Fault;
                }
                let out = self.get(self.ptr);
                self.pc = i + 1;
                return Action::Print(out);
            },
        }
        self.pc = i + 1;
        Action::Continue
    }

    /// Puts the byte that was read in the cell under the pointer, and goes
    /// on to the next instruction. Where the pointer is out of range,
    /// nothing changes.
    pub fn store(&mut self, value: u8)
        requires
            old(self).wf(),
        ensures
            final(self).wf(),
            final(self)@ == (if old(self).ptr < usize::MAX && old(self).pc < usize::MAX {
                old(self)@.put(value).at(old(self)@.pc + 1)
            } else {
                old(self)@
            }),
    {
        if self.ptr < usize::MAX && self.pc < usize::MAX {
            let slot = self.get_mut(self.ptr);
            *slot = value;
            self.pc += 1;
        }
    }
}

} // verus!
