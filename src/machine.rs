//! The machine that runs a compiled program: a tape of cells that grows to the
//! right, a cell pointer and an instruction pointer.
//!
//! The machine does no input or output itself. Each `step` runs one instruction
//! and says what, if anything, the caller has to do outside: write a character,
//! or read bytes and hand them back through `supply_input`.
use vstd::prelude::*;
use vstd::arithmetic::div_mod::{lemma_add_mod_noop_right, lemma_mod_multiples_vanish};
use crate::op::{Op, payload};
use crate::compile::well_matched;

verus! {

/// The abstract state of a machine.
pub struct MachineState {
    pub tape: Seq<i32>,
    pub cell: nat,
    pub ip: nat,
}

impl MachineState {
    /// The tape is never empty and the cell pointer is on it.
    pub open spec fn wf(self) -> bool {
        0 < self.tape.len() && self.cell < self.tape.len()
    }

    /// The value of the cell under the pointer.
    pub open spec fn current(self) -> i32 {
        self.tape[self.cell as int]
    }
}

/// The state before the first instruction: one zero cell, both pointers at zero.
pub open spec fn initial_state() -> MachineState {
    MachineState { tape: seq![0i32], cell: 0, ip: 0 }
}

/// `x` reduced to a 32-bit signed cell value, wrapping around.
pub open spec fn wrap_cell(x: int) -> i32 {
    let r = x % 0x1_0000_0000;
    if r > i32::MAX {
        (r - 0x1_0000_0000) as i32
    } else {
        r as i32
    }
}

/// The Unicode scalar values: the code points outside the surrogate range.
pub open spec fn is_scalar_value(v: int) -> bool {
    (0 <= v <= 0xD7FF) || (0xE000 <= v <= 0x10FFFF)
}

/// The character a cell value stands for, if it is a Unicode scalar value.
pub open spec fn char_of_cell(v: i32) -> Option<char> {
    if is_scalar_value(v as int) {
        Some(v as char)
    } else {
        None
    }
}

/// `tape`, with zero cells appended until cell `c` exists.
pub open spec fn grown(tape: Seq<i32>, c: int) -> Seq<i32> {
    if c < tape.len() {
        tape
    } else {
        tape + Seq::new((c + 1 - tape.len()) as nat, |k: int| 0i32)
    }
}

/// What the caller of `step` has to do after it.
#[derive(Clone, Copy, Debug, PartialEq, Eq, Structural)]
pub enum Action {
    /// An instruction ran that needs nothing from outside.
    Continue,
    /// An output instruction ran: write the character this many times.
    Write(char, usize),
    /// The next instruction reads this many bytes: nothing ran yet; hand the
    /// bytes to `supply_input`.
    Read(usize),
    /// The instruction pointer is past the last instruction: the program is done.
    Halt,
}

/// Why a program stopped before its end.
#[derive(Clone, Copy, Debug, PartialEq, Eq, Structural)]
pub enum RuntimeError {
    /// The cell pointer would have gone below zero, or past the largest address.
    RangeError,
    /// The input ran out before an input instruction had all its bytes.
    InputError,
}

/// The state after an instruction that falls through to the next one.
pub open spec fn advanced(s: MachineState) -> MachineState {
    MachineState { ip: (s.ip + 1) as nat, ..s }
}

/// The state after a jump to the bracket at `j`: execution goes on just past it.
pub open spec fn jumped(s: MachineState, j: usize) -> MachineState {
    MachineState { ip: (j + 1) as nat, ..s }
}

/// The state with the current cell set to `v`, then advanced.
pub open spec fn stored(s: MachineState, v: i32) -> MachineState {
    MachineState { tape: s.tape.update(s.cell as int, v), ip: (s.ip + 1) as nat, ..s }
}

/// One step of program `p` from state `s`: the action for the caller and the
/// next state, or the error that stops the machine.
pub open spec fn step_spec(p: Seq<Op>, s: MachineState) -> Result<(Action, MachineState), RuntimeError> {
    if s.ip >= p.len() {
        Ok((Action::Halt, s))
    } else {
        let v = s.current();
        match p[s.ip as int] {
            Op::MoveLeft(n) => if n > s.cell {
                Err(RuntimeError::RangeError)
            } else {
                Ok((Action::Continue, MachineState { cell: (s.cell - n) as nat, ..advanced(s) }))
            },
            Op::MoveRight(n) => if s.cell + n >= usize::MAX {
                Err(RuntimeError::RangeError)
            } else {
                Ok(
                    (
                        Action::Continue,
                        MachineState {
                            tape: grown(s.tape, s.cell + n),
                            cell: (s.cell + n) as nat,
                            ..advanced(s)
                        },
                    ),
                )
            },
            Op::Increment(n) => Ok((Action::Continue, stored(s, wrap_cell(v + n)))),
            Op::Decrement(n) => Ok((Action::Continue, stored(s, wrap_cell(v - n)))),
            Op::Output(n) => match char_of_cell(v) {
                Some(ch) => Ok((Action::Write(ch, n), advanced(s))),
                None => Ok((Action::Continue, advanced(s))),
            },
            Op::Input(n) => Ok((Action::Read(n), s)),
            Op::LoopOpen(j) => if v == 0 {
                Ok((Action::Continue, jumped(s, j)))
            } else {
                Ok((Action::Continue, advanced(s)))
            },
            Op::LoopClose(j) => if v != 0 {
                Ok((Action::Continue, jumped(s, j)))
            } else {
                Ok((Action::Continue, advanced(s)))
            },
        }
    }
}

/// The state after an input instruction that reads `n` bytes from `bytes`: the
/// current cell holds the last of them. Fails when fewer than `n` are given.
pub open spec fn input_spec(s: MachineState, n: usize, bytes: Seq<u8>) -> Result<MachineState, RuntimeError> {
    if bytes.len() < n {
        Err(RuntimeError::InputError)
    } else if n == 0 {
        Ok(advanced(s))
    } else {
        Ok(stored(s, bytes[n - 1] as i32))
    }
}

/// A machine running a program.
pub struct Machine {
    tape: Vec<i32>,
    cell: usize,
    ip: usize,
}

impl View for Machine {
    type V = MachineState;

    closed spec fn view(&self) -> MachineState {
        MachineState { tape: self.tape@, cell: self.cell as nat, ip: self.ip as nat }
    }
}

/// Relies on `char::from_u32`: the character with code `code` exactly when
/// `code` is a Unicode scalar value, `None` otherwise.
#[verifier::external_body]
fn char_from_code(code: u32) -> (r: Option<char>)
    ensures
        r == (if is_scalar_value(code as int) {
            Some(code as char)
        } else {
            None
        }),
{
    char::from_u32(code)
}

/// `v + m` wrapped, for an `m` below 2^32.
fn add_below_modulus(v: i32, m: u32) -> (r: i32)
    ensures
        r == wrap_cell(v + m),
{
    proof {
        let x = v + m;
        if x < 0 {
            lemma_mod_multiples_vanish(-1, x + 0x1_0000_0000, 0x1_0000_0000);
        } else if x >= 0x1_0000_0000 {
            lemma_mod_multiples_vanish(1, x - 0x1_0000_0000, 0x1_0000_0000);
        }
    }
    v.wrapping_add_unsigned(m)
}

/// `v + n`, wrapped to a cell value.
fn cell_plus(v: i32, n: usize) -> (r: i32)
    ensures
        r == wrap_cell(v + n),
{
    let m = (n as u64 % 0x1_0000_0000u64) as u32;
    proof {
        lemma_add_mod_noop_right(v as int, n as int, 0x1_0000_0000);
    }
    add_below_modulus(v, m)
}

/// `v - n`, wrapped to a cell value.
fn cell_minus(v: i32, n: usize) -> (r: i32)
    ensures
        r == wrap_cell(v - n),
{
    let m = n as u64 % 0x1_0000_0000u64;
    let back = ((0x1_0000_0000u64 - m) % 0x1_0000_0000u64) as u32;
    proof {
        let q = n as int / 0x1_0000_0000;
        assert(n as int == 0x1_0000_0000 * q + m);
        if m == 0 {
            assert(back == 0);
            lemma_mod_multiples_vanish(-q, v as int, 0x1_0000_0000);
            assert(v - n == 0x1_0000_0000 * (-q) + v);
        } else {
            assert(back == 0x1_0000_0000 - m);
            lemma_mod_multiples_vanish(-q - 1, v + back, 0x1_0000_0000);
            assert(v - n == 0x1_0000_0000 * (-q - 1) + (v + back)) by (nonlinear_arith)
                requires
                    n as int == 0x1_0000_0000 * q + m,
                    back == 0x1_0000_0000 - m,
            ;
        }
    }
    add_below_modulus(v, back)
}

impl Machine {
    /// A machine at the start: one zero cell, both pointers at zero.
    pub fn new() -> (m: Machine)
        ensures
            m@ == initial_state(),
            m@.wf(),
    {
        let mut tape: Vec<i32> = Vec::new();
        tape.push(0);
        assert(tape@ =~= seq![0i32]);
        Machine { tape, cell: 0, ip: 0 }
    }

    /// The cells of the tape, from address zero up.
    pub fn tape(&self) -> (r: &Vec<i32>)
        ensures
            r@ == self@.tape,
    {
        &self.tape
    }

    /// The address of the current cell.
    pub fn cell_pointer(&self) -> (r: usize)
        ensures
            r == self@.cell,
    {
        self.cell
    }

    /// The index of the next instruction.
    pub fn instruction_pointer(&self) -> (r: usize)
        ensures
            r == self@.ip,
    {
        self.ip
    }

    /// Runs the instruction under the instruction pointer.
    ///
    /// The result and the new state are those of `step_spec`; on an error the
    /// machine is left as it was.
    pub fn step(&mut self, program: &Vec<Op>) -> (r: Result<Action, RuntimeError>)
        requires
            old(self)@.wf(),
            well_matched(program@),
        ensures
            final(self)@.wf(),
            step_spec(program@, old(self)@) matches Ok((a, s)) ==> r == Ok::<Action, RuntimeError>(a)
                && final(self)@ == s,
            step_spec(program@, old(self)@) matches Err(e) ==> r == Err::<Action, RuntimeError>(e)
                && final(self)@ == old(self)@,
    {
        let ip = self.ip;
        if ip >= program.len() {
            return Ok(Action::Halt);
        }
        let op = program[ip];
        let v = self.tape[self.cell];
        match op {
            Op::MoveLeft(n) => {
                if n > self.cell {
                    return Err(RuntimeError::RangeError);
                }
                self.cell = self.cell - n;
                self.ip = ip + 1;
                Ok(Action::Continue)
            },
            Op::MoveRight(n) => {
                if n >= usize::MAX - self.cell {
                    return Err(RuntimeError::RangeError);
                }
                let c = self.cell + n;
                let ghost start = self.tape@;
                while self.tape.len() <= c
                    invariant
                        start.len() <= self.tape@.len() <= if c < start.len() {
                            start.len() as int
                        } else {
                            c + 1
                        },
                        self.tape@ =~= start + Seq::new(
                            (self.tape@.len() - start.len()) as nat,
                            |k: int| 0i32,
                        ),
                    decreases c + 1 - self.tape@.len(),
                {
                    self.tape.push(0);
                }
                assert(self.tape@ =~= grown(start, c as int));
                self.cell = c;
                self.ip = ip + 1;
                Ok(Action::Continue)
            },
            Op::Increment(n) => {
                let cell = self.cell;
                self.tape.set(cell, cell_plus(v, n));
                self.ip = ip + 1;
                Ok(Action::Continue)
            },
            Op::Decrement(n) => {
                let cell = self.cell;
                self.tape.set(cell, cell_minus(v, n));
                self.ip = ip + 1;
                Ok(Action::Continue)
            },
            Op::Output(n) => {
                self.ip = ip + 1;
                if v < 0 {
                    Ok(Action::Continue)
                } else {
                    match char_from_code(v as u32) {
                        Some(ch) => Ok(Action::Write(ch, n)),
                        None => Ok(Action::Continue),
                    }
                }
            },
            Op::Input(n) => Ok(Action::Read(n)),
            Op::LoopOpen(j) => {
                if v == 0 {
                    self.ip = j + 1;
                } else {
                    self.ip = ip + 1;
                }
                Ok(Action::Continue)
            },
            Op::LoopClose(j) => {
                if v != 0 {
                    self.ip = j + 1;
                } else {
                    self.ip = ip + 1;
                }
                Ok(Action::Continue)
            },
        }
    }

    /// Finishes the input instruction under the instruction pointer with the
    /// bytes read for it, as `input_spec` says; on an error the machine is left
    /// as it was.
    pub fn supply_input(&mut self, program: &Vec<Op>, bytes: &[u8]) -> (r: Result<(), RuntimeError>)
        requires
            old(self)@.wf(),
            old(self)@.ip < program@.len(),
            program@[old(self)@.ip as int] is Input,
        ensures
            final(self)@.wf(),
            input_spec(old(self)@, payload(program@[old(self)@.ip as int]), bytes@) matches Ok(s)
                ==> r is Ok && final(self)@ == s,
            input_spec(old(self)@, payload(program@[old(self)@.ip as int]), bytes@) matches Err(e)
                ==> r == Err::<(), RuntimeError>(e) && final(self)@ == old(self)@,
    {
        let ip = self.ip;
        assert(ip < program.len());
        let n = program[ip].value();
        if bytes.len() < n {
            return Err(RuntimeError::InputError);
        }
        if n > 0 {
            let cell = self.cell;
            self.tape.set(cell, bytes[n - 1] as i32);
        }
        self.ip = ip + 1;
        Ok(())
    }
}

} // verus!
