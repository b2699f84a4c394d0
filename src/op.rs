//! The instructions of a compiled program.
use vstd::prelude::*;

verus! {

/// `<`: move the cell pointer left.
pub const LEFT: u8 = 60;
/// `>`: move the cell pointer right.
pub const RIGHT: u8 = 62;
/// `+`: increment the current cell.
pub const PLUS: u8 = 43;
/// `-`: decrement the current cell.
pub const MINUS: u8 = 45;
/// `.`: write the current cell as a character.
pub const DOT: u8 = 46;
/// `,`: read a byte into the current cell.
pub const COMMA: u8 = 44;
/// `[`: start of a loop.
pub const OPEN: u8 = 91;
/// `]`: end of a loop.
pub const CLOSE: u8 = 93;

/// One instruction of a compiled program.
///
/// The six simple kinds carry a repeat count; the two brackets carry the index of
/// their partner in the same program.
#[derive(Clone, Copy, Debug, PartialEq, Eq, Structural)]
pub enum Op {
    MoveLeft(usize),
    MoveRight(usize),
    Increment(usize),
    Decrement(usize),
    Output(usize),
    Input(usize),
    LoopOpen(usize),
    LoopClose(usize),
}

/// The source byte of each simple instruction.
pub open spec fn is_simple_byte(c: u8) -> bool {
    c == LEFT || c == RIGHT || c == PLUS || c == MINUS || c == DOT || c == COMMA
}

/// The bytes that produce an instruction; every other byte is a comment.
pub open spec fn is_command_byte(c: u8) -> bool {
    is_simple_byte(c) || c == OPEN || c == CLOSE
}

/// The instruction that source byte `c` stands for, carrying `value`.
pub open spec fn op_of(c: u8, value: usize) -> Option<Op> {
    if c == LEFT {
        Some(Op::MoveLeft(value))
    } else if c == RIGHT {
        Some(Op::MoveRight(value))
    } else if c == PLUS {
        Some(Op::Increment(value))
    } else if c == MINUS {
        Some(Op::Decrement(value))
    } else if c == DOT {
        Some(Op::Output(value))
    } else if c == COMMA {
        Some(Op::Input(value))
    } else if c == OPEN {
        Some(Op::LoopOpen(value))
    } else if c == CLOSE {
        Some(Op::LoopClose(value))
    } else {
        None
    }
}

/// The source byte that an instruction comes from.
pub open spec fn byte_of(o: Op) -> u8 {
    match o {
        Op::MoveLeft(_) => LEFT,
        Op::MoveRight(_) => RIGHT,
        Op::Increment(_) => PLUS,
        Op::Decrement(_) => MINUS,
        Op::Output(_) => DOT,
        Op::Input(_) => COMMA,
        Op::LoopOpen(_) => OPEN,
        Op::LoopClose(_) => CLOSE,
    }
}

/// The number an instruction carries: a repeat count, or a bracket's partner.
pub open spec fn payload(o: Op) -> usize {
    match o {
        Op::MoveLeft(n) => n,
        Op::MoveRight(n) => n,
        Op::Increment(n) => n,
        Op::Decrement(n) => n,
        Op::Output(n) => n,
        Op::Input(n) => n,
        Op::LoopOpen(n) => n,
        Op::LoopClose(n) => n,
    }
}

/// Whether an instruction is one of the two brackets.
pub open spec fn is_bracket(o: Op) -> bool {
    o is LoopOpen || o is LoopClose
}

/// The instruction with its bracket target forgotten: what the source alone decides.
pub open spec fn shape(o: Op) -> Op {
    match o {
        Op::LoopOpen(_) => Op::LoopOpen(0),
        Op::LoopClose(_) => Op::LoopClose(0),
        _ => o,
    }
}

impl Op {
    /// The source byte this instruction comes from.
    pub fn source_byte(&self) -> (r: u8)
        ensures
            r == byte_of(*self),
    {
        match self {
            Op::MoveLeft(_) => LEFT,
            Op::MoveRight(_) => RIGHT,
            Op::Increment(_) => PLUS,
            Op::Decrement(_) => MINUS,
            Op::Output(_) => DOT,
            Op::Input(_) => COMMA,
            Op::LoopOpen(_) => OPEN,
            Op::LoopClose(_) => CLOSE,
        }
    }

    /// The repeat count or bracket target this instruction carries.
    pub fn value(&self) -> (r: usize)
        ensures
            r == payload(*self),
    {
        match self {
            Op::MoveLeft(n) => *n,
            Op::MoveRight(n) => *n,
            Op::Increment(n) => *n,
            Op::Decrement(n) => *n,
            Op::Output(n) => *n,
            Op::Input(n) => *n,
            Op::LoopOpen(n) => *n,
            Op::LoopClose(n) => *n,
        }
    }

    /// The instruction that byte `c` stands for, with `value` as its count or
    /// target; `None` for a comment byte.
    pub fn from_byte(c: u8, value: usize) -> (r: Option<Op>)
        ensures
            r == op_of(c, value),
            r is Some <==> is_command_byte(c),
    {
        if c == LEFT {
            Some(Op::MoveLeft(value))
        } else if c == RIGHT {
            Some(Op::MoveRight(value))
        } else if c == PLUS {
            Some(Op::Increment(value))
        } else if c == MINUS {
            Some(Op::Decrement(value))
        } else if c == DOT {
            Some(Op::Output(value))
        } else if c == COMMA {
            Some(Op::Input(value))
        } else if c == OPEN {
            Some(Op::LoopOpen(value))
        } else if c == CLOSE {
            Some(Op::LoopClose(value))
        } else {
            None
        }
    }
}

} // verus!
