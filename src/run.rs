//! Running a program against input held in memory, for at most a given number
//! of steps, collecting what it writes.
use vstd::prelude::*;
use vstd::slice::slice_subrange;
use crate::op::Op;
use crate::compile::well_matched;
use crate::machine::{
    Action, Machine, MachineState, RuntimeError, initial_state, input_spec, step_spec,
};

verus! {

/// How a bounded run ended.
#[derive(Clone, Copy, Debug, PartialEq, Eq, Structural)]
pub enum Status {
    /// The instruction pointer went past the last instruction.
    Halted,
    /// The step budget ran out first.
    OutOfFuel,
    /// The machine stopped on an error.
    Failed(RuntimeError),
}

/// The end of a bounded run: how it ended, what it wrote, and the machine as it
/// was left.
pub struct Run {
    pub status: Status,
    pub output: Vec<char>,
    pub machine: Machine,
}

/// `n` copies of `ch`.
pub open spec fn repeated(ch: char, n: usize) -> Seq<char> {
    Seq::new(n as nat, |k: int| ch)
}

/// Running `p` from `s` on the bytes `input` for at most `fuel` instructions:
/// how it ends, the state it ends in, and the characters it writes.
pub open spec fn run_spec(p: Seq<Op>, s: MachineState, input: Seq<u8>, fuel: nat) -> (
    Status,
    MachineState,
    Seq<char>,
)
    decreases fuel,
{
    if s.ip >= p.len() {
        (Status::Halted, s, Seq::empty())
    } else if fuel == 0 {
        (Status::OutOfFuel, s, Seq::empty())
    } else {
        match step_spec(p, s) {
            Err(e) => (Status::Failed(e), s, Seq::empty()),
            Ok((a, s1)) => match a {
                Action::Read(n) => match input_spec(s1, n, input) {
                    Err(e) => (Status::Failed(e), s1, Seq::empty()),
                    Ok(s2) => run_spec(p, s2, input.skip(n as int), (fuel - 1) as nat),
                },
                Action::Write(ch, n) => {
                    let r = run_spec(p, s1, input, (fuel - 1) as nat);
                    (r.0, r.1, repeated(ch, n) + r.2)
                },
                _ => run_spec(p, s1, input, (fuel - 1) as nat),
            },
        }
    }
}

/// Runs `program` from the start, reading from `input`, for at most `fuel`
/// instructions; the result is exactly `run_spec`'s.
pub fn execute_with_input(program: &Vec<Op>, input: &[u8], fuel: usize) -> (r: Run)
    requires
        well_matched(program@),
    ensures
        ({
            let (status, state, output) = run_spec(program@, initial_state(), input@, fuel as nat);
            r.status == status && r.machine@ == state && r.output@ == output
        }),
{
    let mut m = Machine::new();
    let mut out: Vec<char> = Vec::new();
    let mut pos: usize = 0;
    let mut left: usize = fuel;
    assert(input@.skip(0) =~= input@);
    loop
        invariant
            m@.wf(),
            well_matched(program@),
            pos <= input@.len(),
            ({
                let whole = run_spec(program@, initial_state(), input@, fuel as nat);
                let rest = run_spec(program@, m@, input@.skip(pos as int), left as nat);
                whole.0 == rest.0 && whole.1 == rest.1 && whole.2 == out@ + rest.2
            }),
        decreases left,
    {
        if m.instruction_pointer() >= program.len() {
            assert(out@ + Seq::<char>::empty() =~= out@);
            return Run { status: Status::Halted, output: out, machine: m };
        }
        if left == 0 {
            assert(out@ + Seq::<char>::empty() =~= out@);
            return Run { status: Status::OutOfFuel, output: out, machine: m };
        }
        let ghost before = m@;
        let ghost out_before = out@;
        match m.step(program) {
            Err(e) => {
                assert(out@ + Seq::<char>::empty() =~= out@);
                return Run { status: Status::Failed(e), output: out, machine: m };
            },
            Ok(Action::Read(n)) => {
                let rest = slice_subrange(input, pos, input.len());
                assert(rest@ =~= input@.skip(pos as int));
                match m.supply_input(program, rest) {
                    Err(e) => {
                        assert(out@ + Seq::<char>::empty() =~= out@);
                        return Run { status: Status::Failed(e), output: out, machine: m };
                    },
                    Ok(()) => {
                        assert(input@.skip(pos as int).skip(n as int) =~= input@.skip(pos + n));
                        pos = pos + n;
                    },
                }
            },
            Ok(Action::Write(ch, n)) => {
                let mut k: usize = 0;
                while k < n
                    invariant
                        k <= n,
                        out@ =~= out_before + Seq::new(k as nat, |j: int| ch),
                    decreases n - k,
                {
                    out.push(ch);
                    k = k + 1;
                }
                let ghost tail = run_spec(program@, m@, input@.skip(pos as int), (left - 1) as nat).2;
                assert(out_before + (repeated(ch, n) + tail) =~= out@ + tail);
            },
            Ok(_) => {},
        }
        left = left - 1;
    }
}

} // verus!
