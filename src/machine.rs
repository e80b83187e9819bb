use vstd::prelude::*;

verus! {

/// Number of cells on the tape.
pub const TAPE_LEN: usize = 30000;

/// Why a run stopped.
#[derive(Copy, Clone, Debug, PartialEq, Eq, Structural)]
pub enum Status {
    /// The instruction pointer ran off the end of the program.
    Finished,
    /// An instruction the compiler proved to never terminate was reached.
    InfiniteLoop,
    /// The program addressed a cell outside the tape, which it has no right to do.
    AccessOutOfBounds,
    /// The step budget ran out first.
    StepLimit,
}

/// What one step asks of the host.
#[derive(Copy, Clone, Debug, PartialEq, Eq, Structural)]
pub enum Event {
    /// Nothing to do; step again.
    Continue,
    /// Emit this byte.
    Output(u8),
    /// The current instruction reads a byte: hand one over before stepping again.
    NeedInput,
    /// Execution has stopped.
    Halted(Status),
}

/// The state of a tape machine: the tape, the data pointer and the instruction pointer.
pub struct Machine {
    pub tape: Seq<u8>,
    pub dp: int,
    pub ip: int,
}

pub open spec fn in_tape(a: int) -> bool {
    0 <= a < TAPE_LEN
}

/// The state with the instruction pointer moved to the next instruction.
pub open spec fn advance(m: Machine) -> Machine {
    Machine { ip: m.ip + 1, ..m }
}

/// The state with `v` stored at tape address `a` and the next instruction current.
pub open spec fn store(m: Machine, a: int, v: u8) -> Machine {
    Machine { tape: m.tape.update(a, v), ip: m.ip + 1, ..m }
}

/// `x` reduced modulo 256.
pub open spec fn wrap(x: int) -> u8 {
    (x % 256) as u8
}

/// The start state: a zeroed tape, both pointers at zero.
pub open spec fn initial() -> Machine {
    Machine { tape: Seq::new(TAPE_LEN as nat, |i: int| 0u8), dp: 0, ip: 0 }
}

/// What a run with at most `fuel` steps returns: the bytes written, the number of input
/// bytes consumed, and why it stopped.
pub struct RunSpec {
    pub output: Seq<u8>,
    pub consumed: nat,
    pub status: Status,
}

/// Runs a machine with step relation `step` and read completion `read` on the bytes
/// `input`, of which `pos` are consumed, having written `out`. A read past the end of
/// the input gives zero and consumes nothing.
pub open spec fn run_from(
    step: spec_fn(Machine) -> (Machine, Event),
    read: spec_fn(Machine, u8) -> Machine,
    m: Machine,
    input: Seq<u8>,
    pos: nat,
    out: Seq<u8>,
    fuel: nat,
) -> RunSpec
    decreases fuel,
{
    if fuel == 0 {
        RunSpec { output: out, consumed: pos, status: Status::StepLimit }
    } else {
        let (next, e) = step(m);
        match e {
            Event::Continue => run_from(step, read, next, input, pos, out, (fuel - 1) as nat),
            Event::Output(b) => run_from(step, read, next, input, pos, out.push(b), (fuel - 1) as nat),
            Event::NeedInput => if pos < input.len() {
                run_from(step, read, read(m, input[pos as int]), input, pos + 1, out, (fuel - 1) as nat)
            } else {
                run_from(step, read, read(m, 0), input, pos, out, (fuel - 1) as nat)
            },
            Event::Halted(s) => RunSpec { output: out, consumed: pos, status: s },
        }
    }
}

/// The result of a run, as the library hands it out.
pub struct RunOutcome {
    pub output: Vec<u8>,
    pub consumed: usize,
    pub status: Status,
}

/// A zeroed tape.
pub fn zero_tape() -> (r: Vec<u8>)
    ensures
        r@ == initial().tape,
{
    let mut v: Vec<u8> = Vec::new();
    let mut i: usize = 0;
    while i < TAPE_LEN
        invariant
            i <= TAPE_LEN,
            v@.len() == i,
            forall|j: int| 0 <= j < i ==> v@[j] == 0,
        decreases TAPE_LEN - i,
    {
        v.push(0);
        i = i + 1;
    }
    assert(v@ =~= initial().tape);
    v
}

/// The tape address `dp + off`, where it lies on the tape.
pub fn address(dp: usize, off: isize) -> (r: Option<usize>)
    requires
        dp < TAPE_LEN,
    ensures
        in_tape(dp + off) ==> r == Some((dp + off) as usize),
        !in_tape(dp + off) ==> r is None,
{
    let a: i128 = dp as i128 + off as i128;
    if 0 <= a && a < TAPE_LEN as i128 {
        Some(a as usize)
    } else {
        None
    }
}

} // verus!
