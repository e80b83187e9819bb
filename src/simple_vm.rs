use vstd::prelude::*;

use crate::machine::{
    advance, in_tape, initial, run_from, store, wrap, zero_tape, Event, Machine, RunOutcome,
    RunSpec, Status, TAPE_LEN,
};
use crate::reference::Instr;

verus! {

/// Where a jump to the instruction after index `k` lands: past the end where `k` is not an
/// index of the program.
pub open spec fn after(code_len: int, k: int) -> int {
    if k < code_len {
        k + 1
    } else {
        code_len
    }
}

/// One step of the reference interpreter, which runs the source commands directly.
pub open spec fn simple_step(code: Seq<Instr>, m: Machine) -> (Machine, Event) {
    let oob = (m, Event::Halted(Status::AccessOutOfBounds));
    if m.ip < 0 || m.ip >= code.len() {
        (m, Event::Halted(Status::Finished))
    } else if !in_tape(m.dp) {
        oob
    } else {
        match code[m.ip] {
            Instr::LoopStart { end_ip, .. } => if m.tape[m.dp] == 0 {
                (Machine { ip: after(code.len() as int, end_ip as int), ..m }, Event::Continue)
            } else {
                (advance(m), Event::Continue)
            },
            Instr::LoopEnd { start_ip, .. } => if m.tape[m.dp] != 0 {
                (Machine { ip: after(code.len() as int, start_ip as int), ..m }, Event::Continue)
            } else {
                (advance(m), Event::Continue)
            },
            Instr::IncByte { .. } => (store(m, m.dp, wrap(m.tape[m.dp] + 1)), Event::Continue),
            Instr::DecByte { .. } => (store(m, m.dp, wrap(m.tape[m.dp] + 255)), Event::Continue),
            Instr::IncPtr { .. } => if in_tape(m.dp + 1) {
                (Machine { dp: m.dp + 1, ip: m.ip + 1, ..m }, Event::Continue)
            } else {
                oob
            },
            Instr::DecPtr { .. } => if in_tape(m.dp - 1) {
                (Machine { dp: m.dp - 1, ip: m.ip + 1, ..m }, Event::Continue)
            } else {
                oob
            },
            Instr::ReadByte { .. } => (m, Event::NeedInput),
            Instr::WriteByte { .. } => (advance(m), Event::Output(m.tape[m.dp])),
        }
    }
}

/// The state after the read that `m` waits on receives `b`.
pub open spec fn simple_read(code: Seq<Instr>, m: Machine, b: u8) -> Machine {
    if 0 <= m.ip < code.len() && in_tape(m.dp) && code[m.ip] is ReadByte {
        store(m, m.dp, b)
    } else {
        m
    }
}

pub open spec fn simple_stepper(code: Seq<Instr>) -> spec_fn(Machine) -> (Machine, Event) {
    |m: Machine| simple_step(code, m)
}

pub open spec fn simple_reader(code: Seq<Instr>) -> spec_fn(Machine, u8) -> Machine {
    |m: Machine, b: u8| simple_read(code, m, b)
}

/// A run of `code` from the start state on `input` with at most `fuel` steps.
pub open spec fn simple_run(code: Seq<Instr>, input: Seq<u8>, fuel: nat) -> RunSpec {
    run_from(simple_stepper(code), simple_reader(code), initial(), input, 0, seq![], fuel)
}

/// The reference interpreter: executes the parsed source without optimization.
pub struct SimpleVM {
    instr: Vec<Instr>,
    ip: usize,
    data: Vec<u8>,
    dp: usize,
}

impl SimpleVM {
    pub closed spec fn wf(&self) -> bool {
        &&& self.data@.len() == TAPE_LEN
        &&& self.dp < TAPE_LEN
    }

    /// A well-formed machine has a tape of `TAPE_LEN` cells and its data pointer on it.
    pub proof fn lemma_wf_tape(&self)
        requires
            self.wf(),
        ensures
            self.machine().tape.len() == TAPE_LEN,
            0 <= self.machine().dp < TAPE_LEN,
    {
    }

    pub closed spec fn code(&self) -> Seq<Instr> {
        self.instr@
    }

    pub closed spec fn machine(&self) -> Machine {
        Machine { tape: self.data@, dp: self.dp as int, ip: self.ip as int }
    }

    /// A machine at the start of `code`.
    pub fn new(code: Vec<Instr>) -> (r: Self)
        ensures
            r.wf(),
            r.code() == code@,
            r.machine() == initial(),
            r.machine().tape.len() == TAPE_LEN,
    {
        SimpleVM { instr: code, ip: 0, data: zero_tape(), dp: 0 }
    }

    fn set_current(&mut self, v: u8)
        requires
            old(self).wf(),
            old(self).ip < old(self).instr@.len(),
        ensures
            final(self).wf(),
            final(self).machine() == store(old(self).machine(), old(self).dp as int, v),
            final(self).code() == old(self).code(),
    {
        // the program length is a usize, so the next instruction index is one too
        let _ = self.instr.len();
        self.data.set(self.dp, v);
        self.ip = self.ip + 1;
        assert(self.machine().tape == store(old(self).machine(), old(self).dp as int, v).tape);
    }

    fn jump_after(&mut self, k: usize)
        requires
            old(self).wf(),
        ensures
            final(self).wf(),
            final(self).machine().tape.len() == TAPE_LEN,
            0 <= final(self).machine().dp < TAPE_LEN,
            final(self).code() == old(self).code(),
            final(self).machine() == (Machine {
                ip: after(old(self).instr@.len() as int, k as int),
                ..old(self).machine()
            }),
    {
        if k < self.instr.len() {
            self.ip = k + 1;
        } else {
            self.ip = self.instr.len();
        }
    }

    /// Executes one instruction. A read is announced with `NeedInput`, and
    /// `provide_input` completes it.
    pub fn step(&mut self) -> (e: Event)
        requires
            old(self).wf(),
        ensures
            final(self).wf(),
            final(self).machine().tape.len() == TAPE_LEN,
            0 <= final(self).machine().dp < TAPE_LEN,
            final(self).code() == old(self).code(),
            (final(self).machine(), e) == simple_step(old(self).code(), old(self).machine()),
    {
        if self.ip >= self.instr.len() {
            return Event::Halted(Status::Finished);
        }
        let cur = self.data[self.dp];
        match self.instr[self.ip] {
            Instr::LoopStart { end_ip, .. } => {
                if cur == 0 {
                    self.jump_after(end_ip);
                } else {
                    self.ip = self.ip + 1;
                }
                Event::Continue
            },
            Instr::LoopEnd { start_ip, .. } => {
                if cur != 0 {
                    self.jump_after(start_ip);
                } else {
                    self.ip = self.ip + 1;
                }
                Event::Continue
            },
            Instr::IncByte { .. } => {
                self.set_current(cur.wrapping_add(1));
                Event::Continue
            },
            Instr::DecByte { .. } => {
                self.set_current(cur.wrapping_sub(1));
                Event::Continue
            },
            Instr::IncPtr { .. } => {
                if self.dp + 1 < TAPE_LEN {
                    self.dp = self.dp + 1;
                    self.ip = self.ip + 1;
                    Event::Continue
                } else {
                    Event::Halted(Status::AccessOutOfBounds)
                }
            },
            Instr::DecPtr { .. } => {
                if self.dp > 0 {
                    self.dp = self.dp - 1;
                    self.ip = self.ip + 1;
                    Event::Continue
                } else {
                    Event::Halted(Status::AccessOutOfBounds)
                }
            },
            Instr::ReadByte { .. } => Event::NeedInput,
            Instr::WriteByte { .. } => {
                self.ip = self.ip + 1;
                Event::Output(cur)
            },
        }
    }

    /// Completes the read that the last step announced by storing `b`; does nothing where
    /// no read is pending.
    pub fn provide_input(&mut self, b: u8)
        requires
            old(self).wf(),
        ensures
            final(self).wf(),
            final(self).machine().tape.len() == TAPE_LEN,
            0 <= final(self).machine().dp < TAPE_LEN,
            final(self).code() == old(self).code(),
            final(self).machine() == simple_read(old(self).code(), old(self).machine(), b),
    {
        if self.ip < self.instr.len() {
            if let Instr::ReadByte { .. } = self.instr[self.ip] {
                self.set_current(b);
            }
        }
    }

    /// Runs the program on the bytes of `input` for at most `max_steps` steps. Reads past
    /// the end of `input` give zero.
    pub fn run_with_input(self, input: &Vec<u8>, max_steps: usize) -> (r: RunOutcome)
        requires
            self.wf(),
            self.machine() == initial(),
        ensures
            ({
                let s = simple_run(self.code(), input@, max_steps as nat);
                r.output@ == s.output && r.consumed == s.consumed && r.status == s.status
            }),
    {
        let ghost code = self.code();
        let mut vm = self;
        let ghost step = simple_stepper(code);
        let ghost read = simple_reader(code);
        let mut output: Vec<u8> = Vec::new();
        let mut pos: usize = 0;
        let mut steps: usize = 0;
        while steps < max_steps
            invariant
                vm.wf(),
                vm.code() == code,
                self.code() == code,
                step == simple_stepper(code),
                read == simple_reader(code),
                steps <= max_steps,
                pos <= input@.len(),
                run_from(step, read, vm.machine(), input@, pos as nat, output@, (max_steps - steps) as nat)
                    == simple_run(code, input@, max_steps as nat),
            decreases max_steps - steps,
        {
            let ghost m = vm.machine();
            let ghost out0 = output@;
            let ghost pos0 = pos as nat;
            let ghost fuel = (max_steps - steps) as nat;
            assert(step(m) == simple_step(code, m));
            let e = vm.step();
            match e {
                Event::Continue => {},
                Event::Output(b) => {
                    output.push(b);
                },
                Event::NeedInput => {
                    if pos < input.len() {
                        assert(read(m, input@[pos as int]) == simple_read(code, m, input@[pos as int]));
                        vm.provide_input(input[pos]);
                        pos = pos + 1;
                    } else {
                        assert(read(m, 0) == simple_read(code, m, 0));
                        vm.provide_input(0);
                    }
                },
                Event::Halted(st) => {
                    assert(run_from(step, read, m, input@, pos0, out0, fuel) == (RunSpec {
                        output: out0,
                        consumed: pos0,
                        status: st,
                    }));
                    return RunOutcome { output, consumed: pos, status: st };
                },
            }
            steps = steps + 1;
        }
        RunOutcome { output, consumed: pos, status: Status::StepLimit }
    }
}

} // verus!
