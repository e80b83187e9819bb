use vstd::prelude::*;

use crate::lower::CompiledInstr;
use crate::machine::{
    address, advance, in_tape, initial, run_from, store, wrap, zero_tape, Event, Machine,
    RunOutcome, RunSpec, Status, TAPE_LEN,
};

verus! {

/// One step of the bytecode interpreter on `code`. A read only signals `NeedInput`; the
/// byte is stored by `opt_read`.
pub open spec fn bytecode_step(code: Seq<CompiledInstr>, m: Machine) -> (Machine, Event) {
    let oob = (m, Event::Halted(Status::AccessOutOfBounds));
    if m.ip < 0 || m.ip >= code.len() {
        (m, Event::Halted(Status::Finished))
    } else {
        match code[m.ip] {
            CompiledInstr::JumpIfZero { cond_dp_offset, target_ip } => {
                let a = m.dp + cond_dp_offset;
                if !in_tape(a) {
                    oob
                } else if m.tape[a] == 0 {
                    (Machine { ip: target_ip as int, ..m }, Event::Continue)
                } else {
                    (advance(m), Event::Continue)
                }
            },
            CompiledInstr::JumpIfNonzero { cond_dp_offset, target_ip } => {
                let a = m.dp + cond_dp_offset;
                if !in_tape(a) {
                    oob
                } else if m.tape[a] != 0 {
                    (Machine { ip: target_ip as int, ..m }, Event::Continue)
                } else {
                    (advance(m), Event::Continue)
                }
            },
            CompiledInstr::InfiniteLoop => (m, Event::Halted(Status::InfiniteLoop)),
            CompiledInstr::AddPtr { amount } => if in_tape(m.dp + amount) {
                (Machine { dp: m.dp + amount, ip: m.ip + 1, ..m }, Event::Continue)
            } else {
                oob
            },
            CompiledInstr::SubPtr { amount } => if in_tape(m.dp - amount) {
                (Machine { dp: m.dp - amount, ip: m.ip + 1, ..m }, Event::Continue)
            } else {
                oob
            },
            CompiledInstr::AddData { amount, dp_offset } => {
                let a = m.dp + dp_offset;
                if in_tape(a) {
                    (store(m, a, wrap(m.tape[a] + amount)), Event::Continue)
                } else {
                    oob
                }
            },
            CompiledInstr::SetData { amount, dp_offset } => {
                let a = m.dp + dp_offset;
                if in_tape(a) {
                    (store(m, a, amount), Event::Continue)
                } else {
                    oob
                }
            },
            CompiledInstr::AddTwoData { source_dp_offset, target_dp_offset, source_amt_mult } => {
                let s = m.dp + source_dp_offset;
                let t = m.dp + target_dp_offset;
                if in_tape(s) && in_tape(t) {
                    (store(m, t, wrap(m.tape[t] + m.tape[s] * source_amt_mult)), Event::Continue)
                } else {
                    oob
                }
            },
            CompiledInstr::ReadByte { dp_offset } => if in_tape(m.dp + dp_offset) {
                (m, Event::NeedInput)
            } else {
                oob
            },
            CompiledInstr::WriteByte { dp_offset } => {
                let a = m.dp + dp_offset;
                if in_tape(a) {
                    (advance(m), Event::Output(m.tape[a]))
                } else {
                    oob
                }
            },
            CompiledInstr::WriteConst { out } => (advance(m), Event::Output(out)),
            CompiledInstr::AssertEquals { .. } => (advance(m), Event::Continue),
        }
    }
}

/// The state after the read that `m` waits on receives `b`.
pub open spec fn opt_read(code: Seq<CompiledInstr>, m: Machine, b: u8) -> Machine {
    if 0 <= m.ip < code.len() {
        match code[m.ip] {
            CompiledInstr::ReadByte { dp_offset } => if in_tape(m.dp + dp_offset) {
                store(m, m.dp + dp_offset, b)
            } else {
                m
            },
            _ => m,
        }
    } else {
        m
    }
}

pub open spec fn bytecode_stepper(code: Seq<CompiledInstr>) -> spec_fn(Machine) -> (Machine, Event) {
    |m: Machine| bytecode_step(code, m)
}

pub open spec fn opt_reader(code: Seq<CompiledInstr>) -> spec_fn(Machine, u8) -> Machine {
    |m: Machine, b: u8| opt_read(code, m, b)
}

/// A run of `code` from the start state on `input` with at most `fuel` steps.
pub open spec fn opt_run(code: Seq<CompiledInstr>, input: Seq<u8>, fuel: nat) -> RunSpec {
    run_from(
        bytecode_stepper(code),
        opt_reader(code),
        initial(),
        input,
        0,
        seq![],
        fuel,
    )
}

/// The bytecode interpreter: owns the program, the tape and both pointers.
pub struct OptVM {
    instr: Vec<CompiledInstr>,
    ip: usize,
    data: Vec<u8>,
    dp: usize,
}

impl OptVM {
    pub closed spec fn wf(&self) -> bool {
        &&& self.data@.len() == TAPE_LEN
        &&& self.dp < TAPE_LEN
    }

    /// A well-formed machine has a tape of `TAPE_LEN` cells and its data pointer on it.
    pub proof fn lemma_wf_tape(&self)
        requires
            self.wf(),
        ensures
            self.machine().tape.len() == TAPE_LEN,
            0 <= self.machine().dp < TAPE_LEN,
    {
    }

    pub closed spec fn code(&self) -> Seq<CompiledInstr> {
        self.instr@
    }

    pub closed spec fn machine(&self) -> Machine {
        Machine { tape: self.data@, dp: self.dp as int, ip: self.ip as int }
    }

    /// A machine at the start of `code`.
    pub fn new(code: Vec<CompiledInstr>) -> (r: Self)
        ensures
            r.wf(),
            r.code() == code@,
            r.machine() == initial(),
            r.machine().tape.len() == TAPE_LEN,
    {
        OptVM { instr: code, ip: 0, data: zero_tape(), dp: 0 }
    }

    fn set_cell(&mut self, a: usize, v: u8)
        requires
            old(self).wf(),
            old(self).ip < old(self).instr@.len(),
            a < TAPE_LEN,
        ensures
            final(self).wf(),
            final(self).machine() == store(old(self).machine(), a as int, v),
            final(self).code() == old(self).code(),
    {
        // the program length is a usize, so the next instruction index is one too
        let _ = self.instr.len();
        self.data.set(a, v);
        self.ip = self.ip + 1;
        assert(self.machine().tape == store(old(self).machine(), a as int, v).tape);
    }

    /// Executes one instruction. A read is not executed: it is announced with `NeedInput`,
    /// and `provide_input` completes it.
    pub fn step(&mut self) -> (e: Event)
        requires
            old(self).wf(),
        ensures
            final(self).wf(),
            final(self).machine().tape.len() == TAPE_LEN,
            0 <= final(self).machine().dp < TAPE_LEN,
            final(self).code() == old(self).code(),
            (final(self).machine(), e) == bytecode_step(old(self).code(), old(self).machine()),
    {
        if self.ip >= self.instr.len() {
            return Event::Halted(Status::Finished);
        }
        let ghost m = self.machine();
        let oob = Event::Halted(Status::AccessOutOfBounds);
        match self.instr[self.ip] {
            CompiledInstr::JumpIfZero { cond_dp_offset, target_ip } => {
                match address(self.dp, cond_dp_offset) {
                    None => oob,
                    Some(a) => {
                        if self.data[a] == 0 {
                            self.ip = target_ip;
                        } else {
                            self.ip = self.ip + 1;
                        }
                        Event::Continue
                    },
                }
            },
            CompiledInstr::JumpIfNonzero { cond_dp_offset, target_ip } => {
                match address(self.dp, cond_dp_offset) {
                    None => oob,
                    Some(a) => {
                        if self.data[a] != 0 {
                            self.ip = target_ip;
                        } else {
                            self.ip = self.ip + 1;
                        }
                        Event::Continue
                    },
                }
            },
            CompiledInstr::InfiniteLoop => Event::Halted(Status::InfiniteLoop),
            CompiledInstr::AddPtr { amount } => {
                if amount < TAPE_LEN - self.dp {
                    self.dp = self.dp + amount;
                    self.ip = self.ip + 1;
                    Event::Continue
                } else {
                    oob
                }
            },
            CompiledInstr::SubPtr { amount } => {
                if amount <= self.dp {
                    self.dp = self.dp - amount;
                    self.ip = self.ip + 1;
                    Event::Continue
                } else {
                    oob
                }
            },
            CompiledInstr::AddData { amount, dp_offset } => match address(self.dp, dp_offset) {
                None => oob,
                Some(a) => {
                    let v = self.data[a].wrapping_add(amount);
                    self.set_cell(a, v);
                    Event::Continue
                },
            },
            CompiledInstr::SetData { amount, dp_offset } => match address(self.dp, dp_offset) {
                None => oob,
                Some(a) => {
                    self.set_cell(a, amount);
                    Event::Continue
                },
            },
            CompiledInstr::AddTwoData { source_dp_offset, target_dp_offset, source_amt_mult } => {
                match (address(self.dp, source_dp_offset), address(self.dp, target_dp_offset)) {
                    (Some(s), Some(t)) => {
                        let x = self.data[s];
                        let y = self.data[t];
                        let addend = x.wrapping_mul(source_amt_mult);
                        let v = y.wrapping_add(addend);
                        assert(v == wrap(y + x * source_amt_mult)) by (nonlinear_arith)
                            requires
                                v == ((y + addend) % 256) as u8,
                                addend == ((x * source_amt_mult) % 256) as u8,
                        ;
                        self.set_cell(t, v);
                        Event::Continue
                    },
                    _ => oob,
                }
            },
            CompiledInstr::ReadByte { dp_offset } => match address(self.dp, dp_offset) {
                None => oob,
                Some(_) => Event::NeedInput,
            },
            CompiledInstr::WriteByte { dp_offset } => match address(self.dp, dp_offset) {
                None => oob,
                Some(a) => {
                    let b = self.data[a];
                    self.ip = self.ip + 1;
                    Event::Output(b)
                },
            },
            CompiledInstr::WriteConst { out } => {
                self.ip = self.ip + 1;
                Event::Output(out)
            },
            CompiledInstr::AssertEquals { .. } => {
                // advisory only
                self.ip = self.ip + 1;
                Event::Continue
            },
        }
    }

    /// Completes the read that the last step announced by storing `b`; does nothing where
    /// no read is pending.
    pub fn provide_input(&mut self, b: u8)
        requires
            old(self).wf(),
        ensures
            final(self).wf(),
            final(self).machine().tape.len() == TAPE_LEN,
            0 <= final(self).machine().dp < TAPE_LEN,
            final(self).code() == old(self).code(),
            final(self).machine() == opt_read(old(self).code(), old(self).machine(), b),
    {
        if self.ip < self.instr.len() {
            if let CompiledInstr::ReadByte { dp_offset } = self.instr[self.ip] {
                if let Some(a) = address(self.dp, dp_offset) {
                    self.set_cell(a, b);
                }
            }
        }
    }

    /// Runs the program on the bytes of `input` for at most `max_steps` steps. Reads past
    /// the end of `input` give zero.
    pub fn run_with_input(self, input: &Vec<u8>, max_steps: usize) -> (r: RunOutcome)
        requires
            self.wf(),
            self.machine() == initial(),
        ensures
            ({
                let s = opt_run(self.code(), input@, max_steps as nat);
                r.output@ == s.output && r.consumed == s.consumed && r.status == s.status
            }),
    {
        let ghost code = self.code();
        let mut vm = self;
        let ghost step = bytecode_stepper(code);
        let ghost read = opt_reader(code);
        let mut output: Vec<u8> = Vec::new();
        let mut pos: usize = 0;
        let mut steps: usize = 0;
        while steps < max_steps
            invariant
                vm.wf(),
                vm.code() == code,
                self.code() == code,
                step == bytecode_stepper(code),
                read == opt_reader(code),
                steps <= max_steps,
                pos <= input@.len(),
                run_from(step, read, vm.machine(), input@, pos as nat, output@, (max_steps - steps) as nat)
                    == opt_run(code, input@, max_steps as nat),
            decreases max_steps - steps,
        {
            let ghost m = vm.machine();
            let ghost out0 = output@;
            let ghost pos0 = pos as nat;
            let ghost fuel = (max_steps - steps) as nat;
            assert(step(m) == bytecode_step(code, m));
            let e = vm.step();
            let ghost m1 = vm.machine();
            match e {
                Event::Continue => {},
                Event::Output(b) => {
                    output.push(b);
                },
                Event::NeedInput => {
                    if pos < input.len() {
                        assert(read(m, input@[pos as int]) == opt_read(code, m, input@[pos as int]));
                        vm.provide_input(input[pos]);
                        pos = pos + 1;
                    } else {
                        assert(read(m, 0) == opt_read(code, m, 0));
                        vm.provide_input(0);
                    }
                },
                Event::Halted(st) => {
                    assert(run_from(step, read, m, input@, pos0, out0, fuel) == (RunSpec {
                        output: out0,
                        consumed: pos0,
                        status: st,
                    }));
                    return RunOutcome { output, consumed: pos, status: st };
                },
            }
            steps = steps + 1;
        }
        RunOutcome { output, consumed: pos, status: Status::StepLimit }
    }
}

} // verus!
