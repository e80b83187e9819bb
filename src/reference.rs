use vstd::prelude::*;

use crate::lexer::{balanced_chars, balanced_tokens, depth, lemma_balanced_chars, lex, tokens, BfCmd};

verus! {

/// An instruction of the unoptimized program, with the code point it came from. Loop
/// brackets carry the index of their partner.
#[derive(Copy, Clone, Debug, PartialEq, Eq, Structural)]
pub enum Instr {
    IncPtr { code_p: usize },
    DecPtr { code_p: usize },
    IncByte { code_p: usize },
    DecByte { code_p: usize },
    ReadByte { code_p: usize },
    WriteByte { code_p: usize },
    LoopStart { code_p: usize, end_ip: usize },
    LoopEnd { code_p: usize, start_ip: usize },
}

pub open spec fn instr_cmd(i: Instr) -> BfCmd {
    match i {
        Instr::IncPtr { .. } => BfCmd::IncPtr,
        Instr::DecPtr { .. } => BfCmd::DecPtr,
        Instr::IncByte { .. } => BfCmd::IncData,
        Instr::DecByte { .. } => BfCmd::DecData,
        Instr::ReadByte { .. } => BfCmd::ReadByte,
        Instr::WriteByte { .. } => BfCmd::WriteByte,
        Instr::LoopStart { .. } => BfCmd::LoopStart,
        Instr::LoopEnd { .. } => BfCmd::LoopEnd,
    }
}

pub open spec fn instr_code_p(i: Instr) -> usize {
    match i {
        Instr::IncPtr { code_p } => code_p,
        Instr::DecPtr { code_p } => code_p,
        Instr::IncByte { code_p } => code_p,
        Instr::DecByte { code_p } => code_p,
        Instr::ReadByte { code_p } => code_p,
        Instr::WriteByte { code_p } => code_p,
        Instr::LoopStart { code_p, .. } => code_p,
        Instr::LoopEnd { code_p, .. } => code_p,
    }
}

/// Token `e` is the `]` that closes the `[` at token `k`.
pub open spec fn matching(t: Seq<(usize, BfCmd)>, k: int, e: int) -> bool {
    &&& 0 <= k < e < t.len()
    &&& t[k].1 == BfCmd::LoopStart
    &&& t[e].1 == BfCmd::LoopEnd
    &&& depth(t, e + 1) == depth(t, k)
    &&& forall|j: int| k < j <= e ==> #[trigger] depth(t, j) > depth(t, k)
}

/// `code` is the instruction list for tokens `t`: one instruction per token, with its code
/// point, and each bracket pointing at its matching partner.
pub open spec fn program_of(code: Seq<Instr>, t: Seq<(usize, BfCmd)>) -> bool {
    &&& code.len() == t.len()
    &&& forall|k: int|
        0 <= k < code.len() ==> instr_cmd(#[trigger] code[k]) == t[k].1 && instr_code_p(code[k])
            == t[k].0
    &&& forall|k: int|
        0 <= k < code.len() ==> (#[trigger] code[k] matches Instr::LoopStart { end_ip, .. } ==> matching(
            t,
            k,
            end_ip as int,
        ))
    &&& forall|k: int|
        0 <= k < code.len() ==> (#[trigger] code[k] matches Instr::LoopEnd { start_ip, .. } ==> matching(
            t,
            start_ip as int,
            k,
        ))
}

spec fn on_stack(st: Seq<usize>, k: int) -> bool {
    exists|m: int| 0 <= m < st.len() && st[m] == k
}

fn instr_for(cmd: BfCmd, code_p: usize) -> (r: Instr)
    ensures
        instr_cmd(r) == cmd,
        instr_code_p(r) == code_p,
        r matches Instr::LoopStart { end_ip, .. } ==> end_ip == 0,
        r matches Instr::LoopEnd { start_ip, .. } ==> start_ip == 0,
{
    match cmd {
        BfCmd::IncPtr => Instr::IncPtr { code_p },
        BfCmd::DecPtr => Instr::DecPtr { code_p },
        BfCmd::IncData => Instr::IncByte { code_p },
        BfCmd::DecData => Instr::DecByte { code_p },
        BfCmd::ReadByte => Instr::ReadByte { code_p },
        BfCmd::WriteByte => Instr::WriteByte { code_p },
        BfCmd::LoopStart => Instr::LoopStart { code_p, end_ip: 0 },
        BfCmd::LoopEnd => Instr::LoopEnd { code_p, start_ip: 0 },
    }
}

/// Parses `input_str` into one instruction per command, with the brackets matched.
/// Fails exactly when the brackets are unbalanced.
pub fn parse(input_str: &str) -> (r: Result<Vec<Instr>, ()>)
    ensures
        r is Ok <==> balanced_tokens(tokens(input_str@)),
        r is Ok <==> balanced_chars(input_str@),
        r matches Ok(code) ==> program_of(code@, tokens(input_str@)),
{
    proof {
        lemma_balanced_chars(input_str@);
    }
    let toks = lex(input_str);
    let ghost t = toks@;
    let mut code: Vec<Instr> = Vec::new();
    // index of each loop start not yet closed
    let mut loop_stack: Vec<usize> = Vec::new();
    let mut i: usize = 0;
    while i < toks.len()
        invariant
            t == toks@,
            t == tokens(input_str@),
            balanced_tokens(tokens(input_str@)) <==> balanced_chars(input_str@),
            i <= t.len(),
            code@.len() == i,
            loop_stack@.len() == depth(t, i as int),
            forall|j: int| 0 <= j <= i ==> #[trigger] depth(t, j) >= 0,
            forall|m: int|
                0 <= m < loop_stack@.len() ==> {
                    &&& #[trigger] loop_stack@[m] < i
                    &&& t[loop_stack@[m] as int].1 == BfCmd::LoopStart
                    &&& depth(t, loop_stack@[m] as int) == m
                    &&& forall|j: int| loop_stack@[m] < j <= i ==> #[trigger] depth(t, j) > m
                },
            forall|k: int|
                0 <= k < i ==> instr_cmd(#[trigger] code@[k]) == t[k].1 && instr_code_p(code@[k])
                    == t[k].0,
            forall|k: int|
                0 <= k < i ==> (#[trigger] code@[k] matches Instr::LoopStart { end_ip, .. } ==> (
                on_stack(loop_stack@, k) || matching(t, k, end_ip as int))),
            forall|k: int|
                0 <= k < i ==> (#[trigger] code@[k] matches Instr::LoopEnd { start_ip, .. } ==> matching(
                    t,
                    start_ip as int,
                    k,
                )),
        decreases t.len() - i,
    {
        let (code_p, cmd) = toks[i];
        assert(depth(t, i + 1) == depth(t, i as int) + match cmd {
            BfCmd::LoopStart => 1int,
            BfCmd::LoopEnd => -1int,
            _ => 0int,
        });
        let ghost old_code = code@;
        let ghost old_stack = loop_stack@;
        match cmd {
            BfCmd::LoopEnd => {
                if loop_stack.len() == 0 {
                    assert(depth(t, i + 1) < 0);
                    assert(!balanced_tokens(t));
                    return Err(());
                }
                let start_ip = loop_stack.pop().unwrap();
                let ghost top = old_stack.len() - 1;
                assert(start_ip == old_stack[top]);
                let start_code_p = toks[start_ip].0;
                code.set(start_ip, Instr::LoopStart { code_p: start_code_p, end_ip: i });
                code.push(Instr::LoopEnd { code_p, start_ip });
                proof {
                    assert(matching(t, start_ip as int, i as int));
                    assert forall|k: int|
                        0 <= k < i + 1 && (#[trigger] code@[k] matches Instr::LoopStart { .. }) implies (
                        on_stack(loop_stack@, k) || matching(t, k, code@[k]->LoopStart_end_ip as int)) by {
                        if k != start_ip as int && k < i {
                            assert(code@[k] == old_code[k]);
                            if on_stack(old_stack, k) {
                                let m = choose|m: int| 0 <= m < old_stack.len() && old_stack[m] == k;
                                if m != top {
                                    assert(loop_stack@[m] == k);
                                }
                            }
                        }
                    };
                    assert forall|k: int|
                        0 <= k < i + 1 && (#[trigger] code@[k] matches Instr::LoopEnd { .. }) implies matching(t, code@[k]->LoopEnd_start_ip as int, k) by {
                        if k < i {
                            assert(code@[k] == old_code[k]);
                        }
                    };
                }
            },
            _ => {
                code.push(instr_for(cmd, code_p));
                if let BfCmd::LoopStart = cmd {
                    loop_stack.push(i);
                }
                proof {
                    assert forall|k: int|
                        0 <= k < i + 1 && (#[trigger] code@[k] matches Instr::LoopStart { .. }) implies (
                        on_stack(loop_stack@, k) || matching(t, k, code@[k]->LoopStart_end_ip as int)) by {
                        if k < i {
                            assert(code@[k] == old_code[k]);
                            if on_stack(old_stack, k) {
                                let m = choose|m: int| 0 <= m < old_stack.len() && old_stack[m] == k;
                                assert(loop_stack@[m] == k);
                            }
                        } else {
                            assert(loop_stack@[old_stack.len() as int] == k);
                        }
                    };
                    assert forall|k: int|
                        0 <= k < i + 1 && (#[trigger] code@[k] matches Instr::LoopEnd { .. }) implies matching(t, code@[k]->LoopEnd_start_ip as int, k) by {
                        if k < i {
                            assert(code@[k] == old_code[k]);
                        }
                    };
                }
            },
        }
        proof {
            assert forall|m: int| 0 <= m < loop_stack@.len() implies {
                &&& #[trigger] loop_stack@[m] < i + 1
                &&& t[loop_stack@[m] as int].1 == BfCmd::LoopStart
                &&& depth(t, loop_stack@[m] as int) == m
                &&& forall|j: int| loop_stack@[m] < j <= i + 1 ==> #[trigger] depth(t, j) > m
            } by {
                if m < old_stack.len() {
                    assert(loop_stack@[m] == old_stack[m]);
                    assert forall|j: int| loop_stack@[m] < j <= i + 1 implies #[trigger] depth(t, j) > m by {
                        if j == i + 1 {
                            assert(depth(t, i as int) > m);
                        }
                    };
                }
            };
        }
        i = i + 1;
    }
    if loop_stack.len() > 0 {
        assert(depth(t, t.len() as int) != 0);
        return Err(());
    }
    proof {
        assert forall|k: int|
            0 <= k < code@.len() implies (#[trigger] code@[k] matches Instr::LoopStart { end_ip, .. } ==> matching(
                t,
                k,
                end_ip as int,
            )) by {
            if code@[k] is LoopStart {
                assert(!on_stack(loop_stack@, k));
            }
        };
    }
    Ok(code)
}

} // verus!
