use vstd::prelude::*;

use crate::ir::{nodes_wf, node_wf, AST};

verus! {

/// The flat bytecode that the optimized interpreter runs. Jump targets are absolute
/// instruction indices.
#[derive(Copy, Clone, Debug, PartialEq, Eq, Structural)]
pub enum CompiledInstr {
    /// If the cell at `cond_dp_offset` is zero, jump to `target_ip`; else go on.
    JumpIfZero { cond_dp_offset: isize, target_ip: usize },
    /// If the cell at `cond_dp_offset` is nonzero, jump to `target_ip`; else go on.
    JumpIfNonzero { cond_dp_offset: isize, target_ip: usize },
    /// The program was proved never to end from here: execution halts.
    InfiniteLoop,
    AddPtr { amount: usize },
    SubPtr { amount: usize },
    /// Adds `amount` (modulo 256) to the cell at `dp_offset`.
    AddData { amount: u8, dp_offset: isize },
    SetData { amount: u8, dp_offset: isize },
    /// `cell[target] += cell[source] * source_amt_mult`, modulo 256.
    AddTwoData { source_dp_offset: isize, target_dp_offset: isize, source_amt_mult: u8 },
    ReadByte { dp_offset: isize },
    WriteByte { dp_offset: isize },
    WriteConst { out: u8 },
    /// The compiler claims the cell at `dp_offset` holds `val` here.
    AssertEquals { dp_offset: isize, val: u8 },
}

/// The code for a loop with condition `cond` whose body lowers to `body`, placed at `base`:
/// a forward test that skips past the loop, the body, and a backward test to the header.
pub open spec fn loop_code(cond: isize, body: Seq<CompiledInstr>, base: int) -> Seq<
    CompiledInstr,
> {
    seq![CompiledInstr::JumpIfZero { cond_dp_offset: cond, target_ip: (base + body.len() + 2) as usize }]
        + body + seq![CompiledInstr::JumpIfNonzero { cond_dp_offset: cond, target_ip: base as usize }]
}

/// The code for a pointer shift by `k`: none for zero.
pub open spec fn shift_code(k: isize) -> Seq<CompiledInstr> {
    if k > 0 {
        seq![CompiledInstr::AddPtr { amount: k as usize }]
    } else if k < 0 {
        seq![CompiledInstr::SubPtr { amount: (-k) as usize }]
    } else {
        seq![]
    }
}

/// The bytecode for node `n` when its first instruction stands at index `base`.
pub open spec fn lower_node(n: AST, base: int) -> Seq<CompiledInstr>
    decreases n,
{
    match n {
        AST::Loop { cond_dp_offset, elements, .. } => loop_code(
            cond_dp_offset,
            lower_seq(elements@, base + 1),
            base,
        ),
        AST::IfNonZero { cond_dp_offset, elements } => {
            let body = lower_seq(elements@, base + 1);
            seq![CompiledInstr::JumpIfZero { cond_dp_offset, target_ip: (base + body.len() + 1) as usize }]
                + body
        },
        AST::ShiftLoop { cond_dp_offset, dp_shift, .. } => loop_code(
            cond_dp_offset,
            shift_code(dp_shift),
            base,
        ),
        AST::InfiniteLoop => seq![CompiledInstr::InfiniteLoop],
        AST::ShiftDataPtr { amount } => shift_code(amount),
        AST::ModData { kind, dp_offset } => match kind {
            crate::ir::DatamodKind::AddData { amount } => seq![CompiledInstr::AddData { amount, dp_offset }],
            crate::ir::DatamodKind::SetData { amount } => seq![CompiledInstr::SetData { amount, dp_offset }],
        },
        AST::CombineData { source_dp_offset, target_dp_offset, source_amt_mult } => seq![
            CompiledInstr::AddTwoData { source_dp_offset, target_dp_offset, source_amt_mult },
        ],
        AST::ReadByte { dp_offset } => seq![CompiledInstr::ReadByte { dp_offset }],
        AST::WriteByte { dp_offset } => seq![CompiledInstr::WriteByte { dp_offset }],
        AST::WriteConst { out } => seq![CompiledInstr::WriteConst { out }],
        AST::AssertEquals { dp_offset, val } => seq![CompiledInstr::AssertEquals { dp_offset, val }],
    }
}

/// The bytecode for the sequence `s` when its first instruction stands at index `base`.
pub open spec fn lower_seq(s: Seq<AST>, base: int) -> Seq<CompiledInstr>
    decreases s,
{
    if s.len() == 0 {
        seq![]
    } else {
        let init = s.subrange(0, s.len() - 1);
        let head = lower_seq(init, base);
        head + lower_node(s[s.len() - 1], base + head.len())
    }
}

/// The jumps of `code`, placed at index `base`, stay within the code: a forward test
/// jumps past itself to at most the end, and a backward test jumps to the forward test
/// that heads its loop, whose target is the instruction right after it.
pub open spec fn jumps_framed(code: Seq<CompiledInstr>, base: int) -> bool {
    &&& forall|i: int|
        #![trigger code[i]]
        0 <= i < code.len() ==> (code[i] matches CompiledInstr::JumpIfZero { target_ip, .. }
            ==> base + i < target_ip <= base + code.len())
    &&& forall|i: int|
        #![trigger code[i]]
        0 <= i < code.len() ==> (code[i] matches CompiledInstr::JumpIfNonzero {
            cond_dp_offset,
            target_ip,
        } ==> base <= target_ip < base + i && code[target_ip - base]
            == CompiledInstr::JumpIfZero { cond_dp_offset, target_ip: (base + i + 1) as usize })
}

proof fn lemma_framed_concat(a: Seq<CompiledInstr>, b: Seq<CompiledInstr>, base: int)
    requires
        jumps_framed(a, base),
        jumps_framed(b, base + a.len()),
    ensures
        jumps_framed(a + b, base),
{
    let c = a + b;
    assert forall|i: int| #![trigger c[i]] 0 <= i < c.len() implies (c[i] matches CompiledInstr::JumpIfNonzero {
        cond_dp_offset,
        target_ip,
    } ==> base <= target_ip < base + i && c[target_ip - base]
        == CompiledInstr::JumpIfZero { cond_dp_offset, target_ip: (base + i + 1) as usize }) by {
        if i >= a.len() {
            assert(c[i] == b[i - a.len()]);
        } else {
            assert(c[i] == a[i]);
        }
    };
    assert forall|i: int| #![trigger c[i]] 0 <= i < c.len() implies (c[i] matches CompiledInstr::JumpIfZero {
        target_ip,
        ..
    } ==> base + i < target_ip <= base + c.len()) by {
        if i >= a.len() {
            assert(c[i] == b[i - a.len()]);
        } else {
            assert(c[i] == a[i]);
        }
    };
}

proof fn lemma_shift_code_framed(k: isize, base: int)
    ensures
        jumps_framed(shift_code(k), base),
        shift_code(k).len() <= 1,
{
}

/// A forward test on `cond` that skips `body` and `tail`, then `body`, then `tail`: nothing
/// for a branch, or the backward test for a loop.
pub open spec fn guarded_code(
    cond: isize,
    body: Seq<CompiledInstr>,
    tail: Seq<CompiledInstr>,
    base: int,
) -> Seq<CompiledInstr> {
    seq![CompiledInstr::JumpIfZero { cond_dp_offset: cond, target_ip: (base + body.len() + 1 + tail.len()) as usize }]
        + body + tail
}

proof fn lemma_guarded_framed(
    cond: isize,
    body: Seq<CompiledInstr>,
    tail: Seq<CompiledInstr>,
    base: int,
)
    requires
        0 <= base,
        base + body.len() + 1 + tail.len() <= usize::MAX,
        jumps_framed(body, base + 1),
        tail.len() == 0 || tail == seq![
            CompiledInstr::JumpIfNonzero { cond_dp_offset: cond, target_ip: base as usize },
        ],
    ensures
        jumps_framed(guarded_code(cond, body, tail, base), base),
{
    let c = guarded_code(cond, body, tail, base);
    let n = body.len() as int;
    assert forall|i: int| #![trigger c[i]] 0 <= i < c.len() implies (c[i] matches CompiledInstr::JumpIfNonzero {
        cond_dp_offset,
        target_ip,
    } ==> base <= target_ip < base + i && c[target_ip - base]
        == CompiledInstr::JumpIfZero { cond_dp_offset, target_ip: (base + i + 1) as usize }) by {
        if 1 <= i <= n {
            assert(c[i] == body[i - 1]);
            if let CompiledInstr::JumpIfNonzero { target_ip, .. } = body[i - 1] {
                assert(body[i - 1] == body[(i - 1) as int]);
                assert(c[target_ip - base] == body[target_ip - (base + 1)]);
            }
        } else if i > n {
            assert(c[i] == tail[i - n - 1]);
            assert(c[0] == CompiledInstr::JumpIfZero { cond_dp_offset: cond, target_ip: (base + n + 1 + tail.len()) as usize });
        }
    };
    assert forall|i: int| #![trigger c[i]] 0 <= i < c.len() implies (c[i] matches CompiledInstr::JumpIfZero {
        target_ip,
        ..
    } ==> base + i < target_ip <= base + c.len()) by {
        if 1 <= i <= n {
            assert(c[i] == body[i - 1]);
        } else if i > n {
            assert(c[i] == tail[i - n - 1]);
        }
    };
}

proof fn lemma_lower_node_framed(n: AST, base: int)
    requires
        0 <= base,
        base + lower_node(n, base).len() <= usize::MAX,
    ensures
        jumps_framed(lower_node(n, base), base),
    decreases n,
{
    match n {
        AST::Loop { cond_dp_offset, elements, .. } => {
            let body = lower_seq(elements@, base + 1);
            let tail = seq![CompiledInstr::JumpIfNonzero { cond_dp_offset, target_ip: base as usize }];
            lemma_lower_seq_framed(elements@, base + 1);
            lemma_guarded_framed(cond_dp_offset, body, tail, base);
            assert(guarded_code(cond_dp_offset, body, tail, base) =~= lower_node(n, base));
        },
        AST::IfNonZero { cond_dp_offset, elements } => {
            let body = lower_seq(elements@, base + 1);
            lemma_lower_seq_framed(elements@, base + 1);
            lemma_guarded_framed(cond_dp_offset, body, seq![], base);
            assert(guarded_code(cond_dp_offset, body, seq![], base) =~= lower_node(n, base));
        },
        AST::ShiftLoop { cond_dp_offset, dp_shift, .. } => {
            let body = shift_code(dp_shift);
            let tail = seq![CompiledInstr::JumpIfNonzero { cond_dp_offset, target_ip: base as usize }];
            lemma_shift_code_framed(dp_shift, base + 1);
            lemma_guarded_framed(cond_dp_offset, body, tail, base);
            assert(guarded_code(cond_dp_offset, body, tail, base) =~= lower_node(n, base));
        },
        AST::ShiftDataPtr { amount } => {
            lemma_shift_code_framed(amount, base);
        },
        _ => {},
    }
}

proof fn lemma_lower_seq_framed(s: Seq<AST>, base: int)
    requires
        0 <= base,
        base + lower_seq(s, base).len() <= usize::MAX,
    ensures
        jumps_framed(lower_seq(s, base), base),
    decreases s,
{
    if s.len() > 0 {
        let init = s.subrange(0, s.len() - 1);
        let head = lower_seq(init, base);
        lemma_lower_seq_framed(init, base);
        lemma_lower_node_framed(s[s.len() - 1], base + head.len());
        lemma_framed_concat(head, lower_node(s[s.len() - 1], base + head.len()), base);
    }
}

/// Lowered bytecode is well formed: every jump target lies within `[0, len]`, every
/// backward test returns to a forward test on the same cell whose target is the
/// instruction right after the backward test, so the two frame one loop body.
pub proof fn lemma_lowered_jumps_in_bounds(s: Seq<AST>)
    requires
        lower_seq(s, 0).len() <= usize::MAX,
    ensures
        jumps_framed(lower_seq(s, 0), 0),
{
    lemma_lower_seq_framed(s, 0);
}

fn emit_shift(out: &mut Vec<CompiledInstr>, amount: isize)
    ensures
        final(out)@ == old(out)@ + shift_code(amount),
{
    if amount > 0 {
        out.push(CompiledInstr::AddPtr { amount: amount as usize });
    } else if amount < 0 {
        out.push(CompiledInstr::SubPtr { amount: (-(amount as i128)) as usize });
    }
    assert(out@ =~= old(out)@ + shift_code(amount));
}

fn compile_ast_helper(out: &mut Vec<CompiledInstr>, cmds: &Vec<AST>)
    requires
        nodes_wf(cmds@),
    ensures
        final(out)@ == old(out)@ + lower_seq(cmds@, old(out)@.len() as int),
        final(out)@.subrange(0, old(out)@.len() as int) == old(out)@,
        jumps_framed(
            final(out)@.subrange(old(out)@.len() as int, final(out)@.len() as int),
            old(out)@.len() as int,
        ),
    decreases cmds@,
{
    let ghost start = out@;
    let mut i: usize = 0;
    while i < cmds.len()
        invariant
            i <= cmds@.len(),
            nodes_wf(cmds@),
            out@ == start + lower_seq(cmds@.subrange(0, i as int), start.len() as int),
        decreases cmds@.len() - i,
    {
        let ghost before = out@;
        assert(node_wf(cmds@[i as int]));
        compile_node(out, &cmds[i]);
        proof {
            let pre = cmds@.subrange(0, i + 1);
            assert(pre.subrange(0, pre.len() - 1) =~= cmds@.subrange(0, i as int));
            assert(pre[pre.len() - 1] == cmds@[i as int]);
        }
        i = i + 1;
        assert(out@ =~= start + lower_seq(cmds@.subrange(0, i as int), start.len() as int));
    }
    assert(cmds@.subrange(0, i as int) =~= cmds@);
    // the code length is a usize, which the jump lemma needs
    let _ = out.len();
    proof {
        lemma_lower_seq_framed(cmds@, start.len() as int);
        assert(out@.subrange(start.len() as int, out@.len() as int) =~= lower_seq(cmds@, start.len() as int));
        assert(out@.subrange(0, start.len() as int) =~= start);
    }
}

fn compile_node(out: &mut Vec<CompiledInstr>, cmd: &AST)
    requires
        node_wf(*cmd),
    ensures
        final(out)@ == old(out)@ + lower_node(*cmd, old(out)@.len() as int),
    decreases *cmd,
{
    let ghost base = out@.len() as int;
    match cmd {
        AST::Loop { elements, cond_dp_offset, .. } => {
            let start_ip = out.len();
            // the target is known only once the body is lowered
            out.push(CompiledInstr::JumpIfZero { target_ip: 0, cond_dp_offset: *cond_dp_offset });
            compile_ast_helper(out, elements);
            out.push(CompiledInstr::JumpIfNonzero { target_ip: start_ip, cond_dp_offset: *cond_dp_offset });
            let end_ip = out.len();
            out.set(start_ip, CompiledInstr::JumpIfZero { target_ip: end_ip, cond_dp_offset: *cond_dp_offset });
            assert(out@ =~= old(out)@ + lower_node(*cmd, base));
        },
        AST::IfNonZero { elements, cond_dp_offset } => {
            let start_ip = out.len();
            out.push(CompiledInstr::JumpIfZero { target_ip: 0, cond_dp_offset: *cond_dp_offset });
            compile_ast_helper(out, elements);
            let end_ip = out.len();
            out.set(start_ip, CompiledInstr::JumpIfZero { target_ip: end_ip, cond_dp_offset: *cond_dp_offset });
            assert(out@ =~= old(out)@ + lower_node(*cmd, base));
        },
        AST::ShiftLoop { cond_dp_offset, dp_shift, .. } => {
            let start_ip = out.len();
            out.push(CompiledInstr::JumpIfZero { target_ip: 0, cond_dp_offset: *cond_dp_offset });
            emit_shift(out, *dp_shift);
            out.push(CompiledInstr::JumpIfNonzero { target_ip: start_ip, cond_dp_offset: *cond_dp_offset });
            let end_ip = out.len();
            out.set(start_ip, CompiledInstr::JumpIfZero { target_ip: end_ip, cond_dp_offset: *cond_dp_offset });
            assert(out@ =~= old(out)@ + lower_node(*cmd, base));
        },
        AST::InfiniteLoop => out.push(CompiledInstr::InfiniteLoop),
        AST::ShiftDataPtr { amount } => emit_shift(out, *amount),
        AST::ModData { kind, dp_offset } => {
            out.push(
                match kind {
                    crate::ir::DatamodKind::AddData { amount } => CompiledInstr::AddData {
                        amount: *amount,
                        dp_offset: *dp_offset,
                    },
                    crate::ir::DatamodKind::SetData { amount } => CompiledInstr::SetData {
                        amount: *amount,
                        dp_offset: *dp_offset,
                    },
                },
            );
        },
        AST::CombineData { source_dp_offset, target_dp_offset, source_amt_mult } => {
            out.push(
                CompiledInstr::AddTwoData {
                    source_dp_offset: *source_dp_offset,
                    target_dp_offset: *target_dp_offset,
                    source_amt_mult: *source_amt_mult,
                },
            );
        },
        AST::ReadByte { dp_offset } => out.push(CompiledInstr::ReadByte { dp_offset: *dp_offset }),
        AST::WriteByte { dp_offset } => out.push(CompiledInstr::WriteByte { dp_offset: *dp_offset }),
        AST::WriteConst { out: out_byte } => out.push(CompiledInstr::WriteConst { out: *out_byte }),
        AST::AssertEquals { dp_offset, val } => out.push(
            CompiledInstr::AssertEquals { dp_offset: *dp_offset, val: *val },
        ),
    }
}

/// Lowers the tree IR to flat bytecode with resolved jump targets.
pub fn compile_ast(cmds: &Vec<AST>) -> (r: Vec<CompiledInstr>)
    requires
        nodes_wf(cmds@),
    ensures
        r@ == lower_seq(cmds@, 0),
        jumps_framed(r@, 0),
{
    let mut out: Vec<CompiledInstr> = Vec::new();
    compile_ast_helper(&mut out, cmds);
    assert(out@ =~= lower_seq(cmds@, 0));
    // the code length is a usize, which the jump lemma needs
    let _ = out.len();
    proof {
        lemma_lowered_jumps_in_bounds(cmds@);
    }
    out
}

} // verus!
