use vstd::prelude::*;

use crate::ir::{
    same_ir, same_ir_seq, apply_kind, collapse_kinds, compose_kinds, lemma_collapse_kinds_sound, node_wf, nodes_wf,
    offset_ok, DatamodKind, AST, OFFSET_LIMIT,
};
use crate::semantics::{
    all_straight, exec_node, exec_seq, is_straight, lemma_body_congruent, lemma_exec_push,
    lemma_exec_short, lemma_loop_exit, lemma_run_append, lemma_run_straight, run_node, run_seq,
    same_behaviour, same_node_behaviour, Conf, Run,
};

verus! {

/// What fusing an accumulated node with the next one gives.
enum Fused {
    /// The two became this one node, which may fuse further.
    One(AST),
    /// The two cancelled out.
    Neither,
    /// No rule applies: the first is final, the second accumulates.
    Both(AST, AST),
}

/// The peephole rule for straight-line code that applies to the adjacent pair `a, b`, if
/// any: the nodes that replace the pair (none where the two cancel out).
pub open spec fn fuse_rule(a: AST, b: AST) -> Option<Seq<AST>> {
    match (a, b) {
        (
            AST::ModData { kind: k1, dp_offset: d1 },
            AST::ModData { kind: k2, dp_offset: d2 },
        ) => if d1 == d2 {
            let k = compose_kinds(k1, k2);
            if k == (DatamodKind::AddData { amount: 0 }) {
                Some(seq![])
            } else {
                Some(seq![AST::ModData { kind: k, dp_offset: d1 }])
            }
        } else {
            None
        },
        (AST::ModData { dp_offset: d1, .. }, AST::ReadByte { dp_offset: d2 }) => if d1 == d2 {
            Some(seq![b])
        } else {
            None
        },
        (AST::ShiftDataPtr { amount: x }, AST::ShiftDataPtr { amount: y }) => if x + y == 0 {
            Some(seq![])
        } else if offset_ok(x + y) {
            Some(seq![AST::ShiftDataPtr { amount: (x + y) as isize }])
        } else {
            None
        },
        (
            AST::CombineData { source_dp_offset: s1, target_dp_offset: t1, source_amt_mult: m1 },
            AST::CombineData { source_dp_offset: s2, target_dp_offset: t2, source_amt_mult: m2 },
        ) => if s1 == s2 && t1 == t2 && s1 != t1 {
            Some(
                seq![
                    AST::CombineData {
                        source_dp_offset: s1,
                        target_dp_offset: t1,
                        source_amt_mult: ((m1 + m2) % 256) as u8,
                    },
                ],
            )
        } else {
            None
        },
        _ => None,
    }
}

proof fn lemma_combine_sum(x: u8, v: u8, m1: u8, m2: u8)
    ensures
        ((((x + v * m1) % 256) as u8 + v * m2) % 256) as u8 == ((x + v * (((m1 + m2) % 256) as u8)) % 256) as u8,
{
    let a = (x + v * m1) % 256;
    let q1 = (x + v * m1) / 256;
    let m = (m1 + m2) % 256;
    let q2 = (m1 + m2) / 256;
    assert(x + v * m1 == 256 * q1 + a) by (nonlinear_arith)
        requires
            a == (x + v * m1) % 256,
            q1 == (x + v * m1) / 256,
    ;
    assert(m1 + m2 == 256 * q2 + m) by (nonlinear_arith)
        requires
            m == (m1 + m2) % 256,
            q2 == (m1 + m2) / 256,
    ;
    let base = x + v * m1 + v * m2;
    assert(a + v * m2 == 256 * (-q1) + base) by (nonlinear_arith)
        requires
            x + v * m1 == 256 * q1 + a,
            base == x + v * m1 + v * m2,
    ;
    assert(x + v * m == 256 * (-v * q2) + base) by (nonlinear_arith)
        requires
            m1 + m2 == 256 * q2 + m,
            base == x + v * m1 + v * m2,
    ;
    vstd::arithmetic::div_mod::lemma_mod_multiples_vanish(-q1, base, 256);
    vstd::arithmetic::div_mod::lemma_mod_multiples_vanish(-v * q2, base, 256);
}

/// Each peephole rule on straight-line code keeps behaviour: the replacement ends, from
/// every state, where the pair it replaces ends.
pub proof fn lemma_fuse_rule_sound(a: AST, b: AST, c: Conf)
    requires
        fuse_rule(a, b) is Some,
    ensures
        exec_seq(fuse_rule(a, b)->0, c) == exec_node(b, exec_node(a, c)),
{
    let r = fuse_rule(a, b)->0;
    let rhs = exec_node(b, exec_node(a, c));
    lemma_exec_short(r, c);
    let lhs = exec_seq(r, c);
    match (a, b) {
        (AST::ModData { kind: k1, dp_offset: d }, AST::ModData { kind: k2, .. }) => {
            let p = c.dp + d;
            lemma_collapse_kinds_sound(k1, k2, (c.tape)(p));
            assert(lhs.tape =~= rhs.tape);
        },
        (
            AST::CombineData { source_dp_offset: s1, target_dp_offset: t1, source_amt_mult: m1 },
            AST::CombineData { source_amt_mult: m2, .. },
        ) => {
            lemma_combine_sum((c.tape)(c.dp + t1), (c.tape)(c.dp + s1), m1, m2);
            assert(lhs.tape =~= rhs.tape);
        },
        _ => {
            assert(lhs.tape =~= rhs.tape);
        },
    }
    assert(lhs.output =~= rhs.output);
    assert(lhs.input =~= rhs.input);
}

/// The accumulated node, if any, as a sequence.
pub open spec fn acc_seq(a: Option<AST>) -> Seq<AST> {
    match a {
        Some(x) => seq![x],
        None => seq![],
    }
}

proof fn lemma_exec_append_one(x: Seq<AST>, y: AST, c: Conf)
    ensures
        exec_seq(x + seq![y], c) == exec_node(y, exec_seq(x, c)),
{
    assert(x + seq![y] =~= x.push(y));
    lemma_exec_push(x, y, c);
}

/// What the pass makes of the accumulated node `a` followed by `b`: `Some(r)` where they
/// fuse, `r` being what stays accumulated (nothing where they cancel out); `None` where
/// `a` is final and `b` is accumulated next. Nothing after an infinite loop is kept, and a
/// loop right after a loop on the same condition never runs.
pub open spec fn fuse_spec(a: AST, b: AST) -> Option<Option<AST>> {
    if a is InfiniteLoop || same_loop_cond_spec(a, b) {
        Some(Some(a))
    } else if fuse_rule(a, b) is Some {
        let x = fuse_rule(a, b)->0;
        if x.len() == 0 {
            Some(None)
        } else {
            Some(Some(x[0]))
        }
    } else {
        None
    }
}

/// The finished nodes and the accumulated node after the pass has read `mid`.
pub open spec fn collapse_fold(mid: Seq<AST>) -> (Seq<AST>, Option<AST>)
    decreases mid.len(),
{
    if mid.len() == 0 {
        (seq![], None)
    } else {
        let (out, acc) = collapse_fold(mid.drop_last());
        let b = mid.last();
        match acc {
            None => (out, Some(b)),
            Some(a) => match fuse_spec(a, b) {
                Some(r) => (out, r),
                None => (out.push(a), Some(b)),
            },
        }
    }
}

/// What one left-to-right pass of the peephole rules makes of the top level `mid`.
pub open spec fn collapse_top(mid: Seq<AST>) -> Seq<AST> {
    collapse_fold(mid).0 + acc_seq(collapse_fold(mid).1)
}

/// `out` is what `collapse_consecutive` makes of `s`: every loop and branch body collapsed
/// first, then one pass over the top level.
pub open spec fn collapse_rel(out: Seq<AST>, s: Seq<AST>) -> bool
    decreases s,
{
    exists|mid: Seq<AST>|
        mid.len() == s.len() && (forall|k: int|
            0 <= k < s.len() ==> collapsed_node(#[trigger] mid[k], s[k])) && out == collapse_top(
            mid,
        )
}

/// `m` is `n` with its body, if it has one, collapsed.
pub open spec fn collapsed_node(m: AST, n: AST) -> bool
    decreases n,
{
    match n {
        AST::Loop { cond_dp_offset: c, elements: e, known_to_be_nontrivial: h } => match m {
            AST::Loop { cond_dp_offset: c2, elements: e2, known_to_be_nontrivial: h2 } => c == c2
                && h == h2 && collapse_rel(e2@, e@),
            _ => false,
        },
        AST::IfNonZero { cond_dp_offset: c, elements: e } => match m {
            AST::IfNonZero { cond_dp_offset: c2, elements: e2 } => c == c2 && collapse_rel(
                e2@,
                e@,
            ),
            _ => false,
        },
        _ => m == n,
    }
}

spec fn fused_wf(f: Fused) -> bool {
    match f {
        Fused::One(a) => node_wf(a),
        Fused::Neither => true,
        Fused::Both(a, b) => node_wf(a) && node_wf(b),
    }
}

/// `a` and `b` are both loops (or scan loops) on the same condition offset.
pub open spec fn same_loop_cond_spec(a: AST, b: AST) -> bool {
    let ca = match a {
        AST::Loop { cond_dp_offset, .. } => Some(cond_dp_offset),
        AST::ShiftLoop { cond_dp_offset, .. } => Some(cond_dp_offset),
        _ => None,
    };
    let cb = match b {
        AST::Loop { cond_dp_offset, .. } => Some(cond_dp_offset),
        AST::ShiftLoop { cond_dp_offset, .. } => Some(cond_dp_offset),
        _ => None,
    };
    ca is Some && ca == cb
}

fn same_loop_cond(acc: &AST, cmd: &AST) -> (r: bool)
    ensures
        r == same_loop_cond_spec(*acc, *cmd),
{
    let first = match acc {
        AST::Loop { cond_dp_offset, .. } => Some(*cond_dp_offset),
        AST::ShiftLoop { cond_dp_offset, .. } => Some(*cond_dp_offset),
        _ => None,
    };
    let second = match cmd {
        AST::Loop { cond_dp_offset, .. } => Some(*cond_dp_offset),
        AST::ShiftLoop { cond_dp_offset, .. } => Some(*cond_dp_offset),
        _ => None,
    };
    match (first, second) {
        (Some(a), Some(b)) => a == b,
        _ => false,
    }
}

/// Applies the peephole rules to the adjacent pair `acc, cmd`.
fn fuse(acc: AST, cmd: AST) -> (r: (Fused, usize))
    requires
        node_wf(acc),
        node_wf(cmd),
    ensures
        fused_wf(r.0),
        r.1 <= 2,
        r.0 is Neither ==> r.1 == 2,
        r.1 == 0 <==> r.0 is Both,
        match fuse_spec(acc, cmd) {
            Some(Some(x)) => r.0 == Fused::One(x),
            Some(None) => r.0 is Neither,
            None => r.0 == Fused::Both(acc, cmd),
        },
        acc is InfiniteLoop || same_loop_cond_spec(acc, cmd) ==> r.0 == Fused::One(acc),
        !(acc is InfiniteLoop) && fuse_rule(acc, cmd) is Some ==> {
            let x = fuse_rule(acc, cmd)->0;
            &&& x.len() == 0 ==> r.0 is Neither
            &&& x.len() == 1 ==> r.0 == Fused::One(x[0])
        },
        !(acc is InfiniteLoop) && !same_loop_cond_spec(acc, cmd) && fuse_rule(acc, cmd) is None
            ==> r.0 == Fused::Both(acc, cmd),
{
    if let AST::InfiniteLoop = acc {
        // nothing after an infinite loop is reachable
        return (Fused::One(acc), 1);
    }
    if same_loop_cond(&acc, &cmd) {
        // the first loop leaves its condition cell at zero, so the second never runs
        return (Fused::One(acc), 1);
    }
    match acc {
        AST::ModData { kind, dp_offset } => match cmd {
            AST::ModData { kind: second_kind, dp_offset: second_dp_offset } => {
                if dp_offset == second_dp_offset {
                    let out_kind = collapse_kinds(kind, second_kind);
                    if out_kind == (DatamodKind::AddData { amount: 0 }) {
                        (Fused::Neither, 2)
                    } else {
                        (Fused::One(AST::ModData { kind: out_kind, dp_offset }), 1)
                    }
                } else {
                    (Fused::Both(AST::ModData { kind, dp_offset }, cmd), 0)
                }
            },
            AST::ReadByte { dp_offset: read_dpo } => {
                if read_dpo == dp_offset {
                    // the read overwrites the cell
                    (Fused::One(AST::ReadByte { dp_offset: read_dpo }), 1)
                } else {
                    (Fused::Both(AST::ModData { kind, dp_offset }, cmd), 0)
                }
            },
            _ => (Fused::Both(AST::ModData { kind, dp_offset }, cmd), 0),
        },
        AST::ShiftDataPtr { amount } => match cmd {
            AST::ShiftDataPtr { amount: other_amount } => {
                let new_amount = amount + other_amount;
                if new_amount == 0 {
                    (Fused::Neither, 2)
                } else if -OFFSET_LIMIT <= new_amount && new_amount <= OFFSET_LIMIT {
                    (Fused::One(AST::ShiftDataPtr { amount: new_amount }), 1)
                } else {
                    (Fused::Both(AST::ShiftDataPtr { amount }, cmd), 0)
                }
            },
            _ => (Fused::Both(AST::ShiftDataPtr { amount }, cmd), 0),
        },
        AST::CombineData { source_dp_offset, target_dp_offset, source_amt_mult } => match cmd {
            AST::CombineData {
                source_dp_offset: other_sdo,
                target_dp_offset: other_tdo,
                source_amt_mult: other_sam,
            } => {
                if source_dp_offset == other_sdo && target_dp_offset == other_tdo
                    && source_dp_offset != target_dp_offset {
                    (
                        Fused::One(
                            AST::CombineData {
                                source_dp_offset,
                                target_dp_offset,
                                source_amt_mult: source_amt_mult.wrapping_add(other_sam),
                            },
                        ),
                        1,
                    )
                } else {
                    (
                        Fused::Both(
                            AST::CombineData {
                                source_dp_offset,
                                target_dp_offset,
                                source_amt_mult,
                            },
                            AST::CombineData {
                                source_dp_offset: other_sdo,
                                target_dp_offset: other_tdo,
                                source_amt_mult: other_sam,
                            },
                        ),
                        0,
                    )
                }
            },
            _ => (
                Fused::Both(
                    AST::CombineData { source_dp_offset, target_dp_offset, source_amt_mult },
                    cmd,
                ),
                0,
            ),
        },
        _ => (Fused::Both(acc, cmd), 0),
    }
}

/// Fuses adjacent nodes that describe one effect, in `cmds` and in every nested body.
/// Returns the new sequence and the number of fusions made.
pub fn collapse_consecutive(cmds: Vec<AST>) -> (r: (Vec<AST>, usize))
    requires
        nodes_wf(cmds@),
    ensures
        nodes_wf(r.0@),
        r.0@.len() <= cmds@.len(),
        all_straight(cmds@) ==> all_straight(r.0@),
        all_straight(cmds@) ==> forall|c: Conf| #[trigger] exec_seq(r.0@, c) == exec_seq(cmds@, c),
        same_behaviour(r.0@, cmds@),
        collapse_rel(r.0@, cmds@),
        r.1 == 0 ==> same_ir_seq(r.0@, cmds@),
    decreases cmds@,
{
    let ghost s = cmds@;
    let n = cmds.len();
    let mut out: Vec<AST> = Vec::new();
    let mut accumulator: Option<AST> = None;
    let mut collapsed: usize = 0;
    let ghost mut mid: Seq<AST> = seq![];
    for cmd in it: cmds.into_iter()
        invariant
            mid.len() == it.index(),
            forall|k: int| 0 <= k < mid.len() ==> collapsed_node(#[trigger] mid[k], s[k]),
            (out@, accumulator) == collapse_fold(mid),
            collapsed == 0 ==> same_ir_seq(out@ + acc_seq(accumulator), s.subrange(0, it.index() as int)),
            it.seq() == s,
            n == s.len(),
            nodes_wf(s),
            nodes_wf(out@),
            accumulator matches Some(a) ==> node_wf(a),
            out@.len() + (if accumulator is Some { 1int } else { 0int }) <= it.index(),
            all_straight(s) ==> (accumulator matches Some(a) ==> is_straight(a)),
            all_straight(s) ==> all_straight(out@),
            same_behaviour(out@ + acc_seq(accumulator), s.subrange(0, it.index() as int)),
            all_straight(s) ==> forall|c: Conf|
                #[trigger] exec_seq(out@ + acc_seq(accumulator), c) == exec_seq(
                    s.subrange(0, it.index() as int),
                    c,
                ),
    {
        assert(cmd == s[it.index() as int]);
        let cmd = match cmd {
            AST::Loop { cond_dp_offset, elements, known_to_be_nontrivial } => {
                assert(decreases_to!(s => elements@)) by {
                    assert(decreases_to!(s => s[it.index() as int]));
                };
                let (elements, k) = collapse_consecutive(elements);
                collapsed = collapsed.saturating_add(k);
                AST::Loop { cond_dp_offset, elements, known_to_be_nontrivial }
            },
            AST::IfNonZero { cond_dp_offset, elements } => {
                assert(decreases_to!(s => elements@)) by {
                    assert(decreases_to!(s => s[it.index() as int]));
                };
                let (elements, k) = collapse_consecutive(elements);
                collapsed = collapsed.saturating_add(k);
                AST::IfNonZero { cond_dp_offset, elements }
            },
            other => other,
        };
        let ghost i = it.index() as int;
        let ghost old_out = out@;
        let ghost old_acc = accumulator;
        let ghost cur = cmd;
        let ghost old_count = collapsed;
        proof {
            assert(collapsed_node(cur, s[i]));
            assert(collapsed == 0 ==> same_ir(cur, s[i]));
        }
        proof {
            match s[i] {
                AST::Loop { .. } | AST::IfNonZero { .. } => {
                    lemma_body_congruent(cur, s[i]);
                },
                _ => {},
            }
            assert(same_node_behaviour(cur, s[i]));
            if all_straight(s) {
                assert(is_straight(s[i]));
                assert(cur == s[i]);
            }
        }
        let ghost mid_before = mid;
        proof {
            mid = mid.push(cur);
            assert(mid.drop_last() =~= mid_before);
        }
        match accumulator {
            None => {
                accumulator = Some(cmd);
            },
            Some(acc) => {
                let (fused, k) = fuse(acc, cmd);
                let ghost fr = fused;
                collapsed = collapsed.saturating_add(k);
                match fused {
                    Fused::One(a) => {
                        accumulator = Some(a);
                    },
                    Fused::Neither => {
                        accumulator = None;
                    },
                    Fused::Both(a, b) => {
                        out.push(a);
                        accumulator = Some(b);
                    },
                }
            },
        }
        proof {
            if collapsed == 0 {
                let prev = old_out + acc_seq(old_acc);
                let o = out@ + acc_seq(accumulator);
                let t = s.subrange(0, i + 1);
                assert(o =~= prev + seq![cur]);
                assert(same_ir_seq(prev, s.subrange(0, i)));
                assert forall|j: int| 0 <= j < o.len() implies same_ir(#[trigger] o[j], t[j]) by {
                    if j < i {
                        assert(o[j] == prev[j]);
                        assert(t[j] == s.subrange(0, i)[j]);
                    }
                };
            }
            let prefix = s.subrange(0, i);
            assert(s.subrange(0, i + 1) =~= prefix + seq![s[i]]);
            assert forall|c: Conf, fuel: nat| #[trigger] run_seq(out@ + acc_seq(accumulator), c, fuel)
                == run_seq(s.subrange(0, i + 1), c, fuel) by {
                lemma_run_append(prefix, s[i], c, fuel);
                assert(run_seq(old_out + acc_seq(old_acc), c, fuel) == run_seq(prefix, c, fuel));
                match old_acc {
                    None => {
                        assert(old_out + acc_seq(old_acc) =~= old_out);
                        assert(out@ + acc_seq(accumulator) =~= old_out + seq![cur]);
                        lemma_run_append(old_out, cur, c, fuel);
                        if let Run::Done(next) = run_seq(old_out, c, fuel) {
                            assert(run_node(cur, next, fuel) == run_node(s[i], next, fuel));
                        }
                    },
                    Some(acc) => {
                        assert(acc_seq(old_acc) == seq![acc]);
                        lemma_run_append(old_out, acc, c, fuel);
                        if acc is InfiniteLoop {
                            assert(out@ + acc_seq(accumulator) =~= old_out + seq![acc]);
                        } else if same_loop_cond_spec(acc, cur) {
                            assert(out@ + acc_seq(accumulator) =~= old_out + seq![acc]);
                            if let Run::Done(next) = run_seq(old_out, c, fuel) {
                                if let Run::Done(last) = run_node(acc, next, fuel) {
                                    lemma_loop_exit(acc, next, fuel);
                                    assert(run_node(s[i], last, fuel) == run_node(cur, last, fuel));
                                }
                            }
                        } else if fuse_rule(acc, cur) is Some {
                            let x = fuse_rule(acc, cur)->0;
                            assert(out@ + acc_seq(accumulator) =~= old_out + x);
                            crate::semantics::lemma_run_concat(old_out, x, c, fuel);
                            if let Run::Done(next) = run_seq(old_out, c, fuel) {
                                assert(all_straight(x));
                                lemma_run_straight(x, next, fuel);
                                lemma_fuse_rule_sound(acc, cur, next);
                                assert(run_node(s[i], exec_node(acc, next), fuel) == run_node(
                                    cur,
                                    exec_node(acc, next),
                                    fuel,
                                ));
                            }
                        } else {
                            assert(out@ + acc_seq(accumulator) =~= (old_out + seq![acc]) + seq![cur]);
                            lemma_run_append(old_out + seq![acc], cur, c, fuel);
                            if let Run::Done(next) = run_seq(old_out + seq![acc], c, fuel) {
                                assert(run_node(cur, next, fuel) == run_node(s[i], next, fuel));
                            }
                        }
                    },
                }
            };
            if all_straight(s) {
                assert(s.subrange(0, i + 1) =~= prefix.push(cur));
                assert forall|c: Conf| #[trigger] exec_seq(out@ + acc_seq(accumulator), c)
                    == exec_seq(s.subrange(0, i + 1), c) by {
                    lemma_exec_push(prefix, cur, c);
                    let base = exec_seq(old_out, c);
                    assert(exec_seq(old_out + acc_seq(old_acc), c) == exec_seq(prefix, c));
                    match old_acc {
                        None => {
                            assert(old_out + acc_seq(old_acc) =~= old_out);
                            lemma_exec_append_one(old_out, cur, c);
                        },
                        Some(acc) => {
                            assert(acc_seq(old_acc) == seq![acc]);
                            lemma_exec_append_one(old_out, acc, c);
                            assert(is_straight(acc));
                            assert(!same_loop_cond_spec(acc, cur));
                            if fuse_rule(acc, cur) is Some {
                                let x = fuse_rule(acc, cur)->0;
                                lemma_fuse_rule_sound(acc, cur, base);
                                lemma_exec_short(x, base);
                                if x.len() == 1 {
                                    lemma_exec_append_one(old_out, x[0], c);
                                } else {
                                    assert(out@ + acc_seq(accumulator) =~= old_out);
                                }
                            } else {
                                assert(out@ + acc_seq(accumulator) =~= old_out.push(acc) + seq![cur]);
                                lemma_exec_append_one(old_out.push(acc), cur, c);
                                lemma_exec_push(old_out, acc, c);
                            }
                        },
                    }
                };
            }
        }
    }
    let ghost last_acc = accumulator;
    let ghost body = out@;
    if let Some(last) = accumulator {
        out.push(last);
    }
    proof {
        assert(s.subrange(0, s.len() as int) =~= s);
        assert(out@ =~= body + acc_seq(last_acc));
    }
    (out, collapsed)
}

} // verus!
