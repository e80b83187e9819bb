use vstd::prelude::*;

use crate::collapse::{collapse_consecutive, collapse_fold, collapse_rel, collapse_top, collapsed_node};
use crate::const_loops::{concat_parts, const_loop_remove, loops_node, loops_rel, part_rel};
use crate::ir::{
    lemma_same_ir_seq_refl, lemma_same_ir_seq_trans, node_wf, nodes_wf, same_ir_seq, AST,
};
use crate::lexer::{balanced_chars, balanced_tokens, lemma_balanced_chars, tokens};
use crate::lower::{compile_ast, jumps_framed, lower_seq, CompiledInstr};
use crate::parser::{
    cmds, first_unmatched_end, innermost_unclosed, parse, plain_node, plain_seq, print_node, print_seq,
    ParseError,
};
use crate::reorder::{sort_commands, sort_rel};
use crate::semantics::{all_straight, exec_seq, run_seq, Conf};
use crate::simulate::{
    abs_zero, one_step_loops, os_rel, os_zero, run_simulation, sim_rel_from, zeroed,
};

verus! {

/// Most rounds of the pass pipeline that `optimize` runs before it settles for what it
/// has, should no round ever come back without changes.
pub const MAX_OPT_ROUNDS: usize = 1000;

proof fn lemma_plain_node_wf(n: AST)
    requires
        plain_node(n),
    ensures
        node_wf(n),
    decreases n,
{
    if let AST::Loop { elements, .. } = n {
        lemma_plain_seq_wf(elements@);
    }
}

proof fn lemma_plain_seq_wf(s: Seq<AST>)
    requires
        plain_seq(s),
    ensures
        nodes_wf(s),
    decreases s,
{
    assert forall|i: int| 0 <= i < s.len() implies node_wf(#[trigger] s[i]) by {
        lemma_plain_node_wf(s[i]);
    };
}

/// Running `out` from a zeroed tape behaves as running `inp` does, with every bound on loop
/// iterations.
pub open spec fn same_from_zero(out: Seq<AST>, inp: Seq<AST>) -> bool {
    forall|c: Conf, fuel: nat| zeroed(c) ==> #[trigger] run_seq(out, c, fuel) == run_seq(inp, c, fuel)
}

/// `out` is what one round makes of `inp`: reordered, collapsed, loop shapes rewritten and
/// simulated exactly as those passes specify (the simulation also keeping behaviour from a
/// zeroed tape), then one-step loops rewritten as that pass specifies.
pub open spec fn round_rel(out: Seq<AST>, inp: Seq<AST>) -> bool {
    exists|s1: Seq<AST>, s2: Seq<AST>, s3: Seq<AST>, s4: Seq<AST>|
        #![trigger sort_rel(s1, inp), collapse_rel(s2, s1), loops_rel(s3, s2), same_from_zero(s4, s3)]
        sort_rel(s1, inp) && collapse_rel(s2, s1) && loops_rel(s3, s2) && same_from_zero(s4, s3)
            && sim_rel_from(s4, s3, abs_zero()) && (s3.len() == 0 ==> s4.len() == 0) && os_rel(
            out,
            s4,
            os_zero(),
        ) && (all_straight(s4) ==> out == s4)
}

/// `out` is reached from `inp` by exactly `n` rounds of the pipeline, one after another.
pub open spec fn rounds_n(out: Seq<AST>, inp: Seq<AST>, n: nat) -> bool {
    exists|trace: Seq<Seq<AST>>|
        trace.len() == n + 1 && trace[0] == inp && #[trigger] trace.last() == out && forall|i: int|
            0 <= i < trace.len() - 1 ==> #[trigger] round_rel(trace[i + 1], trace[i])
}

/// `out` is reached from `inp` by at least one round of the pipeline.
pub open spec fn rounds_rel(out: Seq<AST>, inp: Seq<AST>) -> bool {
    exists|n: nat| n >= 1 && #[trigger] rounds_n(out, inp, n)
}

/// One round of the pipeline: reorder, collapse, loop-shape recognition, simulation and
/// one-step-loop simulation. Returns the new IR and the number of changes made; a round that
/// reports none hands back the same IR.
pub fn opt_step(cmds: Vec<AST>) -> (r: (Vec<AST>, usize))
    requires
        nodes_wf(cmds@),
    ensures
        nodes_wf(r.0@),
        round_rel(r.0@, cmds@),
        r.1 == 0 ==> same_ir_seq(r.0@, cmds@),
        cmds@.len() == 0 ==> r.0@.len() == 0,
        all_straight(cmds@) ==> all_straight(r.0@) && forall|c: Conf|
            zeroed(c) ==> #[trigger] exec_seq(r.0@, c) == exec_seq(cmds@, c),
{
    let ghost s0 = cmds@;
    let (cmds, swap) = sort_commands(cmds);
    let ghost s1 = cmds@;
    let (cmds, coll) = collapse_consecutive(cmds);
    let ghost s2 = cmds@;
    let (cmds, deloop) = const_loop_remove(cmds);
    let ghost s3 = cmds@;
    let (cmds, simulate_removal) = run_simulation(cmds);
    let ghost s4 = cmds@;
    let (cmds, one_step) = one_step_loops(cmds);
    let total = swap.saturating_add(coll).saturating_add(deloop).saturating_add(
        simulate_removal,
    ).saturating_add(one_step);
    proof {
        if all_straight(s0) {
            assert forall|c: Conf| zeroed(c) implies #[trigger] exec_seq(cmds@, c) == exec_seq(
                s0,
                c,
            ) by {
                assert(exec_seq(s4, c) == exec_seq(s3, c));
                assert(exec_seq(s2, c) == exec_seq(s1, c));
                assert(exec_seq(s1, c) == exec_seq(s0, c));
            };
        }
        assert(same_from_zero(s4, s3));
        if s0.len() == 0 {
            assert(collapse_fold(Seq::<AST>::empty()) == (Seq::<AST>::empty(), Option::<AST>::None));
            let mid = choose|mid: Seq<AST>| mid.len() == s1.len() && (forall|k: int|
                0 <= k < s1.len() ==> collapsed_node(#[trigger] mid[k], s1[k])) && s2 == collapse_top(mid);
            assert(mid =~= Seq::<AST>::empty());
            assert(s2 =~= Seq::<AST>::empty());
            let (mid3, parts) = choose|mid3: Seq<AST>, parts: Seq<Seq<AST>>|
                mid3.len() == s2.len() && parts.len() == s2.len() && (forall|k: int|
                    0 <= k < s2.len() ==> loops_node(#[trigger] mid3[k], s2[k])) && (forall|k: int|
                    0 <= k < s2.len() ==> #[trigger] part_rel(parts[k], mid3[k])) && s3 == concat_parts(parts);
            assert(parts =~= Seq::<Seq<AST>>::empty());
            assert(s3.len() == 0);
            assert(all_straight(s4));
        }
        assert(round_rel(cmds@, s0));
        if total == 0 {
            lemma_same_ir_seq_trans(s2, s1, s0);
            lemma_same_ir_seq_trans(s3, s2, s0);
            lemma_same_ir_seq_refl(s3);
            lemma_same_ir_seq_trans(cmds@, s4, s0);
        }
    }
    (cmds, total)
}

/// Runs the pipeline round after round until a round makes no change, or for at most
/// `MAX_OPT_ROUNDS` rounds. Returns the IR and whether the last round made no change, in
/// which case that round handed back the same IR.
pub fn optimize(cmds: Vec<AST>) -> (r: (Vec<AST>, bool))
    requires
        nodes_wf(cmds@),
    ensures
        nodes_wf(r.0@),
        rounds_rel(r.0@, cmds@),
        r.1 ==> exists|prev: Seq<AST>| round_rel(r.0@, prev) && #[trigger] same_ir_seq(r.0@, prev),
        !r.1 ==> rounds_n(r.0@, cmds@, MAX_OPT_ROUNDS as nat),
        cmds@.len() == 0 ==> r.0@.len() == 0,
        all_straight(cmds@) ==> all_straight(r.0@) && forall|c: Conf|
            zeroed(c) ==> #[trigger] exec_seq(r.0@, c) == exec_seq(cmds@, c),
{
    let ghost orig = cmds@;
    let ghost mut trace: Seq<Seq<AST>> = seq![orig];
    let mut cur = cmds;
    let mut step: usize = 0;
    while step < MAX_OPT_ROUNDS
        invariant
            nodes_wf(cur@),
            orig == cmds@,
            trace.len() == step + 1,
            step <= MAX_OPT_ROUNDS,
            trace[0] == orig,
            trace.last() == cur@,
            forall|i: int| 0 <= i < trace.len() - 1 ==> #[trigger] round_rel(trace[i + 1], trace[i]),
            orig.len() == 0 ==> cur@.len() == 0,
            all_straight(orig) ==> all_straight(cur@) && forall|c: Conf|
                zeroed(c) ==> #[trigger] exec_seq(cur@, c) == exec_seq(orig, c),
        decreases MAX_OPT_ROUNDS - step,
    {
        let ghost prev = cur@;
        let (next, changes) = opt_step(cur);
        proof {
            if all_straight(orig) {
                assert forall|c: Conf| zeroed(c) implies #[trigger] exec_seq(next@, c) == exec_seq(
                    orig,
                    c,
                ) by {
                    assert(exec_seq(prev, c) == exec_seq(orig, c));
                };
            }
            let old_trace = trace;
            trace = trace.push(next@);
            assert forall|i: int| 0 <= i < trace.len() - 1 implies #[trigger] round_rel(trace[i + 1], trace[i]) by {
                if i < old_trace.len() - 1 {
                    assert(trace[i] == old_trace[i]);
                    assert(trace[i + 1] == old_trace[i + 1]);
                }
            };
        }
        cur = next;
        if changes == 0 {
            proof {
                assert(round_rel(cur@, prev) && same_ir_seq(cur@, prev));
                assert(trace.last() == cur@);
                assert(rounds_n(cur@, orig, (step + 1) as nat));
            }
            return (cur, true);
        }
        step = step + 1;
    }
    proof {
        assert(trace.last() == cur@);
        assert(rounds_n(cur@, orig, MAX_OPT_ROUNDS as nat));
    }
    (cur, false)
}

/// `t` is the tree that `parse` gives for source `s`.
pub open spec fn parse_tree_of(t: Seq<AST>, s: Seq<char>) -> bool {
    print_seq(t) == cmds(tokens(s)) && plain_seq(t)
}

proof fn lemma_plain_print_len(t: Seq<AST>)
    requires
        plain_seq(t),
    ensures
        print_seq(t).len() >= t.len(),
    decreases t.len(),
{
    if t.len() > 0 {
        let init = t.subrange(0, t.len() - 1);
        assert(plain_seq(init)) by {
            assert forall|i: int| 0 <= i < init.len() implies plain_node(#[trigger] init[i]) by {
                assert(init[i] == t[i]);
            };
        };
        lemma_plain_print_len(init);
        assert(plain_node(t[t.len() - 1]));
        assert(print_node(t[t.len() - 1]).len() >= 1);
    }
}

/// Parses, optimizes and lowers `input_str`. Fails exactly where `parse` fails, with the
/// same error; on success the bytecode is the lowering of what rounds of the pipeline make
/// of the parse tree (until a round hands back the same IR, or for `MAX_OPT_ROUNDS` rounds),
/// and a source without commands gives no code.
pub fn full_parse(input_str: &str) -> (r: Result<Vec<CompiledInstr>, ParseError>)
    ensures
        r is Ok <==> balanced_tokens(tokens(input_str@)),
        r is Ok <==> balanced_chars(input_str@),
        r matches Ok(code) ==> jumps_framed(code@, 0) && exists|t: Seq<AST>, a: Seq<AST>|
            #![trigger parse_tree_of(t, input_str@), rounds_rel(a, t)]
            parse_tree_of(t, input_str@) && rounds_rel(a, t) && nodes_wf(a) && code@ == lower_seq(
                a,
                0,
            ) && (rounds_n(a, t, MAX_OPT_ROUNDS as nat) || exists|prev: Seq<AST>|
                round_rel(a, prev) && #[trigger] same_ir_seq(a, prev)),
        r matches Ok(code) ==> (tokens(input_str@).len() == 0 ==> code@.len() == 0),
        r matches Err(ParseError::EndLoopWithoutStart { code_p }) ==> exists|k: int|
            first_unmatched_end(tokens(input_str@), k) && tokens(input_str@)[k].0 == code_p,
        r matches Err(ParseError::UnterminatedLoop { code_p }) ==> exists|k: int|
            innermost_unclosed(tokens(input_str@), k) && tokens(input_str@)[k].0 == code_p,
{
    proof {
        lemma_balanced_chars(input_str@);
    }
    match parse(input_str) {
        Ok(parsed) => {
            let ghost t = parsed@;
            proof {
                lemma_plain_seq_wf(parsed@);
                lemma_plain_print_len(parsed@);
                assert(cmds(tokens(input_str@)).len() == tokens(input_str@).len());
            }
            let (optimized, _settled) = optimize(parsed);
            let code = compile_ast(&optimized);
            proof {
                assert(parse_tree_of(t, input_str@));
                if optimized@.len() == 0 {
                    assert(lower_seq(optimized@, 0) =~= Seq::<CompiledInstr>::empty());
                }
            }
            Ok(code)
        },
        Err(e) => Err(e),
    }
}

} // verus!
