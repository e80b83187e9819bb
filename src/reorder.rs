use vstd::prelude::*;

use crate::semantics::{
    all_straight, exec_node, exec_seq, is_straight, lemma_body_congruent, lemma_pointwise,
    lemma_run_cons, run_node, run_seq, same_behaviour, same_node_behaviour, Conf, Run,
};
use crate::ir::{
    same_ir, same_ir_seq, is_offset_node, node_wf, nodes_wf, offset_ok, shift_fits, shifted, AST, OFFSET_LIMIT,
};

verus! {

/// Whether the adjacent pair `a, b` is reordered to `b, a` (with `b` rewritten by `a`'s
/// amount when `a` is a pointer shift).
pub open spec fn swaps(a: AST, b: AST) -> bool {
    match a {
        AST::ModData { dp_offset: d1, .. } => match b {
            AST::ModData { dp_offset: d2, .. } => d1 > d2,
            AST::ReadByte { dp_offset: d2 } => d1 != d2,
            AST::WriteByte { dp_offset: d2 } => d1 != d2,
            _ => false,
        },
        AST::CombineData { source_dp_offset: s1, target_dp_offset: t1, .. } => match b {
            AST::ModData { dp_offset: d, .. } => d != s1 && d != t1,
            AST::CombineData { source_dp_offset: s2, target_dp_offset: t2, .. } => t1 != s2
                && t2 != s1 && (s1 > s2 || (s1 == s2 && t1 > t2)),
            _ => false,
        },
        AST::ShiftDataPtr { amount } => is_offset_node(b) && shift_fits(b, amount as int),
        _ => false,
    }
}

/// What stands first after `a, b` have been swapped.
pub open spec fn swapped_front(a: AST, b: AST) -> AST {
    match a {
        AST::ShiftDataPtr { amount } => shifted(b, amount as int),
        _ => b,
    }
}

/// Moves an offset node past a pointer shift of `dp_shift` cells.
fn shift_command(cmd: AST, dp_shift: isize) -> (r: AST)
    requires
        node_wf(cmd),
        offset_ok(dp_shift as int),
        is_offset_node(cmd),
        shift_fits(cmd, dp_shift as int),
    ensures
        r == shifted(cmd, dp_shift as int),
        node_wf(r),
{
    match cmd {
        AST::ModData { kind, dp_offset } => AST::ModData { kind, dp_offset: dp_offset + dp_shift },
        AST::CombineData { source_dp_offset, target_dp_offset, source_amt_mult } => {
            AST::CombineData {
                source_dp_offset: source_dp_offset + dp_shift,
                target_dp_offset: target_dp_offset + dp_shift,
                source_amt_mult,
            }
        },
        AST::ReadByte { dp_offset } => AST::ReadByte { dp_offset: dp_offset + dp_shift },
        AST::WriteByte { dp_offset } => AST::WriteByte { dp_offset: dp_offset + dp_shift },
        AST::AssertEquals { dp_offset, val } => AST::AssertEquals {
            dp_offset: dp_offset + dp_shift,
            val,
        },
        other => other,
    }
}

/// Whether the offsets of an offset node still fit after a shift by `k`.
fn fits_after_shift(cmd: &AST, k: isize) -> (r: bool)
    requires
        node_wf(*cmd),
        offset_ok(k as int),
    ensures
        r == shift_fits(*cmd, k as int),
{
    match cmd {
        AST::ModData { dp_offset, .. } => within_limit(*dp_offset + k),
        AST::CombineData { source_dp_offset, target_dp_offset, .. } => within_limit(
            *source_dp_offset + k,
        ) && within_limit(*target_dp_offset + k),
        AST::ReadByte { dp_offset } => within_limit(*dp_offset + k),
        AST::WriteByte { dp_offset } => within_limit(*dp_offset + k),
        AST::AssertEquals { dp_offset, .. } => within_limit(*dp_offset + k),
        _ => true,
    }
}

fn within_limit(x: isize) -> (r: bool)
    ensures
        r == offset_ok(x as int),
{
    -OFFSET_LIMIT <= x && x <= OFFSET_LIMIT
}

/// Decides whether `first, second` are reordered.
fn should_swap(first: &AST, second: &AST) -> (r: bool)
    requires
        node_wf(*first),
        node_wf(*second),
    ensures
        r == swaps(*first, *second),
{
    match first {
        AST::ModData { dp_offset: d1, .. } => match second {
            AST::ModData { dp_offset: d2, .. } => *d1 > *d2,
            AST::ReadByte { dp_offset: d2 } => *d1 != *d2,
            AST::WriteByte { dp_offset: d2 } => *d1 != *d2,
            _ => false,
        },
        AST::CombineData { source_dp_offset: s1, target_dp_offset: t1, .. } => match second {
            AST::ModData { dp_offset: d, .. } => *d != *s1 && *d != *t1,
            AST::CombineData { source_dp_offset: s2, target_dp_offset: t2, .. } => *t1 != *s2
                && *t2 != *s1 && (*s1 > *s2 || (*s1 == *s2 && *t1 > *t2)),
            _ => false,
        },
        AST::ShiftDataPtr { amount } => {
            let offset_node = match second {
                AST::ModData { .. } | AST::CombineData { .. } | AST::ReadByte { .. }
                | AST::WriteByte { .. } | AST::AssertEquals { .. } => true,
                _ => false,
            };
            offset_node && fits_after_shift(second, *amount)
        },
        _ => false,
    }
}


/// One left-to-right bubble pass over `s[i..]` that carries `carry`: the carried node
/// moves right past each node that it swaps with.
pub open spec fn bubble(carry: AST, s: Seq<AST>, i: int) -> Seq<AST>
    decreases s.len() - i,
{
    if i >= s.len() {
        seq![carry]
    } else if swaps(carry, s[i]) {
        seq![swapped_front(carry, s[i])] + bubble(carry, s, i + 1)
    } else {
        seq![carry] + bubble(s[i], s, i + 1)
    }
}

/// The number of swaps that `bubble(carry, s, i)` makes.
pub open spec fn bubble_swaps(carry: AST, s: Seq<AST>, i: int) -> nat
    decreases s.len() - i,
{
    if i >= s.len() {
        0
    } else if swaps(carry, s[i]) {
        bubble_swaps(carry, s, i + 1) + 1
    } else {
        bubble_swaps(s[i], s, i + 1)
    }
}

pub open spec fn bubble_pass(s: Seq<AST>) -> Seq<AST> {
    if s.len() == 0 {
        s
    } else {
        bubble(s[0], s, 1)
    }
}

pub open spec fn bubble_pass_swaps(s: Seq<AST>) -> nat {
    if s.len() == 0 {
        0
    } else {
        bubble_swaps(s[0], s, 1)
    }
}

proof fn lemma_add_commutes(x: u8, p: int, q: int)
    ensures
        ((((x + p) % 256) as u8 + q) % 256) as u8 == ((((x + q) % 256) as u8 + p) % 256) as u8,
{
    assert(((((x + p) % 256) as u8 + q) % 256) == ((((x + q) % 256) as u8 + p) % 256))
        by (nonlinear_arith);
}

/// Every swap the reordering makes keeps the behaviour of the pair: running `a` then `b`
/// leaves the tape, pointer, input and output exactly as running the rewritten `b` then
/// `a` does.
pub proof fn lemma_swap_sound(a: AST, b: AST, c: Conf)
    requires
        node_wf(a),
        node_wf(b),
        swaps(a, b),
    ensures
        exec_node(b, exec_node(a, c)) == exec_node(a, exec_node(swapped_front(a, b), c)),
{
    let lhs = exec_node(b, exec_node(a, c));
    let rhs = exec_node(a, exec_node(swapped_front(a, b), c));
    match a {
        AST::CombineData { source_dp_offset: s1, target_dp_offset: t1, source_amt_mult: m1 } => {
            if let AST::CombineData { source_dp_offset: s2, target_dp_offset: t2, source_amt_mult: m2 } = b {
                if t1 == t2 {
                    let t = c.dp + t1;
                    let x = (c.tape)(t);
                    lemma_add_commutes(x, (c.tape)(c.dp + s1) * m1, (c.tape)(c.dp + s2) * m2);
                }
            }
        },
        _ => {},
    }
    assert(lhs.tape =~= rhs.tape);
    assert(lhs.input =~= rhs.input);
    assert(lhs.output =~= rhs.output);
}

proof fn lemma_swap_wf(a: AST, b: AST)
    requires
        node_wf(a),
        node_wf(b),
        swaps(a, b),
    ensures
        node_wf(swapped_front(a, b)),
{
}

proof fn lemma_bubble_len(carry: AST, s: Seq<AST>, i: int)
    requires
        0 <= i <= s.len(),
    ensures
        bubble(carry, s, i).len() == s.len() - i + 1,
        bubble_swaps(carry, s, i) <= s.len() - i,
    decreases s.len() - i,
{
    if i < s.len() {
        lemma_bubble_len(carry, s, i + 1);
        lemma_bubble_len(s[i], s, i + 1);
    }
}

proof fn lemma_exec_cons(x: AST, rest: Seq<AST>, c: Conf)
    ensures
        exec_seq(seq![x] + rest, c) == exec_seq(rest, exec_node(x, c)),
{
    assert((seq![x] + rest).drop_first() =~= rest);
}

proof fn lemma_bubble_sound(carry: AST, s: Seq<AST>, i: int, c: Conf)
    requires
        nodes_wf(s),
        node_wf(carry),
        1 <= i <= s.len(),
    ensures
        exec_seq(bubble(carry, s, i), c) == exec_seq(seq![carry] + s.subrange(i, s.len() as int), c),
    decreases s.len() - i,
{
    let rest = s.subrange(i, s.len() as int);
    if i >= s.len() {
        assert(rest =~= Seq::<AST>::empty());
        assert(seq![carry] + rest =~= seq![carry]);
    } else {
        let next = s.subrange(i + 1, s.len() as int);
        assert(rest =~= seq![s[i]] + next);
        assert(node_wf(s[i]));
        lemma_exec_cons(carry, rest, c);
        lemma_exec_cons(s[i], next, exec_node(carry, c));
        if swaps(carry, s[i]) {
            let front = swapped_front(carry, s[i]);
            lemma_exec_cons(front, bubble(carry, s, i + 1), c);
            lemma_bubble_sound(carry, s, i + 1, exec_node(front, c));
            lemma_exec_cons(carry, next, exec_node(front, c));
            lemma_swap_sound(carry, s[i], c);
        } else {
            lemma_exec_cons(carry, bubble(s[i], s, i + 1), c);
            lemma_bubble_sound(s[i], s, i + 1, exec_node(carry, c));
        }
    }
}

proof fn lemma_bubble_behaviour(carry: AST, s: Seq<AST>, i: int, c: Conf, fuel: nat)
    requires
        nodes_wf(s),
        node_wf(carry),
        1 <= i <= s.len(),
    ensures
        run_seq(bubble(carry, s, i), c, fuel) == run_seq(
            seq![carry] + s.subrange(i, s.len() as int),
            c,
            fuel,
        ),
    decreases s.len() - i,
{
    let rest = s.subrange(i, s.len() as int);
    if i >= s.len() {
        assert(rest =~= Seq::<AST>::empty());
        assert(seq![carry] + rest =~= seq![carry]);
    } else {
        let next = s.subrange(i + 1, s.len() as int);
        assert(rest =~= seq![s[i]] + next);
        assert(node_wf(s[i]));
        lemma_run_cons(carry, rest, c, fuel);
        if swaps(carry, s[i]) {
            let front = swapped_front(carry, s[i]);
            let c1 = exec_node(front, c);
            lemma_run_cons(front, bubble(carry, s, i + 1), c, fuel);
            lemma_bubble_behaviour(carry, s, i + 1, c1, fuel);
            lemma_run_cons(carry, next, c1, fuel);
            lemma_run_cons(s[i], next, exec_node(carry, c), fuel);
            lemma_swap_sound(carry, s[i], c);
        } else {
            lemma_run_cons(carry, bubble(s[i], s, i + 1), c, fuel);
            if let Run::Done(c1) = run_node(carry, c, fuel) {
                lemma_bubble_behaviour(s[i], s, i + 1, c1, fuel);
                lemma_run_cons(s[i], next, c1, fuel);
            }
        }
    }
}

/// A reordering pass keeps the behaviour of any code, loops and branches included: from
/// every state and with every bound on loop iterations, the reordered sequence runs as `s`
/// does.
pub proof fn lemma_bubble_pass_behaviour(s: Seq<AST>)
    requires
        nodes_wf(s),
    ensures
        same_behaviour(bubble_pass(s), s),
{
    assert forall|c: Conf, fuel: nat| #[trigger] run_seq(bubble_pass(s), c, fuel) == run_seq(
        s,
        c,
        fuel,
    ) by {
        if s.len() > 0 {
            lemma_bubble_behaviour(s[0], s, 1, c, fuel);
            assert(seq![s[0]] + s.subrange(1, s.len() as int) =~= s);
        }
    };
}

/// A reordering pass keeps the behaviour of straight-line code: from every state, the
/// reordered sequence ends where `s` does.
pub proof fn lemma_bubble_pass_sound(s: Seq<AST>, c: Conf)
    requires
        nodes_wf(s),
        all_straight(s),
    ensures
        exec_seq(bubble_pass(s), c) == exec_seq(s, c),
{
    if s.len() > 0 {
        lemma_bubble_sound(s[0], s, 1, c);
        assert(seq![s[0]] + s.subrange(1, s.len() as int) =~= s);
    }
}

proof fn lemma_bubble_no_swaps(carry: AST, s: Seq<AST>, i: int)
    requires
        1 <= i <= s.len(),
        bubble_swaps(carry, s, i) == 0,
    ensures
        bubble(carry, s, i) == seq![carry] + s.subrange(i, s.len() as int),
    decreases s.len() - i,
{
    if i < s.len() {
        lemma_bubble_no_swaps(s[i], s, i + 1);
        assert(seq![carry] + (seq![s[i]] + s.subrange(i + 1, s.len() as int)) =~= seq![carry]
            + s.subrange(i, s.len() as int));
    } else {
        assert(seq![carry] + s.subrange(i, s.len() as int) =~= seq![carry]);
    }
}

proof fn lemma_bubble_straight(carry: AST, s: Seq<AST>, i: int)
    requires
        is_straight(carry),
        all_straight(s),
        0 <= i <= s.len(),
    ensures
        all_straight(bubble(carry, s, i)),
    decreases s.len() - i,
{
    if i < s.len() {
        assert(is_straight(s[i]));
        let b = bubble(carry, s, i);
        if swaps(carry, s[i]) {
            lemma_bubble_straight(carry, s, i + 1);
            let rest = bubble(carry, s, i + 1);
            assert forall|k: int| 0 <= k < b.len() implies is_straight(#[trigger] b[k]) by {
                if k > 0 {
                    assert(b[k] == rest[k - 1]);
                }
            };
        } else {
            lemma_bubble_straight(s[i], s, i + 1);
            let rest = bubble(s[i], s, i + 1);
            assert forall|k: int| 0 <= k < b.len() implies is_straight(#[trigger] b[k]) by {
                if k > 0 {
                    assert(b[k] == rest[k - 1]);
                }
            };
        }
    }
}

/// A reordering pass turns straight-line code into straight-line code.
pub proof fn lemma_bubble_pass_straight(s: Seq<AST>)
    requires
        all_straight(s),
    ensures
        all_straight(bubble_pass(s)),
{
    if s.len() > 0 {
        lemma_bubble_straight(s[0], s, 1);
    }
}

/// A pass that makes no swap hands its input back unchanged, so the reordering stops
/// changing code once it reports no swaps.
pub proof fn lemma_bubble_pass_fixed_point(s: Seq<AST>)
    requires
        bubble_pass_swaps(s) == 0,
    ensures
        bubble_pass(s) == s,
{
    if s.len() > 0 {
        lemma_bubble_no_swaps(s[0], s, 1);
        assert(seq![s[0]] + s.subrange(1, s.len() as int) =~= s);
    }
}

/// One pass of the bubble reordering: returns the reordered sequence and the number
/// of swaps made.
pub fn sort_commands_step(cmds: Vec<AST>) -> (r: (Vec<AST>, usize))
    requires
        nodes_wf(cmds@),
    ensures
        r.0@ == bubble_pass(cmds@),
        r.1 == bubble_pass_swaps(cmds@),
        r.0@.len() == cmds@.len(),
        nodes_wf(r.0@),
{
    let ghost s = cmds@;
    let n = cmds.len();
    let mut out: Vec<AST> = Vec::new();
    let mut carry: Option<AST> = None;
    let mut changed: usize = 0;
    for cmd in it: cmds.into_iter()
        invariant
            it.seq() == s,
            n == s.len(),
            nodes_wf(s),
            nodes_wf(out@),
            it.index() == 0 ==> carry is None && out@.len() == 0 && changed == 0,
            it.index() > 0 ==> {
                &&& carry is Some
                &&& node_wf(carry->0)
                &&& out@ + bubble(carry->0, s, it.index() as int) == bubble(s[0], s, 1)
                &&& changed + bubble_swaps(carry->0, s, it.index() as int) == bubble_swaps(
                    s[0],
                    s,
                    1,
                )
                &&& changed < it.index()
            },
    {
        let ghost i = it.index() as int;
        assert(cmd == s[i]);
        match carry {
            None => {
                carry = Some(cmd);
            },
            Some(c) => {
                if should_swap(&c, &cmd) {
                    let front = match &c {
                        AST::ShiftDataPtr { amount } => shift_command(cmd, *amount),
                        _ => cmd,
                    };
                    proof {
                        lemma_swap_wf(c, s[i]);
                        assert(out@.push(front) + bubble(c, s, i + 1) =~= out@ + bubble(c, s, i));
                    }
                    out.push(front);
                    carry = Some(c);
                    changed = changed + 1;
                } else {
                    proof {
                        assert(out@.push(c) + bubble(s[i], s, i + 1) =~= out@ + bubble(c, s, i));
                    }
                    out.push(c);
                    carry = Some(cmd);
                }
            },
        }
    }
    if let Some(c) = carry {
        out.push(c);
    }
    proof {
        if s.len() > 0 {
            lemma_bubble_len(s[0], s, 1);
        }
    }
    (out, changed)
}


/// Up to `k` bubble passes over `t`, stopping after the first pass that makes no swap.
pub open spec fn sort_passes(t: Seq<AST>, k: nat) -> Seq<AST>
    decreases k,
{
    if k == 0 {
        t
    } else if bubble_pass_swaps(t) == 0 {
        bubble_pass(t)
    } else {
        sort_passes(bubble_pass(t), (k - 1) as nat)
    }
}

/// `out` is what `sort_commands` makes of `s`: every loop and branch body sorted first,
/// then up to as many bubble passes over the top level as it has nodes.
pub open spec fn sort_rel(out: Seq<AST>, s: Seq<AST>) -> bool
    decreases s,
{
    exists|mid: Seq<AST>|
        mid.len() == s.len() && (forall|k: int|
            0 <= k < s.len() ==> sorted_node(#[trigger] mid[k], s[k])) && out == sort_passes(
            mid,
            mid.len(),
        )
}

/// `m` is `n` with its body, if it has one, sorted.
pub open spec fn sorted_node(m: AST, n: AST) -> bool
    decreases n,
{
    match n {
        AST::Loop { cond_dp_offset: c, elements: e, known_to_be_nontrivial: h } => match m {
            AST::Loop { cond_dp_offset: c2, elements: e2, known_to_be_nontrivial: h2 } => c == c2
                && h == h2 && sort_rel(e2@, e@),
            _ => false,
        },
        AST::IfNonZero { cond_dp_offset: c, elements: e } => match m {
            AST::IfNonZero { cond_dp_offset: c2, elements: e2 } => c == c2 && sort_rel(e2@, e@),
            _ => false,
        },
        _ => m == n,
    }
}

/// Normalizes the order of `cmds` and of every nested body: bubble passes until one
/// makes no swap, at most as many passes as there are nodes. Returns the reordered
/// sequence and the number of swaps made.
pub fn sort_commands(cmds: Vec<AST>) -> (r: (Vec<AST>, usize))
    requires
        nodes_wf(cmds@),
    ensures
        nodes_wf(r.0@),
        r.0@.len() == cmds@.len(),
        all_straight(cmds@) ==> all_straight(r.0@) && forall|c: Conf|
            #[trigger] exec_seq(r.0@, c) == exec_seq(cmds@, c),
        same_behaviour(r.0@, cmds@),
        sort_rel(r.0@, cmds@),
        r.1 == 0 ==> same_ir_seq(r.0@, cmds@),
    decreases cmds@,
{
    let ghost s = cmds@;
    let n = cmds.len();
    let mut total: usize = 0;
    let mut inner: Vec<AST> = Vec::new();
    for cmd in it: cmds.into_iter()
        invariant
            it.seq() == s,
            n == s.len(),
            nodes_wf(s),
            nodes_wf(inner@),
            inner@.len() == it.index(),
            all_straight(s) ==> inner@ == s.subrange(0, it.index() as int),
            forall|k: int| 0 <= k < inner@.len() ==> same_node_behaviour(#[trigger] inner@[k], s[k]),
            forall|k: int| 0 <= k < inner@.len() ==> sorted_node(#[trigger] inner@[k], s[k]),
            total == 0 ==> same_ir_seq(inner@, s.subrange(0, it.index() as int)),
    {
        assert(cmd == s[it.index() as int]);
        let (next, swapped) = match cmd {
            AST::Loop { cond_dp_offset, elements, known_to_be_nontrivial } => {
                assert(decreases_to!(s => elements@)) by {
                    assert(decreases_to!(s => s[it.index() as int]));
                };
                let (elements, k) = sort_commands(elements);
                (AST::Loop { cond_dp_offset, elements, known_to_be_nontrivial }, k)
            },
            AST::IfNonZero { cond_dp_offset, elements } => {
                assert(decreases_to!(s => elements@)) by {
                    assert(decreases_to!(s => s[it.index() as int]));
                };
                let (elements, k) = sort_commands(elements);
                (AST::IfNonZero { cond_dp_offset, elements }, k)
            },
            other => (other, 0),
        };
        let ghost before = inner@;
        proof {
            let k = it.index() as int;
            match s[k] {
                AST::Loop { .. } | AST::IfNonZero { .. } => {
                    lemma_body_congruent(next, s[k]);
                },
                _ => {},
            }
        }
        let ghost old_total = total;
        inner.push(next);
        proof {
            assert forall|k: int| 0 <= k < inner@.len() implies sorted_node(#[trigger] inner@[k], s[k]) by {
                if k < before.len() {
                    assert(inner@[k] == before[k]);
                }
            };
            if old_total == 0 && swapped == 0 {
                let t = s.subrange(0, it.index() + 1);
                assert(same_ir(next, s[it.index() as int]));
                assert forall|k: int| 0 <= k < inner@.len() implies same_ir(#[trigger] inner@[k], t[k]) by {
                    if k < before.len() {
                        assert(inner@[k] == before[k]);
                        assert(t[k] == s.subrange(0, it.index() as int)[k]);
                    }
                };
            }
            assert forall|k: int| 0 <= k < inner@.len() implies same_node_behaviour(
                #[trigger] inner@[k],
                s[k],
            ) by {
                if k < before.len() {
                    assert(inner@[k] == before[k]);
                }
            };
            if all_straight(s) {
                assert(is_straight(s[it.index() as int]));
                assert(inner@ =~= s.subrange(0, it.index() + 1));
            }
        }
        total = total.saturating_add(swapped);
    }
    proof {
        if all_straight(s) {
            assert(inner@ =~= s);
        }
        lemma_pointwise(inner@, s);
        assert(s.subrange(0, n as int) =~= s);
    }
    let ghost mid = inner@;
    let mut cur = inner;
    let mut passes: usize = 0;
    while passes < n
        invariant
            sort_passes(cur@, (n - passes) as nat) == sort_passes(mid, n as nat),
            passes <= n,
            cmds@ == s,
            n == s.len(),
            mid.len() == n,
            forall|k: int| 0 <= k < n ==> sorted_node(#[trigger] mid[k], s[k]),
            total == 0 ==> same_ir_seq(cur@, s),
            nodes_wf(cur@),
            cur@.len() == n,
            all_straight(s) ==> all_straight(cur@) && forall|c: Conf|
                #[trigger] exec_seq(cur@, c) == exec_seq(s, c),
            same_behaviour(cur@, s),
        decreases n - passes,
    {
        let ghost prev = cur@;
        let (next, local) = sort_commands_step(cur);
        proof {
            lemma_bubble_pass_behaviour(prev);
            assert forall|c: Conf, fuel: nat| #[trigger] run_seq(next@, c, fuel) == run_seq(
                s,
                c,
                fuel,
            ) by {
                assert(run_seq(next@, c, fuel) == run_seq(prev, c, fuel));
            };
            if all_straight(s) {
                lemma_bubble_pass_straight(prev);
                assert forall|c: Conf| #[trigger] exec_seq(next@, c) == exec_seq(s, c) by {
                    lemma_bubble_pass_sound(prev, c);
                };
            }
        }
        proof {
            if local == 0 {
                lemma_bubble_pass_fixed_point(prev);
            }
        }
        cur = next;
        if local == 0 {
            assert(cur@ == sort_passes(mid, n as nat));
            return (cur, total);
        }
        total = total.saturating_add(local);
        passes = passes + 1;
    }
    (cur, total)
}

} // verus!
