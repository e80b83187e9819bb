use vstd::prelude::*;

use crate::ir::{apply_kind, AST};

verus! {

/// The state that IR code acts on: an unbounded tape, the data pointer,
/// the input not yet read and the output written so far.
pub struct Conf {
    pub tape: spec_fn(int) -> u8,
    pub dp: int,
    pub input: Seq<u8>,
    pub output: Seq<u8>,
}

pub open spec fn put(tape: spec_fn(int) -> u8, p: int, v: u8) -> spec_fn(int) -> u8 {
    |q: int| if q == p { v } else { tape(q) }
}

/// The effect of one node that holds no nested code. A read past the end of the input
/// stores zero.
pub open spec fn exec_node(n: AST, c: Conf) -> Conf {
    match n {
        AST::ShiftDataPtr { amount } => Conf { dp: c.dp + amount, ..c },
        AST::ModData { kind, dp_offset } => {
            let p = c.dp + dp_offset;
            Conf { tape: put(c.tape, p, apply_kind(kind, (c.tape)(p))), ..c }
        },
        AST::CombineData { source_dp_offset, target_dp_offset, source_amt_mult } => {
            let s = c.dp + source_dp_offset;
            let t = c.dp + target_dp_offset;
            Conf {
                tape: put(c.tape, t, (((c.tape)(t) + (c.tape)(s) * source_amt_mult) % 256) as u8),
                ..c
            }
        },
        AST::ReadByte { dp_offset } => {
            let p = c.dp + dp_offset;
            if c.input.len() == 0 {
                Conf { tape: put(c.tape, p, 0), ..c }
            } else {
                Conf { tape: put(c.tape, p, c.input[0]), input: c.input.drop_first(), ..c }
            }
        },
        AST::WriteByte { dp_offset } => Conf { output: c.output.push((c.tape)(c.dp + dp_offset)), ..c },
        AST::WriteConst { out } => Conf { output: c.output.push(out), ..c },
        _ => c,
    }
}

/// Whether `n` is straight-line code: no loop, branch or infinite loop.
pub open spec fn is_straight(n: AST) -> bool {
    !(n is Loop || n is IfNonZero || n is ShiftLoop || n is InfiniteLoop)
}

/// Running `s` node by node from `c`.
pub open spec fn exec_seq(s: Seq<AST>, c: Conf) -> Conf
    decreases s.len(),
{
    if s.len() == 0 {
        c
    } else {
        exec_seq(s.drop_first(), exec_node(s[0], c))
    }
}

pub proof fn lemma_exec_short(s: Seq<AST>, c: Conf)
    requires
        s.len() <= 1,
    ensures
        s.len() == 0 ==> exec_seq(s, c) == c,
        s.len() == 1 ==> exec_seq(s, c) == exec_node(s[0], c),
{
    if s.len() == 1 {
        let rest = s.drop_first();
        assert(rest =~= Seq::<AST>::empty());
        assert(exec_seq(rest, exec_node(s[0], c)) == exec_node(s[0], c));
    }
}

/// The sequence `s` with `x` appended runs `s`, then `x`.
pub proof fn lemma_exec_push(s: Seq<AST>, x: AST, c: Conf)
    ensures
        exec_seq(s.push(x), c) == exec_node(x, exec_seq(s, c)),
    decreases s.len(),
{
    if s.len() == 0 {
        lemma_exec_short(s.push(x), c);
    } else {
        assert(s.push(x).drop_first() =~= s.drop_first().push(x));
        lemma_exec_push(s.drop_first(), x, exec_node(s[0], c));
    }
}

/// Running `a + b` runs `a`, then `b`.
pub proof fn lemma_exec_concat(a: Seq<AST>, b: Seq<AST>, c: Conf)
    ensures
        exec_seq(a + b, c) == exec_seq(b, exec_seq(a, c)),
    decreases a.len(),
{
    if a.len() == 0 {
        assert(a + b =~= b);
    } else {
        assert((a + b).drop_first() =~= a.drop_first() + b);
        lemma_exec_concat(a.drop_first(), b, exec_node(a[0], c));
    }
}

/// `body` run `j` times from `c`.
pub open spec fn iterate(body: Seq<AST>, c: Conf, j: nat) -> Conf
    decreases j,
{
    if j == 0 {
        c
    } else {
        exec_seq(body, iterate(body, c, (j - 1) as nat))
    }
}

/// How a bounded run of IR code ends.
pub enum Run {
    /// The code ran to its end in this state.
    Done(Conf),
    /// An infinite loop was reached in this state: execution stops there.
    Halted(Conf),
    /// A loop did not end within the iterations allowed.
    OutOfFuel,
}

/// Runs the IR sequence `s` from `c`; every loop may iterate at most `fuel` times, and a
/// loop nested in a loop body is allowed one iteration less than the enclosing one.
pub open spec fn run_seq(s: Seq<AST>, c: Conf, fuel: nat) -> Run
    decreases fuel, s,
{
    if s.len() == 0 {
        Run::Done(c)
    } else {
        match run_node(s[0], c, fuel) {
            Run::Done(next) => run_seq(s.subrange(1, s.len() as int), next, fuel),
            other => other,
        }
    }
}

/// Runs one IR node from `c`.
pub open spec fn run_node(n: AST, c: Conf, fuel: nat) -> Run
    decreases fuel, n,
{
    match n {
        AST::Loop { cond_dp_offset, elements, .. } => run_loop(
            cond_dp_offset as int,
            elements@,
            c,
            fuel,
        ),
        AST::IfNonZero { cond_dp_offset, elements } => if (c.tape)(c.dp + cond_dp_offset) == 0 {
            Run::Done(c)
        } else {
            run_seq(elements@, c, fuel)
        },
        AST::ShiftLoop { cond_dp_offset, dp_shift, .. } => run_scan(
            cond_dp_offset as int,
            dp_shift as int,
            c,
            fuel,
        ),
        AST::InfiniteLoop => Run::Halted(c),
        _ => Run::Done(exec_node(n, c)),
    }
}

/// Runs a scan loop: moves the data pointer by `shift` until the cell at `cond` is zero.
pub open spec fn run_scan(cond: int, shift: int, c: Conf, fuel: nat) -> Run
    decreases fuel,
{
    if (c.tape)(c.dp + cond) == 0 {
        Run::Done(c)
    } else if fuel == 0 {
        Run::OutOfFuel
    } else {
        run_scan(cond, shift, Conf { dp: c.dp + shift, ..c }, (fuel - 1) as nat)
    }
}

/// Runs a loop with condition offset `cond` and body `body` from `c`.
pub open spec fn run_loop(cond: int, body: Seq<AST>, c: Conf, fuel: nat) -> Run
    decreases fuel, body,
{
    if (c.tape)(c.dp + cond) == 0 {
        Run::Done(c)
    } else if fuel == 0 {
        Run::OutOfFuel
    } else {
        match run_seq(body, c, (fuel - 1) as nat) {
            Run::Done(next) => run_loop(cond, body, next, (fuel - 1) as nat),
            other => other,
        }
    }
}

/// Two sequences behave alike: from every state, with every bound on loop iterations.
pub open spec fn same_behaviour(a: Seq<AST>, b: Seq<AST>) -> bool {
    forall|c: Conf, fuel: nat| #[trigger] run_seq(a, c, fuel) == run_seq(b, c, fuel)
}

pub proof fn lemma_run_cons(x: AST, rest: Seq<AST>, c: Conf, fuel: nat)
    ensures
        run_seq(seq![x] + rest, c, fuel) == match run_node(x, c, fuel) {
            Run::Done(next) => run_seq(rest, next, fuel),
            other => other,
        },
{
    let s = seq![x] + rest;
    assert(s[0] == x);
    assert(s.subrange(1, s.len() as int) =~= rest);
}

proof fn lemma_run_loop_congruent(cond: int, a: Seq<AST>, b: Seq<AST>, c: Conf, fuel: nat)
    requires
        same_behaviour(a, b),
    ensures
        run_loop(cond, a, c, fuel) == run_loop(cond, b, c, fuel),
    decreases fuel,
{
    if (c.tape)(c.dp + cond) != 0 && fuel > 0 {
        assert(run_seq(a, c, (fuel - 1) as nat) == run_seq(b, c, (fuel - 1) as nat));
        if let Run::Done(next) = run_seq(a, c, (fuel - 1) as nat) {
            lemma_run_loop_congruent(cond, a, b, next, (fuel - 1) as nat);
        }
    }
}

/// A loop or branch behaves alike when its body is replaced by one that behaves alike.
pub proof fn lemma_body_congruent(n: AST, m: AST)
    requires
        (n matches AST::Loop { cond_dp_offset: c1, elements: e1, .. } && m matches AST::Loop {
            cond_dp_offset: c2,
            elements: e2,
            ..
        } && c1 == c2 && same_behaviour(e1@, e2@)) || (n matches AST::IfNonZero {
            cond_dp_offset: c1,
            elements: e1,
        } && m matches AST::IfNonZero { cond_dp_offset: c2, elements: e2 } && c1 == c2
            && same_behaviour(e1@, e2@)),
    ensures
        forall|c: Conf, fuel: nat| #[trigger] run_node(n, c, fuel) == run_node(m, c, fuel),
{
    assert forall|c: Conf, fuel: nat| #[trigger] run_node(n, c, fuel) == run_node(m, c, fuel) by {
        match (n, m) {
            (AST::Loop { cond_dp_offset, elements: e1, .. }, AST::Loop { elements: e2, .. }) => {
                lemma_run_loop_congruent(cond_dp_offset as int, e1@, e2@, c, fuel);
            },
            (AST::IfNonZero { elements: e1, .. }, AST::IfNonZero { elements: e2, .. }) => {
                assert(run_seq(e1@, c, fuel) == run_seq(e2@, c, fuel));
            },
            _ => {},
        }
    };
}

/// Running `a + b` runs `a`, then, where it ran to its end, `b`.
pub proof fn lemma_run_concat(a: Seq<AST>, b: Seq<AST>, c: Conf, fuel: nat)
    ensures
        run_seq(a + b, c, fuel) == match run_seq(a, c, fuel) {
            Run::Done(next) => run_seq(b, next, fuel),
            other => other,
        },
    decreases a.len(),
{
    if a.len() == 0 {
        assert(a + b =~= b);
    } else {
        let ra = a.subrange(1, a.len() as int);
        assert((a + b)[0] == a[0]);
        assert((a + b).subrange(1, (a + b).len() as int) =~= ra + b);
        if let Run::Done(next) = run_node(a[0], c, fuel) {
            lemma_run_concat(ra, b, next, fuel);
        }
    }
}

/// Running `a` with `y` appended runs `a`, then, where it ran to its end, `y`.
pub proof fn lemma_run_append(a: Seq<AST>, y: AST, c: Conf, fuel: nat)
    ensures
        run_seq(a + seq![y], c, fuel) == match run_seq(a, c, fuel) {
            Run::Done(next) => run_node(y, next, fuel),
            other => other,
        },
{
    lemma_run_concat(a, seq![y], c, fuel);
    if let Run::Done(next) = run_seq(a, c, fuel) {
        lemma_run_cons(y, seq![], next, fuel);
        assert(seq![y] + Seq::<AST>::empty() =~= seq![y]);
    }
}

/// Straight-line code always runs to its end, where `exec_seq` says.
pub proof fn lemma_run_straight(s: Seq<AST>, c: Conf, fuel: nat)
    requires
        all_straight(s),
    ensures
        run_seq(s, c, fuel) == Run::Done(exec_seq(s, c)),
    decreases s.len(),
{
    if s.len() > 0 {
        let rest = s.subrange(1, s.len() as int);
        assert(is_straight(s[0]));
        assert(run_node(s[0], c, fuel) == Run::Done(exec_node(s[0], c)));
        assert(rest =~= s.drop_first());
        assert forall|k: int| 0 <= k < rest.len() implies is_straight(#[trigger] rest[k]) by {
            assert(rest[k] == s[k + 1]);
        };
        lemma_run_straight(rest, exec_node(s[0], c), fuel);
    }
}

/// A loop or scan loop that ran to its end left its condition cell at zero.
pub proof fn lemma_loop_exit(n: AST, c: Conf, fuel: nat)
    requires
        n is Loop || n is ShiftLoop,
        run_node(n, c, fuel) is Done,
    ensures
        ({
            let last = run_node(n, c, fuel)->Done_0;
            let cond = match n {
                AST::Loop { cond_dp_offset, .. } => cond_dp_offset,
                AST::ShiftLoop { cond_dp_offset, .. } => cond_dp_offset,
                _ => 0,
            };
            (last.tape)(last.dp + cond) == 0
        }),
    decreases fuel,
{
    match n {
        AST::Loop { cond_dp_offset, elements, .. } => {
            lemma_loop_exit_inner(cond_dp_offset as int, elements@, c, fuel);
        },
        AST::ShiftLoop { cond_dp_offset, dp_shift, .. } => {
            lemma_scan_exit(cond_dp_offset as int, dp_shift as int, c, fuel);
        },
        _ => {},
    }
}

proof fn lemma_loop_exit_inner(cond: int, body: Seq<AST>, c: Conf, fuel: nat)
    requires
        run_loop(cond, body, c, fuel) is Done,
    ensures
        ((run_loop(cond, body, c, fuel)->Done_0).tape)(run_loop(cond, body, c, fuel)->Done_0.dp
            + cond) == 0,
    decreases fuel,
{
    if (c.tape)(c.dp + cond) != 0 && fuel > 0 {
        if let Run::Done(next) = run_seq(body, c, (fuel - 1) as nat) {
            lemma_loop_exit_inner(cond, body, next, (fuel - 1) as nat);
        }
    }
}

proof fn lemma_scan_exit(cond: int, shift: int, c: Conf, fuel: nat)
    requires
        run_scan(cond, shift, c, fuel) is Done,
    ensures
        ((run_scan(cond, shift, c, fuel)->Done_0).tape)(run_scan(cond, shift, c, fuel)->Done_0.dp
            + cond) == 0,
    decreases fuel,
{
    if (c.tape)(c.dp + cond) != 0 && fuel > 0 {
        lemma_scan_exit(cond, shift, Conf { dp: c.dp + shift, ..c }, (fuel - 1) as nat);
    }
}

/// Two nodes behave alike from every state, with every bound on loop iterations.
pub open spec fn same_node_behaviour(a: AST, b: AST) -> bool {
    forall|c: Conf, fuel: nat| #[trigger] run_node(a, c, fuel) == run_node(b, c, fuel)
}

/// Sequences whose nodes behave alike one by one behave alike.
pub proof fn lemma_pointwise(a: Seq<AST>, b: Seq<AST>)
    requires
        a.len() == b.len(),
        forall|k: int| 0 <= k < a.len() ==> same_node_behaviour(#[trigger] a[k], b[k]),
    ensures
        same_behaviour(a, b),
    decreases a.len(),
{
    if a.len() > 0 {
        let ra = a.subrange(1, a.len() as int);
        let rb = b.subrange(1, b.len() as int);
        assert forall|k: int| 0 <= k < ra.len() implies same_node_behaviour(#[trigger] ra[k], rb[k]) by {
            assert(ra[k] == a[k + 1]);
            assert(rb[k] == b[k + 1]);
        };
        lemma_pointwise(ra, rb);
        assert forall|c: Conf, fuel: nat| #[trigger] run_seq(a, c, fuel) == run_seq(b, c, fuel) by {
            assert(same_node_behaviour(a[0], b[0]));
            assert(run_node(a[0], c, fuel) == run_node(b[0], c, fuel));
            if let Run::Done(next) = run_node(a[0], c, fuel) {
                assert(run_seq(ra, next, fuel) == run_seq(rb, next, fuel));
            }
        };
    }
}

pub open spec fn all_straight(s: Seq<AST>) -> bool {
    forall|i: int| 0 <= i < s.len() ==> is_straight(#[trigger] s[i])
}

} // verus!
