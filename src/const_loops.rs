use vstd::prelude::*;

use crate::ir::{
    same_ir, same_ir_seq, apply_kind, collapse_kinds, compose_kinds, lemma_collapse_kinds_sound, node_wf, nodes_wf,
    offset_ok, DatamodKind, AST,
};
use crate::semantics::{
    all_straight, exec_node, exec_seq, is_straight, iterate, lemma_exec_push, lemma_run_straight,
    run_loop, run_seq, Conf, Run,
};

verus! {

pub open spec fn no_change() -> DatamodKind {
    DatamodKind::AddData { amount: 0 }
}

/// Whether `s` holds only cell modifications (and advisory assertions): no shift, I/O,
/// combine, loop, branch or infinite loop.
pub open spec fn only_data(s: Seq<AST>) -> bool {
    forall|i: int|
        0 <= i < s.len() ==> (#[trigger] s[i] is ModData || s[i] is AssertEquals)
}

/// The net modification that one run of `s` makes to the cell at offset `d`.
pub open spec fn net_effect(s: Seq<AST>, d: int) -> DatamodKind
    decreases s.len(),
{
    if s.len() == 0 {
        no_change()
    } else {
        let prev = net_effect(s.drop_last(), d);
        match s.last() {
            AST::ModData { kind, dp_offset } => if dp_offset == d {
                compose_kinds(prev, kind)
            } else {
                prev
            },
            _ => prev,
        }
    }
}

/// `m` lists, once each, exactly the offsets whose net effect in `s` is a change, with
/// that effect.
pub open spec fn lists_effects(m: Seq<(isize, DatamodKind)>, s: Seq<AST>) -> bool {
    &&& forall|i: int, j: int| 0 <= i < j < m.len() ==> m[i].0 != m[j].0
    &&& forall|i: int|
        0 <= i < m.len() ==> #[trigger] m[i].1 == net_effect(s, m[i].0 as int) && m[i].1
            != no_change()
    &&& forall|d: isize|
        net_effect(s, d as int) != no_change() ==> exists|i: int|
            0 <= i < m.len() && #[trigger] m[i].0 == d
}

proof fn lemma_only_data_straight(s: Seq<AST>)
    requires
        only_data(s),
    ensures
        all_straight(s),
{
    assert forall|k: int| 0 <= k < s.len() implies is_straight(#[trigger] s[k]) by {
        assert(s[k] is ModData || s[k] is AssertEquals);
    };
}

/// The value of a cell that held `v` after `j` runs of code whose net effect on it is `k`.
pub open spec fn repeated(k: DatamodKind, j: nat, v: u8) -> u8 {
    if j == 0 {
        v
    } else {
        match k {
            DatamodKind::AddData { amount } => ((v + j * amount) % 256) as u8,
            DatamodKind::SetData { amount } => amount,
        }
    }
}

proof fn lemma_repeated_step(k: DatamodKind, j: nat, v: u8)
    ensures
        apply_kind(k, repeated(k, j, v)) == repeated(k, j + 1, v),
{
    if let DatamodKind::AddData { amount } = k {
        if j > 0 {
            let x = (v + j * amount) % 256;
            assert(0 <= x < 256);
            assert((x + amount) % 256 == (v + (j + 1) * amount) % 256) by (nonlinear_arith)
                requires
                    x == (v + j * amount) % 256,
                    j >= 0,
            ;
        } else {
            assert(1 * amount == amount);
        }
    }
}

/// One run of a body of cell modifications applies its net effect to every cell.
proof fn lemma_body_effect(s: Seq<AST>, c: Conf)
    requires
        only_data(s),
    ensures
        exec_seq(s, c) == (Conf {
            tape: |p: int| apply_kind(net_effect(s, p - c.dp), (c.tape)(p)),
            ..c
        }),
    decreases s.len(),
{
    let target = Conf { tape: |p: int| apply_kind(net_effect(s, p - c.dp), (c.tape)(p)), ..c };
    if s.len() == 0 {
        assert(exec_seq(s, c).tape =~= target.tape);
    } else {
        let prev = s.drop_last();
        assert(only_data(prev)) by {
            assert forall|i: int| 0 <= i < prev.len() implies (#[trigger] prev[i] is ModData
                || prev[i] is AssertEquals) by {
                assert(prev[i] == s[i]);
            };
        };
        lemma_body_effect(prev, c);
        assert(prev.push(s.last()) =~= s);
        lemma_exec_push(prev, s.last(), c);
        assert(s.last() == s[s.len() - 1]);
        match s.last() {
            AST::ModData { kind, dp_offset } => {
                assert forall|p: int| #[trigger] (exec_seq(s, c).tape)(p) == (target.tape)(p) by {
                    if p - c.dp == dp_offset {
                        lemma_collapse_kinds_sound(net_effect(prev, p - c.dp), kind, (c.tape)(p));
                    }
                };
            },
            _ => {},
        }
        assert(exec_seq(s, c).tape =~= target.tape);
    }
}

proof fn lemma_iterate(body: Seq<AST>, c: Conf, j: nat)
    requires
        only_data(body),
    ensures
        iterate(body, c, j) == (Conf {
            tape: |p: int| repeated(net_effect(body, p - c.dp), j, (c.tape)(p)),
            ..c
        }),
    decreases j,
{
    let target = Conf {
        tape: |p: int| repeated(net_effect(body, p - c.dp), j, (c.tape)(p)),
        ..c
    };
    if j == 0 {
        assert(iterate(body, c, j).tape =~= target.tape);
    } else {
        let before = iterate(body, c, (j - 1) as nat);
        lemma_iterate(body, c, (j - 1) as nat);
        lemma_body_effect(body, before);
        assert forall|p: int| #[trigger] (iterate(body, c, j).tape)(p) == (target.tape)(p) by {
            lemma_repeated_step(net_effect(body, p - c.dp), (j - 1) as nat, (c.tape)(p));
        };
        assert(iterate(body, c, j).tape =~= target.tape);
    }
}

/// How many iterations a loop runs whose condition cell starts at nonzero `v` and changes
/// by `z` (255 or 1) per iteration.
pub open spec fn iterations(v: u8, z: u8) -> nat {
    if z == 255 {
        v as nat
    } else {
        (256 - v) as nat
    }
}

proof fn lemma_count(v: int, j: int, z: int)
    requires
        0 < v < 256,
        z == 255 || z == 1,
        0 <= j <= (if z == 255 { v } else { 256 - v }),
    ensures
        ((v + j * z) % 256 == 0) == (j == (if z == 255 { v } else { 256 - v })),
{
    if z == 255 {
        assert((v + j * 255) % 256 == v - j) by (nonlinear_arith)
            requires
                0 <= j <= v < 256,
        ;
    } else {
        assert((v + j * 1) % 256 == if j == 256 - v { 0 } else { v + j }) by (nonlinear_arith)
            requires
                0 < v < 256,
                0 <= j <= 256 - v,
        ;
    }
}

/// A loop whose body steps its condition cell by `z` (255 or 1) and otherwise only modifies
/// cells runs `iterations(v, z)` times from a nonzero condition value `v`.
proof fn lemma_counted_loop(cond: int, body: Seq<AST>, c: Conf, j: nat, z: u8)
    requires
        only_data(body),
        z == 255 || z == 1,
        net_effect(body, cond) == (DatamodKind::AddData { amount: z }),
        (c.tape)(c.dp + cond) != 0,
        j <= iterations((c.tape)(c.dp + cond), z),
    ensures
        run_loop(cond, body, iterate(body, c, j), (iterations((c.tape)(c.dp + cond), z) - j) as nat)
            == Run::Done(iterate(body, c, iterations((c.tape)(c.dp + cond), z))),
    decreases iterations((c.tape)(c.dp + cond), z) - j,
{
    let v = (c.tape)(c.dp + cond);
    let n = iterations(v, z);
    lemma_iterate(body, c, j);
    let cur = iterate(body, c, j);
    lemma_count(v as int, j as int, z as int);
    if j == 0 {
        assert((cur.tape)(cur.dp + cond) == v);
    } else {
        assert((cur.tape)(cur.dp + cond) == ((v + j * z) % 256) as u8);
    }
    if j < n {
        lemma_counted_loop(cond, body, c, j + 1, z);
        assert(iterate(body, c, j + 1) == exec_seq(body, cur));
        lemma_only_data_straight(body);
        lemma_run_straight(body, cur, (n - j - 1) as nat);
    }
}

fn find_offset(m: &Vec<(isize, DatamodKind)>, d: isize) -> (r: Option<usize>)
    ensures
        match r {
            Some(i) => i < m@.len() && m@[i as int].0 == d,
            None => forall|i: int| 0 <= i < m@.len() ==> m@[i].0 != d,
        },
{
    let mut i: usize = 0;
    while i < m.len()
        invariant
            i <= m@.len(),
            forall|j: int| 0 <= j < i ==> m@[j].0 != d,
        decreases m@.len() - i,
    {
        if m[i].0 == d {
            return Some(i);
        }
        i = i + 1;
    }
    None
}

/// The per-iteration effect of a loop body made of cell modifications only, one entry per
/// changed offset in order of first change; `None` where the body does anything else.
pub fn loop_effect(cmds: &Vec<AST>) -> (r: Option<Vec<(isize, DatamodKind)>>)
    ensures
        r is Some <==> only_data(cmds@),
        r matches Some(m) ==> lists_effects(m@, cmds@),
{
    let mut m: Vec<(isize, DatamodKind)> = Vec::new();
    let mut i: usize = 0;
    while i < cmds.len()
        invariant
            i <= cmds@.len(),
            only_data(cmds@.subrange(0, i as int)),
            lists_effects(m@, cmds@.subrange(0, i as int)),
        decreases cmds@.len() - i,
    {
        let ghost pre = cmds@.subrange(0, i as int);
        let ghost post = cmds@.subrange(0, i + 1);
        assert(post.drop_last() =~= pre);
        match &cmds[i] {
            AST::ModData { kind, dp_offset } => {
                let ghost old_m = m@;
                let ghost off = *dp_offset as int;
                assert(post.last() == cmds@[i as int]);
                assert(forall|d: int|
                    d != off ==> #[trigger] net_effect(post, d) == net_effect(pre, d));
                assert(net_effect(post, off) == compose_kinds(net_effect(pre, off), *kind));
                let found = find_offset(&m, *dp_offset);
                match found {
                    Some(j) => {
                        let k = collapse_kinds(m[j].1, *kind);
                        if k == no_change_kind() {
                            m.remove(j);
                            assert forall|t: int| 0 <= t < m@.len() implies #[trigger] m@[t].1
                                == net_effect(post, m@[t].0 as int) && m@[t].1
                                != no_change() by {
                                if t < j {
                                    assert(m@[t] == old_m[t]);
                                } else {
                                    assert(m@[t] == old_m[t + 1]);
                                }
                            };
                            assert forall|d: isize|
                                net_effect(post, d as int) != no_change() implies exists|t: int|
                                    0 <= t < m@.len() && #[trigger] m@[t].0 == d by {
                                assert(net_effect(pre, d as int) != no_change());
                                let t = choose|t: int| 0 <= t < old_m.len() && old_m[t].0 == d;
                                if t < j {
                                    assert(m@[t].0 == d);
                                } else {
                                    assert(m@[t - 1].0 == d);
                                }
                            };
                        } else {
                            m.set(j, (*dp_offset, k));
                            assert forall|t: int| 0 <= t < m@.len() implies #[trigger] m@[t].1
                                == net_effect(post, m@[t].0 as int) && m@[t].1
                                != no_change() by {
                                if t != j {
                                    assert(m@[t] == old_m[t]);
                                }
                            };
                            assert forall|d: isize|
                                net_effect(post, d as int) != no_change() implies exists|t: int|
                                    0 <= t < m@.len() && #[trigger] m@[t].0 == d by {
                                if d as int == off {
                                    assert(m@[j as int].0 == d);
                                } else {
                                    let t = choose|t: int|
                                        0 <= t < old_m.len() && old_m[t].0 == d;
                                    assert(m@[t].0 == d);
                                }
                            };
                        }
                    },
                    None => {
                        assert(net_effect(pre, off) == no_change());
                        let k = collapse_kinds(no_change_kind(), *kind);
                        if k != no_change_kind() {
                            m.push((*dp_offset, k));
                        }
                        assert forall|t: int| 0 <= t < m@.len() implies #[trigger] m@[t].1
                            == net_effect(post, m@[t].0 as int) && m@[t].1 != no_change() by {
                            if t < old_m.len() {
                                assert(m@[t] == old_m[t]);
                            }
                        };
                        assert forall|d: isize|
                            net_effect(post, d as int) != no_change() implies exists|t: int|
                                0 <= t < m@.len() && #[trigger] m@[t].0 == d by {
                            if d as int == off {
                                assert(m@[old_m.len() as int].0 == d);
                            } else {
                                let t = choose|t: int| 0 <= t < old_m.len() && old_m[t].0 == d;
                                assert(m@[t].0 == d);
                            }
                        };
                    },
                }
            },
            AST::AssertEquals { .. } => {
                assert(post.last() == cmds@[i as int]);
                assert(forall|d: int| #[trigger] net_effect(post, d) == net_effect(pre, d));
            },
            _ => {
                assert(!only_data(cmds@)) by {
                    assert(!(cmds@[i as int] is ModData || cmds@[i as int] is AssertEquals));
                };
                return None;
            },
        }
        i = i + 1;
        assert(only_data(cmds@.subrange(0, i as int))) by {
            assert forall|t: int| 0 <= t < post.len() implies (#[trigger] post[t] is ModData
                || post[t] is AssertEquals) by {
                if t < i - 1 {
                    assert(post[t] == pre[t]);
                }
            };
        };
    }
    assert(cmds@.subrange(0, i as int) =~= cmds@);
    Some(m)
}

fn no_change_kind() -> (r: DatamodKind)
    ensures
        r == no_change(),
{
    DatamodKind::AddData { amount: 0 }
}


spec fn modifies_at(n: AST, d: int) -> bool {
    match n {
        AST::ModData { dp_offset, .. } => dp_offset == d,
        _ => false,
    }
}

proof fn lemma_effect_has_node(s: Seq<AST>, d: int)
    requires
        net_effect(s, d) != no_change(),
    ensures
        exists|i: int| 0 <= i < s.len() && modifies_at(#[trigger] s[i], d),
    decreases s.len(),
{
    let prev = net_effect(s.drop_last(), d);
    if prev != no_change() {
        lemma_effect_has_node(s.drop_last(), d);
        let i = choose|i: int| 0 <= i < s.drop_last().len() && modifies_at(#[trigger] s.drop_last()[i], d);
        assert(s[i] == s.drop_last()[i]);
    } else {
        assert(s[s.len() - 1] == s.last());
    }
}

proof fn lemma_effect_offsets_wf(m: Seq<(isize, DatamodKind)>, s: Seq<AST>)
    requires
        lists_effects(m, s),
        nodes_wf(s),
    ensures
        forall|i: int| 0 <= i < m.len() ==> offset_ok(#[trigger] m[i].0 as int),
{
    assert forall|i: int| 0 <= i < m.len() implies offset_ok(#[trigger] m[i].0 as int) by {
        assert(m[i].1 == net_effect(s, m[i].0 as int) && m[i].1 != no_change());
        lemma_effect_has_node(s, m[i].0 as int);
        let t = choose|t: int| 0 <= t < s.len() && modifies_at(#[trigger] s[t], m[i].0 as int);
        assert(node_wf(s[t]));
    };
}

/// The node that stands for effect `e` of a counted loop on condition `cond`: a multiple of
/// the condition cell added to the target, or the target's set value.
pub open spec fn unrolled_node(e: (isize, DatamodKind), cond: isize, mult: u8) -> AST {
    match e.1 {
        DatamodKind::AddData { amount } => AST::CombineData {
            source_dp_offset: cond,
            target_dp_offset: e.0,
            source_amt_mult: ((mult * amount) % 256) as u8,
        },
        DatamodKind::SetData { amount } => AST::ModData {
            kind: DatamodKind::SetData { amount },
            dp_offset: e.0,
        },
    }
}

/// The nodes for the effects `m` other than the one at `cond`, in order.
pub open spec fn unrolled_body(m: Seq<(isize, DatamodKind)>, cond: isize, mult: u8) -> Seq<AST>
    decreases m.len(),
{
    if m.len() == 0 {
        seq![]
    } else {
        let prev = unrolled_body(m.drop_last(), cond, mult);
        if m.last().0 != cond {
            prev.push(unrolled_node(m.last(), cond, mult))
        } else {
            prev
        }
    }
}

/// The closed form of a counted loop: the effects, then the condition cell cleared.
pub open spec fn unrolled(m: Seq<(isize, DatamodKind)>, cond: isize, mult: u8) -> Seq<AST> {
    unrolled_body(m, cond, mult).push(
        AST::ModData { kind: DatamodKind::SetData { amount: 0 }, dp_offset: cond },
    )
}

/// What the node for an effect `k` makes of a cell holding `x`, the condition cell holding
/// `v`.
pub open spec fn closed_value(k: DatamodKind, x: u8, v: u8, mult: u8) -> u8 {
    match k {
        DatamodKind::AddData { amount } => ((x + v * (((mult * amount) % 256) as u8)) % 256) as u8,
        DatamodKind::SetData { amount } => amount,
    }
}

/// The value at offset `d` after `unrolled_body(m, cond, mult)` ran on a cell holding `t`,
/// the condition cell holding `v`.
pub open spec fn unrolled_cell(
    m: Seq<(isize, DatamodKind)>,
    cond: isize,
    mult: u8,
    d: int,
    t: u8,
    v: u8,
) -> u8
    decreases m.len(),
{
    if m.len() == 0 {
        t
    } else {
        let prev = unrolled_cell(m.drop_last(), cond, mult, d, t, v);
        if m.last().0 == d && d != cond {
            closed_value(m.last().1, prev, v, mult)
        } else {
            prev
        }
    }
}

proof fn lemma_unrolled_cell_cond(
    m: Seq<(isize, DatamodKind)>,
    cond: isize,
    mult: u8,
    t: u8,
    v: u8,
)
    ensures
        unrolled_cell(m, cond, mult, cond as int, t, v) == t,
    decreases m.len(),
{
    if m.len() > 0 {
        lemma_unrolled_cell_cond(m.drop_last(), cond, mult, t, v);
    }
}

proof fn lemma_unrolled_exec(m: Seq<(isize, DatamodKind)>, cond: isize, mult: u8, c: Conf)
    ensures
        exec_seq(unrolled_body(m, cond, mult), c) == (Conf {
            tape: |p: int|
                unrolled_cell(m, cond, mult, p - c.dp, (c.tape)(p), (c.tape)(c.dp + cond)),
            ..c
        }),
    decreases m.len(),
{
    let v = (c.tape)(c.dp + cond);
    let target = Conf {
        tape: |p: int| unrolled_cell(m, cond, mult, p - c.dp, (c.tape)(p), v),
        ..c
    };
    if m.len() == 0 {
        assert(exec_seq(unrolled_body(m, cond, mult), c).tape =~= target.tape);
    } else {
        let prev = m.drop_last();
        lemma_unrolled_exec(prev, cond, mult, c);
        let before = exec_seq(unrolled_body(prev, cond, mult), c);
        lemma_unrolled_cell_cond(prev, cond, mult, v, v);
        assert((before.tape)(c.dp + cond) == v);
        if m.last().0 != cond {
            lemma_exec_push(unrolled_body(prev, cond, mult), unrolled_node(m.last(), cond, mult), c);
        }
        assert(exec_seq(unrolled_body(m, cond, mult), c).tape =~= target.tape);
    }
}

proof fn lemma_unrolled_cell(
    m: Seq<(isize, DatamodKind)>,
    cond: isize,
    mult: u8,
    d: int,
    t: u8,
    v: u8,
)
    requires
        forall|i: int, j: int| 0 <= i < j < m.len() ==> m[i].0 != m[j].0,
        d != cond,
    ensures
        forall|i: int|
            0 <= i < m.len() && #[trigger] m[i].0 == d ==> unrolled_cell(m, cond, mult, d, t, v)
                == closed_value(m[i].1, t, v, mult),
        (forall|i: int| 0 <= i < m.len() ==> m[i].0 != d) ==> unrolled_cell(m, cond, mult, d, t, v)
            == t,
    decreases m.len(),
{
    if m.len() > 0 {
        let prev = m.drop_last();
        lemma_unrolled_cell(prev, cond, mult, d, t, v);
        assert forall|i: int| 0 <= i < m.len() && #[trigger] m[i].0 == d implies unrolled_cell(
            m,
            cond,
            mult,
            d,
            t,
            v,
        ) == closed_value(m[i].1, t, v, mult) by {
            if i < m.len() - 1 {
                assert(prev[i] == m[i]);
                assert(m.last().0 != d);
            } else {
                assert(forall|j: int| 0 <= j < prev.len() ==> prev[j].0 != d) by {
                    assert forall|j: int| 0 <= j < prev.len() implies prev[j].0 != d by {
                        assert(prev[j] == m[j]);
                    };
                };
            }
        };
        if forall|i: int| 0 <= i < m.len() ==> m[i].0 != d {
            assert(m.last() == m[m.len() - 1]);
            assert forall|j: int| 0 <= j < prev.len() implies prev[j].0 != d by {
                assert(prev[j] == m[j]);
            };
        }
    }
}

/// The value at offset `d` after `single_run_body(m, cond)` ran on a cell holding `t`.
pub open spec fn single_cell(m: Seq<(isize, DatamodKind)>, cond: isize, d: int, t: u8) -> u8
    decreases m.len(),
{
    if m.len() == 0 {
        t
    } else {
        let prev = single_cell(m.drop_last(), cond, d, t);
        if m.last().0 == d && d != cond {
            apply_kind(m.last().1, prev)
        } else {
            prev
        }
    }
}

proof fn lemma_single_exec(m: Seq<(isize, DatamodKind)>, cond: isize, c: Conf)
    ensures
        exec_seq(single_run_body(m, cond), c) == (Conf {
            tape: |p: int| single_cell(m, cond, p - c.dp, (c.tape)(p)),
            ..c
        }),
    decreases m.len(),
{
    let target = Conf { tape: |p: int| single_cell(m, cond, p - c.dp, (c.tape)(p)), ..c };
    if m.len() == 0 {
        assert(exec_seq(single_run_body(m, cond), c).tape =~= target.tape);
    } else {
        let prev = m.drop_last();
        lemma_single_exec(prev, cond, c);
        if m.last().0 != cond {
            lemma_exec_push(
                single_run_body(prev, cond),
                AST::ModData { kind: m.last().1, dp_offset: m.last().0 },
                c,
            );
        }
        assert(exec_seq(single_run_body(m, cond), c).tape =~= target.tape);
    }
}

proof fn lemma_single_cell(m: Seq<(isize, DatamodKind)>, cond: isize, d: int, t: u8)
    requires
        forall|i: int, j: int| 0 <= i < j < m.len() ==> m[i].0 != m[j].0,
        d != cond,
    ensures
        forall|i: int|
            0 <= i < m.len() && #[trigger] m[i].0 == d ==> single_cell(m, cond, d, t) == apply_kind(
                m[i].1,
                t,
            ),
        (forall|i: int| 0 <= i < m.len() ==> m[i].0 != d) ==> single_cell(m, cond, d, t) == t,
    decreases m.len(),
{
    if m.len() > 0 {
        let prev = m.drop_last();
        lemma_single_cell(prev, cond, d, t);
        assert forall|i: int| 0 <= i < m.len() && #[trigger] m[i].0 == d implies single_cell(
            m,
            cond,
            d,
            t,
        ) == apply_kind(m[i].1, t) by {
            if i < m.len() - 1 {
                assert(prev[i] == m[i]);
                assert(m.last().0 != d);
            } else {
                assert forall|j: int| 0 <= j < prev.len() implies prev[j].0 != d by {
                    assert(prev[j] == m[j]);
                };
            }
        };
        if forall|i: int| 0 <= i < m.len() ==> m[i].0 != d {
            assert(m.last() == m[m.len() - 1]);
            assert forall|j: int| 0 <= j < prev.len() implies prev[j].0 != d by {
                assert(prev[j] == m[j]);
            };
        }
    }
}

/// The closed form that the loop-shape recognizer emits for a loop whose body clears its
/// condition cell and otherwise only modifies cells behaves as the loop: entered with a
/// nonzero condition, the loop runs exactly once and ends where the closed form does.
pub proof fn lemma_single_run_closed_form(
    body: Seq<AST>,
    m: Seq<(isize, DatamodKind)>,
    cond: isize,
    c: Conf,
)
    requires
        only_data(body),
        lists_effects(m, body),
        net_effect(body, cond as int) == (DatamodKind::SetData { amount: 0 }),
        (c.tape)(c.dp + cond) != 0,
    ensures
        run_loop(cond as int, body, c, 1) == Run::Done(exec_seq(single_run(m, cond), c)),
{
    lemma_body_effect(body, c);
    let once = exec_seq(body, c);
    assert((once.tape)(once.dp + cond) == 0);
    lemma_only_data_straight(body);
    lemma_run_straight(body, c, 0);
    assert(run_loop(cond as int, body, once, 0) == Run::Done(once));
    lemma_single_exec(m, cond, c);
    lemma_exec_push(
        single_run_body(m, cond),
        AST::ModData { kind: DatamodKind::SetData { amount: 0 }, dp_offset: cond },
        c,
    );
    let fin = exec_seq(single_run(m, cond), c);
    assert forall|p: int| #[trigger] (fin.tape)(p) == (once.tape)(p) by {
        let d = p - c.dp;
        let t = (c.tape)(p);
        if d != cond {
            lemma_single_cell(m, cond, d, t);
            if exists|i: int| 0 <= i < m.len() && m[i].0 == d {
                let i = choose|i: int| 0 <= i < m.len() && m[i].0 == d;
                assert(m[i].1 == net_effect(body, m[i].0 as int));
            } else {
                assert(net_effect(body, d) == no_change()) by {
                    if net_effect(body, d) != no_change() {
                        lemma_effect_has_node(body, d);
                        let k = choose|k: int| 0 <= k < body.len() && modifies_at(#[trigger] body[k], d);
                        let di = body[k]->ModData_dp_offset;
                        assert(di as int == d);
                        assert(net_effect(body, di as int) != no_change());
                        let i = choose|i: int| 0 <= i < m.len() && #[trigger] m[i].0 == di;
                        assert(m[i].0 == d);
                    }
                };
            }
        }
    };
    assert(fin.tape =~= once.tape);
}

/// A loop whose body is a single pointer shift runs as the scan loop that the recognizer
/// puts in its place, from every state and with every bound on iterations.
pub proof fn lemma_scan_loop_sound(cond: isize, k: isize, c: Conf, fuel: nat)
    ensures
        run_loop(cond as int, seq![AST::ShiftDataPtr { amount: k }], c, fuel)
            == crate::semantics::run_scan(cond as int, k as int, c, fuel),
    decreases fuel,
{
    let body = seq![AST::ShiftDataPtr { amount: k }];
    if (c.tape)(c.dp + cond) != 0 && fuel > 0 {
        let f = (fuel - 1) as nat;
        assert(all_straight(body));
        lemma_run_straight(body, c, f);
        crate::semantics::lemma_exec_short(body, c);
        lemma_scan_loop_sound(cond, k, exec_node(body[0], c), f);
    }
}

/// A loop whose body only modifies cells and leaves its condition cell alone, or sets it
/// to a nonzero value, never ends once entered: no number of iterations gets it out, so
/// the recognizer may replace it by an infinite loop behind a test of the condition.
pub proof fn lemma_stuck_loop(cond: int, body: Seq<AST>, c: Conf, fuel: nat)
    requires
        only_data(body),
        net_effect(body, cond) == no_change() || (net_effect(body, cond) is SetData
            && net_effect(body, cond) != (DatamodKind::SetData { amount: 0 })),
        (c.tape)(c.dp + cond) != 0,
    ensures
        run_loop(cond, body, c, fuel) == Run::OutOfFuel,
    decreases fuel,
{
    if fuel > 0 {
        lemma_body_effect(body, c);
        let next = exec_seq(body, c);
        assert((next.tape)(next.dp + cond) != 0);
        lemma_only_data_straight(body);
        lemma_run_straight(body, c, (fuel - 1) as nat);
        lemma_stuck_loop(cond, body, next, (fuel - 1) as nat);
    }
}

proof fn lemma_repeat_closed(t: u8, v: u8, a: u8, z: u8)
    requires
        0 < v,
        z == 255 || z == 1,
    ensures
        ((t + iterations(v, z) * a) % 256) as u8 == closed_value(
            DatamodKind::AddData { amount: a },
            t,
            v,
            if z == 255 { 1u8 } else { 255u8 },
        ),
{
    if z == 255 {
        assert((1 * a) % 256 == a);
    } else {
        let ma = (255 * a) % 256;
        let q = (255 * a) / 256;
        assert(255 * a == 256 * q + ma) by (nonlinear_arith)
            requires
                ma == (255 * a) % 256,
                q == (255 * a) / 256,
        ;
        let k = a * v - q * v - a;
        assert(t + v * ma == 256 * k + (t + (256 - v) * a)) by (nonlinear_arith)
            requires
                255 * a == 256 * q + ma,
                k == a * v - q * v - a,
        ;
        vstd::arithmetic::div_mod::lemma_mod_multiples_vanish(k, t + (256 - v) * a, 256);
    }
}

/// The closed form that the loop-shape recognizer emits for a loop that steps its condition
/// cell by one (down with `z` 255, up with `z` 1) per iteration and otherwise only modifies
/// cells behaves as the loop: from every state whose condition cell holds a nonzero `v`, the
/// loop ends after exactly `iterations(v, z)` iterations, in the state that the closed form
/// reaches.
pub proof fn lemma_counted_loop_closed_form(
    body: Seq<AST>,
    m: Seq<(isize, DatamodKind)>,
    cond: isize,
    z: u8,
    c: Conf,
)
    requires
        only_data(body),
        lists_effects(m, body),
        z == 255 || z == 1,
        net_effect(body, cond as int) == (DatamodKind::AddData { amount: z }),
        (c.tape)(c.dp + cond) != 0,
    ensures
        run_loop(cond as int, body, c, iterations((c.tape)(c.dp + cond), z)) == Run::Done(
            exec_seq(unrolled(m, cond, if z == 255 { 1u8 } else { 255u8 }), c),
        ),
{
    let v = (c.tape)(c.dp + cond);
    let mult: u8 = if z == 255 { 1u8 } else { 255u8 };
    let n = iterations(v, z);
    lemma_counted_loop(cond as int, body, c, 0, z);
    lemma_iterate(body, c, n);
    let done = iterate(body, c, n);
    let ub = unrolled_body(m, cond, mult);
    lemma_unrolled_exec(m, cond, mult, c);
    lemma_exec_push(
        ub,
        AST::ModData { kind: DatamodKind::SetData { amount: 0 }, dp_offset: cond },
        c,
    );
    let fin = exec_seq(unrolled(m, cond, mult), c);
    assert forall|p: int| #[trigger] (fin.tape)(p) == (done.tape)(p) by {
        let d = p - c.dp;
        let t = (c.tape)(p);
        if d == cond {
            lemma_count(v as int, n as int, z as int);
        } else {
            lemma_unrolled_cell(m, cond, mult, d, t, v);
            if exists|i: int| 0 <= i < m.len() && m[i].0 == d {
                let i = choose|i: int| 0 <= i < m.len() && m[i].0 == d;
                assert(m[i].1 == net_effect(body, m[i].0 as int));
                if let DatamodKind::AddData { amount } = m[i].1 {
                    lemma_repeat_closed(t, v, amount, z);
                }
            } else {
                assert(net_effect(body, d) == no_change()) by {
                    if net_effect(body, d) != no_change() {
                        lemma_effect_has_node(body, d);
                        let k = choose|k: int| 0 <= k < body.len() && modifies_at(#[trigger] body[k], d);
                        let di = body[k]->ModData_dp_offset;
                        assert(di as int == d);
                        assert(net_effect(body, di as int) != no_change());
                        let i = choose|i: int| 0 <= i < m.len() && #[trigger] m[i].0 == di;
                        assert(m[i].0 == d);
                    }
                };
                assert((t + n * 0) % 256 == t) by (nonlinear_arith)
                    requires
                        0 <= t < 256,
                ;
            }
        }
    };
    assert(fin.tape =~= done.tape);
}

/// The straight-line code that a loop whose body only modifies cells amounts to, for
/// the effects `m`, of which the one at `cond` is the decrement (`mult` 1) or the
/// increment (`mult` 255) of the condition cell: each other cell gains its per-iteration
/// amount times the number of iterations, or takes its set value; the condition cell ends
/// at zero.
fn unrolled_effects(m: &Vec<(isize, DatamodKind)>, cond: isize, mult: u8) -> (r: Vec<AST>)
    requires
        offset_ok(cond as int),
        forall|i: int| 0 <= i < m@.len() ==> offset_ok(#[trigger] m@[i].0 as int),
    ensures
        nodes_wf(r@),
        r@ == unrolled(m@, cond, mult),
{
    let mut out: Vec<AST> = Vec::new();
    let mut i: usize = 0;
    while i < m.len()
        invariant
            i <= m@.len(),
            offset_ok(cond as int),
            forall|i: int| 0 <= i < m@.len() ==> offset_ok(#[trigger] m@[i].0 as int),
            nodes_wf(out@),
            out@ == unrolled_body(m@.subrange(0, i as int), cond, mult),
        decreases m@.len() - i,
    {
        let (d, k) = m[i];
        assert(m@.subrange(0, i + 1).drop_last() =~= m@.subrange(0, i as int));
        if d != cond {
            let node = match k {
                DatamodKind::AddData { amount } => AST::CombineData {
                    source_dp_offset: cond,
                    target_dp_offset: d,
                    source_amt_mult: mult.wrapping_mul(amount),
                },
                DatamodKind::SetData { amount } => AST::ModData {
                    kind: DatamodKind::SetData { amount },
                    dp_offset: d,
                },
            };
            assert(offset_ok(m@[i as int].0 as int));
            out.push(node);
        }
        i = i + 1;
    }
    assert(m@.subrange(0, i as int) =~= m@);
    out.push(AST::ModData { kind: DatamodKind::SetData { amount: 0 }, dp_offset: cond });
    out
}

/// The effects `m` other than the one at `cond`, each as the modification it is.
pub open spec fn single_run_body(m: Seq<(isize, DatamodKind)>, cond: isize) -> Seq<AST>
    decreases m.len(),
{
    if m.len() == 0 {
        seq![]
    } else {
        let prev = single_run_body(m.drop_last(), cond);
        if m.last().0 != cond {
            prev.push(AST::ModData { kind: m.last().1, dp_offset: m.last().0 })
        } else {
            prev
        }
    }
}

/// The effects of one run of a loop body, then the condition cell cleared.
pub open spec fn single_run(m: Seq<(isize, DatamodKind)>, cond: isize) -> Seq<AST> {
    single_run_body(m, cond).push(
        AST::ModData { kind: DatamodKind::SetData { amount: 0 }, dp_offset: cond },
    )
}

/// The body of a loop that runs exactly once: each effect once, then the condition cell
/// cleared.
fn single_run_effects(m: &Vec<(isize, DatamodKind)>, cond: isize) -> (r: Vec<AST>)
    requires
        offset_ok(cond as int),
        forall|i: int| 0 <= i < m@.len() ==> offset_ok(#[trigger] m@[i].0 as int),
    ensures
        nodes_wf(r@),
        r@ == single_run(m@, cond),
{
    let mut out: Vec<AST> = Vec::new();
    let mut i: usize = 0;
    while i < m.len()
        invariant
            i <= m@.len(),
            offset_ok(cond as int),
            forall|i: int| 0 <= i < m@.len() ==> offset_ok(#[trigger] m@[i].0 as int),
            nodes_wf(out@),
            out@ == single_run_body(m@.subrange(0, i as int), cond),
        decreases m@.len() - i,
    {
        let (d, k) = m[i];
        assert(m@.subrange(0, i + 1).drop_last() =~= m@.subrange(0, i as int));
        if d != cond {
            assert(offset_ok(m@[i as int].0 as int));
            out.push(AST::ModData { kind: k, dp_offset: d });
        }
        i = i + 1;
    }
    assert(m@.subrange(0, i as int) =~= m@);
    out.push(AST::ModData { kind: DatamodKind::SetData { amount: 0 }, dp_offset: cond });
    out
}

/// Guards `body` by the condition cell, unless the loop is known to be entered.
/// `out` is `body` guarded by the condition cell: the body itself where the loop is known to
/// be entered, else a branch on the condition holding it.
pub open spec fn guarded_rel(out: Seq<AST>, cond: isize, body: Seq<AST>, entered: bool) -> bool {
    if entered {
        out == body
    } else {
        out.len() == 1 && (out[0] matches AST::IfNonZero { cond_dp_offset, elements }
            && cond_dp_offset == cond && elements@ == body)
    }
}

/// `out` is the single loop `cond`, `body`, `hint`, left as it is.
pub open spec fn kept_loop(out: Seq<AST>, cond: isize, body: Seq<AST>, hint: bool) -> bool {
    out.len() == 1 && (out[0] matches AST::Loop {
        cond_dp_offset,
        elements,
        known_to_be_nontrivial,
    } && cond_dp_offset == cond && elements@ == body && known_to_be_nontrivial == hint)
}

/// `out` is what the loop-shape recognizer makes of the loop `cond`, `body`, `hint`:
/// - a body of cell modifications only, by the net effect `z` on the condition cell:
///   nothing (the loop is skipped or never ends) or a nonzero set give a guarded infinite
///   loop; a step by one gives the closed form of the counted loop (unguarded where only the
///   condition cell changes); a set to zero gives the body's effects run once; any other
///   step leaves the loop alone;
/// - a body that is one pointer shift gives a scan loop;
/// - anything else leaves the loop alone.
pub open spec fn loop_rewrite_rel(out: Seq<AST>, cond: isize, body: Seq<AST>, hint: bool) -> bool {
    if only_data(body) {
        exists|m: Seq<(isize, DatamodKind)>|
            lists_effects(m, body) && #[trigger] data_loop_rewrite(out, cond, body, hint, m)
    } else if body.len() == 1 && body[0] is ShiftDataPtr {
        out == seq![
            AST::ShiftLoop {
                cond_dp_offset: cond,
                dp_shift: body[0]->ShiftDataPtr_amount,
                known_to_be_nontrivial: hint,
            },
        ]
    } else {
        kept_loop(out, cond, body, hint)
    }
}

/// The rewrite of a loop whose body only modifies cells, `m` listing its effects.
pub open spec fn data_loop_rewrite(
    out: Seq<AST>,
    cond: isize,
    body: Seq<AST>,
    hint: bool,
    m: Seq<(isize, DatamodKind)>,
) -> bool {
    match net_effect(body, cond as int) {
        DatamodKind::AddData { amount } => if amount == 0 {
            guarded_rel(out, cond, seq![AST::InfiniteLoop], hint)
        } else if amount == 255 || amount == 1 {
            let mult: u8 = if amount == 255 { 1 } else { 255 };
            guarded_rel(out, cond, unrolled(m, cond, mult), hint || m.len() == 1)
        } else {
            kept_loop(out, cond, body, hint)
        },
        DatamodKind::SetData { amount } => if amount != 0 {
            guarded_rel(out, cond, seq![AST::InfiniteLoop], hint)
        } else {
            guarded_rel(out, cond, single_run(m, cond), hint || m.len() == 1)
        },
    }
}

fn guarded(cond: isize, body: Vec<AST>, entered: bool, out: &mut Vec<AST>)
    requires
        offset_ok(cond as int),
        nodes_wf(body@),
        nodes_wf(old(out)@),
    ensures
        nodes_wf(final(out)@),
        old(out)@.len() <= final(out)@.len(),
        final(out)@.subrange(0, old(out)@.len() as int) == old(out)@,
        guarded_rel(
            final(out)@.subrange(old(out)@.len() as int, final(out)@.len() as int),
            cond,
            body@,
            entered,
        ),
{
    let ghost pre = out@;
    if entered {
        let ghost pre = out@;
        let ghost b = body@;
        let mut body = body;
        out.append(&mut body);
        assert(nodes_wf(out@)) by {
            assert forall|i: int| 0 <= i < out@.len() implies node_wf(#[trigger] out@[i]) by {
                if i >= pre.len() {
                    assert(out@[i] == b[i - pre.len()]);
                }
            };
        };
        assert(out@.subrange(pre.len() as int, out@.len() as int) =~= b);
    } else {
        let ghost b = body@;
        out.push(AST::IfNonZero { cond_dp_offset: cond, elements: body });
        assert(out@.subrange(pre.len() as int, out@.len() as int) =~= seq![out@[pre.len() as int]]);
    }
    assert(out@.subrange(0, pre.len() as int) =~= pre);
}

/// Replaces the loop `cond`, `elements`, `known_to_be_nontrivial` by its closed form where
/// its shape is recognised, appending the result to `out`; returns whether it did so.
fn rewrite_loop(
    cond: isize,
    elements: Vec<AST>,
    known_to_be_nontrivial: bool,
    out: &mut Vec<AST>,
) -> (r: bool)
    requires
        offset_ok(cond as int),
        nodes_wf(elements@),
        nodes_wf(old(out)@),
    ensures
        nodes_wf(final(out)@),
        old(out)@.len() <= final(out)@.len(),
        final(out)@.subrange(0, old(out)@.len() as int) == old(out)@,
        loop_rewrite_rel(
            final(out)@.subrange(old(out)@.len() as int, final(out)@.len() as int),
            cond,
            elements@,
            known_to_be_nontrivial,
        ),
        !r ==> final(out)@ == old(out)@.push(
            AST::Loop { cond_dp_offset: cond, elements, known_to_be_nontrivial },
        ),
        final(out)@.len() > old(out)@.len(),
        r ==> final(out)@.len() > old(out)@.len() + 1 || !(final(out)@[old(out)@.len() as int] is Loop),
{
    let ghost pre = out@;
    let ghost body = elements@;
    match loop_effect(&elements) {
        Some(m) => {
            proof {
                lemma_effect_offsets_wf(m@, elements@);
            }
            let found = find_offset(&m, cond);
            proof {
                match found {
                    None => {
                        if net_effect(body, cond as int) != no_change() {
                            let i = choose|i: int| 0 <= i < m@.len() && #[trigger] m@[i].0 == cond;
                        }
                    },
                    Some(j) => {
                        assert(m@[j as int].1 == net_effect(body, m@[j as int].0 as int));
                    },
                }
            }
            let r = match found {
                None => {
                    // the condition cell never changes: the loop is skipped or never ends
                    {
                        let il = vec![AST::InfiniteLoop];
                        assert(il@ =~= seq![AST::InfiniteLoop]);
                        guarded(cond, il, known_to_be_nontrivial, out);
                    }
                    true
                },
                Some(j) => match m[j].1 {
                    DatamodKind::AddData { amount } => {
                        if amount == 255 || amount == 1 {
                            let mult: u8 = if amount == 255 { 1 } else { 255 };
                            let adds = unrolled_effects(&m, cond, mult);
                            if m.len() == 1 {
                                // only the condition cell changes: the loop just clears it
                                guarded(cond, adds, true, out);
                            } else {
                                guarded(cond, adds, known_to_be_nontrivial, out);
                            }
                            true
                        } else {
                            out.push(AST::Loop { cond_dp_offset: cond, elements, known_to_be_nontrivial });
                            assert(out@.subrange(0, pre.len() as int) =~= pre);
                            false
                        }
                    },
                    DatamodKind::SetData { amount } => {
                        if amount != 0 {
                            {
                        let il = vec![AST::InfiniteLoop];
                        assert(il@ =~= seq![AST::InfiniteLoop]);
                        guarded(cond, il, known_to_be_nontrivial, out);
                    }
                        } else {
                            let once = single_run_effects(&m, cond);
                            let entered = known_to_be_nontrivial || m.len() == 1;
                            guarded(cond, once, entered, out);
                        }
                        true
                    },
                },
            };
            proof {
                let part = out@.subrange(pre.len() as int, out@.len() as int);
                if !r {
                    assert(part =~= seq![out@[pre.len() as int]]);
                }
                assert(data_loop_rewrite(part, cond, body, known_to_be_nontrivial, m@));
            }
            r
        },
        None => {
            if elements.len() == 1 {
                if let AST::ShiftDataPtr { amount } = elements[0] {
                    assert(node_wf(elements@[0]));
                    out.push(AST::ShiftLoop { cond_dp_offset: cond, dp_shift: amount, known_to_be_nontrivial });
                    proof {
                        assert(out@.subrange(pre.len() as int, out@.len() as int) =~= seq![out@[pre.len() as int]]);
                        assert(out@.subrange(0, pre.len() as int) =~= pre);
                    }
                    return true;
                }
            }
            out.push(AST::Loop { cond_dp_offset: cond, elements, known_to_be_nontrivial });
            proof {
                assert(out@.subrange(pre.len() as int, out@.len() as int) =~= seq![out@[pre.len() as int]]);
                assert(out@.subrange(0, pre.len() as int) =~= pre);
            }
            false
        },
    }
}

/// The sequences of `parts`, one after another.
pub open spec fn concat_parts(parts: Seq<Seq<AST>>) -> Seq<AST>
    decreases parts.len(),
{
    if parts.len() == 0 {
        seq![]
    } else {
        concat_parts(parts.drop_last()) + parts.last()
    }
}

/// What the recognizer puts in place of node `n`, whose bodies are already rewritten.
pub open spec fn part_rel(p: Seq<AST>, n: AST) -> bool {
    match n {
        AST::Loop { cond_dp_offset, elements, known_to_be_nontrivial } => loop_rewrite_rel(
            p,
            cond_dp_offset,
            elements@,
            known_to_be_nontrivial,
        ),
        _ => p == seq![n],
    }
}

/// `out` is what `const_loop_remove` makes of `s`: every loop and branch body rewritten
/// first, then each loop of the top level replaced as `loop_rewrite_rel` says.
pub open spec fn loops_rel(out: Seq<AST>, s: Seq<AST>) -> bool
    decreases s,
{
    exists|mid: Seq<AST>, parts: Seq<Seq<AST>>|
        mid.len() == s.len() && parts.len() == s.len() && (forall|k: int|
            0 <= k < s.len() ==> loops_node(#[trigger] mid[k], s[k])) && (forall|k: int|
            0 <= k < s.len() ==> #[trigger] part_rel(parts[k], mid[k])) && out == concat_parts(
            parts,
        )
}

/// `m` is `n` with its body, if it has one, rewritten.
pub open spec fn loops_node(m: AST, n: AST) -> bool
    decreases n,
{
    match n {
        AST::Loop { cond_dp_offset: c, elements: e, known_to_be_nontrivial: h } => match m {
            AST::Loop { cond_dp_offset: c2, elements: e2, known_to_be_nontrivial: h2 } => c == c2
                && h == h2 && loops_rel(e2@, e@),
            _ => false,
        },
        AST::IfNonZero { cond_dp_offset: c, elements: e } => match m {
            AST::IfNonZero { cond_dp_offset: c2, elements: e2 } => c == c2 && loops_rel(e2@, e@),
            _ => false,
        },
        _ => m == n,
    }
}

/// Recognises loop shapes with a closed form, in `cmds` and in every nested body.
/// Returns the new sequence and the number of loops rewritten.
pub fn const_loop_remove(cmds: Vec<AST>) -> (r: (Vec<AST>, usize))
    requires
        nodes_wf(cmds@),
    ensures
        nodes_wf(r.0@),
        all_straight(cmds@) ==> r.0@ == cmds@,
        loops_rel(r.0@, cmds@),
        r.1 == 0 <==> same_ir_seq(r.0@, cmds@),
    decreases cmds@,
{
    let ghost s = cmds@;
    let mut out: Vec<AST> = Vec::new();
    let mut total: usize = 0;
    let ghost mut mid: Seq<AST> = seq![];
    let ghost mut parts: Seq<Seq<AST>> = seq![];
    for cmd in it: cmds.into_iter()
        invariant
            it.seq() == s,
            nodes_wf(s),
            nodes_wf(out@),
            all_straight(s) ==> out@ == s.subrange(0, it.index() as int),
            mid.len() == it.index(),
            parts.len() == it.index(),
            forall|k: int| 0 <= k < mid.len() ==> loops_node(#[trigger] mid[k], s[k]),
            forall|k: int| 0 <= k < mid.len() ==> #[trigger] part_rel(parts[k], mid[k]),
            out@ == concat_parts(parts),
            total == 0 ==> same_ir_seq(out@, s.subrange(0, it.index() as int)),
            out@.len() >= it.index(),
            total > 0 ==> out@.len() > it.index() || exists|j: int|
                0 <= j < it.index() && !same_ir(#[trigger] out@[j], s[j]),
    {
        let ghost i = it.index() as int;
        let ghost pre = out@;
        let ghost old_total = total;
        assert(cmd == s[i]);
        proof {
            if all_straight(s) {
                assert(is_straight(s[i]));
                assert(s.subrange(0, i + 1) =~= s.subrange(0, i).push(s[i]));
            }
        }
        let ghost mut node: AST = cmd;
        match cmd {
            AST::Loop { cond_dp_offset, elements, known_to_be_nontrivial } => {
                assert(decreases_to!(s => elements@)) by {
                    assert(decreases_to!(s => s[it.index() as int]));
                };
                let (elements, k) = const_loop_remove(elements);
                total = total.saturating_add(k);
                proof {
                    node = AST::Loop { cond_dp_offset, elements, known_to_be_nontrivial };
                }
                if rewrite_loop(cond_dp_offset, elements, known_to_be_nontrivial, &mut out) {
                    total = total.saturating_add(1);
                }
            },
            AST::IfNonZero { cond_dp_offset, elements } => {
                assert(decreases_to!(s => elements@)) by {
                    assert(decreases_to!(s => s[it.index() as int]));
                };
                let (elements, k) = const_loop_remove(elements);
                total = total.saturating_add(k);
                let n = AST::IfNonZero { cond_dp_offset, elements };
                proof {
                    node = n;
                }
                out.push(n);
            },
            other => {
                out.push(other);
            },
        }
        proof {
            let part = out@.subrange(pre.len() as int, out@.len() as int);
            if !(node is Loop) {
                assert(part =~= seq![node]);
            }
            assert(out@ =~= pre + part);
            let old_parts = parts;
            let old_mid = mid;
            parts = parts.push(part);
            mid = mid.push(node);
            assert(parts.drop_last() =~= old_parts);
            assert forall|k: int| 0 <= k < mid.len() implies loops_node(#[trigger] mid[k], s[k]) by {
                if k < i {
                    assert(mid[k] == old_mid[k]);
                }
            };
            assert forall|k: int| 0 <= k < mid.len() implies #[trigger] part_rel(parts[k], mid[k]) by {
                if k < i {
                    assert(mid[k] == old_mid[k]);
                    assert(parts[k] == old_parts[k]);
                }
            };
            if total > 0 {
                if old_total > 0 {
                    if exists|j: int| 0 <= j < i && !same_ir(#[trigger] pre[j], s[j]) {
                        let j = choose|j: int| 0 <= j < i && !same_ir(#[trigger] pre[j], s[j]);
                        assert(out@[j] == pre[j]);
                    }
                } else if out@.len() == i + 1 {
                    assert(out@[i] == part[0]);
                    assert(!same_ir(out@[i], s[i]));
                }
            }
            if total == 0 {
                assert(old_total == 0);
                assert(same_ir(node, s[i]));
                assert(part =~= seq![node]);
                let t = s.subrange(0, i + 1);
                assert forall|j: int| 0 <= j < out@.len() implies same_ir(#[trigger] out@[j], t[j]) by {
                    if j < i {
                        assert(out@[j] == pre[j]);
                        assert(t[j] == s.subrange(0, i)[j]);
                    }
                };
            }
        }
    }
    proof {
        assert(s.subrange(0, s.len() as int) =~= s);
        if total > 0 && out@.len() == s.len() {
            let j = choose|j: int| 0 <= j < s.len() && !same_ir(#[trigger] out@[j], s[j]);
        }
    }
    (out, total)
}

} // verus!
