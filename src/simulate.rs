use vstd::prelude::*;

use crate::data_usage::{node_confined, track_usage, usage_after, usage_view, DataUsage};
use crate::ir::{node_wf, nodes_wf, offset_ok, DatamodKind, AST};
use crate::ir::{apply_kind, lemma_same_ir_refl, same_ir, same_ir_seq};
use crate::semantics::{
    all_straight, exec_node, exec_seq, is_straight, lemma_exec_concat, lemma_exec_push,
    lemma_exec_short, lemma_loop_exit, lemma_run_append, lemma_run_concat, lemma_run_straight,
    run_node, run_seq, Conf, Run,
};
use crate::sim_state::{combine_transfer, join, mod_transfer, DataState, SimState};

verus! {

/// Marks as unknown the cells that `cmd`, a loop or branch that was kept, may change; or
/// all cells, where its effect on the data pointer cannot be followed.
fn forget_changed(cmd: &AST, state: &mut SimState)
    requires
        node_wf(*cmd),
        old(state).wf(),
    ensures
        final(state).wf(),
        abs_of(*final(state)) == abs_forget(
            abs_of(*old(state)),
            usage_after(*cmd, Some((0 as int, Set::<int>::empty()))),
        ),
        forall|c: Conf, fuel: nat|
            describes(*old(state), c) && #[trigger] run_node(*cmd, c, fuel) is Done ==> describes(
                *final(state),
                run_node(*cmd, c, fuel)->Done_0,
            ),
{
    let ghost st = *state;
    let usage = track_usage(cmd);
    let ghost uv = usage_view(usage);
    match usage {
        DataUsage::DataTracked { dp_shift, data_mods } => {
            if dp_shift == 0 {
                let ghost ims = data_mods@.map_values(|d: isize| d as int).to_set();
                let mut i: usize = 0;
                while i < data_mods.len()
                    invariant
                        state.wf(),
                        i <= data_mods@.len(),
                        forall|t: int|
                            0 <= t < data_mods@.len() ==> offset_ok(#[trigger] data_mods@[t] as int),
                        state.dp_spec() == st.dp_spec(),
                        forall|t: int|
                            0 <= t < i ==> state.at(st.dp_spec() + #[trigger] data_mods@[t])
                                == DataState::Unknown,
                        forall|p: int|
                            (forall|t: int| 0 <= t < i ==> p != st.dp_spec() + #[trigger] data_mods@[t])
                                ==> #[trigger] state.at(p) == st.at(p),
                    decreases data_mods@.len() - i,
                {
                    state.set_data(data_mods[i], DataState::Unknown);
                    i = i + 1;
                }
                proof {
                    assert(uv == Some((0 as int, ims)));
                    assert forall|p: int| #[trigger] (abs_of(*state).cells)(p) == (abs_forget(abs_of(st), uv).cells)(p) by {
                        let mapped = data_mods@.map_values(|d: isize| d as int);
                        let q = p - st.dp_spec();
                        if ims.contains(q) {
                            assert(mapped.contains(q));
                            let t = choose|t: int| 0 <= t < mapped.len() && #[trigger] mapped[t] == q;
                            assert(mapped[t] == data_mods@[t] as int);
                            assert(state.at(st.dp_spec() + data_mods@[t]) == DataState::Unknown);
                        } else {
                            assert forall|t: int| 0 <= t < i implies p != st.dp_spec()
                                + #[trigger] data_mods@[t] by {
                                if data_mods@[t] as int == q {
                                    assert(mapped[t] == q);
                                    assert(mapped.contains(q));
                                }
                            };
                        }
                    };
                    assert(abs_of(*state).cells =~= abs_forget(abs_of(st), uv).cells);
                    assert forall|c: Conf, fuel: nat|
                        describes(st, c) && #[trigger] run_node(*cmd, c, fuel) is Done implies describes(
                            *state,
                            run_node(*cmd, c, fuel)->Done_0,
                        ) by {
                        let e = run_node(*cmd, c, fuel)->Done_0;
                        assert forall|q: int| fits(#[trigger] state.cell(q), (e.tape)(e.dp + q)) by {
                            let mapped = data_mods@.map_values(|d: isize| d as int);
                            if ims.contains(q) {
                                assert(mapped.contains(q));
                                let t = choose|t: int| 0 <= t < mapped.len() && #[trigger] mapped[t] == q;
                                assert(mapped[t] == data_mods@[t] as int);
                                assert(state.at(st.dp_spec() + data_mods@[t]) == DataState::Unknown);
                            } else {
                                assert forall|t: int| 0 <= t < i implies st.dp_spec() + q != st.dp_spec()
                                    + #[trigger] data_mods@[t] by {
                                    if data_mods@[t] as int == q {
                                        assert(mapped[t] == q);
                                        assert(mapped.contains(q));
                                    }
                                };
                                assert(state.at(st.dp_spec() + q) == st.at(st.dp_spec() + q));
                                assert(fits(st.cell(q), (c.tape)(c.dp + q)));
                            }
                        };
                    };
                }
            } else {
                state.clear_knowledge();
                proof {
                    assert(abs_of(*state).cells =~= abs_blank().cells);
                    assert forall|c: Conf, fuel: nat|
                        describes(st, c) && #[trigger] run_node(*cmd, c, fuel) is Done implies describes(
                            *state,
                            run_node(*cmd, c, fuel)->Done_0,
                        ) by {
                        assert forall|q: int| #[trigger] state.cell(q) == DataState::Unknown by {
                            assert(state.at(state.dp_spec() + q) == DataState::Unknown);
                        };
                    };
                }
            }
        },
        DataUsage::DpLost => {
            state.clear_knowledge();
            proof {
                assert(abs_of(*state).cells =~= abs_blank().cells);
                assert forall|c: Conf, fuel: nat|
                    describes(st, c) && #[trigger] run_node(*cmd, c, fuel) is Done implies describes(
                        *state,
                        run_node(*cmd, c, fuel)->Done_0,
                    ) by {
                    assert forall|q: int| #[trigger] state.cell(q) == DataState::Unknown by {
                        assert(state.at(state.dp_spec() + q) == DataState::Unknown);
                    };
                };
            }
        },
    }
}

fn push_all(out: &mut Vec<AST>, items: Vec<AST>)
    requires
        nodes_wf(old(out)@),
        nodes_wf(items@),
    ensures
        nodes_wf(final(out)@),
        final(out)@ == old(out)@ + items@,
{
    let ghost pre = out@;
    let ghost b = items@;
    let mut items = items;
    out.append(&mut items);
    assert(nodes_wf(out@)) by {
        assert forall|i: int| 0 <= i < out@.len() implies node_wf(#[trigger] out@[i]) by {
            if i >= pre.len() {
                assert(out@[i] == b[i - pre.len()]);
            }
        };
    };
}

/// The fact `d` holds of a cell whose value is `x`.
pub open spec fn fits(d: DataState, x: u8) -> bool {
    match d {
        DataState::Known(v) => x == v,
        DataState::UnknownNonzero => x != 0,
        DataState::Unknown => true,
    }
}

/// Every fact that `st` holds of a cell, relative to its data pointer, is true of `c` at
/// the same offset from its data pointer.
pub open spec fn describes(st: SimState, c: Conf) -> bool {
    forall|q: int| fits(#[trigger] st.cell(q), (c.tape)(c.dp + q))
}



/// What the simulator knows, as plain values: a fact for each absolute position and the
/// data pointer.
pub struct AbsState {
    pub cells: spec_fn(int) -> DataState,
    pub dp: int,
}

pub open spec fn abs_of(st: SimState) -> AbsState {
    AbsState { cells: |p: int| st.at(p), dp: st.dp_spec() }
}

/// What is known of the cell at offset `q` from the data pointer.
pub open spec fn abs_cell(a: AbsState, q: int) -> DataState {
    (a.cells)(a.dp + q)
}

/// Knowledge of nothing, with the pointer back at zero.
pub open spec fn abs_blank() -> AbsState {
    AbsState { cells: |p: int| DataState::Unknown, dp: 0 }
}

/// The start of a program: every cell known to be zero.
pub open spec fn abs_zero() -> AbsState {
    AbsState { cells: |p: int| DataState::Known(0), dp: 0 }
}

pub open spec fn abs_set(a: AbsState, q: int, v: DataState) -> AbsState {
    AbsState { cells: |p: int| if p == a.dp + q { v } else { (a.cells)(p) }, dp: a.dp }
}

/// What the simulator knows after the straight-line node `n`, having known `a` before it.
pub open spec fn abs_step(n: AST, a: AbsState) -> AbsState {
    match n {
        AST::ShiftDataPtr { amount } => if offset_ok(a.dp + amount) {
            AbsState { dp: a.dp + amount, ..a }
        } else {
            abs_blank()
        },
        AST::ModData { kind, dp_offset } => abs_set(
            a,
            dp_offset as int,
            mod_transfer(kind, abs_cell(a, dp_offset as int)),
        ),
        AST::CombineData { source_dp_offset, target_dp_offset, source_amt_mult } => abs_set(
            a,
            target_dp_offset as int,
            combine_transfer(
                abs_cell(a, source_dp_offset as int),
                abs_cell(a, target_dp_offset as int),
                source_amt_mult,
            ),
        ),
        AST::ReadByte { dp_offset } => abs_set(a, dp_offset as int, DataState::Unknown),
        AST::WriteByte { .. } | AST::WriteConst { .. } => a,
        _ => abs_blank(),
    }
}

/// `a` with every cell that a loop or branch of usage `u` may change forgotten, or all of
/// it where the usage has no fixed pointer.
pub open spec fn abs_forget(a: AbsState, u: Option<(int, Set<int>)>) -> AbsState {
    match u {
        Some((sh, ms)) => if sh == 0 {
            AbsState {
                cells: |p: int| if ms.contains(p - a.dp) { DataState::Unknown } else { (a.cells)(p) },
                dp: a.dp,
            }
        } else {
            abs_blank()
        },
        None => abs_blank(),
    }
}

/// What the simulator knows after node `n`, having known `a` before it.
pub open spec fn sim_next(n: AST, a: AbsState) -> AbsState {
    match n {
        AST::IfNonZero { cond_dp_offset, .. } => match abs_cell(a, cond_dp_offset as int) {
            DataState::Unknown => abs_forget(a, usage_after(n, Some((0, Set::empty())))),
            DataState::Known(0) => a,
            _ => abs_blank(),
        },
        AST::Loop { cond_dp_offset, .. } => match abs_cell(a, cond_dp_offset as int) {
            DataState::Known(0) => abs_set(a, cond_dp_offset as int, DataState::Known(0)),
            _ => abs_set(
                abs_forget(a, usage_after(n, Some((0, Set::empty())))),
                cond_dp_offset as int,
                DataState::Known(0),
            ),
        },
        AST::ShiftLoop { cond_dp_offset, .. } => abs_set(
            abs_blank(),
            cond_dp_offset as int,
            DataState::Known(0),
        ),
        _ => abs_step(n, a),
    }
}

/// `e` is what the simulation emits for node `n`, knowing `a` before it: a branch whose
/// condition is known zero is dropped, one whose condition is known nonzero is replaced by
/// its body, one on an unknown cell is kept; a loop whose condition is known zero is
/// dropped, another is kept, marked as entered where its condition is known nonzero; a
/// straight-line node is emitted as `emitted_abs` says.
pub open spec fn sim_emitted(e: Seq<AST>, n: AST, a: AbsState) -> bool {
    match n {
        AST::IfNonZero { cond_dp_offset, elements } => match abs_cell(a, cond_dp_offset as int) {
            DataState::Unknown => e == seq![n],
            DataState::Known(0) => e == Seq::<AST>::empty(),
            _ => e == elements@,
        },
        AST::Loop { cond_dp_offset, elements, known_to_be_nontrivial } => match abs_cell(
            a,
            cond_dp_offset as int,
        ) {
            DataState::Known(0) => e == Seq::<AST>::empty(),
            d => e.len() == 1 && (e[0] matches AST::Loop {
                cond_dp_offset: c2,
                elements: e2,
                known_to_be_nontrivial: h2,
            } && c2 == cond_dp_offset && e2@ == elements@ && h2 == (known_to_be_nontrivial || d
                != DataState::Unknown)),
        },
        AST::ShiftLoop { .. } => e == seq![n],
        _ => e == emitted_abs(n, a),
    }
}

/// `out` is what `run_simulation` makes of `s` when it knows `a` before it.
pub open spec fn sim_rel_from(out: Seq<AST>, s: Seq<AST>, a: AbsState) -> bool
    decreases s.len(),
{
    if s.len() == 0 {
        out.len() == 0
    } else {
        exists|e: Seq<AST>|
            #[trigger] sim_emitted(e, s[0], a) && e.len() <= out.len() && out.subrange(0, e.len() as int)
                == e && sim_rel_from(
                out.subrange(e.len() as int, out.len() as int),
                s.subrange(1, s.len() as int),
                sim_next(s[0], a),
            )
    }
}

/// What the simulation makes of the straight-line code `s`, knowing `a` before it.
pub open spec fn simulated(s: Seq<AST>, a: AbsState) -> Seq<AST>
    decreases s.len(),
{
    if s.len() == 0 {
        seq![]
    } else {
        emitted_abs(s[0], a) + simulated(s.subrange(1, s.len() as int), abs_step(s[0], a))
    }
}

/// What the simulation emits for the straight-line node `n` when it knows `st` before it.
pub open spec fn straight_emitted(n: AST, st: SimState) -> Seq<AST> {
    emitted_abs(n, abs_of(st))
}

/// What the simulation emits for the straight-line node `n`, knowing `st` before it: a
/// write of a known value becomes a constant, a modification that leaves a known value
/// becomes a set (or nothing where the cell already held it), a combine with a known source
/// becomes an add (or a set, or nothing).
pub open spec fn emitted_abs(n: AST, st: AbsState) -> Seq<AST> {
    match n {
        AST::WriteByte { dp_offset } => match abs_cell(st, dp_offset as int) {
            DataState::Known(v) => seq![AST::WriteConst { out: v }],
            _ => seq![n],
        },
        AST::CombineData { source_dp_offset, target_dp_offset, source_amt_mult } => match abs_cell(st, 
            source_dp_offset as int,
        ) {
            DataState::Known(old) => {
                let amount = ((source_amt_mult * old) % 256) as u8;
                if amount == 0 {
                    seq![]
                } else {
                    match abs_cell(st, target_dp_offset as int) {
                        DataState::Known(b) => seq![
                            AST::ModData {
                                dp_offset: target_dp_offset,
                                kind: DatamodKind::SetData {
                                    amount: ((b + old * source_amt_mult) % 256) as u8,
                                },
                            },
                        ],
                        _ => seq![
                            AST::ModData {
                                dp_offset: target_dp_offset,
                                kind: DatamodKind::AddData { amount },
                            },
                        ],
                    }
                }
            },
            _ => match combine_transfer(
                abs_cell(st, source_dp_offset as int),
                abs_cell(st, target_dp_offset as int),
                source_amt_mult,
            ) {
                DataState::Known(amount) => seq![
                    AST::ModData {
                        dp_offset: target_dp_offset,
                        kind: DatamodKind::SetData { amount },
                    },
                ],
                _ => seq![n],
            },
        },
        AST::ModData { kind, dp_offset } => if kind == (DatamodKind::AddData { amount: 0 }) {
            seq![]
        } else {
            let start = abs_cell(st, dp_offset as int);
            let end = mod_transfer(kind, start);
            match end {
                DataState::Known(amount) => if start == end {
                    seq![]
                } else {
                    seq![AST::ModData { kind: DatamodKind::SetData { amount }, dp_offset }]
                },
                _ => seq![n],
            }
        },
        _ => seq![n],
    }
}

proof fn lemma_describes_update(st: SimState, next: SimState, c: Conf, c2: Conf, d: int)
    requires
        describes(st, c),
        next.dp_spec() == st.dp_spec(),
        forall|p: int| p != st.dp_spec() + d ==> #[trigger] next.at(p) == st.at(p),
        c2.dp == c.dp,
        forall|q: int| q != d ==> #[trigger] (c2.tape)(c.dp + q) == (c.tape)(c.dp + q),
        fits(next.cell(d), (c2.tape)(c.dp + d)),
    ensures
        describes(next, c2),
{
    assert forall|q: int| fits(#[trigger] next.cell(q), (c2.tape)(c2.dp + q)) by {
        if q != d {
            assert(next.at(next.dp_spec() + q) == st.at(st.dp_spec() + q));
            assert(fits(st.cell(q), (c.tape)(c.dp + q)));
        }
    };
}

proof fn lemma_mul_mod_comm(x: u8, a: u8, m: u8)
    ensures
        ((x + a * m) % 256) as u8 == ((x + (((m * a) % 256) as u8)) % 256) as u8,
{
    let r = (m * a) % 256;
    let q = (m * a) / 256;
    assert(m * a == 256 * q + r) by (nonlinear_arith)
        requires
            r == (m * a) % 256,
            q == (m * a) / 256,
    ;
    assert(x + a * m == 256 * q + (x + r)) by (nonlinear_arith)
        requires
            m * a == 256 * q + r,
    ;
    vstd::arithmetic::div_mod::lemma_mod_multiples_vanish(q, x + r, 256);
}

proof fn lemma_mod_fits(kind: DatamodKind, start: DataState, x: u8)
    requires
        fits(start, x),
    ensures
        fits(mod_transfer(kind, start), apply_kind(kind, x)),
{
    if let DatamodKind::AddData { amount } = kind {
        if amount == 0 {
            assert((x + 0) % 256 == x);
        }
    }
}

proof fn lemma_combine_fits(s: DataState, t: DataState, m: u8, xs: u8, xt: u8)
    requires
        fits(s, xs),
        fits(t, xt),
    ensures
        fits(combine_transfer(s, t, m), ((xt + xs * m) % 256) as u8),
{
    if m == 0 || s == DataState::Known(0) {
        assert(xs * m == 0) by (nonlinear_arith)
            requires
                m == 0 || xs == 0,
        ;
    }
}

/// What the simulation emits for a straight-line node behaves as the node, on every state
/// that the simulator's knowledge describes.
pub proof fn lemma_emitted_sound(n: AST, st: SimState, c: Conf)
    requires
        is_straight(n),
        describes(st, c),
    ensures
        exec_seq(straight_emitted(n, st), c) == exec_node(n, c),
{
    let e = straight_emitted(n, st);
    lemma_exec_short(e, c);
    let lhs = exec_seq(e, c);
    let rhs = exec_node(n, c);
    match n {
        AST::WriteByte { dp_offset } => {
            assert(fits(st.cell(dp_offset as int), (c.tape)(c.dp + dp_offset)));
        },
        AST::CombineData { source_dp_offset: sd, target_dp_offset: td, source_amt_mult: m } => {
            let xs = (c.tape)(c.dp + sd);
            let xt = (c.tape)(c.dp + td);
            assert(fits(st.cell(sd as int), xs));
            assert(fits(st.cell(td as int), xt));
            if let DataState::Known(old) = st.cell(sd as int) {
                lemma_mul_mod_comm(xt, xs, m);
                if ((m * old) % 256) as u8 == 0 {
                    assert((xt + 0) % 256 == xt);
                }
            } else {
                lemma_combine_fits(st.cell(sd as int), st.cell(td as int), m, xs, xt);
            }
            assert(lhs.tape =~= rhs.tape);
        },
        AST::ModData { kind, dp_offset } => {
            let x = (c.tape)(c.dp + dp_offset);
            assert(fits(st.cell(dp_offset as int), x));
            lemma_mod_fits(kind, st.cell(dp_offset as int), x);
            if kind == (DatamodKind::AddData { amount: 0 }) {
                assert((x + 0) % 256 == x);
            }
            assert(lhs.tape =~= rhs.tape);
        },
        _ => {},
    }
}

/// `emitted` stands in for `n` on every state that `before` describes, and where `n` runs
/// to its end, `after` describes the state it ends in.
pub open spec fn step_sound(n: AST, emitted: Seq<AST>, before: SimState, after: SimState) -> bool {
    forall|c: Conf, fuel: nat|
        describes(before, c) ==> {
            &&& #[trigger] run_seq(emitted, c, fuel) == run_node(n, c, fuel)
            &&& run_node(n, c, fuel) is Done ==> describes(after, run_node(n, c, fuel)->Done_0)
        }
}

proof fn lemma_run_one(n: AST, c: Conf, fuel: nat)
    ensures
        run_seq(seq![n], c, fuel) == run_node(n, c, fuel),
{
    crate::semantics::lemma_run_cons(n, Seq::<AST>::empty(), c, fuel);
    assert(seq![n] + Seq::<AST>::empty() =~= seq![n]);
    if run_node(n, c, fuel) is Done {
        assert(run_seq(Seq::<AST>::empty(), run_node(n, c, fuel)->Done_0, fuel) == Run::Done(
            run_node(n, c, fuel)->Done_0,
        ));
    }
}

fn sim_step(cmd: AST, state: &mut SimState, cmds: &mut Vec<AST>) -> (removed: usize)
    requires
        node_wf(cmd),
        old(state).wf(),
        nodes_wf(old(cmds)@),
    ensures
        final(state).wf(),
        nodes_wf(final(cmds)@),
        is_straight(cmd) ==> final(cmds)@ == old(cmds)@ + straight_emitted(cmd, *old(state)),
        is_straight(cmd) ==> abs_of(*final(state)) == abs_step(cmd, abs_of(*old(state))),
        sim_emitted(
            final(cmds)@.subrange(old(cmds)@.len() as int, final(cmds)@.len() as int),
            cmd,
            abs_of(*old(state)),
        ),
        abs_of(*final(state)) == sim_next(cmd, abs_of(*old(state))),
        is_straight(cmd) ==> forall|c: Conf|
            describes(*old(state), c) ==> #[trigger] describes(*final(state), exec_node(cmd, c)),
        old(cmds)@.len() <= final(cmds)@.len(),
        final(cmds)@.subrange(0, old(cmds)@.len() as int) == old(cmds)@,
        removed == 0 ==> final(cmds)@ == old(cmds)@.push(cmd),
        step_sound(
            cmd,
            final(cmds)@.subrange(old(cmds)@.len() as int, final(cmds)@.len() as int),
            *old(state),
            *final(state),
        ),
{
    let ghost st = *state;
    let ghost pre = cmds@;
    let ghost n = cmd;
    let mut removed: usize = 0;
    match cmd {
        AST::IfNonZero { cond_dp_offset, elements } => {
            let ghost body = elements@;
            match state.get_data(cond_dp_offset) {
                DataState::Unknown => {
                    let cmd = AST::IfNonZero { cond_dp_offset, elements };
                    forget_changed(&cmd, state);
                    cmds.push(cmd);
                    proof {
                        assert(abs_cell(abs_of(st), cond_dp_offset as int) == st.cell(cond_dp_offset as int));
                        assert(cmds@.subrange(pre.len() as int, cmds@.len() as int) =~= seq![n]);
                        assert forall|c: Conf, fuel: nat| describes(st, c) implies {
                            &&& #[trigger] run_seq(seq![n], c, fuel) == run_node(n, c, fuel)
                            &&& run_node(n, c, fuel) is Done ==> describes(*state, run_node(n, c, fuel)->Done_0)
                        } by {
                            lemma_run_one(n, c, fuel);
                        };
                    }
                },
                DataState::Known(0) => {
                    // never taken
                    removed = 1;
                    proof {
                        assert(abs_cell(abs_of(st), cond_dp_offset as int) == st.cell(cond_dp_offset as int));
                        assert(abs_of(*state) == abs_of(st));
                        assert(cmds@.subrange(pre.len() as int, cmds@.len() as int) =~= Seq::<AST>::empty());
                        assert forall|c: Conf, fuel: nat| describes(st, c) implies {
                            &&& #[trigger] run_seq(Seq::<AST>::empty(), c, fuel) == run_node(n, c, fuel)
                            &&& run_node(n, c, fuel) is Done ==> describes(*state, run_node(n, c, fuel)->Done_0)
                        } by {
                            assert(fits(st.cell(cond_dp_offset as int), (c.tape)(c.dp + cond_dp_offset)));
                        };
                    }
                },
                _ => {
                    // always taken
                    push_all(cmds, elements);
                    state.clear_knowledge();
                    removed = 1;
                    proof {
                        assert(abs_cell(abs_of(st), cond_dp_offset as int) == st.cell(cond_dp_offset as int));
                        assert(abs_of(*state).cells =~= abs_blank().cells);
                        assert(cmds@.subrange(pre.len() as int, cmds@.len() as int) =~= body);
                        assert forall|c: Conf, fuel: nat| describes(st, c) implies {
                            &&& #[trigger] run_seq(body, c, fuel) == run_node(n, c, fuel)
                            &&& run_node(n, c, fuel) is Done ==> describes(*state, run_node(n, c, fuel)->Done_0)
                        } by {
                            assert(fits(st.cell(cond_dp_offset as int), (c.tape)(c.dp + cond_dp_offset)));
                            if run_node(n, c, fuel) is Done {
                                let e = run_node(n, c, fuel)->Done_0;
                                assert forall|q: int| fits(#[trigger] state.cell(q), (e.tape)(e.dp + q)) by {
                                    assert(state.at(state.dp_spec() + q) == DataState::Unknown);
                                };
                            }
                        };
                    }
                },
            }
        },
        AST::ShiftDataPtr { amount } => {
            state.shift_ptr(amount);
            cmds.push(AST::ShiftDataPtr { amount });
            proof {
                assert(cmds@ =~= pre + straight_emitted(n, st));
                assert forall|c: Conf| describes(st, c) implies #[trigger] describes(
                    *state,
                    exec_node(n, c),
                ) by {
                    let c2 = exec_node(n, c);
                    assert forall|q: int| fits(#[trigger] state.cell(q), (c2.tape)(c2.dp + q)) by {
                        if crate::ir::offset_ok(st.dp_spec() + amount) {
                            assert(state.cell(q) == st.cell(amount + q));
                            assert(fits(st.cell(amount + q), (c.tape)(c.dp + (amount + q))));
                        }
                    };
                };
            }
        },
        AST::ShiftLoop { cond_dp_offset, dp_shift, known_to_be_nontrivial } => {
            cmds.push(AST::ShiftLoop { cond_dp_offset, dp_shift, known_to_be_nontrivial });
            state.clear_knowledge();
            let ghost blank = *state;
            state.set_data(cond_dp_offset, DataState::Known(0));
            proof {
                assert(abs_of(blank).cells =~= abs_blank().cells);
                assert(abs_of(*state).cells =~= sim_next(n, abs_of(st)).cells);
                assert(cmds@.subrange(pre.len() as int, cmds@.len() as int) =~= seq![n]);
                assert forall|c: Conf, fuel: nat| describes(st, c) implies {
                    &&& #[trigger] run_seq(seq![n], c, fuel) == run_node(n, c, fuel)
                    &&& run_node(n, c, fuel) is Done ==> describes(*state, run_node(n, c, fuel)->Done_0)
                } by {
                    lemma_run_one(n, c, fuel);
                    if run_node(n, c, fuel) is Done {
                        let e = run_node(n, c, fuel)->Done_0;
                        lemma_loop_exit(n, c, fuel);
                        assert forall|q: int| fits(#[trigger] state.cell(q), (e.tape)(e.dp + q)) by {
                            assert(blank.at(blank.dp_spec() + q) == DataState::Unknown);
                        };
                    }
                };
            }
        },
        AST::Loop { cond_dp_offset, elements, known_to_be_nontrivial } => {
            let mut hint = known_to_be_nontrivial;
            let keep_loop = match state.get_data(cond_dp_offset) {
                DataState::Known(0) => {
                    // never entered
                    removed = 1;
                    false
                },
                DataState::Unknown => true,
                _ => {
                    if !hint {
                        hint = true;
                        removed = 1;
                    }
                    true
                },
            };
            let ghost kept = AST::Loop { cond_dp_offset, elements, known_to_be_nontrivial: hint };
            let ghost body = elements@;
            if keep_loop {
                let cmd = AST::Loop {
                    cond_dp_offset,
                    elements,
                    known_to_be_nontrivial: hint,
                };
                forget_changed(&cmd, state);
                cmds.push(cmd);
            }
            let ghost mid = *state;
            state.set_data(cond_dp_offset, DataState::Known(0));
            proof {
                assert(abs_cell(abs_of(st), cond_dp_offset as int) == st.cell(cond_dp_offset as int));
                assert(usage_after(kept, Some((0 as int, Set::<int>::empty()))) == usage_after(
                    n,
                    Some((0 as int, Set::<int>::empty())),
                ));
                if !keep_loop {
                    assert(mid == st);
                }
                assert(abs_of(*state).cells =~= sim_next(n, abs_of(st)).cells);
                let emitted = cmds@.subrange(pre.len() as int, cmds@.len() as int);
                if keep_loop {
                    assert(emitted =~= seq![kept]);
                } else {
                    assert(emitted =~= Seq::<AST>::empty());
                }
                assert forall|c: Conf, fuel: nat| describes(st, c) implies {
                    &&& #[trigger] run_seq(emitted, c, fuel) == run_node(n, c, fuel)
                    &&& run_node(n, c, fuel) is Done ==> describes(*state, run_node(n, c, fuel)->Done_0)
                } by {
                    assert(fits(st.cell(cond_dp_offset as int), (c.tape)(c.dp + cond_dp_offset)));
                    assert(run_node(n, c, fuel) == crate::semantics::run_loop(cond_dp_offset as int, body, c, fuel));
                    assert(run_node(kept, c, fuel) == crate::semantics::run_loop(cond_dp_offset as int, body, c, fuel));
                    if keep_loop {
                        lemma_run_one(kept, c, fuel);
                    }
                    if run_node(n, c, fuel) is Done {
                        let e = run_node(n, c, fuel)->Done_0;
                        lemma_loop_exit(n, c, fuel);
                        if keep_loop {
                            assert(describes(mid, e));
                        } else {
                            assert(e == c);
                            assert(mid == st);
                        }
                        assert forall|q: int| fits(#[trigger] state.cell(q), (e.tape)(e.dp + q)) by {
                            if q != cond_dp_offset as int {
                                assert(state.at(state.dp_spec() + q) == mid.at(mid.dp_spec() + q));
                                assert(fits(mid.cell(q), (e.tape)(e.dp + q)));
                            }
                        };
                    }
                };
            }
        },
        AST::ReadByte { dp_offset } => {
            state.set_data(dp_offset, DataState::Unknown);
            cmds.push(AST::ReadByte { dp_offset });
            proof {
                assert(cmds@ =~= pre + straight_emitted(n, st));
                assert forall|c: Conf| describes(st, c) implies #[trigger] describes(
                    *state,
                    exec_node(n, c),
                ) by {
                    lemma_describes_update(st, *state, c, exec_node(n, c), dp_offset as int);
                };
            }
        },
        AST::WriteByte { dp_offset } => {
            match state.get_data(dp_offset) {
                DataState::Known(val) => {
                    cmds.push(AST::WriteConst { out: val });
                    removed = 1;
                },
                _ => cmds.push(AST::WriteByte { dp_offset }),
            }
            proof {
                assert(cmds@ =~= pre + straight_emitted(n, st));
                assert forall|c: Conf| describes(st, c) implies #[trigger] describes(
                    *state,
                    exec_node(n, c),
                ) by {
                    assert forall|q: int| fits(#[trigger] state.cell(q), (exec_node(n, c).tape)(c.dp + q)) by {
                        assert(fits(st.cell(q), (c.tape)(c.dp + q)));
                    };
                };
            }
        },
        AST::WriteConst { out } => {
            cmds.push(AST::WriteConst { out });
            proof {
                assert(cmds@ =~= pre + straight_emitted(n, st));
                assert forall|c: Conf| describes(st, c) implies #[trigger] describes(
                    *state,
                    exec_node(n, c),
                ) by {
                    assert forall|q: int| fits(#[trigger] state.cell(q), (exec_node(n, c).tape)(c.dp + q)) by {
                        assert(fits(st.cell(q), (c.tape)(c.dp + q)));
                    };
                };
            }
        },
        AST::CombineData { source_dp_offset, target_dp_offset, source_amt_mult } => {
            if let DataState::Known(old) = state.get_data(source_dp_offset) {
                let amount = source_amt_mult.wrapping_mul(old);
                let target_before = state.get_data(target_dp_offset);
                state.process_combine_data(source_dp_offset, target_dp_offset, source_amt_mult);
                if amount != 0 {
                    let target_after = state.get_data(target_dp_offset);
                    match (target_before, target_after) {
                        (DataState::Known(_), DataState::Known(v)) => {
                            // both known: the target takes a known value
                            cmds.push(
                                AST::ModData {
                                    dp_offset: target_dp_offset,
                                    kind: DatamodKind::SetData { amount: v },
                                },
                            );
                        },
                        _ => {
                            cmds.push(
                                AST::ModData {
                                    dp_offset: target_dp_offset,
                                    kind: DatamodKind::AddData { amount },
                                },
                            );
                        },
                    }
                }
                removed = 1;
            } else {
                state.process_combine_data(source_dp_offset, target_dp_offset, source_amt_mult);
                if let DataState::Known(amount) = state.get_data(target_dp_offset) {
                    cmds.push(
                        AST::ModData {
                            dp_offset: target_dp_offset,
                            kind: DatamodKind::SetData { amount },
                        },
                    );
                    removed = 1;
                } else {
                    cmds.push(
                        AST::CombineData { source_dp_offset, target_dp_offset, source_amt_mult },
                    );
                }
            }
            proof {
                assert(cmds@ =~= pre + straight_emitted(n, st));
                assert forall|c: Conf| describes(st, c) implies #[trigger] describes(
                    *state,
                    exec_node(n, c),
                ) by {
                    let xs = (c.tape)(c.dp + source_dp_offset);
                    let xt = (c.tape)(c.dp + target_dp_offset);
                    assert(fits(st.cell(source_dp_offset as int), xs));
                    assert(fits(st.cell(target_dp_offset as int), xt));
                    lemma_combine_fits(
                        st.cell(source_dp_offset as int),
                        st.cell(target_dp_offset as int),
                        source_amt_mult,
                        xs,
                        xt,
                    );
                    lemma_describes_update(st, *state, c, exec_node(n, c), target_dp_offset as int);
                };
            }
        },
        AST::ModData { kind, dp_offset } => {
            let start_data = state.get_data(dp_offset);
            state.process_mod_data(kind, dp_offset);
            let end_data = state.get_data(dp_offset);
            if kind == (DatamodKind::AddData { amount: 0 }) {
                removed = 1;
            } else if let DataState::Known(amount) = end_data {
                if start_data == end_data {
                    // the cell already held this value
                    removed = 1;
                } else {
                    if let DatamodKind::AddData { .. } = kind {
                        removed = 1;
                    }
                    cmds.push(AST::ModData { kind: DatamodKind::SetData { amount }, dp_offset });
                }
            } else {
                cmds.push(AST::ModData { kind, dp_offset });
            }
            proof {
                assert(cmds@ =~= pre + straight_emitted(n, st));
                assert forall|c: Conf| describes(st, c) implies #[trigger] describes(
                    *state,
                    exec_node(n, c),
                ) by {
                    let x = (c.tape)(c.dp + dp_offset);
                    assert(fits(st.cell(dp_offset as int), x));
                    lemma_mod_fits(kind, st.cell(dp_offset as int), x);
                    lemma_describes_update(st, *state, c, exec_node(n, c), dp_offset as int);
                };
            }
        },
        other => {
            state.clear_knowledge();
            cmds.push(other);
            proof {
                assert(abs_of(*state).cells =~= abs_blank().cells);
                assert(cmds@.subrange(pre.len() as int, cmds@.len() as int) =~= seq![n]);
                if n is InfiniteLoop {
                    assert forall|c: Conf, fuel: nat| describes(st, c) implies {
                        &&& #[trigger] run_seq(seq![n], c, fuel) == run_node(n, c, fuel)
                        &&& run_node(n, c, fuel) is Done ==> describes(*state, run_node(n, c, fuel)->Done_0)
                    } by {
                        lemma_run_one(n, c, fuel);
                    };
                }
                assert(cmds@ =~= pre + straight_emitted(n, st));
                assert forall|c: Conf| describes(st, c) implies #[trigger] describes(
                    *state,
                    exec_node(n, c),
                ) by {
                    assert forall|q: int| fits(#[trigger] state.cell(q), (exec_node(n, c).tape)(exec_node(n, c).dp + q)) by {
                        assert(state.at(state.dp_spec() + q) == DataState::Unknown);
                    };
                };
            }
        },
    }
    proof {
        if is_straight(n) {
            assert(abs_of(*state).cells =~= abs_step(n, abs_of(st)).cells);
            let e = straight_emitted(n, st);
            assert(cmds@.subrange(pre.len() as int, cmds@.len() as int) =~= e);
            assert(all_straight(e));
            assert forall|c: Conf, fuel: nat| describes(st, c) implies {
                &&& #[trigger] run_seq(e, c, fuel) == run_node(n, c, fuel)
                &&& run_node(n, c, fuel) is Done ==> describes(*state, run_node(n, c, fuel)->Done_0)
            } by {
                lemma_emitted_sound(n, st, c);
                lemma_run_straight(e, c, fuel);
                assert(run_node(n, c, fuel) == Run::Done(exec_node(n, c)));
            };
        }
        assert(cmds@.subrange(0, pre.len() as int) =~= pre);
    }
    removed
}

/// Every cell of `c` holds zero, as at the start of a program.
pub open spec fn zeroed(c: Conf) -> bool {
    forall|p: int| #[trigger] (c.tape)(p) == 0
}

/// One forward sweep over `cmds` that uses what is known of the cells to remove dead
/// branches and loops, turn writes of known values into constants and modifications of
/// known cells into plain sets. Returns the new sequence and the number of rewrites.
pub fn run_simulation(cmds: Vec<AST>) -> (r: (Vec<AST>, usize))
    requires
        nodes_wf(cmds@),
    ensures
        nodes_wf(r.0@),
        all_straight(cmds@) ==> all_straight(r.0@),
        all_straight(cmds@) ==> forall|c: Conf|
            zeroed(c) ==> #[trigger] exec_seq(r.0@, c) == exec_seq(cmds@, c),
        forall|c: Conf, fuel: nat|
            zeroed(c) ==> #[trigger] run_seq(r.0@, c, fuel) == run_seq(cmds@, c, fuel),
        r.1 == 0 ==> r.0@ == cmds@,
        cmds@.len() == 0 ==> r.0@.len() == 0,
        all_straight(cmds@) ==> r.0@ == simulated(cmds@, abs_zero()),
        sim_rel_from(r.0@, cmds@, abs_zero()),
{
    let ghost s = cmds@;
    let mut state = SimState::new(DataState::Known(0));
    let mut out: Vec<AST> = Vec::new();
    let mut removed: usize = 0;
    proof {
        assert(abs_of(state).cells =~= abs_zero().cells);
        assert(s.subrange(0, s.len() as int) =~= s);
        assert(out@ + simulated(s, abs_of(state)) =~= simulated(s, abs_zero()));
        assert forall|t: Seq<AST>| #[trigger] sim_rel_from(t, s.subrange(0, s.len() as int), abs_of(state)) implies sim_rel_from(
            out@ + t,
            s,
            abs_zero(),
        ) by {
            assert(out@ + t =~= t);
        };
        assert forall|c: Conf, fuel: nat| zeroed(c) implies {
            &&& #[trigger] run_seq(out@, c, fuel) == run_seq(s.subrange(0, 0), c, fuel)
            &&& run_seq(s.subrange(0, 0), c, fuel) is Done ==> describes(
                state,
                run_seq(s.subrange(0, 0), c, fuel)->Done_0,
            )
        } by {
            assert(s.subrange(0, 0) =~= out@);
            assert forall|q: int| fits(#[trigger] state.cell(q), (c.tape)(c.dp + q)) by {
                assert(state.at(state.dp_spec() + q) == DataState::Known(0));
            };
        };
        assert forall|c: Conf| zeroed(c) implies describes(
            state,
            #[trigger] exec_seq(s.subrange(0, 0), c),
        ) && exec_seq(out@, c) == exec_seq(s.subrange(0, 0), c) by {
            assert(s.subrange(0, 0) =~= out@);
            assert forall|q: int| fits(#[trigger] state.cell(q), (c.tape)(c.dp + q)) by {
                assert(state.at(state.dp_spec() + q) == DataState::Known(0));
            };
        };
    }
    for cmd in it: cmds.into_iter()
        invariant
            it.seq() == s,
            nodes_wf(s),
            nodes_wf(out@),
            state.wf(),
            removed == 0 ==> out@ == s.subrange(0, it.index() as int),
            s.len() == 0 ==> out@.len() == 0,
            all_straight(s) ==> out@ + simulated(s.subrange(it.index() as int, s.len() as int), abs_of(state))
                == simulated(s, abs_zero()),
            forall|t: Seq<AST>|
                #[trigger] sim_rel_from(t, s.subrange(it.index() as int, s.len() as int), abs_of(state))
                    ==> sim_rel_from(out@ + t, s, abs_zero()),
            forall|c: Conf, fuel: nat|
                zeroed(c) ==> {
                    &&& #[trigger] run_seq(out@, c, fuel) == run_seq(
                        s.subrange(0, it.index() as int),
                        c,
                        fuel,
                    )
                    &&& run_seq(s.subrange(0, it.index() as int), c, fuel) is Done ==> describes(
                        state,
                        run_seq(s.subrange(0, it.index() as int), c, fuel)->Done_0,
                    )
                },
            all_straight(s) ==> all_straight(out@),
            all_straight(s) ==> forall|c: Conf|
                zeroed(c) ==> describes(state, #[trigger] exec_seq(s.subrange(0, it.index() as int), c))
                    && exec_seq(out@, c) == exec_seq(s.subrange(0, it.index() as int), c),
    {
        let ghost i = it.index() as int;
        let ghost st = state;
        let ghost before = out@;
        assert(cmd == s[i]);
        let ghost old_removed = removed;
        let k = sim_step(cmd, &mut state, &mut out);
        proof {
            let rest0 = s.subrange(i, s.len() as int);
            let next0 = s.subrange(i + 1, s.len() as int);
            let e = out@.subrange(before.len() as int, out@.len() as int);
            assert(rest0[0] == s[i]);
            assert(rest0.subrange(1, rest0.len() as int) =~= next0);
            assert forall|t: Seq<AST>| #[trigger] sim_rel_from(t, next0, abs_of(state)) implies sim_rel_from(
                out@ + t,
                s,
                abs_zero(),
            ) by {
                let et = e + t;
                assert(et.subrange(0, e.len() as int) =~= e);
                assert(et.subrange(e.len() as int, et.len() as int) =~= t);
                assert(sim_emitted(e, rest0[0], abs_of(st)));
                assert(sim_rel_from(et, rest0, abs_of(st)));
                assert(out@ + t =~= before + et);
            };
            if all_straight(s) {
                let rest = s.subrange(i, s.len() as int);
                let next = s.subrange(i + 1, s.len() as int);
                assert(is_straight(s[i]));
                assert(rest[0] == s[i]);
                assert(rest.subrange(1, rest.len() as int) =~= next);
                assert(simulated(rest, abs_of(st)) == emitted_abs(s[i], abs_of(st)) + simulated(
                    next,
                    abs_of(state),
                ));
                assert(out@ + simulated(next, abs_of(state)) =~= before + simulated(rest, abs_of(st)));
            }
            if old_removed == 0 && k == 0 {
                assert(out@ =~= s.subrange(0, i + 1));
            }
            let emitted = out@.subrange(before.len() as int, out@.len() as int);
            assert(out@ =~= before + emitted);
            assert(s.subrange(0, i + 1) =~= s.subrange(0, i) + seq![s[i]]);
            assert forall|c: Conf, fuel: nat| zeroed(c) implies {
                &&& #[trigger] run_seq(out@, c, fuel) == run_seq(s.subrange(0, i + 1), c, fuel)
                &&& run_seq(s.subrange(0, i + 1), c, fuel) is Done ==> describes(
                    state,
                    run_seq(s.subrange(0, i + 1), c, fuel)->Done_0,
                )
            } by {
                lemma_run_concat(before, emitted, c, fuel);
                lemma_run_append(s.subrange(0, i), s[i], c, fuel);
                assert(run_seq(before, c, fuel) == run_seq(s.subrange(0, i), c, fuel));
                if run_seq(s.subrange(0, i), c, fuel) is Done {
                    let e = run_seq(s.subrange(0, i), c, fuel)->Done_0;
                    assert(describes(st, e));
                    assert(run_seq(emitted, e, fuel) == run_node(s[i], e, fuel));
                }
            };
            if all_straight(s) {
                assert(is_straight(s[i]));
                assert(s.subrange(0, i + 1) =~= s.subrange(0, i).push(s[i]));
                let e = straight_emitted(s[i], st);
                assert(all_straight(e));
                assert forall|k: int| 0 <= k < out@.len() implies is_straight(#[trigger] out@[k]) by {
                    if k >= before.len() {
                        assert(out@[k] == e[k - before.len()]);
                    } else {
                        assert(out@[k] == before[k]);
                    }
                };
                assert forall|c: Conf| zeroed(c) implies describes(
                    state,
                    #[trigger] exec_seq(s.subrange(0, i + 1), c),
                ) && exec_seq(out@, c) == exec_seq(s.subrange(0, i + 1), c) by {
                    let mid = exec_seq(s.subrange(0, i), c);
                    assert(describes(st, mid) && exec_seq(before, c) == mid);
                    lemma_exec_push(s.subrange(0, i), s[i], c);
                    lemma_exec_concat(before, straight_emitted(s[i], st), c);
                    lemma_emitted_sound(s[i], st, mid);
                };
            }
        }
        removed = removed.saturating_add(k);
    }
    proof {
        assert(s.subrange(0, s.len() as int) =~= s);
        assert(s.subrange(s.len() as int, s.len() as int) =~= Seq::<AST>::empty());
        assert(sim_rel_from(Seq::<AST>::empty(), s.subrange(s.len() as int, s.len() as int), abs_of(state)));
        assert(out@ + Seq::<AST>::empty() =~= out@);
        if all_straight(s) {
            assert(out@ + Seq::<AST>::empty() =~= out@);
            assert forall|c: Conf| zeroed(c) implies #[trigger] exec_seq(out@, c) == exec_seq(s, c) by {
                assert(exec_seq(out@, c) == exec_seq(s.subrange(0, s.len() as int), c));
            };
        }
    }
    (out, removed)
}

/// What the one-step-loop simulation knows, as plain values: a fact for each absolute
/// position, the data pointer, the count of wipes and the default fact.
pub struct OsState {
    pub cells: spec_fn(int) -> DataState,
    pub dp: int,
    pub wipes: nat,
    pub def: DataState,
}

pub open spec fn os_of(st: SimState) -> OsState {
    OsState {
        cells: |p: int| st.at(p),
        dp: st.dp_spec(),
        wipes: st.wipes_spec(),
        def: st.def_spec(),
    }
}

pub open spec fn os_cell(a: OsState, q: int) -> DataState {
    (a.cells)(a.dp + q)
}

pub open spec fn os_set(a: OsState, q: int, v: DataState) -> OsState {
    OsState { cells: |p: int| if p == a.dp + q { v } else { (a.cells)(p) }, ..a }
}

/// All knowledge cleared.
pub open spec fn os_clear(a: OsState) -> OsState {
    OsState {
        cells: |p: int| DataState::Unknown,
        dp: 0,
        wipes: if a.wipes < usize::MAX { a.wipes + 1 } else { a.wipes },
        def: DataState::Unknown,
    }
}

/// The start of a program: every cell known zero.
pub open spec fn os_zero() -> OsState {
    OsState { cells: |p: int| DataState::Known(0), dp: 0, wipes: 0, def: DataState::Known(0) }
}

/// What a loop body is simulated from: its condition cell nonzero, nothing else known.
pub open spec fn os_loop_entry(cond: int) -> OsState {
    OsState {
        cells: |p: int| if p == cond { DataState::UnknownNonzero } else { DataState::Unknown },
        dp: 0,
        wipes: 0,
        def: DataState::Unknown,
    }
}

/// The state after a branch simulated from a copy of `a` (forked at `a.wipes`) ended in `b`
/// meets `a` again.
pub open spec fn os_merge(a: OsState, b: OsState) -> OsState {
    if b.wipes == a.wipes && a.wipes < usize::MAX && a.def == b.def && a.dp == b.dp {
        OsState { cells: |p: int| join((a.cells)(p), (b.cells)(p)), ..a }
    } else {
        os_clear(a)
    }
}

/// The effect on the one-step state of a node without nested code.
pub open spec fn os_flat(n: AST, a: OsState) -> OsState {
    match n {
        AST::ShiftDataPtr { amount } => if offset_ok(a.dp + amount) {
            OsState { dp: a.dp + amount, ..a }
        } else {
            os_clear(a)
        },
        AST::ModData { kind, dp_offset } => os_set(
            a,
            dp_offset as int,
            mod_transfer(kind, os_cell(a, dp_offset as int)),
        ),
        AST::CombineData { source_dp_offset, target_dp_offset, source_amt_mult } => os_set(
            a,
            target_dp_offset as int,
            combine_transfer(
                os_cell(a, source_dp_offset as int),
                os_cell(a, target_dp_offset as int),
                source_amt_mult,
            ),
        ),
        AST::ReadByte { dp_offset } => os_set(a, dp_offset as int, DataState::Unknown),
        AST::AssertEquals { dp_offset, val } => os_set(a, dp_offset as int, DataState::Known(val)),
        AST::ShiftLoop { cond_dp_offset, .. } => os_set(
            os_clear(a),
            cond_dp_offset as int,
            DataState::Known(0),
        ),
        _ => a,
    }
}

/// What the one-step-loop pass knows after node `n`, having known `a` before it.
pub open spec fn os_next(n: AST, a: OsState) -> OsState
    decreases n,
{
    match n {
        AST::Loop { cond_dp_offset: c, .. } => os_set(os_clear(a), c as int, DataState::Known(0)),
        AST::IfNonZero { cond_dp_offset: c, elements: body } => match os_cell(a, c as int) {
            DataState::Known(0) => a,
            DataState::Unknown => os_merge(
                a,
                os_end(body@, os_set(a, c as int, DataState::UnknownNonzero)),
            ),
            _ => os_end(body@, a),
        },
        _ => os_flat(n, a),
    }
}

/// What the one-step-loop pass knows after `s`, having known `a` before it.
pub open spec fn os_end(s: Seq<AST>, a: OsState) -> OsState
    decreases s,
{
    if s.len() == 0 {
        a
    } else {
        os_end(s.subrange(1, s.len() as int), os_next(s[0], a))
    }
}

/// Whether a loop on `c` with body `body` runs at most once: simulated once from a nonzero
/// condition, the body leaves the condition known zero.
pub open spec fn runs_once(c: isize, body: Seq<AST>) -> bool {
    os_cell(os_end(body, os_loop_entry(c as int)), c as int) == DataState::Known(0)
}

/// How many nodes the pass emits for node `n`, knowing `a` before it.
pub open spec fn os_len(n: AST, a: OsState) -> nat
    decreases n,
{
    match n {
        AST::Loop { cond_dp_offset: c, elements: body, known_to_be_nontrivial: h } => if runs_once(
            c,
            body@,
        ) && h {
            os_out_len(body@, os_loop_entry(c as int)) + 1
        } else {
            1
        },
        AST::IfNonZero { cond_dp_offset: c, elements: body } => match os_cell(a, c as int) {
            DataState::Known(0) => 0,
            DataState::Unknown => 1,
            _ => os_out_len(body@, a),
        },
        _ => 1,
    }
}

/// How many nodes the pass emits for `s`, knowing `a` before it.
pub open spec fn os_out_len(s: Seq<AST>, a: OsState) -> nat
    decreases s,
{
    if s.len() == 0 {
        0
    } else {
        os_len(s[0], a) + os_out_len(s.subrange(1, s.len() as int), os_next(s[0], a))
    }
}

/// `e` is what the one-step-loop pass emits for node `n` when it knows `a` before it:
/// - a loop whose body, simulated once from a nonzero condition, leaves the condition known
///   zero runs at most once: it becomes a branch on the condition holding the processed body
///   and an assertion that the cell is zero (the body and the assertion alone where the loop
///   is known to be entered); any other loop is kept with its processed body;
/// - a branch whose condition is known zero is dropped; one known nonzero is replaced by its
///   processed body; one on an unknown cell is kept with its body processed on a copy of the
///   state with the condition nonzero;
/// - any other node is kept.
pub open spec fn os_step_ok(e: Seq<AST>, n: AST, a: OsState) -> bool
    decreases n,
{
    match n {
        AST::Loop { cond_dp_offset: c, elements: body, known_to_be_nontrivial: h } => {
            let entry = os_loop_entry(c as int);
            if runs_once(c, body@) {
                let assertion = AST::AssertEquals { dp_offset: c, val: 0 };
                if h {
                    e.len() >= 1 && e.last() == assertion && os_rel(e.drop_last(), body@, entry)
                } else {
                    e.len() == 1 && (e[0] matches AST::IfNonZero { cond_dp_offset, elements }
                        && cond_dp_offset == c && elements@.len() >= 1 && elements@.last()
                        == assertion && os_rel(elements@.drop_last(), body@, entry))
                }
            } else {
                e.len() == 1 && (e[0] matches AST::Loop {
                    cond_dp_offset,
                    elements,
                    known_to_be_nontrivial,
                } && cond_dp_offset == c && known_to_be_nontrivial == h && os_rel(
                    elements@,
                    body@,
                    entry,
                ))
            }
        },
        AST::IfNonZero { cond_dp_offset: c, elements: body } => match os_cell(a, c as int) {
            DataState::Known(0) => e.len() == 0,
            DataState::Unknown => e.len() == 1 && (e[0] matches AST::IfNonZero {
                cond_dp_offset,
                elements,
            } && cond_dp_offset == c && os_rel(
                elements@,
                body@,
                os_set(a, c as int, DataState::UnknownNonzero),
            )),
            _ => os_rel(e, body@, a),
        },
        _ => e == seq![n],
    }
}

/// `out` is what the one-step-loop pass makes of `s` when it knows `a` before it.
pub open spec fn os_rel(out: Seq<AST>, s: Seq<AST>, a: OsState) -> bool
    decreases s,
{
    if s.len() == 0 {
        out.len() == 0
    } else {
        let k = os_len(s[0], a);
        k <= out.len() && os_step_ok(out.subrange(0, k as int), s[0], a) && os_rel(
            out.subrange(k as int, out.len() as int),
            s.subrange(1, s.len() as int),
            os_next(s[0], a),
        )
    }
}

fn one_step_loops_ctx(prev: Vec<AST>, state: &mut SimState) -> (r: (Vec<AST>, usize))
    requires
        nodes_wf(prev@),
        old(state).wf(),
    ensures
        nodes_wf(r.0@),
        final(state).wf(),
        all_straight(prev@) ==> r.0@ == prev@,
        r.1 == 0 ==> same_ir_seq(r.0@, prev@),
        os_rel(r.0@, prev@, os_of(*old(state))),
        os_of(*final(state)) == os_end(prev@, os_of(*old(state))),
        r.0@.len() == os_out_len(prev@, os_of(*old(state))),
    decreases prev@,
{
    let ghost s = prev@;
    let ghost a0 = os_of(*state);
    let mut removed: usize = 0;
    let mut cmds: Vec<AST> = Vec::new();
    proof {
        assert(s.subrange(0, s.len() as int) =~= s);
        assert forall|t: Seq<AST>| #[trigger] os_rel(t, s.subrange(0, s.len() as int), os_of(*state)) implies os_rel(
            cmds@ + t,
            s,
            a0,
        ) by {
            assert(cmds@ + t =~= t);
        };
    }
    for cmd in it: prev.into_iter()
        invariant
            it.seq() == s,
            nodes_wf(s),
            nodes_wf(cmds@),
            state.wf(),
            all_straight(s) ==> cmds@ == s.subrange(0, it.index() as int),
            removed == 0 ==> same_ir_seq(cmds@, s.subrange(0, it.index() as int)),
            forall|t: Seq<AST>|
                #[trigger] os_rel(t, s.subrange(it.index() as int, s.len() as int), os_of(*state))
                    ==> os_rel(cmds@ + t, s, a0),
            os_end(s.subrange(it.index() as int, s.len() as int), os_of(*state)) == os_end(s, a0),
            cmds@.len() + os_out_len(s.subrange(it.index() as int, s.len() as int), os_of(*state))
                == os_out_len(s, a0),
    {
        let ghost i = it.index() as int;
        let ghost before = cmds@;
        let ghost a = os_of(*state);
        let ghost mut nb_g: Seq<AST> = seq![];
        let ghost mut ie_g: OsState = a;
        let ghost body_g: Seq<AST> = match s[i] {
            AST::Loop { elements, .. } => elements@,
            AST::IfNonZero { elements, .. } => elements@,
            _ => seq![],
        };
        let ghost old_removed = removed;
        let ghost mut pushed: AST = cmd;
        assert(cmd == s[it.index() as int]);
        assert(node_wf(s[it.index() as int]));
        proof {
            if all_straight(s) {
                assert(is_straight(s[it.index() as int]));
                assert(s.subrange(0, it.index() + 1) =~= s.subrange(0, it.index() as int).push(
                    s[it.index() as int],
                ));
            }
        }
        match cmd {
            AST::Loop { cond_dp_offset, elements, known_to_be_nontrivial } => {
                assert(decreases_to!(s => elements@)) by {
                    assert(decreases_to!(s => s[it.index() as int]));
                };
                let mut inner_state = SimState::new(DataState::Unknown);
                inner_state.set_data(cond_dp_offset, DataState::UnknownNonzero);
                proof {
                    assert(os_of(inner_state).cells =~= os_loop_entry(cond_dp_offset as int).cells);
                }
                let (mut new_elements, inner_removed) = one_step_loops_ctx(
                    elements,
                    &mut inner_state,
                );
                proof {
                    nb_g = new_elements@;
                    ie_g = os_of(inner_state);
                }
                removed = removed.saturating_add(inner_removed);
                let icd = inner_state.get_data(cond_dp_offset);
                proof {
                    assert(os_cell(ie_g, cond_dp_offset as int) == icd);
                }
                if icd == DataState::Known(0) {
                    // the body always clears the condition: it runs at most once
                    new_elements.push(AST::AssertEquals { dp_offset: cond_dp_offset, val: 0 });
                    assert(nodes_wf(new_elements@));
                    if known_to_be_nontrivial {
                        push_all(&mut cmds, new_elements);
                    } else {
                        cmds.push(AST::IfNonZero { elements: new_elements, cond_dp_offset });
                        assert(nodes_wf(cmds@));
                    }
                    assert(nodes_wf(cmds@));
                    removed = removed.saturating_add(1);
                } else {
                    let n = AST::Loop { known_to_be_nontrivial, cond_dp_offset, elements: new_elements };
                    proof {
                        pushed = n;
                    }
                    cmds.push(n);
                }
                let ghost cleared = *state;
                state.clear_knowledge();
                let ghost cl = *state;
                state.set_data(cond_dp_offset, DataState::Known(0));
                proof {
                    assert(os_of(cl).cells =~= os_clear(a).cells);
                    assert(os_of(cl) == os_clear(a));
                    assert(os_of(*state).cells =~= os_set(os_clear(a), cond_dp_offset as int, DataState::Known(0)).cells);
                    assert(os_of(*state) == os_next(s[i], a));
                    let e = cmds@.subrange(before.len() as int, cmds@.len() as int);
                    assert(runs_once(cond_dp_offset, body_g) == (icd == DataState::Known(0)));
                    if icd == DataState::Known(0) {
                        let once = nb_g.push(AST::AssertEquals { dp_offset: cond_dp_offset, val: 0 });
                        assert(once.drop_last() =~= nb_g);
                        if known_to_be_nontrivial {
                            assert(e =~= once);
                        } else {
                            assert(e =~= seq![cmds@[before.len() as int]]);
                        }
                    } else {
                        assert(e =~= seq![cmds@[before.len() as int]]);
                    }
                    assert(e.len() == os_len(s[i], a));
                    assert(os_step_ok(e, s[i], a));
                }
            },
            AST::IfNonZero { elements, cond_dp_offset } => {
                assert(decreases_to!(s => elements@)) by {
                    assert(decreases_to!(s => s[it.index() as int]));
                };
                let cd = state.get_data(cond_dp_offset);
                proof {
                    assert(os_cell(a, cond_dp_offset as int) == cd);
                }
                match cd {
                    DataState::Known(0) => {
                        removed = removed.saturating_add(1).saturating_add(elements.len());
                        proof {
                            assert(cmds@.subrange(before.len() as int, cmds@.len() as int) =~= Seq::<AST>::empty());
                        }
                    },
                    DataState::Unknown => {
                        let (mut branch_state, marker) = state.make_branch();
                        branch_state.set_data(cond_dp_offset, DataState::UnknownNonzero);
                        let ghost binit = os_of(branch_state);
                        proof {
                            assert(binit.cells =~= os_set(a, cond_dp_offset as int, DataState::UnknownNonzero).cells);
                        }
                        let (new_elements, inner_removed) = one_step_loops_ctx(
                            elements,
                            &mut branch_state,
                        );
                        let ghost be = os_of(branch_state);
                        proof {
                            nb_g = new_elements@;
                        }
                        let n = AST::IfNonZero { cond_dp_offset, elements: new_elements };
                        proof {
                            pushed = n;
                        }
                        cmds.push(n);
                        removed = removed.saturating_add(inner_removed);
                        state.merge_divergent(branch_state, marker);
                        proof {
                            assert(os_of(*state).cells =~= os_merge(a, be).cells);
                            assert(os_of(*state) == os_next(s[i], a));
                            let e = cmds@.subrange(before.len() as int, cmds@.len() as int);
                            assert(e =~= seq![cmds@[before.len() as int]]);
                            assert(os_step_ok(e, s[i], a));
                        }
                    },
                    _ => {
                        removed = removed.saturating_add(1);
                        let (new_elements, inner_removed) = one_step_loops_ctx(elements, state);
                        proof {
                            nb_g = new_elements@;
                        }
                        removed = removed.saturating_add(inner_removed);
                        push_all(&mut cmds, new_elements);
                        proof {
                            let e = cmds@.subrange(before.len() as int, cmds@.len() as int);
                            assert(e =~= nb_g);
                            assert(os_step_ok(e, s[i], a));
                        }
                    },
                }
            },
            AST::ShiftLoop { known_to_be_nontrivial, cond_dp_offset, dp_shift } => {
                state.clear_knowledge();
                state.set_data(cond_dp_offset, DataState::Known(0));
                cmds.push(AST::ShiftLoop { known_to_be_nontrivial, cond_dp_offset, dp_shift });
            },
            AST::ShiftDataPtr { amount } => {
                state.shift_ptr(amount);
                cmds.push(AST::ShiftDataPtr { amount });
            },
            AST::ModData { kind, dp_offset } => {
                state.process_mod_data(kind, dp_offset);
                cmds.push(AST::ModData { kind, dp_offset });
            },
            AST::CombineData { source_dp_offset, target_dp_offset, source_amt_mult } => {
                state.process_combine_data(source_dp_offset, target_dp_offset, source_amt_mult);
                cmds.push(AST::CombineData { source_dp_offset, target_dp_offset, source_amt_mult });
            },
            AST::ReadByte { dp_offset } => {
                state.set_data(dp_offset, DataState::Unknown);
                cmds.push(AST::ReadByte { dp_offset });
            },
            AST::AssertEquals { dp_offset, val } => {
                state.set_data(dp_offset, DataState::Known(val));
                cmds.push(AST::AssertEquals { dp_offset, val });
            },
            other => cmds.push(other),
        }
        proof {
            let e = cmds@.subrange(before.len() as int, cmds@.len() as int);
            if !(s[i] is Loop || s[i] is IfNonZero) {
                assert(e =~= seq![s[i]]);
                assert(os_of(*state).cells =~= os_flat(s[i], a).cells);
            }
            assert(os_of(*state) == os_next(s[i], a));
            assert(e.len() == os_len(s[i], a));
            assert(os_step_ok(e, s[i], a));
            let rest0 = s.subrange(i, s.len() as int);
            let next0 = s.subrange(i + 1, s.len() as int);
            assert(rest0[0] == s[i]);
            assert(rest0.subrange(1, rest0.len() as int) =~= next0);
            assert(cmds@ =~= before + e);
            assert(os_end(rest0, a) == os_end(next0, os_of(*state)));
            assert(os_out_len(rest0, a) == e.len() + os_out_len(next0, os_of(*state)));
            assert forall|t: Seq<AST>| #[trigger] os_rel(t, next0, os_of(*state)) implies os_rel(
                cmds@ + t,
                s,
                a0,
            ) by {
                let et = e + t;
                assert(et.subrange(0, e.len() as int) =~= e);
                assert(et.subrange(e.len() as int, et.len() as int) =~= t);
                assert(os_rel(et, rest0, a));
                assert(cmds@ + t =~= before + et);
            };
            if removed == 0 {
                assert(old_removed == 0);
                assert(cmds@ == before.push(pushed));
                assert(same_ir(pushed, s[i])) by {
                    lemma_same_ir_refl(s[i]);
                };
                let t = s.subrange(0, i + 1);
                assert forall|j: int| 0 <= j < cmds@.len() implies same_ir(#[trigger] cmds@[j], t[j]) by {
                    if j < i {
                        assert(cmds@[j] == before[j]);
                        assert(t[j] == s.subrange(0, i)[j]);
                    }
                };
            }
        }
    }
    proof {
        if all_straight(s) {
            assert(s.subrange(0, s.len() as int) =~= s);
        }
        assert(s.subrange(s.len() as int, s.len() as int) =~= Seq::<AST>::empty());
        assert(os_rel(Seq::<AST>::empty(), s.subrange(s.len() as int, s.len() as int), os_of(*state)));
        assert(cmds@ + Seq::<AST>::empty() =~= cmds@);
    }
    (cmds, removed)
}

/// Finds loops whose body always clears the condition cell, simulating one iteration
/// from a nonzero condition: such a loop runs at most once and becomes a branch (or its
/// body, where the loop is known to be entered), followed by an assertion that the cell is
/// zero. Returns the new sequence and the number of rewrites.
pub fn one_step_loops(cmds: Vec<AST>) -> (r: (Vec<AST>, usize))
    requires
        nodes_wf(cmds@),
    ensures
        nodes_wf(r.0@),
        all_straight(cmds@) ==> r.0@ == cmds@,
        r.1 == 0 ==> same_ir_seq(r.0@, cmds@),
        os_rel(r.0@, cmds@, os_zero()),
{
    let mut state = SimState::new(DataState::Known(0));
    proof {
        assert(os_of(state).cells =~= os_zero().cells);
    }
    one_step_loops_ctx(cmds, &mut state)
}

} // verus!
