use vstd::prelude::*;

use crate::ir::{node_wf, nodes_wf, offset_ok, AST, OFFSET_LIMIT};
use crate::semantics::{
    exec_node, lemma_run_append, lemma_run_cons, run_loop, run_node, run_seq, Conf, Run,
};

verus! {

/// Which cells a piece of code may change.
pub enum DataUsage {
    /// The data pointer moves by an amount not known in advance, so no cells can be named.
    /// Infinite loops do not lose the data pointer.
    DpLost,
    /// The code moves the data pointer by `dp_shift` and changes at most the cells at the
    /// offsets `data_mods`, relative to the data pointer where the code starts.
    DataTracked { dp_shift: isize, data_mods: Vec<isize> },
}

/// Accumulates the `DataUsage` of code walked node by node.
pub struct DataUsageTracker(pub DataUsage);

/// The meaning of a usage: `None` where the data pointer was lost, else the net shift
/// and the set of offsets that may change.
pub open spec fn usage_view(u: DataUsage) -> Option<(int, Set<int>)> {
    match u {
        DataUsage::DpLost => None,
        DataUsage::DataTracked { dp_shift, data_mods } => Some(
            (dp_shift as int, data_mods@.map_values(|d: isize| d as int).to_set()),
        ),
    }
}

/// The shift and every listed offset lie within the offset limit, and no offset is listed
/// twice.
pub open spec fn usage_wf(u: DataUsage) -> bool {
    match u {
        DataUsage::DpLost => true,
        DataUsage::DataTracked { dp_shift, data_mods } => {
            &&& offset_ok(dp_shift as int)
            &&& forall|i: int| 0 <= i < data_mods@.len() ==> offset_ok(#[trigger] data_mods@[i] as int)
            &&& data_mods@.no_duplicates()
        },
    }
}

impl DataUsageTracker {
    pub open spec fn view(&self) -> Option<(int, Set<int>)> {
        usage_view(self.0)
    }

    pub open spec fn wf(&self) -> bool {
        usage_wf(self.0)
    }

    /// A tracker for code that has not moved the pointer or changed any cell yet.
    pub fn new() -> (r: Self)
        ensures
            r.wf(),
            r.view() == Some((0 as int, Set::<int>::empty())),
    {
        let r = DataUsageTracker(DataUsage::DataTracked { dp_shift: 0, data_mods: Vec::new() });
        let ghost v = usage_view(r.0);
        assert(v.unwrap().1 =~= Set::<int>::empty());
        r
    }

    /// Records a pointer shift by `shift_amount`. Where the net shift would leave the offset
    /// range, the pointer is taken as lost.
    pub fn shift(&mut self, shift_amount: isize)
        requires
            old(self).wf(),
            offset_ok(shift_amount as int),
        ensures
            final(self).wf(),
            final(self).view() == match old(self).view() {
                None => None,
                Some((s, m)) => if offset_ok(s + shift_amount) {
                    Some((s + shift_amount, m))
                } else {
                    None
                },
            },
    {
        let lost = match &mut self.0 {
            DataUsage::DpLost => false,
            DataUsage::DataTracked { dp_shift, .. } => {
                let next = *dp_shift + shift_amount;
                if -OFFSET_LIMIT <= next && next <= OFFSET_LIMIT {
                    *dp_shift = next;
                    false
                } else {
                    true
                }
            },
        };
        if lost {
            self.lose_dp();
        }
    }

    /// Finishes tracking.
    pub fn complete(self) -> (r: DataUsage)
        ensures
            r == self.0,
    {
        self.0
    }

    /// Records that the cell at offset `dp_offset` from the current data pointer may change.
    pub fn data_used(&mut self, dp_offset: isize)
        requires
            old(self).wf(),
            offset_ok(dp_offset as int),
        ensures
            final(self).wf(),
            final(self).view() == match old(self).view() {
                None => None,
                Some((s, m)) => if offset_ok(s + dp_offset) {
                    Some((s, m.insert(s + dp_offset)))
                } else {
                    None
                },
            },
    {
        let lost = match &mut self.0 {
            DataUsage::DpLost => false,
            DataUsage::DataTracked { dp_shift, data_mods } => {
                let p = *dp_shift + dp_offset;
                if -OFFSET_LIMIT <= p && p <= OFFSET_LIMIT {
                    let ghost pre = data_mods@;
                    let mut present = false;
                    let mut i: usize = 0;
                    while i < data_mods.len()
                        invariant
                            i <= data_mods@.len(),
                            present <==> exists|j: int| 0 <= j < i && data_mods@[j] == p,
                        decreases data_mods@.len() - i,
                    {
                        if data_mods[i] == p {
                            present = true;
                        }
                        i = i + 1;
                    }
                    if !present {
                        data_mods.push(p);
                        proof {
                            pre.map_values(|d: isize| d as int).lemma_push_to_set_commute(p as int);
                        }
                        assert(data_mods@.map_values(|d: isize| d as int).to_set() =~= pre.map_values(
                            |d: isize| d as int,
                        ).to_set().insert(p as int)) by {
                            assert(data_mods@.map_values(|d: isize| d as int) =~= pre.map_values(
                                |d: isize| d as int,
                            ).push(p as int));
                        };
                    } else {
                        assert(pre.map_values(|d: isize| d as int).to_set() =~= pre.map_values(
                            |d: isize| d as int,
                        ).to_set().insert(p as int)) by {
                            let j = choose|j: int| 0 <= j < i && pre[j] == p;
                            assert(pre.map_values(|d: isize| d as int)[j] == p as int);
                        };
                    }
                    false
                } else {
                    true
                }
            },
        };
        if lost {
            self.lose_dp();
        }
    }

    /// Records that the data pointer can no longer be followed.
    pub fn lose_dp(&mut self)
        ensures
            final(self).wf(),
            final(self).view() is None,
    {
        self.0 = DataUsage::DpLost;
    }
}

/// Running `s` from any state either does not run to its end, or ends with the data
/// pointer moved by `shift` and no cell changed outside the offsets `mods`, taken from
/// where `s` started.
pub open spec fn seq_confined(s: Seq<AST>, shift: int, mods: Set<int>) -> bool {
    forall|c: Conf, fuel: nat|
        #[trigger] run_seq(s, c, fuel) is Done ==> {
            let e = run_seq(s, c, fuel)->Done_0;
            &&& e.dp == c.dp + shift
            &&& forall|p: int| !mods.contains(p) ==> (e.tape)(c.dp + p) == (c.tape)(c.dp + p)
        }
}

/// What `seq_confined` says of a sequence, said of one node.
pub open spec fn node_confined(n: AST, shift: int, mods: Set<int>) -> bool {
    forall|c: Conf, fuel: nat|
        #[trigger] run_node(n, c, fuel) is Done ==> {
            let e = run_node(n, c, fuel)->Done_0;
            &&& e.dp == c.dp + shift
            &&& forall|p: int| !mods.contains(p) ==> (e.tape)(c.dp + p) == (c.tape)(c.dp + p)
        }
}

proof fn lemma_confined_push(
    a: Seq<AST>,
    n: AST,
    sh: int,
    ms: Set<int>,
    k: int,
    mn: Set<int>,
    ms2: Set<int>,
)
    requires
        seq_confined(a, sh, ms),
        node_confined(n, k, mn),
        ms.subset_of(ms2),
        forall|p: int| mn.contains(p) ==> ms2.contains(sh + p),
    ensures
        seq_confined(a.push(n), sh + k, ms2),
{
    assert forall|c: Conf, fuel: nat| #[trigger] run_seq(a.push(n), c, fuel) is Done implies {
        let e = run_seq(a.push(n), c, fuel)->Done_0;
        &&& e.dp == c.dp + sh + k
        &&& forall|p: int| !ms2.contains(p) ==> (e.tape)(c.dp + p) == (c.tape)(c.dp + p)
    } by {
        assert(a.push(n) =~= a + seq![n]);
        lemma_run_append(a, n, c, fuel);
        assert(run_seq(a, c, fuel) is Done);
        let e1 = run_seq(a, c, fuel)->Done_0;
        assert(run_node(n, e1, fuel) is Done);
        let e2 = run_node(n, e1, fuel)->Done_0;
        assert forall|p: int| !ms2.contains(p) implies (e2.tape)(c.dp + p) == (c.tape)(c.dp + p) by {
            let q = p - sh;
            assert(!mn.contains(q));
            assert(e1.dp + q == c.dp + p);
            assert((e2.tape)(e1.dp + q) == (e1.tape)(e1.dp + q));
            assert(!ms.contains(p));
        };
    };
}

proof fn lemma_loop_confined(cond: int, body: Seq<AST>, ims: Set<int>, c: Conf, fuel: nat)
    requires
        seq_confined(body, 0, ims),
    ensures
        run_loop(cond, body, c, fuel) is Done ==> {
            let e = run_loop(cond, body, c, fuel)->Done_0;
            &&& e.dp == c.dp
            &&& forall|p: int| !ims.contains(p) ==> (e.tape)(c.dp + p) == (c.tape)(c.dp + p)
        },
    decreases fuel,
{
    if (c.tape)(c.dp + cond) != 0 && fuel > 0 {
        let f = (fuel - 1) as nat;
        if run_seq(body, c, f) is Done {
            let next = run_seq(body, c, f)->Done_0;
            lemma_loop_confined(cond, body, ims, next, f);
            if run_loop(cond, body, next, f) is Done {
                let e = run_loop(cond, body, next, f)->Done_0;
                assert forall|p: int| !ims.contains(p) implies (e.tape)(c.dp + p) == (c.tape)(c.dp
                    + p) by {
                    assert(next.dp == c.dp);
                    assert((e.tape)(next.dp + p) == (next.tape)(next.dp + p));
                };
            }
        }
    }
}

/// `n` is a node without nested code that changes no cell but the one at offset `d`.
pub open spec fn writes_at_most(n: AST, d: int) -> bool {
    match n {
        AST::ModData { dp_offset, .. } => dp_offset == d,
        AST::CombineData { target_dp_offset, .. } => target_dp_offset == d,
        AST::ReadByte { dp_offset } => dp_offset == d,
        AST::WriteByte { .. } | AST::AssertEquals { .. } => true,
        _ => false,
    }
}

proof fn lemma_flat_confined(n: AST, d: int)
    requires
        writes_at_most(n, d),
    ensures
        node_confined(n, 0, set![d]),
{
    assert forall|c: Conf, fuel: nat| #[trigger] run_node(n, c, fuel) is Done implies {
        let e = run_node(n, c, fuel)->Done_0;
        &&& e.dp == c.dp + 0
        &&& forall|p: int| !set![d].contains(p) ==> (e.tape)(c.dp + p) == (c.tape)(c.dp + p)
    } by {
        assert(run_node(n, c, fuel) == Run::Done(exec_node(n, c)));
    };
}

/// The usage `v` after the cell at offset `d` from the current pointer may have changed: the
/// pointer is taken as lost where the offset from the start leaves the offset range.
pub open spec fn use_cell(v: Option<(int, Set<int>)>, d: int) -> Option<(int, Set<int>)> {
    match v {
        None => None,
        Some((s, m)) => if offset_ok(s + d) {
            Some((s, m.insert(s + d)))
        } else {
            None
        },
    }
}

/// The usage `v` after a pointer shift by `k`.
pub open spec fn shift_by(v: Option<(int, Set<int>)>, k: int) -> Option<(int, Set<int>)> {
    match v {
        None => None,
        Some((s, m)) => if offset_ok(s + k) {
            Some((s + k, m))
        } else {
            None
        },
    }
}

/// `use_cell` for each offset of `l` in turn.
pub open spec fn use_all(v: Option<(int, Set<int>)>, l: Seq<int>) -> Option<(int, Set<int>)>
    decreases l.len(),
{
    if l.len() == 0 {
        v
    } else {
        use_cell(use_all(v, l.drop_last()), l.last())
    }
}

/// Adds `s` to an offset.
pub open spec fn offset_by(s: int) -> spec_fn(int) -> int {
    |p: int| p + s
}

/// `use_cell` for every offset of the set `ims`.
pub open spec fn use_set(v: Option<(int, Set<int>)>, ims: Set<int>) -> Option<(int, Set<int>)> {
    match v {
        None => None,
        Some((s, m)) => if forall|p: int| ims.contains(p) ==> offset_ok(s + p) {
            Some((s, m.union(ims.map(offset_by(s)))))
        } else {
            None
        },
    }
}

/// The usage `v` of the code before `n`, extended by `n`: `None` once the pointer is lost,
/// which a scan loop does, a loop or branch whose body moves the pointer or loses it, or an
/// offset leaving the offset range.
pub open spec fn usage_after(n: AST, v: Option<(int, Set<int>)>) -> Option<(int, Set<int>)>
    decreases n,
{
    match n {
        AST::Loop { cond_dp_offset, elements, .. } => match body_spec(elements@) {
            None => None,
            Some((ish, ims)) => if ish != 0 {
                None
            } else {
                use_set(use_cell(v, cond_dp_offset as int), ims)
            },
        },
        AST::IfNonZero { cond_dp_offset, elements } => match body_spec(elements@) {
            None => None,
            Some((ish, ims)) => if ish != 0 {
                None
            } else {
                use_set(use_cell(v, cond_dp_offset as int), ims)
            },
        },
        AST::ShiftLoop { .. } => None,
        AST::ShiftDataPtr { amount } => shift_by(v, amount as int),
        AST::ModData { dp_offset, .. } => use_cell(v, dp_offset as int),
        AST::CombineData { target_dp_offset, .. } => use_cell(v, target_dp_offset as int),
        AST::ReadByte { dp_offset } => use_cell(v, dp_offset as int),
        AST::WriteByte { dp_offset } => use_cell(v, dp_offset as int),
        AST::AssertEquals { dp_offset, .. } => use_cell(v, dp_offset as int),
        AST::InfiniteLoop | AST::WriteConst { .. } => v,
    }
}

/// The usage of the sequence `s` tracked from its start.
pub open spec fn body_spec(s: Seq<AST>) -> Option<(int, Set<int>)>
    decreases s,
{
    if s.len() == 0 {
        Some((0, Set::empty()))
    } else {
        usage_after(s[s.len() - 1], body_spec(s.subrange(0, s.len() - 1)))
    }
}

proof fn lemma_use_all_set(v: Option<(int, Set<int>)>, l: Seq<int>)
    ensures
        use_all(v, l) == use_set(v, l.to_set()),
    decreases l.len(),
{
    if l.len() == 0 {
        if let Some((s, m)) = v {
            assert(l.to_set() =~= Set::<int>::empty());
            assert(m.union(l.to_set().map(offset_by(s))) =~= m);
        }
    } else {
        let init = l.drop_last();
        let x = l.last();
        lemma_use_all_set(v, init);
        assert(init.push(x) == l);
        init.lemma_push_to_set_commute(x);
        if let Some((s, m)) = v {
            let si = init.to_set();
            if forall|p: int| si.contains(p) ==> offset_ok(s + p) {
                if offset_ok(s + x) {
                    let f = offset_by(s);
                    assert(m.union(si.map(offset_by(s))).insert(s + x) =~= m.union(
                        si.insert(x).map(offset_by(s)),
                    )) by {
                        assert forall|y: int| #[trigger] si.insert(x).map(f).contains(y) <==> (
                        si.map(f).contains(y) || y == s + x) by {
                            if si.insert(x).map(f).contains(y) {
                                let q = choose|q: int| si.insert(x).contains(q) && f(q) == y;
                                if q != x {
                                    assert(si.contains(q));
                                    assert(si.map(f).contains(f(q)));
                                }
                            }
                            if y == s + x {
                                assert(si.insert(x).contains(x));
                                assert(si.insert(x).map(f).contains(f(x)));
                            }
                            if si.map(f).contains(y) {
                                let q = choose|q: int| si.contains(q) && f(q) == y;
                                assert(si.insert(x).contains(q));
                                assert(si.insert(x).map(f).contains(f(q)));
                            }
                        };
                    };
                    assert forall|p: int| si.insert(x).contains(p) implies offset_ok(s + p) by {
                        if p != x {
                            assert(si.contains(p));
                        }
                    };
                } else {
                    assert(si.insert(x).contains(x));
                }
            } else {
                let p = choose|p: int| si.contains(p) && !offset_ok(s + p);
                assert(si.insert(x).contains(p));
            }
            assert(l.to_set() == si.insert(x));
        }
    }
}

/// The cells that the loop or branch body `elements` may change: the usage of the body
/// tracked from its start.
fn body_usage(elements: &Vec<AST>) -> (r: DataUsage)
    requires
        nodes_wf(elements@),
    ensures
        usage_wf(r),
        usage_view(r) == body_spec(elements@),
        usage_view(r) is Some ==> seq_confined(
            elements@,
            usage_view(r).unwrap().0,
            usage_view(r).unwrap().1,
        ),
    decreases elements@,
{
    let mut inside = DataUsageTracker::new();
    proof {
        assert forall|c: Conf, fuel: nat| #[trigger] run_seq(elements@.subrange(0, 0), c, fuel) is Done implies {
            let e = run_seq(elements@.subrange(0, 0), c, fuel)->Done_0;
            &&& e.dp == c.dp + 0
            &&& forall|p: int| !Set::<int>::empty().contains(p) ==> (e.tape)(c.dp + p) == (c.tape)(c.dp + p)
        } by {};
    }
    let mut i: usize = 0;
    while i < elements.len()
        invariant
            inside.wf(),
            nodes_wf(elements@),
            i <= elements@.len(),
            inside.view() == body_spec(elements@.subrange(0, i as int)),
            inside.view() is Some ==> seq_confined(
                elements@.subrange(0, i as int),
                inside.view().unwrap().0,
                inside.view().unwrap().1,
            ),
        decreases elements@.len() - i,
    {
        assert(node_wf(elements@[i as int]));
        assert(elements@.subrange(0, i + 1) =~= elements@.subrange(0, i as int).push(elements@[i as int]));
        assert(elements@.subrange(0, i + 1).subrange(0, i as int) =~= elements@.subrange(0, i as int));
        track_usage_step(&elements[i], &mut inside);
        i = i + 1;
    }
    assert(elements@.subrange(0, i as int) =~= elements@);
    inside.complete()
}

fn track_usage_step(cmd: &AST, tracker: &mut DataUsageTracker)
    requires
        node_wf(*cmd),
        old(tracker).wf(),
    ensures
        final(tracker).wf(),
        final(tracker).view() == usage_after(*cmd, old(tracker).view()),
        old(tracker).view() is None ==> final(tracker).view() is None,
        old(tracker).view() is Some && final(tracker).view() is Some ==> forall|a: Seq<AST>|
            seq_confined(a, old(tracker).view().unwrap().0, old(tracker).view().unwrap().1) ==> #[trigger] seq_confined(
                a.push(*cmd),
                final(tracker).view().unwrap().0,
                final(tracker).view().unwrap().1,
            ),
    decreases *cmd,
{
    let ghost v0 = tracker.view();
    match cmd {
        AST::Loop { cond_dp_offset, elements, .. } | AST::IfNonZero { cond_dp_offset, elements } => {
            assert(decreases_to!(*cmd => elements@)) by {
                match *cmd {
                    AST::Loop { elements, .. } => {
                        assert(decreases_to!(*cmd => elements));
                    },
                    AST::IfNonZero { elements, .. } => {
                        assert(decreases_to!(*cmd => elements));
                    },
                    _ => {},
                }
            };
            let inner = body_usage(elements);
            let ghost iv = usage_view(inner);
            tracker.data_used(*cond_dp_offset);
            let ghost v1 = tracker.view();
            match inner {
                DataUsage::DpLost => tracker.lose_dp(),
                DataUsage::DataTracked { dp_shift, data_mods } => {
                    let ghost ims = data_mods@.map_values(|d: isize| d as int).to_set();
                    if dp_shift != 0 {
                        tracker.lose_dp();
                    }
                    let mut j: usize = 0;
                    while j < data_mods.len()
                        invariant
                            tracker.wf(),
                            j <= data_mods@.len(),
                            forall|t: int|
                                0 <= t < data_mods@.len() ==> offset_ok(#[trigger] data_mods@[t] as int),
                            v1 is None ==> tracker.view() is None,
                            dp_shift != 0 ==> tracker.view() is None,
                            tracker.view() == use_all(
                                if dp_shift == 0 { v1 } else { None },
                                data_mods@.map_values(|d: isize| d as int).subrange(0, j as int),
                            ),
                            tracker.view() is Some ==> v1 is Some && tracker.view().unwrap().0 == v1.unwrap().0
                                && v1.unwrap().1.subset_of(tracker.view().unwrap().1) && forall|t: int|
                                0 <= t < j ==> tracker.view().unwrap().1.contains(
                                    v1.unwrap().0 + #[trigger] data_mods@[t] as int,
                                ),
                        decreases data_mods@.len() - j,
                    {
                        let ghost l = data_mods@.map_values(|d: isize| d as int);
                        assert(l.subrange(0, j + 1).drop_last() =~= l.subrange(0, j as int));
                        tracker.data_used(data_mods[j]);
                        j = j + 1;
                    }
                    proof {
                        let l = data_mods@.map_values(|d: isize| d as int);
                        assert(l.subrange(0, j as int) =~= l);
                        lemma_use_all_set(if dp_shift == 0 { v1 } else { None }, l);
                        assert(iv == Some((dp_shift as int, l.to_set())));
                        if v0 is Some && tracker.view() is Some {
                            let sh = v0.unwrap().0;
                            let ms2 = tracker.view().unwrap().1;
                            assert(dp_shift == 0);
                            assert(seq_confined(elements@, 0, ims));
                            assert forall|p: int| ims.contains(p) implies ms2.contains(sh + p) by {
                                let mapped = data_mods@.map_values(|d: isize| d as int);
                                assert(mapped.contains(p));
                                let t = choose|t: int| 0 <= t < mapped.len() && #[trigger] mapped[t] == p;
                                assert(mapped[t] == data_mods@[t] as int);
                            };
                            assert(node_confined(*cmd, 0, ims)) by {
                                assert forall|c: Conf, fuel: nat| #[trigger] run_node(*cmd, c, fuel) is Done implies {
                                    let e = run_node(*cmd, c, fuel)->Done_0;
                                    &&& e.dp == c.dp + 0
                                    &&& forall|p: int| !ims.contains(p) ==> (e.tape)(c.dp + p) == (c.tape)(c.dp + p)
                                } by {
                                    if cmd is Loop {
                                        lemma_loop_confined(*cond_dp_offset as int, elements@, ims, c, fuel);
                                        assert(run_node(*cmd, c, fuel) == run_loop(
                                            *cond_dp_offset as int,
                                            elements@,
                                            c,
                                            fuel,
                                        ));
                                    } else if (c.tape)(c.dp + *cond_dp_offset) != 0 {
                                        assert(run_node(*cmd, c, fuel) == run_seq(elements@, c, fuel));
                                    }
                                };
                            };
                            assert forall|a: Seq<AST>| seq_confined(a, v0.unwrap().0, v0.unwrap().1) implies #[trigger] seq_confined(
                                a.push(*cmd),
                                tracker.view().unwrap().0,
                                tracker.view().unwrap().1,
                            ) by {
                                lemma_confined_push(a, *cmd, sh, v0.unwrap().1, 0, ims, ms2);
                            };
                        }
                    }
                },
            }
        },
        AST::ShiftLoop { .. } => tracker.lose_dp(),
        AST::ShiftDataPtr { amount } => {
            tracker.shift(*amount);
            proof {
                if v0 is Some && tracker.view() is Some {
                    assert(node_confined(*cmd, *amount as int, Set::<int>::empty())) by {
                        assert forall|c: Conf, fuel: nat| #[trigger] run_node(*cmd, c, fuel) is Done implies {
                            let e = run_node(*cmd, c, fuel)->Done_0;
                            &&& e.dp == c.dp + *amount
                            &&& forall|p: int| !Set::<int>::empty().contains(p) ==> (e.tape)(c.dp + p) == (c.tape)(c.dp + p)
                        } by {
                            assert(run_node(*cmd, c, fuel) == Run::Done(exec_node(*cmd, c)));
                        };
                    };
                    assert forall|a: Seq<AST>| seq_confined(a, v0.unwrap().0, v0.unwrap().1) implies #[trigger] seq_confined(
                        a.push(*cmd),
                        tracker.view().unwrap().0,
                        tracker.view().unwrap().1,
                    ) by {
                        lemma_confined_push(a, *cmd, v0.unwrap().0, v0.unwrap().1, *amount as int, Set::<int>::empty(), v0.unwrap().1);
                    };
                }
            }
        },
        AST::InfiniteLoop | AST::WriteConst { .. } => {
            proof {
                if v0 is Some {
                    assert(node_confined(*cmd, 0, Set::<int>::empty())) by {
                        assert forall|c: Conf, fuel: nat| #[trigger] run_node(*cmd, c, fuel) is Done implies {
                            let e = run_node(*cmd, c, fuel)->Done_0;
                            &&& e.dp == c.dp + 0
                            &&& forall|p: int| !Set::<int>::empty().contains(p) ==> (e.tape)(c.dp + p) == (c.tape)(c.dp + p)
                        } by {
                            if cmd is WriteConst {
                                assert(run_node(*cmd, c, fuel) == Run::Done(exec_node(*cmd, c)));
                            }
                        };
                    };
                    assert forall|a: Seq<AST>| seq_confined(a, v0.unwrap().0, v0.unwrap().1) implies #[trigger] seq_confined(
                        a.push(*cmd),
                        tracker.view().unwrap().0,
                        tracker.view().unwrap().1,
                    ) by {
                        lemma_confined_push(a, *cmd, v0.unwrap().0, v0.unwrap().1, 0, Set::<int>::empty(), v0.unwrap().1);
                    };
                }
            }
        },
        _ => {
            let d = match cmd {
                AST::ModData { dp_offset, .. } => *dp_offset,
                AST::CombineData { target_dp_offset, .. } => *target_dp_offset,
                AST::ReadByte { dp_offset } => *dp_offset,
                AST::WriteByte { dp_offset } => *dp_offset,
                AST::AssertEquals { dp_offset, .. } => *dp_offset,
                _ => 0,
            };
            tracker.data_used(d);
            proof {
                if v0 is Some && tracker.view() is Some {
                    lemma_flat_confined(*cmd, d as int);
                    assert forall|a: Seq<AST>| seq_confined(a, v0.unwrap().0, v0.unwrap().1) implies #[trigger] seq_confined(
                        a.push(*cmd),
                        tracker.view().unwrap().0,
                        tracker.view().unwrap().1,
                    ) by {
                        lemma_confined_push(a, *cmd, v0.unwrap().0, v0.unwrap().1, 0, set![d as int], tracker.view().unwrap().1);
                    };
                }
            }
        },
    }
}

/// Which cells `cmd` may change, relative to the data pointer where it starts: where the
/// data pointer can be followed, a run of `cmd` that ends moves it by the shift reported
/// and changes no cell outside the offsets reported.
pub fn track_usage(cmd: &AST) -> (r: DataUsage)
    requires
        node_wf(*cmd),
    ensures
        usage_wf(r),
        usage_view(r) == usage_after(*cmd, Some((0 as int, Set::<int>::empty()))),
        usage_view(r) is Some ==> node_confined(*cmd, usage_view(r).unwrap().0, usage_view(r).unwrap().1),
{
    let mut tracker = DataUsageTracker::new();
    proof {
        assert forall|c: Conf, fuel: nat| #[trigger] run_seq(Seq::<AST>::empty(), c, fuel) is Done implies {
            let e = run_seq(Seq::<AST>::empty(), c, fuel)->Done_0;
            &&& e.dp == c.dp + 0
            &&& forall|p: int| !Set::<int>::empty().contains(p) ==> (e.tape)(c.dp + p) == (c.tape)(c.dp + p)
        } by {};
        assert(seq_confined(Seq::<AST>::empty(), 0, Set::<int>::empty()));
    }
    track_usage_step(cmd, &mut tracker);
    proof {
        if tracker.view() is Some {
            let sh = tracker.view().unwrap().0;
            let ms = tracker.view().unwrap().1;
            let one = Seq::<AST>::empty().push(*cmd);
            assert(seq_confined(one, sh, ms));
            assert forall|c: Conf, fuel: nat| #[trigger] run_node(*cmd, c, fuel) is Done implies {
                let e = run_node(*cmd, c, fuel)->Done_0;
                &&& e.dp == c.dp + sh
                &&& forall|p: int| !ms.contains(p) ==> (e.tape)(c.dp + p) == (c.tape)(c.dp + p)
            } by {
                lemma_run_cons(*cmd, Seq::<AST>::empty(), c, fuel);
                assert(seq![*cmd] + Seq::<AST>::empty() =~= one);
                assert(run_seq(Seq::<AST>::empty(), run_node(*cmd, c, fuel)->Done_0, fuel) == Run::Done(run_node(*cmd, c, fuel)->Done_0));
            };
        }
    }
    tracker.complete()
}

} // verus!
