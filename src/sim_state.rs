use vstd::prelude::*;

use crate::ir::{apply_kind, offset_ok, DatamodKind, OFFSET_LIMIT};

verus! {

/// What the simulator knows of one cell.
#[derive(Copy, Clone, Debug, PartialEq, Eq, Structural)]
pub enum DataState {
    /// Nothing is known (the result of a read, or of analysis not done).
    Unknown,
    /// The cell is known to be nonzero.
    UnknownNonzero,
    /// The cell holds this value.
    Known(u8),
}

/// The abstract state of the simulator: facts about cells at absolute positions
/// relative to where the simulation started, a default for every other cell, a data
/// pointer, and a count of the times all knowledge was cleared.
pub struct SimState {
    data: Vec<(isize, DataState)>,
    def_value: DataState,
    dp: isize,
    wipes: usize,
}

/// The number of wipes at the moment a branch was forked off.
#[derive(Clone, Copy, Debug)]
pub struct BranchMarker(pub usize);

/// The value that `data` lists for position `p`, if it lists one.
pub open spec fn entry(data: Seq<(isize, DataState)>, p: int) -> Option<DataState> {
    if exists|i: int| 0 <= i < data.len() && data[i].0 == p {
        Some(data[choose|i: int| 0 <= i < data.len() && data[i].0 == p].1)
    } else {
        None
    }
}

pub open spec fn keys_unique(data: Seq<(isize, DataState)>) -> bool {
    forall|i: int, j: int| 0 <= i < j < data.len() ==> data[i].0 != data[j].0
}

/// The abstract effect of a cell modification on what is known of the cell.
pub open spec fn mod_transfer(kind: DatamodKind, old: DataState) -> DataState {
    match kind {
        DatamodKind::SetData { amount } => DataState::Known(amount),
        DatamodKind::AddData { amount } => if amount == 0 {
            old
        } else {
            match old {
                DataState::Known(v) => DataState::Known(apply_kind(kind, v)),
                _ => DataState::Unknown,
            }
        },
    }
}

/// The abstract effect of `target += source * mult` on what is known of the target cell.
pub open spec fn combine_transfer(source: DataState, target: DataState, mult: u8) -> DataState {
    if mult == 0 {
        target
    } else {
        match (source, target) {
            (DataState::Known(0), _) => target,
            (DataState::Known(a), DataState::Known(b)) => DataState::Known(
                ((b + a * mult) % 256) as u8,
            ),
            _ => DataState::Unknown,
        }
    }
}

/// What is known of a cell after two paths that knew `a` and `b` of it meet: the fact
/// where both agree, nothing otherwise.
pub open spec fn join(a: DataState, b: DataState) -> DataState {
    if a == b {
        a
    } else {
        DataState::Unknown
    }
}

impl SimState {
    pub closed spec fn wf(&self) -> bool {
        &&& keys_unique(self.data@)
        &&& offset_ok(self.dp as int)
        &&& forall|i: int|
            0 <= i < self.data@.len() ==> -2 * OFFSET_LIMIT <= #[trigger] self.data@[i].0 <= 2
                * OFFSET_LIMIT
    }

    /// What is known of the cell at absolute position `p`.
    pub closed spec fn at(&self, p: int) -> DataState {
        match entry(self.data@, p) {
            Some(v) => v,
            None => self.def_value,
        }
    }

    /// What is known of the cell at offset `ind` from the data pointer.
    pub open spec fn cell(&self, ind: int) -> DataState {
        self.at(self.dp_spec() + ind)
    }

    pub closed spec fn dp_spec(&self) -> int {
        self.dp as int
    }

    pub closed spec fn wipes_spec(&self) -> nat {
        self.wipes as nat
    }

    pub closed spec fn def_spec(&self) -> DataState {
        self.def_value
    }

    /// Whether the state knows nothing at all.
    pub open spec fn is_blank(&self) -> bool {
        forall|p: int| #[trigger] self.at(p) == DataState::Unknown
    }

    /// A state in which every cell is `def_value`.
    pub fn new(def_value: DataState) -> (r: Self)
        ensures
            r.wf(),
            forall|p: int| #[trigger] r.at(p) == def_value,
            r.dp_spec() == 0,
            r.wipes_spec() == 0,
            r.def_spec() == def_value,
    {
        SimState { data: Vec::new(), def_value, dp: 0, wipes: 0 }
    }

    fn find(&self, p: isize) -> (r: Option<usize>)
        ensures
            match r {
                Some(i) => i < self.data@.len() && self.data@[i as int].0 == p,
                None => forall|i: int| 0 <= i < self.data@.len() ==> self.data@[i].0 != p,
            },
    {
        let mut i: usize = 0;
        while i < self.data.len()
            invariant
                i <= self.data@.len(),
                forall|j: int| 0 <= j < i ==> self.data@[j].0 != p,
            decreases self.data@.len() - i,
        {
            if self.data[i].0 == p {
                return Some(i);
            }
            i = i + 1;
        }
        None
    }

    proof fn lemma_entry_at(data: Seq<(isize, DataState)>, i: int)
        requires
            keys_unique(data),
            0 <= i < data.len(),
        ensures
            entry(data, data[i].0 as int) == Some(data[i].1),
    {
        let j = choose|j: int| 0 <= j < data.len() && data[j].0 == data[i].0;
        assert(j == i);
    }

    /// An independent copy of this state to simulate a branch in, and the marker that
    /// `merge_divergent` needs to join it back.
    pub fn make_branch(&self) -> (r: (SimState, BranchMarker))
        requires
            self.wf(),
        ensures
            r.0.wf(),
            forall|p: int| #[trigger] r.0.at(p) == self.at(p),
            r.0.dp_spec() == self.dp_spec(),
            r.0.wipes_spec() == self.wipes_spec(),
            r.0.def_spec() == self.def_spec(),
            r.1.0 == self.wipes_spec(),
    {
        let mut data: Vec<(isize, DataState)> = Vec::new();
        let mut i: usize = 0;
        while i < self.data.len()
            invariant
                i <= self.data@.len(),
                data@ == self.data@.subrange(0, i as int),
            decreases self.data@.len() - i,
        {
            data.push(self.data[i]);
            i = i + 1;
            assert(data@ =~= self.data@.subrange(0, i as int));
        }
        assert(data@ =~= self.data@);
        let branch = SimState { data, def_value: self.def_value, dp: self.dp, wipes: self.wipes };
        (branch, BranchMarker(self.wipes))
    }

    /// What is known of the cell at absolute position `p`.
    fn get_at(&self, p: isize) -> (r: DataState)
        requires
            self.wf(),
        ensures
            r == self.at(p as int),
    {
        match self.find(p) {
            Some(i) => {
                proof {
                    Self::lemma_entry_at(self.data@, i as int);
                }
                self.data[i].1
            },
            None => self.def_value,
        }
    }

    /// Joins the state of a branch, forked off by `make_branch` with `branch_marker`, back
    /// into this one, which took the other path: a cell keeps what both paths know of it.
    /// Where either path cleared its knowledge since the fork, or the two disagree on the
    /// data pointer or the default, all knowledge is cleared.
    pub fn merge_divergent(&mut self, branch: SimState, branch_marker: BranchMarker)
        requires
            old(self).wf(),
            branch.wf(),
        ensures
            final(self).wf(),
            ({
                let kept = old(self).wipes_spec() == branch_marker.0 && branch.wipes_spec()
                    == branch_marker.0 && branch_marker.0 < usize::MAX && old(self).def_spec()
                    == branch.def_spec() && old(self).dp_spec() == branch.dp_spec();
                &&& kept ==> forall|p: int| #[trigger]
                    final(self).at(p) == join(old(self).at(p), branch.at(p))
                &&& kept ==> final(self).dp_spec() == old(self).dp_spec()
                &&& kept ==> final(self).wipes_spec() == old(self).wipes_spec()
                &&& kept ==> final(self).def_spec() == old(self).def_spec()
                &&& !kept ==> final(self).is_blank()
                &&& !kept ==> final(self).dp_spec() == 0
                &&& !kept ==> final(self).def_spec() == DataState::Unknown
                &&& !kept ==> final(self).wipes_spec() == if old(self).wipes_spec() < usize::MAX {
                    old(self).wipes_spec() + 1
                } else {
                    old(self).wipes_spec()
                }
            }),
    {
        let BranchMarker(wipes_at_split) = branch_marker;
        if self.wipes != wipes_at_split || branch.wipes != wipes_at_split || wipes_at_split
            == usize::MAX {
            // one side lost track of the data pointer: nothing can be intersected
            self.clear_knowledge();
            return;
        }
        if self.def_value != branch.def_value || self.dp != branch.dp {
            self.clear_knowledge();
            return;
        }
        let ghost own = self.data@;
        let ghost other = branch.data@;
        let mut merged: Vec<(isize, DataState)> = Vec::new();
        let mut i: usize = 0;
        while i < self.data.len()
            invariant
                self.wf(),
                branch.wf(),
                own == self.data@,
                i <= own.len(),
                merged@.len() == i,
                forall|t: int|
                    0 <= t < i ==> (#[trigger] merged@[t]).0 == own[t].0 && merged@[t].1 == join(
                        own[t].1,
                        branch.at(own[t].0 as int),
                    ),
            decreases own.len() - i,
        {
            let (k, v) = self.data[i];
            let theirs = branch.get_at(k);
            let joined = if theirs == v {
                v
            } else {
                DataState::Unknown
            };
            merged.push((k, joined));
            i = i + 1;
        }
        let n1 = merged.len();
        let mut j: usize = 0;
        while j < branch.data.len()
            invariant
                self.wf(),
                branch.wf(),
                own == self.data@,
                other == branch.data@,
                n1 == own.len(),
                j <= other.len(),
                n1 <= merged@.len(),
                forall|t: int|
                    0 <= t < n1 ==> (#[trigger] merged@[t]).0 == own[t].0 && merged@[t].1 == join(
                        own[t].1,
                        branch.at(own[t].0 as int),
                    ),
                forall|t: int|
                    n1 <= t < merged@.len() ==> (#[trigger] merged@[t]).1 == DataState::Unknown
                        && (forall|u: int| 0 <= u < own.len() ==> own[u].0 != merged@[t].0)
                        && exists|u: int|
                        0 <= u < j && other[u].0 == merged@[t].0 && other[u].1
                            != self.def_spec(),
                forall|u: int|
                    0 <= u < j && (forall|w: int| 0 <= w < own.len() ==> own[w].0 != other[u].0)
                        && other[u].1 != self.def_spec() ==> exists|t: int|
                        n1 <= t < merged@.len() && (#[trigger] merged@[t]).0 == other[u].0,
                keys_unique(merged@),
                forall|t: int|
                    0 <= t < merged@.len() ==> -2 * OFFSET_LIMIT <= #[trigger] merged@[t].0 <= 2
                        * OFFSET_LIMIT,
            decreases other.len() - j,
        {
            let (k, v) = branch.data[j];
            let found = self.find(k);
            let ghost before = merged@;
            if found.is_none() && v != self.def_value {
                proof {
                    assert forall|t: int| 0 <= t < merged@.len() implies merged@[t].0 != k by {
                        if t >= n1 {
                            let u = choose|u: int|
                                0 <= u < j && other[u].0 == merged@[t].0 && other[u].1
                                    != self.def_spec();
                            assert(other[u].0 != other[j as int].0);
                        }
                    };
                }
                merged.push((k, DataState::Unknown));
                proof {
                    let last = merged@.len() - 1;
                    assert(merged@[last].0 == other[j as int].0);
                }
            }
            proof {
                assert forall|u: int|
                    0 <= u < j + 1 && (forall|w: int| 0 <= w < own.len() ==> own[w].0 != other[u].0)
                        && other[u].1 != self.def_spec() implies exists|t: int|
                        n1 <= t < merged@.len() && (#[trigger] merged@[t]).0 == other[u].0 by {
                    if u == j {
                        if let Some(i) = found {
                            assert(own[i as int].0 == other[u].0);
                        } else {
                            let last = merged@.len() - 1;
                            assert(merged@[last].0 == other[u].0);
                        }
                    } else {
                        let t = choose|t: int|
                            n1 <= t < before.len() && (#[trigger] before[t]).0 == other[u].0;
                        assert(merged@[t] == before[t]);
                    }
                };
            }
            j = j + 1;
        }
        let ghost old_self_at = |p: int| self.at(p);
        self.data = merged;
        proof {
            assert forall|p: int| #[trigger] self.at(p) == join(old_self_at(p), branch.at(p)) by {
                if exists|t: int| 0 <= t < own.len() && own[t].0 == p {
                    let t = choose|t: int| 0 <= t < own.len() && own[t].0 == p;
                    Self::lemma_entry_at(own, t);
                    Self::lemma_entry_at(self.data@, t);
                } else if exists|u: int| 0 <= u < other.len() && other[u].0 == p {
                    let u = choose|u: int| 0 <= u < other.len() && other[u].0 == p;
                    Self::lemma_entry_at(other, u);
                    if other[u].1 != self.def_value {
                        let t = choose|t: int|
                            n1 <= t < self.data@.len() && (#[trigger] self.data@[t]).0 == other[u].0;
                        Self::lemma_entry_at(self.data@, t);
                    } else {
                        assert(!exists|t: int|
                            0 <= t < self.data@.len() && self.data@[t].0 == p) by {
                            if exists|t: int| 0 <= t < self.data@.len() && self.data@[t].0 == p {
                                let t = choose|t: int|
                                    0 <= t < self.data@.len() && self.data@[t].0 == p;
                                if t >= n1 {
                                    let u2 = choose|u2: int|
                                        0 <= u2 < j && other[u2].0 == self.data@[t].0
                                            && other[u2].1 != self.def_value;
                                    assert(u2 == u);
                                }
                            }
                        };
                    }
                } else {
                    assert(!exists|t: int| 0 <= t < self.data@.len() && self.data@[t].0 == p) by {
                        if exists|t: int| 0 <= t < self.data@.len() && self.data@[t].0 == p {
                            let t = choose|t: int|
                                0 <= t < self.data@.len() && self.data@[t].0 == p;
                            if t >= n1 {
                                let u2 = choose|u2: int|
                                    0 <= u2 < j && other[u2].0 == self.data@[t].0
                                        && other[u2].1 != self.def_value;
                            }
                        }
                    };
                }
            };
        }
    }

    /// What is known of the cell at offset `ind` from the data pointer.
    pub fn get_data(&self, ind: isize) -> (r: DataState)
        requires
            self.wf(),
            offset_ok(ind as int),
        ensures
            r == self.cell(ind as int),
    {
        let p = self.dp + ind;
        match self.find(p) {
            Some(i) => {
                proof {
                    Self::lemma_entry_at(self.data@, i as int);
                }
                self.data[i].1
            },
            None => self.def_value,
        }
    }

    /// Records that the cell at offset `ind` from the data pointer is `val`.
    pub fn set_data(&mut self, ind: isize, val: DataState)
        requires
            old(self).wf(),
            offset_ok(ind as int),
        ensures
            final(self).wf(),
            forall|p: int|
                #[trigger] final(self).at(p) == if p == old(self).dp_spec() + ind {
                    val
                } else {
                    old(self).at(p)
                },
            final(self).dp_spec() == old(self).dp_spec(),
            final(self).wipes_spec() == old(self).wipes_spec(),
            final(self).def_spec() == old(self).def_spec(),
    {
        let p = self.dp + ind;
        let ghost pre = self.data@;
        match self.find(p) {
            Some(i) => {
                self.data.set(i, (p, val));
                proof {
                    assert forall|q: int| #[trigger] self.at(q) == if q == p {
                        val
                    } else {
                        old(self).at(q)
                    } by {
                        if q == p {
                            Self::lemma_entry_at(self.data@, i as int);
                        } else {
                            if exists|j: int| 0 <= j < pre.len() && pre[j].0 == q {
                                let j = choose|j: int| 0 <= j < pre.len() && pre[j].0 == q;
                                Self::lemma_entry_at(pre, j);
                                Self::lemma_entry_at(self.data@, j);
                            } else {
                                assert(!exists|j: int| 0 <= j < self.data@.len() && self.data@[j].0 == q);
                            }
                        }
                    };
                }
            },
            None => {
                self.data.push((p, val));
                proof {
                    assert forall|q: int| #[trigger] self.at(q) == if q == p {
                        val
                    } else {
                        old(self).at(q)
                    } by {
                        if q == p {
                            Self::lemma_entry_at(self.data@, pre.len() as int);
                        } else {
                            if exists|j: int| 0 <= j < pre.len() && pre[j].0 == q {
                                let j = choose|j: int| 0 <= j < pre.len() && pre[j].0 == q;
                                Self::lemma_entry_at(pre, j);
                                Self::lemma_entry_at(self.data@, j);
                            } else {
                                assert(!exists|j: int| 0 <= j < self.data@.len() && self.data@[j].0 == q);
                            }
                        }
                    };
                }
            },
        }
    }

    /// Moves the data pointer by `shift`. Where the pointer would leave the range of
    /// offsets, all knowledge is cleared instead.
    pub fn shift_ptr(&mut self, shift: isize)
        requires
            old(self).wf(),
            offset_ok(shift as int),
        ensures
            final(self).wf(),
            offset_ok(old(self).dp_spec() + shift) ==> {
                &&& final(self).dp_spec() == old(self).dp_spec() + shift
                &&& forall|p: int| #[trigger] final(self).at(p) == old(self).at(p)
                &&& final(self).wipes_spec() == old(self).wipes_spec()
                &&& final(self).def_spec() == old(self).def_spec()
            },
            !offset_ok(old(self).dp_spec() + shift) ==> final(self).is_blank()
                && final(self).dp_spec() == 0 && final(self).def_spec() == DataState::Unknown
                && final(self).wipes_spec() == if old(self).wipes_spec() < usize::MAX {
                old(self).wipes_spec() + 1
            } else {
                old(self).wipes_spec()
            },
    {
        let next = self.dp + shift;
        if -OFFSET_LIMIT <= next && next <= OFFSET_LIMIT {
            self.dp = next;
        } else {
            self.clear_knowledge();
        }
    }

    /// Clears everything known about the state.
    pub fn clear_knowledge(&mut self)
        ensures
            final(self).wf(),
            final(self).is_blank(),
            final(self).dp_spec() == 0,
            final(self).wipes_spec() == if old(self).wipes_spec() < usize::MAX {
                old(self).wipes_spec() + 1
            } else {
                old(self).wipes_spec()
            },
            final(self).def_spec() == DataState::Unknown,
    {
        self.data = Vec::new();
        // everything is relative; the pointer only addresses the facts kept
        self.dp = 0;
        self.def_value = DataState::Unknown;
        self.wipes = self.wipes.saturating_add(1);
        assert forall|p: int| #[trigger] self.at(p) == DataState::Unknown by {
            assert(entry(self.data@, p) is None);
        };
    }

    /// Updates the state for a cell modification at offset `dp_offset`.
    pub fn process_mod_data(&mut self, kind: DatamodKind, dp_offset: isize)
        requires
            old(self).wf(),
            offset_ok(dp_offset as int),
        ensures
            final(self).wf(),
            forall|p: int|
                #[trigger] final(self).at(p) == if p == old(self).dp_spec() + dp_offset {
                    mod_transfer(kind, old(self).cell(dp_offset as int))
                } else {
                    old(self).at(p)
                },
            final(self).dp_spec() == old(self).dp_spec(),
            final(self).wipes_spec() == old(self).wipes_spec(),
            final(self).def_spec() == old(self).def_spec(),
    {
        match kind {
            DatamodKind::SetData { amount } => self.set_data(dp_offset, DataState::Known(amount)),
            DatamodKind::AddData { amount } => {
                if amount != 0 {
                    match self.get_data(dp_offset) {
                        DataState::Known(old) => {
                            self.set_data(dp_offset, DataState::Known(old.wrapping_add(amount)));
                        },
                        _ => {
                            self.set_data(dp_offset, DataState::Unknown);
                        },
                    }
                }
            },
        }
    }

    /// Updates the state for `cell[target] += cell[source] * source_amt_mult`.
    pub fn process_combine_data(
        &mut self,
        source_dp_offset: isize,
        target_dp_offset: isize,
        source_amt_mult: u8,
    )
        requires
            old(self).wf(),
            offset_ok(source_dp_offset as int),
            offset_ok(target_dp_offset as int),
        ensures
            final(self).wf(),
            forall|p: int|
                #[trigger] final(self).at(p) == if p == old(self).dp_spec() + target_dp_offset {
                    combine_transfer(
                        old(self).cell(source_dp_offset as int),
                        old(self).cell(target_dp_offset as int),
                        source_amt_mult,
                    )
                } else {
                    old(self).at(p)
                },
            final(self).dp_spec() == old(self).dp_spec(),
            final(self).wipes_spec() == old(self).wipes_spec(),
            final(self).def_spec() == old(self).def_spec(),
    {
        if source_amt_mult == 0 {
            return;
        }
        let source = self.get_data(source_dp_offset);
        let target = self.get_data(target_dp_offset);
        match (source, target) {
            (DataState::Known(0), _) => {},
            (DataState::Known(a), DataState::Known(b)) => {
                let new_val = b.wrapping_add(a.wrapping_mul(source_amt_mult));
                assert(new_val == ((b + a * source_amt_mult) % 256) as u8) by (nonlinear_arith)
                    requires
                        new_val == ((b + ((a * source_amt_mult) % 256) as u8) % 256) as u8,
                ;
                self.set_data(target_dp_offset, DataState::Known(new_val));
            },
            _ => self.set_data(target_dp_offset, DataState::Unknown),
        }
    }
}

} // verus!
