use vstd::prelude::*;

verus! {

/// Largest magnitude that an offset or a pointer shift may take in the tree IR.
/// A rewrite whose result would leave this range is not made.
pub const OFFSET_LIMIT: isize = 0x3fff_ffff;

/// How a `ModData` node changes its cell.
#[derive(Copy, Clone, Debug, PartialEq, Eq, Structural)]
pub enum DatamodKind {
    SetData { amount: u8 },
    AddData { amount: u8 },
}

/// The nested intermediate representation. All offsets are relative to the data
/// pointer at the point where the node executes.
#[derive(Debug)]
pub enum AST {
    Loop { cond_dp_offset: isize, elements: Vec<AST>, known_to_be_nontrivial: bool },
    IfNonZero { cond_dp_offset: isize, elements: Vec<AST> },
    ShiftLoop { cond_dp_offset: isize, dp_shift: isize, known_to_be_nontrivial: bool },
    InfiniteLoop,
    ShiftDataPtr { amount: isize },
    ModData { kind: DatamodKind, dp_offset: isize },
    CombineData { source_dp_offset: isize, target_dp_offset: isize, source_amt_mult: u8 },
    ReadByte { dp_offset: isize },
    WriteByte { dp_offset: isize },
    WriteConst { out: u8 },
    AssertEquals { dp_offset: isize, val: u8 },
}

pub open spec fn offset_ok(x: int) -> bool {
    -OFFSET_LIMIT <= x <= OFFSET_LIMIT
}

/// Every offset and shift amount of the node, nested ones included, lies within the limit.
pub open spec fn node_wf(n: AST) -> bool
    decreases n,
{
    match n {
        AST::Loop { cond_dp_offset, elements, .. } => offset_ok(cond_dp_offset as int) && nodes_wf(
            elements@,
        ),
        AST::IfNonZero { cond_dp_offset, elements } => offset_ok(cond_dp_offset as int)
            && nodes_wf(elements@),
        AST::ShiftLoop { cond_dp_offset, dp_shift, .. } => offset_ok(cond_dp_offset as int)
            && offset_ok(dp_shift as int),
        AST::InfiniteLoop => true,
        AST::ShiftDataPtr { amount } => offset_ok(amount as int),
        AST::ModData { dp_offset, .. } => offset_ok(dp_offset as int),
        AST::CombineData { source_dp_offset, target_dp_offset, .. } => offset_ok(
            source_dp_offset as int,
        ) && offset_ok(target_dp_offset as int),
        AST::ReadByte { dp_offset } => offset_ok(dp_offset as int),
        AST::WriteByte { dp_offset } => offset_ok(dp_offset as int),
        AST::WriteConst { .. } => true,
        AST::AssertEquals { dp_offset, .. } => offset_ok(dp_offset as int),
    }
}

pub open spec fn nodes_wf(s: Seq<AST>) -> bool
    decreases s,
{
    forall|i: int| 0 <= i < s.len() ==> node_wf(#[trigger] s[i])
}


/// `a` and `b` are the same IR: equal nodes, or loops and branches with equal fields whose
/// bodies hold the same IR.
pub open spec fn same_ir(a: AST, b: AST) -> bool
    decreases a,
{
    match a {
        AST::Loop { cond_dp_offset: c, elements: e, known_to_be_nontrivial: h } => match b {
            AST::Loop { cond_dp_offset: c2, elements: e2, known_to_be_nontrivial: h2 } => c == c2
                && h == h2 && same_ir_seq(e@, e2@),
            _ => false,
        },
        AST::IfNonZero { cond_dp_offset: c, elements: e } => match b {
            AST::IfNonZero { cond_dp_offset: c2, elements: e2 } => c == c2 && same_ir_seq(
                e@,
                e2@,
            ),
            _ => false,
        },
        _ => a == b,
    }
}

pub open spec fn same_ir_seq(s: Seq<AST>, t: Seq<AST>) -> bool
    decreases s,
{
    s.len() == t.len() && forall|i: int| 0 <= i < s.len() ==> same_ir(#[trigger] s[i], t[i])
}

pub proof fn lemma_same_ir_refl(a: AST)
    ensures
        same_ir(a, a),
    decreases a,
{
    match a {
        AST::Loop { elements, .. } => lemma_same_ir_seq_refl(elements@),
        AST::IfNonZero { elements, .. } => lemma_same_ir_seq_refl(elements@),
        _ => {},
    }
}

pub proof fn lemma_same_ir_seq_refl(s: Seq<AST>)
    ensures
        same_ir_seq(s, s),
    decreases s,
{
    assert forall|i: int| 0 <= i < s.len() implies same_ir(#[trigger] s[i], s[i]) by {
        lemma_same_ir_refl(s[i]);
    };
}

pub proof fn lemma_same_ir_trans(a: AST, b: AST, c: AST)
    requires
        same_ir(a, b),
        same_ir(b, c),
    ensures
        same_ir(a, c),
    decreases a,
{
    match (a, b, c) {
        (
            AST::Loop { elements: e1, .. },
            AST::Loop { elements: e2, .. },
            AST::Loop { elements: e3, .. },
        ) => lemma_same_ir_seq_trans(e1@, e2@, e3@),
        (
            AST::IfNonZero { elements: e1, .. },
            AST::IfNonZero { elements: e2, .. },
            AST::IfNonZero { elements: e3, .. },
        ) => lemma_same_ir_seq_trans(e1@, e2@, e3@),
        _ => {},
    }
}

/// Being the same IR is transitive.
pub proof fn lemma_same_ir_seq_trans(s: Seq<AST>, t: Seq<AST>, u: Seq<AST>)
    requires
        same_ir_seq(s, t),
        same_ir_seq(t, u),
    ensures
        same_ir_seq(s, u),
    decreases s,
{
    assert forall|i: int| 0 <= i < s.len() implies same_ir(#[trigger] s[i], u[i]) by {
        lemma_same_ir_trans(s[i], t[i], u[i]);
    };
}

/// A node that addresses cells through explicit offsets and holds no nested code:
/// a pointer shift can move past it by rewriting its offsets.
pub open spec fn is_offset_node(n: AST) -> bool {
    match n {
        AST::ModData { .. } | AST::CombineData { .. } | AST::ReadByte { .. } | AST::WriteByte {
            ..
        } | AST::AssertEquals { .. } => true,
        _ => false,
    }
}

/// The offsets of `n` moved by `k` stay within the limit.
pub open spec fn shift_fits(n: AST, k: int) -> bool {
    match n {
        AST::ModData { dp_offset, .. } => offset_ok(dp_offset + k),
        AST::CombineData { source_dp_offset, target_dp_offset, .. } => offset_ok(
            source_dp_offset + k,
        ) && offset_ok(target_dp_offset + k),
        AST::ReadByte { dp_offset } => offset_ok(dp_offset + k),
        AST::WriteByte { dp_offset } => offset_ok(dp_offset + k),
        AST::AssertEquals { dp_offset, .. } => offset_ok(dp_offset + k),
        _ => true,
    }
}

/// `n` with each of its offsets increased by `k`: what `n` addresses when it runs `k` cells
/// further right.
pub open spec fn shifted(n: AST, k: int) -> AST {
    match n {
        AST::ModData { kind, dp_offset } => AST::ModData {
            kind,
            dp_offset: (dp_offset + k) as isize,
        },
        AST::CombineData { source_dp_offset, target_dp_offset, source_amt_mult } => {
            AST::CombineData {
                source_dp_offset: (source_dp_offset + k) as isize,
                target_dp_offset: (target_dp_offset + k) as isize,
                source_amt_mult,
            }
        },
        AST::ReadByte { dp_offset } => AST::ReadByte { dp_offset: (dp_offset + k) as isize },
        AST::WriteByte { dp_offset } => AST::WriteByte { dp_offset: (dp_offset + k) as isize },
        AST::AssertEquals { dp_offset, val } => AST::AssertEquals {
            dp_offset: (dp_offset + k) as isize,
            val,
        },
        _ => n,
    }
}

/// The value a cell holds after `k` is applied to a cell holding `v`.
pub open spec fn apply_kind(k: DatamodKind, v: u8) -> u8 {
    match k {
        DatamodKind::SetData { amount } => amount,
        DatamodKind::AddData { amount } => ((v + amount) % 256) as u8,
    }
}

/// The single modification that has the effect of `a` followed by `b`.
pub open spec fn compose_kinds(a: DatamodKind, b: DatamodKind) -> DatamodKind {
    match b {
        DatamodKind::SetData { amount } => DatamodKind::SetData { amount },
        DatamodKind::AddData { amount: bv } => match a {
            DatamodKind::SetData { amount } => DatamodKind::SetData {
                amount: ((amount + bv) % 256) as u8,
            },
            DatamodKind::AddData { amount } => DatamodKind::AddData {
                amount: ((amount + bv) % 256) as u8,
            },
        },
    }
}

/// The result of "a, then b" on the same cell.
pub fn collapse_kinds(a: DatamodKind, b: DatamodKind) -> (r: DatamodKind)
    ensures
        r == compose_kinds(a, b),
{
    match b {
        DatamodKind::SetData { amount } => DatamodKind::SetData { amount },
        DatamodKind::AddData { amount: b_amt } => match a {
            DatamodKind::SetData { amount } => DatamodKind::SetData {
                amount: amount.wrapping_add(b_amt),
            },
            DatamodKind::AddData { amount } => DatamodKind::AddData {
                amount: amount.wrapping_add(b_amt),
            },
        },
    }
}

/// Fusing two modifications of one cell changes nothing: the fused kind leaves every
/// value where the two, applied in turn, leave it.
pub proof fn lemma_collapse_kinds_sound(a: DatamodKind, b: DatamodKind, v: u8)
    ensures
        apply_kind(compose_kinds(a, b), v) == apply_kind(b, apply_kind(a, v)),
{
    match (a, b) {
        (DatamodKind::AddData { amount: x }, DatamodKind::AddData { amount: y }) => {
            assert(((v + ((x + y) % 256) as u8) % 256) == ((((v + x) % 256) as u8 + y) % 256))
                by (nonlinear_arith);
        },
        _ => {},
    }
}

} // verus!
