//! The single-assignment guarantee.
//!
//! `lemma_single_assignment` proves that the conversion in [`crate::ssa`]
//! never binds the same versioned name twice: over a whole converted
//! program, the parameters, assignment targets and phi results are pairwise
//! distinct.  The argument tracks which names the version map has already
//! handed out (`is_used`) and shows that every fresh binding falls outside
//! that set, relying on the injectivity of the versioned-name constructor
//! for `#`-free origins.
//!
//! The version counters are machine words, so the guarantee is stated for
//! programs whose total number of bindings fits the counter; past that the
//! counter saturates and versions would repeat.

use vstd::prelude::*;
use crate::parser::{self, Expression, Statement, ExprM, StmtM, wf_name, expr_m, exprs_m, stmt_m, block_m, str_views};
use crate::names::{spec_versioned_name, lemma_versioned_name_injective};
use crate::ssa::{
    VersionMap, bump, new_version, cur_names, cur_version, sc_expr, sc_exprs, sc_assigned,
    sc_phis, sc_stmt, sc_block, sc_params, sc_funs, sc_program, rv_expr, SsaStmtM, SsaFunM,
    SsaProgM, PhiM, FunDeclM, lemma_sc_assigned_in_dom,
};

verus! {

/// The names a version map has handed out so far: every version of every
/// recorded origin, up to its current counter.
pub open spec fn is_used(m: VersionMap, d: Seq<char>) -> bool {
    exists|o: Seq<char>, k: nat|
        m.dom().contains(o) && k <= m[o] && d == spec_versioned_name(o, k)
}

/// Every recorded origin is a well-formed source name.
pub open spec fn wf_dom(m: VersionMap) -> bool {
    forall|o: Seq<char>| #[trigger] m.dom().contains(o) ==> wf_name(o)
}

/// Every version counter is at most `c`.
pub open spec fn bounded(m: VersionMap, c: nat) -> bool {
    forall|o: Seq<char>| #[trigger] m.dom().contains(o) ==> (m[o] as nat) <= c
}

/// `m2` extends `m1`: no origin is lost and no counter shrinks.
pub open spec fn map_le(m1: VersionMap, m2: VersionMap) -> bool {
    &&& m1.dom().subset_of(m2.dom())
    &&& forall|o: Seq<char>| #[trigger] m1.dom().contains(o) ==> m1[o] <= m2[o]
}

pub open spec fn distinct_names(s: Seq<Seq<char>>) -> bool {
    forall|i: int, j: int| 0 <= i < j < s.len() ==> s[i] != s[j]
}

// ------------------------------------------------------------------
// the names a converted program binds

pub open spec fn defs_stmt(s: SsaStmtM) -> Seq<Seq<char>>
    decreases s,
{
    match s {
        SsaStmtM::Assign(x, _) => seq![x],
        SsaStmtM::If(_, b, phis) => defs_block(b) + phis.map_values(|p: PhiM| p.result),
        SsaStmtM::While(_, b, phis, _) => defs_block(b) + phis.map_values(|p: PhiM| p.result),
        SsaStmtM::Call(_, _) => Seq::empty(),
        SsaStmtM::Return(_) => Seq::empty(),
    }
}

pub open spec fn defs_block(b: Seq<SsaStmtM>) -> Seq<Seq<char>>
    decreases b,
{
    if b.len() == 0 {
        Seq::empty()
    } else {
        defs_block(b.drop_last()) + defs_stmt(b.last())
    }
}

pub open spec fn defs_fun(f: SsaFunM) -> Seq<Seq<char>> {
    f.parameters + defs_block(f.block)
}

pub open spec fn defs_funs(fs: Seq<SsaFunM>) -> Seq<Seq<char>>
    decreases fs,
{
    if fs.len() == 0 {
        Seq::empty()
    } else {
        defs_funs(fs.drop_last()) + defs_fun(fs.last())
    }
}

pub open spec fn defs_program(p: SsaProgM) -> Seq<Seq<char>> {
    defs_funs(p.functions)
}

// ------------------------------------------------------------------
// well-formedness of the input models

pub open spec fn wfm_expr(e: ExprM) -> bool
    decreases e,
{
    match e {
        ExprM::Number(_) => true,
        ExprM::Variable(o) => wf_name(o),
        ExprM::Binary(_, b) => wfm_expr(b.0) && wfm_expr(b.1),
        ExprM::Call(_, args) => wfm_exprs(args),
    }
}

pub open spec fn wfm_exprs(s: Seq<ExprM>) -> bool
    decreases s,
{
    forall|i: int| 0 <= i < s.len() ==> wfm_expr(#[trigger] s[i])
}

pub open spec fn wfm_stmt(s: StmtM) -> bool
    decreases s,
{
    match s {
        StmtM::Assign(x, e) => wf_name(x) && wfm_expr(e),
        StmtM::If(c, b) => wfm_expr(c) && wfm_block(b),
        StmtM::While(c, b) => wfm_expr(c) && wfm_block(b),
        StmtM::Call(_, args) => wfm_exprs(args),
        StmtM::Return(e) => wfm_expr(e),
    }
}

pub open spec fn wfm_block(b: Seq<StmtM>) -> bool
    decreases b,
{
    forall|i: int| 0 <= i < b.len() ==> wfm_stmt(#[trigger] b[i])
}

pub open spec fn wfm_fun(f: FunDeclM) -> bool {
    match f {
        FunDeclM::Internal(_, ps, b) => (forall|i: int|
            0 <= i < ps.len() ==> wf_name(#[trigger] ps[i])) && wfm_block(b),
        FunDeclM::External(_) => true,
    }
}

pub open spec fn wfm_funs(fs: Seq<FunDeclM>) -> bool {
    forall|i: int| 0 <= i < fs.len() ==> wfm_fun(#[trigger] fs[i])
}

// ------------------------------------------------------------------
// how many bindings a conversion can make

/// Syntactic count of assignments in a block, bounding how many phi nodes
/// a join can produce.
pub open spec fn assigns_stmt(s: StmtM) -> nat
    decreases s,
{
    match s {
        StmtM::Assign(_, _) => 1,
        StmtM::If(_, b) => assigns_block(b),
        StmtM::While(_, b) => assigns_block(b),
        StmtM::Call(_, _) => 0,
        StmtM::Return(_) => 0,
    }
}

pub open spec fn assigns_block(b: Seq<StmtM>) -> nat
    decreases b,
{
    if b.len() == 0 {
        0
    } else {
        assigns_block(b.drop_last()) + assigns_stmt(b.last())
    }
}

/// An upper bound on the number of fresh versions the conversion of a
/// statement binds.
pub open spec fn weight_stmt(s: StmtM) -> nat
    decreases s,
{
    match s {
        StmtM::Assign(_, _) => 1,
        StmtM::If(_, b) => weight_block(b) + assigns_block(b),
        StmtM::While(_, b) => weight_block(b) + assigns_block(b),
        StmtM::Call(_, _) => 0,
        StmtM::Return(_) => 0,
    }
}

pub open spec fn weight_block(b: Seq<StmtM>) -> nat
    decreases b,
{
    if b.len() == 0 {
        0
    } else {
        weight_block(b.drop_last()) + weight_stmt(b.last())
    }
}

pub open spec fn weight_fun(f: FunDeclM) -> nat {
    match f {
        FunDeclM::Internal(_, ps, b) => ps.len() + weight_block(b),
        FunDeclM::External(_) => 0,
    }
}

pub open spec fn weight_funs(fs: Seq<FunDeclM>) -> nat
    decreases fs,
{
    if fs.len() == 0 {
        0
    } else {
        weight_funs(fs.drop_last()) + weight_fun(fs.last())
    }
}

// ------------------------------------------------------------------
// small helper lemmas

proof fn lemma_used_mono(m1: VersionMap, m2: VersionMap, d: Seq<char>)
    requires
        map_le(m1, m2),
        is_used(m1, d),
    ensures
        is_used(m2, d),
{
    let (o, k): (Seq<char>, nat) = choose|o: Seq<char>, k: nat|
        m1.dom().contains(o) && k <= m1[o] && d == spec_versioned_name(o, k);
    assert(m2.dom().contains(o) && k <= m2[o] && d == spec_versioned_name(o, k));
}

/// A fresh binding is not among the used names, and is used afterwards.
proof fn lemma_fresh_version(m: VersionMap, x: Seq<char>, c: nat)
    requires
        wf_dom(m),
        wf_name(x),
        bounded(m, c),
        c < u64::MAX,
    ensures
        !is_used(m, spec_versioned_name(x, new_version(m, x) as nat)),
        is_used(
            m.insert(x, new_version(m, x)),
            spec_versioned_name(x, new_version(m, x) as nat),
        ),
        map_le(m, m.insert(x, new_version(m, x))),
        wf_dom(m.insert(x, new_version(m, x))),
        bounded(m.insert(x, new_version(m, x)), c + 1),
{
    let nv = new_version(m, x);
    if is_used(m, spec_versioned_name(x, nv as nat)) {
        let (o, k): (Seq<char>, nat) = choose|o: Seq<char>, k: nat|
            m.dom().contains(o) && k <= m[o] && spec_versioned_name(x, nv as nat)
                == spec_versioned_name(o, k);
        lemma_versioned_name_injective(x, nv as nat, o, k);
        assert(o == x && k == nv as nat);
        assert(m.dom().contains(x));
        assert((m[x] as nat) <= c);
        assert(nv == bump(m[x]));
        assert(nv > m[x]);
        assert(false);
    }
    let m2 = m.insert(x, nv);
    assert(m2.dom().contains(x) && nv as nat <= m2[x] as nat);
}

proof fn lemma_distinct_concat(a: Seq<Seq<char>>, b: Seq<Seq<char>>, m: VersionMap)
    requires
        distinct_names(a),
        distinct_names(b),
        forall|i: int| 0 <= i < a.len() ==> is_used(m, #[trigger] a[i]),
        forall|j: int| 0 <= j < b.len() ==> !is_used(m, #[trigger] b[j]),
    ensures
        distinct_names(a + b),
{
    assert forall|i: int, j: int| 0 <= i < j < (a + b).len() implies (a + b)[i] != (a + b)[j] by {
        if j < a.len() {
            assert((a + b)[i] == a[i] && (a + b)[j] == a[j]);
        } else if i >= a.len() {
            assert((a + b)[i] == b[i - a.len()] && (a + b)[j] == b[j - a.len()]);
        } else {
            assert((a + b)[i] == a[i] && (a + b)[j] == b[j - a.len()]);
            assert(is_used(m, a[i]) && !is_used(m, b[j - a.len()]));
        }
    }
}

/// The walk that collects assigned variables finds at most as many as the
/// block syntactically contains.
proof fn lemma_assigned_len(b: Seq<StmtM>, m: VersionMap)
    ensures
        sc_assigned(b, m).len() <= assigns_block(b),
    decreases b,
{
    if b.len() > 0 {
        lemma_assigned_len(b.drop_last(), m);
        match b.last() {
            StmtM::Assign(x, _) => {
                if m.dom().contains(x) {
                    assert(sc_assigned(b, m) == sc_assigned(b.drop_last(), m) + seq![x]);
                } else {
                    assert(sc_assigned(b, m) == sc_assigned(b.drop_last(), m)
                        + Seq::<Seq<char>>::empty());
                }
            },
            StmtM::If(_, bb) => {
                lemma_assigned_len(bb, m);
                assert(sc_assigned(b, m) == sc_assigned(b.drop_last(), m) + sc_assigned(bb, m));
            },
            StmtM::While(_, bb) => {
                lemma_assigned_len(bb, m);
                assert(sc_assigned(b, m) == sc_assigned(b.drop_last(), m) + sc_assigned(bb, m));
            },
            StmtM::Call(_, _) => {
                assert(sc_assigned(b, m) == sc_assigned(b.drop_last(), m)
                    + Seq::<Seq<char>>::empty());
            },
            StmtM::Return(_) => {
                assert(sc_assigned(b, m) == sc_assigned(b.drop_last(), m)
                    + Seq::<Seq<char>>::empty());
            },
        }
        assert(assigns_block(b) == assigns_block(b.drop_last()) + assigns_stmt(b.last()));
    }
}

// ------------------------------------------------------------------
// expression conversion only reads: counters never grow

proof fn lemma_expr_reads(e: ExprM, m: VersionMap, c: nat)
    requires
        wfm_expr(e),
        wf_dom(m),
        bounded(m, c),
    ensures
        map_le(m, sc_expr(e, m).1),
        wf_dom(sc_expr(e, m).1),
        bounded(sc_expr(e, m).1, c),
    decreases e,
{
    match e {
        ExprM::Number(_) => (),
        ExprM::Variable(o) => (),
        ExprM::Binary(_, b) => {
            lemma_expr_reads(b.0, m, c);
            lemma_expr_reads(b.1, sc_expr(b.0, m).1, c);
        },
        ExprM::Call(_, args) => {
            lemma_exprs_reads(args, m, c);
        },
    }
}

proof fn lemma_exprs_reads(s: Seq<ExprM>, m: VersionMap, c: nat)
    requires
        wfm_exprs(s),
        wf_dom(m),
        bounded(m, c),
    ensures
        map_le(m, sc_exprs(s, m).1),
        wf_dom(sc_exprs(s, m).1),
        bounded(sc_exprs(s, m).1, c),
    decreases s,
{
    if s.len() > 0 {
        assert(wfm_exprs(s.drop_last())) by {
            assert(forall|i: int|
                0 <= i < s.drop_last().len() ==> #[trigger] s.drop_last()[i] == s[i]);
        }
        lemma_exprs_reads(s.drop_last(), m, c);
        assert(wfm_expr(s.last()));
        lemma_expr_reads(s.last(), sc_exprs(s.drop_last(), m).1, c);
    }
}

// ------------------------------------------------------------------
// phi and parameter binding

proof fn lemma_phis_defs(
    avs: Seq<Seq<char>>,
    outs: Seq<Seq<char>>,
    ins: Seq<Seq<char>>,
    refs: Seq<Seq<char>>,
    ur: bool,
    m: VersionMap,
    c: nat,
)
    requires
        forall|i: int| 0 <= i < avs.len() ==> wf_name(#[trigger] avs[i]),
        wf_dom(m),
        bounded(m, c),
        c + avs.len() < u64::MAX,
    ensures
        ({
            let (ps, lps, m2) = sc_phis(avs, outs, ins, refs, ur, m);
            &&& map_le(m, m2)
            &&& wf_dom(m2)
            &&& bounded(m2, c + avs.len())
            &&& ps.len() == avs.len()
            &&& forall|i: int, j: int|
                0 <= i < j < ps.len() ==> ps[i].result != ps[j].result
            &&& forall|j: int|
                0 <= j < ps.len() ==> is_used(m2, (#[trigger] ps[j]).result) && !is_used(
                    m,
                    ps[j].result,
                )
        }),
    decreases avs,
{
    if avs.len() > 0 {
        assert(forall|i: int|
            0 <= i < avs.drop_last().len() ==> #[trigger] avs.drop_last()[i] == avs[i]);
        lemma_phis_defs(avs.drop_last(), outs.drop_last(), ins.drop_last(), refs, ur, m, c);
        let (ps1, lps1, m1) = sc_phis(avs.drop_last(), outs.drop_last(), ins.drop_last(), refs, ur, m);
        let o = avs.last();
        lemma_fresh_version(m1, o, (c + avs.len() - 1) as nat);
        let nv = new_version(m1, o);
        let m2 = m1.insert(o, nv);
        let (ps, lps, m_fin) = sc_phis(avs, outs, ins, refs, ur, m);
        assert(m_fin == m2);
        assert(ps.drop_last() == ps1);
        assert(ps.last().result == spec_versioned_name(o, nv as nat));
        assert forall|j: int| 0 <= j < ps.len() implies is_used(m2, (#[trigger] ps[j]).result)
            && !is_used(m, ps[j].result) by {
            if j < ps.len() - 1 {
                assert(ps[j] == ps1[j]);
                lemma_used_mono(m1, m2, ps1[j].result);
            } else {
                assert(ps[j] == ps.last());
                if is_used(m, ps[j].result) {
                    lemma_used_mono(m, m1, ps[j].result);
                }
            }
        }
        assert forall|i: int, j: int| 0 <= i < j < ps.len() implies ps[i].result != ps[
            j
        ].result by {
            if j == ps.len() - 1 {
                assert(ps[i] == ps1[i]);
                assert(is_used(m1, ps1[i].result));
                assert(!is_used(m1, spec_versioned_name(o, nv as nat)));
            }
        }
    }
}

proof fn lemma_params_defs(ps: Seq<Seq<char>>, m: VersionMap, c: nat)
    requires
        forall|i: int| 0 <= i < ps.len() ==> wf_name(#[trigger] ps[i]),
        wf_dom(m),
        bounded(m, c),
        c + ps.len() < u64::MAX,
    ensures
        ({
            let (out, m2) = sc_params(ps, m);
            &&& map_le(m, m2)
            &&& wf_dom(m2)
            &&& bounded(m2, c + ps.len())
            &&& out.len() == ps.len()
            &&& distinct_names(out)
            &&& forall|j: int|
                0 <= j < out.len() ==> is_used(m2, #[trigger] out[j]) && !is_used(m, out[j])
        }),
    decreases ps,
{
    if ps.len() > 0 {
        assert(forall|i: int|
            0 <= i < ps.drop_last().len() ==> #[trigger] ps.drop_last()[i] == ps[i]);
        lemma_params_defs(ps.drop_last(), m, c);
        let (out1, m1) = sc_params(ps.drop_last(), m);
        let o = ps.last();
        lemma_fresh_version(m1, o, (c + ps.len() - 1) as nat);
        let nv = new_version(m1, o);
        let m2 = m1.insert(o, nv);
        let (out, m_fin) = sc_params(ps, m);
        assert(out =~= out1.push(spec_versioned_name(o, nv as nat)));
        assert forall|j: int| 0 <= j < out.len() implies is_used(m2, #[trigger] out[j])
            && !is_used(m, out[j]) by {
            if j < out1.len() {
                assert(out[j] == out1[j]);
                lemma_used_mono(m1, m2, out1[j]);
            } else {
                if is_used(m, out[j]) {
                    lemma_used_mono(m, m1, out[j]);
                }
            }
        }
        assert forall|i: int, j: int| 0 <= i < j < out.len() implies out[i] != out[j] by {
            if j == out.len() - 1 {
                assert(out[i] == out1[i]);
                assert(is_used(m1, out1[i]));
                assert(!is_used(m1, spec_versioned_name(o, nv as nat)));
            }
        }
    }
}

// ------------------------------------------------------------------
// statements and blocks

proof fn lemma_stmt_defs(s: StmtM, m: VersionMap, c: nat)
    requires
        wfm_stmt(s),
        wf_dom(m),
        bounded(m, c),
        c + weight_stmt(s) < u64::MAX,
    ensures
        ({
            let (out, m2) = sc_stmt(s, m);
            &&& map_le(m, m2)
            &&& wf_dom(m2)
            &&& bounded(m2, c + weight_stmt(s))
            &&& distinct_names(defs_stmt(out))
            &&& forall|j: int|
                0 <= j < defs_stmt(out).len() ==> is_used(m2, #[trigger] defs_stmt(out)[j])
                    && !is_used(m, defs_stmt(out)[j])
        }),
    decreases s, 2nat,
{
    match s {
        StmtM::Assign(x, e) => {
            lemma_expr_reads(e, m, c);
            let m1 = sc_expr(e, m).1;
            lemma_fresh_version(m1, x, c);
            let nv = new_version(m1, x);
            assert forall|j: int|
                0 <= j < defs_stmt(sc_stmt(s, m).0).len() implies is_used(
                sc_stmt(s, m).1,
                #[trigger] defs_stmt(sc_stmt(s, m).0)[j],
            ) && !is_used(m, defs_stmt(sc_stmt(s, m).0)[j]) by {
                assert(defs_stmt(sc_stmt(s, m).0)[j] == spec_versioned_name(x, nv as nat));
                if is_used(m, spec_versioned_name(x, nv as nat)) {
                    lemma_used_mono(m, m1, spec_versioned_name(x, nv as nat));
                }
            }
        },
        StmtM::Call(_, args) => {
            lemma_exprs_reads(args, m, c);
        },
        StmtM::Return(e) => {
            lemma_expr_reads(e, m, c);
        },
        StmtM::If(cond, b) => {
            lemma_if_while_defs(s, cond, b, m, c);
        },
        StmtM::While(cond, b) => {
            lemma_if_while_defs(s, cond, b, m, c);
        },
    }
}

/// Shared argument for the two join statements: the block's bindings are
/// fresh, the phi results are fresher still, and the two groups are
/// disjoint.
proof fn lemma_if_while_defs(s: StmtM, cond: ExprM, b: Seq<StmtM>, m: VersionMap, c: nat)
    requires
        wfm_stmt(s),
        s == StmtM::If(cond, b) || s == StmtM::While(cond, b),
        wf_dom(m),
        bounded(m, c),
        c + weight_stmt(s) < u64::MAX,
    ensures
        ({
            let (out, m2) = sc_stmt(s, m);
            &&& map_le(m, m2)
            &&& wf_dom(m2)
            &&& bounded(m2, c + weight_stmt(s))
            &&& distinct_names(defs_stmt(out))
            &&& forall|j: int|
                0 <= j < defs_stmt(out).len() ==> is_used(m2, #[trigger] defs_stmt(out)[j])
                    && !is_used(m, defs_stmt(out)[j])
        }),
    decreases s, 0nat,
{
    lemma_expr_reads(cond, m, c);
    let m1 = sc_expr(cond, m).1;
    let avs = sc_assigned(b, m1);
    lemma_assigned_len(b, m1);
    lemma_sc_assigned_in_dom(b, m1);
    assert forall|i: int| 0 <= i < avs.len() implies wf_name(#[trigger] avs[i]) by {
        assert(m1.dom().contains(avs[i]));
    }
    lemma_block_defs(b, m1, c);
    let m2 = sc_block(b, m1).1;
    let b2 = sc_block(b, m1).0;
    let outs = cur_names(avs, m1);
    let ins = cur_names(avs, m2);
    let use_refs = s is While;
    let refs = if use_refs {
        rv_expr(sc_expr(cond, m).0)
    } else {
        Seq::<Seq<char>>::empty()
    };
    let c2 = c + weight_block(b);
    lemma_phis_defs(avs, outs, ins, refs, use_refs, m2, c2);
    let (phis, lphis, m3) = sc_phis(avs, outs, ins, refs, use_refs, m2);
    let rs = phis.map_values(|p: PhiM| p.result);
    assert forall|j: int| 0 <= j < rs.len() implies is_used(m3, #[trigger] rs[j]) && !is_used(
        m2,
        rs[j],
    ) by {
        assert(rs[j] == phis[j].result);
    }
    assert(distinct_names(rs)) by {
        assert forall|i: int, j: int| 0 <= i < j < rs.len() implies rs[i] != rs[j] by {
            assert(rs[i] == phis[i].result);
            assert(rs[j] == phis[j].result);
        }
    }
    let bd = defs_block(b2);
    // block bindings are used by the time the phis bind
    assert forall|j: int| 0 <= j < bd.len() implies is_used(m2, #[trigger] bd[j]) by {}
    lemma_distinct_concat(bd, rs, m2);
    let out = sc_stmt(s, m).0;
    assert(defs_stmt(out) == bd + rs);
    assert forall|j: int|
        0 <= j < defs_stmt(out).len() implies is_used(m3, #[trigger] defs_stmt(out)[j])
        && !is_used(m, defs_stmt(out)[j]) by {
        if j < bd.len() {
            assert(defs_stmt(out)[j] == bd[j]);
            lemma_used_mono(m2, m3, bd[j]);
            if is_used(m, bd[j]) {
                lemma_used_mono(m, m1, bd[j]);
            }
        } else {
            assert(defs_stmt(out)[j] == rs[j - bd.len()]);
            if is_used(m, rs[j - bd.len()]) {
                lemma_used_mono(m, m1, rs[j - bd.len()]);
                lemma_used_mono(m1, m2, rs[j - bd.len()]);
            }
        }
    }
    assert(bounded(m3, c + weight_stmt(s))) by {
        assert(bounded(m3, c2 + avs.len()));
        assert(avs.len() <= assigns_block(b));
    }
}

proof fn lemma_block_defs(b: Seq<StmtM>, m: VersionMap, c: nat)
    requires
        wfm_block(b),
        wf_dom(m),
        bounded(m, c),
        c + weight_block(b) < u64::MAX,
    ensures
        ({
            let (out, m2) = sc_block(b, m);
            &&& map_le(m, m2)
            &&& wf_dom(m2)
            &&& bounded(m2, c + weight_block(b))
            &&& distinct_names(defs_block(out))
            &&& forall|j: int|
                0 <= j < defs_block(out).len() ==> is_used(m2, #[trigger] defs_block(out)[j])
                    && !is_used(m, defs_block(out)[j])
        }),
    decreases b, 1nat,
{
    if b.len() > 0 {
        assert(wfm_block(b.drop_last())) by {
            assert(forall|i: int|
                0 <= i < b.drop_last().len() ==> #[trigger] b.drop_last()[i] == b[i]);
        }
        lemma_block_defs(b.drop_last(), m, c);
        let (out1, m1) = sc_block(b.drop_last(), m);
        assert(wfm_stmt(b.last()));
        lemma_stmt_defs(b.last(), m1, c + weight_block(b.drop_last()));
        let (st, m2) = sc_stmt(b.last(), m1);
        let (out, m_fin) = sc_block(b, m);
        assert(out == out1.push(st) && m_fin == m2);
        assert(defs_block(out) == defs_block(out1) + defs_stmt(st)) by {
            assert(out.drop_last() =~= out1);
            assert(out.last() == st);
        }
        let d1 = defs_block(out1);
        let d2 = defs_stmt(st);
        assert forall|j: int| 0 <= j < d1.len() implies is_used(m1, #[trigger] d1[j]) by {}
        lemma_distinct_concat(d1, d2, m1);
        assert forall|j: int|
            0 <= j < defs_block(out).len() implies is_used(m2, #[trigger] defs_block(out)[j])
            && !is_used(m, defs_block(out)[j]) by {
            if j < d1.len() {
                assert(defs_block(out)[j] == d1[j]);
                lemma_used_mono(m1, m2, d1[j]);
            } else {
                assert(defs_block(out)[j] == d2[j - d1.len()]);
                if is_used(m, d2[j - d1.len()]) {
                    lemma_used_mono(m, m1, d2[j - d1.len()]);
                }
            }
        }
    }
}

// ------------------------------------------------------------------
// whole programs

proof fn lemma_funs_defs(fs: Seq<FunDeclM>, m: VersionMap, c: nat)
    requires
        wfm_funs(fs),
        wf_dom(m),
        bounded(m, c),
        c + weight_funs(fs) < u64::MAX,
    ensures
        ({
            let (ifs, efs, m2) = sc_funs(fs, m);
            &&& map_le(m, m2)
            &&& wf_dom(m2)
            &&& bounded(m2, c + weight_funs(fs))
            &&& distinct_names(defs_funs(ifs))
            &&& forall|j: int|
                0 <= j < defs_funs(ifs).len() ==> is_used(m2, #[trigger] defs_funs(ifs)[j])
                    && !is_used(m, defs_funs(ifs)[j])
        }),
    decreases fs,
{
    if fs.len() > 0 {
        assert(wfm_funs(fs.drop_last())) by {
            assert(forall|i: int|
                0 <= i < fs.drop_last().len() ==> #[trigger] fs.drop_last()[i] == fs[i]);
        }
        lemma_funs_defs(fs.drop_last(), m, c);
        let (ifs1, efs1, m1) = sc_funs(fs.drop_last(), m);
        let c1 = c + weight_funs(fs.drop_last());
        assert(wfm_fun(fs.last()));
        match fs.last() {
            FunDeclM::External(_) => {
                let (ifs, efs, m_fin) = sc_funs(fs, m);
                assert(ifs == ifs1 && m_fin == m1);
                assert(defs_funs(ifs) == defs_funs(ifs1));
            },
            FunDeclM::Internal(n, ps, b) => {
                lemma_params_defs(ps, m1, c1);
                let (ps2, m2) = sc_params(ps, m1);
                lemma_block_defs(b, m2, c1 + ps.len());
                let (b2, m3) = sc_block(b, m2);
                let (ifs, efs, m_fin) = sc_funs(fs, m);
                let newf = SsaFunM { name: n, parameters: ps2, block: b2 };
                assert(ifs == ifs1.push(newf) && m_fin == m3);
                assert(defs_funs(ifs) == defs_funs(ifs1) + defs_fun(newf)) by {
                    assert(ifs.drop_last() =~= ifs1);
                    assert(ifs.last() == newf);
                }
                let dp = ps2;
                let db = defs_block(b2);
                let df = defs_fun(newf);
                assert(df == dp + db);
                // parameters are used once bound; block bindings are fresh
                // even relative to that
                assert forall|j: int| 0 <= j < dp.len() implies is_used(m2, #[trigger] dp[j]) by {}
                lemma_distinct_concat(dp, db, m2);
                assert forall|j: int|
                    0 <= j < df.len() implies is_used(m3, #[trigger] df[j]) && !is_used(
                    m1,
                    df[j],
                ) by {
                    if j < dp.len() {
                        assert(df[j] == dp[j]);
                        lemma_used_mono(m2, m3, dp[j]);
                    } else {
                        assert(df[j] == db[j - dp.len()]);
                        if is_used(m1, db[j - dp.len()]) {
                            lemma_used_mono(m1, m2, db[j - dp.len()]);
                        }
                    }
                }
                let d1 = defs_funs(ifs1);
                assert forall|j: int| 0 <= j < d1.len() implies is_used(m1, #[trigger] d1[j]) by {}
                lemma_distinct_concat(d1, df, m1);
                assert forall|j: int|
                    0 <= j < defs_funs(ifs).len() implies is_used(
                    m3,
                    #[trigger] defs_funs(ifs)[j],
                ) && !is_used(m, defs_funs(ifs)[j]) by {
                    if j < d1.len() {
                        assert(defs_funs(ifs)[j] == d1[j]);
                        assert(map_le(m1, m3)) by {
                            assert forall|o: Seq<char>|
                                m1.dom().contains(o) implies m3.dom().contains(o) && m1[o]
                                <= m3[o] by {
                                assert(m2.dom().contains(o));
                            }
                        }
                        lemma_used_mono(m1, m3, d1[j]);
                    } else {
                        assert(defs_funs(ifs)[j] == df[j - d1.len()]);
                        if is_used(m, df[j - d1.len()]) {
                            lemma_used_mono(m, m1, df[j - d1.len()]);
                        }
                    }
                }
            },
        }
    }
}

/// Single-assignment uniqueness: converting a well-formed program binds
/// every versioned variable name at most once, across parameters,
/// assignment targets and phi results of all functions together.  The
/// hypothesis on the total number of bindings keeps the version counters
/// below their machine-word limit, where they would otherwise saturate.
pub proof fn lemma_single_assignment(fs: Seq<FunDeclM>)
    requires
        wfm_funs(fs),
        weight_funs(fs) < u64::MAX,
    ensures
        distinct_names(defs_program(sc_program(fs))),
{
    lemma_funs_defs(fs, VersionMap::empty(), 0);
}

/// Bridges the parser's guarantee to the conversion's hypothesis: a
/// well-formed syntax tree has a well-formed model.
pub proof fn lemma_wf_expr_model(e: Expression)
    requires
        parser::wf_expr(e),
    ensures
        wfm_expr(expr_m(e)),
    decreases parser::expr_size(expr_m(e)),
{
    match e {
        Expression::Number(_) => (),
        Expression::Variable(_) => (),
        Expression::BinaryOperation(op, b) => {
            lemma_wf_expr_model(b.0);
            lemma_wf_expr_model(b.1);
            let bx = Box::new((expr_m(b.0), expr_m(b.1)));
            assert(bx.0 == expr_m(b.0));
            assert(bx.1 == expr_m(b.1));
            assert(wfm_expr(ExprM::Binary(op, bx)));
        },
        Expression::FunctionCall(fc) => {
            assert(parser::wf_exprs(fc.arguments@));
            parser::lemma_exprs_m_len(fc.arguments@);
            assert forall|i: int|
                0 <= i < exprs_m(fc.arguments@).len() implies wfm_expr(
                #[trigger] exprs_m(fc.arguments@)[i],
            ) by {
                parser::lemma_exprs_size_elem(exprs_m(fc.arguments@), i);
                assert(parser::wf_expr(fc.arguments@[i]));
                lemma_wf_expr_model(fc.arguments@[i]);
            }
            assert(wfm_exprs(exprs_m(fc.arguments@)));
            assert(wfm_expr(ExprM::Call(fc.name@, exprs_m(fc.arguments@))));
        },
    }
}

pub proof fn lemma_wf_stmt_model(s: Statement)
    requires
        parser::wf_stmt(s),
    ensures
        wfm_stmt(stmt_m(s)),
    decreases parser::stmt_size(stmt_m(s)), 0int,
{
    match s {
        Statement::Assignment(a) => {
            lemma_wf_expr_model(a.expression);
        },
        Statement::IfStatement(i) => {
            lemma_wf_expr_model(i.condition);
            lemma_wf_block_model(i.block@);
        },
        Statement::WhileLoop(w) => {
            lemma_wf_expr_model(w.condition);
            lemma_wf_block_model(w.block@);
        },
        Statement::FunctionCall(fc) => {
            parser::lemma_exprs_m_len(fc.arguments@);
            assert forall|i: int|
                0 <= i < exprs_m(fc.arguments@).len() implies wfm_expr(
                #[trigger] exprs_m(fc.arguments@)[i],
            ) by {
                assert(parser::wf_expr(fc.arguments@[i]));
                lemma_wf_expr_model(fc.arguments@[i]);
            }
        },
        Statement::Return(e) => {
            lemma_wf_expr_model(e);
        },
    }
}

pub proof fn lemma_wf_block_model(b: Seq<Statement>)
    requires
        parser::wf_block(b),
    ensures
        wfm_block(block_m(b)),
    decreases parser::block_size(block_m(b)), 1int,
{
    parser::lemma_block_m_len(b);
    assert forall|i: int| 0 <= i < block_m(b).len() implies wfm_stmt(
        #[trigger] block_m(b)[i],
    ) by {
        parser::lemma_block_size_elem(block_m(b), i);
        assert(parser::wf_stmt(b[i]));
        lemma_wf_stmt_model(b[i]);
    }
}

/// A program the parser accepts satisfies the hypotheses of
/// `lemma_single_assignment`, except for the size bound on the number of
/// bindings.
pub proof fn lemma_wf_program_model(p: parser::Program)
    requires
        parser::wf_program(p),
    ensures
        wfm_funs(crate::ssa::prog_m(p)),
{
    assert forall|i: int|
        0 <= i < crate::ssa::prog_m(p).len() implies wfm_fun(
        #[trigger] crate::ssa::prog_m(p)[i],
    ) by {
        assert(parser::wf_function(p.functions@[i]));
        match p.functions@[i] {
            parser::Function::Internal(f) => {
                assert(crate::ssa::prog_m(p)[i] == crate::ssa::fun_decl_m(p.functions@[i]));
                lemma_wf_block_model(f.block@);
                assert forall|k: int|
                    0 <= k < str_views(f.parameters@).len() implies wf_name(
                    #[trigger] str_views(f.parameters@)[k],
                ) by {
                    assert(str_views(f.parameters@)[k] == f.parameters@[k]@);
                }
            },
            parser::Function::External(_) => (),
        }
    }
}

} // verus!
