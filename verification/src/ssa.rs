//! Conversion of the abstract syntax tree into static single-assignment
//! form.
//!
//! Every source variable is renamed to a versioned name `#var_<origin>_#<k>`;
//! reading a variable yields its most recent version and every assignment
//! binds a fresh one.  `if` statements are decorated with phi nodes joining
//! the inner and outer version of each variable assigned inside the block;
//! `while` loops additionally record a loop phi for each variable whose
//! outer version occurs in the converted condition.
//!
//! The whole conversion is specified by a functional mirror (`sc_program`
//! and friends); `convert` is proved to return exactly the mirror's value.

use vstd::prelude::*;
use crate::parser::{self, Expression, ExprM, StmtM, exprs_m, expr_m, block_m, stmt_m, str_views};
use crate::predefined_functions::ExternalFunction;
use crate::names::{spec_versioned_name, versioned_name};

verus! {

/// The tracker state: each origin name's most recent version number.
pub type VersionMap = Map<Seq<char>, u64>;

/// The next version number: one more than the current one, saturating at
/// the width of the counter.
pub open spec fn bump(v: u64) -> u64 {
    if v < u64::MAX {
        (v + 1) as u64
    } else {
        v
    }
}

/// The version that a read of `o` sees: the recorded one, or `0` for a
/// first reference.
pub open spec fn cur_version(m: VersionMap, o: Seq<char>) -> u64 {
    if m.dom().contains(o) {
        m[o]
    } else {
        0
    }
}

/// The version that a fresh assignment to `o` binds.
pub open spec fn new_version(m: VersionMap, o: Seq<char>) -> u64 {
    if m.dom().contains(o) {
        bump(m[o])
    } else {
        0
    }
}

pub open spec fn assoc_map(s: Seq<(String, u64)>) -> VersionMap
    decreases s,
{
    if s.len() == 0 {
        Map::empty()
    } else {
        assoc_map(s.drop_last()).insert(s.last().0@, s.last().1)
    }
}

proof fn lemma_assoc_push(s: Seq<(String, u64)>, p: (String, u64))
    ensures
        assoc_map(s.push(p)) == assoc_map(s).insert(p.0@, p.1),
{
    assert(s.push(p).drop_last() =~= s);
    assert(s.push(p).last() == p);
}

proof fn lemma_assoc_found(s: Seq<(String, u64)>, i: int)
    requires
        0 <= i < s.len(),
        forall|j: int| i < j < s.len() ==> (#[trigger] s[j]).0@ != s[i].0@,
    ensures
        assoc_map(s).dom().contains(s[i].0@),
        assoc_map(s)[s[i].0@] == s[i].1,
    decreases s.len(),
{
    if i == s.len() - 1 {
    } else {
        assert(forall|j: int|
            i < j < s.drop_last().len() ==> (#[trigger] s.drop_last()[j]).0@ != s.drop_last()[i].0@);
        lemma_assoc_found(s.drop_last(), i);
    }
}

proof fn lemma_assoc_absent(s: Seq<(String, u64)>, k: Seq<char>)
    requires
        forall|j: int| 0 <= j < s.len() ==> (#[trigger] s[j]).0@ != k,
    ensures
        !assoc_map(s).dom().contains(k),
    decreases s.len(),
{
    if s.len() > 0 {
        lemma_assoc_absent(s.drop_last(), k);
    }
}

/// The per-function name-to-version tracker.
pub struct VariableTracker {
    vars: Vec<(String, u64)>,
}

impl View for VariableTracker {
    type V = VersionMap;

    closed spec fn view(&self) -> VersionMap {
        assoc_map(self.vars@)
    }
}

impl VariableTracker {
    pub fn new() -> (r: Self)
        ensures
            r@ == VersionMap::empty(),
    {
        VariableTracker { vars: Vec::new() }
    }

    /// The recorded version of `name`, if any.
    fn find(&self, name: &str) -> (r: Option<u64>)
        ensures
            match r {
                Some(v) => self@.dom().contains(name@) && self@[name@] == v,
                None => !self@.dom().contains(name@),
            },
    {
        let n = self.vars.len();
        let mut i = n;
        while i > 0
            invariant
                i <= n,
                n == self.vars@.len(),
                forall|j: int| i <= j < n ==> (#[trigger] self.vars@[j]).0@ != name@,
            decreases i,
        {
            i -= 1;
            if crate::names::str_eq(self.vars[i].0.as_str(), name) {
                proof {
                    lemma_assoc_found(self.vars@, i as int);
                }
                return Some(self.vars[i].1);
            }
        }
        proof {
            lemma_assoc_absent(self.vars@, name@);
        }
        None
    }

    /// The versioned name that a read of `name` sees right now; a first
    /// reference records version `0`.
    pub fn get_current(&mut self, name: &str) -> (r: String)
        ensures
            final(self)@ == old(self)@.insert(name@, cur_version(old(self)@, name@)),
            r@ == spec_versioned_name(name@, cur_version(old(self)@, name@) as nat),
    {
        let num = match self.find(name) {
            Some(n) => {
                proof {
                    assert(old(self)@.insert(name@, cur_version(old(self)@, name@)) =~= old(
                        self,
                    )@);
                }
                n
            },
            None => {
                self.vars.push((String::from_str(name), 0));
                proof {
                    lemma_assoc_push(old(self).vars@, self.vars@.last());
                }
                0
            },
        };
        versioned_name(name, num)
    }

    /// The versioned name of `name` if it has ever been referenced, and
    /// `None` otherwise; never records anything.
    pub fn get_current_optinal(&mut self, name: &str) -> (r: Option<String>)
        ensures
            final(self)@ == old(self)@,
            match r {
                Some(s) => old(self)@.dom().contains(name@) && s@ == spec_versioned_name(
                    name@,
                    old(self)@[name@] as nat,
                ),
                None => !old(self)@.dom().contains(name@),
            },
    {
        match self.find(name) {
            Some(n) => Some(versioned_name(name, n)),
            None => None,
        }
    }

    /// The versioned name for a fresh assignment to `name`.
    pub fn get_new(&mut self, name: &str) -> (r: String)
        ensures
            final(self)@ == old(self)@.insert(name@, new_version(old(self)@, name@)),
            r@ == spec_versioned_name(name@, new_version(old(self)@, name@) as nat),
    {
        let num = match self.find(name) {
            Some(n) => {
                if n < u64::MAX {
                    n + 1
                } else {
                    n
                }
            },
            None => 0,
        };
        self.vars.push((String::from_str(name), num));
        proof {
            lemma_assoc_push(old(self).vars@, self.vars@.last());
        }
        versioned_name(name, num)
    }
}

// ------------------------------------------------------------------
// result types

pub type SsaBlock = Vec<SsaStatement>;

pub type PhiNodes = Vec<PhiNode>;

pub type LoopPhiNodes = Vec<LoopPhiNode>;

#[derive(Debug, PartialEq)]
pub struct SsaProgram {
    pub functions: Vec<SsaFunction>,
    pub external_functions: Vec<ExternalFunction>,
}

#[derive(Debug, PartialEq)]
pub struct PhiNode {
    pub result_var: String,
    pub inner_option: String,
    pub outer_option: String,
}

#[derive(Debug, PartialEq)]
pub struct SsaFunction {
    pub name: String,
    pub parameters: Vec<String>,
    pub block: SsaBlock,
}

#[derive(Debug, PartialEq)]
pub struct SsaAssignment {
    pub variable_name: String,
    pub expression: Expression,
}

#[derive(Debug, PartialEq)]
pub struct SsaIfStatement {
    pub condition: Expression,
    pub block: SsaBlock,
}

#[derive(Debug, PartialEq)]
pub struct SsaWhileLoop {
    pub condition: Expression,
    pub block: SsaBlock,
}

#[derive(Debug, PartialEq)]
pub struct SsaFunctionCall {
    pub name: String,
    pub arguments: Vec<Expression>,
}

#[derive(Debug, PartialEq)]
pub struct LoopPhiNode {
    pub condition_var: String,
    pub inner_var: String,
}

#[derive(Debug, PartialEq)]
pub enum SsaStatement {
    Assignment(SsaAssignment),
    IfStatement(SsaIfStatement, PhiNodes),
    WhileLoop(SsaWhileLoop, PhiNodes, LoopPhiNodes),
    FunctionCall(SsaFunctionCall),
    Return(Expression),
}

// ------------------------------------------------------------------
// models of the result types

pub struct PhiM {
    pub result: Seq<char>,
    pub inner: Seq<char>,
    pub outer: Seq<char>,
}

pub struct LoopPhiM {
    pub cond_var: Seq<char>,
    pub inner_var: Seq<char>,
}

pub enum SsaStmtM {
    Assign(Seq<char>, ExprM),
    If(ExprM, Seq<SsaStmtM>, Seq<PhiM>),
    While(ExprM, Seq<SsaStmtM>, Seq<PhiM>, Seq<LoopPhiM>),
    Call(Seq<char>, Seq<ExprM>),
    Return(ExprM),
}

pub struct SsaFunM {
    pub name: Seq<char>,
    pub parameters: Seq<Seq<char>>,
    pub block: Seq<SsaStmtM>,
}

pub struct ExtM {
    pub name: Seq<char>,
    pub parameters: Seq<Seq<char>>,
    pub address: u64,
}

pub struct SsaProgM {
    pub functions: Seq<SsaFunM>,
    pub externals: Seq<ExtM>,
}

pub open spec fn phi_m(p: PhiNode) -> PhiM {
    PhiM { result: p.result_var@, inner: p.inner_option@, outer: p.outer_option@ }
}

pub open spec fn phis_m(s: Seq<PhiNode>) -> Seq<PhiM> {
    s.map_values(|p: PhiNode| phi_m(p))
}

pub open spec fn loop_phi_m(p: LoopPhiNode) -> LoopPhiM {
    LoopPhiM { cond_var: p.condition_var@, inner_var: p.inner_var@ }
}

pub open spec fn loop_phis_m(s: Seq<LoopPhiNode>) -> Seq<LoopPhiM> {
    s.map_values(|p: LoopPhiNode| loop_phi_m(p))
}

pub open spec fn ssa_stmt_m(s: SsaStatement) -> SsaStmtM
    decreases s,
{
    match s {
        SsaStatement::Assignment(a) => SsaStmtM::Assign(a.variable_name@, expr_m(a.expression)),
        SsaStatement::IfStatement(i, phis) => SsaStmtM::If(
            expr_m(i.condition),
            ssa_block_m(i.block@),
            phis_m(phis@),
        ),
        SsaStatement::WhileLoop(w, phis, lphis) => SsaStmtM::While(
            expr_m(w.condition),
            ssa_block_m(w.block@),
            phis_m(phis@),
            loop_phis_m(lphis@),
        ),
        SsaStatement::FunctionCall(fc) => SsaStmtM::Call(fc.name@, exprs_m(fc.arguments@)),
        SsaStatement::Return(e) => SsaStmtM::Return(expr_m(e)),
    }
}

pub open spec fn ssa_block_m(b: Seq<SsaStatement>) -> Seq<SsaStmtM>
    decreases b,
{
    if b.len() == 0 {
        Seq::empty()
    } else {
        ssa_block_m(b.drop_last()).push(ssa_stmt_m(b.last()))
    }
}

pub open spec fn ext_m(f: ExternalFunction) -> ExtM {
    ExtM { name: f.name@, parameters: str_views(f.parameters@), address: f.address }
}

pub open spec fn exts_m(s: Seq<ExternalFunction>) -> Seq<ExtM> {
    s.map_values(|f: ExternalFunction| ext_m(f))
}

pub open spec fn ssa_fun_m(f: SsaFunction) -> SsaFunM {
    SsaFunM { name: f.name@, parameters: str_views(f.parameters@), block: ssa_block_m(f.block@) }
}

pub open spec fn ssa_funs_m(s: Seq<SsaFunction>) -> Seq<SsaFunM> {
    s.map_values(|f: SsaFunction| ssa_fun_m(f))
}

pub open spec fn ssa_prog_m(p: SsaProgram) -> SsaProgM {
    SsaProgM { functions: ssa_funs_m(p.functions@), externals: exts_m(p.external_functions@) }
}

pub proof fn lemma_ssa_block_m_len(b: Seq<SsaStatement>)
    ensures
        ssa_block_m(b).len() == b.len(),
        forall|i: int| 0 <= i < b.len() ==> ssa_block_m(b)[i] == ssa_stmt_m(#[trigger] b[i]),
    decreases b,
{
    if b.len() > 0 {
        lemma_ssa_block_m_len(b.drop_last());
        assert forall|i: int| 0 <= i < b.len() implies ssa_block_m(b)[i] == ssa_stmt_m(
            #[trigger] b[i],
        ) by {
            if i < b.len() - 1 {
                assert(ssa_block_m(b)[i] == ssa_block_m(b.drop_last())[i]);
                assert(b.drop_last()[i] == b[i]);
            } else {
                assert(ssa_block_m(b)[i] == ssa_stmt_m(b.last()));
            }
        }
    }
}

/// Size of a converted statement, a termination measure for the passes
/// that walk the single-assignment tree.
pub open spec fn ssa_stmt_size(s: SsaStmtM) -> nat
    decreases s,
{
    match s {
        SsaStmtM::Assign(_, _) => 1,
        SsaStmtM::If(_, b, _) => 1 + ssa_block_size(b),
        SsaStmtM::While(_, b, _, _) => 1 + ssa_block_size(b),
        SsaStmtM::Call(_, _) => 1,
        SsaStmtM::Return(_) => 1,
    }
}

pub open spec fn ssa_block_size(b: Seq<SsaStmtM>) -> nat
    decreases b,
{
    if b.len() == 0 {
        0
    } else {
        ssa_block_size(b.drop_last()) + ssa_stmt_size(b.last())
    }
}

pub proof fn lemma_ssa_block_size_elem(b: Seq<SsaStmtM>, i: int)
    requires
        0 <= i < b.len(),
    ensures
        ssa_stmt_size(b[i]) <= ssa_block_size(b),
    decreases b,
{
    if i == b.len() - 1 {
    } else {
        lemma_ssa_block_size_elem(b.drop_last(), i);
        assert(b.drop_last()[i] == b[i]);
    }
}

/// Model of one declared function of the input program.
pub enum FunDeclM {
    Internal(Seq<char>, Seq<Seq<char>>, Seq<StmtM>),
    External(ExtM),
}

pub open spec fn fun_decl_m(f: parser::Function) -> FunDeclM {
    match f {
        parser::Function::Internal(f) => FunDeclM::Internal(
            f.name@,
            str_views(f.parameters@),
            block_m(f.block@),
        ),
        parser::Function::External(e) => FunDeclM::External(ext_m(e)),
    }
}

pub open spec fn prog_m(p: parser::Program) -> Seq<FunDeclM> {
    p.functions@.map_values(|f: parser::Function| fun_decl_m(f))
}

// ------------------------------------------------------------------
// the functional mirror of the conversion

/// Conversion of one expression: reads are renamed to the current version;
/// the map records a first reference at version 0.
pub open spec fn sc_expr(e: ExprM, m: VersionMap) -> (ExprM, VersionMap)
    decreases e,
{
    match e {
        ExprM::Number(n) => (ExprM::Number(n), m),
        ExprM::Variable(o) => (
            ExprM::Variable(spec_versioned_name(o, cur_version(m, o) as nat)),
            m.insert(o, cur_version(m, o)),
        ),
        ExprM::Binary(op, b) => {
            let (l, m1) = sc_expr(b.0, m);
            let (r, m2) = sc_expr(b.1, m1);
            (ExprM::Binary(op, Box::new((l, r))), m2)
        },
        ExprM::Call(f, args) => {
            let (args2, m2) = sc_exprs(args, m);
            (ExprM::Call(f, args2), m2)
        },
    }
}

pub open spec fn sc_exprs(s: Seq<ExprM>, m: VersionMap) -> (Seq<ExprM>, VersionMap)
    decreases s,
{
    if s.len() == 0 {
        (Seq::empty(), m)
    } else {
        let (init, m1) = sc_exprs(s.drop_last(), m);
        let (last, m2) = sc_expr(s.last(), m1);
        (init.push(last), m2)
    }
}

/// The origin names assigned somewhere in the block that already exist in
/// the tracker, in the order the walk finds them.
pub open spec fn sc_assigned(b: Seq<StmtM>, m: VersionMap) -> Seq<Seq<char>>
    decreases b,
{
    if b.len() == 0 {
        Seq::empty()
    } else {
        sc_assigned(b.drop_last(), m) + match b.last() {
            StmtM::Assign(x, _) => if m.dom().contains(x) {
                seq![x]
            } else {
                Seq::empty()
            },
            StmtM::If(_, bb) => sc_assigned(bb, m),
            StmtM::While(_, bb) => sc_assigned(bb, m),
            StmtM::Call(_, _) => Seq::empty(),
            StmtM::Return(_) => Seq::empty(),
        }
    }
}

/// The current versioned names of the given origins.
pub open spec fn cur_names(os: Seq<Seq<char>>, m: VersionMap) -> Seq<Seq<char>> {
    os.map_values(|o: Seq<char>| spec_versioned_name(o, cur_version(m, o) as nat))
}

/// The variable names referenced by an expression, first occurrences only.
pub open spec fn rv_expr(e: ExprM) -> Seq<Seq<char>>
    decreases e,
{
    match e {
        ExprM::Number(_) => Seq::empty(),
        ExprM::Variable(o) => seq![o],
        ExprM::Binary(_, b) => seq_dedup(rv_expr(b.0) + rv_expr(b.1)),
        ExprM::Call(_, args) => seq_dedup(rv_exprs(args)),
    }
}

pub open spec fn rv_exprs(s: Seq<ExprM>) -> Seq<Seq<char>>
    decreases s,
{
    if s.len() == 0 {
        Seq::empty()
    } else {
        rv_exprs(s.drop_last()) + rv_expr(s.last())
    }
}

/// Keeps the first occurrence of every element, in order.
pub open spec fn seq_dedup(s: Seq<Seq<char>>) -> Seq<Seq<char>>
    decreases s,
{
    if s.len() == 0 {
        Seq::empty()
    } else {
        let d = seq_dedup(s.drop_last());
        if d.contains(s.last()) {
            d
        } else {
            d.push(s.last())
        }
    }
}

/// Builds the phi nodes for the assigned variables `avs` with outer names
/// `outs` and inner names `ins`, binding a fresh result version for each;
/// when `use_refs` is set, variables whose outer name occurs in `refs` also
/// get a loop phi.
pub open spec fn sc_phis(
    avs: Seq<Seq<char>>,
    outs: Seq<Seq<char>>,
    ins: Seq<Seq<char>>,
    refs: Seq<Seq<char>>,
    use_refs: bool,
    m: VersionMap,
) -> (Seq<PhiM>, Seq<LoopPhiM>, VersionMap)
    decreases avs,
{
    if avs.len() == 0 {
        (Seq::empty(), Seq::empty(), m)
    } else {
        let (ps, lps, m1) = sc_phis(
            avs.drop_last(),
            outs.drop_last(),
            ins.drop_last(),
            refs,
            use_refs,
            m,
        );
        let o = avs.last();
        let nv = new_version(m1, o);
        let phi = PhiM {
            result: spec_versioned_name(o, nv as nat),
            inner: ins.last(),
            outer: outs.last(),
        };
        let lps2 = if use_refs && refs.contains(outs.last()) {
            lps.push(LoopPhiM { cond_var: outs.last(), inner_var: ins.last() })
        } else {
            lps
        };
        (ps.push(phi), lps2, m1.insert(o, nv))
    }
}

pub open spec fn sc_stmt(s: StmtM, m: VersionMap) -> (SsaStmtM, VersionMap)
    decreases s,
{
    match s {
        StmtM::Assign(x, e) => {
            let (e2, m1) = sc_expr(e, m);
            let nv = new_version(m1, x);
            (SsaStmtM::Assign(spec_versioned_name(x, nv as nat), e2), m1.insert(x, nv))
        },
        StmtM::Call(f, args) => {
            let (args2, m1) = sc_exprs(args, m);
            (SsaStmtM::Call(f, args2), m1)
        },
        StmtM::If(c, b) => {
            let (c2, m1) = sc_expr(c, m);
            let avs = sc_assigned(b, m1);
            let outs = cur_names(avs, m1);
            let (b2, m2) = sc_block(b, m1);
            let ins = cur_names(avs, m2);
            let (phis, _, m3) = sc_phis(avs, outs, ins, Seq::empty(), false, m2);
            (SsaStmtM::If(c2, b2, phis), m3)
        },
        StmtM::While(c, b) => {
            let (c2, m1) = sc_expr(c, m);
            let avs = sc_assigned(b, m1);
            let outs = cur_names(avs, m1);
            let (b2, m2) = sc_block(b, m1);
            let ins = cur_names(avs, m2);
            let (phis, lphis, m3) = sc_phis(avs, outs, ins, rv_expr(c2), true, m2);
            (SsaStmtM::While(c2, b2, phis, lphis), m3)
        },
        StmtM::Return(e) => {
            let (e2, m1) = sc_expr(e, m);
            (SsaStmtM::Return(e2), m1)
        },
    }
}

pub open spec fn sc_block(b: Seq<StmtM>, m: VersionMap) -> (Seq<SsaStmtM>, VersionMap)
    decreases b,
{
    if b.len() == 0 {
        (Seq::empty(), m)
    } else {
        let (init, m1) = sc_block(b.drop_last(), m);
        let (last, m2) = sc_stmt(b.last(), m1);
        (init.push(last), m2)
    }
}

/// Parameters bind fresh versions, left to right.
pub open spec fn sc_params(ps: Seq<Seq<char>>, m: VersionMap) -> (Seq<Seq<char>>, VersionMap)
    decreases ps,
{
    if ps.len() == 0 {
        (Seq::empty(), m)
    } else {
        let (init, m1) = sc_params(ps.drop_last(), m);
        let o = ps.last();
        let nv = new_version(m1, o);
        (init.push(spec_versioned_name(o, nv as nat)), m1.insert(o, nv))
    }
}

pub open spec fn sc_funs(fs: Seq<FunDeclM>, m: VersionMap) -> (Seq<SsaFunM>, Seq<ExtM>, VersionMap)
    decreases fs,
{
    if fs.len() == 0 {
        (Seq::empty(), Seq::empty(), m)
    } else {
        let (ifs, efs, m1) = sc_funs(fs.drop_last(), m);
        match fs.last() {
            FunDeclM::Internal(n, ps, b) => {
                let (ps2, m2) = sc_params(ps, m1);
                let (b2, m3) = sc_block(b, m2);
                (ifs.push(SsaFunM { name: n, parameters: ps2, block: b2 }), efs, m3)
            },
            FunDeclM::External(e) => (ifs, efs.push(e), m1),
        }
    }
}

/// The whole conversion: one tracker shared across all functions, so
/// versioned names are unique over the entire program.
pub open spec fn sc_program(fs: Seq<FunDeclM>) -> SsaProgM {
    let (ifs, efs, _) = sc_funs(fs, VersionMap::empty());
    SsaProgM { functions: ifs, externals: efs }
}

// ------------------------------------------------------------------
// executable conversion

fn convert_expression(expression: &Expression, var_tracker: &mut VariableTracker) -> (r:
    Expression)
    ensures
        expr_m(r) == sc_expr(expr_m(*expression), old(var_tracker)@).0,
        final(var_tracker)@ == sc_expr(expr_m(*expression), old(var_tracker)@).1,
    decreases parser::expr_size(expr_m(*expression)),
{
    match expression {
        Expression::Number(n) => Expression::Number(*n),
        Expression::Variable(v) => Expression::Variable(var_tracker.get_current(v.as_str())),
        Expression::BinaryOperation(op, b) => {
            let l = convert_expression(&b.0, var_tracker);
            let r = convert_expression(&b.1, var_tracker);
            Expression::BinaryOperation(*op, Box::new((l, r)))
        },
        Expression::FunctionCall(fc) => {
            let ghost m0 = var_tracker@;
            let mut new_arguments: Vec<Expression> = Vec::new();
            let n = fc.arguments.len();
            let mut i: usize = 0;
            while i < n
                invariant
                    i <= n,
                    n == fc.arguments@.len(),
                    expr_m(*expression) == ExprM::Call(fc.name@, exprs_m(fc.arguments@)),
                    exprs_m(new_arguments@) == sc_exprs(
                        exprs_m(fc.arguments@.take(i as int)),
                        m0,
                    ).0,
                    var_tracker@ == sc_exprs(exprs_m(fc.arguments@.take(i as int)), m0).1,
                decreases n - i,
            {
                let ghost pre = fc.arguments@.take(i as int);
                let ghost na_pre = new_arguments@;
                proof {
                    parser::lemma_exprs_m_len(fc.arguments@);
                    assert(expr_m(fc.arguments@[i as int]) == exprs_m(fc.arguments@)[i as int]);
                    parser::lemma_exprs_size_elem(exprs_m(fc.arguments@), i as int);
                    assert(expr_m(*expression) == ExprM::Call(fc.name@, exprs_m(fc.arguments@)));
                    assert(parser::expr_size(expr_m(*expression)) == 1 + parser::exprs_size(
                        exprs_m(fc.arguments@),
                    ));
                    assert(parser::expr_size(expr_m(fc.arguments@[i as int]))
                        < parser::expr_size(expr_m(*expression)));
                }
                let arg = convert_expression(&fc.arguments[i], var_tracker);
                new_arguments.push(arg);
                proof {
                    assert(fc.arguments@.take(i + 1) =~= pre.push(fc.arguments@[i as int]));
                    assert(pre.push(fc.arguments@[i as int]).drop_last() =~= pre);
                    assert(exprs_m(pre).push(expr_m(fc.arguments@[i as int])).drop_last()
                        =~= exprs_m(pre));
                    assert(new_arguments@.drop_last() =~= na_pre);
                }
                i += 1;
            }
            proof {
                assert(fc.arguments@.take(n as int) =~= fc.arguments@);
            }
            Expression::FunctionCall(
                parser::FunctionCall { name: fc.name.clone(), arguments: new_arguments },
            )
        },
    }
}

/// The origin names assigned in the block that the tracker already knows;
/// the walk recurses into nested blocks and leaves the tracker unchanged.
fn get_assigned_variables_in_block(block: &parser::Block, var_tracker: &mut VariableTracker) -> (r:
    Vec<String>)
    ensures
        final(var_tracker)@ == old(var_tracker)@,
        str_views(r@) == sc_assigned(block_m(block@), old(var_tracker)@),
        forall|i: int|
            0 <= i < r@.len() ==> old(var_tracker)@.dom().contains((#[trigger] r@[i])@),
    decreases parser::block_size(block_m(block@)),
{
    let mut vars: Vec<String> = Vec::new();
    let n = block.len();
    let mut i: usize = 0;
    while i < n
        invariant
            i <= n,
            n == block@.len(),
            var_tracker@ == old(var_tracker)@,
            str_views(vars@) == sc_assigned(block_m(block@.take(i as int)), old(var_tracker)@),
        decreases n - i,
    {
        let ghost pre = block@.take(i as int);
        let ghost v_pre = vars@;
        proof {
            parser::lemma_block_m_len(block@);
            assert(stmt_m(block@[i as int]) == block_m(block@)[i as int]);
            parser::lemma_block_size_elem(block_m(block@), i as int);
        }
        match &block[i] {
            parser::Statement::Assignment(a) => {
                match var_tracker.get_current_optinal(a.variable_name.as_str()) {
                    Some(_) => {
                        vars.push(a.variable_name.clone());
                    },
                    None => (),
                }
            },
            parser::Statement::FunctionCall(_) => (),
            parser::Statement::IfStatement(s) => {
                let mut inner = get_assigned_variables_in_block(&s.block, var_tracker);
                vars.append(&mut inner);
            },
            parser::Statement::WhileLoop(l) => {
                let mut inner = get_assigned_variables_in_block(&l.block, var_tracker);
                vars.append(&mut inner);
            },
            parser::Statement::Return(_) => (),
        }
        proof {
            assert(block@.take(i + 1) =~= pre.push(block@[i as int]));
            assert(pre.push(block@[i as int]).drop_last() =~= pre);
            assert(block_m(pre).push(stmt_m(block@[i as int])).drop_last() =~= block_m(pre));
            assert(str_views(vars@) =~= sc_assigned(
                block_m(block@.take(i + 1)),
                old(var_tracker)@,
            ));
        }
        i += 1;
    }
    proof {
        assert(block@.take(n as int) =~= block@);
        lemma_sc_assigned_in_dom(block_m(block@), old(var_tracker)@);
        assert forall|i: int|
            0 <= i < vars@.len() implies old(var_tracker)@.dom().contains(
            (#[trigger] vars@[i])@,
        ) by {
            assert(str_views(vars@)[i] == vars@[i]@);
            assert(sc_assigned(block_m(block@), old(var_tracker)@)[i] == str_views(vars@)[i]);
        }
    }
    vars
}

/// The variables referenced in an expression, kept in first-occurrence
/// order without duplicates.
fn get_ref_vars_expression(expression: &Expression) -> (r: Vec<String>)
    ensures
        str_views(r@) == rv_expr(expr_m(*expression)),
    decreases parser::expr_size(expr_m(*expression)),
{
    let mut ref_vars: Vec<String> = Vec::new();
    match expression {
        Expression::Number(_) => {
            proof {
                assert(str_views(ref_vars@) =~= rv_expr(expr_m(*expression)));
            }
        },
        Expression::Variable(v) => {
            ref_vars.push(v.clone());
            proof {
                assert(str_views(ref_vars@) =~= rv_expr(expr_m(*expression)));
            }
        },
        Expression::BinaryOperation(_, b) => {
            let mut left = get_ref_vars_expression(&b.0);
            let mut right = get_ref_vars_expression(&b.1);
            ref_vars.append(&mut left);
            ref_vars.append(&mut right);
            proof {
                assert(str_views(ref_vars@) =~= rv_expr(expr_m(b.0)) + rv_expr(expr_m(b.1)));
            }
            ref_vars = dedup_names(ref_vars);
        },
        Expression::FunctionCall(fc) => {
            let n = fc.arguments.len();
            let mut i: usize = 0;
            while i < n
                invariant
                    i <= n,
                    n == fc.arguments@.len(),
                    expr_m(*expression) == ExprM::Call(fc.name@, exprs_m(fc.arguments@)),
                    str_views(ref_vars@) == rv_exprs(exprs_m(fc.arguments@.take(i as int))),
                decreases n - i,
            {
                let ghost pre = fc.arguments@.take(i as int);
                proof {
                    parser::lemma_exprs_m_len(fc.arguments@);
                    assert(expr_m(fc.arguments@[i as int]) == exprs_m(fc.arguments@)[i as int]);
                    parser::lemma_exprs_size_elem(exprs_m(fc.arguments@), i as int);
                    assert(expr_m(*expression) == ExprM::Call(fc.name@, exprs_m(fc.arguments@)));
                    assert(parser::expr_size(expr_m(*expression)) == 1 + parser::exprs_size(
                        exprs_m(fc.arguments@),
                    ));
                    assert(parser::expr_size(expr_m(fc.arguments@[i as int]))
                        < parser::expr_size(expr_m(*expression)));
                }
                let mut inner = get_ref_vars_expression(&fc.arguments[i]);
                ref_vars.append(&mut inner);
                proof {
                    assert(fc.arguments@.take(i + 1) =~= pre.push(fc.arguments@[i as int]));
                    assert(pre.push(fc.arguments@[i as int]).drop_last() =~= pre);
                    assert(exprs_m(pre).push(expr_m(fc.arguments@[i as int])).drop_last()
                        =~= exprs_m(pre));
                    assert(str_views(ref_vars@) =~= rv_exprs(
                        exprs_m(fc.arguments@.take(i + 1)),
                    ));
                }
                i += 1;
            }
            proof {
                assert(fc.arguments@.take(n as int) =~= fc.arguments@);
            }
            ref_vars = dedup_names(ref_vars);
        },
    }
    ref_vars
}

/// Whether some element of `v` has the view `s`.
fn contains_name(v: &Vec<String>, s: &String) -> (r: bool)
    ensures
        r == str_views(v@).contains(s@),
{
    let n = v.len();
    let mut i: usize = 0;
    while i < n
        invariant
            i <= n,
            n == v@.len(),
            forall|j: int| 0 <= j < i ==> str_views(v@)[j] != s@,
        decreases n - i,
    {
        if crate::names::str_eq(v[i].as_str(), s.as_str()) {
            assert(str_views(v@)[i as int] == s@);
            return true;
        }
        i += 1;
    }
    proof {
        if str_views(v@).contains(s@) {
            let j = choose|j: int| 0 <= j < str_views(v@).len() && str_views(v@)[j] == s@;
            assert(str_views(v@)[j] == s@);
        }
    }
    false
}

/// Keeps the first occurrence of each name.
fn dedup_names(v: Vec<String>) -> (r: Vec<String>)
    ensures
        str_views(r@) == seq_dedup(str_views(v@)),
{
    let mut out: Vec<String> = Vec::new();
    let n = v.len();
    let mut i: usize = 0;
    while i < n
        invariant
            i <= n,
            n == v@.len(),
            str_views(out@) == seq_dedup(str_views(v@.take(i as int))),
        decreases n - i,
    {
        let ghost pre = v@.take(i as int);
        if !contains_name(&out, &v[i]) {
            out.push(v[i].clone());
        }
        proof {
            assert(v@.take(i + 1) =~= pre.push(v@[i as int]));
            assert(str_views(pre.push(v@[i as int])).drop_last() =~= str_views(pre));
            assert(str_views(out@) =~= seq_dedup(str_views(v@.take(i + 1))));
        }
        i += 1;
    }
    proof {
        assert(v@.take(n as int) =~= v@);
    }
    out
}

/// The current versioned names of all of `avs`, which must all be known to
/// the tracker; the tracker is left unchanged.
fn current_names(avs: &Vec<String>, var_tracker: &mut VariableTracker) -> (r: Vec<String>)
    requires
        forall|i: int|
            0 <= i < avs@.len() ==> old(var_tracker)@.dom().contains(
                (#[trigger] avs@[i])@,
            ),
    ensures
        final(var_tracker)@ == old(var_tracker)@,
        r@.len() == avs@.len(),
        str_views(r@) == cur_names(str_views(avs@), old(var_tracker)@),
{
    let mut out: Vec<String> = Vec::new();
    let n = avs.len();
    let mut i: usize = 0;
    while i < n
        invariant
            i <= n,
            n == avs@.len(),
            out@.len() == i,
            var_tracker@ == old(var_tracker)@,
            forall|j: int|
                0 <= j < avs@.len() ==> old(var_tracker)@.dom().contains(
                    (#[trigger] avs@[j])@,
                ),
            str_views(out@) == cur_names(str_views(avs@), old(var_tracker)@).take(i as int),
        decreases n - i,
    {
        let name = var_tracker.get_current(avs[i].as_str());
        proof {
            assert(old(var_tracker)@.insert(avs@[i as int]@, cur_version(
                old(var_tracker)@,
                avs@[i as int]@,
            )) =~= old(var_tracker)@);
        }
        out.push(name);
        proof {
            assert(str_views(avs@)[i as int] == avs@[i as int]@);
            assert(cur_names(str_views(avs@), old(var_tracker)@)[i as int]
                == spec_versioned_name(
                avs@[i as int]@,
                cur_version(old(var_tracker)@, avs@[i as int]@) as nat,
            ));
            assert(str_views(out@) =~~= cur_names(str_views(avs@), old(var_tracker)@).take(
                i + 1,
            ));
        }
        i += 1;
    }
    proof {
        assert(cur_names(str_views(avs@), old(var_tracker)@).take(n as int) =~~= cur_names(
            str_views(avs@),
            old(var_tracker)@,
        ));
    }
    out
}

/// Builds the phi nodes (and, inside loops, the loop phis) for the
/// assigned variables.
fn build_phi_nodes(
    avs: &Vec<String>,
    outer: &Vec<String>,
    inner: &Vec<String>,
    cond_refs: &Vec<String>,
    use_refs: bool,
    var_tracker: &mut VariableTracker,
) -> (r: (Vec<PhiNode>, Vec<LoopPhiNode>))
    requires
        avs@.len() == outer@.len(),
        avs@.len() == inner@.len(),
    ensures
        ({
            let (ps, lps, m2) = sc_phis(
                str_views(avs@),
                str_views(outer@),
                str_views(inner@),
                str_views(cond_refs@),
                use_refs,
                old(var_tracker)@,
            );
            phis_m(r.0@) == ps && loop_phis_m(r.1@) == lps && final(var_tracker)@ == m2
        }),
{
    let mut phi_nodes: Vec<PhiNode> = Vec::new();
    let mut loop_phi_nodes: Vec<LoopPhiNode> = Vec::new();
    let n = avs.len();
    let mut i: usize = 0;
    while i < n
        invariant
            i <= n,
            n == avs@.len(),
            n == outer@.len(),
            n == inner@.len(),
            phi_nodes@.len() == i,
            ({
                let (ps, lps, m2) = sc_phis(
                    str_views(avs@.take(i as int)),
                    str_views(outer@.take(i as int)),
                    str_views(inner@.take(i as int)),
                    str_views(cond_refs@),
                    use_refs,
                    old(var_tracker)@,
                );
                phis_m(phi_nodes@) == ps && loop_phis_m(loop_phi_nodes@) == lps && var_tracker@
                    == m2
            }),
        decreases n - i,
    {
        let ghost pre_a = str_views(avs@.take(i as int));
        let ghost pre_o = str_views(outer@.take(i as int));
        let ghost pre_i = str_views(inner@.take(i as int));
        let ghost ph_pre = phi_nodes@;
        let ghost lp_pre = loop_phi_nodes@;
        let push_loop_phi = use_refs && contains_name(cond_refs, &outer[i]);
        if push_loop_phi {
            loop_phi_nodes.push(
                LoopPhiNode { condition_var: outer[i].clone(), inner_var: inner[i].clone() },
            );
        }
        let result_var = var_tracker.get_new(avs[i].as_str());
        phi_nodes.push(
            PhiNode {
                result_var,
                inner_option: inner[i].clone(),
                outer_option: outer[i].clone(),
            },
        );
        proof {
            assert(str_views(avs@.take(i + 1)) =~= pre_a.push(avs@[i as int]@));
            assert(str_views(outer@.take(i + 1)) =~= pre_o.push(outer@[i as int]@));
            assert(str_views(inner@.take(i + 1)) =~= pre_i.push(inner@[i as int]@));
            assert(pre_a.push(avs@[i as int]@).drop_last() =~= pre_a);
            assert(pre_o.push(outer@[i as int]@).drop_last() =~= pre_o);
            assert(pre_i.push(inner@[i as int]@).drop_last() =~= pre_i);
            assert(phis_m(phi_nodes@) =~= phis_m(ph_pre).push(phi_m(phi_nodes@.last())));
            if push_loop_phi {
                assert(loop_phis_m(loop_phi_nodes@) =~= loop_phis_m(lp_pre).push(
                    loop_phi_m(loop_phi_nodes@.last()),
                ));
            }
        }
        i += 1;
    }
    proof {
        assert(str_views(avs@.take(n as int)) =~= str_views(avs@));
        assert(str_views(outer@.take(n as int)) =~= str_views(outer@));
        assert(str_views(inner@.take(n as int)) =~= str_views(inner@));
    }
    (phi_nodes, loop_phi_nodes)
}

fn convert_block(block: &parser::Block, var_tracker: &mut VariableTracker) -> (r: SsaBlock)
    ensures
        ssa_block_m(r@) == sc_block(block_m(block@), old(var_tracker)@).0,
        final(var_tracker)@ == sc_block(block_m(block@), old(var_tracker)@).1,
    decreases parser::block_size(block_m(block@)),
{
    let ghost m0 = var_tracker@;
    let mut new_block: Vec<SsaStatement> = Vec::new();
    let n = block.len();
    let mut i: usize = 0;
    while i < n
        invariant
            i <= n,
            n == block@.len(),
            ssa_block_m(new_block@) == sc_block(block_m(block@.take(i as int)), m0).0,
            var_tracker@ == sc_block(block_m(block@.take(i as int)), m0).1,
        decreases n - i,
    {
        let ghost pre = block@.take(i as int);
        let ghost m_in = var_tracker@;
        proof {
            parser::lemma_block_m_len(block@);
            assert(stmt_m(block@[i as int]) == block_m(block@)[i as int]);
            parser::lemma_block_size_elem(block_m(block@), i as int);
        }
        let stmt = match &block[i] {
            parser::Statement::Assignment(a) => {
                let new_inner = convert_expression(&a.expression, var_tracker);
                let new_var = var_tracker.get_new(a.variable_name.as_str());
                SsaStatement::Assignment(
                    SsaAssignment { variable_name: new_var, expression: new_inner },
                )
            },
            parser::Statement::FunctionCall(f) => {
                let ghost mc = var_tracker@;
                let mut new_args: Vec<Expression> = Vec::new();
                let k = f.arguments.len();
                let mut j: usize = 0;
                while j < k
                    invariant
                        j <= k,
                        k == f.arguments@.len(),
                        exprs_m(new_args@) == sc_exprs(
                            exprs_m(f.arguments@.take(j as int)),
                            mc,
                        ).0,
                        var_tracker@ == sc_exprs(exprs_m(f.arguments@.take(j as int)), mc).1,
                    decreases k - j,
                {
                    let ghost prea = f.arguments@.take(j as int);
                    let ghost na_pre = new_args@;
                    proof {
                        parser::lemma_exprs_m_len(f.arguments@);
                        assert(expr_m(f.arguments@[j as int]) == exprs_m(f.arguments@)[j as int]);
                        parser::lemma_exprs_size_elem(exprs_m(f.arguments@), j as int);
                    }
                    let arg = convert_expression(&f.arguments[j], var_tracker);
                    new_args.push(arg);
                    proof {
                        assert(f.arguments@.take(j + 1) =~= prea.push(f.arguments@[j as int]));
                        assert(prea.push(f.arguments@[j as int]).drop_last() =~= prea);
                        assert(exprs_m(prea).push(expr_m(f.arguments@[j as int])).drop_last()
                            =~= exprs_m(prea));
                        assert(new_args@.drop_last() =~= na_pre);
                    }
                    j += 1;
                }
                proof {
                    assert(f.arguments@.take(k as int) =~= f.arguments@);
                }
                SsaStatement::FunctionCall(
                    SsaFunctionCall { name: f.name.clone(), arguments: new_args },
                )
            },
            parser::Statement::IfStatement(s) => {
                let new_condition = convert_expression(&s.condition, var_tracker);
                let ghost m1 = var_tracker@;
                let assigned_vars = get_assigned_variables_in_block(&s.block, var_tracker);
                let outer_var_names = current_names(&assigned_vars, var_tracker);
                let new_inner_block = convert_block(&s.block, var_tracker);
                proof {
                    lemma_sc_block_dom(block_m(s.block@), m1);
                    assert forall|idx: int|
                        0 <= idx < assigned_vars@.len() implies var_tracker@.dom().contains(
                        (#[trigger] assigned_vars@[idx])@,
                    ) by {
                        assert(m1.dom().contains(assigned_vars@[idx]@));
                        assert(m1.dom().subset_of(var_tracker@.dom()));
                    }
                }
                let inner_var_names = current_names(&assigned_vars, var_tracker);
                let empty_refs: Vec<String> = Vec::new();
                proof {
                    assert(str_views(empty_refs@) =~~= Seq::<Seq<char>>::empty());
                }
                let (phi_nodes, _) = build_phi_nodes(
                    &assigned_vars,
                    &outer_var_names,
                    &inner_var_names,
                    &empty_refs,
                    false,
                    var_tracker,
                );
                SsaStatement::IfStatement(
                    SsaIfStatement { condition: new_condition, block: new_inner_block },
                    phi_nodes,
                )
            },
            parser::Statement::WhileLoop(l) => {
                let new_condition = convert_expression(&l.condition, var_tracker);
                let ghost m1 = var_tracker@;
                let assigned_vars = get_assigned_variables_in_block(&l.block, var_tracker);
                let outer_var_names = current_names(&assigned_vars, var_tracker);
                let new_inner_block = convert_block(&l.block, var_tracker);
                proof {
                    lemma_sc_block_dom(block_m(l.block@), m1);
                    assert forall|idx: int|
                        0 <= idx < assigned_vars@.len() implies var_tracker@.dom().contains(
                        (#[trigger] assigned_vars@[idx])@,
                    ) by {
                        assert(m1.dom().contains(assigned_vars@[idx]@));
                        assert(m1.dom().subset_of(var_tracker@.dom()));
                    }
                }
                let inner_var_names = current_names(&assigned_vars, var_tracker);
                let ref_vars_condition = get_ref_vars_expression(&new_condition);
                let (phi_nodes, loop_phi_nodes) = build_phi_nodes(
                    &assigned_vars,
                    &outer_var_names,
                    &inner_var_names,
                    &ref_vars_condition,
                    true,
                    var_tracker,
                );
                SsaStatement::WhileLoop(
                    SsaWhileLoop { condition: new_condition, block: new_inner_block },
                    phi_nodes,
                    loop_phi_nodes,
                )
            },
            parser::Statement::Return(e) => {
                let expr = convert_expression(e, var_tracker);
                SsaStatement::Return(expr)
            },
        };
        proof {
            assert(ssa_stmt_m(stmt) == sc_stmt(stmt_m(block@[i as int]), m_in).0);
            assert(var_tracker@ == sc_stmt(stmt_m(block@[i as int]), m_in).1);
        }
        let ghost nb_pre = new_block@;
        new_block.push(stmt);
        proof {
            assert(block@.take(i + 1) =~= pre.push(block@[i as int]));
            assert(pre.push(block@[i as int]).drop_last() =~= pre);
            assert(block_m(pre).push(stmt_m(block@[i as int])).drop_last() =~= block_m(pre));
            assert(new_block@.drop_last() =~= nb_pre);
        }
        i += 1;
    }
    proof {
        assert(block@.take(n as int) =~= block@);
    }
    new_block
}

/// Every name that `sc_assigned` collects is in the tracker's domain.
pub proof fn lemma_sc_assigned_in_dom(b: Seq<StmtM>, m: VersionMap)
    ensures
        forall|i: int|
            0 <= i < sc_assigned(b, m).len() ==> m.dom().contains(
                #[trigger] sc_assigned(b, m)[i],
            ),
    decreases b,
{
    if b.len() > 0 {
        lemma_sc_assigned_in_dom(b.drop_last(), m);
        let head = sc_assigned(b.drop_last(), m);
        match b.last() {
            StmtM::If(_, bb) => {
                lemma_sc_assigned_in_dom(bb, m);
            },
            StmtM::While(_, bb) => {
                lemma_sc_assigned_in_dom(bb, m);
            },
            _ => (),
        }
        assert forall|i: int|
            0 <= i < sc_assigned(b, m).len() implies m.dom().contains(
            #[trigger] sc_assigned(b, m)[i],
        ) by {
            if i < head.len() {
                assert(sc_assigned(b, m)[i] == head[i]);
            } else {
                match b.last() {
                    StmtM::Assign(x, _) => {
                        assert(sc_assigned(b, m)[i] == x);
                    },
                    StmtM::If(_, bb) => {
                        assert(sc_assigned(b, m)[i] == sc_assigned(bb, m)[i - head.len()]);
                    },
                    StmtM::While(_, bb) => {
                        assert(sc_assigned(b, m)[i] == sc_assigned(bb, m)[i - head.len()]);
                    },
                    _ => (),
                }
            }
        }
    }
}

pub proof fn lemma_str_views_len(s: Seq<String>)
    ensures
        str_views(s).len() == s.len(),
        forall|i: int| 0 <= i < s.len() ==> str_views(s)[i] == (#[trigger] s[i])@,
{
}

// The tracker's domain only grows during conversion.
proof fn lemma_sc_expr_dom(e: ExprM, m: VersionMap)
    ensures
        m.dom().subset_of(sc_expr(e, m).1.dom()),
    decreases e,
{
    match e {
        ExprM::Number(_) => (),
        ExprM::Variable(_) => (),
        ExprM::Binary(_, b) => {
            lemma_sc_expr_dom(b.0, m);
            lemma_sc_expr_dom(b.1, sc_expr(b.0, m).1);
        },
        ExprM::Call(_, args) => {
            lemma_sc_exprs_dom(args, m);
        },
    }
}

proof fn lemma_sc_exprs_dom(s: Seq<ExprM>, m: VersionMap)
    ensures
        m.dom().subset_of(sc_exprs(s, m).1.dom()),
    decreases s,
{
    if s.len() > 0 {
        lemma_sc_exprs_dom(s.drop_last(), m);
        lemma_sc_expr_dom(s.last(), sc_exprs(s.drop_last(), m).1);
    }
}

proof fn lemma_sc_phis_dom(
    avs: Seq<Seq<char>>,
    outs: Seq<Seq<char>>,
    ins: Seq<Seq<char>>,
    refs: Seq<Seq<char>>,
    use_refs: bool,
    m: VersionMap,
)
    ensures
        m.dom().subset_of(sc_phis(avs, outs, ins, refs, use_refs, m).2.dom()),
    decreases avs,
{
    if avs.len() > 0 {
        lemma_sc_phis_dom(avs.drop_last(), outs.drop_last(), ins.drop_last(), refs, use_refs, m);
    }
}

proof fn lemma_sc_stmt_dom(s: StmtM, m: VersionMap)
    ensures
        m.dom().subset_of(sc_stmt(s, m).1.dom()),
    decreases s,
{
    match s {
        StmtM::Assign(x, e) => {
            lemma_sc_expr_dom(e, m);
        },
        StmtM::Call(_, args) => {
            lemma_sc_exprs_dom(args, m);
        },
        StmtM::If(c, b) => {
            lemma_sc_expr_dom(c, m);
            let m1 = sc_expr(c, m).1;
            let avs = sc_assigned(b, m1);
            lemma_sc_block_dom(b, m1);
            let m2 = sc_block(b, m1).1;
            lemma_sc_phis_dom(avs, cur_names(avs, m1), cur_names(avs, m2), Seq::empty(), false, m2);
        },
        StmtM::While(c, b) => {
            lemma_sc_expr_dom(c, m);
            let m1 = sc_expr(c, m).1;
            let avs = sc_assigned(b, m1);
            lemma_sc_block_dom(b, m1);
            let m2 = sc_block(b, m1).1;
            lemma_sc_phis_dom(
                avs,
                cur_names(avs, m1),
                cur_names(avs, m2),
                rv_expr(sc_expr(c, m).0),
                true,
                m2,
            );
        },
        StmtM::Return(e) => {
            lemma_sc_expr_dom(e, m);
        },
    }
}

pub proof fn lemma_sc_block_dom(b: Seq<StmtM>, m: VersionMap)
    ensures
        m.dom().subset_of(sc_block(b, m).1.dom()),
    decreases b,
{
    if b.len() > 0 {
        lemma_sc_block_dom(b.drop_last(), m);
        lemma_sc_stmt_dom(b.last(), sc_block(b.drop_last(), m).1);
    }
}

/// Fresh versioned parameter names for an internal function.
fn bind_parameters(parameters: &Vec<String>, var_tracker: &mut VariableTracker) -> (r: Vec<String>)
    ensures
        str_views(r@) == sc_params(str_views(parameters@), old(var_tracker)@).0,
        final(var_tracker)@ == sc_params(str_views(parameters@), old(var_tracker)@).1,
{
    let ghost m0 = var_tracker@;
    let mut out: Vec<String> = Vec::new();
    let n = parameters.len();
    let mut i: usize = 0;
    while i < n
        invariant
            i <= n,
            n == parameters@.len(),
            out@.len() == i,
            str_views(out@) == sc_params(str_views(parameters@.take(i as int)), m0).0,
            var_tracker@ == sc_params(str_views(parameters@.take(i as int)), m0).1,
        decreases n - i,
    {
        let ghost pre = str_views(parameters@.take(i as int));
        let ghost o_pre = str_views(out@);
        let name = var_tracker.get_new(parameters[i].as_str());
        out.push(name);
        proof {
            assert(str_views(parameters@.take(i + 1)) =~= pre.push(parameters@[i as int]@));
            assert(pre.push(parameters@[i as int]@).drop_last() =~= pre);
            assert(str_views(out@) =~= o_pre.push(out@.last()@));
        }
        i += 1;
    }
    proof {
        assert(str_views(parameters@.take(n as int)) =~= str_views(parameters@));
    }
    out
}

/// A structural copy of an external function entry.
fn clone_external(f: &ExternalFunction) -> (r: ExternalFunction)
    ensures
        ext_m(r) == ext_m(*f),
{
    let mut parameters: Vec<String> = Vec::new();
    let n = f.parameters.len();
    let mut i: usize = 0;
    while i < n
        invariant
            i <= n,
            n == f.parameters@.len(),
            parameters@.len() == i,
            str_views(parameters@) == str_views(f.parameters@).take(i as int),
        decreases n - i,
    {
        parameters.push(f.parameters[i].clone());
        proof {
            assert(str_views(parameters@) =~~= str_views(f.parameters@).take(i + 1));
        }
        i += 1;
    }
    proof {
        assert(str_views(f.parameters@).take(n as int) =~~= str_views(f.parameters@));
    }
    ExternalFunction { name: f.name.clone(), parameters, address: f.address }
}

/// Converts a whole program to single-assignment form; one tracker is
/// shared across all functions, so versions never repeat between functions.
pub fn convert(program: &parser::Program) -> (r: SsaProgram)
    ensures
        ssa_prog_m(r) == sc_program(prog_m(*program)),
{
    let mut new_function: Vec<SsaFunction> = Vec::new();
    let mut ext_function: Vec<ExternalFunction> = Vec::new();
    let mut var_tracker = VariableTracker::new();
    let n = program.functions.len();
    let mut i: usize = 0;
    while i < n
        invariant
            i <= n,
            n == program.functions@.len(),
            ({
                let (ifs, efs, m) = sc_funs(
                    prog_m(*program).take(i as int),
                    VersionMap::empty(),
                );
                ssa_funs_m(new_function@) == ifs && exts_m(ext_function@) == efs && var_tracker@
                    == m
            }),
        decreases n - i,
    {
        let ghost pre = prog_m(*program).take(i as int);
        let ghost nf_pre = new_function@;
        let ghost ef_pre = ext_function@;
        match &program.functions[i] {
            parser::Function::Internal(f) => {
                let new_parameters = bind_parameters(&f.parameters, &mut var_tracker);
                let new_block = convert_block(&f.block, &mut var_tracker);
                new_function.push(
                    SsaFunction {
                        name: f.name.clone(),
                        parameters: new_parameters,
                        block: new_block,
                    },
                );
            },
            parser::Function::External(f) => {
                ext_function.push(clone_external(f));
            },
        }
        proof {
            assert(prog_m(*program).take(i + 1) =~= pre.push(
                fun_decl_m(program.functions@[i as int]),
            ));
            assert(pre.push(fun_decl_m(program.functions@[i as int])).drop_last() =~= pre);
            match program.functions@[i as int] {
                parser::Function::Internal(_) => {
                    assert(ssa_funs_m(new_function@) =~= ssa_funs_m(nf_pre).push(
                        ssa_fun_m(new_function@.last()),
                    ));
                },
                parser::Function::External(_) => {
                    assert(exts_m(ext_function@) =~= exts_m(ef_pre).push(
                        ext_m(ext_function@.last()),
                    ));
                },
            }
        }
        i += 1;
    }
    proof {
        assert(prog_m(*program).take(n as int) =~= prog_m(*program));
    }
    SsaProgram { functions: new_function, external_functions: ext_function }
}

} // verus!
