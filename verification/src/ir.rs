//! Lowering of the single-assignment tree to a flat three-address
//! intermediate representation.
//!
//! Expressions lower to instructions whose results land in fresh
//! temporaries `#var_<k>`; control flow flattens to labels `#label_<k>`
//! with explicit jumps.  Phi nodes are not kept: each incoming edge of a
//! join gets an explicit copy instead.  A `while` loop lowers its condition
//! twice — once for the initial test and once at the back edge — and each
//! loop phi writes the condition's variable at the end of an iteration, so
//! the re-read condition observes the updated value; a `KeepAlive` marker
//! then keeps that variable's location stable through the loop body.
//!
//! The whole lowering is specified by a functional mirror (`t_block` and
//! friends); `transform` is proved to return exactly the mirror's value.

use vstd::prelude::*;
use crate::parser::{self, Expression, ExprM, BinaryOperator, exprs_m, expr_m};
use crate::ssa::{
    self, bump, SsaStatement, SsaFunction, PhiNode, LoopPhiNode, PhiM, LoopPhiM, SsaStmtM,
    ssa_stmt_m, ssa_block_m, phis_m, loop_phis_m, ssa_stmt_size, ssa_block_size,
    lemma_ssa_block_m_len, lemma_ssa_block_size_elem,
};
use crate::names::{spec_temp_name, spec_label_name, temp_name, label_name};

verus! {

pub type Label = String;

pub type Function = String;

pub type ResultVariable = String;

pub type Arguments = Vec<Data>;

/// Source of the fresh temporary and label names, numbered from 1.
pub struct NameFactory {
    count_label: u64,
    count_var: u64,
}

impl NameFactory {
    /// The number of labels handed out so far.
    pub closed spec fn lc(&self) -> u64 {
        self.count_label
    }

    /// The number of temporaries handed out so far.
    pub closed spec fn vc(&self) -> u64 {
        self.count_var
    }

    pub fn new() -> (r: Self)
        ensures
            r.lc() == 0,
            r.vc() == 0,
    {
        NameFactory { count_label: 0, count_var: 0 }
    }

    pub fn get_label(&mut self) -> (r: String)
        ensures
            final(self).lc() == bump(old(self).lc()),
            final(self).vc() == old(self).vc(),
            r@ == spec_label_name(bump(old(self).lc()) as nat),
    {
        if self.count_label < u64::MAX {
            self.count_label = self.count_label + 1;
        }
        label_name(self.count_label)
    }

    pub fn get_variable(&mut self) -> (r: String)
        ensures
            final(self).lc() == old(self).lc(),
            final(self).vc() == bump(old(self).vc()),
            r@ == spec_temp_name(bump(old(self).vc()) as nat),
    {
        if self.count_var < u64::MAX {
            self.count_var = self.count_var + 1;
        }
        temp_name(self.count_var)
    }
}

#[derive(Debug, PartialEq)]
pub enum Data {
    Variable(String),
    Number(i64),
}

#[derive(Debug, PartialEq)]
pub enum IrInstruction {
    Jump(Label),
    JumpFalse(Data, Label),
    Label(String),
    FunctionCall(ResultVariable, Function, Arguments),
    BinaryOperation(BinaryOperator, ResultVariable, Data, Data),
    Assignment(ResultVariable, Data),
    Return(Data),
    KeepAlive(String),
}

// ------------------------------------------------------------------
// models

pub enum DataM {
    Num(i64),
    Var(Seq<char>),
}

pub enum IrM {
    Jump(Seq<char>),
    JumpFalse(DataM, Seq<char>),
    Label(Seq<char>),
    Call(Seq<char>, Seq<char>, Seq<DataM>),
    Bin(BinaryOperator, Seq<char>, DataM, DataM),
    Assign(Seq<char>, DataM),
    Return(DataM),
    KeepAlive(Seq<char>),
}

pub open spec fn data_m(d: Data) -> DataM {
    match d {
        Data::Variable(v) => DataM::Var(v@),
        Data::Number(n) => DataM::Num(n),
    }
}

pub open spec fn datas_m(s: Seq<Data>) -> Seq<DataM> {
    s.map_values(|d: Data| data_m(d))
}

pub open spec fn ir_m(i: IrInstruction) -> IrM {
    match i {
        IrInstruction::Jump(l) => IrM::Jump(l@),
        IrInstruction::JumpFalse(d, l) => IrM::JumpFalse(data_m(d), l@),
        IrInstruction::Label(l) => IrM::Label(l@),
        IrInstruction::FunctionCall(r, f, args) => IrM::Call(r@, f@, datas_m(args@)),
        IrInstruction::BinaryOperation(op, r, d1, d2) => IrM::Bin(op, r@, data_m(d1), data_m(d2)),
        IrInstruction::Assignment(r, d) => IrM::Assign(r@, data_m(d)),
        IrInstruction::Return(d) => IrM::Return(data_m(d)),
        IrInstruction::KeepAlive(v) => IrM::KeepAlive(v@),
    }
}

pub open spec fn irs_m(s: Seq<IrInstruction>) -> Seq<IrM> {
    s.map_values(|i: IrInstruction| ir_m(i))
}

pub proof fn lemma_irs_m_concat(a: Seq<IrInstruction>, b: Seq<IrInstruction>)
    ensures
        irs_m(a + b) == irs_m(a) + irs_m(b),
{
    assert(irs_m(a + b) =~= irs_m(a) + irs_m(b));
}

// ------------------------------------------------------------------
// the functional mirror of the lowering

/// Lowering of one expression: hands back the datum that holds its value,
/// the instructions computing it, and the factory counters afterwards.
/// Every expression node consumes one temporary number up front, whether
/// or not its name is used; a call consumes a second one for its result.
pub open spec fn t_expr(e: ExprM, lc: u64, vc: u64) -> (DataM, Seq<IrM>, u64, u64)
    decreases e,
{
    let vc1 = bump(vc);
    let res = spec_temp_name(vc1 as nat);
    match e {
        ExprM::Number(n) => (DataM::Num(n), Seq::empty(), lc, vc1),
        ExprM::Variable(v) => (DataM::Var(v), Seq::empty(), lc, vc1),
        ExprM::Binary(op, b) => {
            let (dl, il, lc1, vc2) = t_expr(b.0, lc, vc1);
            let (dr, ir, lc2, vc3) = t_expr(b.1, lc1, vc2);
            (DataM::Var(res), il + ir + seq![IrM::Bin(op, res, dl, dr)], lc2, vc3)
        },
        ExprM::Call(f, args) => {
            let vc2 = bump(vc1);
            let res2 = spec_temp_name(vc2 as nat);
            let (ds, instrs, lc1, vc3) = t_exprs(args, lc, vc2);
            (DataM::Var(res2), instrs + seq![IrM::Call(res2, f, ds)], lc1, vc3)
        },
    }
}

pub open spec fn t_exprs(s: Seq<ExprM>, lc: u64, vc: u64) -> (Seq<DataM>, Seq<IrM>, u64, u64)
    decreases s,
{
    if s.len() == 0 {
        (Seq::empty(), Seq::empty(), lc, vc)
    } else {
        let (ds, irs, lc1, vc1) = t_exprs(s.drop_last(), lc, vc);
        let (d, ir, lc2, vc2) = t_expr(s.last(), lc1, vc1);
        (ds.push(d), irs + ir, lc2, vc2)
    }
}

/// The copies a join's phi nodes place on the edge that ran the block.
pub open spec fn phi_assigns_inner(phis: Seq<PhiM>) -> Seq<IrM> {
    phis.map_values(|p: PhiM| IrM::Assign(p.result, DataM::Var(p.inner)))
}

/// The copies a join's phi nodes place on the edge that skipped the block.
pub open spec fn phi_assigns_outer(phis: Seq<PhiM>) -> Seq<IrM> {
    phis.map_values(|p: PhiM| IrM::Assign(p.result, DataM::Var(p.outer)))
}

/// The copies seeding a loop's inner versions before the first iteration.
pub open spec fn phi_seed_assigns(phis: Seq<PhiM>) -> Seq<IrM> {
    phis.map_values(|p: PhiM| IrM::Assign(p.inner, DataM::Var(p.outer)))
}

/// The end-of-iteration writes for the loop phis: the condition's variable
/// receives the value computed by the body, and a `KeepAlive` pins its
/// location for the whole loop.
pub open spec fn loop_phi_assigns(lps: Seq<LoopPhiM>) -> Seq<IrM>
    decreases lps,
{
    if lps.len() == 0 {
        Seq::empty()
    } else {
        loop_phi_assigns(lps.drop_last()) + seq![
            IrM::Assign(lps.last().cond_var, DataM::Var(lps.last().inner_var)),
            IrM::KeepAlive(lps.last().cond_var),
        ]
    }
}

pub open spec fn t_stmt(s: SsaStmtM, lc: u64, vc: u64) -> (Seq<IrM>, u64, u64)
    decreases s,
{
    match s {
        SsaStmtM::Assign(x, e) => {
            let (d, irs, lc1, vc1) = t_expr(e, lc, vc);
            (irs + seq![IrM::Assign(x, d)], lc1, vc1)
        },
        SsaStmtM::Call(f, args) => {
            let (ds, irs, lc1, vc1) = t_exprs(args, lc, vc);
            let vc2 = bump(vc1);
            (irs + seq![IrM::Call(spec_temp_name(vc2 as nat), f, ds)], lc1, vc2)
        },
        SsaStmtM::If(c, b, phis) => {
            let (d, ci, lc1, vc1) = t_expr(c, lc, vc);
            let fl = spec_label_name(bump(lc1) as nat);
            let tl = spec_label_name(bump(bump(lc1)) as nat);
            let (bi, lc2, vc2) = t_block(b, bump(bump(lc1)), vc1);
            (
                ci + seq![IrM::JumpFalse(d, fl)] + bi + phi_assigns_inner(phis) + seq![
                    IrM::Jump(tl),
                    IrM::Label(fl),
                ] + phi_assigns_outer(phis) + seq![IrM::Label(tl)],
                lc2,
                vc2,
            )
        },
        SsaStmtM::While(c, b, phis, lphis) => {
            let start = spec_label_name(bump(lc) as nat);
            let endl = spec_label_name(bump(bump(lc)) as nat);
            let initf = spec_label_name(bump(bump(bump(lc))) as nat);
            let inner = spec_label_name(bump(bump(bump(bump(lc)))) as nat);
            let total = spec_label_name(bump(bump(bump(bump(bump(lc))))) as nat);
            let (d, ci, lc1, vc1) = t_expr(c, bump(bump(bump(bump(bump(lc))))), vc);
            let (bi, lc2, vc2) = t_block(b, lc1, vc1);
            (
                ci + seq![IrM::JumpFalse(d, initf)] + phi_seed_assigns(phis) + seq![
                    IrM::Jump(inner),
                    IrM::Label(start),
                ] + ci + seq![IrM::JumpFalse(d, endl), IrM::Label(inner)] + bi
                    + loop_phi_assigns(lphis) + seq![IrM::Jump(start), IrM::Label(initf)]
                    + phi_assigns_outer(phis) + seq![IrM::Jump(total), IrM::Label(endl)]
                    + phi_assigns_inner(phis) + seq![IrM::Label(total)],
                lc2,
                vc2,
            )
        },
        SsaStmtM::Return(e) => {
            let (d, irs, lc1, vc1) = t_expr(e, lc, vc);
            (irs + seq![IrM::Return(d)], lc1, vc1)
        },
    }
}

pub open spec fn t_block(b: Seq<SsaStmtM>, lc: u64, vc: u64) -> (Seq<IrM>, u64, u64)
    decreases b,
{
    if b.len() == 0 {
        (Seq::empty(), lc, vc)
    } else {
        let (irs, lc1, vc1) = t_block(b.drop_last(), lc, vc);
        let (ir, lc2, vc2) = t_stmt(b.last(), lc1, vc1);
        (irs + ir, lc2, vc2)
    }
}

// ------------------------------------------------------------------
// structural copies (the lowered condition of a loop is emitted twice)

fn clone_data(d: &Data) -> (r: Data)
    ensures
        data_m(r) == data_m(*d),
{
    match d {
        Data::Variable(v) => Data::Variable(v.clone()),
        Data::Number(n) => Data::Number(*n),
    }
}

fn clone_datas(v: &Vec<Data>) -> (r: Vec<Data>)
    ensures
        datas_m(r@) == datas_m(v@),
{
    let mut out: Vec<Data> = Vec::new();
    let n = v.len();
    let mut i: usize = 0;
    while i < n
        invariant
            i <= n,
            n == v@.len(),
            out@.len() == i,
            datas_m(out@) == datas_m(v@).take(i as int),
        decreases n - i,
    {
        out.push(clone_data(&v[i]));
        proof {
            assert(datas_m(out@) =~~= datas_m(v@).take(i + 1));
        }
        i += 1;
    }
    proof {
        assert(datas_m(v@).take(n as int) =~~= datas_m(v@));
    }
    out
}

fn clone_instruction(inst: &IrInstruction) -> (r: IrInstruction)
    ensures
        ir_m(r) == ir_m(*inst),
{
    match inst {
        IrInstruction::Jump(l) => IrInstruction::Jump(l.clone()),
        IrInstruction::JumpFalse(d, l) => IrInstruction::JumpFalse(clone_data(d), l.clone()),
        IrInstruction::Label(l) => IrInstruction::Label(l.clone()),
        IrInstruction::FunctionCall(r0, f, args) => IrInstruction::FunctionCall(
            r0.clone(),
            f.clone(),
            clone_datas(args),
        ),
        IrInstruction::BinaryOperation(op, r0, d1, d2) => IrInstruction::BinaryOperation(
            *op,
            r0.clone(),
            clone_data(d1),
            clone_data(d2),
        ),
        IrInstruction::Assignment(r0, d) => IrInstruction::Assignment(r0.clone(), clone_data(d)),
        IrInstruction::Return(d) => IrInstruction::Return(clone_data(d)),
        IrInstruction::KeepAlive(v) => IrInstruction::KeepAlive(v.clone()),
    }
}

fn clone_instructions(v: &Vec<IrInstruction>) -> (r: Vec<IrInstruction>)
    ensures
        irs_m(r@) == irs_m(v@),
{
    let mut out: Vec<IrInstruction> = Vec::new();
    let n = v.len();
    let mut i: usize = 0;
    while i < n
        invariant
            i <= n,
            n == v@.len(),
            out@.len() == i,
            irs_m(out@) == irs_m(v@).take(i as int),
        decreases n - i,
    {
        out.push(clone_instruction(&v[i]));
        proof {
            assert(irs_m(out@) =~~= irs_m(v@).take(i + 1));
        }
        i += 1;
    }
    proof {
        assert(irs_m(v@).take(n as int) =~~= irs_m(v@));
    }
    out
}

// ------------------------------------------------------------------
// executable lowering

/// Lowers both operands of a binary operation, in order.
pub fn handle_binary_expression(
    b: &Box<(Expression, Expression)>,
    name_factory: &mut NameFactory,
) -> (r: (Data, Data, Vec<IrInstruction>))
    ensures
        ({
            let (dl, il, lc1, vc1) = t_expr(expr_m(b.0), old(name_factory).lc(), old(
                name_factory,
            ).vc());
            let (dr, ir, lc2, vc2) = t_expr(expr_m(b.1), lc1, vc1);
            &&& data_m(r.0) == dl
            &&& data_m(r.1) == dr
            &&& irs_m(r.2@) == il + ir
            &&& final(name_factory).lc() == lc2
            &&& final(name_factory).vc() == vc2
        }),
{
    let (left_res, left_inst) = transform_expression(&b.0, name_factory);
    let (right_res, mut right_inst) = transform_expression(&b.1, name_factory);
    let mut instructions = left_inst;
    let ghost li = instructions@;
    instructions.append(&mut right_inst);
    proof {
        lemma_irs_m_concat(li, right_inst@);
    }
    (left_res, right_res, instructions)
}

/// Lowers one expression to three-address instructions.
fn transform_expression_impl(expression: &Expression, name_factory: &mut NameFactory) -> (r: (
    Data,
    Vec<IrInstruction>,
))
    ensures
        ({
            let (d, irs, lc2, vc2) = t_expr(expr_m(*expression), old(name_factory).lc(), old(
                name_factory,
            ).vc());
            &&& data_m(r.0) == d
            &&& irs_m(r.1@) == irs
            &&& final(name_factory).lc() == lc2
            &&& final(name_factory).vc() == vc2
        }),
    decreases parser::expr_size(expr_m(*expression)),
{
    let result = name_factory.get_variable();
    match expression {
        Expression::Number(n) => {
            proof {
                assert(irs_m(Seq::<IrInstruction>::empty()) =~= Seq::<IrM>::empty());
            }
            (Data::Number(*n), Vec::new())
        },
        Expression::Variable(v) => {
            proof {
                assert(irs_m(Seq::<IrInstruction>::empty()) =~= Seq::<IrM>::empty());
            }
            (Data::Variable(v.clone()), Vec::new())
        },
        Expression::BinaryOperation(op, b) => {
            let (left_res, left_inst) = transform_expression_impl(&b.0, name_factory);
            let (right_res, mut right_inst) = transform_expression_impl(&b.1, name_factory);
            let mut instructions = left_inst;
            let ghost li = instructions@;
            let ghost ri = right_inst@;
            instructions.append(&mut right_inst);
            proof {
                lemma_irs_m_concat(li, ri);
            }
            let ghost lr = instructions@;
            instructions.push(
                IrInstruction::BinaryOperation(
                    *op,
                    result.clone(),
                    clone_data(&left_res),
                    clone_data(&right_res),
                ),
            );
            proof {
                assert(irs_m(instructions@) =~= irs_m(lr).push(ir_m(instructions@.last())));
            }
            (Data::Variable(result), instructions)
        },
        Expression::FunctionCall(fc) => {
            let ghost lc0 = name_factory.lc();
            let ghost vc0 = name_factory.vc();
            let result = name_factory.get_variable();
            let mut instructions: Vec<IrInstruction> = Vec::new();
            let mut arguments: Vec<Data> = Vec::new();
            let n = fc.arguments.len();
            let mut i: usize = 0;
            while i < n
                invariant
                    i <= n,
                    n == fc.arguments@.len(),
                    expr_m(*expression) == ExprM::Call(fc.name@, exprs_m(fc.arguments@)),
                    ({
                        let (ds, irs, lc1, vc1) = t_exprs(
                            exprs_m(fc.arguments@.take(i as int)),
                            lc0,
                            bump(vc0),
                        );
                        &&& datas_m(arguments@) == ds
                        &&& irs_m(instructions@) == irs
                        &&& name_factory.lc() == lc1
                        &&& name_factory.vc() == vc1
                    }),
                decreases n - i,
            {
                let ghost pre = fc.arguments@.take(i as int);
                proof {
                    parser::lemma_exprs_m_len(fc.arguments@);
                    assert(expr_m(fc.arguments@[i as int]) == exprs_m(fc.arguments@)[i as int]);
                    parser::lemma_exprs_size_elem(exprs_m(fc.arguments@), i as int);
                }
                let (res_var, mut inst) = transform_expression_impl(
                    &fc.arguments[i],
                    name_factory,
                );
                arguments.push(res_var);
                let ghost ii = instructions@;
                instructions.append(&mut inst);
                proof {
                    lemma_irs_m_concat(ii, inst@);
                    assert(fc.arguments@.take(i + 1) =~= pre.push(fc.arguments@[i as int]));
                    assert(pre.push(fc.arguments@[i as int]).drop_last() =~= pre);
                    assert(exprs_m(pre).push(expr_m(fc.arguments@[i as int])).drop_last()
                        =~= exprs_m(pre));
                    assert(datas_m(arguments@).drop_last() =~= datas_m(
                        arguments@.drop_last(),
                    ));
                }
                i += 1;
            }
            proof {
                assert(fc.arguments@.take(n as int) =~= fc.arguments@);
            }
            let ghost before = instructions@;
            instructions.push(
                IrInstruction::FunctionCall(result.clone(), fc.name.clone(), arguments),
            );
            proof {
                assert(irs_m(instructions@) =~= irs_m(before).push(
                    ir_m(instructions@.last()),
                ));
            }
            (Data::Variable(result), instructions)
        },
    }
}

/// Lowers one expression; the factory numbers its temporaries.
pub fn transform_expression(expression: &Expression, name_factory: &mut NameFactory) -> (r: (
    Data,
    Vec<IrInstruction>,
))
    ensures
        ({
            let (d, irs, lc2, vc2) = t_expr(expr_m(*expression), old(name_factory).lc(), old(
                name_factory,
            ).vc());
            &&& data_m(r.0) == d
            &&& irs_m(r.1@) == irs
            &&& final(name_factory).lc() == lc2
            &&& final(name_factory).vc() == vc2
        }),
{
    transform_expression_impl(expression, name_factory)
}

/// The phi copies on one edge of a join: `result = inner` after the block
/// ran, `result = outer` when it was skipped.
fn emit_phi_assigns(phi_nodes: &Vec<PhiNode>, use_inner: bool) -> (r: Vec<IrInstruction>)
    ensures
        use_inner ==> irs_m(r@) == phi_assigns_inner(phis_m(phi_nodes@)),
        !use_inner ==> irs_m(r@) == phi_assigns_outer(phis_m(phi_nodes@)),
{
    let mut out: Vec<IrInstruction> = Vec::new();
    let n = phi_nodes.len();
    let mut i: usize = 0;
    while i < n
        invariant
            i <= n,
            n == phi_nodes@.len(),
            out@.len() == i,
            use_inner ==> irs_m(out@) == phi_assigns_inner(phis_m(phi_nodes@)).take(i as int),
            !use_inner ==> irs_m(out@) == phi_assigns_outer(phis_m(phi_nodes@)).take(i as int),
        decreases n - i,
    {
        let phi = &phi_nodes[i];
        if use_inner {
            out.push(
                IrInstruction::Assignment(
                    phi.result_var.clone(),
                    Data::Variable(phi.inner_option.clone()),
                ),
            );
            proof {
                assert(irs_m(out@) =~~= phi_assigns_inner(phis_m(phi_nodes@)).take(i + 1));
            }
        } else {
            out.push(
                IrInstruction::Assignment(
                    phi.result_var.clone(),
                    Data::Variable(phi.outer_option.clone()),
                ),
            );
            proof {
                assert(irs_m(out@) =~~= phi_assigns_outer(phis_m(phi_nodes@)).take(i + 1));
            }
        }
        i += 1;
    }
    proof {
        assert(phi_assigns_inner(phis_m(phi_nodes@)).take(n as int) =~~= phi_assigns_inner(
            phis_m(phi_nodes@),
        ));
        assert(phi_assigns_outer(phis_m(phi_nodes@)).take(n as int) =~~= phi_assigns_outer(
            phis_m(phi_nodes@),
        ));
    }
    out
}

/// The copies seeding a loop's inner versions before the first iteration.
fn emit_phi_seeds(phi_nodes: &Vec<PhiNode>) -> (r: Vec<IrInstruction>)
    ensures
        irs_m(r@) == phi_seed_assigns(phis_m(phi_nodes@)),
{
    let mut out: Vec<IrInstruction> = Vec::new();
    let n = phi_nodes.len();
    let mut i: usize = 0;
    while i < n
        invariant
            i <= n,
            n == phi_nodes@.len(),
            out@.len() == i,
            irs_m(out@) == phi_seed_assigns(phis_m(phi_nodes@)).take(i as int),
        decreases n - i,
    {
        let phi = &phi_nodes[i];
        out.push(
            IrInstruction::Assignment(
                phi.inner_option.clone(),
                Data::Variable(phi.outer_option.clone()),
            ),
        );
        proof {
            assert(irs_m(out@) =~~= phi_seed_assigns(phis_m(phi_nodes@)).take(i + 1));
        }
        i += 1;
    }
    proof {
        assert(phi_seed_assigns(phis_m(phi_nodes@)).take(n as int) =~~= phi_seed_assigns(
            phis_m(phi_nodes@),
        ));
    }
    out
}

/// The end-of-iteration writes for the loop phis.
fn emit_loop_phi_assigns(loop_phi_nodes: &Vec<LoopPhiNode>) -> (r: Vec<IrInstruction>)
    ensures
        irs_m(r@) == loop_phi_assigns(loop_phis_m(loop_phi_nodes@)),
{
    let mut out: Vec<IrInstruction> = Vec::new();
    let n = loop_phi_nodes.len();
    let mut i: usize = 0;
    while i < n
        invariant
            i <= n,
            n == loop_phi_nodes@.len(),
            irs_m(out@) == loop_phi_assigns(loop_phis_m(loop_phi_nodes@.take(i as int))),
        decreases n - i,
    {
        let ghost pre = loop_phi_nodes@.take(i as int);
        let lp = &loop_phi_nodes[i];
        out.push(
            IrInstruction::Assignment(
                lp.condition_var.clone(),
                Data::Variable(lp.inner_var.clone()),
            ),
        );
        out.push(IrInstruction::KeepAlive(lp.condition_var.clone()));
        proof {
            assert(loop_phi_nodes@.take(i + 1) =~= pre.push(loop_phi_nodes@[i as int]));
            assert(loop_phis_m(pre.push(loop_phi_nodes@[i as int])).drop_last() =~= loop_phis_m(
                pre,
            ));
            assert(irs_m(out@) =~~= loop_phi_assigns(
                loop_phis_m(loop_phi_nodes@.take(i + 1)),
            ));
        }
        i += 1;
    }
    proof {
        assert(loop_phi_nodes@.take(n as int) =~= loop_phi_nodes@);
    }
    out
}

/// Lowers `if`: test, block, then the phi copies on both edges.
pub fn transform_if_statement(
    if_statement: &ssa::SsaIfStatement,
    phi_nodes: &Vec<PhiNode>,
    name_factory: &mut NameFactory,
) -> (r: Vec<IrInstruction>)
    ensures
        ({
            let (irs, lc2, vc2) = t_stmt(
                SsaStmtM::If(
                    expr_m(if_statement.condition),
                    ssa_block_m(if_statement.block@),
                    phis_m(phi_nodes@),
                ),
                old(name_factory).lc(),
                old(name_factory).vc(),
            );
            &&& irs_m(r@) == irs
            &&& final(name_factory).lc() == lc2
            &&& final(name_factory).vc() == vc2
        }),
    decreases ssa_block_size(ssa_block_m(if_statement.block@)), 2int,
{
    let mut instructions: Vec<IrInstruction> = Vec::new();
    let (result, mut condition_ir) = transform_expression_impl(
        &if_statement.condition,
        name_factory,
    );
    let ghost e0 = instructions@;
    instructions.append(&mut condition_ir);
    proof {
        lemma_irs_m_concat(e0, condition_ir@);
        assert(irs_m(e0) =~= Seq::<IrM>::empty());
    }
    let false_if_label = name_factory.get_label();
    let true_if_label = name_factory.get_label();
    let ghost c1 = instructions@;
    instructions.push(IrInstruction::JumpFalse(result, false_if_label.clone()));
    proof {
        assert(irs_m(instructions@) =~= irs_m(c1).push(ir_m(instructions@.last())));
    }
    let mut block_ir = transform_block_impl(&if_statement.block, name_factory);
    let ghost c2 = instructions@;
    instructions.append(&mut block_ir);
    proof {
        lemma_irs_m_concat(c2, block_ir@);
    }
    let mut inner_phis = emit_phi_assigns(phi_nodes, true);
    let ghost c3 = instructions@;
    instructions.append(&mut inner_phis);
    proof {
        lemma_irs_m_concat(c3, inner_phis@);
    }
    let ghost c4 = instructions@;
    instructions.push(IrInstruction::Jump(true_if_label.clone()));
    instructions.push(IrInstruction::Label(false_if_label));
    proof {
        assert(irs_m(instructions@) =~= irs_m(c4).push(
            ir_m(instructions@[instructions@.len() - 2]),
        ).push(ir_m(instructions@.last())));
    }
    let mut outer_phis = emit_phi_assigns(phi_nodes, false);
    let ghost c5 = instructions@;
    instructions.append(&mut outer_phis);
    proof {
        lemma_irs_m_concat(c5, outer_phis@);
    }
    let ghost c6 = instructions@;
    instructions.push(IrInstruction::Label(true_if_label));
    proof {
        assert(irs_m(instructions@) =~= irs_m(c6).push(ir_m(instructions@.last())));
        assert(irs_m(instructions@) =~= t_stmt(
            SsaStmtM::If(
                expr_m(if_statement.condition),
                ssa_block_m(if_statement.block@),
                phis_m(phi_nodes@),
            ),
            old(name_factory).lc(),
            old(name_factory).vc(),
        ).0);
    }
    instructions
}

/// Lowers an assignment: the expression, then a copy into the target.
pub fn transform_assignment(
    assignment: &ssa::SsaAssignment,
    name_factory: &mut NameFactory,
) -> (r: Vec<IrInstruction>)
    ensures
        ({
            let (irs, lc2, vc2) = t_stmt(
                SsaStmtM::Assign(assignment.variable_name@, expr_m(assignment.expression)),
                old(name_factory).lc(),
                old(name_factory).vc(),
            );
            &&& irs_m(r@) == irs
            &&& final(name_factory).lc() == lc2
            &&& final(name_factory).vc() == vc2
        }),
{
    let (result, mut expression_ir) = transform_expression_impl(
        &assignment.expression,
        name_factory,
    );
    let mut instructions: Vec<IrInstruction> = Vec::new();
    let ghost e0 = instructions@;
    instructions.append(&mut expression_ir);
    proof {
        lemma_irs_m_concat(e0, expression_ir@);
        assert(irs_m(e0) =~= Seq::<IrM>::empty());
    }
    let ghost c1 = instructions@;
    instructions.push(IrInstruction::Assignment(assignment.variable_name.clone(), result));
    proof {
        assert(irs_m(instructions@) =~= irs_m(c1).push(ir_m(instructions@.last())));
    }
    instructions
}

/// Lowers `while`: the condition twice, the body, and the phi copies on
/// every edge of the loop.
pub fn transform_while_loop(
    while_loop: &ssa::SsaWhileLoop,
    phi_nodes: &Vec<PhiNode>,
    loop_phi_nodes: &Vec<LoopPhiNode>,
    name_factory: &mut NameFactory,
) -> (r: Vec<IrInstruction>)
    ensures
        ({
            let (irs, lc2, vc2) = t_stmt(
                SsaStmtM::While(
                    expr_m(while_loop.condition),
                    ssa_block_m(while_loop.block@),
                    phis_m(phi_nodes@),
                    loop_phis_m(loop_phi_nodes@),
                ),
                old(name_factory).lc(),
                old(name_factory).vc(),
            );
            &&& irs_m(r@) == irs
            &&& final(name_factory).lc() == lc2
            &&& final(name_factory).vc() == vc2
        }),
    decreases ssa_block_size(ssa_block_m(while_loop.block@)), 2int,
{
    let start_loop_label = name_factory.get_label();
    let end_loop_label = name_factory.get_label();
    let init_false_loop_label = name_factory.get_label();
    let inner_loop_label = name_factory.get_label();
    let total_end_label = name_factory.get_label();
    let (result, condition_ir) = transform_expression_impl(&while_loop.condition, name_factory);
    let mut instructions: Vec<IrInstruction> = Vec::new();
    let mut condition_copy = clone_instructions(&condition_ir);
    let ghost e0 = instructions@;
    instructions.append(&mut condition_copy);
    proof {
        lemma_irs_m_concat(e0, condition_ir@);
        assert(irs_m(e0) =~= Seq::<IrM>::empty());
    }
    let ghost c1 = instructions@;
    instructions.push(IrInstruction::JumpFalse(clone_data(&result), init_false_loop_label.clone()));
    proof {
        assert(irs_m(instructions@) =~= irs_m(c1).push(ir_m(instructions@.last())));
    }
    let mut seeds = emit_phi_seeds(phi_nodes);
    let ghost c2 = instructions@;
    instructions.append(&mut seeds);
    proof {
        lemma_irs_m_concat(c2, seeds@);
    }
    let ghost c3 = instructions@;
    instructions.push(IrInstruction::Jump(inner_loop_label.clone()));
    instructions.push(IrInstruction::Label(start_loop_label.clone()));
    proof {
        assert(irs_m(instructions@) =~= irs_m(c3).push(
            ir_m(instructions@[instructions@.len() - 2]),
        ).push(ir_m(instructions@.last())));
    }
    let mut condition_again = condition_ir;
    let ghost c4 = instructions@;
    instructions.append(&mut condition_again);
    proof {
        lemma_irs_m_concat(c4, condition_again@);
    }
    let ghost c5 = instructions@;
    instructions.push(IrInstruction::JumpFalse(result, end_loop_label.clone()));
    instructions.push(IrInstruction::Label(inner_loop_label));
    proof {
        assert(irs_m(instructions@) =~= irs_m(c5).push(
            ir_m(instructions@[instructions@.len() - 2]),
        ).push(ir_m(instructions@.last())));
    }
    let mut block_ir = transform_block_impl(&while_loop.block, name_factory);
    let ghost c6 = instructions@;
    instructions.append(&mut block_ir);
    proof {
        lemma_irs_m_concat(c6, block_ir@);
    }
    let mut loop_phis = emit_loop_phi_assigns(loop_phi_nodes);
    let ghost c7 = instructions@;
    instructions.append(&mut loop_phis);
    proof {
        lemma_irs_m_concat(c7, loop_phis@);
    }
    let ghost c8 = instructions@;
    instructions.push(IrInstruction::Jump(start_loop_label));
    instructions.push(IrInstruction::Label(init_false_loop_label));
    proof {
        assert(irs_m(instructions@) =~= irs_m(c8).push(
            ir_m(instructions@[instructions@.len() - 2]),
        ).push(ir_m(instructions@.last())));
    }
    let mut outer_phis = emit_phi_assigns(phi_nodes, false);
    let ghost c9 = instructions@;
    instructions.append(&mut outer_phis);
    proof {
        lemma_irs_m_concat(c9, outer_phis@);
    }
    let ghost c10 = instructions@;
    instructions.push(IrInstruction::Jump(total_end_label.clone()));
    instructions.push(IrInstruction::Label(end_loop_label));
    proof {
        assert(irs_m(instructions@) =~= irs_m(c10).push(
            ir_m(instructions@[instructions@.len() - 2]),
        ).push(ir_m(instructions@.last())));
    }
    let mut inner_phis = emit_phi_assigns(phi_nodes, true);
    let ghost c11 = instructions@;
    instructions.append(&mut inner_phis);
    proof {
        lemma_irs_m_concat(c11, inner_phis@);
    }
    let ghost c12 = instructions@;
    instructions.push(IrInstruction::Label(total_end_label));
    proof {
        assert(irs_m(instructions@) =~= irs_m(c12).push(ir_m(instructions@.last())));
        assert(irs_m(instructions@) =~= t_stmt(
            SsaStmtM::While(
                expr_m(while_loop.condition),
                ssa_block_m(while_loop.block@),
                phis_m(phi_nodes@),
                loop_phis_m(loop_phi_nodes@),
            ),
            old(name_factory).lc(),
            old(name_factory).vc(),
        ).0);
    }
    instructions
}

/// Lowers a call statement; the unused result still takes a temporary.
pub fn transform_function_call(
    function_call: &ssa::SsaFunctionCall,
    name_factory: &mut NameFactory,
) -> (r: Vec<IrInstruction>)
    ensures
        ({
            let (irs, lc2, vc2) = t_stmt(
                SsaStmtM::Call(function_call.name@, exprs_m(function_call.arguments@)),
                old(name_factory).lc(),
                old(name_factory).vc(),
            );
            &&& irs_m(r@) == irs
            &&& final(name_factory).lc() == lc2
            &&& final(name_factory).vc() == vc2
        }),
{
    let ghost lc0 = name_factory.lc();
    let ghost vc0 = name_factory.vc();
    let mut instructions: Vec<IrInstruction> = Vec::new();
    let mut arguments: Arguments = Vec::new();
    let n = function_call.arguments.len();
    let mut i: usize = 0;
    while i < n
        invariant
            i <= n,
            n == function_call.arguments@.len(),
            ({
                let (ds, irs, lc1, vc1) = t_exprs(
                    exprs_m(function_call.arguments@.take(i as int)),
                    lc0,
                    vc0,
                );
                &&& datas_m(arguments@) == ds
                &&& irs_m(instructions@) == irs
                &&& name_factory.lc() == lc1
                &&& name_factory.vc() == vc1
            }),
        decreases n - i,
    {
        let ghost pre = function_call.arguments@.take(i as int);
        let (res, mut inst) = transform_expression(&function_call.arguments[i], name_factory);
        arguments.push(res);
        let ghost ii = instructions@;
        instructions.append(&mut inst);
        proof {
            parser::lemma_exprs_m_len(function_call.arguments@);
            lemma_irs_m_concat(ii, inst@);
            assert(function_call.arguments@.take(i + 1) =~= pre.push(
                function_call.arguments@[i as int],
            ));
            assert(pre.push(function_call.arguments@[i as int]).drop_last() =~= pre);
            assert(exprs_m(pre).push(
                expr_m(function_call.arguments@[i as int]),
            ).drop_last() =~= exprs_m(pre));
            assert(datas_m(arguments@).drop_last() =~= datas_m(arguments@.drop_last()));
        }
        i += 1;
    }
    proof {
        assert(function_call.arguments@.take(n as int) =~= function_call.arguments@);
    }
    let res_var = name_factory.get_variable();
    let ghost c1 = instructions@;
    instructions.push(
        IrInstruction::FunctionCall(res_var, function_call.name.clone(), arguments),
    );
    proof {
        assert(irs_m(instructions@) =~= irs_m(c1).push(ir_m(instructions@.last())));
    }
    instructions
}

/// Lowers `return expr`.
pub fn transform_return(expression: &Expression, name_factory: &mut NameFactory) -> (r: Vec<
    IrInstruction,
>)
    ensures
        ({
            let (irs, lc2, vc2) = t_stmt(
                SsaStmtM::Return(expr_m(*expression)),
                old(name_factory).lc(),
                old(name_factory).vc(),
            );
            &&& irs_m(r@) == irs
            &&& final(name_factory).lc() == lc2
            &&& final(name_factory).vc() == vc2
        }),
{
    let (res, mut inst) = transform_expression_impl(expression, name_factory);
    let mut instructions: Vec<IrInstruction> = Vec::new();
    let ghost e0 = instructions@;
    instructions.append(&mut inst);
    proof {
        lemma_irs_m_concat(e0, inst@);
        assert(irs_m(e0) =~= Seq::<IrM>::empty());
    }
    let ghost c1 = instructions@;
    instructions.push(IrInstruction::Return(res));
    proof {
        assert(irs_m(instructions@) =~= irs_m(c1).push(ir_m(instructions@.last())));
    }
    instructions
}

/// Lowers one statement, dispatching on its kind.
pub fn transform_statement(statement: &SsaStatement, name_factory: &mut NameFactory) -> (r: Vec<
    IrInstruction,
>)
    ensures
        ({
            let (irs, lc2, vc2) = t_stmt(ssa_stmt_m(*statement), old(name_factory).lc(), old(
                name_factory,
            ).vc());
            &&& irs_m(r@) == irs
            &&& final(name_factory).lc() == lc2
            &&& final(name_factory).vc() == vc2
        }),
    decreases ssa_stmt_size(ssa_stmt_m(*statement)), 0int,
{
    match statement {
        SsaStatement::Assignment(a) => transform_assignment(a, name_factory),
        SsaStatement::IfStatement(s, phi) => transform_if_statement(s, phi, name_factory),
        SsaStatement::FunctionCall(f) => transform_function_call(f, name_factory),
        SsaStatement::WhileLoop(l, phi, loop_phi) => transform_while_loop(
            l,
            phi,
            loop_phi,
            name_factory,
        ),
        SsaStatement::Return(e) => transform_return(e, name_factory),
    }
}

fn transform_block_impl(block: &ssa::SsaBlock, name_factory: &mut NameFactory) -> (r: Vec<
    IrInstruction,
>)
    ensures
        ({
            let (irs, lc2, vc2) = t_block(ssa_block_m(block@), old(name_factory).lc(), old(
                name_factory,
            ).vc());
            &&& irs_m(r@) == irs
            &&& final(name_factory).lc() == lc2
            &&& final(name_factory).vc() == vc2
        }),
    decreases ssa_block_size(ssa_block_m(block@)), 1int,
{
    let ghost lc0 = name_factory.lc();
    let ghost vc0 = name_factory.vc();
    let mut instructions: Vec<IrInstruction> = Vec::new();
    let n = block.len();
    let mut i: usize = 0;
    while i < n
        invariant
            i <= n,
            n == block@.len(),
            ({
                let (irs, lc1, vc1) = t_block(ssa_block_m(block@.take(i as int)), lc0, vc0);
                &&& irs_m(instructions@) == irs
                &&& name_factory.lc() == lc1
                &&& name_factory.vc() == vc1
            }),
        decreases n - i,
    {
        let ghost pre = block@.take(i as int);
        proof {
            lemma_ssa_block_m_len(block@);
            assert(ssa_stmt_m(block@[i as int]) == ssa_block_m(block@)[i as int]);
            lemma_ssa_block_size_elem(ssa_block_m(block@), i as int);
        }
        let mut stmt_ir = transform_statement(&block[i], name_factory);
        let ghost ii = instructions@;
        instructions.append(&mut stmt_ir);
        proof {
            lemma_irs_m_concat(ii, stmt_ir@);
            assert(block@.take(i + 1) =~= pre.push(block@[i as int]));
            assert(pre.push(block@[i as int]).drop_last() =~= pre);
            assert(ssa_block_m(pre).push(ssa_stmt_m(block@[i as int])).drop_last()
                =~= ssa_block_m(pre));
        }
        i += 1;
    }
    proof {
        assert(block@.take(n as int) =~= block@);
    }
    instructions
}

/// Lowers a block of statements in order.
pub fn transform_block(block: &ssa::SsaBlock, name_factory: &mut NameFactory) -> (r: Vec<
    IrInstruction,
>)
    ensures
        ({
            let (irs, lc2, vc2) = t_block(ssa_block_m(block@), old(name_factory).lc(), old(
                name_factory,
            ).vc());
            &&& irs_m(r@) == irs
            &&& final(name_factory).lc() == lc2
            &&& final(name_factory).vc() == vc2
        }),
{
    transform_block_impl(block, name_factory)
}

/// Lowers one function's body to its flat instruction sequence, numbering
/// temporaries and labels from a fresh factory.
pub fn transform(function: &SsaFunction) -> (r: Vec<IrInstruction>)
    ensures
        irs_m(r@) == t_block(ssa_block_m(function.block@), 0, 0).0,
{
    let mut name_factory = NameFactory::new();
    transform_block_impl(&function.block, &mut name_factory)
}

} // verus!
