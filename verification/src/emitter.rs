//! Instruction selection: from the flat intermediate representation to a
//! sequence of x86-64 instructions.
//!
//! Every operand read resolves to an immediate, a register or a frame
//! slot; each opcode is emitted by dispatching on the kinds of its
//! operands and of its destination, with `rax` (and `rbx` for products)
//! as scratch for memory-to-memory forms.  Comparisons materialise their
//! flag as 0/1 through a conditional set of the low byte of `rax`.
//! Function calls are two-phase: the resolver is called with the tracker
//! address and the callee's id, then the returned address is called with
//! the marshalled arguments.
//!
//! The emission is specified by a functional mirror: `generate` is proved
//! to return exactly `spec_generate` of the instructions, and to succeed
//! precisely when they hold no division or modulo.  On top of the exact
//! sequence, the emitted code always starts with the fixed prologue, ends
//! with an implicit `return 0`, and — the guarantee `rets_restore` carries
//! through every helper — restores the saved callee-saved registers and
//! the frame register, in reverse order of the prologue, immediately
//! before every `Ret`.

use vstd::prelude::*;
use crate::ir::{Data, DataM, IrInstruction, IrM, data_m, datas_m, irs_m};
use crate::lifetime::{self, LifetimeChecker, lt_has, lt_checker};
use crate::var_allocator::{Register, VariableLocation, VariableAllocator};
use crate::parser::{self, BinaryOperator, str_views};
use crate::jit::FunctionTracker;
use crate::names::str_eq;

verus! {

#[derive(Debug, Clone, Copy, PartialEq, Eq, Structural)]
pub enum Operand {
    Imm(i64),
    Reg(Register),
    /// A frame slot `[rbp + offset]`.
    Mem(i64),
}

#[derive(Debug, Clone, Copy, PartialEq, Eq, Structural)]
pub enum Condition {
    Greater,
    GreaterEquals,
    Less,
    LessEquals,
    Equals,
    NotEquals,
}

/// One emitted machine instruction, in the shape the encoder consumes.
#[derive(Debug, Clone, Copy, PartialEq, Eq, Structural)]
pub enum AsmInst {
    Mov(Operand, Operand),
    Add(Operand, Operand),
    Sub(Operand, Operand),
    IMul(Operand, Operand),
    Cmp(Operand, Operand),
    Test(Register, Register),
    /// Sets the low byte of the register to 0 or 1 by the condition.
    SetCond(Condition, Register),
    And(Register, Register),
    Or(Register, Register),
    Push(Register),
    Pop(Register),
    Jump(u64),
    JumpZero(u64),
    /// Binds the numbered label at this position.
    Bind(u64),
    /// Calls an absolute address (the resolver).
    CallImm(u64),
    CallReg(Register),
    Ret,
    Nop,
}

#[derive(Debug, PartialEq, Eq, Structural)]
pub enum EmitError {
    /// Division and modulo are not implemented by this emitter.
    NotImplemented,
    /// The instructions mention a variable or function the liveness pass
    /// or the tracker does not know; the static checks should have
    /// rejected the program.
    Unresolved,
}

/// The fixed prologue: save the frame register, point it at the return
/// address, save the callee-saved registers.
pub open spec fn prologue_ops() -> Seq<AsmInst> {
    seq![
        AsmInst::Push(Register::Rbp),
        AsmInst::Mov(Operand::Reg(Register::Rax), Operand::Reg(Register::Rsp)),
        AsmInst::Add(Operand::Reg(Register::Rax), Operand::Imm(8)),
        AsmInst::Mov(Operand::Reg(Register::Rbp), Operand::Reg(Register::Rax)),
        AsmInst::Push(Register::Rbx),
        AsmInst::Push(Register::R12),
        AsmInst::Push(Register::R13),
        AsmInst::Push(Register::R14),
        AsmInst::Push(Register::R15),
    ]
}

/// The epilogue every return runs: drop back to the saved-register area,
/// restore the callee-saved registers and the frame register in reverse
/// order, return.
pub open spec fn epilogue_ops() -> Seq<AsmInst> {
    seq![
        AsmInst::Mov(Operand::Reg(Register::Rbx), Operand::Reg(Register::Rbp)),
        AsmInst::Sub(Operand::Reg(Register::Rbx), Operand::Imm(48)),
        AsmInst::Mov(Operand::Reg(Register::Rsp), Operand::Reg(Register::Rbx)),
        AsmInst::Pop(Register::R15),
        AsmInst::Pop(Register::R14),
        AsmInst::Pop(Register::R13),
        AsmInst::Pop(Register::R12),
        AsmInst::Pop(Register::Rbx),
        AsmInst::Pop(Register::Rbp),
        AsmInst::Ret,
    ]
}

/// No instruction of the sequence is a plain `Ret`.
pub open spec fn ret_free(s: Seq<AsmInst>) -> bool {
    forall|i: int| 0 <= i < s.len() ==> s[i] != AsmInst::Ret
}

/// Every `Ret` is the last instruction of a full epilogue: the registers
/// the prologue saved are restored, in reverse order, before control can
/// leave the function.
pub open spec fn rets_restore(s: Seq<AsmInst>) -> bool {
    forall|i: int|
        0 <= i < s.len() && s[i] == AsmInst::Ret ==> i >= 9 && s.subrange(i - 9, i + 1)
            == epilogue_ops()
}

/// Appending a `Ret`-free block keeps every existing return's epilogue in
/// place and adds no unprotected return.
pub proof fn lemma_append_ret_free(a: Seq<AsmInst>, b: Seq<AsmInst>)
    requires
        rets_restore(a),
        ret_free(b),
    ensures
        rets_restore(a + b),
{
    assert forall|i: int|
        0 <= i < (a + b).len() && (a + b)[i] == AsmInst::Ret implies i >= 9 && (a + b).subrange(
        i - 9,
        i + 1,
    ) == epilogue_ops() by {
        if i < a.len() {
            assert(a[i] == AsmInst::Ret);
            assert((a + b).subrange(i - 9, i + 1) =~= a.subrange(i - 9, i + 1));
        } else {
            assert(b[i - a.len()] == AsmInst::Ret);
        }
    }
}

/// Appending a block that ends in the epilogue and has no other return
/// keeps the guarantee.
pub proof fn lemma_append_epilogue(a: Seq<AsmInst>, moves: Seq<AsmInst>)
    requires
        rets_restore(a),
        ret_free(moves),
    ensures
        rets_restore(a + moves + epilogue_ops()),
{
    let s = a + moves + epilogue_ops();
    assert forall|i: int|
        0 <= i < s.len() && s[i] == AsmInst::Ret implies i >= 9 && s.subrange(i - 9, i + 1)
            == epilogue_ops() by {
        if i < a.len() {
            assert(a[i] == AsmInst::Ret);
            assert(s.subrange(i - 9, i + 1) =~= a.subrange(i - 9, i + 1));
        } else if i < a.len() + moves.len() {
            assert(moves[i - a.len()] == AsmInst::Ret);
        } else {
            assert(epilogue_ops()[i - a.len() - moves.len()] == AsmInst::Ret);
            assert(i - a.len() - moves.len() == 9);
            assert(s.subrange(i - 9, i + 1) =~= epilogue_ops());
        }
    }
}

/// The registers the prologue saves.  The frame register comes first,
/// then the callee-saved general-purpose registers.
pub open spec fn saved_register(k: int) -> Register {
    if k == 0 {
        Register::Rbx
    } else if k == 1 {
        Register::R12
    } else if k == 2 {
        Register::R13
    } else if k == 3 {
        Register::R14
    } else {
        Register::R15
    }
}

/// Calling-convention discipline, as far as the emitted sequence can
/// carry it: the prologue pushes the frame register and the five
/// callee-saved registers this emitter uses, and the epilogue of every
/// return pops exactly those registers in reverse order before `ret`.
/// Together with `rets_restore` in `generate`'s contract, control can
/// only leave a compiled function through a full restore.
pub proof fn lemma_epilogue_matches_prologue()
    ensures
        prologue_ops()[0] == AsmInst::Push(Register::Rbp),
        epilogue_ops()[8] == AsmInst::Pop(Register::Rbp),
        epilogue_ops()[9] == AsmInst::Ret,
        forall|k: int|
            0 <= k < 5 ==> #[trigger] prologue_ops()[4 + k] == AsmInst::Push(saved_register(k)),
        forall|k: int|
            0 <= k < 5 ==> #[trigger] epilogue_ops()[7 - k] == AsmInst::Pop(saved_register(k)),
{
}

// ------------------------------------------------------------------
// coverage of the inputs

/// The liveness pass knows the variable this operand reads, if any.
pub open spec fn data_covered(d: DataM, lt: Seq<lifetime::LtM>) -> bool {
    match d {
        DataM::Num(_) => true,
        DataM::Var(v) => lt_has(lt, v),
    }
}

pub open spec fn datas_covered(ds: Seq<DataM>, lt: Seq<lifetime::LtM>) -> bool {
    forall|j: int| 0 <= j < ds.len() ==> data_covered(#[trigger] ds[j], lt)
}

/// The liveness pass knows every variable this instruction mentions.
pub open spec fn inst_covered(inst: IrM, lt: Seq<lifetime::LtM>) -> bool {
    match inst {
        IrM::Jump(_) => true,
        IrM::Label(_) => true,
        IrM::KeepAlive(_) => true,
        IrM::JumpFalse(d, _) => data_covered(d, lt),
        IrM::Call(res, _, args) => lt_has(lt, res) && datas_covered(args, lt),
        IrM::Bin(_, res, d1, d2) => lt_has(lt, res) && data_covered(d1, lt) && data_covered(
            d2,
            lt,
        ),
        IrM::Assign(res, d) => lt_has(lt, res) && data_covered(d, lt),
        IrM::Return(d) => data_covered(d, lt),
    }
}

pub open spec fn irs_covered(instrs: Seq<IrM>, lt: Seq<lifetime::LtM>) -> bool {
    forall|l: int| 0 <= l < instrs.len() ==> inst_covered(#[trigger] instrs[l], lt)
}

/// The tracker knows every function the instructions call.
pub open spec fn calls_known(instrs: Seq<IrM>, names: Map<Seq<char>, int>) -> bool {
    forall|l: int|
        0 <= l < instrs.len() ==> (#[trigger] instrs[l] matches IrM::Call(_, f, _)
            ==> names.dom().contains(f))
}


// ------------------------------------------------------------------
// the functional mirror of the emitter

/// The emitter's whole state: the allocator's model, the label table, and
/// the instructions emitted so far.
pub struct EmitSt {
    pub frees: Seq<Register>,
    pub vars: Seq<crate::var_allocator::AvM>,
    pub next_off: int,
    pub labels: Seq<(Seq<char>, u64)>,
    pub label_count: u64,
    pub ops: Seq<AsmInst>,
}

pub open spec fn st_push(st: EmitSt, op: AsmInst) -> EmitSt {
    EmitSt { ops: st.ops.push(op), ..st }
}

/// The encoder label registered for a name, if any: the first entry.
pub open spec fn find_label(labels: Seq<(Seq<char>, u64)>, name: Seq<char>) -> Option<u64>
    decreases labels.len(),
{
    if labels.len() == 0 {
        None
    } else if labels[0].0 == name {
        Some(labels[0].1)
    } else {
        find_label(labels.subrange(1, labels.len() as int), name)
    }
}

/// The label for a name, created on first reference.
pub open spec fn sp_label_id(st: EmitSt, name: Seq<char>) -> (u64, EmitSt) {
    match find_label(st.labels, name) {
        Some(id) => (id, st),
        None => (
            st.label_count,
            EmitSt {
                labels: st.labels.push((name, st.label_count)),
                label_count: crate::ssa::bump(st.label_count),
                ..st
            },
        ),
    }
}

/// Resolving an operand: a lookup in the allocator, growing the frame by
/// one pushed slot when a fresh spill happens.
pub open spec fn sp_get_location(
    st: EmitSt,
    lt: Seq<lifetime::LtM>,
    name: Seq<char>,
    line: u64,
) -> (VariableLocation, EmitSt) {
    let g = crate::var_allocator::spec_get(
        st.frees,
        st.vars,
        st.next_off,
        name,
        line,
        crate::var_allocator::clamp_end(lifetime::lt_first(lt, name).end),
    );
    let st1 = EmitSt { frees: g.0, vars: g.1, next_off: g.2, ..st };
    let st2 = if g.4 {
        st_push(st1, AsmInst::Push(Register::Rbx))
    } else {
        st1
    };
    (g.3, st2)
}

pub open spec fn sp_get_data(st: EmitSt, lt: Seq<lifetime::LtM>, d: DataM, line: u64) -> (
    DataLocation,
    EmitSt,
) {
    match d {
        DataM::Num(n) => (DataLocation::Number(n), st),
        DataM::Var(v) => {
            let (loc, st1) = sp_get_location(st, lt, v, line);
            match loc {
                VariableLocation::Register(rg) => (DataLocation::Register(rg), st1),
                VariableLocation::Stack(o) => (DataLocation::Stack(o), st1),
            }
        },
    }
}

pub open spec fn sp_move_to(st: EmitSt, to: VariableLocation, from: DataLocation) -> EmitSt {
    match from {
        DataLocation::Number(n) => match to {
            VariableLocation::Register(r) => st_push(
                st,
                AsmInst::Mov(Operand::Reg(r), Operand::Imm(n)),
            ),
            VariableLocation::Stack(o) => st_push(
                st,
                AsmInst::Mov(Operand::Mem(o), Operand::Imm(n)),
            ),
        },
        DataLocation::Register(sr) => match to {
            VariableLocation::Register(r) => st_push(
                st,
                AsmInst::Mov(Operand::Reg(r), Operand::Reg(sr)),
            ),
            VariableLocation::Stack(o) => st_push(
                st,
                AsmInst::Mov(Operand::Mem(o), Operand::Reg(sr)),
            ),
        },
        DataLocation::Stack(src) => match to {
            VariableLocation::Register(r) => st_push(
                st,
                AsmInst::Mov(Operand::Reg(r), Operand::Mem(src)),
            ),
            VariableLocation::Stack(o) => st_push(
                st_push(st, AsmInst::Mov(Operand::Reg(Register::Rax), Operand::Mem(src))),
                AsmInst::Mov(Operand::Mem(o), Operand::Reg(Register::Rax)),
            ),
        },
    }
}

pub open spec fn sp_jump(st: EmitSt, label: Seq<char>) -> EmitSt {
    let (id, st1) = sp_label_id(st, label);
    st_push(st1, AsmInst::Jump(id))
}

pub open spec fn sp_jump_false(
    st: EmitSt,
    lt: Seq<lifetime::LtM>,
    d: DataM,
    label: Seq<char>,
    line: u64,
) -> EmitSt {
    let (dl, st1) = sp_get_data(st, lt, d, line);
    let st2 = match dl {
        DataLocation::Number(n) => st_push(
            st_push(st1, AsmInst::Mov(Operand::Reg(Register::Rax), Operand::Imm(n))),
            AsmInst::Test(Register::Rax, Register::Rax),
        ),
        DataLocation::Register(r) => st_push(st1, AsmInst::Test(r, r)),
        DataLocation::Stack(o) => st_push(
            st_push(st1, AsmInst::Mov(Operand::Reg(Register::Rax), Operand::Mem(o))),
            AsmInst::Test(Register::Rax, Register::Rax),
        ),
    };
    let (id, st3) = sp_label_id(st2, label);
    st_push(st3, AsmInst::JumpZero(id))
}

pub open spec fn sp_label_inst(st: EmitSt, label: Seq<char>) -> EmitSt {
    let st1 = st_push(st, AsmInst::Nop);
    let (id, st2) = sp_label_id(st1, label);
    st_push(st2, AsmInst::Bind(id))
}

pub open spec fn location_operand(l: VariableLocation) -> Operand {
    match l {
        VariableLocation::Register(r) => Operand::Reg(r),
        VariableLocation::Stack(o) => Operand::Mem(o),
    }
}

pub open spec fn data_operand(d: DataLocation) -> Operand {
    match d {
        DataLocation::Number(n) => Operand::Imm(n),
        DataLocation::Register(r) => Operand::Reg(r),
        DataLocation::Stack(o) => Operand::Mem(o),
    }
}

pub open spec fn sp_add_sub(
    st: EmitSt,
    lt: Seq<lifetime::LtM>,
    is_add: bool,
    res: Seq<char>,
    d1: DataM,
    d2: DataM,
    line: u64,
) -> EmitSt {
    let (res_loc, st1) = sp_get_location(st, lt, res, line);
    let (dl1, st2) = sp_get_data(st1, lt, d1, line);
    let st3 = sp_move_to(st2, res_loc, dl1);
    let (dl2, st4) = sp_get_data(st3, lt, d2, line);
    let dst = location_operand(res_loc);
    let src = data_operand(dl2);
    let mem_to_mem = (dst matches Operand::Mem(_)) && (src matches Operand::Mem(_));
    if mem_to_mem {
        let st5 = st_push(st4, AsmInst::Mov(Operand::Reg(Register::Rax), src));
        if is_add {
            st_push(st5, AsmInst::Add(dst, Operand::Reg(Register::Rax)))
        } else {
            st_push(st5, AsmInst::Sub(dst, Operand::Reg(Register::Rax)))
        }
    } else {
        if is_add {
            st_push(st4, AsmInst::Add(dst, src))
        } else {
            st_push(st4, AsmInst::Sub(dst, src))
        }
    }
}

pub open spec fn sp_mul(
    st: EmitSt,
    lt: Seq<lifetime::LtM>,
    res: Seq<char>,
    d1: DataM,
    d2: DataM,
    line: u64,
) -> EmitSt {
    let (res_loc, st1) = sp_get_location(st, lt, res, line);
    let (dl1, st2) = sp_get_data(st1, lt, d1, line);
    let st3 = sp_move_to(st2, res_loc, dl1);
    let (dl2, st4) = sp_get_data(st3, lt, d2, line);
    match res_loc {
        VariableLocation::Register(r) => match dl2 {
            DataLocation::Number(n) => st_push(
                st_push(st4, AsmInst::Mov(Operand::Reg(Register::Rax), Operand::Imm(n))),
                AsmInst::IMul(Operand::Reg(r), Operand::Reg(Register::Rax)),
            ),
            DataLocation::Register(rr) => st_push(
                st4,
                AsmInst::IMul(Operand::Reg(r), Operand::Reg(rr)),
            ),
            DataLocation::Stack(o) => st_push(
                st4,
                AsmInst::IMul(Operand::Reg(r), Operand::Mem(o)),
            ),
        },
        VariableLocation::Stack(o) => {
            let st5 = match dl2 {
                DataLocation::Number(n) => st_push(
                    st4,
                    AsmInst::Mov(Operand::Reg(Register::Rbx), Operand::Imm(n)),
                ),
                DataLocation::Register(rr) => st_push(
                    st4,
                    AsmInst::Mov(Operand::Reg(Register::Rbx), Operand::Reg(rr)),
                ),
                DataLocation::Stack(so) => st_push(
                    st4,
                    AsmInst::Mov(Operand::Reg(Register::Rbx), Operand::Mem(so)),
                ),
            };
            st_push(
                st_push(
                    st_push(st5, AsmInst::Mov(Operand::Reg(Register::Rax), Operand::Mem(o))),
                    AsmInst::IMul(Operand::Reg(Register::Rax), Operand::Reg(Register::Rbx)),
                ),
                AsmInst::Mov(Operand::Mem(o), Operand::Reg(Register::Rax)),
            )
        },
    }
}

pub open spec fn sp_compare(
    st: EmitSt,
    lt: Seq<lifetime::LtM>,
    d1: DataM,
    d2: DataM,
    line: u64,
) -> EmitSt {
    let (dl1, st1) = sp_get_data(st, lt, d1, line);
    let (dl2, st2) = sp_get_data(st1, lt, d2, line);
    let rhs = data_operand(dl2);
    match dl1 {
        DataLocation::Number(n1) => st_push(
            st_push(st2, AsmInst::Mov(Operand::Reg(Register::Rax), Operand::Imm(n1))),
            AsmInst::Cmp(Operand::Reg(Register::Rax), rhs),
        ),
        DataLocation::Register(r1) => st_push(st2, AsmInst::Cmp(Operand::Reg(r1), rhs)),
        DataLocation::Stack(s1) => {
            if rhs matches Operand::Mem(_) {
                st_push(
                    st_push(st2, AsmInst::Mov(Operand::Reg(Register::Rax), Operand::Mem(s1))),
                    AsmInst::Cmp(Operand::Reg(Register::Rax), rhs),
                )
            } else {
                st_push(st2, AsmInst::Cmp(Operand::Mem(s1), rhs))
            }
        },
    }
}

pub open spec fn sp_store_rax(
    st: EmitSt,
    lt: Seq<lifetime::LtM>,
    var: Seq<char>,
    line: u64,
) -> EmitSt {
    let (loc, st1) = sp_get_location(st, lt, var, line);
    st_push(st1, AsmInst::Mov(location_operand(loc), Operand::Reg(Register::Rax)))
}

pub open spec fn sp_condition(
    st: EmitSt,
    lt: Seq<lifetime::LtM>,
    cond: Condition,
    res: Seq<char>,
    d1: DataM,
    d2: DataM,
    line: u64,
) -> EmitSt {
    let st1 = sp_compare(st, lt, d1, d2, line);
    let st2 = st_push(st1, AsmInst::Mov(Operand::Reg(Register::Rax), Operand::Imm(0)));
    let st3 = st_push(st2, AsmInst::SetCond(cond, Register::Rax));
    sp_store_rax(st3, lt, res, line)
}

pub open spec fn sp_logic(
    st: EmitSt,
    lt: Seq<lifetime::LtM>,
    is_and: bool,
    res: Seq<char>,
    d1: DataM,
    d2: DataM,
    line: u64,
) -> EmitSt {
    let st1 = sp_compare(st, lt, d1, DataM::Num(0), line);
    let st2 = st_push(st1, AsmInst::Mov(Operand::Reg(Register::Rax), Operand::Imm(0)));
    let st3 = st_push(st2, AsmInst::SetCond(Condition::Greater, Register::Rax));
    let st4 = sp_compare(st3, lt, d2, DataM::Num(0), line);
    let st5 = st_push(st4, AsmInst::Mov(Operand::Reg(Register::Rbx), Operand::Imm(0)));
    let st6 = st_push(st5, AsmInst::SetCond(Condition::Greater, Register::Rbx));
    let st7 = if is_and {
        st_push(st6, AsmInst::And(Register::Rax, Register::Rbx))
    } else {
        st_push(st6, AsmInst::Or(Register::Rax, Register::Rbx))
    };
    sp_store_rax(st7, lt, res, line)
}

pub open spec fn sp_assign(
    st: EmitSt,
    lt: Seq<lifetime::LtM>,
    res: Seq<char>,
    d: DataM,
    line: u64,
) -> EmitSt {
    let (res_loc, st1) = sp_get_location(st, lt, res, line);
    let (dl, st2) = sp_get_data(st1, lt, d, line);
    sp_move_to(st2, res_loc, dl)
}

pub open spec fn sp_return(st: EmitSt, lt: Seq<lifetime::LtM>, d: DataM, line: u64) -> EmitSt {
    let (dl, st1) = sp_get_data(st, lt, d, line);
    let st2 = sp_move_to(st1, VariableLocation::Register(Register::Rax), dl);
    EmitSt { ops: st2.ops + epilogue_ops(), ..st2 }
}

/// The caller-saved registers a call site may need to preserve, in the
/// order they are walked.
pub open spec fn caller_saved() -> Seq<Register> {
    seq![
        Register::Rcx,
        Register::Rdx,
        Register::Rsi,
        Register::Rdi,
        Register::R8,
        Register::R9,
        Register::R10,
        Register::R11,
    ]
}

/// Saving the first `k` caller-saved registers that hold live values or
/// are about to carry one of the first `capped` arguments.
pub open spec fn sp_save_upto(st0: EmitSt, capped: u64, k: int) -> (Seq<Register>, EmitSt)
    decreases k,
{
    if k <= 0 {
        (Seq::empty(), st0)
    } else {
        let (saved, st) = sp_save_upto(st0, capped, k - 1);
        let reg = caller_saved()[k - 1];
        if !st0.frees.contains(reg) || k - 1 < capped as int {
            (
                saved.push(reg),
                st_push(
                    st_push(
                        st_push(st, AsmInst::Mov(Operand::Reg(Register::Rbx), Operand::Reg(reg))),
                        AsmInst::Push(reg),
                    ),
                    AsmInst::Mov(Operand::Reg(reg), Operand::Reg(Register::Rbx)),
                ),
            )
        } else {
            (saved, st)
        }
    }
}

pub open spec fn sp_save_registers(st: EmitSt, number_of_args: u64) -> (Seq<Register>, EmitSt) {
    let capped = if number_of_args > 6 {
        6u64
    } else {
        number_of_args
    };
    sp_save_upto(st, capped, 8)
}

/// Marshalling the first `k` arguments: the first six into the argument
/// registers, the rest pushed on the stack.
pub open spec fn sp_args_upto(
    st0: EmitSt,
    lt: Seq<lifetime::LtM>,
    ds: Seq<DataM>,
    line: u64,
    k: int,
) -> EmitSt
    decreases k,
{
    if k <= 0 {
        st0
    } else {
        let st = sp_args_upto(st0, lt, ds, line, k - 1);
        let i = k - 1;
        if i < 6 {
            let (dl, st1) = sp_get_data(st, lt, ds[i], line);
            st_push(
                st1,
                AsmInst::Mov(
                    Operand::Reg(crate::var_allocator::argument_register(i)),
                    data_operand(dl),
                ),
            )
        } else {
            let (dl, st1) = sp_get_data(st, lt, ds[i], 0);
            match dl {
                DataLocation::Number(n) => st_push(
                    st_push(st1, AsmInst::Mov(Operand::Reg(Register::Rax), Operand::Imm(n))),
                    AsmInst::Push(Register::Rax),
                ),
                DataLocation::Register(r) => st_push(st1, AsmInst::Push(r)),
                DataLocation::Stack(o) => st_push(
                    st_push(st1, AsmInst::Mov(Operand::Reg(Register::Rax), Operand::Mem(o))),
                    AsmInst::Push(Register::Rax),
                ),
            }
        }
    }
}

pub open spec fn sp_set_arguments(
    st: EmitSt,
    lt: Seq<lifetime::LtM>,
    ds: Seq<DataM>,
    line: u64,
) -> EmitSt {
    sp_args_upto(st, lt, ds, line, ds.len() as int)
}

/// How many arguments went onto the stack.
pub open spec fn sp_pushed_count(n_args: int) -> u64 {
    if n_args <= 6 {
        0u64
    } else {
        (n_args - 6) as u64
    }
}

/// Popping the stacked arguments after the call.
pub open spec fn sp_unset_upto(st0: EmitSt, k: int) -> EmitSt
    decreases k,
{
    if k <= 0 {
        st0
    } else {
        st_push(sp_unset_upto(st0, k - 1), AsmInst::Pop(Register::Rbx))
    }
}

/// Restoring the saved registers: popped in exact reverse order of
/// saving.
pub open spec fn sp_restore_registers(st: EmitSt, saved: Seq<Register>) -> EmitSt
    decreases saved.len(),
{
    if saved.len() == 0 {
        st
    } else {
        sp_restore_registers(st_push(st, AsmInst::Pop(saved.last())), saved.drop_last())
    }
}

/// A call site: resolve through the resolver, call the resolved address,
/// store `rax` into the result variable.
pub open spec fn sp_function_call(
    st: EmitSt,
    lt: Seq<lifetime::LtM>,
    res: Seq<char>,
    callee_id: i64,
    args: Seq<DataM>,
    tracker_address: i64,
    resolver_address: u64,
    line: u64,
) -> EmitSt {
    let jit_args = seq![DataM::Num(tracker_address), DataM::Num(callee_id as i64)];
    let (saved, st1) = sp_save_registers(st, 2);
    let st2 = sp_set_arguments(st1, lt, jit_args, line);
    let st3 = st_push(
        st_push(
            st_push(st2, AsmInst::Mov(Operand::Reg(Register::Rbx), Operand::Reg(Register::Rdi))),
            AsmInst::Push(Register::Rdi),
        ),
        AsmInst::Mov(Operand::Reg(Register::Rdi), Operand::Reg(Register::Rbx)),
    );
    let st4 = st_push(st3, AsmInst::CallImm(resolver_address));
    let st5 = st_push(st4, AsmInst::Pop(Register::Rdi));
    let st6 = sp_unset_upto(st5, sp_pushed_count(jit_args.len() as int) as int);
    let st7 = sp_restore_registers(st6, saved);
    let (saved2, st8) = sp_save_registers(st7, args.len() as u64);
    let st9 = sp_set_arguments(st8, lt, args, line);
    let st10 = st_push(
        st_push(
            st_push(st9, AsmInst::Mov(Operand::Reg(Register::Rbx), Operand::Reg(Register::Rdi))),
            AsmInst::Push(Register::Rdi),
        ),
        AsmInst::Mov(Operand::Reg(Register::Rdi), Operand::Reg(Register::Rbx)),
    );
    let st11 = st_push(st10, AsmInst::CallReg(Register::Rax));
    let st12 = st_push(st11, AsmInst::Pop(Register::Rdi));
    let st13 = sp_unset_upto(st12, sp_pushed_count(args.len() as int) as int);
    let st14 = sp_restore_registers(st13, saved2);
    sp_store_rax(st14, lt, res, line)
}

/// The comparison a relational opcode materialises.
pub open spec fn cond_of(op: BinaryOperator) -> Condition {
    match op {
        BinaryOperator::Greater => Condition::Greater,
        BinaryOperator::GreaterEquals => Condition::GreaterEquals,
        BinaryOperator::Less => Condition::Less,
        BinaryOperator::LessEquals => Condition::LessEquals,
        BinaryOperator::Equals => Condition::Equals,
        _ => Condition::NotEquals,
    }
}

/// The effect of one instruction on the emitter state.  Division and
/// modulo never reach this point: emission reports them instead.
pub open spec fn sp_inst(
    st: EmitSt,
    lt: Seq<lifetime::LtM>,
    inst: IrM,
    line: u64,
    names: Map<Seq<char>, int>,
    tracker_address: i64,
    resolver_address: u64,
) -> EmitSt {
    match inst {
        IrM::Jump(l) => sp_jump(st, l),
        IrM::JumpFalse(d, l) => sp_jump_false(st, lt, d, l, line),
        IrM::Label(l) => sp_label_inst(st, l),
        IrM::Call(res, f, args) => sp_function_call(
            st,
            lt,
            res,
            names[f] as i64,
            args,
            tracker_address,
            resolver_address,
            line,
        ),
        IrM::Bin(op, res, d1, d2) => match op {
            BinaryOperator::Addition => sp_add_sub(st, lt, true, res, d1, d2, line),
            BinaryOperator::Subtraction => sp_add_sub(st, lt, false, res, d1, d2, line),
            BinaryOperator::Multiplication => sp_mul(st, lt, res, d1, d2, line),
            BinaryOperator::Division => st,
            BinaryOperator::Modulo => st,
            BinaryOperator::LogicAnd => sp_logic(st, lt, true, res, d1, d2, line),
            BinaryOperator::LogicOr => sp_logic(st, lt, false, res, d1, d2, line),
            _ => sp_condition(st, lt, cond_of(op), res, d1, d2, line),
        },
        IrM::Assign(res, d) => sp_assign(st, lt, res, d, line),
        IrM::Return(d) => sp_return(st, lt, d, line),
        IrM::KeepAlive(_) => st,
    }
}

/// The emitter state after the first `k` instructions.
pub open spec fn sp_lines(
    st0: EmitSt,
    lt: Seq<lifetime::LtM>,
    instrs: Seq<IrM>,
    names: Map<Seq<char>, int>,
    tracker_address: i64,
    resolver_address: u64,
    k: int,
) -> EmitSt
    decreases k,
{
    if k <= 0 {
        st0
    } else {
        sp_inst(
            sp_lines(st0, lt, instrs, names, tracker_address, resolver_address, k - 1),
            lt,
            instrs[k - 1],
            (k - 1) as u64,
            names,
            tracker_address,
            resolver_address,
        )
    }
}

/// The parameters' initial bindings, exactly as the allocator makes them.
pub open spec fn init_vars(params: Seq<Seq<char>>, lt: Seq<lifetime::LtM>) -> Seq<
    crate::var_allocator::AvM,
> {
    Seq::new(
        params.len(),
        |i: int|
            crate::var_allocator::AvM {
                name: params[i],
                end: crate::var_allocator::clamp_end(lifetime::lt_first(lt, params[i]).end),
                location: if i < 6 {
                    VariableLocation::Register(crate::var_allocator::argument_register(i))
                } else {
                    VariableLocation::Stack(
                        crate::var_allocator::param_stack_offset(i, params.len() as int) as i64,
                    )
                },
            },
    )
}

pub open spec fn init_frees(params: Seq<Seq<char>>) -> Seq<Register> {
    if params.len() < 6 {
        crate::var_allocator::initial_registers().take(13 - params.len() as int)
    } else {
        crate::var_allocator::initial_registers().take(7)
    }
}

/// The emitter's state before the first instruction: parameters bound,
/// no labels, and the fixed prologue emitted.
pub open spec fn init_state(params: Seq<Seq<char>>, lt: Seq<lifetime::LtM>) -> EmitSt {
    EmitSt {
        frees: init_frees(params),
        vars: init_vars(params, lt),
        next_off: -56,
        labels: Seq::empty(),
        label_count: 1,
        ops: prologue_ops(),
    }
}

/// Whether the sequence holds an instruction this emitter does not
/// implement.
pub open spec fn has_div_mod(instrs: Seq<IrM>) -> bool {
    exists|l: int|
        0 <= l < instrs.len() && (#[trigger] instrs[l] matches IrM::Bin(op, _, _, _)
            && (op == BinaryOperator::Division || op == BinaryOperator::Modulo))
}

/// The emitted sequence for a whole function: the prologue, the lowering
/// of every line, and the implicit `return 0` at line 0.
pub open spec fn spec_generate(
    instrs: Seq<IrM>,
    params: Seq<Seq<char>>,
    names: Map<Seq<char>, int>,
    tracker_address: i64,
    resolver_address: u64,
) -> Seq<AsmInst> {
    let lt = lt_checker(instrs, params);
    let st = sp_lines(
        init_state(params, lt),
        lt,
        instrs,
        names,
        tracker_address,
        resolver_address,
        instrs.len() as int,
    );
    sp_return(st, lt, DataM::Num(0), 0).ops
}

// ------------------------------------------------------------------
// the generator state

/// Where an operand's value lives once resolved.
#[derive(Debug, Clone, Copy, PartialEq, Eq, Structural)]
pub enum DataLocation {
    Register(Register),
    Stack(i64),
    Number(i64),
}

pub struct CodeGenerator {
    lifetime_checker: LifetimeChecker,
    variable_allocator: VariableAllocator,
    instructions: Vec<AsmInst>,
    labels: Vec<(String, u64)>,
    label_count: u64,
}

proof fn lemma_find_label_at(labels: Seq<(Seq<char>, u64)>, name: Seq<char>, j: int)
    requires
        0 <= j < labels.len(),
        labels[j].0 == name,
        forall|k: int| 0 <= k < j ==> (#[trigger] labels[k]).0 != name,
    ensures
        find_label(labels, name) == Some(labels[j].1),
    decreases labels.len(),
{
    if j == 0 {
    } else {
        let t = labels.subrange(1, labels.len() as int);
        assert(t[j - 1] == labels[j]);
        assert(forall|k: int| 0 <= k < j - 1 ==> (#[trigger] t[k]).0 != name);
        lemma_find_label_at(t, name, j - 1);
    }
}

proof fn lemma_find_label_absent(labels: Seq<(Seq<char>, u64)>, name: Seq<char>)
    requires
        forall|k: int| 0 <= k < labels.len() ==> (#[trigger] labels[k]).0 != name,
    ensures
        find_label(labels, name) is None,
    decreases labels.len(),
{
    if labels.len() > 0 {
        let t = labels.subrange(1, labels.len() as int);
        assert(forall|k: int| 0 <= k < t.len() ==> (#[trigger] t[k]).0 != name);
        lemma_find_label_absent(t, name);
    }
}

/// The label table's view.
pub open spec fn labels_m(s: Seq<(String, u64)>) -> Seq<(Seq<char>, u64)> {
    s.map_values(|p: (String, u64)| (p.0@, p.1))
}

impl CodeGenerator {
    pub closed spec fn lt(&self) -> Seq<lifetime::LtM> {
        self.lifetime_checker@
    }

    pub closed spec fn ops(&self) -> Seq<AsmInst> {
        self.instructions@
    }

    /// The whole emitter state, for the functional mirror.
    pub closed spec fn st(&self) -> EmitSt {
        EmitSt {
            frees: self.variable_allocator.frees(),
            vars: self.variable_allocator.vars(),
            next_off: self.variable_allocator.next_off(),
            labels: labels_m(self.labels@),
            label_count: self.label_count,
            ops: self.instructions@,
        }
    }

    pub closed spec fn alloc_wf(&self) -> bool {
        self.variable_allocator.wf()
    }

    /// The running guarantees: the allocator invariant holds and every
    /// emitted return restores the saved registers.
    pub open spec fn wf(&self) -> bool {
        self.alloc_wf() && rets_restore(self.ops())
    }

    /// The old instruction stream is a prefix of the new one.
    pub open spec fn extends(&self, prev: Seq<AsmInst>) -> bool {
        prefix_ops(prev, self.ops())
    }

    fn push_op(&mut self, op: AsmInst)
        requires
            op != AsmInst::Ret,
            old(self).wf(),
        ensures
            final(self).wf(),
            final(self).extends(old(self).ops()),
            final(self).lt() == old(self).lt(),
            final(self).ops() == old(self).ops().push(op),
            final(self).st() == st_push(old(self).st(), op),
    {
        self.instructions.push(op);
        proof {
            assert(old(self).ops() + seq![op] =~= old(self).ops().push(op));
            lemma_append_ret_free(old(self).ops(), seq![op]);
        }
    }

    /// The encoder label for an intermediate-representation label name,
    /// created on first reference.
    fn get_label(&mut self, name: &String) -> (r: u64)
        requires
            old(self).wf(),
        ensures
            final(self).wf(),
            final(self).ops() == old(self).ops(),
            final(self).lt() == old(self).lt(),
            ({
                let (id, st1) = sp_label_id(old(self).st(), name@);
                r == id && final(self).st() == st1
            }),
    {
        let n = self.labels.len();
        let mut i: usize = 0;
        while i < n
            invariant
                i <= n,
                n == self.labels@.len(),
                *self == *old(self),
                old(self).wf(),
                forall|k: int| 0 <= k < i ==> (#[trigger] labels_m(self.labels@)[k]).0 != name@,
            decreases n - i,
        {
            if str_eq(self.labels[i].0.as_str(), name.as_str()) {
                proof {
                    assert(labels_m(self.labels@)[i as int].0 == name@);
                    lemma_find_label_at(labels_m(self.labels@), name@, i as int);
                }
                return self.labels[i].1;
            }
            proof {
                assert(labels_m(self.labels@)[i as int].0 == self.labels@[i as int].0@);
            }
            i += 1;
        }
        proof {
            lemma_find_label_absent(labels_m(self.labels@), name@);
        }
        let id = self.label_count;
        if self.label_count < u64::MAX {
            self.label_count = self.label_count + 1;
        }
        self.labels.push((name.clone(), id));
        proof {
            assert(labels_m(self.labels@) =~= labels_m(old(self).labels@).push((name@, id)));
        }
        id
    }

    /// Resolves an operand, binding its variable if this is its first
    /// use.  A fresh spill grows the frame by one slot.
    fn get_data(&mut self, data: &Data, line: u64) -> (r: DataLocation)
        requires
            old(self).wf(),
            data_covered(data_m(*data), old(self).lt()),
        ensures
            final(self).wf(),
            final(self).extends(old(self).ops()),
            final(self).lt() == old(self).lt(),
            ({
                let (loc, st1) = sp_get_data(old(self).st(), old(self).lt(), data_m(*data), line);
                r == loc && final(self).st() == st1
            }),
    {
        match data {
            Data::Number(n) => DataLocation::Number(*n),
            Data::Variable(v) => {
                let (loc, grew) = self.variable_allocator.get(
                    v.as_str(),
                    line,
                    &mut self.lifetime_checker,
                );
                if grew {
                    self.push_op(AsmInst::Push(Register::Rbx));
                }
                match loc {
                    VariableLocation::Register(rg) => DataLocation::Register(rg),
                    VariableLocation::Stack(s) => DataLocation::Stack(s),
                }
            },
        }
    }

    /// Binds the destination variable of an instruction.
    fn get_location(&mut self, name: &String, line: u64) -> (r: VariableLocation)
        requires
            old(self).wf(),
            lt_has(old(self).lt(), name@),
        ensures
            final(self).wf(),
            final(self).extends(old(self).ops()),
            final(self).lt() == old(self).lt(),
            ({
                let (loc, st1) = sp_get_location(old(self).st(), old(self).lt(), name@, line);
                r == loc && final(self).st() == st1
            }),
    {
        let (loc, grew) = self.variable_allocator.get(
            name.as_str(),
            line,
            &mut self.lifetime_checker,
        );
        if grew {
            self.push_op(AsmInst::Push(Register::Rbx));
        }
        loc
    }

    /// Copies a resolved value into a bound location, through `rax` for
    /// the memory-to-memory form.
    fn move_to(&mut self, to: VariableLocation, from: DataLocation)
        requires
            old(self).wf(),
        ensures
            final(self).wf(),
            final(self).extends(old(self).ops()),
            final(self).lt() == old(self).lt(),
            final(self).st() == sp_move_to(old(self).st(), to, from),
    {
        match from {
            DataLocation::Number(n) => {
                match to {
                    VariableLocation::Register(r) => {
                        self.push_op(AsmInst::Mov(Operand::Reg(r), Operand::Imm(n)));
                    },
                    VariableLocation::Stack(s) => {
                        self.push_op(AsmInst::Mov(Operand::Mem(s), Operand::Imm(n)));
                    },
                }
            },
            DataLocation::Register(sr) => {
                match to {
                    VariableLocation::Register(r) => {
                        self.push_op(AsmInst::Mov(Operand::Reg(r), Operand::Reg(sr)));
                    },
                    VariableLocation::Stack(s) => {
                        self.push_op(AsmInst::Mov(Operand::Mem(s), Operand::Reg(sr)));
                    },
                }
            },
            DataLocation::Stack(st) => {
                match to {
                    VariableLocation::Register(r) => {
                        self.push_op(AsmInst::Mov(Operand::Reg(r), Operand::Mem(st)));
                    },
                    VariableLocation::Stack(s) => {
                        self.push_op(AsmInst::Mov(Operand::Reg(Register::Rax), Operand::Mem(st)));
                        self.push_op(AsmInst::Mov(Operand::Mem(s), Operand::Reg(Register::Rax)));
                    },
                }
            },
        }
    }

    fn generate_jump(&mut self, label: &String)
        requires
            old(self).wf(),
        ensures
            final(self).wf(),
            final(self).extends(old(self).ops()),
            final(self).lt() == old(self).lt(),
            final(self).st() == sp_jump(old(self).st(), label@),
    {
        let l = self.get_label(label);
        self.push_op(AsmInst::Jump(l));
    }

    fn generate_jump_false(&mut self, data: &Data, label: &String, line: u64)
        requires
            old(self).wf(),
            data_covered(data_m(*data), old(self).lt()),
        ensures
            final(self).wf(),
            final(self).extends(old(self).ops()),
            final(self).lt() == old(self).lt(),
            final(self).st() == sp_jump_false(old(self).st(), old(self).lt(), data_m(*data), label@, line),
    {
        let d = self.get_data(data, line);
        match d {
            DataLocation::Number(n) => {
                self.push_op(AsmInst::Mov(Operand::Reg(Register::Rax), Operand::Imm(n)));
                self.push_op(AsmInst::Test(Register::Rax, Register::Rax));
            },
            DataLocation::Register(r) => {
                self.push_op(AsmInst::Test(r, r));
            },
            DataLocation::Stack(s) => {
                self.push_op(AsmInst::Mov(Operand::Reg(Register::Rax), Operand::Mem(s)));
                self.push_op(AsmInst::Test(Register::Rax, Register::Rax));
            },
        }
        let l = self.get_label(label);
        self.push_op(AsmInst::JumpZero(l));
    }

    /// A label site: a `nop` marks it so jump targets stay unambiguous in
    /// a disassembly, then the label binds.
    fn generate_label(&mut self, label: &String)
        requires
            old(self).wf(),
        ensures
            final(self).wf(),
            final(self).extends(old(self).ops()),
            final(self).lt() == old(self).lt(),
            final(self).st() == sp_label_inst(old(self).st(), label@),
    {
        self.push_op(AsmInst::Nop);
        let l = self.get_label(label);
        self.push_op(AsmInst::Bind(l));
    }

    /// Emits `dst <- dst op src` for addition and subtraction, picking
    /// the form by the kinds of destination and source.
    fn generate_add_sub(&mut self, is_add: bool, res_var: &String, data1: &Data, data2: &Data, line: u64)
        requires
            old(self).wf(),
            lt_has(old(self).lt(), res_var@),
            data_covered(data_m(*data1), old(self).lt()),
            data_covered(data_m(*data2), old(self).lt()),
        ensures
            final(self).wf(),
            final(self).extends(old(self).ops()),
            final(self).lt() == old(self).lt(),
            final(self).st() == sp_add_sub(
                old(self).st(),
                old(self).lt(),
                is_add,
                res_var@,
                data_m(*data1),
                data_m(*data2),
                line,
            ),
    {
        let res_loc = self.get_location(res_var, line);
        let d1 = self.get_data(data1, line);
        self.move_to(res_loc, d1);
        let d2 = self.get_data(data2, line);
        let dst = match res_loc {
            VariableLocation::Register(r) => Operand::Reg(r),
            VariableLocation::Stack(s) => Operand::Mem(s),
        };
        let src = match d2 {
            DataLocation::Number(n) => Operand::Imm(n),
            DataLocation::Register(r) => Operand::Reg(r),
            DataLocation::Stack(s) => Operand::Mem(s),
        };
        let mem_to_mem = match (dst, src) {
            (Operand::Mem(_), Operand::Mem(_)) => true,
            _ => false,
        };
        if mem_to_mem {
            self.push_op(AsmInst::Mov(Operand::Reg(Register::Rax), src));
            if is_add {
                self.push_op(AsmInst::Add(dst, Operand::Reg(Register::Rax)));
            } else {
                self.push_op(AsmInst::Sub(dst, Operand::Reg(Register::Rax)));
            }
        } else {
            if is_add {
                self.push_op(AsmInst::Add(dst, src));
            } else {
                self.push_op(AsmInst::Sub(dst, src));
            }
        }
    }

    /// Products run through `rax`, with `rbx` staging a memory or
    /// immediate multiplier.
    fn generate_multiplication(&mut self, res_var: &String, data1: &Data, data2: &Data, line: u64)
        requires
            old(self).wf(),
            lt_has(old(self).lt(), res_var@),
            data_covered(data_m(*data1), old(self).lt()),
            data_covered(data_m(*data2), old(self).lt()),
        ensures
            final(self).wf(),
            final(self).extends(old(self).ops()),
            final(self).lt() == old(self).lt(),
            final(self).st() == sp_mul(
                old(self).st(),
                old(self).lt(),
                res_var@,
                data_m(*data1),
                data_m(*data2),
                line,
            ),
    {
        let res_loc = self.get_location(res_var, line);
        let d1 = self.get_data(data1, line);
        self.move_to(res_loc, d1);
        let d2 = self.get_data(data2, line);
        match res_loc {
            VariableLocation::Register(r) => {
                match d2 {
                    DataLocation::Number(n) => {
                        self.push_op(AsmInst::Mov(Operand::Reg(Register::Rax), Operand::Imm(n)));
                        self.push_op(
                            AsmInst::IMul(Operand::Reg(r), Operand::Reg(Register::Rax)),
                        );
                    },
                    DataLocation::Register(rr) => {
                        self.push_op(AsmInst::IMul(Operand::Reg(r), Operand::Reg(rr)));
                    },
                    DataLocation::Stack(st) => {
                        self.push_op(AsmInst::IMul(Operand::Reg(r), Operand::Mem(st)));
                    },
                }
            },
            VariableLocation::Stack(s) => {
                match d2 {
                    DataLocation::Number(n) => {
                        self.push_op(AsmInst::Mov(Operand::Reg(Register::Rbx), Operand::Imm(n)));
                    },
                    DataLocation::Register(rr) => {
                        self.push_op(
                            AsmInst::Mov(Operand::Reg(Register::Rbx), Operand::Reg(rr)),
                        );
                    },
                    DataLocation::Stack(st) => {
                        self.push_op(AsmInst::Mov(Operand::Reg(Register::Rbx), Operand::Mem(st)));
                    },
                }
                self.push_op(AsmInst::Mov(Operand::Reg(Register::Rax), Operand::Mem(s)));
                self.push_op(
                    AsmInst::IMul(Operand::Reg(Register::Rax), Operand::Reg(Register::Rbx)),
                );
                self.push_op(AsmInst::Mov(Operand::Mem(s), Operand::Reg(Register::Rax)));
            },
        }
    }

    /// Emits the flag-setting comparison of two operands, staging the
    /// first in `rax` when both sit in memory or it is immediate.
    fn generate_compare(&mut self, data1: &Data, data2: &Data, line: u64)
        requires
            old(self).wf(),
            data_covered(data_m(*data1), old(self).lt()),
            data_covered(data_m(*data2), old(self).lt()),
        ensures
            final(self).wf(),
            final(self).extends(old(self).ops()),
            final(self).lt() == old(self).lt(),
            final(self).st() == sp_compare(
                old(self).st(),
                old(self).lt(),
                data_m(*data1),
                data_m(*data2),
                line,
            ),
    {
        let d1 = self.get_data(data1, line);
        let d2 = self.get_data(data2, line);
        let rhs = match d2 {
            DataLocation::Number(n) => Operand::Imm(n),
            DataLocation::Register(r) => Operand::Reg(r),
            DataLocation::Stack(s) => Operand::Mem(s),
        };
        match d1 {
            DataLocation::Number(n1) => {
                self.push_op(AsmInst::Mov(Operand::Reg(Register::Rax), Operand::Imm(n1)));
                self.push_op(AsmInst::Cmp(Operand::Reg(Register::Rax), rhs));
            },
            DataLocation::Register(r1) => {
                self.push_op(AsmInst::Cmp(Operand::Reg(r1), rhs));
            },
            DataLocation::Stack(s1) => {
                let both_mem = match rhs {
                    Operand::Mem(_) => true,
                    _ => false,
                };
                if both_mem {
                    self.push_op(AsmInst::Mov(Operand::Reg(Register::Rax), Operand::Mem(s1)));
                    self.push_op(AsmInst::Cmp(Operand::Reg(Register::Rax), rhs));
                } else {
                    self.push_op(AsmInst::Cmp(Operand::Mem(s1), rhs));
                }
            },
        }
    }

    fn store_rax_in_var(&mut self, var: &String, line: u64)
        requires
            old(self).wf(),
            lt_has(old(self).lt(), var@),
        ensures
            final(self).wf(),
            final(self).extends(old(self).ops()),
            final(self).lt() == old(self).lt(),
            final(self).st() == sp_store_rax(old(self).st(), old(self).lt(), var@, line),
    {
        let res_loc = self.get_location(var, line);
        match res_loc {
            VariableLocation::Register(r) => {
                self.push_op(AsmInst::Mov(Operand::Reg(r), Operand::Reg(Register::Rax)));
            },
            VariableLocation::Stack(s) => {
                self.push_op(AsmInst::Mov(Operand::Mem(s), Operand::Reg(Register::Rax)));
            },
        }
    }

    /// A comparison: compute the flag, materialise 0/1 in `rax`, store.
    fn generate_condition(
        &mut self,
        cond: Condition,
        res_var: &String,
        data1: &Data,
        data2: &Data,
        line: u64,
    )
        requires
            old(self).wf(),
            lt_has(old(self).lt(), res_var@),
            data_covered(data_m(*data1), old(self).lt()),
            data_covered(data_m(*data2), old(self).lt()),
        ensures
            final(self).wf(),
            final(self).extends(old(self).ops()),
            final(self).lt() == old(self).lt(),
            final(self).st() == sp_condition(
                old(self).st(),
                old(self).lt(),
                cond,
                res_var@,
                data_m(*data1),
                data_m(*data2),
                line,
            ),
    {
        self.generate_compare(data1, data2, line);
        self.push_op(AsmInst::Mov(Operand::Reg(Register::Rax), Operand::Imm(0)));
        self.push_op(AsmInst::SetCond(cond, Register::Rax));
        self.store_rax_in_var(res_var, line);
    }

    /// Logical and/or: each operand is compared against 0 and turned
    /// into 0/1, then the two bits combine.
    fn generate_logic(
        &mut self,
        is_and: bool,
        res_var: &String,
        data1: &Data,
        data2: &Data,
        line: u64,
    )
        requires
            old(self).wf(),
            lt_has(old(self).lt(), res_var@),
            data_covered(data_m(*data1), old(self).lt()),
            data_covered(data_m(*data2), old(self).lt()),
        ensures
            final(self).wf(),
            final(self).extends(old(self).ops()),
            final(self).lt() == old(self).lt(),
            final(self).st() == sp_logic(
                old(self).st(),
                old(self).lt(),
                is_and,
                res_var@,
                data_m(*data1),
                data_m(*data2),
                line,
            ),
    {
        let zero1 = Data::Number(0);
        self.generate_compare(data1, &zero1, line);
        self.push_op(AsmInst::Mov(Operand::Reg(Register::Rax), Operand::Imm(0)));
        self.push_op(AsmInst::SetCond(Condition::Greater, Register::Rax));
        let zero2 = Data::Number(0);
        self.generate_compare(data2, &zero2, line);
        self.push_op(AsmInst::Mov(Operand::Reg(Register::Rbx), Operand::Imm(0)));
        self.push_op(AsmInst::SetCond(Condition::Greater, Register::Rbx));
        if is_and {
            self.push_op(AsmInst::And(Register::Rax, Register::Rbx));
        } else {
            self.push_op(AsmInst::Or(Register::Rax, Register::Rbx));
        }
        self.store_rax_in_var(res_var, line);
    }

    fn generate_assignment(&mut self, res_var: &String, data: &Data, line: u64)
        requires
            old(self).wf(),
            lt_has(old(self).lt(), res_var@),
            data_covered(data_m(*data), old(self).lt()),
        ensures
            final(self).wf(),
            final(self).extends(old(self).ops()),
            final(self).lt() == old(self).lt(),
            final(self).st() == sp_assign(
                old(self).st(),
                old(self).lt(),
                res_var@,
                data_m(*data),
                line,
            ),
    {
        let res_loc = self.get_location(res_var, line);
        let d = self.get_data(data, line);
        self.move_to(res_loc, d);
    }

    /// A return: the value goes to `rax`, then the epilogue restores the
    /// saved registers and returns.
    fn generate_return(&mut self, data: &Data, line: u64)
        requires
            old(self).wf(),
            data_covered(data_m(*data), old(self).lt()),
        ensures
            final(self).wf(),
            final(self).extends(old(self).ops()),
            final(self).lt() == old(self).lt(),
            final(self).ops().len() >= 10,
            final(self).ops().skip(final(self).ops().len() - 10) == epilogue_ops(),
            final(self).st() == sp_return(old(self).st(), old(self).lt(), data_m(*data), line),
    {
        let d = self.get_data(data, line);
        self.move_to(VariableLocation::Register(Register::Rax), d);
        let ghost pre = self.ops();
        self.push_op(AsmInst::Mov(Operand::Reg(Register::Rbx), Operand::Reg(Register::Rbp)));
        self.push_op(AsmInst::Sub(Operand::Reg(Register::Rbx), Operand::Imm(48)));
        self.push_op(AsmInst::Mov(Operand::Reg(Register::Rsp), Operand::Reg(Register::Rbx)));
        self.push_op(AsmInst::Pop(Register::R15));
        self.push_op(AsmInst::Pop(Register::R14));
        self.push_op(AsmInst::Pop(Register::R13));
        self.push_op(AsmInst::Pop(Register::R12));
        self.push_op(AsmInst::Pop(Register::Rbx));
        self.push_op(AsmInst::Pop(Register::Rbp));
        self.instructions.push(AsmInst::Ret);
        proof {
            assert(self.ops() =~= pre + epilogue_ops());
            assert(pre + Seq::<AsmInst>::empty() =~= pre);
            lemma_append_epilogue(pre, Seq::empty());
            assert(pre + Seq::<AsmInst>::empty() + epilogue_ops() =~= pre + epilogue_ops());
            assert(self.ops().skip(self.ops().len() - 10) =~= epilogue_ops());
        }
    }

    /// Marshals call arguments: the first six into the argument
    /// registers, the rest pushed right to left onto the stack.  Returns
    /// how many were pushed.
    fn set_arguments(&mut self, args: &Vec<Data>, line: u64) -> (r: u64)
        requires
            old(self).wf(),
            datas_covered(datas_m(args@), old(self).lt()),
        ensures
            final(self).wf(),
            final(self).extends(old(self).ops()),
            final(self).lt() == old(self).lt(),
            r == sp_pushed_count(args@.len() as int),
            final(self).st() == sp_set_arguments(
                old(self).st(),
                old(self).lt(),
                datas_m(args@),
                line,
            ),
    {
        let arg_regs = argument_registers();
        let mut pushed_args: u64 = 0;
        let n = args.len();
        let mut i: usize = 0;
        while i < n
            invariant
                i <= n,
                n == args@.len(),
                arg_regs@.len() == 6,
                forall|k: int|
                    0 <= k < 6 ==> arg_regs@[k] == crate::var_allocator::argument_register(k),
                pushed_args == sp_pushed_count(i as int),
                self.wf(),
                self.extends(old(self).ops()),
                self.lt() == old(self).lt(),
                datas_covered(datas_m(args@), old(self).lt()),
                self.st() == sp_args_upto(
                    old(self).st(),
                    old(self).lt(),
                    datas_m(args@),
                    line,
                    i as int,
                ),
            decreases n - i,
        {
            proof {
                assert(data_covered(datas_m(args@)[i as int], old(self).lt()));
            }
            let ghost mid = self.ops();
            if i < 6 {
                let d = self.get_data(&args[i], line);
                let dst = Operand::Reg(arg_regs[i]);
                match d {
                    DataLocation::Number(nn) => {
                        self.push_op(AsmInst::Mov(dst, Operand::Imm(nn)));
                    },
                    DataLocation::Register(r) => {
                        self.push_op(AsmInst::Mov(dst, Operand::Reg(r)));
                    },
                    DataLocation::Stack(s) => {
                        self.push_op(AsmInst::Mov(dst, Operand::Mem(s)));
                    },
                }
            } else {
                pushed_args = pushed_args + 1;
                let d = self.get_data(&args[i], 0);
                match d {
                    DataLocation::Number(nn) => {
                        self.push_op(AsmInst::Mov(Operand::Reg(Register::Rax), Operand::Imm(nn)));
                        self.push_op(AsmInst::Push(Register::Rax));
                    },
                    DataLocation::Register(r) => {
                        self.push_op(AsmInst::Push(r));
                    },
                    DataLocation::Stack(s) => {
                        self.push_op(AsmInst::Mov(Operand::Reg(Register::Rax), Operand::Mem(s)));
                        self.push_op(AsmInst::Push(Register::Rax));
                    },
                }
            }
            proof {
                lemma_prefix_trans(old(self).ops(), mid, self.ops());
            }
            i += 1;
        }
        pushed_args
    }

    /// Pops the stacked arguments after a call.
    fn unset_arguments(&mut self, pushed_args: u64)
        requires
            old(self).wf(),
        ensures
            final(self).wf(),
            final(self).extends(old(self).ops()),
            final(self).lt() == old(self).lt(),
            final(self).st() == sp_unset_upto(old(self).st(), pushed_args as int),
    {
        let mut i: u64 = 0;
        while i < pushed_args
            invariant
                i <= pushed_args,
                self.wf(),
                self.extends(old(self).ops()),
                self.lt() == old(self).lt(),
                self.st() == sp_unset_upto(old(self).st(), i as int),
            decreases pushed_args - i,
        {
            let ghost mid = self.ops();
            self.push_op(AsmInst::Pop(Register::Rbx));
            proof {
                lemma_prefix_trans(old(self).ops(), mid, self.ops());
            }
            i += 1;
        }
    }

    /// Saves the caller-saved registers that hold live values, plus the
    /// ones about to carry arguments.
    fn save_registers(&mut self, number_of_args: u64) -> (r: Vec<Register>)
        requires
            old(self).wf(),
        ensures
            final(self).wf(),
            final(self).extends(old(self).ops()),
            final(self).lt() == old(self).lt(),
            r@.len() <= 8,
            ({
                let (saved, st1) = sp_save_registers(old(self).st(), number_of_args);
                r@ == saved && final(self).st() == st1
            }),
    {
        let registers = caller_saved_registers();
        let mut number_of_args = number_of_args;
        if number_of_args > 6 {
            number_of_args = 6;
        }
        let ghost capped = number_of_args;
        let mut saved_vec: Vec<Register> = Vec::new();
        let mut args: u64 = 0;
        let n = registers.len();
        let mut i: usize = 0;
        while i < n
            invariant
                i <= n,
                n == registers@.len(),
                n == 8,
                registers@ == caller_saved(),
                args == i,
                capped == number_of_args,
                capped <= 6,
                saved_vec@.len() <= i,
                self.wf(),
                self.extends(old(self).ops()),
                self.lt() == old(self).lt(),
                self.st().frees == old(self).st().frees,
                ({
                    let (saved, st1) = sp_save_upto(old(self).st(), capped, i as int);
                    saved_vec@ == saved && self.st() == st1
                }),
            decreases n - i,
        {
            let reg = registers[i];
            let ghost mid = self.ops();
            if self.variable_allocator.is_allocated(reg) || args < number_of_args {
                self.push_op(AsmInst::Mov(Operand::Reg(Register::Rbx), Operand::Reg(reg)));
                self.push_op(AsmInst::Push(reg));
                self.push_op(AsmInst::Mov(Operand::Reg(reg), Operand::Reg(Register::Rbx)));
                saved_vec.push(reg);
            }
            proof {
                lemma_prefix_trans(old(self).ops(), mid, self.ops());
            }
            if args < u64::MAX {
                args = args + 1;
            }
            i += 1;
        }
        saved_vec
    }

    /// Restores the saved registers in reverse order.
    fn restore_registers(&mut self, saved_regs: &Vec<Register>)
        requires
            old(self).wf(),
        ensures
            final(self).wf(),
            final(self).extends(old(self).ops()),
            final(self).lt() == old(self).lt(),
            final(self).st() == sp_restore_registers(old(self).st(), saved_regs@),
    {
        proof {
            assert(saved_regs@.take(saved_regs@.len() as int) =~= saved_regs@);
        }
        let mut i = saved_regs.len();
        while i > 0
            invariant
                i <= saved_regs@.len(),
                self.wf(),
                self.extends(old(self).ops()),
                self.lt() == old(self).lt(),
                sp_restore_registers(old(self).st(), saved_regs@) == sp_restore_registers(
                    self.st(),
                    saved_regs@.take(i as int),
                ),
            decreases i,
        {
            i -= 1;
            let ghost mid = self.ops();
            let ghost pre_take = saved_regs@.take(i + 1);
            self.push_op(AsmInst::Pop(saved_regs[i]));
            proof {
                lemma_prefix_trans(old(self).ops(), mid, self.ops());
                assert(pre_take.last() == saved_regs@[i as int]);
                assert(pre_take.drop_last() =~= saved_regs@.take(i as int));
            }
        }
        proof {
            assert(saved_regs@.take(saved_regs@.len() as int) =~= saved_regs@);
        }
    }

    /// A call site: resolve the callee's address through the resolver,
    /// then call it with the marshalled arguments and store `rax` into
    /// the result variable.
    fn generate_function_call(
        &mut self,
        res_var: &String,
        callee_id: i64,
        args: &Vec<Data>,
        tracker_address: i64,
        resolver_address: u64,
        line: u64,
    )
        requires
            old(self).wf(),
            lt_has(old(self).lt(), res_var@),
            datas_covered(datas_m(args@), old(self).lt()),
        ensures
            final(self).wf(),
            final(self).extends(old(self).ops()),
            final(self).lt() == old(self).lt(),
            final(self).st() == sp_function_call(
                old(self).st(),
                old(self).lt(),
                res_var@,
                callee_id,
                datas_m(args@),
                tracker_address,
                resolver_address,
                line,
            ),
    {
        let mut jit_args: Vec<Data> = Vec::new();
        jit_args.push(Data::Number(tracker_address));
        jit_args.push(Data::Number(callee_id));
        proof {
            assert(datas_m(jit_args@) =~= seq![
                DataM::Num(tracker_address),
                DataM::Num(callee_id),
            ]);
            assert forall|j: int|
                0 <= j < datas_m(jit_args@).len() implies data_covered(
                #[trigger] datas_m(jit_args@)[j],
                self.lt(),
            ) by {}
        }
        let saved_regs = self.save_registers(2);
        let pushed_args = self.set_arguments(&jit_args, line);
        self.push_op(AsmInst::Mov(Operand::Reg(Register::Rbx), Operand::Reg(Register::Rdi)));
        self.push_op(AsmInst::Push(Register::Rdi));
        self.push_op(AsmInst::Mov(Operand::Reg(Register::Rdi), Operand::Reg(Register::Rbx)));
        self.push_op(AsmInst::CallImm(resolver_address));
        self.push_op(AsmInst::Pop(Register::Rdi));
        self.unset_arguments(pushed_args);
        self.restore_registers(&saved_regs);
        let nargs = args.len() as u64;
        let saved_regs2 = self.save_registers(nargs);
        let pushed_args2 = self.set_arguments(args, line);
        self.push_op(AsmInst::Mov(Operand::Reg(Register::Rbx), Operand::Reg(Register::Rdi)));
        self.push_op(AsmInst::Push(Register::Rdi));
        self.push_op(AsmInst::Mov(Operand::Reg(Register::Rdi), Operand::Reg(Register::Rbx)));
        self.push_op(AsmInst::CallReg(Register::Rax));
        self.push_op(AsmInst::Pop(Register::Rdi));
        self.unset_arguments(pushed_args2);
        self.restore_registers(&saved_regs2);
        self.store_rax_in_var(res_var, line);
    }
}

/// The System V argument registers, in order.
fn argument_registers() -> (r: Vec<Register>)
    ensures
        r@.len() == 6,
        forall|k: int| 0 <= k < 6 ==> r@[k] == crate::var_allocator::argument_register(k),
{
    let mut v: Vec<Register> = Vec::new();
    v.push(Register::Rdi);
    v.push(Register::Rsi);
    v.push(Register::Rdx);
    v.push(Register::Rcx);
    v.push(Register::R8);
    v.push(Register::R9);
    v
}

/// The caller-saved registers a call site may need to preserve.
fn caller_saved_registers() -> (r: Vec<Register>)
    ensures
        r@ == caller_saved(),
        r@.len() == 8,
{
    let mut v: Vec<Register> = Vec::new();
    v.push(Register::Rcx);
    v.push(Register::Rdx);
    v.push(Register::Rsi);
    v.push(Register::Rdi);
    v.push(Register::R8);
    v.push(Register::R9);
    v.push(Register::R10);
    v.push(Register::R11);
    v
}

/// `a` is an initial segment of `b`.
pub open spec fn prefix_ops(a: Seq<AsmInst>, b: Seq<AsmInst>) -> bool {
    a.len() <= b.len() && forall|i: int| 0 <= i < a.len() ==> a[i] == #[trigger] b[i]
}

proof fn lemma_prefix_trans(a: Seq<AsmInst>, b: Seq<AsmInst>, c: Seq<AsmInst>)
    requires
        prefix_ops(a, b),
        prefix_ops(b, c),
    ensures
        prefix_ops(a, c),
{
    assert forall|i: int| 0 <= i < a.len() implies a[i] == #[trigger] c[i] by {
        assert(a[i] == b[i]);
    }
}

/// The conditions under which emission is defined: the sizes fit the
/// machine arithmetic, the liveness pass knows every variable, and the
/// tracker knows every callee.
pub open spec fn spec_validate(
    instrs: Seq<IrM>,
    params: Seq<Seq<char>>,
    names: Map<Seq<char>, int>,
) -> bool {
    &&& instrs.len() <= i64::MAX
    &&& 8 * params.len() <= i64::MAX
    &&& irs_covered(instrs, lt_checker(instrs, params))
    &&& calls_known(instrs, names)
}

/// Checks, at run time, that the instructions meet the preconditions of
/// `generate` — exactly the conditions of `spec_validate`.  A well-formed
/// pipeline always passes; a program that slipped past the static checks
/// is caught here instead of faulting.
pub fn validate_for_emission(
    instructions: &Vec<IrInstruction>,
    parameters: &parser::Parameters,
    function_tracker: &FunctionTracker,
) -> (r: bool)
    ensures
        r == spec_validate(
            irs_m(instructions@),
            str_views(parameters@),
            function_tracker.name_map(),
        ),
{
    let ghost irs = irs_m(instructions@);
    let ghost names = function_tracker.name_map();
    if (parameters.len() as u64) > (i64::MAX as u64) / 8 {
        proof {
            assert(parameters@.len() >= 0x1000_0000_0000_0000);
            assert(8 * parameters@.len() >= 0x8000_0000_0000_0000);
        }
        return false;
    }
    if (instructions.len() as u64) > (i64::MAX as u64) {
        return false;
    }
    let lt = lifetime::get_checker(instructions, parameters);
    let ghost ltm = lt_checker(irs_m(instructions@), str_views(parameters@));
    let n = instructions.len();
    let mut l: usize = 0;
    while l < n
        invariant
            l <= n,
            n == instructions@.len(),
            irs == irs_m(instructions@),
            names == function_tracker.name_map(),
            ltm == lt_checker(irs_m(instructions@), str_views(parameters@)),
            lt@ == ltm,
            forall|p: int| 0 <= p < l ==> inst_covered(#[trigger] irs[p], ltm),
            forall|p: int|
                0 <= p < l ==> (#[trigger] irs[p] matches IrM::Call(_, f, _)
                    ==> names.dom().contains(f)),
        decreases n - l,
    {
        let ok = match &instructions[l] {
            IrInstruction::Jump(_) => true,
            IrInstruction::Label(_) => true,
            IrInstruction::KeepAlive(_) => true,
            IrInstruction::JumpFalse(d, _) => check_data(d, &lt),
            IrInstruction::Return(d) => check_data(d, &lt),
            IrInstruction::Assignment(res, d) => lt.has_lifetime(res.as_str()) && check_data(
                d,
                &lt,
            ),
            IrInstruction::BinaryOperation(_, res, d1, d2) => lt.has_lifetime(res.as_str())
                && check_data(d1, &lt) && check_data(d2, &lt),
            IrInstruction::FunctionCall(res, fun_name, args) => {
                let res_ok = lt.has_lifetime(res.as_str());
                let known = function_tracker.knows_function(fun_name);
                let k = args.len();
                let mut args_ok = true;
                let mut j: usize = 0;
                while j < k
                    invariant
                        j <= k,
                        k == args@.len(),
                        lt@ == ltm,
                        args_ok == datas_covered_upto(datas_m(args@), ltm, j as int),
                    decreases k - j,
                {
                    if !check_data(&args[j], &lt) {
                        args_ok = false;
                    }
                    proof {
                        assert(datas_m(args@)[j as int] == data_m(args@[j as int]));
                    }
                    j += 1;
                }
                proof {
                    assert(args_ok == datas_covered(datas_m(args@), ltm)) by {
                        if datas_covered_upto(datas_m(args@), ltm, k as int) {
                            assert(forall|q: int|
                                0 <= q < datas_m(args@).len() ==> data_covered(
                                    #[trigger] datas_m(args@)[q],
                                    ltm,
                                ));
                        } else {
                            if datas_covered(datas_m(args@), ltm) {
                                assert(datas_covered_upto(datas_m(args@), ltm, k as int));
                            }
                        }
                    }
                    assert(irs[l as int] == IrM::Call(res@, fun_name@, datas_m(args@)));
                }
                res_ok && known && args_ok
            },
        };
        proof {
            assert(ok == (inst_covered(irs[l as int], ltm) && (irs[l as int] matches IrM::Call(
                _,
                f,
                _,
            ) ==> names.dom().contains(f))));
        }
        if !ok {
            proof {
                if spec_validate(irs, str_views(parameters@), names) {
                    assert(inst_covered(irs[l as int], ltm));
                }
            }
            return false;
        }
        l += 1;
    }
    true
}

/// The first `k` operands all read known variables.
pub open spec fn datas_covered_upto(ds: Seq<DataM>, lt: Seq<lifetime::LtM>, k: int) -> bool {
    forall|q: int| 0 <= q < k && q < ds.len() ==> data_covered(#[trigger] ds[q], lt)
}

/// Whether the liveness pass knows the variable this operand reads.
fn check_data(d: &Data, lt: &LifetimeChecker) -> (r: bool)
    ensures
        r == data_covered(data_m(*d), lt@),
{
    match d {
        Data::Number(_) => true,
        Data::Variable(v) => lt.has_lifetime(v.as_str()),
    }
}

/// Emits a whole function: the prologue, one block of instructions per
/// intermediate-representation line, and an implicit `return 0` in case
/// control falls off the end.  The emitted sequence is exactly the
/// functional mirror `spec_generate` of the input; emission succeeds
/// precisely when the instructions hold no division or modulo, which this
/// emitter does not implement.
#[verifier::rlimit(80)]
pub fn generate(
    instructions: &Vec<IrInstruction>,
    parameters: &parser::Parameters,
    function_tracker: &FunctionTracker,
    tracker_address: i64,
    resolver_address: u64,
) -> (r: Result<Vec<AsmInst>, EmitError>)
    requires
        instructions@.len() <= i64::MAX,
        8 * parameters@.len() <= i64::MAX,
        irs_covered(irs_m(instructions@), lt_checker(irs_m(instructions@), str_views(parameters@))),
        calls_known(irs_m(instructions@), function_tracker.name_map()),
    ensures
        r is Ok <==> !has_div_mod(irs_m(instructions@)),
        r matches Err(e) ==> e == EmitError::NotImplemented,
        r matches Ok(ops) ==> {
            &&& ops@ == spec_generate(
                irs_m(instructions@),
                str_views(parameters@),
                function_tracker.name_map(),
                tracker_address,
                resolver_address,
            )
            &&& ops@.len() > 9
            &&& ops@.take(9) == prologue_ops()
            &&& rets_restore(ops@)
            &&& ops@.last() == AsmInst::Ret
        },
{
    let ghost irs = irs_m(instructions@);
    let ghost ltm = lt_checker(irs_m(instructions@), str_views(parameters@));
    let ghost names = function_tracker.name_map();
    let lt = lifetime::get_checker(instructions, parameters);
    proof {
        lifetime::lemma_checker_has_params(irs_m(instructions@), str_views(parameters@));
        assert forall|i: int|
            0 <= i < parameters@.len() implies lt_has(lt@, (#[trigger] parameters@[i])@) by {
            assert(str_views(parameters@)[i] == parameters@[i]@);
        }
    }
    let mut lt = lt;
    let allocator = VariableAllocator::new(parameters, &mut lt);
    let mut generator = CodeGenerator {
        lifetime_checker: lt,
        variable_allocator: allocator,
        instructions: Vec::new(),
        labels: Vec::new(),
        label_count: 1,
    };
    proof {
        assert(rets_restore(generator.ops())) by {
            assert(generator.ops().len() == 0);
        }
    }
    generator.push_op(AsmInst::Push(Register::Rbp));
    generator.push_op(AsmInst::Mov(Operand::Reg(Register::Rax), Operand::Reg(Register::Rsp)));
    generator.push_op(AsmInst::Add(Operand::Reg(Register::Rax), Operand::Imm(8)));
    generator.push_op(AsmInst::Mov(Operand::Reg(Register::Rbp), Operand::Reg(Register::Rax)));
    generator.push_op(AsmInst::Push(Register::Rbx));
    generator.push_op(AsmInst::Push(Register::R12));
    generator.push_op(AsmInst::Push(Register::R13));
    generator.push_op(AsmInst::Push(Register::R14));
    generator.push_op(AsmInst::Push(Register::R15));
    proof {
        assert(generator.ops() =~= prologue_ops());
        assert(generator.st().labels =~= Seq::<(Seq<char>, u64)>::empty());
        assert(generator.st().vars =~= init_vars(str_views(parameters@), ltm)) by {
            assert forall|i: int|
                0 <= i < parameters@.len() implies generator.st().vars[i] == init_vars(
                str_views(parameters@),
                ltm,
            )[i] by {
                assert(str_views(parameters@)[i] == parameters@[i]@);
            }
        }
        assert(generator.st() == init_state(str_views(parameters@), ltm));
    }
    let n = instructions.len();
    let mut line: usize = 0;
    while line < n
        invariant
            line <= n,
            n == instructions@.len(),
            n <= i64::MAX,
            irs == irs_m(instructions@),
            ltm == lt_checker(irs_m(instructions@), str_views(parameters@)),
            names == function_tracker.name_map(),
            generator.wf(),
            generator.ops().len() >= 9,
            generator.ops().take(9) == prologue_ops(),
            generator.lt() == ltm,
            irs_covered(irs, ltm),
            calls_known(irs, names),
            !has_div_mod(irs.take(line as int)),
            generator.st() == sp_lines(
                init_state(str_views(parameters@), ltm),
                ltm,
                irs,
                names,
                tracker_address,
                resolver_address,
                line as int,
            ),
        decreases n - line,
    {
        proof {
            assert(inst_covered(irs[line as int], generator.lt()));
        }
        let ghost mid = generator.ops();
        let ghost st_mid = generator.st();
        let l64 = line as u64;
        match &instructions[line] {
            IrInstruction::Jump(label) => {
                generator.generate_jump(label);
            },
            IrInstruction::JumpFalse(data, label) => {
                generator.generate_jump_false(data, label, l64);
            },
            IrInstruction::Label(label) => {
                generator.generate_label(label);
            },
            IrInstruction::FunctionCall(res_var, fun_name, args) => {
                let callee_id = function_tracker.get_id(fun_name);
                proof {
                    assert(callee_id == names[fun_name@] as i64);
                }
                generator.generate_function_call(
                    res_var,
                    callee_id,
                    args,
                    tracker_address,
                    resolver_address,
                    l64,
                );
            },
            IrInstruction::BinaryOperation(op, res_var, data1, data2) => {
                match op {
                    BinaryOperator::Addition => {
                        generator.generate_add_sub(true, res_var, data1, data2, l64);
                    },
                    BinaryOperator::Subtraction => {
                        generator.generate_add_sub(false, res_var, data1, data2, l64);
                    },
                    BinaryOperator::Multiplication => {
                        generator.generate_multiplication(res_var, data1, data2, l64);
                    },
                    BinaryOperator::Division => {
                        proof {
                            assert(has_div_mod(irs)) by {
                                assert(irs[line as int] matches IrM::Bin(o, _, _, _)
                                    && (o == BinaryOperator::Division || o
                                    == BinaryOperator::Modulo));
                            }
                        }
                        return Err(EmitError::NotImplemented);
                    },
                    BinaryOperator::Modulo => {
                        proof {
                            assert(has_div_mod(irs)) by {
                                assert(irs[line as int] matches IrM::Bin(o, _, _, _)
                                    && (o == BinaryOperator::Division || o
                                    == BinaryOperator::Modulo));
                            }
                        }
                        return Err(EmitError::NotImplemented);
                    },
                    BinaryOperator::Greater => {
                        generator.generate_condition(
                            Condition::Greater,
                            res_var,
                            data1,
                            data2,
                            l64,
                        );
                    },
                    BinaryOperator::GreaterEquals => {
                        generator.generate_condition(
                            Condition::GreaterEquals,
                            res_var,
                            data1,
                            data2,
                            l64,
                        );
                    },
                    BinaryOperator::Less => {
                        generator.generate_condition(Condition::Less, res_var, data1, data2, l64);
                    },
                    BinaryOperator::LessEquals => {
                        generator.generate_condition(
                            Condition::LessEquals,
                            res_var,
                            data1,
                            data2,
                            l64,
                        );
                    },
                    BinaryOperator::Equals => {
                        generator.generate_condition(
                            Condition::Equals,
                            res_var,
                            data1,
                            data2,
                            l64,
                        );
                    },
                    BinaryOperator::NotEquals => {
                        generator.generate_condition(
                            Condition::NotEquals,
                            res_var,
                            data1,
                            data2,
                            l64,
                        );
                    },
                    BinaryOperator::LogicAnd => {
                        generator.generate_logic(true, res_var, data1, data2, l64);
                    },
                    BinaryOperator::LogicOr => {
                        generator.generate_logic(false, res_var, data1, data2, l64);
                    },
                }
            },
            IrInstruction::Assignment(res_var, data) => {
                generator.generate_assignment(res_var, data, l64);
            },
            IrInstruction::Return(data) => {
                generator.generate_return(data, l64);
            },
            IrInstruction::KeepAlive(_) => (),
        }
        proof {
            assert(generator.ops().take(9) =~= mid.take(9));
            assert(generator.st() == sp_inst(
                st_mid,
                ltm,
                irs[line as int],
                l64,
                names,
                tracker_address,
                resolver_address,
            ));
            assert(!has_div_mod(irs.take(line + 1))) by {
                if has_div_mod(irs.take(line + 1)) {
                    let l = choose|l: int|
                        0 <= l < irs.take(line + 1).len() && (#[trigger] irs.take(line + 1)[l]
                            matches IrM::Bin(o, _, _, _) && (o == BinaryOperator::Division || o
                            == BinaryOperator::Modulo));
                    if l < line {
                        assert(irs.take(line as int)[l] == irs.take(line + 1)[l]);
                    }
                }
            }
        }
        line += 1;
    }
    // control must not fall off the end: return 0
    let zero = Data::Number(0);
    let ghost before_final = generator.ops();
    generator.generate_return(&zero, 0);
    proof {
        assert(generator.ops().take(9) =~= before_final.take(9));
        assert(generator.ops().last() == AsmInst::Ret) by {
            assert(generator.ops().skip(generator.ops().len() - 10)[9] == epilogue_ops()[9]);
        }
        assert(irs.take(n as int) =~= irs);
        assert(generator.ops() == spec_generate(
            irs_m(instructions@),
            str_views(parameters@),
            function_tracker.name_map(),
            tracker_address,
            resolver_address,
        ));
    }
    Ok(generator.instructions)
}

} // verus!
