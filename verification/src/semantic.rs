//! Static-semantic checks, run before conversion: no duplicate function
//! names, no duplicate parameters, no variable read before its first
//! assignment, and every call names a known function with the right
//! number of arguments.
//!
//! The whole check is specified by the functional mirror `spec_check`;
//! `check` is proved to return exactly the mirror's verdict, including
//! which error is reported first.

use vstd::prelude::*;
use crate::parser::{
    self, Expression, Statement, ExprM, StmtM, expr_m, exprs_m, stmt_m, block_m, str_views,
};
use crate::ssa::{FunDeclM, prog_m};
use crate::names::str_eq;

verus! {

#[derive(Debug, PartialEq)]
pub enum SemanticError {
    DuplicateParameter(String),
    DuplicateFunction(String),
    FunctionArgumentCountMissmatch(String),
    VariableUsedBeforeInit,
    FunctionDoesNotExist(String),
}

pub type SemanticResult = Result<(), SemanticError>;

/// Model of a reported error.
pub enum SemErrM {
    DuplicateParameter(Seq<char>),
    DuplicateFunction(Seq<char>),
    FunctionArgumentCountMissmatch(Seq<char>),
    VariableUsedBeforeInit,
    FunctionDoesNotExist(Seq<char>),
}

pub open spec fn err_m(e: SemanticError) -> SemErrM {
    match e {
        SemanticError::DuplicateParameter(f) => SemErrM::DuplicateParameter(f@),
        SemanticError::DuplicateFunction(f) => SemErrM::DuplicateFunction(f@),
        SemanticError::FunctionArgumentCountMissmatch(f) => SemErrM::FunctionArgumentCountMissmatch(
            f@,
        ),
        SemanticError::VariableUsedBeforeInit => SemErrM::VariableUsedBeforeInit,
        SemanticError::FunctionDoesNotExist(f) => SemErrM::FunctionDoesNotExist(f@),
    }
}

pub open spec fn res_m(r: SemanticResult) -> Result<(), SemErrM> {
    match r {
        Ok(()) => Ok(()),
        Err(e) => Err(err_m(e)),
    }
}

// ------------------------------------------------------------------
// the functional mirror

/// The first name that repeats an earlier one, scanning left to right.
pub open spec fn first_duplicate(names: Seq<Seq<char>>) -> Option<Seq<char>>
    decreases names,
{
    if names.len() == 0 {
        None
    } else {
        match first_duplicate(names.drop_last()) {
            Some(d) => Some(d),
            None => if names.drop_last().contains(names.last()) {
                Some(names.last())
            } else {
                None
            },
        }
    }
}

/// An environment: a stack of scopes, each a list of initialised names.
pub type EnvM = Seq<Seq<Seq<char>>>;

pub open spec fn env_has(env: EnvM, x: Seq<char>) -> bool
    decreases env,
{
    if env.len() == 0 {
        false
    } else {
        env_has(env.drop_last(), x) || env.last().contains(x)
    }
}

/// Every variable the expression reads is initialised.
pub open spec fn ck_expr(env: EnvM, e: ExprM) -> bool
    decreases e,
{
    match e {
        ExprM::Number(_) => true,
        ExprM::Variable(v) => env_has(env, v),
        ExprM::Binary(_, b) => ck_expr(env, b.0) && ck_expr(env, b.1),
        ExprM::Call(_, args) => ck_exprs(env, args),
    }
}

pub open spec fn ck_exprs(env: EnvM, s: Seq<ExprM>) -> bool
    decreases s,
{
    forall|i: int| 0 <= i < s.len() ==> ck_expr(env, #[trigger] s[i])
}

/// Walks a block: assignments first check their expression, then add the
/// target to the innermost scope; nested blocks get a scope of their own
/// that vanishes afterwards.
pub open spec fn sv_stmt(env: EnvM, s: StmtM) -> (bool, EnvM)
    decreases s,
{
    match s {
        StmtM::Assign(x, e) => (
            ck_expr(env, e),
            env.drop_last().push(env.last().push(x)),
        ),
        StmtM::Call(_, args) => (ck_exprs(env, args), env),
        StmtM::If(c, b) => (
            ck_expr(env, c) && sv_block(env.push(Seq::empty()), b).0,
            env,
        ),
        StmtM::While(c, b) => (
            ck_expr(env, c) && sv_block(env.push(Seq::empty()), b).0,
            env,
        ),
        StmtM::Return(e) => (ck_expr(env, e), env),
    }
}

pub open spec fn sv_block(env: EnvM, b: Seq<StmtM>) -> (bool, EnvM)
    decreases b,
{
    if b.len() == 0 {
        (true, env)
    } else {
        let (ok, env1) = sv_block(env, b.drop_last());
        let (ok2, env2) = sv_stmt(env1, b.last());
        (ok && ok2, env2)
    }
}

/// The declared functions: each name with its parameter count.
pub type DeclsM = Seq<(Seq<char>, int)>;

/// The first declaration carrying this name.
pub open spec fn find_decl(decls: DeclsM, name: Seq<char>) -> Option<int>
    decreases decls.len(),
{
    if decls.len() == 0 {
        None
    } else if decls[0].0 == name {
        Some(decls[0].1)
    } else {
        find_decl(decls.subrange(1, decls.len() as int), name)
    }
}

/// What checking one call site reports.
pub open spec fn fe_call(decls: DeclsM, name: Seq<char>, n_args: int) -> Option<SemErrM> {
    match find_decl(decls, name) {
        None => Some(SemErrM::FunctionDoesNotExist(name)),
        Some(arity) => if arity != n_args {
            Some(SemErrM::FunctionArgumentCountMissmatch(name))
        } else {
            None
        },
    }
}

/// The first call error in an expression, calls before their arguments.
pub open spec fn fe_expr(decls: DeclsM, e: ExprM) -> Option<SemErrM>
    decreases e,
{
    match e {
        ExprM::Number(_) => None,
        ExprM::Variable(_) => None,
        ExprM::Binary(_, b) => {
            match fe_expr(decls, b.0) {
                Some(err) => Some(err),
                None => fe_expr(decls, b.1),
            }
        },
        ExprM::Call(f, args) => {
            match fe_call(decls, f, args.len() as int) {
                Some(err) => Some(err),
                None => fe_exprs(decls, args),
            }
        },
    }
}

pub open spec fn fe_exprs(decls: DeclsM, s: Seq<ExprM>) -> Option<SemErrM>
    decreases s,
{
    if s.len() == 0 {
        None
    } else {
        match fe_exprs(decls, s.drop_last()) {
            Some(err) => Some(err),
            None => fe_expr(decls, s.last()),
        }
    }
}

pub open spec fn fe_stmt(decls: DeclsM, s: StmtM) -> Option<SemErrM>
    decreases s,
{
    match s {
        StmtM::Assign(_, e) => fe_expr(decls, e),
        StmtM::Call(f, args) => {
            match fe_call(decls, f, args.len() as int) {
                Some(err) => Some(err),
                None => fe_exprs(decls, args),
            }
        },
        StmtM::If(c, b) => {
            match fe_expr(decls, c) {
                Some(err) => Some(err),
                None => fe_block(decls, b),
            }
        },
        StmtM::While(c, b) => {
            match fe_expr(decls, c) {
                Some(err) => Some(err),
                None => fe_block(decls, b),
            }
        },
        StmtM::Return(e) => fe_expr(decls, e),
    }
}

pub open spec fn fe_block(decls: DeclsM, b: Seq<StmtM>) -> Option<SemErrM>
    decreases b,
{
    if b.len() == 0 {
        None
    } else {
        match fe_block(decls, b.drop_last()) {
            Some(err) => Some(err),
            None => fe_stmt(decls, b.last()),
        }
    }
}

/// The name and parameter count of every declared function, in order.
pub open spec fn decls_of(fs: Seq<FunDeclM>) -> DeclsM
    decreases fs,
{
    if fs.len() == 0 {
        Seq::empty()
    } else {
        decls_of(fs.drop_last()).push(
            match fs.last() {
                FunDeclM::Internal(n, ps, _) => (n, ps.len() as int),
                FunDeclM::External(e) => (e.name, e.parameters.len() as int),
            },
        )
    }
}

pub open spec fn names_of(fs: Seq<FunDeclM>) -> Seq<Seq<char>>
    decreases fs,
{
    if fs.len() == 0 {
        Seq::empty()
    } else {
        names_of(fs.drop_last()).push(
            match fs.last() {
                FunDeclM::Internal(n, _, _) => n,
                FunDeclM::External(e) => e.name,
            },
        )
    }
}

/// Per-function checks, in declaration order: duplicate parameters, reads
/// before initialisation, unknown or misused callees.
pub open spec fn check_funs(decls: DeclsM, fs: Seq<FunDeclM>) -> Result<(), SemErrM>
    decreases fs,
{
    if fs.len() == 0 {
        Ok(())
    } else {
        match check_funs(decls, fs.drop_last()) {
            Err(e) => Err(e),
            Ok(()) => match fs.last() {
                FunDeclM::External(_) => Ok(()),
                FunDeclM::Internal(n, ps, b) => {
                    if first_duplicate(ps) is Some {
                        Err(SemErrM::DuplicateParameter(n))
                    } else if !sv_block(seq![ps], b).0 {
                        Err(SemErrM::VariableUsedBeforeInit)
                    } else {
                        match fe_block(decls, b) {
                            Some(err) => Err(err),
                            None => Ok(()),
                        }
                    }
                },
            },
        }
    }
}

/// The whole check: duplicate function names first, then each function.
pub open spec fn spec_check(fs: Seq<FunDeclM>) -> Result<(), SemErrM> {
    match first_duplicate(names_of(fs)) {
        Some(d) => Err(SemErrM::DuplicateFunction(d)),
        None => check_funs(decls_of(fs), fs),
    }
}

// ------------------------------------------------------------------
// executable checks

/// Whether one scope holds `var`.
fn scope_has(stack: &Vec<String>, var: &String) -> (r: bool)
    ensures
        r == str_views(stack@).contains(var@),
{
    let n = stack.len();
    let mut i: usize = 0;
    while i < n
        invariant
            i <= n,
            n == stack@.len(),
            forall|k: int| 0 <= k < i ==> str_views(stack@)[k] != var@,
        decreases n - i,
    {
        if str_eq(stack[i].as_str(), var.as_str()) {
            proof {
                assert(str_views(stack@)[i as int] == var@);
            }
            return true;
        }
        proof {
            assert(str_views(stack@)[i as int] == stack@[i as int]@);
        }
        i += 1;
    }
    proof {
        if str_views(stack@).contains(var@) {
            let k = choose|k: int|
                0 <= k < str_views(stack@).len() && str_views(stack@)[k] == var@;
            assert(false);
        }
    }
    false
}

/// Whether any scope of the environment holds `var`.
pub fn contains_var(vars: &Vec<Vec<String>>, var: String) -> (r: bool)
    ensures
        r == env_has(env_of(vars@), var@),
{
    let n = vars.len();
    let mut i: usize = 0;
    while i < n
        invariant
            i <= n,
            n == vars@.len(),
            !env_has(env_of(vars@.take(i as int)), var@),
        decreases n - i,
    {
        let ghost pre = vars@.take(i as int);
        if scope_has(&vars[i], &var) {
            proof {
                lemma_env_of_take_has(vars@, i as int, var@);
            }
            return true;
        }
        proof {
            assert(vars@.take(i + 1) =~= pre.push(vars@[i as int]));
            assert(pre.push(vars@[i as int]).drop_last() =~= pre);
            assert(env_of(pre).push(str_views(vars@[i as int]@)).drop_last() =~~= env_of(pre));
        }
        i += 1;
    }
    proof {
        assert(vars@.take(n as int) =~= vars@);
    }
    false
}

/// The scopes' views.
pub open spec fn env_of(vars: Seq<Vec<String>>) -> EnvM
    decreases vars,
{
    if vars.len() == 0 {
        Seq::empty()
    } else {
        env_of(vars.drop_last()).push(str_views(vars.last()@))
    }
}

proof fn lemma_env_of_take_has(vars: Seq<Vec<String>>, i: int, x: Seq<char>)
    requires
        0 <= i < vars.len(),
        str_views(vars[i]@).contains(x),
    ensures
        env_has(env_of(vars), x),
    decreases vars.len(),
{
    if i == vars.len() - 1 {
        assert(env_of(vars).last() == str_views(vars[i]@));
    } else {
        assert(vars.drop_last()[i] == vars[i]);
        lemma_env_of_take_has(vars.drop_last(), i, x);
        assert(env_of(vars).drop_last() =~= env_of(vars.drop_last()));
    }
}

proof fn lemma_env_of_len(vars: Seq<Vec<String>>)
    ensures
        env_of(vars).len() == vars.len(),
    decreases vars,
{
    if vars.len() > 0 {
        lemma_env_of_len(vars.drop_last());
    }
}

/// Every variable the expression reads is initialised.
pub fn check_vars_in_expression(vars: &mut Vec<Vec<String>>, expression: &Expression) -> (r:
    SemanticResult)
    ensures
        final(vars)@ == old(vars)@,
        res_m(r) == (if ck_expr(env_of(old(vars)@), expr_m(*expression)) {
            Ok(())
        } else {
            Err(SemErrM::VariableUsedBeforeInit)
        }),
    decreases parser::expr_size(expr_m(*expression)),
{
    match expression {
        Expression::Number(_) => Ok(()),
        Expression::Variable(v) => {
            if contains_var(vars, v.clone()) {
                Ok(())
            } else {
                Err(SemanticError::VariableUsedBeforeInit)
            }
        },
        Expression::BinaryOperation(_, b) => {
            let r1 = check_vars_in_expression(vars, &b.0);
            if r1.is_err() {
                return r1;
            }
            check_vars_in_expression(vars, &b.1)
        },
        Expression::FunctionCall(fc) => {
            let n = fc.arguments.len();
            let mut i: usize = 0;
            while i < n
                invariant
                    i <= n,
                    n == fc.arguments@.len(),
                    vars@ == old(vars)@,
                    expr_m(*expression) == ExprM::Call(fc.name@, exprs_m(fc.arguments@)),
                    forall|k: int|
                        0 <= k < i ==> ck_expr(
                            env_of(old(vars)@),
                            #[trigger] exprs_m(fc.arguments@)[k],
                        ),
                decreases n - i,
            {
                proof {
                    parser::lemma_exprs_m_len(fc.arguments@);
                    assert(expr_m(fc.arguments@[i as int]) == exprs_m(fc.arguments@)[i as int]);
                    parser::lemma_exprs_size_elem(exprs_m(fc.arguments@), i as int);
                }
                let r = check_vars_in_expression(vars, &fc.arguments[i]);
                if r.is_err() {
                    proof {
                        assert(!ck_exprs(env_of(old(vars)@), exprs_m(fc.arguments@))) by {
                            assert(!ck_expr(
                                env_of(old(vars)@),
                                exprs_m(fc.arguments@)[i as int],
                            ));
                        }
                    }
                    return r;
                }
                i += 1;
            }
            proof {
                parser::lemma_exprs_m_len(fc.arguments@);
                assert(ck_exprs(env_of(old(vars)@), exprs_m(fc.arguments@)));
            }
            Ok(())
        },
    }
}

/// Walks a block scope by scope, recording assignments as they happen.
pub fn check_variable_use_before_init(
    known_vars: &mut Vec<Vec<String>>,
    block: &parser::Block,
) -> (r: SemanticResult)
    requires
        old(known_vars)@.len() >= 1,
    ensures
        ({
            let (ok, env2) = sv_block(env_of(old(known_vars)@), block_m(block@));
            &&& res_m(r) == (if ok {
                Ok(())
            } else {
                Err(SemErrM::VariableUsedBeforeInit)
            })
            &&& r is Ok ==> env_of(final(known_vars)@) == env2 && final(known_vars)@.len() >= 1
        }),
    decreases parser::block_size(block_m(block@)), 1int,
{
    let n = block.len();
    let mut i: usize = 0;
    while i < n
        invariant
            i <= n,
            n == block@.len(),
            known_vars@.len() >= 1,
            sv_block(env_of(old(known_vars)@), block_m(block@).take(i as int)).0,
            env_of(known_vars@) == sv_block(
                env_of(old(known_vars)@),
                block_m(block@).take(i as int),
            ).1,
        decreases n - i,
    {
        let ghost bm = block_m(block@);
        let ghost env_in = env_of(known_vars@);
        proof {
            parser::lemma_block_m_len(block@);
            assert(stmt_m(block@[i as int]) == bm[i as int]);
            parser::lemma_block_size_elem(bm, i as int);
            assert(bm.take(i + 1) =~= bm.take(i as int).push(bm[i as int]));
            assert(bm.take(i as int).push(bm[i as int]).drop_last() =~= bm.take(i as int));
        }
        match &block[i] {
            Statement::Assignment(a) => {
                let r = check_vars_in_expression(known_vars, &a.expression);
                if r.is_err() {
                    proof {
                        assert(!sv_stmt(env_in, block_m(block@)[i as int]).0);
                        lemma_sv_false_propagates(
                            env_of(old(known_vars)@),
                            block_m(block@),
                            i as int,
                        );
                    }
                    return r;
                }
                let ghost v0 = known_vars@;
                let mut vars = match known_vars.pop() {
                    Some(v) => v,
                    None => {
                        proof {
                            assert(false);
                        }
                        Vec::new()
                    },
                };
                let ghost w0 = vars@;
                vars.push(a.variable_name.clone());
                known_vars.push(vars);
                proof {
                    assert(env_in == env_of(v0.drop_last()).push(str_views(v0.last()@)));
                    assert(env_in.drop_last() =~~= env_of(v0.drop_last()));
                    assert(env_in.last() == str_views(v0.last()@));
                    assert(w0 == v0.last()@);
                    assert(known_vars@.drop_last() =~= v0.drop_last());
                    assert(str_views(known_vars@.last()@) =~~= str_views(w0).push(
                        a.variable_name@,
                    ));
                    assert(env_of(known_vars@) == env_of(known_vars@.drop_last()).push(
                        str_views(known_vars@.last()@),
                    ));
                    assert(env_of(known_vars@) =~~= env_in.drop_last().push(
                        env_in.last().push(a.variable_name@),
                    ));
                    assert(env_of(known_vars@) == sv_stmt(env_in, bm[i as int]).1);
                    assert(sv_stmt(env_in, bm[i as int]).0);
                }
            },
            Statement::FunctionCall(f) => {
                let k = f.arguments.len();
                let mut j: usize = 0;
                while j < k
                    invariant
                        j <= k,
                        k == f.arguments@.len(),
                        known_vars@.len() >= 1,
                        env_of(known_vars@) == env_in,
                        i < block_m(block@).len(),
                        block_m(block@)[i as int] == StmtM::Call(f.name@, exprs_m(f.arguments@)),
                        sv_block(
                            env_of(old(known_vars)@),
                            block_m(block@).take(i as int),
                        ).0,
                        env_in == sv_block(
                            env_of(old(known_vars)@),
                            block_m(block@).take(i as int),
                        ).1,
                        forall|p: int|
                            0 <= p < j ==> ck_expr(env_in, #[trigger] exprs_m(f.arguments@)[p]),
                    decreases k - j,
                {
                    proof {
                        parser::lemma_exprs_m_len(f.arguments@);
                        assert(expr_m(f.arguments@[j as int]) == exprs_m(f.arguments@)[j as int]);
                    }
                    let r = check_vars_in_expression(known_vars, &f.arguments[j]);
                    if r.is_err() {
                        proof {
                            assert(!ck_exprs(env_in, exprs_m(f.arguments@))) by {
                                assert(!ck_expr(env_in, exprs_m(f.arguments@)[j as int]));
                            }
                            assert(!sv_stmt(env_in, block_m(block@)[i as int]).0);
                            lemma_sv_false_propagates(
                                env_of(old(known_vars)@),
                                block_m(block@),
                                i as int,
                            );
                        }
                        return r;
                    }
                    j += 1;
                }
                proof {
                    parser::lemma_exprs_m_len(f.arguments@);
                    assert(ck_exprs(env_in, exprs_m(f.arguments@)));
                    assert(env_of(known_vars@) == sv_stmt(env_in, bm[i as int]).1);
                    assert(sv_stmt(env_in, bm[i as int]).0);
                }
            },
            Statement::IfStatement(st) => {
                let r = check_vars_in_expression(known_vars, &st.condition);
                if r.is_err() {
                    proof {
                        assert(!sv_stmt(env_in, block_m(block@)[i as int]).0);
                        lemma_sv_false_propagates(
                            env_of(old(known_vars)@),
                            block_m(block@),
                            i as int,
                        );
                    }
                    return r;
                }
                let ghost v_pre = known_vars@;
                known_vars.push(Vec::new());
                proof {
                    assert(known_vars@.drop_last() =~= v_pre);
                    assert(env_of(known_vars@) == env_of(known_vars@.drop_last()).push(
                        str_views(known_vars@.last()@),
                    ));
                    assert(str_views(known_vars@.last()@) =~~= Seq::<Seq<char>>::empty());
                    assert(env_of(known_vars@) =~~= env_in.push(Seq::empty()));
                }
                let r2 = check_variable_use_before_init(known_vars, &st.block);
                if r2.is_err() {
                    proof {
                        assert(!sv_stmt(env_in, block_m(block@)[i as int]).0);
                        lemma_sv_false_propagates(
                            env_of(old(known_vars)@),
                            block_m(block@),
                            i as int,
                        );
                    }
                    return r2;
                }
                let ghost v_before = known_vars@;
                known_vars.pop();
                proof {
                    assert(env_of(v_before) == env_of(v_before.drop_last()).push(
                        str_views(v_before.last()@),
                    ));
                    assert(env_of(v_before).drop_last() =~~= env_of(v_before.drop_last()));
                    lemma_sv_scopes(env_in.push(Seq::empty()), block_m(st.block@));
                    assert((env_in.push(Seq::empty())).drop_last() =~~= env_in);
                    assert(env_of(known_vars@) =~~= env_in);
                    lemma_env_of_len(known_vars@);
                    lemma_env_of_len(v_pre);
                    assert(env_of(known_vars@) == sv_stmt(env_in, bm[i as int]).1);
                    assert(sv_stmt(env_in, bm[i as int]).0);
                }
            },
            Statement::WhileLoop(l) => {
                let r = check_vars_in_expression(known_vars, &l.condition);
                if r.is_err() {
                    proof {
                        assert(!sv_stmt(env_in, block_m(block@)[i as int]).0);
                        lemma_sv_false_propagates(
                            env_of(old(known_vars)@),
                            block_m(block@),
                            i as int,
                        );
                    }
                    return r;
                }
                let ghost v_pre = known_vars@;
                known_vars.push(Vec::new());
                proof {
                    assert(known_vars@.drop_last() =~= v_pre);
                    assert(env_of(known_vars@) == env_of(known_vars@.drop_last()).push(
                        str_views(known_vars@.last()@),
                    ));
                    assert(str_views(known_vars@.last()@) =~~= Seq::<Seq<char>>::empty());
                    assert(env_of(known_vars@) =~~= env_in.push(Seq::empty()));
                }
                let r2 = check_variable_use_before_init(known_vars, &l.block);
                if r2.is_err() {
                    proof {
                        assert(!sv_stmt(env_in, block_m(block@)[i as int]).0);
                        lemma_sv_false_propagates(
                            env_of(old(known_vars)@),
                            block_m(block@),
                            i as int,
                        );
                    }
                    return r2;
                }
                let ghost v_before = known_vars@;
                known_vars.pop();
                proof {
                    assert(env_of(v_before) == env_of(v_before.drop_last()).push(
                        str_views(v_before.last()@),
                    ));
                    assert(env_of(v_before).drop_last() =~~= env_of(v_before.drop_last()));
                    lemma_sv_scopes(env_in.push(Seq::empty()), block_m(l.block@));
                    assert((env_in.push(Seq::empty())).drop_last() =~~= env_in);
                    assert(env_of(known_vars@) =~~= env_in);
                    lemma_env_of_len(known_vars@);
                    lemma_env_of_len(v_pre);
                    assert(env_of(known_vars@) == sv_stmt(env_in, bm[i as int]).1);
                    assert(sv_stmt(env_in, bm[i as int]).0);
                }
            },
            Statement::Return(e) => {
                let r = check_vars_in_expression(known_vars, e);
                if r.is_err() {
                    proof {
                        assert(!sv_stmt(env_in, block_m(block@)[i as int]).0);
                        lemma_sv_false_propagates(
                            env_of(old(known_vars)@),
                            block_m(block@),
                            i as int,
                        );
                    }
                    return r;
                }
                proof {
                    assert(env_of(known_vars@) == sv_stmt(env_in, bm[i as int]).1);
                    assert(sv_stmt(env_in, bm[i as int]).0);
                }
            },
        }
        i += 1;
    }
    proof {
        parser::lemma_block_m_len(block@);
        assert(block_m(block@).take(n as int) =~= block_m(block@));
    }
    Ok(())
}

/// Once some statement fails the walk, the whole block fails.
proof fn lemma_sv_false_propagates(env0: EnvM, b: Seq<StmtM>, i: int)
    requires
        0 <= i < b.len(),
        !sv_stmt(sv_block(env0, b.take(i)).1, b[i]).0,
    ensures
        !sv_block(env0, b).0,
    decreases b.len(),
{
    if i == b.len() - 1 {
        assert(b.take(i) =~= b.drop_last());
    } else {
        assert(b.drop_last().take(i) =~= b.take(i));
        assert(b.drop_last()[i] == b[i]);
        lemma_sv_false_propagates(env0, b.drop_last(), i);
    }
}

/// Popping the scope a nested block pushed restores the outer scopes,
/// because the walk never changes how many scopes there are or what the
/// outer ones hold.
proof fn lemma_sv_scopes(env: EnvM, b: Seq<StmtM>)
    requires
        env.len() >= 1,
    ensures
        ({
            let (ok, env2) = sv_block(env, b);
            env2.len() == env.len() && env2.drop_last() == env.drop_last()
        }),
    decreases b, 1nat,
{
    if b.len() > 0 {
        lemma_sv_scopes(env, b.drop_last());
        let env1 = sv_block(env, b.drop_last()).1;
        lemma_sv_stmt_scopes(env1, b.last());
    }
}

proof fn lemma_sv_stmt_scopes(env: EnvM, s: StmtM)
    requires
        env.len() >= 1,
    ensures
        ({
            let (ok, env2) = sv_stmt(env, s);
            env2.len() == env.len() && env2.drop_last() == env.drop_last()
        }),
    decreases s, 2nat,
{
    match s {
        StmtM::Assign(x, _) => {
            assert(sv_stmt(env, s).1.drop_last() =~= env.drop_last());
        },
        _ => (),
    }
}

/// The parameters of a function must be pairwise distinct.
pub fn check_duplicate_parameters(function: &parser::InternalFunction) -> (r: SemanticResult)
    ensures
        res_m(r) == (if first_duplicate(str_views(function.parameters@)) is Some {
            Err(SemErrM::DuplicateParameter(function.name@))
        } else {
            Ok(())
        }),
{
    match find_first_duplicate(&function.parameters) {
        Some(_) => Err(SemanticError::DuplicateParameter(function.name.clone())),
        None => Ok(()),
    }
}

/// The first name in the list that repeats an earlier one.
fn find_first_duplicate(names: &Vec<String>) -> (r: Option<String>)
    ensures
        match r {
            Some(d) => first_duplicate(str_views(names@)) == Some(d@),
            None => first_duplicate(str_views(names@)) is None,
        },
{
    let n = names.len();
    let mut i: usize = 0;
    while i < n
        invariant
            i <= n,
            n == names@.len(),
            first_duplicate(str_views(names@.take(i as int))) is None,
        decreases n - i,
    {
        let ghost pre = str_views(names@.take(i as int));
        let mut j: usize = 0;
        while j < i
            invariant
                j <= i,
                i < n,
                n == names@.len(),
                pre == str_views(names@.take(i as int)),
                pre.len() == i,
                first_duplicate(pre) is None,
                forall|k: int| 0 <= k < j ==> str_views(names@)[k] != names@[i as int]@,
            decreases i - j,
        {
            if str_eq(names[j].as_str(), names[i].as_str()) {
                proof {
                    assert(str_views(names@)[j as int] == names@[i as int]@);
                    assert(str_views(names@.take(i + 1)) =~= pre.push(names@[i as int]@));
                    assert(pre.push(names@[i as int]@).drop_last() =~= pre);
                    assert(pre =~= str_views(names@).take(i as int));
                    assert(pre.contains(names@[i as int]@)) by {
                        assert(pre[j as int] == str_views(names@)[j as int]);
                    }
                    lemma_first_dup_prefix(str_views(names@), i as int);
                }
                return Some(names[i].clone());
            }
            proof {
                assert(str_views(names@)[j as int] == names@[j as int]@);
            }
            j += 1;
        }
        proof {
            assert(str_views(names@.take(i + 1)) =~= pre.push(names@[i as int]@));
            assert(pre.push(names@[i as int]@).drop_last() =~= pre);
            if pre.contains(names@[i as int]@) {
                let k = choose|k: int| 0 <= k < pre.len() && pre[k] == names@[i as int]@;
                assert(pre[k] == str_views(names@)[k]);
                assert(false);
            }
        }
        i += 1;
    }
    proof {
        assert(str_views(names@.take(n as int)) =~= str_views(names@));
    }
    None
}

/// A duplicate found at position `i` settles the whole scan: everything
/// to the right cannot report first.
proof fn lemma_first_dup_prefix(names: Seq<Seq<char>>, i: int)
    requires
        0 <= i < names.len(),
        first_duplicate(names.take(i)) is None,
        names.take(i).contains(names[i]),
    ensures
        first_duplicate(names) == Some(names[i]),
    decreases names.len(),
{
    if i == names.len() - 1 {
        assert(names.take(i) =~= names.drop_last());
    } else {
        assert(names.drop_last().take(i) =~= names.take(i));
        assert(names.drop_last()[i] == names[i]);
        lemma_first_dup_prefix(names.drop_last(), i);
    }
}

/// The declared names, in order, with external declarations included.
fn function_names(program: &parser::Program) -> (r: Vec<String>)
    ensures
        str_views(r@) == names_of(prog_m(*program)),
{
    let mut names: Vec<String> = Vec::new();
    let n = program.functions.len();
    let mut i: usize = 0;
    while i < n
        invariant
            i <= n,
            n == program.functions@.len(),
            str_views(names@) == names_of(prog_m(*program).take(i as int)),
        decreases n - i,
    {
        let ghost pre = prog_m(*program).take(i as int);
        match &program.functions[i] {
            parser::Function::Internal(f) => {
                names.push(f.name.clone());
            },
            parser::Function::External(f) => {
                names.push(f.name.clone());
            },
        }
        proof {
            assert(prog_m(*program).take(i + 1) =~= pre.push(
                crate::ssa::fun_decl_m(program.functions@[i as int]),
            ));
            assert(pre.push(crate::ssa::fun_decl_m(program.functions@[i as int])).drop_last()
                =~= pre);
            assert(str_views(names@) =~~= names_of(prog_m(*program).take(i + 1)));
        }
        i += 1;
    }
    proof {
        assert(prog_m(*program).take(n as int) =~= prog_m(*program));
    }
    names
}

/// No two functions may share a name.
pub fn check_duplicate_functions(program: &parser::Program) -> (r: SemanticResult)
    ensures
        res_m(r) == (match first_duplicate(names_of(prog_m(*program))) {
            Some(d) => Err(SemErrM::DuplicateFunction(d)),
            None => Ok(()),
        }),
{
    let names = function_names(program);
    match find_first_duplicate(&names) {
        Some(d) => Err(SemanticError::DuplicateFunction(d)),
        None => Ok(()),
    }
}

/// The view of the declaration list the call checks walk.
pub open spec fn decls_m(s: Seq<(String, u64)>) -> DeclsM {
    s.map_values(|p: (String, u64)| (p.0@, p.1 as int))
}

proof fn lemma_find_decl_at(decls: DeclsM, j: int)
    requires
        0 <= j < decls.len(),
        forall|k: int| 0 <= k < j ==> (#[trigger] decls[k]).0 != decls[j].0,
    ensures
        find_decl(decls, decls[j].0) == Some(decls[j].1),
    decreases decls.len(),
{
    if j == 0 {
    } else {
        let t = decls.subrange(1, decls.len() as int);
        assert(t[j - 1] == decls[j]);
        assert(forall|k: int| 0 <= k < j - 1 ==> (#[trigger] t[k]).0 != t[j - 1].0);
        lemma_find_decl_at(t, j - 1);
    }
}

proof fn lemma_find_decl_absent(decls: DeclsM, name: Seq<char>)
    requires
        forall|k: int| 0 <= k < decls.len() ==> (#[trigger] decls[k]).0 != name,
    ensures
        find_decl(decls, name) is None,
    decreases decls.len(),
{
    if decls.len() > 0 {
        let t = decls.subrange(1, decls.len() as int);
        assert(forall|k: int| 0 <= k < t.len() ==> (#[trigger] t[k]).0 != name);
        lemma_find_decl_absent(t, name);
    }
}

/// One call site: the callee must exist and take this many arguments.
pub fn check_function(
    declared_function_names_and_arg_count: &Vec<(String, u64)>,
    function_call: &parser::FunctionCall,
) -> (r: SemanticResult)
    ensures
        res_m(r) == (match fe_call(
            decls_m(declared_function_names_and_arg_count@),
            function_call.name@,
            function_call.arguments@.len() as int,
        ) {
            Some(e) => Err(e),
            None => Ok(()),
        }),
{
    let decls = declared_function_names_and_arg_count;
    let n = decls.len();
    let mut i: usize = 0;
    while i < n
        invariant
            i <= n,
            n == decls@.len(),
            decls == declared_function_names_and_arg_count,
            forall|k: int| 0 <= k < i ==> (#[trigger] decls_m(decls@)[k]).0 != function_call.name@,
        decreases n - i,
    {
        if str_eq(decls[i].0.as_str(), function_call.name.as_str()) {
            proof {
                assert(decls_m(decls@)[i as int].0 == function_call.name@);
                lemma_find_decl_at(decls_m(decls@), i as int);
            }
            if decls[i].1 != function_call.arguments.len() as u64 {
                return Err(
                    SemanticError::FunctionArgumentCountMissmatch(function_call.name.clone()),
                );
            }
            return Ok(());
        }
        proof {
            assert(decls_m(decls@)[i as int].0 == decls@[i as int].0@);
        }
        i += 1;
    }
    proof {
        lemma_find_decl_absent(decls_m(decls@), function_call.name@);
    }
    Err(SemanticError::FunctionDoesNotExist(function_call.name.clone()))
}

proof fn lemma_fe_exprs_error(decls: DeclsM, s: Seq<ExprM>, j: int, e: SemErrM)
    requires
        0 <= j < s.len(),
        fe_exprs(decls, s.take(j)) is None,
        fe_expr(decls, s[j]) == Some(e),
    ensures
        fe_exprs(decls, s) == Some(e),
    decreases s.len(),
{
    if j == s.len() - 1 {
        assert(s.take(j) =~= s.drop_last());
    } else {
        assert(s.drop_last().take(j) =~= s.take(j));
        assert(s.drop_last()[j] == s[j]);
        lemma_fe_exprs_error(decls, s.drop_last(), j, e);
    }
}

proof fn lemma_fe_block_error(decls: DeclsM, b: Seq<StmtM>, j: int, e: SemErrM)
    requires
        0 <= j < b.len(),
        fe_block(decls, b.take(j)) is None,
        fe_stmt(decls, b[j]) == Some(e),
    ensures
        fe_block(decls, b) == Some(e),
    decreases b.len(),
{
    if j == b.len() - 1 {
        assert(b.take(j) =~= b.drop_last());
    } else {
        assert(b.drop_last().take(j) =~= b.take(j));
        assert(b.drop_last()[j] == b[j]);
        lemma_fe_block_error(decls, b.drop_last(), j, e);
    }
}

/// Every call inside an expression must resolve, calls before their
/// arguments.
pub fn check_if_function_exist_in_expression(
    declared_function_names_and_arg_count: &Vec<(String, u64)>,
    expression: &Expression,
) -> (r: SemanticResult)
    ensures
        res_m(r) == (match fe_expr(
            decls_m(declared_function_names_and_arg_count@),
            expr_m(*expression),
        ) {
            Some(e) => Err(e),
            None => Ok(()),
        }),
    decreases parser::expr_size(expr_m(*expression)),
{
    let decls = declared_function_names_and_arg_count;
    match expression {
        Expression::Number(_) => Ok(()),
        Expression::Variable(_) => Ok(()),
        Expression::BinaryOperation(_, b) => {
            let r1 = check_if_function_exist_in_expression(decls, &b.0);
            if r1.is_err() {
                return r1;
            }
            check_if_function_exist_in_expression(decls, &b.1)
        },
        Expression::FunctionCall(fc) => {
            proof {
                parser::lemma_exprs_m_len(fc.arguments@);
            }
            let r0 = check_function(decls, fc);
            if r0.is_err() {
                return r0;
            }
            let n = fc.arguments.len();
            let mut i: usize = 0;
            while i < n
                invariant
                    i <= n,
                    n == fc.arguments@.len(),
                    decls == declared_function_names_and_arg_count,
                    expr_m(*expression) == ExprM::Call(fc.name@, exprs_m(fc.arguments@)),
                    fe_call(decls_m(decls@), fc.name@, fc.arguments@.len() as int) is None,
                    fe_exprs(decls_m(decls@), exprs_m(fc.arguments@).take(i as int)) is None,
                decreases n - i,
            {
                let ghost pre = exprs_m(fc.arguments@).take(i as int);
                proof {
                    parser::lemma_exprs_m_len(fc.arguments@);
                    assert(expr_m(fc.arguments@[i as int]) == exprs_m(fc.arguments@)[i as int]);
                    parser::lemma_exprs_size_elem(exprs_m(fc.arguments@), i as int);
                }
                let r = check_if_function_exist_in_expression(decls, &fc.arguments[i]);
                match r {
                    Err(e) => {
                        proof {
                            lemma_fe_exprs_error(
                                decls_m(decls@),
                                exprs_m(fc.arguments@),
                                i as int,
                                err_m(e),
                            );
                        }
                        return Err(e);
                    },
                    Ok(()) => (),
                }
                proof {
                    assert(exprs_m(fc.arguments@).take(i + 1) =~= pre.push(
                        exprs_m(fc.arguments@)[i as int],
                    ));
                    assert(pre.push(exprs_m(fc.arguments@)[i as int]).drop_last() =~= pre);
                }
                i += 1;
            }
            proof {
                parser::lemma_exprs_m_len(fc.arguments@);
                assert(exprs_m(fc.arguments@).take(n as int) =~= exprs_m(fc.arguments@));
            }
            Ok(())
        },
    }
}

/// Every call in a block must resolve.
pub fn check_if_function_exist_on_call(
    declared_function_names_and_arg_count: &Vec<(String, u64)>,
    block: &parser::Block,
) -> (r: SemanticResult)
    ensures
        res_m(r) == (match fe_block(
            decls_m(declared_function_names_and_arg_count@),
            block_m(block@),
        ) {
            Some(e) => Err(e),
            None => Ok(()),
        }),
    decreases parser::block_size(block_m(block@)), 1int,
{
    let decls = declared_function_names_and_arg_count;
    let n = block.len();
    let mut i: usize = 0;
    while i < n
        invariant
            i <= n,
            n == block@.len(),
            decls == declared_function_names_and_arg_count,
            fe_block(decls_m(decls@), block_m(block@).take(i as int)) is None,
        decreases n - i,
    {
        let ghost pre = block_m(block@).take(i as int);
        proof {
            parser::lemma_block_m_len(block@);
            assert(stmt_m(block@[i as int]) == block_m(block@)[i as int]);
            parser::lemma_block_size_elem(block_m(block@), i as int);
        }
        let r: SemanticResult = match &block[i] {
            Statement::FunctionCall(f) => {
                proof {
                    parser::lemma_exprs_m_len(f.arguments@);
                }
                let r0 = check_function(decls, f);
                if r0.is_err() {
                    r0
                } else {
                    let k = f.arguments.len();
                    let mut j: usize = 0;
                    let mut inner: SemanticResult = Ok(());
                    while j < k
                        invariant
                            j <= k,
                            k == f.arguments@.len(),
                            decls == declared_function_names_and_arg_count,
                            i < block_m(block@).len(),
                            block_m(block@)[i as int] == StmtM::Call(
                                f.name@,
                                exprs_m(f.arguments@),
                            ),
                            fe_block(decls_m(decls@), block_m(block@).take(i as int)) is None,
                            fe_call(decls_m(decls@), f.name@, f.arguments@.len() as int)
                                is None,
                            inner is Ok,
                            fe_exprs(decls_m(decls@), exprs_m(f.arguments@).take(j as int))
                                is None,
                        decreases k - j,
                    {
                        let ghost prea = exprs_m(f.arguments@).take(j as int);
                        proof {
                            parser::lemma_exprs_m_len(f.arguments@);
                            assert(expr_m(f.arguments@[j as int]) == exprs_m(
                                f.arguments@,
                            )[j as int]);
                            parser::lemma_exprs_size_elem(exprs_m(f.arguments@), j as int);
                        }
                        let r2 = check_if_function_exist_in_expression(decls, &f.arguments[j]);
                        match r2 {
                            Err(e) => {
                                proof {
                                    lemma_fe_exprs_error(
                                        decls_m(decls@),
                                        exprs_m(f.arguments@),
                                        j as int,
                                        err_m(e),
                                    );
                                    lemma_fe_block_error(
                                        decls_m(decls@),
                                        block_m(block@),
                                        i as int,
                                        err_m(e),
                                    );
                                }
                                return Err(e);
                            },
                            Ok(()) => (),
                        }
                        proof {
                            assert(exprs_m(f.arguments@).take(j + 1) =~= prea.push(
                                exprs_m(f.arguments@)[j as int],
                            ));
                            assert(prea.push(exprs_m(f.arguments@)[j as int]).drop_last()
                                =~= prea);
                        }
                        j += 1;
                    }
                    proof {
                        parser::lemma_exprs_m_len(f.arguments@);
                        assert(exprs_m(f.arguments@).take(k as int) =~= exprs_m(
                            f.arguments@,
                        ));
                    }
                    inner
                }
            },
            Statement::Assignment(a) => check_if_function_exist_in_expression(
                decls,
                &a.expression,
            ),
            Statement::IfStatement(st) => {
                let r0 = check_if_function_exist_in_expression(decls, &st.condition);
                if r0.is_err() {
                    r0
                } else {
                    check_if_function_exist_on_call(decls, &st.block)
                }
            },
            Statement::WhileLoop(l) => {
                let r0 = check_if_function_exist_in_expression(decls, &l.condition);
                if r0.is_err() {
                    r0
                } else {
                    check_if_function_exist_on_call(decls, &l.block)
                }
            },
            Statement::Return(e) => check_if_function_exist_in_expression(decls, e),
        };
        match r {
            Err(e) => {
                proof {
                    lemma_fe_block_error(decls_m(decls@), block_m(block@), i as int, err_m(e));
                }
                return Err(e);
            },
            Ok(()) => (),
        }
        proof {
            assert(block_m(block@).take(i + 1) =~= pre.push(block_m(block@)[i as int]));
            assert(pre.push(block_m(block@)[i as int]).drop_last() =~= pre);
        }
        i += 1;
    }
    proof {
        parser::lemma_block_m_len(block@);
        assert(block_m(block@).take(n as int) =~= block_m(block@));
    }
    Ok(())
}

/// A structural copy of the parameter list, opening the first scope.
fn clone_names(v: &Vec<String>) -> (r: Vec<String>)
    ensures
        str_views(r@) == str_views(v@),
{
    let mut out: Vec<String> = Vec::new();
    let n = v.len();
    let mut i: usize = 0;
    while i < n
        invariant
            i <= n,
            n == v@.len(),
            out@.len() == i,
            str_views(out@) == str_views(v@).take(i as int),
        decreases n - i,
    {
        out.push(v[i].clone());
        proof {
            assert(str_views(out@) =~~= str_views(v@).take(i + 1));
        }
        i += 1;
    }
    proof {
        assert(str_views(v@).take(n as int) =~~= str_views(v@));
    }
    out
}

proof fn lemma_check_funs_error(decls: DeclsM, fs: Seq<FunDeclM>, j: int, e: SemErrM)
    requires
        0 <= j < fs.len(),
        check_funs(decls, fs.take(j)) is Ok,
        ({
            let f = fs[j];
            match f {
                FunDeclM::External(_) => false,
                FunDeclM::Internal(n, ps, b) => {
                    if first_duplicate(ps) is Some {
                        e == SemErrM::DuplicateParameter(n)
                    } else if !sv_block(seq![ps], b).0 {
                        e == SemErrM::VariableUsedBeforeInit
                    } else {
                        fe_block(decls, b) == Some(e)
                    }
                },
            }
        }),
    ensures
        check_funs(decls, fs) == Result::<(), SemErrM>::Err(e),
    decreases fs.len(),
{
    if j == fs.len() - 1 {
        assert(fs.take(j) =~= fs.drop_last());
    } else {
        assert(fs.drop_last().take(j) =~= fs.take(j));
        assert(fs.drop_last()[j] == fs[j]);
        lemma_check_funs_error(decls, fs.drop_last(), j, e);
    }
}

/// The whole static check: duplicate function names, then, per function,
/// duplicate parameters, reads before initialisation, and call sites.
pub fn check(program: &parser::Program) -> (r: SemanticResult)
    ensures
        res_m(r) == spec_check(prog_m(*program)),
{
    let rd = check_duplicate_functions(program);
    match rd {
        Err(e) => {
            return Err(e);
        },
        Ok(()) => (),
    }
    let mut decls: Vec<(String, u64)> = Vec::new();
    let n = program.functions.len();
    let mut i: usize = 0;
    while i < n
        invariant
            i <= n,
            n == program.functions@.len(),
            decls_m(decls@) == decls_of(prog_m(*program).take(i as int)),
        decreases n - i,
    {
        let ghost pre = prog_m(*program).take(i as int);
        match &program.functions[i] {
            parser::Function::Internal(f) => {
                decls.push((f.name.clone(), f.parameters.len() as u64));
            },
            parser::Function::External(f) => {
                decls.push((f.name.clone(), f.parameters.len() as u64));
            },
        }
        proof {
            assert(prog_m(*program).take(i + 1) =~= pre.push(
                crate::ssa::fun_decl_m(program.functions@[i as int]),
            ));
            assert(pre.push(crate::ssa::fun_decl_m(program.functions@[i as int])).drop_last()
                =~= pre);
            assert(decls_m(decls@) =~= decls_of(prog_m(*program).take(i + 1)));
        }
        i += 1;
    }
    proof {
        assert(prog_m(*program).take(n as int) =~= prog_m(*program));
    }
    let mut i: usize = 0;
    while i < n
        invariant
            i <= n,
            n == program.functions@.len(),
            decls_m(decls@) == decls_of(prog_m(*program)),
            first_duplicate(names_of(prog_m(*program))) is None,
            check_funs(decls_of(prog_m(*program)), prog_m(*program).take(i as int)) is Ok,
        decreases n - i,
    {
        let ghost pre = prog_m(*program).take(i as int);
        proof {
            assert(prog_m(*program).take(i + 1) =~= pre.push(
                crate::ssa::fun_decl_m(program.functions@[i as int]),
            ));
            assert(pre.push(crate::ssa::fun_decl_m(program.functions@[i as int])).drop_last()
                =~= pre);
        }
        match &program.functions[i] {
            parser::Function::Internal(f) => {
                let rp = check_duplicate_parameters(f);
                match rp {
                    Err(e) => {
                        proof {
                            lemma_check_funs_error(
                                decls_of(prog_m(*program)),
                                prog_m(*program),
                                i as int,
                                err_m(e),
                            );
                        }
                        return Err(e);
                    },
                    Ok(()) => (),
                }
                let mut vars: Vec<Vec<String>> = Vec::new();
                vars.push(clone_names(&f.parameters));
                proof {
                    assert(vars@.drop_last() =~= Seq::<Vec<String>>::empty());
                    assert(env_of(vars@.drop_last()) =~= Seq::<Seq<Seq<char>>>::empty());
                    assert(env_of(vars@) =~~= seq![str_views(f.parameters@)]);
                }
                let rv = check_variable_use_before_init(&mut vars, &f.block);
                match rv {
                    Err(e) => {
                        proof {
                            lemma_check_funs_error(
                                decls_of(prog_m(*program)),
                                prog_m(*program),
                                i as int,
                                err_m(e),
                            );
                        }
                        return Err(e);
                    },
                    Ok(()) => (),
                }
                let rf = check_if_function_exist_on_call(&decls, &f.block);
                match rf {
                    Err(e) => {
                        proof {
                            lemma_check_funs_error(
                                decls_of(prog_m(*program)),
                                prog_m(*program),
                                i as int,
                                err_m(e),
                            );
                        }
                        return Err(e);
                    },
                    Ok(()) => (),
                }
            },
            parser::Function::External(_) => (),
        }
        i += 1;
    }
    proof {
        assert(prog_m(*program).take(n as int) =~= prog_m(*program));
    }
    Ok(())
}

} // verus!
