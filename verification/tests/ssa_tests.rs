use jitter::lexer::lex;
use jitter::names::versioned_name;
use jitter::parser::{parse, BinaryOperator, Expression};
use jitter::ssa::{convert, SsaStatement, VariableTracker};

fn collect(block: &[SsaStatement], out: &mut Vec<String>) {
    for s in block {
        match s {
            SsaStatement::Assignment(a) => out.push(a.variable_name.clone()),
            SsaStatement::IfStatement(i, phis) => {
                collect(&i.block, out);
                for p in phis {
                    out.push(p.result_var.clone());
                }
            }
            SsaStatement::WhileLoop(w, phis, _) => {
                collect(&w.block, out);
                for p in phis {
                    out.push(p.result_var.clone());
                }
            }
            _ => (),
        }
    }
}

#[test]
fn tracker_versions_count_up() {
    let mut t = VariableTracker::new();
    assert_eq!(t.get_current("a"), "#var_a_#0".to_owned());
    assert_eq!(t.get_new("a"), "#var_a_#1".to_owned());
    assert_eq!(t.get_current("a"), "#var_a_#1".to_owned());
    assert_eq!(t.get_new("b"), "#var_b_#0".to_owned());
    assert_eq!(t.get_current_optinal("b"), Some("#var_b_#0".to_owned()));
    assert_eq!(t.get_current_optinal("c"), None);
}

#[test]
fn versioned_name_shape() {
    assert_eq!(versioned_name("a", 0), "#var_a_#0".to_owned());
    assert_eq!(versioned_name("counter", 12), "#var_counter_#12".to_owned());
}

#[test]
fn assignment_reads_the_old_version() {
    // x = x + 1 must read version 0 and bind version 1
    let code = "
        fun main(x) {
            x = x + 1;
        }
        ";
    let prog = convert(&parse(&lex(code)).unwrap());
    let f = &prog.functions[0];
    assert_eq!(f.parameters, vec!["#var_x_#0".to_owned()]);
    match &f.block[0] {
        SsaStatement::Assignment(a) => {
            assert_eq!(a.variable_name, "#var_x_#1".to_owned());
            assert_eq!(
                a.expression,
                Expression::BinaryOperation(
                    BinaryOperator::Addition,
                    Box::new((
                        Expression::Variable("#var_x_#0".to_owned()),
                        Expression::Number(1)
                    ))
                )
            );
        }
        other => panic!("expected an assignment, found {:?}", other),
    }
}

#[test]
fn if_statement_gets_phi_nodes() {
    let code = "
        fun main() {
            a = 0;
            if (1) {
                a = 9;
            }
            return a;
        }
        ";
    let prog = convert(&parse(&lex(code)).unwrap());
    let f = &prog.functions[0];
    match &f.block[1] {
        SsaStatement::IfStatement(_, phis) => {
            assert_eq!(phis.len(), 1);
            assert_eq!(phis[0].outer_option, "#var_a_#0".to_owned());
            assert_eq!(phis[0].inner_option, "#var_a_#1".to_owned());
            assert_eq!(phis[0].result_var, "#var_a_#2".to_owned());
        }
        other => panic!("expected an if statement, found {:?}", other),
    }
    // the return reads the phi result
    match &f.block[2] {
        SsaStatement::Return(e) => {
            assert_eq!(e, &Expression::Variable("#var_a_#2".to_owned()));
        }
        other => panic!("expected a return, found {:?}", other),
    }
}

#[test]
fn while_loop_gets_loop_phi_for_condition_variable() {
    let code = "
        fun main() {
            b = 0;
            while (b < 8) {
                b = b + 1;
            }
            return b;
        }
        ";
    let prog = convert(&parse(&lex(code)).unwrap());
    let f = &prog.functions[0];
    match &f.block[1] {
        SsaStatement::WhileLoop(_, phis, loop_phis) => {
            assert_eq!(phis.len(), 1);
            assert_eq!(loop_phis.len(), 1);
            assert_eq!(loop_phis[0].condition_var, "#var_b_#0".to_owned());
            assert_eq!(loop_phis[0].inner_var, "#var_b_#1".to_owned());
        }
        other => panic!("expected a while loop, found {:?}", other),
    }
}

#[test]
fn variables_new_inside_a_loop_get_no_phi() {
    let code = "
        fun main() {
            a = 0;
            while (a < 3) {
                fresh = 1;
                a = a + fresh;
            }
            return a;
        }
        ";
    let prog = convert(&parse(&lex(code)).unwrap());
    let f = &prog.functions[0];
    match &f.block[1] {
        SsaStatement::WhileLoop(_, phis, _) => {
            // only `a` existed before the loop, so only `a` is joined
            assert_eq!(phis.len(), 1);
            assert_eq!(phis[0].outer_option, "#var_a_#0".to_owned());
        }
        other => panic!("expected a while loop, found {:?}", other),
    }
}

#[test]
fn single_assignment_names_are_distinct() {
    let code = "
        fun f(a) {
            a = a + 1;
            if (a) {
                a = 2;
            }
            return a;
        }
        fun main(a) {
            a = f(a);
            while (a > 0) {
                a = a - 1;
            }
            return a;
        }
        ";
    let prog = convert(&parse(&lex(code)).unwrap());
    let mut defined: Vec<String> = Vec::new();
    for f in &prog.functions {
        for p in &f.parameters {
            defined.push(p.clone());
        }
        collect(&f.block, &mut defined);
    }
    let mut sorted = defined.clone();
    sorted.sort();
    sorted.dedup();
    assert_eq!(sorted.len(), defined.len(), "a name was bound twice: {:?}", defined);
}
