use jitter::lexer::lex;
use jitter::parser::parse;
use jitter::semantic::{check, SemanticError};

#[test]
fn check_non_existant_function_expression() {
    let code = "
        fun main() {
            a = 1 && test();
        }
        ";
    let program = parse(&lex(code)).unwrap();
    assert_eq!(
        check(&program),
        Err(SemanticError::FunctionDoesNotExist("test".to_owned()))
    )
}

#[test]
fn check_non_existant_function_statement() {
    let code = "
        fun main() {
            test();
        }
        ";
    let program = parse(&lex(code)).unwrap();
    assert_eq!(
        check(&program),
        Err(SemanticError::FunctionDoesNotExist("test".to_owned()))
    )
}

#[test]
fn check_use_before_init() {
    let code = "
        fun main() {
            a = b;
        }
        ";
    let program = parse(&lex(code)).unwrap();
    assert_eq!(check(&program), Err(SemanticError::VariableUsedBeforeInit))
}

#[test]
fn check_duplicate_parameter() {
    let code = "
        fun main(a,b,a) {
        }
        ";
    let program = parse(&lex(code)).unwrap();
    assert_eq!(
        check(&program),
        Err(SemanticError::DuplicateParameter("main".to_owned()))
    )
}

#[test]
fn check_duplicate_function() {
    let code = "
        fun test1() {}
        fun test1(a, b) {}
        ";
    let program = parse(&lex(code)).unwrap();
    assert_eq!(
        check(&program),
        Err(SemanticError::DuplicateFunction("test1".to_owned()))
    )
}

#[test]
fn check_wrong_number_arguments_function() {
    let code = "
        fun test1() {}
        fun main(a) {
            test1(a);
        }
        ";
    let program = parse(&lex(code)).unwrap();
    assert_eq!(
        check(&program),
        Err(SemanticError::FunctionArgumentCountMissmatch("test1".to_owned()))
    )
}

#[test]
fn check_accepts_valid_program() {
    let code = "
        fun helper(x) {
            return x + 1;
        }
        fun main(a) {
            b = helper(a);
            if (b > 0) {
                b = b - 1;
            }
            while (b < 10) {
                b = b + 2;
            }
            return b;
        }
        ";
    let program = parse(&lex(code)).unwrap();
    assert_eq!(check(&program), Ok(()))
}

#[test]
fn check_inner_scope_vanishes() {
    // a variable first assigned inside an `if` is not initialised after it
    let code = "
        fun main() {
            if (1) {
                c = 2;
            }
            return c;
        }
        ";
    let program = parse(&lex(code)).unwrap();
    assert_eq!(check(&program), Err(SemanticError::VariableUsedBeforeInit))
}
