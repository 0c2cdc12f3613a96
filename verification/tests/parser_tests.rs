use jitter::lexer::lex;
use jitter::parser::{
    parse, parse_assignment, parse_block, parse_expression, parse_function,
    parse_function_call_statement, parse_if_statement, parse_statement, parse_while_loop,
    Assignment, BinaryOperator, Expression, FunctionCall, IfStatement, InternalFunction,
    Statement, WhileLoop,
};

fn bin(op: BinaryOperator, l: Expression, r: Expression) -> Expression {
    Expression::BinaryOperation(op, Box::new((l, r)))
}

fn expr_of(code: &str) -> Expression {
    parse_expression(&lex(code), 0).unwrap().0
}

#[test]
fn parser_expression_and_or_1() {
    let code = "1 && 2 || 3;";
    assert_eq!(
        expr_of(code),
        bin(
            BinaryOperator::LogicOr,
            bin(
                BinaryOperator::LogicAnd,
                Expression::Number(1),
                Expression::Number(2)
            ),
            Expression::Number(3)
        )
    )
}

#[test]
fn parser_expression_and_or_2() {
    let code = "3 || 1 && 2;";
    assert_eq!(
        expr_of(code),
        bin(
            BinaryOperator::LogicOr,
            Expression::Number(3),
            bin(
                BinaryOperator::LogicAnd,
                Expression::Number(1),
                Expression::Number(2)
            )
        )
    )
}

#[test]
fn parser_expression_or() {
    assert_eq!(
        expr_of("1 || 2;"),
        bin(
            BinaryOperator::LogicOr,
            Expression::Number(1),
            Expression::Number(2)
        )
    )
}

#[test]
fn parser_expression_and() {
    assert_eq!(
        expr_of("1 && 2;"),
        bin(
            BinaryOperator::LogicAnd,
            Expression::Number(1),
            Expression::Number(2)
        )
    )
}

#[test]
fn parser_expression_equals_and_not_equals() {
    assert_eq!(
        expr_of("1 == 2 != 3;"),
        bin(
            BinaryOperator::NotEquals,
            bin(
                BinaryOperator::Equals,
                Expression::Number(1),
                Expression::Number(2)
            ),
            Expression::Number(3)
        )
    )
}

#[test]
fn parser_expression_equals() {
    assert_eq!(
        expr_of("1 == 2;"),
        bin(
            BinaryOperator::Equals,
            Expression::Number(1),
            Expression::Number(2)
        )
    )
}

#[test]
fn parser_expression_less_and_greater() {
    assert_eq!(
        expr_of("1 < 2 > 3;"),
        bin(
            BinaryOperator::Greater,
            bin(
                BinaryOperator::Less,
                Expression::Number(1),
                Expression::Number(2)
            ),
            Expression::Number(3)
        )
    )
}

#[test]
fn parser_expression_less() {
    assert_eq!(
        expr_of("1 < 2;"),
        bin(
            BinaryOperator::Less,
            Expression::Number(1),
            Expression::Number(2)
        )
    )
}

#[test]
fn parser_prog_1() {
    let code = "
        fun main(){}

        fun test1(a,b){}

        fun test2(a,b){
            a = 1 + 5;
        }
        ";
    assert!(parse(&lex(code)).is_ok())
}

#[test]
fn parser_function_with_args() {
    let code = "fun test(a, b){}";
    assert_eq!(
        parse_function(&lex(code), 0).map(|p| p.0),
        Ok(InternalFunction {
            name: "test".to_owned(),
            parameters: vec!["a".to_owned(), "b".to_owned()],
            block: vec![]
        })
    )
}

#[test]
fn parser_function() {
    let code = "fun test(){}";
    assert_eq!(
        parse_function(&lex(code), 0).map(|p| p.0),
        Ok(InternalFunction {
            name: "test".to_owned(),
            parameters: vec![],
            block: vec![]
        })
    )
}

#[test]
fn parser_function_call_statement_with_args() {
    let code = "test(a, 1+2);";
    assert_eq!(
        parse_function_call_statement(&lex(code), 0).map(|p| p.0),
        Ok(Statement::FunctionCall(FunctionCall {
            name: "test".to_owned(),
            arguments: vec![
                Expression::Variable("a".to_owned()),
                bin(
                    BinaryOperator::Addition,
                    Expression::Number(1),
                    Expression::Number(2)
                )
            ]
        }))
    )
}

#[test]
fn parser_function_call_expression() {
    let code = "test();";
    assert_eq!(
        expr_of(code),
        Expression::FunctionCall(FunctionCall {
            name: "test".to_owned(),
            arguments: vec![]
        })
    )
}

#[test]
fn parser_function_call_statement() {
    let code = "test();";
    assert_eq!(
        parse_function_call_statement(&lex(code), 0).map(|p| p.0),
        Ok(Statement::FunctionCall(FunctionCall {
            name: "test".to_owned(),
            arguments: vec![]
        }))
    )
}

#[test]
fn parser_if_statement_simple() {
    let code = "if(1){}";
    assert_eq!(
        parse_if_statement(&lex(code), 0).map(|p| p.0),
        Ok(Statement::IfStatement(IfStatement {
            condition: Expression::Number(1),
            block: vec![]
        }))
    )
}

#[test]
fn parser_while_loop_simple() {
    let code = "while(1){}";
    assert_eq!(
        parse_while_loop(&lex(code), 0).map(|p| p.0),
        Ok(Statement::WhileLoop(WhileLoop {
            condition: Expression::Number(1),
            block: vec![]
        }))
    )
}

#[test]
fn parser_block() {
    let st1 = "a = 5;";
    let st2 = "b = 6 - 4;";
    let mut code = "".to_owned();
    code.push_str(st1);
    code.push_str(st2);
    code.push_str("}");
    let st1 = parse_statement(&lex(st1), 0).unwrap().0;
    let st2 = parse_statement(&lex(st2), 0).unwrap().0;
    assert_eq!(
        parse_block(&lex(&code), 0).map(|p| p.0),
        Ok(vec![st1, st2])
    )
}

#[test]
fn parser_statement() {
    let code = "b = 6 - 4;";
    assert_eq!(
        parse_statement(&lex(code), 0).map(|p| p.0),
        Ok(Statement::Assignment(Assignment {
            variable_name: "b".to_owned(),
            expression: bin(
                BinaryOperator::Subtraction,
                Expression::Number(6),
                Expression::Number(4)
            )
        }))
    )
}

#[test]
fn parser_assignment() {
    let expr = "(4 - 1) * 6;";
    let mut code = "abc = ".to_owned();
    code.push_str(expr);
    let expr = parse_expression(&lex(expr), 0).unwrap().0;
    assert_eq!(
        parse_assignment(&lex(&code), 0).map(|p| p.0),
        Ok(Statement::Assignment(Assignment {
            variable_name: "abc".to_owned(),
            expression: expr
        }))
    )
}

#[test]
fn parser_expression_additon() {
    assert_eq!(
        expr_of("1 + 2;"),
        bin(
            BinaryOperator::Addition,
            Expression::Number(1),
            Expression::Number(2)
        )
    )
}

#[test]
fn parser_expression_subtraction() {
    assert_eq!(
        expr_of("3 - 4;"),
        bin(
            BinaryOperator::Subtraction,
            Expression::Number(3),
            Expression::Number(4)
        )
    )
}

#[test]
fn parser_expression_multiplication() {
    assert_eq!(
        expr_of("5 * 6;"),
        bin(
            BinaryOperator::Multiplication,
            Expression::Number(5),
            Expression::Number(6)
        )
    )
}

#[test]
fn parser_expression_division() {
    assert_eq!(
        expr_of("8 / 4;"),
        bin(
            BinaryOperator::Division,
            Expression::Number(8),
            Expression::Number(4)
        )
    )
}

#[test]
fn parser_expression_modulo() {
    assert_eq!(
        expr_of("911 % 10;"),
        bin(
            BinaryOperator::Modulo,
            Expression::Number(911),
            Expression::Number(10)
        )
    )
}

#[test]
fn parser_expression_1() {
    assert_eq!(
        expr_of("7 - 5 + 1;"),
        bin(
            BinaryOperator::Addition,
            bin(
                BinaryOperator::Subtraction,
                Expression::Number(7),
                Expression::Number(5)
            ),
            Expression::Number(1)
        )
    )
}

#[test]
fn parser_expression_2() {
    assert_eq!(
        bin(
            BinaryOperator::Multiplication,
            bin(
                BinaryOperator::Division,
                Expression::Number(8),
                Expression::Number(4)
            ),
            Expression::Number(5)
        ),
        expr_of("8 / 4 * 5;")
    )
}

#[test]
fn parser_expression_3() {
    assert_eq!(
        expr_of("a + 2 * (b + 4);"),
        bin(
            BinaryOperator::Addition,
            Expression::Variable("a".to_owned()),
            bin(
                BinaryOperator::Multiplication,
                Expression::Number(2),
                bin(
                    BinaryOperator::Addition,
                    Expression::Variable("b".to_owned()),
                    Expression::Number(4)
                )
            )
        )
    )
}

#[test]
fn parser_return_statement() {
    assert_eq!(
        parse_statement(&lex("return a + 1;"), 0).map(|p| p.0),
        Ok(Statement::Return(bin(
            BinaryOperator::Addition,
            Expression::Variable("a".to_owned()),
            Expression::Number(1)
        )))
    )
}
