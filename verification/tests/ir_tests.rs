use jitter::ir::{transform, Data, IrInstruction};
use jitter::lexer::lex;
use jitter::parser::{parse, BinaryOperator};
use jitter::ssa;

#[test]
fn ir_test_assignment() {
    let code = "
            fun test() {
                a = 1;
            }
        ";
    let prog = ssa::convert(&parse(&lex(code)).unwrap());
    let ir = transform(&prog.functions[0]);
    assert_eq!(
        ir,
        [IrInstruction::Assignment(
            "#var_a_#0".to_owned(),
            Data::Number(1)
        )]
    )
}

#[test]
fn ir_test_function_call() {
    let code = "
            fun test() {
                abc();
            }
        ";
    let prog = ssa::convert(&parse(&lex(code)).unwrap());
    let ir = transform(&prog.functions[0]);
    assert_eq!(
        ir,
        [IrInstruction::FunctionCall(
            "#var_1".to_owned(),
            "abc".to_owned(),
            vec![]
        )]
    )
}

#[test]
fn ir_test_if_statement() {
    let code = "
            fun test() {
                if(1){
                    if(2){

                    }
                }
            }
        ";
    let prog = ssa::convert(&parse(&lex(code)).unwrap());
    let ir = transform(&prog.functions[0]);
    assert_eq!(
        ir,
        [
            IrInstruction::JumpFalse(Data::Number(1), "#label_1".to_owned()),
            IrInstruction::JumpFalse(Data::Number(2), "#label_3".to_owned()),
            IrInstruction::Jump("#label_4".to_owned()),
            IrInstruction::Label("#label_3".to_owned()),
            IrInstruction::Label("#label_4".to_owned()),
            IrInstruction::Jump("#label_2".to_owned()),
            IrInstruction::Label("#label_1".to_owned()),
            IrInstruction::Label("#label_2".to_owned())
        ]
    )
}

#[test]
fn ir_test_function_call_with_expressions_as_arguments_and_assignment() {
    let code = "
            fun test() {
                c = abc(a, 1, 3 && 4, b);
            }
        ";
    let prog = ssa::convert(&parse(&lex(code)).unwrap());
    let ir = transform(&prog.functions[0]);
    assert_eq!(
        ir,
        [
            IrInstruction::BinaryOperation(
                BinaryOperator::LogicAnd,
                "#var_5".to_owned(),
                Data::Number(3),
                Data::Number(4)
            ),
            IrInstruction::FunctionCall(
                "#var_2".to_owned(),
                "abc".to_owned(),
                vec![
                    Data::Variable("#var_a_#0".to_owned()),
                    Data::Number(1),
                    Data::Variable("#var_5".to_owned()),
                    Data::Variable("#var_b_#0".to_owned())
                ]
            ),
            IrInstruction::Assignment("#var_c_#0".to_owned(), Data::Variable("#var_2".to_owned()))
        ]
    )
}

#[test]
fn ir_test_while_loop_shape() {
    let code = "
            fun test() {
                b = 0;
                while (b < 3) {
                    b = b + 1;
                }
            }
        ";
    let prog = ssa::convert(&parse(&lex(code)).unwrap());
    let ir = transform(&prog.functions[0]);
    // b = 0
    assert_eq!(
        ir[0],
        IrInstruction::Assignment("#var_b_#0".to_owned(), Data::Number(0))
    );
    // initial test of the condition
    assert_eq!(
        ir[1],
        IrInstruction::BinaryOperation(
            BinaryOperator::Less,
            "#var_2".to_owned(),
            Data::Variable("#var_b_#0".to_owned()),
            Data::Number(3)
        )
    );
    assert_eq!(
        ir[2],
        IrInstruction::JumpFalse(Data::Variable("#var_2".to_owned()), "#label_3".to_owned())
    );
    // the loop phi writes the condition's variable at the end of an
    // iteration and pins its location
    assert!(ir.contains(&IrInstruction::Assignment(
        "#var_b_#0".to_owned(),
        Data::Variable("#var_b_#1".to_owned())
    )));
    assert!(ir.contains(&IrInstruction::KeepAlive("#var_b_#0".to_owned())));
}
