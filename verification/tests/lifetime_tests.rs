use jitter::ir::{Data, IrInstruction};
use jitter::lifetime::get_checker;

#[test]
fn parameters_start_at_line_zero() {
    let instructions = vec![IrInstruction::Return(Data::Variable("#var_x_#0".to_owned()))];
    let parameters = vec!["#var_x_#0".to_owned()];
    let mut checker = get_checker(&instructions, &parameters);
    assert_eq!(checker.get_start_lifetime("#var_x_#0"), 0);
    assert_eq!(checker.get_end_lifetime("#var_x_#0"), 0);
}

#[test]
fn end_is_the_last_read() {
    let instructions = vec![
        IrInstruction::Assignment("y".to_owned(), Data::Variable("x".to_owned())),
        IrInstruction::Assignment("z".to_owned(), Data::Variable("y".to_owned())),
        IrInstruction::Return(Data::Variable("y".to_owned())),
    ];
    let parameters = vec!["x".to_owned()];
    let mut checker = get_checker(&instructions, &parameters);
    assert_eq!(checker.get_start_lifetime("x"), 0);
    assert_eq!(checker.get_end_lifetime("x"), 0);
    assert_eq!(checker.get_start_lifetime("y"), 0);
    assert_eq!(checker.get_end_lifetime("y"), 2);
    assert_eq!(checker.get_start_lifetime("z"), 1);
    assert_eq!(checker.get_end_lifetime("z"), 1);
    assert!(checker.has_lifetime("y"));
    assert!(!checker.has_lifetime("w"));
}

#[test]
fn keep_alive_extends_the_end() {
    let instructions = vec![
        IrInstruction::Assignment("y".to_owned(), Data::Number(1)),
        IrInstruction::Label("#label_1".to_owned()),
        IrInstruction::KeepAlive("y".to_owned()),
    ];
    let parameters: Vec<String> = vec![];
    let mut checker = get_checker(&instructions, &parameters);
    assert_eq!(checker.get_start_lifetime("y"), 0);
    assert_eq!(checker.get_end_lifetime("y"), 2);
}

#[test]
fn call_arguments_are_reads() {
    let instructions = vec![
        IrInstruction::Assignment("a".to_owned(), Data::Number(4)),
        IrInstruction::FunctionCall(
            "r".to_owned(),
            "f".to_owned(),
            vec![Data::Variable("a".to_owned()), Data::Number(1)],
        ),
    ];
    let parameters: Vec<String> = vec![];
    let mut checker = get_checker(&instructions, &parameters);
    assert_eq!(checker.get_end_lifetime("a"), 1);
    assert_eq!(checker.get_start_lifetime("r"), 1);
}
