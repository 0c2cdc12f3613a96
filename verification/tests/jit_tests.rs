use jitter::emitter::AsmInst;
use jitter::jit::{FunctionTracker, JitError, MainFunction};
use jitter::lexer::lex;
use jitter::parser::parse;
use jitter::predefined_functions;
use jitter::ssa::convert;
use jitter::var_allocator::Register;

fn tracker_for(code: &str) -> FunctionTracker {
    let mut program = parse(&lex(code)).unwrap();
    let addresses: Vec<u64> = vec![11, 22, 33, 44, 55, 66];
    predefined_functions::add(&mut program, &addresses);
    FunctionTracker::new(convert(&program))
}

#[test]
fn ids_follow_declaration_order() {
    let t = tracker_for(
        "
        fun main() { return 1; }
        fun helper() { return 2; }
        ",
    );
    assert_eq!(t.get_id(&"main".to_owned()), 0);
    assert_eq!(t.get_id(&"helper".to_owned()), 1);
    assert_eq!(t.get_id(&"cool".to_owned()), -1);
    assert_eq!(t.get_id(&"read_num".to_owned()), -6);
    assert!(t.knows_function(&"print_num".to_owned()));
    assert!(!t.knows_function(&"missing".to_owned()));
}

#[test]
fn external_addresses_resolve_immediately() {
    let t = tracker_for("fun main() { return 1; }");
    assert_eq!(t.get_function_address(-1), Some(11));
    assert_eq!(t.get_function_address(-6), Some(66));
    assert_eq!(t.get_function_address(-7), None);
}

#[test]
fn internal_functions_need_installation() {
    let mut t = tracker_for("fun main() { return 1; }");
    assert_eq!(t.get_function_address(0), None);
    t.install_function(0, 0x1000);
    assert_eq!(t.get_function_address(0), Some(0x1000));
}

#[test]
fn addresses_are_stable_once_recorded() {
    // installing further functions never moves an address already handed out
    let mut t = tracker_for(
        "
        fun main() { return f(); }
        fun f() { return 2; }
        ",
    );
    t.install_function(0, 0x4000);
    let first = t.get_function_address(0);
    t.install_function(1, 0x5000);
    assert_eq!(t.get_function_address(0), first);
    assert_eq!(t.get_function_address(0), Some(0x4000));
    assert_eq!(t.get_function_address(1), Some(0x5000));
}

#[test]
fn main_handle_carries_the_arity() {
    let t = tracker_for("fun main(a, b) { return a + b; }");
    let main = t.get_main_function(0);
    assert_eq!(main.function_id, 0);
    assert_eq!(main.num_args, 2);
}

#[test]
fn wrong_arity_is_rejected_before_execution() {
    let main = MainFunction { function_id: 0, num_args: 2 };
    assert_eq!(
        main.check_arguments(3),
        Err(JitError::InvalidNumberOfArguments(2, 3))
    );
    assert_eq!(
        main.check_arguments(0),
        Err(JitError::InvalidNumberOfArguments(2, 0))
    );
    assert_eq!(main.check_arguments(2), Ok(()));
}

#[test]
fn more_than_five_arguments_cannot_be_marshalled() {
    let main = MainFunction { function_id: 0, num_args: 9 };
    assert_eq!(main.check_arguments(9), Err(JitError::TooManyArguments));
    assert_eq!(
        main.check_arguments(5),
        Err(JitError::InvalidNumberOfArguments(9, 5))
    );
}

#[test]
fn compile_function_emits_prologue_and_epilogue() {
    let t = tracker_for("fun main() { return 1; }");
    let ops = t.compile_function(0, 0x7777, 0x8888).unwrap();
    // the fixed prologue
    assert_eq!(ops[0], AsmInst::Push(Register::Rbp));
    assert_eq!(ops[4], AsmInst::Push(Register::Rbx));
    assert_eq!(ops[8], AsmInst::Push(Register::R15));
    // the function ends in a return that restored everything
    assert_eq!(*ops.last().unwrap(), AsmInst::Ret);
    let n = ops.len();
    assert_eq!(ops[n - 2], AsmInst::Pop(Register::Rbp));
    assert_eq!(ops[n - 3], AsmInst::Pop(Register::Rbx));
    assert_eq!(ops[n - 4], AsmInst::Pop(Register::R12));
    assert_eq!(ops[n - 7], AsmInst::Pop(Register::R15));
}

#[test]
fn compile_function_rejects_unknown_ids() {
    let t = tracker_for("fun main() { return 1; }");
    assert!(t.compile_function(7, 0, 0).is_err());
}

#[test]
fn compile_function_reports_unimplemented_division() {
    let t = tracker_for("fun main() { return 8 / 2; }");
    assert_eq!(
        t.compile_function(0, 0, 0),
        Err(jitter::emitter::EmitError::NotImplemented)
    );
}
