use jitter::emitter::{generate, validate_for_emission, AsmInst, Operand};
use jitter::ir::transform;
use jitter::jit::FunctionTracker;
use jitter::lexer::lex;
use jitter::parser::parse;
use jitter::ssa::convert;
use jitter::var_allocator::Register;

fn tracker_for(code: &str) -> FunctionTracker {
    FunctionTracker::new(convert(&parse(&lex(code)).unwrap()))
}

#[test]
fn return_value_lands_in_rax() {
    let t = tracker_for("fun main() { return 7; }");
    let f = &t.program.functions[0];
    let ir = transform(f);
    assert!(validate_for_emission(&ir, &f.parameters, &t));
    let ops = generate(&ir, &f.parameters, &t, 0, 0).unwrap();
    assert!(ops.contains(&AsmInst::Mov(
        Operand::Reg(Register::Rax),
        Operand::Imm(7)
    )));
}

#[test]
fn every_return_restores_the_saved_registers() {
    let t = tracker_for(
        "
        fun main(a) {
            if (a) {
                return 1;
            }
            return 2;
        }
        ",
    );
    let f = &t.program.functions[0];
    let ir = transform(f);
    let ops = generate(&ir, &f.parameters, &t, 0, 0).unwrap();
    let rets: Vec<usize> = ops
        .iter()
        .enumerate()
        .filter(|(_, op)| **op == AsmInst::Ret)
        .map(|(i, _)| i)
        .collect();
    // one return per source `return`, plus the implicit final `return 0`
    assert_eq!(rets.len(), 3);
    for i in rets {
        assert_eq!(ops[i - 1], AsmInst::Pop(Register::Rbp));
        assert_eq!(ops[i - 2], AsmInst::Pop(Register::Rbx));
        assert_eq!(ops[i - 3], AsmInst::Pop(Register::R12));
        assert_eq!(ops[i - 4], AsmInst::Pop(Register::R13));
        assert_eq!(ops[i - 5], AsmInst::Pop(Register::R14));
        assert_eq!(ops[i - 6], AsmInst::Pop(Register::R15));
    }
}

#[test]
fn call_sites_consult_the_resolver() {
    let t = tracker_for(
        "
        fun main() { return f(4); }
        fun f(a) { return 5 + a; }
        ",
    );
    let f = &t.program.functions[0];
    let ir = transform(f);
    let ops = generate(&ir, &f.parameters, &t, 0x1234, 0x9999).unwrap();
    // the resolver's absolute address is baked in
    assert!(ops.contains(&AsmInst::CallImm(0x9999)));
    // the resolved address is then called
    assert!(ops.contains(&AsmInst::CallReg(Register::Rax)));
    // the tracker address and the callee id travel as immediates
    assert!(ops.contains(&AsmInst::Mov(
        Operand::Reg(Register::Rdi),
        Operand::Imm(0x1234)
    )));
    assert!(ops.contains(&AsmInst::Mov(
        Operand::Reg(Register::Rsi),
        Operand::Imm(1)
    )));
}

#[test]
fn labels_are_marked_with_a_nop() {
    let t = tracker_for(
        "
        fun main(a) {
            if (a) {
                a = 2;
            }
            return a;
        }
        ",
    );
    let f = &t.program.functions[0];
    let ir = transform(f);
    let ops = generate(&ir, &f.parameters, &t, 0, 0).unwrap();
    for (i, op) in ops.iter().enumerate() {
        if let AsmInst::Bind(_) = op {
            assert_eq!(ops[i - 1], AsmInst::Nop, "label at {} without its nop", i);
        }
    }
}

#[test]
fn validation_rejects_unknown_callees() {
    let good = tracker_for("fun main() { return 1; }");
    let other = tracker_for(
        "
        fun main() { return f(); }
        fun f() { return 1; }
        ",
    );
    // take the ir of a program that calls `f`, validate it against a
    // tracker that does not know `f`
    let f = &other.program.functions[0];
    let ir = transform(f);
    assert!(validate_for_emission(&ir, &f.parameters, &other));
    assert!(!validate_for_emission(&ir, &f.parameters, &good));
}

#[test]
fn emitted_sequence_is_exact_for_a_plain_return() {
    let t = tracker_for("fun main() { return 7; }");
    let f = &t.program.functions[0];
    let ir = transform(f);
    let ops = generate(&ir, &f.parameters, &t, 0, 0).unwrap();
    let prologue = vec![
        AsmInst::Push(Register::Rbp),
        AsmInst::Mov(Operand::Reg(Register::Rax), Operand::Reg(Register::Rsp)),
        AsmInst::Add(Operand::Reg(Register::Rax), Operand::Imm(8)),
        AsmInst::Mov(Operand::Reg(Register::Rbp), Operand::Reg(Register::Rax)),
        AsmInst::Push(Register::Rbx),
        AsmInst::Push(Register::R12),
        AsmInst::Push(Register::R13),
        AsmInst::Push(Register::R14),
        AsmInst::Push(Register::R15),
    ];
    let epilogue = vec![
        AsmInst::Mov(Operand::Reg(Register::Rbx), Operand::Reg(Register::Rbp)),
        AsmInst::Sub(Operand::Reg(Register::Rbx), Operand::Imm(48)),
        AsmInst::Mov(Operand::Reg(Register::Rsp), Operand::Reg(Register::Rbx)),
        AsmInst::Pop(Register::R15),
        AsmInst::Pop(Register::R14),
        AsmInst::Pop(Register::R13),
        AsmInst::Pop(Register::R12),
        AsmInst::Pop(Register::Rbx),
        AsmInst::Pop(Register::Rbp),
        AsmInst::Ret,
    ];
    let mut expected = prologue;
    // the source return: 7 into rax, then the epilogue
    expected.push(AsmInst::Mov(Operand::Reg(Register::Rax), Operand::Imm(7)));
    expected.extend(epilogue.iter().cloned());
    // the implicit return 0 in case control falls off the end
    expected.push(AsmInst::Mov(Operand::Reg(Register::Rax), Operand::Imm(0)));
    expected.extend(epilogue.iter().cloned());
    assert_eq!(ops, expected);
}

#[test]
fn an_addition_reuses_the_bound_registers() {
    let t = tracker_for("fun main(a, b) { return a + b; }");
    let f = &t.program.functions[0];
    let ir = transform(f);
    let ops = generate(&ir, &f.parameters, &t, 0, 0).unwrap();
    // the parameters sit in rdi and rsi; the temporary takes the last
    // register left in the free pool, rdx
    assert!(ops.contains(&AsmInst::Mov(
        Operand::Reg(Register::Rdx),
        Operand::Reg(Register::Rdi)
    )));
    assert!(ops.contains(&AsmInst::Add(
        Operand::Reg(Register::Rdx),
        Operand::Reg(Register::Rsi)
    )));
    assert!(ops.contains(&AsmInst::Mov(
        Operand::Reg(Register::Rax),
        Operand::Reg(Register::Rdx)
    )));
}
