use jitter::ir::{Data, IrInstruction};
use jitter::lifetime::get_checker;
use jitter::var_allocator::{Register, VariableAllocator, VariableLocation};

fn assignments(n: usize) -> Vec<IrInstruction> {
    // n assignments, each variable read once at the very end so that all
    // of them stay live together
    let mut instructions = Vec::new();
    for i in 0..n {
        instructions.push(IrInstruction::Assignment(format!("v{}", i), Data::Number(1)));
    }
    for i in 0..n {
        instructions.push(IrInstruction::KeepAlive(format!("v{}", i)));
    }
    instructions
}

#[test]
fn parameters_take_the_argument_registers() {
    let parameters: Vec<String> = vec!["a".to_owned(), "b".to_owned()];
    let instructions = vec![
        IrInstruction::Return(Data::Variable("a".to_owned())),
        IrInstruction::KeepAlive("b".to_owned()),
    ];
    let mut checker = get_checker(&instructions, &parameters);
    let mut alloc = VariableAllocator::new(&parameters, &mut checker);
    assert!(alloc.is_allocated(Register::Rdi));
    assert!(alloc.is_allocated(Register::Rsi));
    assert!(!alloc.is_allocated(Register::Rdx));
    let (loc_a, grew_a) = alloc.get("a", 0, &mut checker);
    assert_eq!(loc_a, VariableLocation::Register(Register::Rdi));
    assert!(!grew_a);
    let (loc_b, _) = alloc.get("b", 0, &mut checker);
    assert_eq!(loc_b, VariableLocation::Register(Register::Rsi));
}

#[test]
fn stacked_parameters_get_positive_offsets() {
    let parameters: Vec<String> = (0..9).map(|i| format!("p{}", i)).collect();
    let instructions: Vec<IrInstruction> = parameters
        .iter()
        .map(|p| IrInstruction::KeepAlive(p.clone()))
        .collect();
    let mut checker = get_checker(&instructions, &parameters);
    let mut alloc = VariableAllocator::new(&parameters, &mut checker);
    let (loc6, _) = alloc.get("p6", 0, &mut checker);
    let (loc7, _) = alloc.get("p7", 0, &mut checker);
    let (loc8, _) = alloc.get("p8", 0, &mut checker);
    assert_eq!(loc6, VariableLocation::Stack(24));
    assert_eq!(loc7, VariableLocation::Stack(16));
    assert_eq!(loc8, VariableLocation::Stack(8));
}

#[test]
fn spill_after_register_exhaustion() {
    let instructions = assignments(15);
    let parameters: Vec<String> = vec![];
    let mut checker = get_checker(&instructions, &parameters);
    let mut alloc = VariableAllocator::new(&parameters, &mut checker);
    let mut locations = Vec::new();
    for i in 0..15 {
        let (loc, grew) = alloc.get(&format!("v{}", i), 0, &mut checker);
        locations.push(loc);
        // thirteen registers, then the stack
        assert_eq!(grew, i >= 13, "binding {} reported growth {}", i, grew);
    }
    assert_eq!(locations[0], VariableLocation::Register(Register::Rdi));
    assert_eq!(locations[13], VariableLocation::Stack(-56));
    assert_eq!(locations[14], VariableLocation::Stack(-64));
    // no two bindings share a location
    for i in 0..15 {
        for j in (i + 1)..15 {
            assert_ne!(locations[i], locations[j]);
        }
    }
    assert_eq!(alloc.get_num_stackvars(), 2);
}

#[test]
fn dead_registers_are_reclaimed() {
    let instructions = vec![
        IrInstruction::Assignment("a".to_owned(), Data::Number(1)),
        IrInstruction::Assignment("b".to_owned(), Data::Variable("a".to_owned())),
        IrInstruction::Return(Data::Variable("b".to_owned())),
    ];
    let parameters: Vec<String> = vec![];
    let mut checker = get_checker(&instructions, &parameters);
    let mut alloc = VariableAllocator::new(&parameters, &mut checker);
    let (loc_a, _) = alloc.get("a", 0, &mut checker);
    // `a` dies on line 1, so binding `b` on line 2 reuses its register
    let (loc_b, _) = alloc.get("b", 2, &mut checker);
    assert_eq!(loc_a, loc_b);
}

#[test]
fn bound_variables_keep_their_location() {
    let instructions = vec![
        IrInstruction::Assignment("a".to_owned(), Data::Number(1)),
        IrInstruction::KeepAlive("a".to_owned()),
    ];
    let parameters: Vec<String> = vec![];
    let mut checker = get_checker(&instructions, &parameters);
    let mut alloc = VariableAllocator::new(&parameters, &mut checker);
    let (first, _) = alloc.get("a", 0, &mut checker);
    let (second, _) = alloc.get("a", 1, &mut checker);
    assert_eq!(first, second);
}
