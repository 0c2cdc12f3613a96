//! The table of predefined external functions.  Each one is registered with
//! the name and parameter list the source language sees, together with the
//! address of the host routine that implements it.  The host side supplies
//! the addresses; this module only records them in the program.

use vstd::prelude::*;
use crate::parser;

verus! {

#[derive(Debug, Clone, PartialEq)]
pub struct ExternalFunction {
    pub name: String,
    pub parameters: Vec<String>,
    pub address: u64,
}

/// The names of the predefined external functions, in registration order.
pub open spec fn predefined_names() -> Seq<Seq<char>> {
    seq![
        "cool"@,
        "print_num"@,
        "print_char"@,
        "println_num"@,
        "println_char"@,
        "read_num"@,
    ]
}

/// How many parameters the predefined function at index `i` takes.
pub open spec fn predefined_arity(i: int) -> nat {
    if i == 0 || i == 5 {
        0
    } else {
        1
    }
}

/// Appends the six predefined external functions to the program, bound to
/// the six host addresses in order: `cool`, `print_num`, `print_char`,
/// `println_num`, `println_char`, `read_num`.
pub fn add(program: &mut parser::Program, addresses: &Vec<u64>)
    requires
        addresses@.len() == 6,
    ensures
        final(program).functions@.len() == old(program).functions@.len() + 6,
        forall|i: int|
            0 <= i < old(program).functions@.len() ==> final(program).functions@[i] == old(
                program,
            ).functions@[i],
        forall|i: int|
            0 <= i < 6 ==> {
                let f = #[trigger] final(program).functions@[old(program).functions@.len() + i];
                &&& f matches parser::Function::External(e)
                &&& e.name@ == predefined_names()[i]
                &&& e.parameters@.len() == predefined_arity(i)
                &&& e.address == addresses@[i]
            },
{
    let f0 = ExternalFunction {
        name: String::from_str("cool"),
        parameters: Vec::new(),
        address: addresses[0],
    };
    program.functions.push(parser::Function::External(f0));
    let mut p1: Vec<String> = Vec::new();
    p1.push(String::from_str("num"));
    let f1 = ExternalFunction {
        name: String::from_str("print_num"),
        parameters: p1,
        address: addresses[1],
    };
    program.functions.push(parser::Function::External(f1));
    let mut p2: Vec<String> = Vec::new();
    p2.push(String::from_str("char"));
    let f2 = ExternalFunction {
        name: String::from_str("print_char"),
        parameters: p2,
        address: addresses[2],
    };
    program.functions.push(parser::Function::External(f2));
    let mut p3: Vec<String> = Vec::new();
    p3.push(String::from_str("num"));
    let f3 = ExternalFunction {
        name: String::from_str("println_num"),
        parameters: p3,
        address: addresses[3],
    };
    program.functions.push(parser::Function::External(f3));
    let mut p4: Vec<String> = Vec::new();
    p4.push(String::from_str("char"));
    let f4 = ExternalFunction {
        name: String::from_str("println_char"),
        parameters: p4,
        address: addresses[4],
    };
    program.functions.push(parser::Function::External(f4));
    let f5 = ExternalFunction {
        name: String::from_str("read_num"),
        parameters: Vec::new(),
        address: addresses[5],
    };
    program.functions.push(parser::Function::External(f5));
}

} // verus!
