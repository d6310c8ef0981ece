use bincalc::compile::{
    Compiler, DIVISOR_REGISTER, ITERATION_REGISTER, MULTIPLICAND_REGISTER, MULTIPLIER_REGISTER,
    QUOTIENT_REGISTER, REMAINDER_REGISTER, RESULT_REGISTER, TEST_REGISTER,
};
use bincalc::execute::{is_well_formed, Instruction};
use bincalc::parsing::Node;

fn number(value: i8) -> Node {
    Node::NumberN(value)
}

fn mul(right: Node, left: Node) -> Node {
    Node::MulN { lhs: Box::new(right), rhs: Box::new(left) }
}

fn div(right: Node, left: Node) -> Node {
    Node::DivN { lhs: Box::new(right), rhs: Box::new(left) }
}

fn multiply_loop(at: usize) -> Vec<Instruction> {
    vec![
        Instruction::AndI { register: 3, constant: 0 },
        Instruction::StoreI { constant: 4, register: 0 },
        Instruction::Copy { src: 1, dest: 4 },
        Instruction::Negate { register: 4 },
        Instruction::AndI { register: 4, constant: 1 },
        Instruction::JumpIf { instruction: at + 7, test: 4 },
        Instruction::Add { lhs: 2, rhs: 3, dest: 3 },
        Instruction::ShiftLeft { register: 2, amount: 1 },
        Instruction::ShiftRight { register: 1, amount: 1 },
        Instruction::SubtractI { register: 0, constant: 1 },
        Instruction::JumpIf { instruction: at + 2, test: 0 },
    ]
}

fn divide_loop(at: usize) -> Vec<Instruction> {
    vec![
        Instruction::ShiftLeft { register: 2, amount: 4 },
        Instruction::StoreI { constant: 0, register: 1 },
        Instruction::StoreI { constant: 5, register: 0 },
        Instruction::Subtract { lhs: 3, rhs: 2, dest: 3 },
        Instruction::Copy { src: 3, dest: 4 },
        Instruction::AndI { register: 4, constant: i16::MIN },
        Instruction::JumpIf { instruction: at + 10, test: 4 },
        Instruction::ShiftLeft { register: 1, amount: 1 },
        Instruction::AddI { register: 1, constant: 1 },
        Instruction::Jump { instruction: at + 12 },
        Instruction::Add { lhs: 3, rhs: 2, dest: 3 },
        Instruction::ShiftLeft { register: 1, amount: 1 },
        Instruction::ShiftRight { register: 2, amount: 1 },
        Instruction::SubtractI { register: 0, constant: 1 },
        Instruction::JumpIf { instruction: at + 3, test: 0 },
        Instruction::Copy { src: 1, dest: 3 },
    ]
}

#[test]
fn registers_by_convention() {
    assert_eq!(RESULT_REGISTER, 3);
    assert_eq!(REMAINDER_REGISTER, 3);
    assert_eq!(ITERATION_REGISTER, 0);
    assert_eq!(MULTIPLIER_REGISTER, 1);
    assert_eq!(MULTIPLICAND_REGISTER, 2);
    assert_eq!(DIVISOR_REGISTER, 2);
    assert_eq!(QUOTIENT_REGISTER, 1);
    assert_eq!(TEST_REGISTER, 4);
}

#[test]
fn compile_number() {
    let program = Compiler::new(vec![number(7)]).compile().unwrap();
    assert_eq!(program, vec![Instruction::StoreI { constant: 7, register: 3 }]);
    let program = Compiler::new(vec![number(-3)]).compile().unwrap();
    assert_eq!(program, vec![Instruction::StoreI { constant: -3, register: 3 }]);
}

#[test]
fn compile_nothing() {
    assert_eq!(Compiler::new(Vec::new()).compile().unwrap(), Vec::<Instruction>::new());
}

#[test]
fn compile_multiplication() {
    // 3 * 2: the left operand 3 is the multiplicand
    let program = Compiler::new(vec![mul(number(2), number(3))]).compile().unwrap();
    let mut expected = vec![
        Instruction::StoreI { constant: 3, register: 3 },
        Instruction::Copy { src: 3, dest: 2 },
        Instruction::StoreI { constant: 2, register: 3 },
        Instruction::Copy { src: 3, dest: 1 },
    ];
    expected.extend(multiply_loop(4));
    assert_eq!(program, expected);
}

#[test]
fn compile_division() {
    // 6 / 2: the left operand 6 stands in rhs and is the dividend; it waits in
    // register 4 while the divisor is stored
    let program = Compiler::new(vec![div(number(2), number(6))]).compile().unwrap();
    let mut expected = vec![
        Instruction::StoreI { constant: 6, register: 3 },
        Instruction::Copy { src: 3, dest: 4 },
        Instruction::StoreI { constant: 2, register: 3 },
        Instruction::Copy { src: 3, dest: 2 },
        Instruction::Copy { src: 4, dest: 3 },
    ];
    expected.extend(divide_loop(5));
    assert_eq!(program, expected);
}

#[test]
fn compile_chain_has_absolute_addresses() {
    // (1 * 2) / 3: the product is worked out before the divisor is stored
    let tree = div(number(3), mul(number(2), number(1)));
    let program = Compiler::new(vec![tree]).compile().unwrap();
    let mut expected = vec![
        Instruction::StoreI { constant: 1, register: 3 },
        Instruction::Copy { src: 3, dest: 2 },
        Instruction::StoreI { constant: 2, register: 3 },
        Instruction::Copy { src: 3, dest: 1 },
    ];
    expected.extend(multiply_loop(4));
    expected.extend(vec![
        Instruction::Copy { src: 3, dest: 4 },
        Instruction::StoreI { constant: 3, register: 3 },
        Instruction::Copy { src: 3, dest: 2 },
        Instruction::Copy { src: 4, dest: 3 },
    ]);
    expected.extend(divide_loop(19));
    assert_eq!(program.len(), 35);
    assert_eq!(program, expected);
}

#[test]
fn compile_several_trees_in_order() {
    let program = Compiler::new(vec![number(1), mul(number(2), number(3)), number(4)])
        .compile()
        .unwrap();
    let mut expected = vec![
        Instruction::StoreI { constant: 1, register: 3 },
        Instruction::StoreI { constant: 3, register: 3 },
        Instruction::Copy { src: 3, dest: 2 },
        Instruction::StoreI { constant: 2, register: 3 },
        Instruction::Copy { src: 3, dest: 1 },
    ];
    expected.extend(multiply_loop(5));
    expected.push(Instruction::StoreI { constant: 4, register: 3 });
    assert_eq!(program, expected);
}

#[test]
fn compile_refuses_a_digit_node() {
    assert_eq!(
        Compiler::new(vec![Node::Temp(1)]).compile(),
        Err("Bad parsing!".to_string())
    );
    assert_eq!(
        Compiler::new(vec![number(1), mul(number(2), div(Node::Temp(0), number(1)))]).compile(),
        Err("Bad parsing!".to_string())
    );
    assert_eq!(
        Compiler::new(vec![mul(Node::Temp(0), number(1))]).compile(),
        Err("Bad parsing!".to_string())
    );
}

#[test]
fn compile_node_appends_and_stops_at_a_digit_node() {
    let mut instructions = vec![Instruction::Jump { instruction: 0 }];
    assert_eq!(Compiler::compile_node(&mut instructions, &number(5)), Ok(()));
    assert_eq!(
        instructions,
        vec![
            Instruction::Jump { instruction: 0 },
            Instruction::StoreI { constant: 5, register: 3 }
        ]
    );
    // the multiplicand is emitted and kept before the digit node is met
    let broken = mul(Node::Temp(1), number(6));
    assert_eq!(
        Compiler::compile_node(&mut instructions, &broken),
        Err("Bad parsing!".to_string())
    );
    assert_eq!(
        instructions,
        vec![
            Instruction::Jump { instruction: 0 },
            Instruction::StoreI { constant: 5, register: 3 },
            Instruction::StoreI { constant: 6, register: 3 },
            Instruction::Copy { src: 3, dest: 2 },
        ]
    );
    // the dividend comes first in a division, too
    let mut instructions = Vec::new();
    let broken = div(Node::Temp(1), number(6));
    assert_eq!(
        Compiler::compile_node(&mut instructions, &broken),
        Err("Bad parsing!".to_string())
    );
    assert_eq!(
        instructions,
        vec![
            Instruction::StoreI { constant: 6, register: 3 },
            Instruction::Copy { src: 3, dest: 4 },
        ]
    );
    let mut instructions = Vec::new();
    let broken = div(number(6), Node::Temp(1));
    assert_eq!(
        Compiler::compile_node(&mut instructions, &broken),
        Err("Bad parsing!".to_string())
    );
    assert_eq!(instructions, Vec::<Instruction>::new());
}

#[test]
fn compiled_programs_are_well_formed() {
    let trees = vec![
        div(number(3), mul(number(2), number(1))),
        mul(number(3), div(number(2), mul(number(4), number(1)))),
        mul(mul(number(1), number(2)), div(number(3), number(4))),
    ];
    let program = Compiler::new(trees).compile().unwrap();
    assert!(is_well_formed(&program));
}
