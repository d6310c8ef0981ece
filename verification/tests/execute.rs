use bincalc::execute::{is_well_formed, Instruction, Machine};

fn run(program: Vec<Instruction>) -> [i16; 5] {
    assert!(is_well_formed(&program));
    let mut machine = Machine::new();
    machine.run(program);
    machine.registers()
}

#[test]
fn new_machine_is_cleared() {
    let machine = Machine::new();
    assert_eq!(machine.registers(), [0; 5]);
    assert_eq!(machine.pc(), 0);
    assert_eq!(machine.answer_by_convention(), 0);
}

#[test]
fn empty_program_halts_at_once() {
    let mut machine = Machine::new();
    assert!(machine.has_halted(&Vec::new()));
    machine.run(Vec::new());
    assert_eq!(machine.registers(), [0; 5]);
    assert_eq!(machine.pc(), 0);
}

#[test]
fn store_and_copy() {
    let registers = run(vec![
        Instruction::StoreI { constant: 7, register: 3 },
        Instruction::Copy { src: 3, dest: 0 },
        Instruction::StoreI { constant: -2, register: 4 },
    ]);
    assert_eq!(registers, [7, 0, 0, 7, -2]);
}

#[test]
fn answer_is_register_three() {
    let mut machine = Machine::new();
    machine.run(vec![
        Instruction::StoreI { constant: 1, register: 0 },
        Instruction::StoreI { constant: 2, register: 1 },
        Instruction::StoreI { constant: 3, register: 2 },
        Instruction::StoreI { constant: 4, register: 3 },
        Instruction::StoreI { constant: 5, register: 4 },
    ]);
    assert_eq!(machine.answer_by_convention(), 4);
}

#[test]
fn add_and_subtract() {
    let registers = run(vec![
        Instruction::StoreI { constant: 20, register: 1 },
        Instruction::StoreI { constant: 5, register: 2 },
        Instruction::Add { lhs: 1, rhs: 2, dest: 3 },
        Instruction::Subtract { lhs: 1, rhs: 2, dest: 4 },
        Instruction::Subtract { lhs: 2, rhs: 1, dest: 0 },
        Instruction::AddI { register: 1, constant: -21 },
        Instruction::SubtractI { register: 2, constant: 6 },
    ]);
    assert_eq!(registers, [-15, -1, -1, 25, 15]);
}

#[test]
fn sums_wrap() {
    let registers = run(vec![
        Instruction::StoreI { constant: i16::MAX, register: 0 },
        Instruction::AddI { register: 0, constant: 1 },
        Instruction::StoreI { constant: i16::MIN, register: 1 },
        Instruction::SubtractI { register: 1, constant: 1 },
        Instruction::StoreI { constant: 30000, register: 2 },
        Instruction::Add { lhs: 2, rhs: 2, dest: 3 },
        Instruction::StoreI { constant: -30000, register: 4 },
        Instruction::Subtract { lhs: 4, rhs: 2, dest: 4 },
    ]);
    assert_eq!(registers, [i16::MIN, i16::MAX, 30000, -5536, 5536]);
}

#[test]
fn negate_flips_every_bit() {
    let registers = run(vec![
        Instruction::StoreI { constant: 5, register: 1 },
        Instruction::Negate { register: 0 },
        Instruction::Negate { register: 1 },
        Instruction::StoreI { constant: -1, register: 2 },
        Instruction::Negate { register: 2 },
        Instruction::StoreI { constant: i16::MIN, register: 3 },
        Instruction::Negate { register: 3 },
    ]);
    assert_eq!(registers, [-1, -6, 0, i16::MAX, 0]);
}

#[test]
fn and_masks() {
    let registers = run(vec![
        Instruction::StoreI { constant: 0b1101, register: 0 },
        Instruction::AndI { register: 0, constant: 0b0110 },
        Instruction::StoreI { constant: -7, register: 1 },
        Instruction::AndI { register: 1, constant: i16::MIN },
        Instruction::StoreI { constant: 7, register: 2 },
        Instruction::AndI { register: 2, constant: i16::MIN },
        Instruction::StoreI { constant: 77, register: 3 },
        Instruction::AndI { register: 3, constant: 0 },
    ]);
    assert_eq!(registers, [0b0100, i16::MIN, 0, 0, 0]);
}

#[test]
fn shifts() {
    let registers = run(vec![
        Instruction::StoreI { constant: 3, register: 0 },
        Instruction::ShiftLeft { register: 0, amount: 4 },
        Instruction::StoreI { constant: 0x4001, register: 1 },
        Instruction::ShiftLeft { register: 1, amount: 1 },
        Instruction::StoreI { constant: 0x00f0, register: 2 },
        Instruction::ShiftRight { register: 2, amount: 5 },
        // a shift to the right brings zeros in, also into a negative value
        Instruction::StoreI { constant: -2, register: 3 },
        Instruction::ShiftRight { register: 3, amount: 1 },
        Instruction::StoreI { constant: -1, register: 4 },
        Instruction::ShiftRight { register: 4, amount: 15 },
    ]);
    assert_eq!(registers, [48, i16::MIN + 2, 7, i16::MAX, 1]);
}

#[test]
fn shift_by_nothing() {
    let registers = run(vec![
        Instruction::StoreI { constant: -5, register: 0 },
        Instruction::ShiftLeft { register: 0, amount: 0 },
        Instruction::StoreI { constant: -5, register: 1 },
        Instruction::ShiftRight { register: 1, amount: 0 },
    ]);
    assert_eq!(registers, [-5, -5, 0, 0, 0]);
}

#[test]
fn jump_skips() {
    let registers = run(vec![
        Instruction::Jump { instruction: 2 },
        Instruction::StoreI { constant: 1, register: 0 },
        Instruction::StoreI { constant: 2, register: 1 },
    ]);
    assert_eq!(registers, [0, 2, 0, 0, 0]);
}

#[test]
fn jump_if_tests_for_nonzero() {
    let registers = run(vec![
        Instruction::JumpIf { instruction: 2, test: 4 },
        Instruction::StoreI { constant: 1, register: 0 },
        Instruction::StoreI { constant: -1, register: 4 },
        Instruction::JumpIf { instruction: 5, test: 4 },
        Instruction::StoreI { constant: 2, register: 1 },
        Instruction::StoreI { constant: 3, register: 2 },
    ]);
    assert_eq!(registers, [1, 0, 3, 0, -1]);
}

#[test]
fn a_loop_counts_down() {
    let mut machine = Machine::new();
    let program = vec![
        Instruction::StoreI { constant: 3, register: 0 },
        Instruction::AddI { register: 3, constant: 10 },
        Instruction::SubtractI { register: 0, constant: 1 },
        Instruction::JumpIf { instruction: 1, test: 0 },
    ];
    machine.run(program);
    assert_eq!(machine.answer_by_convention(), 30);
    assert_eq!(machine.pc(), 4);
}

#[test]
fn run_starts_at_the_first_instruction_and_keeps_the_registers() {
    let mut machine = Machine::new();
    machine.run(vec![Instruction::AddI { register: 3, constant: 5 }]);
    assert_eq!(machine.pc(), 1);
    machine.run(vec![
        Instruction::AddI { register: 3, constant: 5 },
        Instruction::AddI { register: 3, constant: 5 },
    ]);
    assert_eq!(machine.answer_by_convention(), 15);
    assert_eq!(machine.pc(), 2);
}

#[test]
fn step_runs_one_instruction() {
    let program = vec![
        Instruction::StoreI { constant: 1, register: 4 },
        Instruction::JumpIf { instruction: 3, test: 4 },
        Instruction::StoreI { constant: 9, register: 3 },
        Instruction::JumpIf { instruction: 0, test: 3 },
    ];
    let mut machine = Machine::new();
    assert!(!machine.has_halted(&program));
    machine.step(&program);
    assert_eq!(machine.pc(), 1);
    assert_eq!(machine.registers(), [0, 0, 0, 0, 1]);
    machine.step(&program);
    assert_eq!(machine.pc(), 3);
    machine.step(&program);
    assert_eq!(machine.pc(), 4);
    assert!(machine.has_halted(&program));
    assert_eq!(machine.registers(), [0, 0, 0, 0, 1]);
}

#[test]
fn well_formed_programs() {
    assert!(is_well_formed(&Vec::new()));
    assert!(is_well_formed(&vec![
        Instruction::Jump { instruction: 1 },
        Instruction::ShiftLeft { register: 4, amount: 15 },
    ]));
    assert!(!is_well_formed(&vec![Instruction::Jump { instruction: 1 }]));
    assert!(!is_well_formed(&vec![Instruction::JumpIf { instruction: 7, test: 0 }]));
    assert!(!is_well_formed(&vec![Instruction::JumpIf { instruction: 0, test: 5 }]));
    assert!(!is_well_formed(&vec![Instruction::ShiftLeft { register: 0, amount: 16 }]));
    assert!(!is_well_formed(&vec![Instruction::ShiftRight { register: 0, amount: 16 }]));
    assert!(!is_well_formed(&vec![Instruction::Negate { register: 5 }]));
    assert!(!is_well_formed(&vec![Instruction::AndI { register: 5, constant: 0 }]));
    assert!(!is_well_formed(&vec![Instruction::StoreI { constant: 0, register: 5 }]));
    assert!(!is_well_formed(&vec![Instruction::Copy { src: 0, dest: 5 }]));
    assert!(!is_well_formed(&vec![Instruction::Copy { src: 5, dest: 0 }]));
    assert!(!is_well_formed(&vec![Instruction::Add { lhs: 0, rhs: 0, dest: 5 }]));
    assert!(!is_well_formed(&vec![Instruction::Add { lhs: 0, rhs: 5, dest: 0 }]));
    assert!(!is_well_formed(&vec![Instruction::Subtract { lhs: 5, rhs: 0, dest: 0 }]));
    assert!(!is_well_formed(&vec![Instruction::AddI { register: 9, constant: 0 }]));
    assert!(!is_well_formed(&vec![Instruction::SubtractI { register: 9, constant: 0 }]));
}

#[test]
fn instruction_names() {
    assert_eq!(Instruction::Negate { register: 0 }.as_str(), "Negate");
    assert_eq!(Instruction::AndI { register: 0, constant: 0 }.as_str(), "AndI");
    assert_eq!(Instruction::Jump { instruction: 0 }.as_str(), "Jump");
    assert_eq!(Instruction::JumpIf { instruction: 0, test: 0 }.as_str(), "JumpIf");
    assert_eq!(Instruction::StoreI { constant: 0, register: 0 }.as_str(), "StoreI");
    assert_eq!(Instruction::Copy { src: 0, dest: 0 }.as_str(), "Copy");
    assert_eq!(Instruction::Subtract { lhs: 0, rhs: 0, dest: 0 }.as_str(), "Subtract");
    assert_eq!(Instruction::SubtractI { register: 0, constant: 0 }.as_str(), "SubtractI");
    assert_eq!(Instruction::Add { lhs: 0, rhs: 0, dest: 0 }.as_str(), "Add");
    assert_eq!(Instruction::AddI { register: 0, constant: 0 }.as_str(), "Add");
    assert_eq!(Instruction::ShiftLeft { register: 0, amount: 0 }.as_str(), "ShiftLeft");
    assert_eq!(Instruction::ShiftRight { register: 0, amount: 0 }.as_str(), "ShiftRight");
}

#[test]
fn will_jump_tells_what_step_does() {
    let program = vec![
        Instruction::JumpIf { instruction: 3, test: 4 },
        Instruction::StoreI { constant: 1, register: 4 },
        Instruction::JumpIf { instruction: 4, test: 4 },
        Instruction::Jump { instruction: 0 },
        Instruction::Jump { instruction: 5 },
        Instruction::Negate { register: 0 },
    ];
    let mut machine = Machine::new();
    // the test register is zero: no jump
    assert!(!machine.will_jump(&program));
    machine.step(&program);
    assert_eq!(machine.pc(), 1);
    assert!(!machine.will_jump(&program));
    machine.step(&program);
    // the test register is one: the jump is taken
    assert!(machine.will_jump(&program));
    machine.step(&program);
    assert_eq!(machine.pc(), 4);
    assert!(machine.will_jump(&program));
    machine.step(&program);
    assert_eq!(machine.pc(), 5);
    assert!(!machine.will_jump(&program));
    machine.step(&program);
    assert!(machine.has_halted(&program));
}
