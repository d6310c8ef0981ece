use bincalc::calculator::calculate;
use bincalc::compile::Compiler;
use bincalc::execute::Machine;
use bincalc::parsing::Node;

fn number(value: i8) -> Node {
    Node::NumberN(value)
}

fn mul(right: Node, left: Node) -> Node {
    Node::MulN { lhs: Box::new(right), rhs: Box::new(left) }
}

fn div(right: Node, left: Node) -> Node {
    Node::DivN { lhs: Box::new(right), rhs: Box::new(left) }
}

fn work_out(tree: Node) -> [i16; 5] {
    let program = Compiler::new(vec![tree]).compile().unwrap();
    let mut machine = Machine::new();
    machine.run(program);
    machine.registers()
}

#[test]
fn registers_behind_a_multiplication() {
    assert_eq!(work_out(mul(number(5), number(7))), [0, 0, 112, 35, 1]);
    assert_eq!(work_out(mul(number(0), number(7))), [0, 0, 112, 0, 1]);
    assert_eq!(work_out(mul(number(15), number(15))), [0, 0, 240, 225, 0]);
}

#[test]
fn multiplication_takes_four_bits_of_the_multiplier() {
    // 17 is 1_0001: only the low four bits count
    assert_eq!(work_out(mul(number(17), number(100)))[3], 100);
    assert_eq!(work_out(mul(number(16), number(100)))[3], 0);
    // -1 is all ones: the low four bits are 15
    assert_eq!(work_out(mul(number(-1), number(100)))[3], 1500);
}

#[test]
fn multiplication_of_a_negative_multiplicand() {
    assert_eq!(work_out(mul(number(3), number(-100)))[3], -300);
}

#[test]
fn products_wrap() {
    assert_eq!(calculate("1111*1111*1111"), Ok(3375));
    // 15 * 15 * 15 * 15 is 50625, which is 65536 - 14911
    assert_eq!(calculate("1111*1111*1111*1111"), Ok(-14911));
    assert_eq!(calculate("1111*1111*1111*1111*0010"), Ok(-29822));
}

#[test]
fn registers_behind_a_division() {
    assert_eq!(work_out(div(number(4), number(13))), [0, 3, 2, 3, 0]);
    assert_eq!(work_out(div(number(5), number(15))), [0, 3, 2, 3, 0]);
    assert_eq!(work_out(div(number(1), number(9))), [0, 9, 0, 9, 0]);
}

#[test]
fn division_gives_five_bits_of_quotient() {
    assert_eq!(work_out(div(number(3), number(95)))[3], 31);
    assert_eq!(work_out(div(number(3), number(96)))[3], 31);
    assert_eq!(work_out(div(number(1), number(100)))[3], 31);
    assert_eq!(work_out(div(number(4), number(100)))[3], 25);
    assert_eq!(work_out(div(number(100), number(99)))[3], 0);
    assert_eq!(work_out(div(number(100), number(100)))[3], 1);
}

#[test]
fn division_by_zero_of_what_is_not_negative() {
    assert_eq!(work_out(div(number(0), number(0)))[3], 31);
    assert_eq!(work_out(div(number(0), number(127)))[3], 31);
}

#[test]
fn a_division_in_a_chain_divides_by_its_own_divisor() {
    // 6 * 2 / 3
    assert_eq!(work_out(div(number(3), mul(number(2), number(6))))[3], 4);
    // 0 * 2 / 3
    assert_eq!(work_out(div(number(3), mul(number(2), number(0))))[3], 0);
    // 12 / 4 / 3
    assert_eq!(work_out(div(number(3), div(number(4), number(12))))[3], 1);
    // 15 * 15 / 2 has more than five bits
    assert_eq!(work_out(div(number(2), mul(number(15), number(15))))[3], 31);
    // 3 * 3 / 0
    assert_eq!(work_out(div(number(0), mul(number(3), number(3))))[3], 31);
}
