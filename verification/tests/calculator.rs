use bincalc::calculator::{build, calculate, to_binary, CalcError};
use bincalc::compile::Compiler;
use bincalc::execute::Machine;
use bincalc::parsing::{Node, Parser};
use bincalc::tokens::{tokenize, Token};

#[derive(Eq, PartialEq, Clone, Copy)]
enum Op {
    MulOp,
    DivOp,
}

impl Op {
    fn sign(&self) -> &'static str {
        match self {
            Op::MulOp => "*",
            Op::DivOp => "/",
        }
    }

    /// What one operation comes to.
    fn op(&self, x: i16, y: i16) -> i16 {
        match self {
            Op::MulOp => i16::overflowing_mul(x, y).0,
            Op::DivOp => {
                if y == 0 {
                    // every round of the division lets a one into the quotient
                    0x1F
                } else {
                    // the quotient has five bits
                    i16::overflowing_div(x, y).0.min(0x1F)
                }
            }
        }
    }
}

fn calculate_as_the_parts_do(inp: &str) -> i16 {
    let tokens = tokenize(inp).unwrap();
    let parsed = Parser::Expr.parse(tokens, &[]).unwrap();
    let nodes = parsed.1;
    let compiled = Compiler::new(nodes).compile().unwrap();
    let mut machine = Machine::new();
    machine.run(compiled);
    machine.answer_by_convention()
}

#[test]
fn testing() {
    for op in [Op::MulOp, Op::DivOp] {
        for i in 0..16 {
            for j in 0..16 {
                assert_eq!(
                    calculate_as_the_parts_do(format!("{i:04b}{}{j:04b}", op.sign()).as_str()),
                    op.op(i as i16, j as i16)
                )
            }
        }
    }

    for op in [
        (Op::MulOp, Op::MulOp),
        (Op::MulOp, Op::DivOp),
        (Op::DivOp, Op::DivOp),
        (Op::DivOp, Op::MulOp),
    ] {
        for i in 0..16 {
            for j in 0..16 {
                for k in 0..16 {
                    if k == 0 && op.1 == Op::DivOp {
                        continue;
                    }
                    assert_eq!(
                        calculate_as_the_parts_do(
                            format!("{i:04b}{}{j:04b}{}{k:04b}", op.0.sign(), op.1.sign())
                                .as_str()
                        ),
                        op.1.op(op.0.op(i as i16, j as i16), k as i16)
                    )
                }
            }
        }
    }
}

#[test]
fn products_of_two() {
    for a in 0..16i16 {
        for b in 0..16i16 {
            assert_eq!(calculate(&format!("{a:04b}*{b:04b}")), Ok(a * b));
        }
    }
}

#[test]
fn quotients_of_two() {
    for a in 0..16i16 {
        for b in 1..16i16 {
            assert_eq!(calculate(&format!("{a:04b}/{b:04b}")), Ok(a / b));
        }
    }
}

#[test]
fn division_by_zero_gives_31() {
    for a in 0..16i16 {
        assert_eq!(calculate(&format!("{a:04b}/0000")), Ok(31));
    }
}

#[test]
fn products_of_three() {
    for a in 0..16i16 {
        for b in 0..16i16 {
            for c in 0..16i16 {
                assert_eq!(calculate(&format!("{a:04b}*{b:04b}*{c:04b}")), Ok(a * b * c));
            }
        }
    }
}

#[test]
fn a_quotient_multiplied() {
    for a in 0..16i16 {
        for b in 1..16i16 {
            for c in 0..16i16 {
                assert_eq!(calculate(&format!("{a:04b}/{b:04b}*{c:04b}")), Ok(a / b * c));
            }
        }
    }
}

#[test]
fn a_product_divided() {
    for a in 0..16i16 {
        for b in 0..16i16 {
            for c in 1..16i16 {
                let expected = if a * b < 32 * c { a * b / c } else { 31 };
                assert_eq!(calculate(&format!("{a:04b}*{b:04b}/{c:04b}")), Ok(expected));
            }
            assert_eq!(calculate(&format!("{a:04b}*{b:04b}/0000")), Ok(31));
        }
    }
    assert_eq!(calculate("0010*0011/0010"), Ok(3));
    assert_eq!(calculate("0011*0010/0010"), Ok(3));
    assert_eq!(calculate("1111*1111/1000"), Ok(28));
    assert_eq!(calculate("1111*1111/0111"), Ok(31));
}

#[test]
fn a_quotient_divided() {
    for a in 0..16i16 {
        for b in 1..16i16 {
            for c in 1..16i16 {
                assert_eq!(calculate(&format!("{a:04b}/{b:04b}/{c:04b}")), Ok(a / b / c));
            }
            assert_eq!(calculate(&format!("{a:04b}/{b:04b}/0000")), Ok(31));
        }
        for c in 1..16i16 {
            assert_eq!(calculate(&format!("{a:04b}/0000/{c:04b}")), Ok(31 / c));
        }
    }
    assert_eq!(calculate("1000/0010/0010"), Ok(2));
}

#[test]
fn longer_chains() {
    assert_eq!(calculate("0010*0011*0100*0101"), Ok(120));
    assert_eq!(calculate("1111*1111*1111*0010"), Ok(6750));
    assert_eq!(calculate("1000/0010*0011*0010"), Ok(24));
    assert_eq!(calculate("0110/0011*0100/0010"), Ok(4));
    assert_eq!(calculate("1111*1111/0011*0010/0101"), Ok(12));
}

#[test]
fn three_times_two() {
    assert_eq!(calculate("0011*0010"), Ok(6));
    assert_eq!(to_binary(calculate("0011*0010").unwrap()), "00000110");
}

#[test]
fn one_by_zero() {
    assert_eq!(calculate("0001/0000"), Ok(31));
    assert_eq!(to_binary(calculate("0001/0000").unwrap()), "00011111");
}

#[test]
fn other_characters_do_not_count() {
    assert_eq!(calculate("00 11 * 00 10"), Ok(6));
    assert_eq!(calculate("(0110) / (0011) = ?"), Ok(2));
}

#[test]
fn empty_text_comes_to_zero() {
    assert_eq!(calculate(""), Ok(0));
    assert_eq!(calculate("nothing"), Ok(0));
    assert_eq!(build("").unwrap().len(), 0);
}

#[test]
fn the_last_tree_of_the_program_decides() {
    // two expressions in a row: the one read first is compiled last
    assert_eq!(calculate("0010*00110100*0101"), Ok(6));
}

#[test]
fn leftover_tokens_are_a_syntax_error() {
    match calculate("0011*00101") {
        Err(CalcError::Syntax { remaining, parsed }) => {
            assert_eq!(remaining, vec![Token::One]);
            assert_eq!(
                parsed,
                vec![Node::MulN {
                    lhs: Box::new(Node::NumberN(2)),
                    rhs: Box::new(Node::NumberN(3))
                }]
            );
        }
        other => panic!("{other:?}"),
    }
    for text in ["1", "0011", "0011*", "*", "0011*001", "0011*0010*", "0011+0010/", "00110010"] {
        assert!(matches!(calculate(text), Err(CalcError::Syntax { .. })));
        assert!(matches!(build(text), Err(CalcError::Syntax { .. })));
    }
}

#[test]
fn text_that_is_not_ascii_is_an_encoding_error() {
    assert_eq!(calculate("0011*0010€"), Err(CalcError::Encoding));
    assert_eq!(build("ö"), Err(CalcError::Encoding));
    // and it is told before the syntax
    assert_eq!(calculate("1ö"), Err(CalcError::Encoding));
}

#[test]
fn build_gives_the_program_of_the_parts() {
    let tokens = tokenize("0110/0011*0100").unwrap();
    let (_, nodes) = Parser::Expr.parse(tokens, &[]).unwrap();
    assert_eq!(build("0110/0011*0100").unwrap(), Compiler::new(nodes).compile().unwrap());
}

#[test]
fn binary_text_of_a_value() {
    assert_eq!(to_binary(0), "00000000");
    assert_eq!(to_binary(1), "00000001");
    assert_eq!(to_binary(6), "00000110");
    assert_eq!(to_binary(128), "10000000");
    assert_eq!(to_binary(225), "11100001");
    assert_eq!(to_binary(255), "11111111");
}

#[test]
fn binary_text_shows_the_low_byte() {
    assert_eq!(to_binary(256), "00000000");
    assert_eq!(to_binary(3375), "00101111");
    assert_eq!(to_binary(-1), "11111111");
    assert_eq!(to_binary(-2), "11111110");
    assert_eq!(to_binary(i16::MIN), "00000000");
    assert_eq!(to_binary(i16::MAX), "11111111");
}
