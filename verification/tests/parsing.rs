use bincalc::parsing::{op, to_i8, Node, Parser, Predicate};
use bincalc::tokens::{tokenize, Token};

fn number(value: i8) -> Node {
    Node::NumberN(value)
}

fn mul(right: Node, left: Node) -> Node {
    Node::MulN { lhs: Box::new(right), rhs: Box::new(left) }
}

fn div(right: Node, left: Node) -> Node {
    Node::DivN { lhs: Box::new(right), rhs: Box::new(left) }
}

fn tokens(text: &str) -> Vec<Token> {
    tokenize(text).unwrap()
}

#[test]
fn digit_reads_one_digit() {
    let (rest, nodes) = Parser::Digit.parse(tokens("10"), &[]).unwrap();
    assert_eq!(rest, tokens("0"));
    assert_eq!(nodes, vec![Node::Temp(1)]);
    let (rest, nodes) = Parser::Digit.parse(tokens("0*"), &[number(5)]).unwrap();
    assert_eq!(rest, tokens("*"));
    assert_eq!(nodes, vec![Node::Temp(0), number(5)]);
}

#[test]
fn digit_fails_on_a_sign_and_on_nothing() {
    let (rest, nodes) = Parser::Digit.parse(tokens("*1"), &[number(5)]).unwrap();
    assert_eq!(rest, tokens("*1"));
    assert_eq!(nodes, vec![number(5)]);
    let (rest, nodes) = Parser::Digit.parse(Vec::new(), &[number(5)]).unwrap();
    assert_eq!(rest, Vec::<Token>::new());
    assert_eq!(nodes, vec![number(5)]);
}

#[test]
fn signs_read_their_own_token_only() {
    let (rest, nodes) = Parser::MulP.parse(tokens("*1"), &[]).unwrap();
    assert_eq!(rest, tokens("1"));
    assert_eq!(nodes, Vec::<Node>::new());
    let (rest, _) = Parser::MulP.parse(tokens("/1"), &[]).unwrap();
    assert_eq!(rest, tokens("/1"));
    let (rest, _) = Parser::DivP.parse(tokens("/1"), &[]).unwrap();
    assert_eq!(rest, tokens("1"));
    let (rest, _) = Parser::DivP.parse(tokens("*1"), &[]).unwrap();
    assert_eq!(rest, tokens("*1"));
    let (rest, _) = Parser::DivP.parse(Vec::new(), &[]).unwrap();
    assert_eq!(rest, Vec::<Token>::new());
}

#[test]
fn number_folds_four_digits() {
    for value in 0..16i8 {
        let text = format!("{value:04b}*");
        let (rest, nodes) = Parser::Number.parse(tokens(&text), &[number(9)]).unwrap();
        assert_eq!(rest, tokens("*"));
        assert_eq!(nodes, vec![number(value), number(9)]);
    }
}

#[test]
fn number_fails_on_fewer_than_four_digits() {
    for text in ["", "1", "10", "101", "101*1", "*1010"] {
        let (rest, nodes) = Parser::Number.parse(tokens(text), &[number(9)]).unwrap();
        assert_eq!(rest, tokens(text));
        assert_eq!(nodes, vec![number(9)]);
    }
}

#[test]
fn to_i8_packs_the_lowest_bit_first() {
    // the digits of 0011, the one read last in front
    let bits = [Node::Temp(1), Node::Temp(1), Node::Temp(0), Node::Temp(0)];
    assert_eq!(to_i8(&bits), Ok(3));
    let bits = [Node::Temp(0), Node::Temp(0), Node::Temp(0), Node::Temp(1)];
    assert_eq!(to_i8(&bits), Ok(8));
    let bits = [Node::Temp(1), Node::Temp(0), Node::Temp(0), Node::Temp(0)];
    assert_eq!(to_i8(&bits), Ok(1));
    assert_eq!(to_i8(&[]), Ok(0));
    assert_eq!(to_i8(&[Node::Temp(1)]), Ok(8));
    assert_eq!(to_i8(&[Node::Temp(1), Node::Temp(1)]), Ok(12));
}

#[test]
fn to_i8_keeps_the_last_four_digits() {
    let bits = [
        Node::Temp(1),
        Node::Temp(1),
        Node::Temp(1),
        Node::Temp(0),
        Node::Temp(1),
        Node::Temp(0),
    ];
    assert_eq!(to_i8(&bits), Ok(5));
}

#[test]
fn to_i8_refuses_what_is_no_digit() {
    assert_eq!(to_i8(&[Node::Temp(1), number(1)]), Err("Uh no"));
    assert_eq!(to_i8(&[Node::Temp(2)]), Err("Uh no"));
    assert_eq!(to_i8(&[Node::Temp(-1)]), Err("Uh no"));
    assert_eq!(to_i8(&[mul(number(1), number(1))]), Err("Uh no"));
}

#[test]
fn exactly_needs_every_application() {
    let three = Parser::Exactly(3, Box::new(Parser::Digit));
    let (rest, nodes) = three.parse(tokens("1011"), &[]).unwrap();
    assert_eq!(rest, tokens("1"));
    assert_eq!(nodes, vec![Node::Temp(1), Node::Temp(0), Node::Temp(1)]);
    let (rest, nodes) = three.parse(tokens("10*1"), &[number(2)]).unwrap();
    assert_eq!(rest, tokens("10*1"));
    assert_eq!(nodes, vec![number(2)]);
}

#[test]
fn exactly_zero_times_changes_nothing() {
    let none = Parser::Exactly(0, Box::new(Parser::Digit));
    let (rest, nodes) = none.parse(tokens("1011"), &[number(2)]).unwrap();
    assert_eq!(rest, tokens("1011"));
    assert_eq!(nodes, vec![number(2)]);
}

#[test]
fn then_reverts_where_the_second_fails() {
    let both = Parser::Then(Box::new(Parser::Number), Box::new(Parser::MulP));
    let (rest, nodes) = both.parse(tokens("0101*1"), &[]).unwrap();
    assert_eq!(rest, tokens("1"));
    assert_eq!(nodes, vec![number(5)]);
    let (rest, nodes) = both.parse(tokens("0101/1"), &[number(7)]).unwrap();
    assert_eq!(rest, tokens("0101/1"));
    assert_eq!(nodes, vec![number(7)]);
    let (rest, nodes) = both.parse(tokens("*0101"), &[number(7)]).unwrap();
    assert_eq!(rest, tokens("*0101"));
    assert_eq!(nodes, vec![number(7)]);
}

#[test]
fn or_takes_the_first_that_succeeds() {
    let one = Parser::Exactly(1, Box::new(Parser::Digit));
    let two = Parser::Exactly(2, Box::new(Parser::Digit));
    // the first match wins, not the longest
    let either = Parser::Or(Box::new(one), Box::new(two));
    let (rest, nodes) = either.parse(tokens("11"), &[]).unwrap();
    assert_eq!(rest, tokens("1"));
    assert_eq!(nodes, vec![Node::Temp(1)]);
    let either = Parser::Or(Box::new(Parser::MulP), Box::new(Parser::DivP));
    let (rest, _) = either.parse(tokens("/1"), &[]).unwrap();
    assert_eq!(rest, tokens("1"));
    let (rest, nodes) = either.parse(tokens("1/"), &[number(3)]).unwrap();
    assert_eq!(rest, tokens("1/"));
    assert_eq!(nodes, vec![number(3)]);
}

#[test]
fn repeat_goes_on_while_it_succeeds() {
    let digits = Parser::Repeat(Box::new(Parser::Digit));
    let (rest, nodes) = digits.parse(tokens("101*1"), &[]).unwrap();
    assert_eq!(rest, tokens("*1"));
    assert_eq!(nodes, vec![Node::Temp(1), Node::Temp(0), Node::Temp(1)]);
    let (rest, nodes) = digits.parse(tokens("111"), &[]).unwrap();
    assert_eq!(rest, Vec::<Token>::new());
    assert_eq!(nodes.len(), 3);
}

#[test]
fn repeat_of_nothing_changes_nothing() {
    let digits = Parser::Repeat(Box::new(Parser::Digit));
    let (rest, nodes) = digits.parse(tokens("*1"), &[number(1)]).unwrap();
    assert_eq!(rest, tokens("*1"));
    assert_eq!(nodes, vec![number(1)]);
    let (rest, nodes) = digits.parse(Vec::new(), &[number(1)]).unwrap();
    assert_eq!(rest, Vec::<Token>::new());
    assert_eq!(nodes, vec![number(1)]);
}

#[test]
fn if_tests_the_last_node() {
    let guarded = Parser::If { pred: Predicate::TopIsOperation, parser: Box::new(Parser::MulP) };
    let product = mul(number(1), number(2));
    let (rest, nodes) = guarded.parse(tokens("*1"), &[product.clone()]).unwrap();
    assert_eq!(rest, tokens("1"));
    assert_eq!(nodes, vec![product.clone()]);
    let (rest, nodes) = guarded.parse(tokens("*1"), &[number(2), product]).unwrap();
    assert_eq!(rest, tokens("*1"));
    assert_eq!(nodes.len(), 2);
    let (rest, _) = guarded.parse(tokens("*1"), &[]).unwrap();
    assert_eq!(rest, tokens("*1"));
    let quotient = div(number(1), number(2));
    let (rest, _) = guarded.parse(tokens("*1"), &[quotient]).unwrap();
    assert_eq!(rest, tokens("1"));
}

#[test]
fn predicate_holds_for_operations_only() {
    let none: Vec<Token> = Vec::new();
    assert!(!Predicate::TopIsOperation.check(&none, &[]));
    assert!(!Predicate::TopIsOperation.check(&none, &[number(1)]));
    assert!(!Predicate::TopIsOperation.check(&none, &[Node::Temp(1)]));
    assert!(Predicate::TopIsOperation.check(&none, &[mul(number(1), number(1))]));
    assert!(Predicate::TopIsOperation.check(&none, &[div(number(1), number(1)), number(1)]));
}

#[test]
fn op_reads_two_numbers() {
    let (rest, nodes) = op(tokens("0011*0010"), &[], false).unwrap();
    assert_eq!(rest, Vec::<Token>::new());
    assert_eq!(nodes, vec![mul(number(2), number(3))]);
    let (rest, nodes) = op(tokens("0110/0010*"), &[number(1)], true).unwrap();
    assert_eq!(rest, tokens("*"));
    assert_eq!(nodes, vec![div(number(2), number(6)), number(1)]);
}

#[test]
fn op_takes_the_last_operation_as_left_operand() {
    let first = mul(number(2), number(3));
    let (rest, nodes) = op(tokens("/0100"), &[first.clone(), number(9)], true).unwrap();
    assert_eq!(rest, Vec::<Token>::new());
    assert_eq!(nodes, vec![div(number(4), first), number(9)]);
}

#[test]
fn op_fails_on_the_other_sign() {
    let first = mul(number(2), number(3));
    let (rest, nodes) = op(tokens("/0100"), &[first.clone()], false).unwrap();
    assert_eq!(rest, tokens("/0100"));
    assert_eq!(nodes, vec![first]);
    let (rest, nodes) = op(tokens("0011*0010"), &[], true).unwrap();
    assert_eq!(rest, tokens("0011*0010"));
    assert_eq!(nodes, Vec::<Node>::new());
}

#[test]
fn op_fails_where_a_number_is_cut_short() {
    for text in ["", "0011", "0011*", "0011*001", "001*0010", "*0010"] {
        let (rest, nodes) = op(tokens(text), &[number(1)], false).unwrap();
        assert_eq!(rest, tokens(text));
        assert_eq!(nodes, vec![number(1)]);
    }
    let first = div(number(2), number(3));
    let (rest, nodes) = op(tokens("*001"), &[first.clone()], false).unwrap();
    assert_eq!(rest, tokens("*001"));
    assert_eq!(nodes, vec![first]);
}

#[test]
fn expr_builds_a_chain_from_left_to_right() {
    let (rest, nodes) = Parser::Expr.parse(tokens("0001*0010*0011"), &[]).unwrap();
    assert_eq!(rest, Vec::<Token>::new());
    assert_eq!(nodes, vec![mul(number(3), mul(number(2), number(1)))]);
    let (rest, nodes) = Parser::Expr.parse(tokens("1000/0010*0011/0100"), &[]).unwrap();
    assert_eq!(rest, Vec::<Token>::new());
    assert_eq!(
        nodes,
        vec![div(number(4), mul(number(3), div(number(2), number(8))))]
    );
}

#[test]
fn expr_of_nothing_is_nothing() {
    let (rest, nodes) = Parser::Expr.parse(Vec::new(), &[]).unwrap();
    assert_eq!(rest, Vec::<Token>::new());
    assert_eq!(nodes, Vec::<Node>::new());
}

#[test]
fn expr_leaves_what_it_cannot_read() {
    let (rest, nodes) = Parser::Expr.parse(tokens("0011*00101"), &[]).unwrap();
    assert_eq!(rest, tokens("1"));
    assert_eq!(nodes, vec![mul(number(2), number(3))]);
    let (rest, nodes) = Parser::Expr.parse(tokens("0011"), &[]).unwrap();
    assert_eq!(rest, tokens("0011"));
    assert_eq!(nodes, Vec::<Node>::new());
    let (rest, nodes) = Parser::Expr.parse(tokens("0011*0010*"), &[]).unwrap();
    assert_eq!(rest, tokens("*"));
    assert_eq!(nodes.len(), 1);
}

#[test]
fn expr_starts_a_second_tree_behind_a_finished_one() {
    let (rest, nodes) = Parser::Expr.parse(tokens("0001*00100011/0100"), &[]).unwrap();
    assert_eq!(rest, Vec::<Token>::new());
    assert_eq!(nodes, vec![div(number(4), number(3)), mul(number(2), number(1))]);
}

#[test]
fn a_failed_application_changes_nothing() {
    let parsers = vec![
        Parser::Digit,
        Parser::Number,
        Parser::MulP,
        Parser::DivP,
        Parser::MulE,
        Parser::DivE,
        Parser::Expr,
        Parser::Exactly(2, Box::new(Parser::Number)),
        Parser::Repeat(Box::new(Parser::Number)),
        Parser::Then(Box::new(Parser::MulP), Box::new(Parser::DivP)),
        Parser::Or(Box::new(Parser::MulP), Box::new(Parser::Number)),
        Parser::If { pred: Predicate::TopIsOperation, parser: Box::new(Parser::Digit) },
    ];
    let given_nodes = vec![number(4), Node::Temp(1)];
    for text in ["", "/", "/*", "/101", "/0*1/"] {
        for parser in &parsers {
            let (rest, nodes) = parser.parse(tokens(text), &given_nodes).unwrap();
            if rest.len() == tokens(text).len() {
                assert_eq!(rest, tokens(text));
                assert_eq!(nodes, given_nodes);
                // and once more, on what came back
                let (again, nodes_again) = parser.parse(rest, &nodes).unwrap();
                assert_eq!(again, tokens(text));
                assert_eq!(nodes_again, given_nodes);
            } else {
                assert!(rest.len() < tokens(text).len());
            }
        }
    }
}

#[test]
fn parsers_can_be_cloned() {
    let parser = Parser::Then(
        Box::new(Parser::Exactly(2, Box::new(Parser::Digit))),
        Box::new(Parser::If { pred: Predicate::TopIsOperation, parser: Box::new(Parser::MulP) }),
    );
    let copy = parser.clone();
    assert_eq!(format!("{parser:?}"), format!("{copy:?}"));
    let node = mul(number(1), div(number(2), Node::Temp(1)));
    assert_eq!(node.clone(), node);
}
