//! From tokens to syntax trees: parsing strategies that can be put together,
//! and the grammar made of them.
use crate::tokens::Token;
use vstd::prelude::*;
use vstd::slice::slice_subrange;
use vstd::slice::slice_to_vec;

verus! {

/// A node of the syntax tree.
///
/// In `MulN` and `DivN` the operand written on the right stands in `lhs` and
/// the operand written on the left in `rhs`: `lhs` of a division is the
/// divisor and `rhs` the dividend. In a tree that was read from tokens `lhs`
/// is always a number, and `rhs` may be a whole operation.
#[derive(Debug, Eq, PartialEq)]
pub enum Node {
    /// A number.
    NumberN(i8),
    /// A multiplication.
    MulN { lhs: Box<Node>, rhs: Box<Node> },
    /// A division.
    DivN { lhs: Box<Node>, rhs: Box<Node> },
    /// One binary digit, 0 or 1, while a number is being read. A finished
    /// tree holds none.
    Temp(i8),
}

impl Clone for Node {
    fn clone(&self) -> (res: Self)
        ensures
            res == *self,
        decreases self,
    {
        match self {
            Node::NumberN(x) => Node::NumberN(*x),
            Node::MulN { lhs, rhs } => Node::MulN {
                lhs: Box::new((&**lhs).clone()),
                rhs: Box::new((&**rhs).clone()),
            },
            Node::DivN { lhs, rhs } => Node::DivN {
                lhs: Box::new((&**lhs).clone()),
                rhs: Box::new((&**rhs).clone()),
            },
            Node::Temp(x) => Node::Temp(*x),
        }
    }
}

impl Node {
    /// Whether the tree is a number from 0 to 15 or a chain of operations on
    /// such numbers: an operation whose `lhs` is such a number and whose `rhs`
    /// is such a tree again. These are the trees that reading an expression
    /// gives.
    pub open spec fn is_chain(self) -> bool
        decreases self,
    {
        match self {
            Node::NumberN(value) => 0 <= value < 16,
            Node::MulN { lhs, rhs } => (*lhs matches Node::NumberN(value) && 0 <= value < 16)
                && rhs.is_chain(),
            Node::DivN { lhs, rhs } => (*lhs matches Node::NumberN(value) && 0 <= value < 16)
                && rhs.is_chain(),
            Node::Temp(_) => false,
        }
    }

    /// Whether a digit node is left anywhere in the tree.
    pub open spec fn has_temp(self) -> bool
        decreases self,
    {
        match self {
            Node::NumberN(_) => false,
            Node::MulN { lhs, rhs } => lhs.has_temp() || rhs.has_temp(),
            Node::DivN { lhs, rhs } => lhs.has_temp() || rhs.has_temp(),
            Node::Temp(_) => true,
        }
    }
}

/// A condition on the parse state that `Parser::If` can test.
#[derive(Debug, Clone, Copy, PartialEq, Eq)]
pub enum Predicate {
    /// The node produced last is a multiplication or a division.
    TopIsOperation,
}

impl Predicate {
    /// Whether the condition holds of the tokens and the nodes produced so
    /// far.
    pub open spec fn holds(self, tokens: Seq<Token>, nodes: Seq<Node>) -> bool {
        match self {
            Predicate::TopIsOperation => nodes.len() > 0 && (nodes[0] is MulN || nodes[0] is DivN),
        }
    }

    /// Tests the condition.
    pub fn check(&self, tokens: &Vec<Token>, nodes: &[Node]) -> (holds: bool)
        ensures
            holds == self.holds(tokens@, nodes@),
    {
        match self {
            Predicate::TopIsOperation => {
                if nodes.len() == 0 {
                    false
                } else {
                    match &nodes[0] {
                        Node::MulN { .. } => true,
                        Node::DivN { .. } => true,
                        _ => false,
                    }
                }
            },
        }
    }
}

/// A parsing strategy. Applied to tokens and the nodes produced so far, it
/// gives the tokens that remain and the nodes after it. It has succeeded
/// where fewer tokens remain, and then its nodes stand in front; where it
/// fails, it gives back what it was given.
#[derive(Debug)]
pub enum Parser {
    /// The first strategy where it succeeds, else the second.
    Or(Box<Parser>, Box<Parser>),
    /// The first strategy and then the second; fails where either does.
    Then(Box<Parser>, Box<Parser>),
    /// The strategy that many times over; fails where one application does.
    Exactly(u8, Box<Parser>),
    /// One binary digit.
    Digit,
    /// Four binary digits, read as one number.
    Number,
    /// Operations, one after the other, as long as one can be read.
    Expr,
    /// The multiplication sign.
    MulP,
    /// The division sign.
    DivP,
    /// One multiplication.
    MulE,
    /// One division.
    DivE,
    /// The strategy, where the predicate holds; fails where it does not.
    If { pred: Predicate, parser: Box<Parser> },
    /// The strategy as often as it succeeds; never fails.
    Repeat(Box<Parser>),
}

impl Clone for Parser {
    fn clone(&self) -> (res: Self)
        ensures
            res == *self,
        decreases self,
    {
        match self {
            Parser::Or(first, second) => Parser::Or(
                Box::new((&**first).clone()),
                Box::new((&**second).clone()),
            ),
            Parser::Then(first, second) => Parser::Then(
                Box::new((&**first).clone()),
                Box::new((&**second).clone()),
            ),
            Parser::Exactly(amount, parser) => Parser::Exactly(
                *amount,
                Box::new((&**parser).clone()),
            ),
            Parser::Digit => Parser::Digit,
            Parser::Number => Parser::Number,
            Parser::Expr => Parser::Expr,
            Parser::MulP => Parser::MulP,
            Parser::DivP => Parser::DivP,
            Parser::MulE => Parser::MulE,
            Parser::DivE => Parser::DivE,
            Parser::If { pred, parser } => Parser::If {
                pred: *pred,
                parser: Box::new((&**parser).clone()),
            },
            Parser::Repeat(parser) => Parser::Repeat(Box::new((&**parser).clone())),
        }
    }
}

/// Whether `node` stands for one binary digit.
pub open spec fn is_bit(node: Node) -> bool {
    node == Node::Temp(0) || node == Node::Temp(1)
}

/// The number that digit nodes fold to: each node halves what the nodes
/// before it gave and adds 8 where it holds a one. Of four nodes the first
/// is the lowest bit.
pub open spec fn folded(nodes: Seq<Node>) -> int
    decreases nodes.len(),
{
    if nodes.len() == 0 {
        0
    } else {
        folded(nodes.drop_last()) / 2 + if nodes.last() == Node::Temp(1) {
            8int
        } else {
            0int
        }
    }
}

/// Whether the tokens begin with four binary digits.
pub open spec fn begins_with_number(tokens: Seq<Token>) -> bool {
    &&& tokens.len() >= 4
    &&& tokens[0].is_digit()
    &&& tokens[1].is_digit()
    &&& tokens[2].is_digit()
    &&& tokens[3].is_digit()
}

/// The number that the first four tokens spell, highest bit first.
pub open spec fn leading_number(tokens: Seq<Token>) -> i8 {
    (8 * tokens[0].bit() + 4 * tokens[1].bit() + 2 * tokens[2].bit() + tokens[3].bit()) as i8
}

/// What `Parser::Digit` gives.
pub open spec fn digit(tokens: Seq<Token>, nodes: Seq<Node>) -> (Seq<Token>, Seq<Node>) {
    if tokens.len() > 0 && tokens[0].is_digit() {
        (tokens.skip(1), seq![Node::Temp(tokens[0].bit() as i8)] + nodes)
    } else {
        (tokens, nodes)
    }
}

/// What the parser of one sign gives.
pub open spec fn sign(symbol: Token, tokens: Seq<Token>, nodes: Seq<Node>) -> (
    Seq<Token>,
    Seq<Node>,
) {
    if tokens.len() > 0 && tokens[0] == symbol {
        (tokens.skip(1), nodes)
    } else {
        (tokens, nodes)
    }
}

/// What `Parser::Number` gives.
pub open spec fn number(tokens: Seq<Token>, nodes: Seq<Node>) -> (Seq<Token>, Seq<Node>) {
    if begins_with_number(tokens) {
        (tokens.skip(4), seq![Node::NumberN(leading_number(tokens))] + nodes)
    } else {
        (tokens, nodes)
    }
}

/// The sign of an operation.
pub open spec fn sign_of(div: bool) -> Token {
    if div {
        Token::DivT
    } else {
        Token::MulT
    }
}

/// The node of an operation whose right operand is `right` and whose left
/// operand is `left`.
pub open spec fn combine(div: bool, right: Node, left: Node) -> Node {
    if div {
        Node::DivN { lhs: Box::new(right), rhs: Box::new(left) }
    } else {
        Node::MulN { lhs: Box::new(right), rhs: Box::new(left) }
    }
}

/// What `Parser::MulE` gives, and with `div` what `Parser::DivE` gives.
///
/// Where the last node is an operation and the tokens go on with the sign and
/// a number, that node becomes the left operand. Else the tokens have to spell
/// a number, the sign and a number.
pub open spec fn operation(div: bool, tokens: Seq<Token>, nodes: Seq<Node>) -> (
    Seq<Token>,
    Seq<Node>,
) {
    if Predicate::TopIsOperation.holds(tokens, nodes) && tokens.len() > 0 && tokens[0] == sign_of(
        div,
    ) {
        if begins_with_number(tokens.skip(1)) {
            (
                tokens.skip(5),
                seq![combine(div, Node::NumberN(leading_number(tokens.skip(1))), nodes[0])]
                    + nodes.skip(1),
            )
        } else {
            (tokens, nodes)
        }
    } else if begins_with_number(tokens) && tokens.len() > 4 && tokens[4] == sign_of(div)
        && begins_with_number(tokens.skip(5)) {
        (
            tokens.skip(9),
            seq![
                combine(
                    div,
                    Node::NumberN(leading_number(tokens.skip(5))),
                    Node::NumberN(leading_number(tokens)),
                ),
            ] + nodes,
        )
    } else {
        (tokens, nodes)
    }
}

impl Parser {
    /// How far the grammar's own strategies stand above the plain ones: each
    /// of them is worked out by strategies of a lower level.
    pub open spec fn level(self) -> nat
        decreases self,
    {
        match self {
            Parser::Or(first, second) => if first.level() >= second.level() {
                first.level()
            } else {
                second.level()
            },
            Parser::Then(first, second) => if first.level() >= second.level() {
                first.level()
            } else {
                second.level()
            },
            Parser::Exactly(_, parser) => parser.level(),
            Parser::Digit => 0,
            Parser::Number => 1,
            Parser::Expr => 3,
            Parser::MulP => 0,
            Parser::DivP => 0,
            Parser::MulE => 2,
            Parser::DivE => 2,
            Parser::If { parser, .. } => parser.level(),
            Parser::Repeat(parser) => parser.level(),
        }
    }

    /// How deep the strategy is nested.
    pub open spec fn depth(self) -> nat
        decreases self,
    {
        match self {
            Parser::Or(first, second) => 1 + if first.depth() >= second.depth() {
                first.depth()
            } else {
                second.depth()
            },
            Parser::Then(first, second) => 1 + if first.depth() >= second.depth() {
                first.depth()
            } else {
                second.depth()
            },
            Parser::Exactly(_, parser) => 1 + parser.depth(),
            Parser::If { parser, .. } => 1 + parser.depth(),
            Parser::Repeat(parser) => 1 + parser.depth(),
            _ => 0,
        }
    }

    /// The strategy that reads one operation, a division if it can.
    pub open spec fn any_operation() -> Parser {
        Parser::Or(Box::new(Parser::DivE), Box::new(Parser::MulE))
    }

    /// The strategy that reads a whole expression.
    pub open spec fn expression() -> Parser {
        Parser::Repeat(Box::new(Parser::any_operation()))
    }

    /// What the strategy gives for `tokens` and `nodes`.
    pub open spec fn parsed(self, tokens: Seq<Token>, nodes: Seq<Node>) -> (Seq<Token>, Seq<Node>)
        decreases self.level(), self.depth(), 1nat, 0nat,
    {
        match self {
            Parser::Or(first, second) => {
                let tried = first.parsed(tokens, nodes);
                if tried.0.len() < tokens.len() {
                    tried
                } else {
                    second.parsed(tokens, nodes)
                }
            },
            Parser::Then(first, second) => {
                let begun = first.parsed(tokens, nodes);
                if begun.0.len() < tokens.len() {
                    let ended = second.parsed(begun.0, begun.1);
                    if ended.0.len() < begun.0.len() {
                        ended
                    } else {
                        (tokens, nodes)
                    }
                } else {
                    (tokens, nodes)
                }
            },
            Parser::Exactly(amount, parser) => match parser.times(amount as nat, tokens, nodes) {
                Some(state) => state,
                None => (tokens, nodes),
            },
            Parser::Digit => digit(tokens, nodes),
            Parser::Number => number(tokens, nodes),
            Parser::Expr => {
                proof {
                    reveal_with_fuel(Parser::level, 3);
                }
                Parser::expression().parsed(tokens, nodes)
            },
            Parser::MulP => sign(Token::MulT, tokens, nodes),
            Parser::DivP => sign(Token::DivT, tokens, nodes),
            Parser::MulE => operation(false, tokens, nodes),
            Parser::DivE => operation(true, tokens, nodes),
            Parser::If { pred, parser } => if pred.holds(tokens, nodes) {
                parser.parsed(tokens, nodes)
            } else {
                (tokens, nodes)
            },
            Parser::Repeat(parser) => parser.repeatedly(tokens, nodes),
        }
    }

    /// The state after `amount` applications in a row, each of which
    /// succeeds; `None` where one of them fails.
    pub open spec fn times(self, amount: nat, tokens: Seq<Token>, nodes: Seq<Node>) -> Option<
        (Seq<Token>, Seq<Node>),
    >
        decreases self.level(), self.depth(), 2nat, amount,
    {
        if amount == 0 {
            Some((tokens, nodes))
        } else {
            let next = self.parsed(tokens, nodes);
            if next.0.len() < tokens.len() {
                self.times((amount - 1) as nat, next.0, next.1)
            } else {
                None
            }
        }
    }

    /// The state before the first application that does not succeed.
    pub open spec fn repeatedly(self, tokens: Seq<Token>, nodes: Seq<Node>) -> (
        Seq<Token>,
        Seq<Node>,
    )
        decreases self.level(), self.depth(), 2nat, tokens.len(),
    {
        let next = self.parsed(tokens, nodes);
        if tokens.len() > 0 && next.0.len() < tokens.len() {
            self.repeatedly(next.0, next.1)
        } else {
            (tokens, nodes)
        }
    }
}

/// An owned copy of the nodes.
fn copy_nodes(nodes: &[Node]) -> (out: Vec<Node>)
    ensures
        out@ == nodes@,
{
    let mut out: Vec<Node> = Vec::new();
    let mut i: usize = 0;
    while i < nodes.len()
        invariant
            i <= nodes.len(),
            out@ == nodes@.take(i as int),
        decreases nodes.len() - i,
    {
        out.push(nodes[i].clone());
        i += 1;
        proof {
            assert(out@ =~= nodes@.take(i as int));
        }
    }
    proof {
        assert(nodes@.take(nodes@.len() as int) =~= nodes@);
    }
    out
}

/// The nodes with `node` put in front.
fn prepend(node: Node, nodes: &[Node]) -> (out: Vec<Node>)
    ensures
        out@ == seq![node] + nodes@,
{
    let mut out: Vec<Node> = Vec::new();
    out.push(node);
    let mut i: usize = 0;
    while i < nodes.len()
        invariant
            i <= nodes.len(),
            out@ == seq![node] + nodes@.take(i as int),
        decreases nodes.len() - i,
    {
        out.push(nodes[i].clone());
        i += 1;
        proof {
            assert(out@ =~= seq![node] + nodes@.take(i as int));
        }
    }
    proof {
        assert(nodes@.take(nodes@.len() as int) =~= nodes@);
    }
    out
}

/// The tokens without the first.
fn rest(tokens: &Vec<Token>) -> (out: Vec<Token>)
    requires
        tokens.len() > 0,
    ensures
        out@ == tokens@.skip(1),
{
    slice_to_vec(slice_subrange(tokens.as_slice(), 1, tokens.len()))
}

/// Folds digit nodes into the number they spell; fails on the first node
/// that is no digit.
pub fn to_i8(inp: &[Node]) -> (res: Result<i8, &'static str>)
    ensures
        match res {
            Ok(value) => (forall|i: int| 0 <= i < inp@.len() ==> is_bit(#[trigger] inp@[i]))
                && value == folded(inp@),
            Err(message) => (exists|i: int| 0 <= i < inp@.len() && !is_bit(#[trigger] inp@[i]))
                && message@ == "Uh no"@,
        },
{
    let mut res: i8 = 0;
    let mut i: usize = 0;
    while i < inp.len()
        invariant
            i <= inp.len(),
            0 <= res < 16,
            res == folded(inp@.take(i as int)),
            forall|j: int| 0 <= j < i ==> is_bit(#[trigger] inp@[j]),
        decreases inp.len() - i,
    {
        proof {
            assert(inp@.take(i + 1).drop_last() =~= inp@.take(i as int));
            assert(0 <= res < 16 ==> res >> 1 == res / 2) by (bit_vector);
        }
        res = res >> 1;
        match &inp[i] {
            Node::Temp(0) => {},
            Node::Temp(1) => {
                res += 8;
            },
            _ => {
                return Err("Uh no");
            },
        }
        i += 1;
    }
    proof {
        assert(inp@.take(inp@.len() as int) =~= inp@);
    }
    Ok(res)
}

/// The digit nodes that stand in front once the leading number's four digits
/// have been read one by one: the digit read last comes first.
pub open spec fn leading_bits(tokens: Seq<Token>) -> Seq<Node> {
    seq![
        Node::Temp(tokens[3].bit() as i8),
        Node::Temp(tokens[2].bit() as i8),
        Node::Temp(tokens[1].bit() as i8),
        Node::Temp(tokens[0].bit() as i8),
    ]
}

impl Parser {
    /// The strategy that reads four digits.
    pub open spec fn four_digits() -> Parser {
        Parser::Exactly(4, Box::new(Parser::Digit))
    }

    /// The strategy that reads the sign of an operation.
    pub open spec fn sign_parser(div: bool) -> Parser {
        if div {
            Parser::DivP
        } else {
            Parser::MulP
        }
    }

    /// The strategy that reads the operands of an operation and its sign: the
    /// sign alone where the last node is an operation, else a number and the
    /// sign; then a number.
    pub open spec fn operands(div: bool) -> Parser {
        Parser::Then(
            Box::new(
                Parser::Or(
                    Box::new(
                        Parser::If {
                            pred: Predicate::TopIsOperation,
                            parser: Box::new(Parser::sign_parser(div)),
                        },
                    ),
                    Box::new(
                        Parser::Then(
                            Box::new(Parser::Number),
                            Box::new(Parser::sign_parser(div)),
                        ),
                    ),
                ),
            ),
            Box::new(Parser::Number),
        )
    }
}

/// Four digits are read where the tokens begin with a number, and then their
/// nodes stand in front, the last digit first.
pub proof fn lemma_four_digits(tokens: Seq<Token>, nodes: Seq<Node>)
    ensures
        Parser::four_digits().parsed(tokens, nodes) == if begins_with_number(tokens) {
            (tokens.skip(4), leading_bits(tokens) + nodes)
        } else {
            (tokens, nodes)
        },
{
    let digit = Parser::Digit;
    let got = Parser::four_digits().parsed(tokens, nodes);
    assert(got == match digit.times(4, tokens, nodes) {
        Some(state) => state,
        None => (tokens, nodes),
    });
    let first = digit.parsed(tokens, nodes);
    if first.0.len() < tokens.len() {
        assert(digit.times(4, tokens, nodes) == digit.times(3, first.0, first.1));
        let second = digit.parsed(first.0, first.1);
        if second.0.len() < first.0.len() {
            assert(digit.times(3, first.0, first.1) == digit.times(2, second.0, second.1));
            let third = digit.parsed(second.0, second.1);
            if third.0.len() < second.0.len() {
                assert(digit.times(2, second.0, second.1) == digit.times(1, third.0, third.1));
                let fourth = digit.parsed(third.0, third.1);
                if fourth.0.len() < third.0.len() {
                    assert(digit.times(1, third.0, third.1) == digit.times(0, fourth.0, fourth.1));
                    assert(digit.times(0, fourth.0, fourth.1) == Some(fourth));
                    assert(begins_with_number(tokens));
                    assert(fourth.0 =~= tokens.skip(4));
                    assert(fourth.1 =~= leading_bits(tokens) + nodes);
                } else {
                    assert(digit.times(1, third.0, third.1) is None);
                    assert(!begins_with_number(tokens));
                }
            } else {
                assert(digit.times(2, second.0, second.1) is None);
                assert(!begins_with_number(tokens));
            }
        } else {
            assert(digit.times(3, first.0, first.1) is None);
            assert(!begins_with_number(tokens));
        }
    } else {
        assert(digit.times(4, tokens, nodes) is None);
        assert(!begins_with_number(tokens));
    }
}

/// The nodes of four digits fold to the number that the digits spell.
pub proof fn lemma_folded_bits(tokens: Seq<Token>)
    requires
        begins_with_number(tokens),
    ensures
        folded(leading_bits(tokens)) == leading_number(tokens),
        forall|i: int| 0 <= i < 4 ==> is_bit(#[trigger] leading_bits(tokens)[i]),
        0 <= leading_number(tokens) < 16,
{
    let bits = leading_bits(tokens);
    let three = bits.drop_last();
    let two = three.drop_last();
    let one = two.drop_last();
    assert(one.drop_last().len() == 0);
    assert(folded(one.drop_last()) == 0);
    assert(folded(one) == 8 * tokens[3].bit());
    assert(folded(two) == 4 * tokens[3].bit() + 8 * tokens[2].bit());
    assert(folded(three) == 2 * tokens[3].bit() + 4 * tokens[2].bit() + 8 * tokens[1].bit());
}

/// What reading the operands gives, against what the operation gives.
pub proof fn lemma_operands(div: bool, tokens: Seq<Token>, nodes: Seq<Node>)
    ensures
        ({
            let got = Parser::operands(div).parsed(tokens, nodes);
            let want = operation(div, tokens, nodes);
            if got.0.len() < tokens.len() {
                &&& got.0 == want.0
                &&& got.1.len() >= 2
                &&& want.1 == seq![combine(div, got.1[0], got.1[1])] + got.1.skip(2)
            } else {
                want == (tokens, nodes)
            }
        }),
{
    let sign_parser = Parser::sign_parser(div);
    let symbol = sign_of(div);
    let guarded = Parser::If { pred: Predicate::TopIsOperation, parser: Box::new(sign_parser) };
    let spelled = Parser::Then(Box::new(Parser::Number), Box::new(sign_parser));
    let left = Parser::Or(Box::new(guarded), Box::new(spelled));
    let all = Parser::Then(Box::new(left), Box::new(Parser::Number));
    assert(all == Parser::operands(div));
    let want = operation(div, tokens, nodes);
    // the sign alone, where the last node is an operation
    let by_sign = sign_parser.parsed(tokens, nodes);
    assert(by_sign == sign(symbol, tokens, nodes));
    let by_guard = guarded.parsed(tokens, nodes);
    assert(by_guard == if Predicate::TopIsOperation.holds(tokens, nodes) {
        by_sign
    } else {
        (tokens, nodes)
    });
    // a number and the sign
    let one = Parser::Number.parsed(tokens, nodes);
    assert(one == number(tokens, nodes));
    let signed = sign_parser.parsed(one.0, one.1);
    assert(signed == sign(symbol, one.0, one.1));
    let by_spelling = spelled.parsed(tokens, nodes);
    assert(by_spelling == if one.0.len() < tokens.len() && signed.0.len() < one.0.len() {
        signed
    } else {
        (tokens, nodes)
    });
    // either of them, then a number
    let begun = left.parsed(tokens, nodes);
    assert(begun == if by_guard.0.len() < tokens.len() {
        by_guard
    } else {
        by_spelling
    });
    let ended = Parser::Number.parsed(begun.0, begun.1);
    assert(ended == number(begun.0, begun.1));
    let got = all.parsed(tokens, nodes);
    assert(got == if begun.0.len() < tokens.len() && ended.0.len() < begun.0.len() {
        ended
    } else {
        (tokens, nodes)
    });
    if by_guard.0.len() < tokens.len() {
        assert(begun == (tokens.skip(1), nodes));
        if begins_with_number(tokens.skip(1)) {
            assert(tokens.skip(1).skip(4) =~= tokens.skip(5));
            assert(got.1.skip(2) =~= nodes.skip(1));
            assert(got.1[1] == nodes[0]);
        }
    } else if by_spelling.0.len() < tokens.len() {
        assert(begins_with_number(tokens));
        assert(one.0 == tokens.skip(4));
        assert(tokens.skip(4)[0] == tokens[4]);
        assert(tokens.skip(4).skip(1) =~= tokens.skip(5));
        assert(begun.0 == tokens.skip(5));
        if begins_with_number(tokens.skip(5)) {
            assert(tokens.skip(5).skip(4) =~= tokens.skip(9));
            assert(got.1.skip(2) =~= nodes);
        }
    } else {
        if begins_with_number(tokens) && tokens.len() > 4 && tokens[4] == symbol {
            assert(tokens.skip(4)[0] == tokens[4]);
        }
    }
}

impl Parser {
    /// The strategy that reads the operands of a multiplication or, with
    /// `div`, of a division.
    fn for_operands(div: bool) -> (parser: Parser)
        ensures
            parser == Parser::operands(div),
    {
        let sign = if div {
            Parser::DivP
        } else {
            Parser::MulP
        };
        Parser::Then(
            Box::new(
                Parser::Or(
                    Box::new(
                        Parser::If {
                            pred: Predicate::TopIsOperation,
                            parser: Box::new(sign.clone()),
                        },
                    ),
                    Box::new(Parser::Then(Box::new(Parser::Number), Box::new(sign))),
                ),
            ),
            Box::new(Parser::Number),
        )
    }

    /// Applies the strategy to the tokens and to the nodes produced so far.
    ///
    /// The result is always `Ok`. The tokens that come back are the end of the
    /// tokens that were given: the strategy has matched where they are fewer,
    /// and where they are not it has failed and the nodes come back as they
    /// were given.
    pub fn parse(&self, tokens: Vec<Token>, nodes: &[Node]) -> (res: Result<
        (Vec<Token>, Vec<Node>),
        String,
    >)
        ensures
            match res {
                Ok(out) => {
                    &&& (out.0@, out.1@) == self.parsed(tokens@, nodes@)
                    &&& out.0@.len() <= tokens@.len()
                    &&& out.0@ == tokens@.skip(tokens@.len() - out.0@.len())
                    &&& out.0@.len() == tokens@.len() ==> out.1@ == nodes@
                },
                Err(_) => false,
            },
        decreases self.level(), self.depth(), 1nat,
    {
        proof {
            lemma_failure_changes_nothing(*self, tokens@, nodes@);
            lemma_reads_from_the_front(*self, tokens@, nodes@);
        }
        match self {
            Parser::Repeat(parser) => {
                let mut prev = (tokens, copy_nodes(nodes));
                let mut next = parser.parse(prev.0.clone(), &prev.1)?;
                while !prev.0.is_empty() && next.0.len() < prev.0.len()
                    invariant
                        parser.level() == self.level(),
                        parser.depth() < self.depth(),
                        (next.0@, next.1@) == parser.parsed(prev.0@, prev.1@),
                        parser.repeatedly(tokens@, nodes@) == parser.repeatedly(prev.0@, prev.1@),
                    decreases prev.0.len(),
                {
                    prev = (next.0.clone(), next.1);
                    next = parser.parse(prev.0.clone(), &prev.1)?;
                }
                Ok((prev.0, prev.1))
            },
            Parser::Then(first, second) => {
                let (first_ts, first_ns) = first.parse(tokens.clone(), nodes)?;
                if first_ts.len() < tokens.len() {
                    let begun = first_ts.len();
                    let (second_ts, second_ns) = second.parse(first_ts, &first_ns)?;
                    if second_ts.len() < begun {
                        return Ok((second_ts, second_ns));
                    }
                }
                Ok((tokens, copy_nodes(nodes)))
            },
            Parser::Expr => {
                proof {
                    reveal_with_fuel(Parser::level, 3);
                }
                Parser::Repeat(
                    Box::new(Parser::Or(Box::new(Parser::DivE), Box::new(Parser::MulE))),
                ).parse(tokens, nodes)
            },
            Parser::DivP => {
                if tokens.len() > 0 && matches!(tokens[0], Token::DivT) {
                    Ok((rest(&tokens), copy_nodes(nodes)))
                } else {
                    Ok((tokens, copy_nodes(nodes)))
                }
            },
            Parser::MulP => {
                if tokens.len() > 0 && matches!(tokens[0], Token::MulT) {
                    Ok((rest(&tokens), copy_nodes(nodes)))
                } else {
                    Ok((tokens, copy_nodes(nodes)))
                }
            },
            Parser::Number => {
                proof {
                    reveal_with_fuel(Parser::level, 2);
                    lemma_four_digits(tokens@, nodes@);
                }
                let (new_tokens, new_ns) = Parser::Exactly(4, Box::new(Parser::Digit)).parse(
                    tokens.clone(),
                    nodes,
                )?;
                if new_ns.len() >= 4 && new_tokens.len() < tokens.len() {
                    proof {
                        lemma_folded_bits(tokens@);
                        assert(new_ns@.subrange(0, 4) =~= leading_bits(tokens@));
                    }
                    let value = match to_i8(slice_subrange(new_ns.as_slice(), 0, 4)) {
                        Ok(value) => value,
                        Err(message) => {
                            return Err(message.to_string());
                        },
                    };
                    Ok((new_tokens, prepend(Node::NumberN(value), nodes)))
                } else {
                    Ok((tokens, copy_nodes(nodes)))
                }
            },
            Parser::Or(first, second) => {
                let (new_tokens, new_nodes) = first.parse(tokens.clone(), nodes)?;
                if new_tokens.len() < tokens.len() {
                    Ok((new_tokens, new_nodes))
                } else {
                    second.parse(tokens, nodes)
                }
            },
            Parser::Exactly(amount, parser) => {
                let mut next = (tokens.clone(), copy_nodes(nodes));
                let mut done: u8 = 0;
                while done < *amount
                    invariant
                        done <= *amount,
                        self.parsed(tokens@, nodes@) == match parser.times(
                            *amount as nat,
                            tokens@,
                            nodes@,
                        ) {
                            Some(state) => state,
                            None => (tokens@, nodes@),
                        },
                        parser.level() == self.level(),
                        parser.depth() < self.depth(),
                        parser.times(*amount as nat, tokens@, nodes@) == parser.times(
                            (*amount - done) as nat,
                            next.0@,
                            next.1@,
                        ),
                    decreases *amount - done,
                {
                    let (new_tokens, new_nodes) = parser.parse(next.0.clone(), &next.1)?;
                    if new_tokens.len() < next.0.len() {
                        next = (new_tokens, new_nodes);
                    } else {
                        proof {
                            assert(parser.times((*amount - done) as nat, next.0@, next.1@) is None);
                            assert(tokens@.skip(0) =~= tokens@);
                        }
                        return Ok((tokens, copy_nodes(nodes)));
                    }
                    done += 1;
                }
                Ok(next)
            },
            Parser::Digit => {
                if tokens.len() == 0 {
                    Ok((tokens, copy_nodes(nodes)))
                } else {
                    match tokens[0] {
                        Token::Zero => Ok((rest(&tokens), prepend(Node::Temp(0), nodes))),
                        Token::One => Ok((rest(&tokens), prepend(Node::Temp(1), nodes))),
                        _ => Ok((tokens, copy_nodes(nodes))),
                    }
                }
            },
            Parser::MulE => op(tokens, nodes, false),
            Parser::DivE => op(tokens, nodes, true),
            Parser::If { pred, parser } => {
                if pred.check(&tokens, nodes) {
                    parser.parse(tokens, nodes)
                } else {
                    Ok((tokens, copy_nodes(nodes)))
                }
            },
        }
    }
}

/// Reads one multiplication or, with `div`, one division, and puts its node
/// in front. The result is always `Ok`; where no operation can be read, it
/// holds the tokens and nodes that were given.
pub fn op(tokens: Vec<Token>, nodes: &[Node], div: bool) -> (res: Result<
    (Vec<Token>, Vec<Node>),
    String,
>)
    ensures
        match res {
            Ok(out) => (out.0@, out.1@) == operation(div, tokens@, nodes@),
            Err(_) => false,
        },
    decreases 2nat, 0nat, 0nat,
{
    if tokens.is_empty() {
        return Ok((tokens, copy_nodes(nodes)));
    }
    proof {
        reveal_with_fuel(Parser::level, 5);
        lemma_operands(div, tokens@, nodes@);
    }
    let (new_ts, new_ns) = Parser::for_operands(div).parse(tokens.clone(), nodes)?;
    if new_ts.len() < tokens.len() {
        let right = Box::new(new_ns[0].clone());
        let left = Box::new(new_ns[1].clone());
        let node = if div {
            Node::DivN { lhs: right, rhs: left }
        } else {
            Node::MulN { lhs: right, rhs: left }
        };
        let newer_ns = prepend(node, slice_subrange(new_ns.as_slice(), 2, new_ns.len()));
        proof {
            assert(new_ns@.subrange(2, new_ns@.len() as int) =~= new_ns@.skip(2));
        }
        Ok((new_ts, newer_ns))
    } else {
        Ok((tokens, copy_nodes(nodes)))
    }
}

/// A strategy never gives back more tokens than it was given, and where it
/// gives back as many it has failed and gives back the very tokens and nodes
/// it was given: a failed application changes nothing, and applying the
/// strategy again to what came back fails in the same way.
pub proof fn lemma_failure_changes_nothing(parser: Parser, tokens: Seq<Token>, nodes: Seq<Node>)
    ensures
        parser.parsed(tokens, nodes).0.len() <= tokens.len(),
        parser.parsed(tokens, nodes).0.len() == tokens.len() ==> parser.parsed(tokens, nodes) == (
            tokens,
            nodes,
        ),
        parser.parsed(tokens, nodes).0.len() == tokens.len() ==> parser.parsed(
            parser.parsed(tokens, nodes).0,
            parser.parsed(tokens, nodes).1,
        ) == (tokens, nodes),
    decreases parser.level(), parser.depth(), 1nat, 0nat,
{
    match parser {
        Parser::Or(first, second) => {
            lemma_failure_changes_nothing(*first, tokens, nodes);
            lemma_failure_changes_nothing(*second, tokens, nodes);
        },
        Parser::Then(first, second) => {
            lemma_failure_changes_nothing(*first, tokens, nodes);
            let begun = first.parsed(tokens, nodes);
            lemma_failure_changes_nothing(*second, begun.0, begun.1);
        },
        Parser::Exactly(amount, inner) => {
            lemma_times_shrinks(*inner, amount as nat, tokens, nodes);
        },
        Parser::Expr => {
            reveal_with_fuel(Parser::level, 3);
            lemma_failure_changes_nothing(Parser::expression(), tokens, nodes);
        },
        Parser::If { pred, parser: inner } => {
            lemma_failure_changes_nothing(*inner, tokens, nodes);
        },
        Parser::Repeat(inner) => {
            lemma_repeatedly_shrinks(*inner, tokens, nodes);
        },
        _ => {},
    }
}

/// Applications in a row that all succeed leave fewer tokens, unless there is
/// none of them.
pub proof fn lemma_times_shrinks(parser: Parser, amount: nat, tokens: Seq<Token>, nodes: Seq<Node>)
    ensures
        match parser.times(amount, tokens, nodes) {
            Some(out) => if amount == 0 {
                out == (tokens, nodes)
            } else {
                out.0.len() < tokens.len()
            },
            None => amount > 0,
        },
    decreases parser.level(), parser.depth(), 2nat, amount,
{
    if amount > 0 {
        lemma_failure_changes_nothing(parser, tokens, nodes);
        let next = parser.parsed(tokens, nodes);
        if next.0.len() < tokens.len() {
            lemma_times_shrinks(parser, (amount - 1) as nat, next.0, next.1);
        }
    }
}

/// Repeating a strategy leaves fewer tokens or changes nothing.
pub proof fn lemma_repeatedly_shrinks(parser: Parser, tokens: Seq<Token>, nodes: Seq<Node>)
    ensures
        parser.repeatedly(tokens, nodes).0.len() <= tokens.len(),
        parser.repeatedly(tokens, nodes).0.len() == tokens.len() ==> parser.repeatedly(
            tokens,
            nodes,
        ) == (tokens, nodes),
    decreases parser.level(), parser.depth(), 2nat, tokens.len(),
{
    lemma_failure_changes_nothing(parser, tokens, nodes);
    let next = parser.parsed(tokens, nodes);
    if tokens.len() > 0 && next.0.len() < tokens.len() {
        lemma_repeatedly_shrinks(parser, next.0, next.1);
    }
}

/// A strategy reads tokens from the front only: the tokens it gives back are
/// the end of the tokens it was given.
pub proof fn lemma_reads_from_the_front(parser: Parser, tokens: Seq<Token>, nodes: Seq<Node>)
    ensures
        parser.parsed(tokens, nodes).0.len() <= tokens.len(),
        parser.parsed(tokens, nodes).0 == tokens.skip(
            tokens.len() - parser.parsed(tokens, nodes).0.len(),
        ),
    decreases parser.level(), parser.depth(), 1nat, 0nat,
{
    let rest = parser.parsed(tokens, nodes).0;
    lemma_failure_changes_nothing(parser, tokens, nodes);
    assert(tokens.skip(0) =~= tokens);
    match parser {
        Parser::Or(first, second) => {
            lemma_reads_from_the_front(*first, tokens, nodes);
            lemma_reads_from_the_front(*second, tokens, nodes);
        },
        Parser::Then(first, second) => {
            lemma_reads_from_the_front(*first, tokens, nodes);
            let begun = first.parsed(tokens, nodes);
            lemma_reads_from_the_front(*second, begun.0, begun.1);
            let ended = second.parsed(begun.0, begun.1);
            let a = tokens.len() - begun.0.len();
            let b = begun.0.len() - ended.0.len();
            assert(tokens.skip(a).skip(b) =~= tokens.skip(a + b));
        },
        Parser::Exactly(amount, inner) => {
            lemma_times_reads_from_the_front(*inner, amount as nat, tokens, nodes);
        },
        Parser::Digit => {},
        Parser::Number => {},
        Parser::Expr => {
            reveal_with_fuel(Parser::level, 3);
            lemma_reads_from_the_front(Parser::expression(), tokens, nodes);
        },
        Parser::MulP => {},
        Parser::DivP => {},
        Parser::MulE => {},
        Parser::DivE => {},
        Parser::If { pred, parser: inner } => {
            lemma_reads_from_the_front(*inner, tokens, nodes);
        },
        Parser::Repeat(inner) => {
            lemma_repeatedly_reads_from_the_front(*inner, tokens, nodes);
        },
    }
}

/// Applications in a row read tokens from the front only.
pub proof fn lemma_times_reads_from_the_front(
    parser: Parser,
    amount: nat,
    tokens: Seq<Token>,
    nodes: Seq<Node>,
)
    ensures
        parser.times(amount, tokens, nodes) matches Some(out) ==> out.0.len() <= tokens.len()
            && out.0 == tokens.skip(tokens.len() - out.0.len()),
    decreases parser.level(), parser.depth(), 2nat, amount,
{
    assert(tokens.skip(0) =~= tokens);
    if amount > 0 {
        lemma_reads_from_the_front(parser, tokens, nodes);
        let next = parser.parsed(tokens, nodes);
        if next.0.len() < tokens.len() {
            lemma_times_reads_from_the_front(parser, (amount - 1) as nat, next.0, next.1);
            match parser.times((amount - 1) as nat, next.0, next.1) {
                Some(out) => {
                    let a = tokens.len() - next.0.len();
                    let b = next.0.len() - out.0.len();
                    assert(tokens.skip(a).skip(b) =~= tokens.skip(a + b));
                },
                None => {},
            }
        }
    }
}

/// Repeating a strategy reads tokens from the front only.
pub proof fn lemma_repeatedly_reads_from_the_front(
    parser: Parser,
    tokens: Seq<Token>,
    nodes: Seq<Node>,
)
    ensures
        parser.repeatedly(tokens, nodes).0.len() <= tokens.len(),
        parser.repeatedly(tokens, nodes).0 == tokens.skip(
            tokens.len() - parser.repeatedly(tokens, nodes).0.len(),
        ),
    decreases parser.level(), parser.depth(), 2nat, tokens.len(),
{
    assert(tokens.skip(0) =~= tokens);
    lemma_reads_from_the_front(parser, tokens, nodes);
    let next = parser.parsed(tokens, nodes);
    if tokens.len() > 0 && next.0.len() < tokens.len() {
        lemma_repeatedly_reads_from_the_front(parser, next.0, next.1);
        let out = parser.repeatedly(next.0, next.1);
        let a = tokens.len() - next.0.len();
        let b = next.0.len() - out.0.len();
        assert(tokens.skip(a).skip(b) =~= tokens.skip(a + b));
    }
}

/// Whether every tree is a number or a chain of operations.
pub open spec fn all_chains(nodes: Seq<Node>) -> bool {
    forall|i: int| 0 <= i < nodes.len() ==> (#[trigger] nodes[i]).is_chain()
}

/// A number or a chain of operations holds no digit node.
pub proof fn lemma_chain_is_finished(node: Node)
    requires
        node.is_chain(),
    ensures
        !node.has_temp(),
    decreases node,
{
    match node {
        Node::MulN { lhs, rhs } => {
            lemma_chain_is_finished(*rhs);
            assert(!lhs.has_temp());
        },
        Node::DivN { lhs, rhs } => {
            lemma_chain_is_finished(*rhs);
            assert(!lhs.has_temp());
        },
        _ => {},
    }
}

/// One operation gives chains where it was given chains.
pub proof fn lemma_operation_gives_chains(div: bool, tokens: Seq<Token>, nodes: Seq<Node>)
    requires
        all_chains(nodes),
    ensures
        all_chains(operation(div, tokens, nodes).1),
{
    let out = operation(div, tokens, nodes).1;
    assert forall|i: int| 0 <= i < out.len() implies (#[trigger] out[i]).is_chain() by {
        if Predicate::TopIsOperation.holds(tokens, nodes) && tokens.len() > 0 && tokens[0]
            == sign_of(div) {
            if begins_with_number(tokens.skip(1)) {
                lemma_folded_bits(tokens.skip(1));
                let right = Node::NumberN(leading_number(tokens.skip(1)));
                if i == 0 {
                    assert(out[0] == combine(div, right, nodes[0]));
                    assert(nodes[0].is_chain());
                    assert(right.is_chain());
                    assert(out[0].is_chain());
                } else {
                    assert(out[i] == nodes[i]);
                }
            } else {
                assert(out[i] == nodes[i]);
            }
        } else if begins_with_number(tokens) && tokens.len() > 4 && tokens[4] == sign_of(div)
            && begins_with_number(tokens.skip(5)) {
            lemma_folded_bits(tokens);
            lemma_folded_bits(tokens.skip(5));
            let right = Node::NumberN(leading_number(tokens.skip(5)));
            let left = Node::NumberN(leading_number(tokens));
            if i == 0 {
                assert(out[0] == combine(div, right, left));
                assert(left.is_chain());
                assert(out[0].is_chain());
            } else {
                assert(out[i] == nodes[i - 1]);
            }
        } else {
            assert(out[i] == nodes[i]);
        }
    }
}

/// Reading an expression gives chains where it was given chains: in every
/// operation of its trees `lhs` is a number from 0 to 15, and no digit node is
/// left.
pub proof fn lemma_expression_gives_chains(tokens: Seq<Token>, nodes: Seq<Node>)
    requires
        all_chains(nodes),
    ensures
        all_chains(Parser::Expr.parsed(tokens, nodes).1),
    decreases tokens.len(),
{
    let either = Parser::any_operation();
    assert(Parser::Expr.parsed(tokens, nodes) == either.repeatedly(tokens, nodes)) by {
        assert(Parser::expression().parsed(tokens, nodes) == either.repeatedly(tokens, nodes));
    }
    let next = either.parsed(tokens, nodes);
    lemma_operation_gives_chains(true, tokens, nodes);
    lemma_operation_gives_chains(false, tokens, nodes);
    assert(Parser::DivE.parsed(tokens, nodes) == operation(true, tokens, nodes));
    assert(Parser::MulE.parsed(tokens, nodes) == operation(false, tokens, nodes));
    if tokens.len() > 0 && next.0.len() < tokens.len() {
        lemma_expression_gives_chains(next.0, next.1);
        assert(Parser::Expr.parsed(next.0, next.1) == either.repeatedly(next.0, next.1)) by {
            assert(Parser::expression().parsed(next.0, next.1) == either.repeatedly(
                next.0,
                next.1,
            ));
        }
    }
}

} // verus!
