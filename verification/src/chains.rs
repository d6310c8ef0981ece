//! Chains of operations: how they are read, and what they come to.
use crate::arithmetic::lemma_divided;
use crate::arithmetic::lemma_divided_by_zero;
use crate::arithmetic::lemma_divided_saturates;
use crate::arithmetic::lemma_multiplied;
use crate::calculator::answer;
use crate::calculator::expression_of;
use crate::execute::cleared;
use crate::execute::RegisterContent;
use crate::meaning::divided;
use crate::meaning::evaluated;
use crate::meaning::evaluated_all;
use crate::meaning::lemma_evaluated_all_len;
use crate::meaning::lemma_evaluated_len;
use crate::meaning::multiplied;
use crate::parsing::begins_with_number;
use crate::parsing::combine;
use crate::parsing::leading_number;
use crate::parsing::lemma_expression_gives_chains;
use crate::parsing::operation;
use crate::parsing::sign_of;
use crate::parsing::Node;
use crate::parsing::Parser;
use crate::tokens::lemma_number_text;
use crate::tokens::lemma_tokens_of_concat;
use crate::tokens::lemma_tokens_of_one;
use crate::tokens::number_text;
use crate::tokens::number_tokens;
use crate::tokens::tokens_of;
use crate::tokens::Token;
use vstd::prelude::*;
use vstd::utf8::is_ascii_chars;

verus! {

/// One more operation of a chain: its sign and the number to its right.
pub struct Link {
    pub div: bool,
    pub value: int,
}

/// The tokens of the operations that go on a chain.
pub open spec fn link_tokens(links: Seq<Link>) -> Seq<Token>
    decreases links.len(),
{
    if links.len() == 0 {
        Seq::empty()
    } else {
        seq![sign_of(links[0].div)] + number_tokens(links[0].value) + link_tokens(links.skip(1))
    }
}

/// The tree of a chain that begins with `tree` and goes on with `links`: each
/// operation takes all that stands to its left as its left operand.
pub open spec fn linked(tree: Node, links: Seq<Link>) -> Node
    decreases links.len(),
{
    if links.len() == 0 {
        tree
    } else {
        linked(
            combine(links[0].div, Node::NumberN(links[0].value as i8), tree),
            links.skip(1),
        )
    }
}

/// Whether the numbers of the links are from 0 to 15.
pub open spec fn small(links: Seq<Link>) -> bool {
    forall|i: int| 0 <= i < links.len() ==> 0 <= (#[trigger] links[i]).value < 16
}

/// The tokens of a number begin with that number.
pub proof fn lemma_number_tokens(value: int, rest: Seq<Token>)
    requires
        0 <= value < 16,
    ensures
        begins_with_number(number_tokens(value) + rest),
        leading_number(number_tokens(value) + rest) == value,
        (number_tokens(value) + rest).skip(4) == rest,
{
    let tokens = number_tokens(value) + rest;
    assert(tokens[0] == number_tokens(value)[0]);
    assert(tokens[1] == number_tokens(value)[1]);
    assert(tokens[2] == number_tokens(value)[2]);
    assert(tokens[3] == number_tokens(value)[3]);
    assert(tokens.skip(4) =~= rest);
}

/// An operation behind an operation: the node in front becomes its left
/// operand.
proof fn lemma_goes_on(div: bool, value: int, rest: Seq<Token>, nodes: Seq<Node>)
    requires
        0 <= value < 16,
        nodes.len() > 0,
        nodes[0] is MulN || nodes[0] is DivN,
    ensures
        Parser::any_operation().parsed(seq![sign_of(div)] + number_tokens(value) + rest, nodes) == (
            rest,
            seq![combine(div, Node::NumberN(value as i8), nodes[0])] + nodes.skip(1),
        ),
{
    let tokens = seq![sign_of(div)] + number_tokens(value) + rest;
    assert(tokens.skip(1) =~= number_tokens(value) + rest);
    lemma_number_tokens(value, rest);
    assert(tokens.skip(5) =~= rest);
    assert(tokens[0] == sign_of(div));
    assert(Parser::DivE.parsed(tokens, nodes) == operation(true, tokens, nodes));
    assert(Parser::MulE.parsed(tokens, nodes) == operation(false, tokens, nodes));
    assert(!tokens[0].is_digit());
}

/// A number, a sign and a number: the first operation of a chain.
proof fn lemma_begins(div: bool, left: int, right: int, rest: Seq<Token>, nodes: Seq<Node>)
    requires
        0 <= left < 16,
        0 <= right < 16,
        nodes.len() > 0 ==> !(nodes[0] is MulN || nodes[0] is DivN),
    ensures
        Parser::any_operation().parsed(
            number_tokens(left) + seq![sign_of(div)] + number_tokens(right) + rest,
            nodes,
        ) == (
            rest,
            seq![combine(div, Node::NumberN(right as i8), Node::NumberN(left as i8))] + nodes,
        ),
{
    let tokens = number_tokens(left) + seq![sign_of(div)] + number_tokens(right) + rest;
    assert(tokens =~= number_tokens(left) + (seq![sign_of(div)] + number_tokens(right) + rest));
    lemma_number_tokens(left, seq![sign_of(div)] + number_tokens(right) + rest);
    assert(tokens[4] == sign_of(div));
    assert(tokens.skip(5) =~= number_tokens(right) + rest);
    lemma_number_tokens(right, rest);
    assert(tokens.skip(9) =~= rest);
    assert(Parser::DivE.parsed(tokens, nodes) == operation(true, tokens, nodes));
    assert(Parser::MulE.parsed(tokens, nodes) == operation(false, tokens, nodes));
}

/// Operations behind an operation are read one by one, from left to right,
/// until the tokens end.
proof fn lemma_links(links: Seq<Link>, nodes: Seq<Node>)
    requires
        small(links),
        nodes.len() > 0,
        nodes[0] is MulN || nodes[0] is DivN,
    ensures
        Parser::any_operation().repeatedly(link_tokens(links), nodes) == (
            Seq::<Token>::empty(),
            seq![linked(nodes[0], links)] + nodes.skip(1),
        ),
    decreases links.len(),
{
    let tokens = link_tokens(links);
    if links.len() == 0 {
        assert(seq![nodes[0]] + nodes.skip(1) =~= nodes);
    } else {
        let link = links[0];
        let rest = link_tokens(links.skip(1));
        lemma_goes_on(link.div, link.value, rest, nodes);
        let next = seq![combine(link.div, Node::NumberN(link.value as i8), nodes[0])] + nodes.skip(
            1,
        );
        assert(Parser::any_operation().parsed(tokens, nodes) == (rest, next));
        assert(small(links.skip(1))) by {
            assert forall|i: int| 0 <= i < links.skip(1).len() implies 0 <= (
            #[trigger] links.skip(1)[i]).value < 16 by {
                assert(links.skip(1)[i] == links[i + 1]);
            }
        }
        lemma_links(links.skip(1), next);
        assert(next.skip(1) =~= nodes.skip(1));
        assert(rest.len() < tokens.len());
    }
}

/// A chain is read from left to right: a number, a sign, a number and then
/// any operations are one tree, in which each operation has all that stands
/// to its left as its left operand, and no token is left.
pub proof fn lemma_chain_is_read(div: bool, left: int, right: int, links: Seq<Link>)
    requires
        0 <= left < 16,
        0 <= right < 16,
        small(links),
    ensures
        expression_of(
            number_tokens(left) + seq![sign_of(div)] + number_tokens(right) + link_tokens(links),
        ) == (
            Seq::<Token>::empty(),
            seq![
                linked(
                    combine(div, Node::NumberN(right as i8), Node::NumberN(left as i8)),
                    links,
                ),
            ],
        ),
{
    let rest = link_tokens(links);
    let tokens = number_tokens(left) + seq![sign_of(div)] + number_tokens(right) + rest;
    let nothing = Seq::<Node>::empty();
    let first = combine(div, Node::NumberN(right as i8), Node::NumberN(left as i8));
    lemma_begins(div, left, right, rest, nothing);
    assert(seq![first] + nothing =~= seq![first]);
    lemma_links(links, seq![first]);
    assert(seq![first].skip(1) =~= nothing);
    assert(seq![linked(first, links)] + nothing =~= seq![linked(first, links)]);
    assert(Parser::expression() == Parser::Repeat(Box::new(Parser::any_operation())));
    assert(expression_of(tokens) == Parser::any_operation().repeatedly(tokens, nothing)) by {
        assert(Parser::expression().parsed(tokens, nothing) == Parser::any_operation().repeatedly(
            tokens,
            nothing,
        ));
    }
    assert(rest.len() < tokens.len());
}

/// The quotient as the machine finds it for a dividend that is not negative:
/// the quotient that drops the remainder, where it has no more than five
/// bits; else 31, and 31 too where the divisor is 0.
pub open spec fn quotient(dividend: int, divisor: int) -> int {
    if divisor != 0 && dividend < 32 * divisor {
        dividend / divisor
    } else {
        31
    }
}

/// What a tree comes to in numbers: a multiplication to the product of what
/// its operands come to, a division to the quotient of what `rhs` comes to
/// by what `lhs` comes to.
pub open spec fn worth(node: Node) -> int
    decreases node,
{
    match node {
        Node::NumberN(value) => value as int,
        Node::MulN { lhs, rhs } => worth(*rhs) * worth(*lhs),
        Node::DivN { lhs, rhs } => quotient(worth(*rhs), worth(*lhs)),
        Node::Temp(_) => 0,
    }
}

/// Whether every multiplicand in the tree is below 2048, so that no product
/// leaves the register: the multiplicand of a multiplication is what its
/// `rhs` comes to.
pub open spec fn multiplicands_fit(node: Node) -> bool
    decreases node,
{
    match node {
        Node::MulN { lhs, rhs } => multiplicands_fit(*rhs) && worth(*rhs) < 2048,
        Node::DivN { lhs, rhs } => multiplicands_fit(*rhs),
        _ => true,
    }
}

/// A multiplication by a number from 0 to 15 multiplies what its left operand
/// comes to, where that is from 0 to 2047.
pub proof fn lemma_product(left: Node, right: int, regs: Seq<RegisterContent>)
    requires
        regs.len() == 5,
        0 <= right < 16,
        0 <= evaluated(left, regs)[3] < 2048,
    ensures
        evaluated(combine(false, Node::NumberN(right as i8), left), regs).len() == 5,
        evaluated(combine(false, Node::NumberN(right as i8), left), regs)[3] == evaluated(
            left,
            regs,
        )[3] * right,
        0 <= evaluated(left, regs)[3] * right,
{
    lemma_evaluated_len(left, regs);
    let first = evaluated(left, regs);
    let kept = first.update(2, first[3]);
    let second = evaluated(Node::NumberN(right as i8), kept);
    assert(second == kept.update(3, (right as i8) as i16));
    let ready = second.update(1, second[3]);
    assert(evaluated(combine(false, Node::NumberN(right as i8), left), regs) == multiplied(ready));
    lemma_multiplied(ready);
    assert(0 <= first[3] * right) by (nonlinear_arith)
        requires
            0 <= first[3],
            0 <= right,
    ;
}

/// A division by a number from 0 to 15 divides what its left operand comes
/// to, where that is not negative, by that number: the left operand is worked
/// out first and waits in register 4 while the number is made the divisor.
/// The result is the quotient as the machine finds it: 31 where the divisor is
/// 0 or the quotient has more than five bits.
pub proof fn lemma_quotient(left: Node, right: int, regs: Seq<RegisterContent>)
    requires
        regs.len() == 5,
        0 <= right < 16,
        0 <= evaluated(left, regs)[3],
    ensures
        evaluated(combine(true, Node::NumberN(right as i8), left), regs).len() == 5,
        evaluated(combine(true, Node::NumberN(right as i8), left), regs)[3] == quotient(
            evaluated(left, regs)[3] as int,
            right,
        ),
        0 <= quotient(evaluated(left, regs)[3] as int, right) <= 31,
{
    lemma_evaluated_len(left, regs);
    let first = evaluated(left, regs);
    let x = first[3] as int;
    let saved = first.update(4, first[3]);
    let second = evaluated(Node::NumberN(right as i8), saved);
    assert(second == saved.update(3, (right as i8) as i16));
    let kept = second.update(2, second[3]);
    let ready = kept.update(3, kept[4]);
    assert(ready[2] == right && ready[3] == x);
    assert(evaluated(combine(true, Node::NumberN(right as i8), left), regs) == divided(ready));
    if right == 0 {
        lemma_divided_by_zero(ready);
    } else if x < 32 * right {
        lemma_divided(ready);
        assert(0 <= x / right <= 31) by (nonlinear_arith)
            requires
                0 <= x < 32 * right,
                0 < right,
        ;
    } else {
        lemma_divided_saturates(ready);
    }
}

/// Putting operations behind a chain gives a chain.
pub proof fn lemma_linked_is_chain(tree: Node, links: Seq<Link>)
    requires
        tree.is_chain(),
        small(links),
    ensures
        linked(tree, links).is_chain(),
    decreases links.len(),
{
    if links.len() > 0 {
        let next = combine(links[0].div, Node::NumberN(links[0].value as i8), tree);
        assert(Node::NumberN(links[0].value as i8).is_chain());
        assert(next.is_chain());
        assert(small(links.skip(1))) by {
            assert forall|i: int| 0 <= i < links.skip(1).len() implies 0 <= (
            #[trigger] links.skip(1)[i]).value < 16 by {
                assert(links.skip(1)[i] == links[i + 1]);
            }
        }
        lemma_linked_is_chain(next, links.skip(1));
    }
}

/// The machine works out a chain to what it comes to in numbers, from left
/// to right, as long as every multiplicand is below 2048: each operation
/// takes what stands to its left and the number to its right.
pub proof fn lemma_worth(tree: Node, regs: Seq<RegisterContent>)
    requires
        regs.len() == 5,
        tree.is_chain(),
        multiplicands_fit(tree),
    ensures
        evaluated(tree, regs)[3] == worth(tree),
        0 <= worth(tree),
    decreases tree,
{
    match tree {
        Node::MulN { lhs, rhs } => {
            lemma_worth(*rhs, regs);
            let right = worth(*lhs);
            assert(*lhs == Node::NumberN(right as i8));
            assert(tree == combine(false, Node::NumberN(right as i8), *rhs));
            lemma_product(*rhs, right, regs);
        },
        Node::DivN { lhs, rhs } => {
            lemma_worth(*rhs, regs);
            let right = worth(*lhs);
            assert(*lhs == Node::NumberN(right as i8));
            assert(tree == combine(true, Node::NumberN(right as i8), *rhs));
            lemma_quotient(*rhs, right, regs);
        },
        _ => {},
    }
}

/// The character of an operation's sign.
pub open spec fn sign_char(div: bool) -> char {
    if div {
        '/'
    } else {
        '*'
    }
}

/// The text of one operation on two numbers from 0 to 15: four binary
/// digits, the sign, four binary digits.
pub open spec fn pair_text(left: int, div: bool, right: int) -> Seq<char> {
    number_text(left) + seq![sign_char(div)] + number_text(right)
}

/// The text of two operations in a row on three numbers from 0 to 15.
pub open spec fn triple_text(left: int, first: bool, middle: int, second: bool, right: int) -> Seq<
    char,
> {
    pair_text(left, first, middle) + seq![sign_char(second)] + number_text(right)
}

/// The text of one operation is ASCII, and its tokens are the two numbers
/// with the sign between them.
pub proof fn lemma_pair_text(left: int, div: bool, right: int)
    ensures
        is_ascii_chars(pair_text(left, div, right)),
        tokens_of(pair_text(left, div, right)) == number_tokens(left) + seq![sign_of(div)]
            + number_tokens(right),
{
    lemma_number_text(left);
    lemma_number_text(right);
    lemma_tokens_of_one(sign_char(div));
    lemma_tokens_of_concat(number_text(left), seq![sign_char(div)]);
    lemma_tokens_of_concat(number_text(left) + seq![sign_char(div)], number_text(right));
}

/// The text of two operations in a row is ASCII, and its tokens are those of
/// the first operation, the second sign and the third number.
pub proof fn lemma_triple_text(left: int, first: bool, middle: int, second: bool, right: int)
    ensures
        is_ascii_chars(triple_text(left, first, middle, second, right)),
        tokens_of(triple_text(left, first, middle, second, right)) == number_tokens(left)
            + seq![sign_of(first)] + number_tokens(middle) + link_tokens(
            seq![Link { div: second, value: right }],
        ),
{
    lemma_pair_text(left, first, middle);
    lemma_number_text(right);
    lemma_tokens_of_one(sign_char(second));
    lemma_tokens_of_concat(pair_text(left, first, middle), seq![sign_char(second)]);
    lemma_tokens_of_concat(
        pair_text(left, first, middle) + seq![sign_char(second)],
        number_text(right),
    );
    let links = seq![Link { div: second, value: right }];
    assert(links.skip(1).len() == 0);
    assert(link_tokens(links.skip(1)) =~= Seq::<Token>::empty());
    assert(link_tokens(links) =~= seq![sign_of(second)] + number_tokens(right));
    assert(tokens_of(triple_text(left, first, middle, second, right)) =~= number_tokens(left)
        + seq![sign_of(first)] + number_tokens(middle) + link_tokens(links));
}

/// What one tree comes to on cleared registers.
proof fn lemma_whole(tree: Node)
    ensures
        evaluated_all(seq![tree], cleared()) == evaluated(tree, cleared()),
{
    let nodes = seq![tree];
    assert(nodes.drop_last().len() == 0);
    assert(evaluated_all(nodes.drop_last(), cleared()) == cleared());
}

/// The tokens of a chain come to what its tree comes to in numbers, as long
/// as every multiplicand is below 2048: operations go from left to right.
pub proof fn lemma_tokens_of_chain(div: bool, left: int, right: int, links: Seq<Link>)
    requires
        0 <= left < 16,
        0 <= right < 16,
        small(links),
        multiplicands_fit(
            linked(combine(div, Node::NumberN(right as i8), Node::NumberN(left as i8)), links),
        ),
    ensures
        answer(
            number_tokens(left) + seq![sign_of(div)] + number_tokens(right) + link_tokens(links),
        ) == Some(
            worth(
                linked(
                    combine(div, Node::NumberN(right as i8), Node::NumberN(left as i8)),
                    links,
                ),
            ) as i16,
        ),
{
    lemma_chain_is_read(div, left, right, links);
    let first = combine(div, Node::NumberN(right as i8), Node::NumberN(left as i8));
    assert(Node::NumberN(right as i8).is_chain());
    assert(Node::NumberN(left as i8).is_chain());
    assert(first.is_chain());
    lemma_linked_is_chain(first, links);
    lemma_whole(linked(first, links));
    lemma_worth(linked(first, links), cleared());
}

/// What the tokens stand for is a number in the plain sense: where the tokens
/// are an expression from the first to the last, they come to what the tree
/// that was read first comes to in numbers, as long as every multiplicand in
/// it is below 2048. Tokens that hold no operation come to 0.
pub proof fn lemma_answer_is_worth(tokens: Seq<Token>)
    requires
        expression_of(tokens).0.len() == 0,
    ensures
        expression_of(tokens).1.len() == 0 ==> answer(tokens) == Some(0i16),
        expression_of(tokens).1.len() > 0 && multiplicands_fit(expression_of(tokens).1.last())
            ==> answer(tokens) == Some(worth(expression_of(tokens).1.last()) as i16),
{
    let nodes = expression_of(tokens).1;
    if nodes.len() > 0 {
        lemma_expression_gives_chains(tokens, Seq::empty());
        assert(nodes.last().is_chain());
        let before = evaluated_all(nodes.drop_last(), cleared());
        lemma_evaluated_all_len(nodes.drop_last(), cleared());
        if multiplicands_fit(nodes.last()) {
            lemma_worth(nodes.last(), before);
        }
    }
}

/// The tree of one operation on two numbers, what it comes to, and that its
/// multiplicand fits.
proof fn lemma_pair(div: bool, left: int, right: int)
    requires
        0 <= left < 16,
        0 <= right < 16,
    ensures
        linked(
            combine(div, Node::NumberN(right as i8), Node::NumberN(left as i8)),
            Seq::<Link>::empty(),
        ) == combine(div, Node::NumberN(right as i8), Node::NumberN(left as i8)),
        multiplicands_fit(combine(div, Node::NumberN(right as i8), Node::NumberN(left as i8))),
        worth(combine(div, Node::NumberN(right as i8), Node::NumberN(left as i8))) == if div {
            quotient(left, right)
        } else {
            left * right
        },
        0 <= left * right <= 225,
        0 <= quotient(left, right) <= 31,
        right > 0 ==> quotient(left, right) == left / right,
{
    let tree = combine(div, Node::NumberN(right as i8), Node::NumberN(left as i8));
    assert(worth(Node::NumberN(right as i8)) == right);
    assert(worth(Node::NumberN(left as i8)) == left);
    assert(multiplicands_fit(Node::NumberN(left as i8)));
    assert(0 <= left * right <= 225) by (nonlinear_arith)
        requires
            0 <= left <= 15,
            0 <= right <= 15,
    ;
    if right > 0 {
        assert(0 <= left / right <= 15) by (nonlinear_arith)
            requires
                0 <= left <= 15,
                0 < right,
        ;
    }
}

/// The tree of two operations in a row on three numbers, and what it comes
/// to.
proof fn lemma_triple(first: bool, second: bool, left: int, middle: int, right: int)
    requires
        0 <= left < 16,
        0 <= middle < 16,
        0 <= right < 16,
    ensures
        small(seq![Link { div: second, value: right }]),
        linked(
            combine(first, Node::NumberN(middle as i8), Node::NumberN(left as i8)),
            seq![Link { div: second, value: right }],
        ) == combine(
            second,
            Node::NumberN(right as i8),
            combine(first, Node::NumberN(middle as i8), Node::NumberN(left as i8)),
        ),
        multiplicands_fit(
            combine(
                second,
                Node::NumberN(right as i8),
                combine(first, Node::NumberN(middle as i8), Node::NumberN(left as i8)),
            ),
        ),
        worth(
            combine(
                second,
                Node::NumberN(right as i8),
                combine(first, Node::NumberN(middle as i8), Node::NumberN(left as i8)),
            ),
        ) == ({
            let begun = if first {
                quotient(left, middle)
            } else {
                left * middle
            };
            if second {
                quotient(begun, right)
            } else {
                begun * right
            }
        }),
{
    lemma_pair(first, left, middle);
    let inner = combine(first, Node::NumberN(middle as i8), Node::NumberN(left as i8));
    let tree = combine(second, Node::NumberN(right as i8), inner);
    let links = seq![Link { div: second, value: right }];
    assert(links.skip(1).len() == 0);
    assert(linked(tree, links.skip(1)) == tree);
    assert(linked(inner, links) == tree);
    assert(worth(Node::NumberN(right as i8)) == right);
}

/// The product of two numbers from 0 to 15, written in binary with `*`
/// between them, is what the text comes to.
pub proof fn lemma_text_of_product(left: int, right: int)
    requires
        0 <= left < 16,
        0 <= right < 16,
    ensures
        answer(tokens_of(pair_text(left, false, right))) == Some((left * right) as i16),
        0 <= left * right <= 225,
{
    lemma_pair_text(left, false, right);
    lemma_pair(false, left, right);
    let links = Seq::<Link>::empty();
    assert(link_tokens(links) =~= Seq::<Token>::empty());
    let tokens = number_tokens(left) + seq![sign_of(false)] + number_tokens(right);
    assert(tokens + link_tokens(links) =~= tokens);
    lemma_tokens_of_chain(false, left, right, links);
}

/// The quotient of two numbers from 0 to 15, written in binary with `/`
/// between them, is what the text comes to: the division is the one that
/// drops the remainder. Where the divisor is 0 the text comes to 31.
pub proof fn lemma_text_of_quotient(left: int, right: int)
    requires
        0 <= left < 16,
        0 <= right < 16,
    ensures
        right > 0 ==> answer(tokens_of(pair_text(left, true, right))) == Some(
            (left / right) as i16,
        ),
        right == 0 ==> answer(tokens_of(pair_text(left, true, right))) == Some(31i16),
{
    lemma_pair_text(left, true, right);
    lemma_pair(true, left, right);
    let links = Seq::<Link>::empty();
    assert(link_tokens(links) =~= Seq::<Token>::empty());
    let tokens = number_tokens(left) + seq![sign_of(true)] + number_tokens(right);
    assert(tokens + link_tokens(links) =~= tokens);
    lemma_tokens_of_chain(true, left, right, links);
}

/// Two multiplications in a row go from left to right: the text of three
/// numbers from 0 to 15 with `*` between them comes to the product of the
/// first two, multiplied by the third.
pub proof fn lemma_text_of_products(left: int, middle: int, right: int)
    requires
        0 <= left < 16,
        0 <= middle < 16,
        0 <= right < 16,
    ensures
        answer(tokens_of(triple_text(left, false, middle, false, right))) == Some(
            ((left * middle) * right) as i16,
        ),
        0 <= (left * middle) * right <= 3375,
{
    lemma_triple_text(left, false, middle, false, right);
    lemma_pair(false, left, middle);
    lemma_triple(false, false, left, middle, right);
    lemma_tokens_of_chain(false, left, middle, seq![Link { div: false, value: right }]);
    assert(0 <= (left * middle) * right <= 3375) by (nonlinear_arith)
        requires
            0 <= left * middle <= 225,
            0 <= right <= 15,
    ;
}

/// A division behind a multiplication goes from left to right: the text of
/// three numbers from 0 to 15 with `*` and then `/` between them comes to the
/// product of the first two, divided by the third, where the quotient has no
/// more than five bits. Where it has more, or the third number is 0, the text
/// comes to 31.
pub proof fn lemma_text_of_product_divided(left: int, middle: int, right: int)
    requires
        0 <= left < 16,
        0 <= middle < 16,
        0 <= right < 16,
    ensures
        right > 0 && left * middle < 32 * right ==> answer(
            tokens_of(triple_text(left, false, middle, true, right)),
        ) == Some(((left * middle) / right) as i16),
        right == 0 || left * middle >= 32 * right ==> answer(
            tokens_of(triple_text(left, false, middle, true, right)),
        ) == Some(31i16),
{
    lemma_triple_text(left, false, middle, true, right);
    lemma_triple(false, true, left, middle, right);
    lemma_tokens_of_chain(false, left, middle, seq![Link { div: true, value: right }]);
}

/// A multiplication behind a division goes from left to right: the text of
/// three numbers from 0 to 15 with `/` and then `*` between them comes to the
/// quotient of the first two, multiplied by the third. Where the second
/// number is 0, it is 31 that is multiplied.
pub proof fn lemma_text_of_quotient_multiplied(left: int, middle: int, right: int)
    requires
        0 <= left < 16,
        0 <= middle < 16,
        0 <= right < 16,
    ensures
        middle > 0 ==> answer(tokens_of(triple_text(left, true, middle, false, right))) == Some(
            ((left / middle) * right) as i16,
        ),
        middle == 0 ==> answer(tokens_of(triple_text(left, true, middle, false, right))) == Some(
            (31 * right) as i16,
        ),
{
    lemma_triple_text(left, true, middle, false, right);
    lemma_pair(true, left, middle);
    lemma_triple(true, false, left, middle, right);
    lemma_tokens_of_chain(true, left, middle, seq![Link { div: false, value: right }]);
}

/// Two divisions in a row go from left to right: the text of three numbers
/// from 0 to 15 with `/` between them comes to the quotient of the first two,
/// divided by the third. Where the second number is 0, it is 31 that is
/// divided, and where the third number is 0 the text comes to 31.
pub proof fn lemma_text_of_quotient_divided(left: int, middle: int, right: int)
    requires
        0 <= left < 16,
        0 <= middle < 16,
        0 <= right < 16,
    ensures
        middle > 0 && right > 0 ==> answer(
            tokens_of(triple_text(left, true, middle, true, right)),
        ) == Some(((left / middle) / right) as i16),
        middle == 0 && right > 0 ==> answer(
            tokens_of(triple_text(left, true, middle, true, right)),
        ) == Some((31int / right) as i16),
        right == 0 ==> answer(tokens_of(triple_text(left, true, middle, true, right))) == Some(
            31i16,
        ),
{
    lemma_triple_text(left, true, middle, true, right);
    lemma_pair(true, left, middle);
    lemma_triple(true, true, left, middle, right);
    lemma_tokens_of_chain(true, left, middle, seq![Link { div: true, value: right }]);
}

} // verus!
