//! The whole way from a line of text to the number it stands for.
use crate::compile::any_temp;
use crate::compile::codes;
use crate::compile::Compiler;
use crate::execute::cleared;
use crate::execute::halts;
use crate::execute::outcome;
use crate::execute::start;
use crate::execute::well_formed;
use crate::execute::Instruction;
use crate::execute::Machine;
use crate::execute::RegisterContent;
use crate::meaning::evaluated_all;
use crate::meaning::lemma_program_runs;
use crate::meaning::works_out;
use crate::parsing::all_chains;
use crate::parsing::lemma_chain_is_finished;
use crate::parsing::lemma_expression_gives_chains;
use crate::parsing::Node;
use crate::parsing::Parser;
use crate::tokens::bit_char;
use crate::tokens::tokenize;
use crate::tokens::tokens_of;
use crate::tokens::Token;
use vstd::prelude::*;
use vstd::string::StringExecFns;

verus! {

/// Why a line of text has no value.
#[derive(Debug, PartialEq, Eq)]
pub enum CalcError {
    /// The text holds a character that is not ASCII.
    Encoding,
    /// Not all of the text is an expression: these tokens were left, behind
    /// these nodes.
    Syntax { remaining: Vec<Token>, parsed: Vec<Node> },
    /// A digit node was left in a tree. Reading an expression leaves none,
    /// so neither `build` nor `calculate` fails in this way.
    InternalConsistency,
}

/// What reading an expression from the tokens gives: the tokens that are
/// left and the trees.
pub open spec fn expression_of(tokens: Seq<Token>) -> (Seq<Token>, Seq<Node>) {
    Parser::Expr.parsed(tokens, Seq::empty())
}

/// The number that the tokens stand for: what the result register holds
/// after their trees have been worked out on cleared registers, which is what
/// running their compiled code gives (`lemma_answer_is_computed`). `None`
/// where the tokens are not an expression from the first to the last.
///
/// In numbers this is what the chain comes to from left to right
/// (`chains::lemma_answer_is_worth`).
pub open spec fn answer(tokens: Seq<Token>) -> Option<RegisterContent> {
    let (rest, nodes) = expression_of(tokens);
    if rest.len() == 0 {
        Some(evaluated_all(nodes, cleared())[3])
    } else {
        None
    }
}

/// Compiles a line of text.
///
/// Fails with `Encoding` exactly where the text is not ASCII, and else with
/// `Syntax` exactly where tokens are left behind the expression: then there
/// is no program. The program is well formed; started on any registers it
/// halts, and then the registers hold what working out the trees gives.
pub fn build(inp: &str) -> (res: Result<Vec<Instruction>, CalcError>)
    ensures
        match res {
            Ok(program) => {
                &&& inp.is_ascii()
                &&& expression_of(tokens_of(inp@)).0.len() == 0
                &&& program@ == codes(expression_of(tokens_of(inp@)).1, 0)
                &&& well_formed(program@)
                &&& works_out(program@, expression_of(tokens_of(inp@)).1)
            },
            Err(CalcError::Encoding) => !inp.is_ascii(),
            Err(CalcError::Syntax { remaining, parsed }) => {
                &&& inp.is_ascii()
                &&& remaining@.len() > 0
                &&& (remaining@, parsed@) == expression_of(tokens_of(inp@))
            },
            Err(CalcError::InternalConsistency) => false,
        },
{
    let tokens = match tokenize(inp) {
        Ok(tokens) => tokens,
        Err(_) => {
            return Err(CalcError::Encoding);
        },
    };
    let nothing: Vec<Node> = Vec::new();
    let (remaining, parsed) = match Parser::Expr.parse(tokens, nothing.as_slice()) {
        Ok(out) => out,
        Err(_) => {
            return Err(CalcError::InternalConsistency);
        },
    };
    if !remaining.is_empty() {
        return Err(CalcError::Syntax { remaining, parsed });
    }
    proof {
        assert(nothing@ =~= Seq::<Node>::empty());
        lemma_expression_is_finished(tokens_of(inp@));
    }
    match Compiler::new(parsed).compile() {
        Ok(program) => Ok(program),
        Err(_) => Err(CalcError::InternalConsistency),
    }
}

/// Works out a line of text: compiles it and runs the program on a machine
/// with cleared registers.
///
/// Fails with `Encoding` exactly where the text is not ASCII, and else with
/// `Syntax` exactly where tokens are left behind the expression.
pub fn calculate(inp: &str) -> (res: Result<RegisterContent, CalcError>)
    ensures
        match res {
            Ok(value) => inp.is_ascii() && answer(tokens_of(inp@)) == Some(value),
            Err(CalcError::Encoding) => !inp.is_ascii(),
            Err(CalcError::Syntax { remaining, parsed }) => {
                &&& inp.is_ascii()
                &&& remaining@.len() > 0
                &&& answer(tokens_of(inp@)) is None
                &&& (remaining@, parsed@) == expression_of(tokens_of(inp@))
            },
            Err(CalcError::InternalConsistency) => false,
        },
{
    let program = build(inp)?;
    let mut machine = Machine::new();
    proof {
        assert(halts(program@, start(cleared())));
    }
    machine.run(program);
    Ok(machine.answer_by_convention())
}

/// Reading an expression from the first token on leaves no digit node in the
/// trees.
pub proof fn lemma_expression_is_finished(tokens: Seq<Token>)
    ensures
        all_chains(expression_of(tokens).1),
        !any_temp(expression_of(tokens).1),
{
    lemma_expression_gives_chains(tokens, Seq::empty());
    let nodes = expression_of(tokens).1;
    assert forall|i: int| 0 <= i < nodes.len() implies !(#[trigger] nodes[i]).has_temp() by {
        lemma_chain_is_finished(nodes[i]);
    }
}

/// What the tokens stand for is what running their compiled trees gives:
/// where the tokens are an expression from the first to the last, the machine
/// that starts the program of their trees on cleared registers halts, and
/// then its result register holds the answer.
pub proof fn lemma_answer_is_computed(tokens: Seq<Token>)
    requires
        expression_of(tokens).0.len() == 0,
        codes(expression_of(tokens).1, 0).len() <= usize::MAX,
    ensures
        halts(codes(expression_of(tokens).1, 0), start(cleared())),
        answer(tokens) == Some(
            outcome(codes(expression_of(tokens).1, 0), start(cleared())).registers[3],
        ),
{
    lemma_expression_is_finished(tokens);
    lemma_program_runs(expression_of(tokens).1, cleared());
}

/// How a value is shown: the eight binary digits of its low byte, highest bit
/// first. A negative value shows the low byte of its two's complement.
pub open spec fn binary_text(value: RegisterContent) -> Seq<char> {
    let byte = value as int % 256;
    seq![
        bit_char(byte / 128 % 2),
        bit_char(byte / 64 % 2),
        bit_char(byte / 32 % 2),
        bit_char(byte / 16 % 2),
        bit_char(byte / 8 % 2),
        bit_char(byte / 4 % 2),
        bit_char(byte / 2 % 2),
        bit_char(byte % 2),
    ]
}

/// Appends the character of a binary digit.
fn push_bit(text: &mut String, bit: u8)
    ensures
        final(text)@ == old(text)@.push(bit_char(bit as int)),
{
    proof {
        reveal_strlit("1");
        reveal_strlit("0");
    }
    if bit == 1 {
        text.append("1");
        proof {
            assert(text@ =~= old(text)@.push('1'));
        }
    } else {
        text.append("0");
        proof {
            assert(text@ =~= old(text)@.push('0'));
        }
    }
}

/// Shows a value as eight binary digits.
pub fn to_binary(value: RegisterContent) -> (text: String)
    ensures
        text@ == binary_text(value),
{
    assert((value & 0xff) == value % 256) by (bit_vector);
    assert(0 <= (value & 0xff) < 256) by (bit_vector);
    let byte: u8 = (value & 0xff) as u8;
    let mut text = String::new();
    push_bit(&mut text, byte / 128 % 2);
    push_bit(&mut text, byte / 64 % 2);
    push_bit(&mut text, byte / 32 % 2);
    push_bit(&mut text, byte / 16 % 2);
    push_bit(&mut text, byte / 8 % 2);
    push_bit(&mut text, byte / 4 % 2);
    push_bit(&mut text, byte / 2 % 2);
    push_bit(&mut text, byte % 2);
    proof {
        assert(text@ =~= binary_text(value));
    }
    text
}

} // verus!
