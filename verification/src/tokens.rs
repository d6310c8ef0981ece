//! From characters to tokens.
use vstd::prelude::*;

verus! {

/// One lexical symbol of the expression language.
#[derive(Debug, Copy, Clone, Eq, PartialEq)]
pub enum Token {
    /// The digit `0`.
    Zero,
    /// The digit `1`.
    One,
    /// The division sign `/`.
    DivT,
    /// The multiplication sign `*`.
    MulT,
}

impl Token {
    /// Whether the token is a binary digit.
    pub open spec fn is_digit(self) -> bool {
        self == Token::Zero || self == Token::One
    }

    /// The value of a binary digit; 0 for the operators.
    pub open spec fn bit(self) -> int {
        if self == Token::One {
            1
        } else {
            0
        }
    }
}

/// The token a character stands for, if it stands for one.
pub open spec fn classify(c: char) -> Option<Token> {
    if c == '1' {
        Some(Token::One)
    } else if c == '0' {
        Some(Token::Zero)
    } else if c == '/' {
        Some(Token::DivT)
    } else if c == '*' {
        Some(Token::MulT)
    } else {
        None
    }
}

/// The tokens of a character sequence, in order; characters that stand for no
/// token leave no trace.
pub open spec fn tokens_of(chars: Seq<char>) -> Seq<Token>
    decreases chars.len(),
{
    if chars.len() == 0 {
        Seq::empty()
    } else {
        let init = tokens_of(chars.drop_last());
        match classify(chars.last()) {
            Some(t) => init.push(t),
            None => init,
        }
    }
}

/// Reads the tokens of a text from left to right. Characters other than
/// `0`, `1`, `*` and `/` are passed over. Fails exactly where the text is not
/// ASCII.
pub fn tokenize(inp: &str) -> (res: Result<Vec<Token>, &'static str>)
    ensures
        match res {
            Ok(tokens) => inp.is_ascii() && tokens@ == tokens_of(inp@),
            Err(msg) => !inp.is_ascii() && msg@ == "I only know ascii 😀"@,
        },
{
    if !inp.is_ascii() {
        return Err("I only know ascii 😀");
    }
    let mut tokens: Vec<Token> = Vec::new();
    let chars = inp.chars();
    proof {
        broadcast use vstd::string::group_string_axioms;
        assert(inp@.take(0) =~= Seq::<char>::empty());
    }
    for c in it: chars
        invariant
            it.seq() == inp@,
            tokens@ == tokens_of(inp@.take(it.index())),
    {
        proof {
            let next = inp@.take(it.index() + 1);
            assert(next.drop_last() =~= inp@.take(it.index()));
            assert(next.last() == c);
        }
        match c {
            '1' => tokens.push(Token::One),
            '0' => tokens.push(Token::Zero),
            '/' => tokens.push(Token::DivT),
            '*' => tokens.push(Token::MulT),
            _ => {},
        }
    }
    proof {
        assert(inp@.take(inp@.len() as int) =~= inp@);
    }
    Ok(tokens)
}

/// The tokens of two texts put together are the tokens of the one and then
/// the tokens of the other.
pub proof fn lemma_tokens_of_concat(first: Seq<char>, second: Seq<char>)
    ensures
        tokens_of(first + second) == tokens_of(first) + tokens_of(second),
    decreases second.len(),
{
    if second.len() == 0 {
        assert(first + second =~= first);
        assert(tokens_of(first) + tokens_of(second) =~= tokens_of(first));
    } else {
        let whole = first + second;
        assert(whole.drop_last() =~= first + second.drop_last());
        assert(whole.last() == second.last());
        lemma_tokens_of_concat(first, second.drop_last());
        match classify(second.last()) {
            Some(t) => {
                assert((tokens_of(first) + tokens_of(second.drop_last())).push(t) =~= tokens_of(
                    first,
                ) + tokens_of(second.drop_last()).push(t));
            },
            None => {},
        }
    }
}

/// The tokens of a single character.
pub proof fn lemma_tokens_of_one(c: char)
    ensures
        tokens_of(seq![c]) == match classify(c) {
            Some(t) => seq![t],
            None => Seq::empty(),
        },
{
    let one = seq![c];
    assert(one.drop_last().len() == 0);
    assert(tokens_of(one.drop_last()) =~= Seq::<Token>::empty());
    match classify(c) {
        Some(t) => {
            assert(tokens_of(one) =~= seq![t]);
        },
        None => {},
    }
}

/// A character that stands for no token can be put anywhere into a text, or
/// taken out of it, and the tokens stay the same.
pub proof fn lemma_unknown_is_skipped(before: Seq<char>, c: char, after: Seq<char>)
    requires
        classify(c) is None,
    ensures
        tokens_of(before + seq![c] + after) == tokens_of(before + after),
{
    lemma_tokens_of_one(c);
    lemma_tokens_of_concat(before, seq![c]);
    lemma_tokens_of_concat(before + seq![c], after);
    lemma_tokens_of_concat(before, after);
    assert(tokens_of(before) + Seq::<Token>::empty() =~= tokens_of(before));
}

/// The token of a binary digit.
pub open spec fn bit_token(bit: int) -> Token {
    if bit == 1 {
        Token::One
    } else {
        Token::Zero
    }
}

/// The four tokens that spell a number from 0 to 15, highest bit first.
pub open spec fn number_tokens(value: int) -> Seq<Token> {
    seq![
        bit_token(value / 8 % 2),
        bit_token(value / 4 % 2),
        bit_token(value / 2 % 2),
        bit_token(value % 2),
    ]
}

/// The character of a binary digit.
pub open spec fn bit_char(bit: int) -> char {
    if bit == 1 {
        '1'
    } else {
        '0'
    }
}

/// The four characters that spell a number from 0 to 15 in binary, highest
/// bit first.
pub open spec fn number_text(value: int) -> Seq<char> {
    seq![
        bit_char(value / 8 % 2),
        bit_char(value / 4 % 2),
        bit_char(value / 2 % 2),
        bit_char(value % 2),
    ]
}

/// The text of a number gives the tokens of the number.
pub proof fn lemma_number_text(value: int)
    ensures
        tokens_of(number_text(value)) == number_tokens(value),
        vstd::utf8::is_ascii_chars(number_text(value)),
{
    let text = number_text(value);
    let a = seq![text[0]];
    let b = seq![text[1]];
    let c = seq![text[2]];
    let d = seq![text[3]];
    assert(text =~= a + b + c + d);
    lemma_tokens_of_one(text[0]);
    lemma_tokens_of_one(text[1]);
    lemma_tokens_of_one(text[2]);
    lemma_tokens_of_one(text[3]);
    lemma_tokens_of_concat(a, b);
    lemma_tokens_of_concat(a + b, c);
    lemma_tokens_of_concat(a + b + c, d);
    assert(tokens_of(text) =~= number_tokens(value));
}

} // verus!
