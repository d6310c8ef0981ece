use bincalc::tokens::{tokenize, Token};

#[test]
fn tokenize_reads_the_four_symbols() {
    assert_eq!(
        tokenize("01*/").unwrap(),
        vec![Token::Zero, Token::One, Token::MulT, Token::DivT]
    );
}

#[test]
fn tokenize_empty_text() {
    assert_eq!(tokenize("").unwrap(), Vec::<Token>::new());
}

#[test]
fn tokenize_skips_other_characters() {
    assert_eq!(tokenize("01 01*0011").unwrap(), tokenize("0101*0011").unwrap());
    assert_eq!(
        tokenize(" 1 + 0 = x\t/\n").unwrap(),
        vec![Token::One, Token::Zero, Token::DivT]
    );
    assert_eq!(tokenize("abc 23456789").unwrap(), Vec::<Token>::new());
}

#[test]
fn tokenize_keeps_the_order() {
    assert_eq!(
        tokenize("1100/0011").unwrap(),
        vec![
            Token::One,
            Token::One,
            Token::Zero,
            Token::Zero,
            Token::DivT,
            Token::Zero,
            Token::Zero,
            Token::One,
            Token::One
        ]
    );
}

#[test]
fn tokenize_refuses_text_that_is_not_ascii() {
    assert_eq!(tokenize("0101*0011é"), Err("I only know ascii 😀"));
    assert_eq!(tokenize("×"), Err("I only know ascii 😀"));
}

#[test]
fn tokenize_takes_a_string() {
    let text = String::from("1*1");
    assert_eq!(tokenize(&text).unwrap(), vec![Token::One, Token::MulT, Token::One]);
}
