use parser::code_block::ColorCodeBlocks;
use parser::error::ParseError;
use parser::token::{Token, Tokenizer};

fn bytes(s: &str) -> Vec<u8> {
    s.as_bytes().to_vec()
}

#[test]
fn tokens_are_ranges_into_the_text() {
    let text = bytes("hi, \"there\" now.");
    let mut tok = Tokenizer::new(0);
    assert_eq!(tok.next_token(&text), Ok(Some(Token::Word(0, 2))));
    assert_eq!(tok.position(), 2);
    assert_eq!(tok.next_token(&text), Ok(Some(Token::Comma)));
    assert_eq!(tok.next_token(&text), Ok(Some(Token::Quote(5, 10))));
    assert_eq!(tok.position(), 11);
    assert_eq!(tok.next_token(&text), Ok(Some(Token::Word(12, 15))));
    assert_eq!(tok.next_token(&text), Ok(Some(Token::Dot)));
    assert_eq!(tok.next_token(&text), Ok(None));
    assert_eq!(tok.position(), text.len());
}

#[test]
fn unterminated_quote_is_a_lex_error() {
    let text = bytes("say \"oops");
    let mut tok = Tokenizer::new(0);
    assert_eq!(tok.next_token(&text), Ok(Some(Token::Word(0, 3))));
    let at = tok.position();
    assert_eq!(tok.next_token(&text), Err(ParseError::UnterminatedQuote));
    // a failed step does not move the tokenizer
    assert_eq!(tok.position(), at);
}

#[test]
fn snapshots_advance_independently() {
    let text = bytes("one two three");
    let mut tok = Tokenizer::new(0);
    assert_eq!(tok.next_token(&text), Ok(Some(Token::Word(0, 3))));
    let mut snap = tok;
    assert_eq!(snap.next_token(&text), Ok(Some(Token::Word(4, 7))));
    assert_eq!(snap.next_token(&text), Ok(Some(Token::Word(8, 13))));
    // the original is unaffected and re-reads the same token
    assert_eq!(tok.position(), 3);
    assert_eq!(tok.next_token(&text), Ok(Some(Token::Word(4, 7))));
}

#[test]
fn inline_span_is_found() {
    let text = bytes("a `b` c");
    let code = ColorCodeBlocks::new(&text);
    assert_eq!(code.overlaps_code(3, 4), Some((2, 5)));
    assert_eq!(code.overlaps_code(0, 2), None);
    assert_eq!(code.overlaps_code(5, 7), None);
}

#[test]
fn unterminated_span_runs_to_the_end() {
    let text = bytes("a `bc");
    let code = ColorCodeBlocks::new(&text);
    assert_eq!(code.overlaps_code(4, 5), Some((2, 5)));
    assert_eq!(code.overlaps_code(0, 1), None);
}

#[test]
fn fenced_span_covers_the_block() {
    let text = bytes("x\n```\ncode here\n```\ny");
    let code = ColorCodeBlocks::new(&text);
    assert_eq!(code.overlaps_code(8, 9), Some((2, 19)));
    assert_eq!(code.overlaps_code(0, 1), None);
    assert_eq!(code.overlaps_code(20, 21), None);
}
