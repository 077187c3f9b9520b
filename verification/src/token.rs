//! Tokenizer: turns a byte text into a sequence of lexical tokens.
//!
//! Tokens are views into the original buffer, represented as byte-offset
//! ranges, so nothing is copied. A [`Tokenizer`] is only a byte offset into
//! the text, so a grammar that wants to backtrack simply copies it and
//! abandons the copy on failure; duplication is O(1).
//!
//! Tokenization is pure: the token stream is a function of the text and the
//! starting offset alone, which is exactly what the contract of
//! [`Tokenizer::next_token`] states through [`spec_tok`].

use crate::error::ParseError;
use vstd::prelude::*;

verus! {

/// Blank bytes that are skipped between tokens: space, tab, carriage return.
pub open spec fn is_blank(b: u8) -> bool {
    b == 32 || b == 9 || b == 13
}

/// Punctuation bytes that form a token of their own.
pub open spec fn is_punct(b: u8) -> bool {
    b == 46 || b == 44 || b == 59 || b == 33 || b == 63 || b == 58 || b == 40 || b == 41
}

/// Bytes that continue a word: anything that is not a blank, a newline,
/// a double quote or punctuation.
pub open spec fn is_word_byte(b: u8) -> bool {
    !is_blank(b) && b != 10 && b != 34 && !is_punct(b)
}

/// One lexical token. `Quote` and `Word` carry the byte range of their text
/// (for `Quote`, the range between the quotes) in the full buffer.
#[derive(Clone, Copy, PartialEq, Eq, Structural, Debug)]
pub enum Token {
    Dot,
    Comma,
    Semi,
    Exclamation,
    Question,
    Colon,
    EndOfLine,
    ParenLeft,
    ParenRight,
    Quote(usize, usize),
    Word(usize, usize),
}

/// The token a single punctuation byte stands for.
pub open spec fn punct_token(b: u8) -> Token {
    if b == 46 {
        Token::Dot
    } else if b == 44 {
        Token::Comma
    } else if b == 59 {
        Token::Semi
    } else if b == 33 {
        Token::Exclamation
    } else if b == 63 {
        Token::Question
    } else if b == 58 {
        Token::Colon
    } else if b == 40 {
        Token::ParenLeft
    } else {
        Token::ParenRight
    }
}

/// First offset at or after `i` whose byte is not blank, or the end of `t`.
pub open spec fn skip_blanks(t: Seq<u8>, i: int) -> int
    decreases t.len() - i,
{
    if 0 <= i < t.len() && is_blank(t[i]) {
        skip_blanks(t, i + 1)
    } else {
        i
    }
}

/// First offset at or after `i` whose byte does not continue a word, or the
/// end of `t`.
pub open spec fn word_end(t: Seq<u8>, i: int) -> int
    decreases t.len() - i,
{
    if 0 <= i < t.len() && is_word_byte(t[i]) {
        word_end(t, i + 1)
    } else {
        i
    }
}

/// Offset of the first `"` byte at or after `i`, if any.
pub open spec fn quote_close(t: Seq<u8>, i: int) -> Option<int>
    decreases t.len() - i,
{
    if i < 0 || i >= t.len() {
        Option::None
    } else if t[i] == 34 {
        Option::Some(i)
    } else {
        quote_close(t, i + 1)
    }
}

pub proof fn lemma_skip_blanks(t: Seq<u8>, i: int)
    requires
        0 <= i <= t.len(),
    ensures
        i <= skip_blanks(t, i) <= t.len(),
        skip_blanks(t, i) < t.len() ==> !is_blank(t[skip_blanks(t, i)]),
        forall|j: int| i <= j < skip_blanks(t, i) ==> is_blank(t[j]),
    decreases t.len() - i,
{
    if i < t.len() && is_blank(t[i]) {
        lemma_skip_blanks(t, i + 1);
    }
}

pub proof fn lemma_word_end(t: Seq<u8>, i: int)
    requires
        0 <= i <= t.len(),
    ensures
        i <= word_end(t, i) <= t.len(),
        word_end(t, i) < t.len() ==> !is_word_byte(t[word_end(t, i)]),
        forall|j: int| i <= j < word_end(t, i) ==> is_word_byte(t[j]),
    decreases t.len() - i,
{
    if i < t.len() && is_word_byte(t[i]) {
        lemma_word_end(t, i + 1);
    }
}

pub proof fn lemma_quote_close(t: Seq<u8>, i: int)
    requires
        0 <= i <= t.len(),
    ensures
        match quote_close(t, i) {
            Option::Some(q) => i <= q < t.len() && t[q] == 34 && forall|j: int|
                i <= j < q ==> t[j] != 34,
            Option::None => forall|j: int| i <= j < t.len() ==> t[j] != 34,
        },
    decreases t.len() - i,
{
    if i < t.len() && t[i] != 34 {
        lemma_quote_close(t, i + 1);
    }
}

/// What one tokenization step yields: the end of the input, a lexical fault
/// (an unterminated quote), or a token together with the offset just after it.
pub enum TokStep {
    End,
    Fail,
    Tok(Token, int),
}

/// The single token found at offset `p` of `t`, with the offset just after
/// it. This is the mathematical model of [`Tokenizer::next_token`].
pub open spec fn spec_tok(t: Seq<u8>, p: int) -> TokStep {
    let s = skip_blanks(t, p);
    if s >= t.len() {
        TokStep::End
    } else if t[s] == 10 {
        TokStep::Tok(Token::EndOfLine, s + 1)
    } else if is_punct(t[s]) {
        TokStep::Tok(punct_token(t[s]), s + 1)
    } else if t[s] == 34 {
        match quote_close(t, s + 1) {
            Option::Some(q) => TokStep::Tok(Token::Quote((s + 1) as usize, q as usize), q + 1),
            Option::None => TokStep::Fail,
        }
    } else {
        TokStep::Tok(Token::Word(s as usize, word_end(t, s) as usize), word_end(t, s))
    }
}

/// The offset just after the token at `p`, or `p` itself when there is none.
pub open spec fn tok_after(t: Seq<u8>, p: int) -> int {
    match spec_tok(t, p) {
        TokStep::Tok(tok, np) => np,
        _ => p,
    }
}

/// Ranges carried by a token lie inside a text of length `n`.
pub open spec fn token_wf(tok: Token, n: int) -> bool {
    match tok {
        Token::Word(a, b) => a < b <= n,
        Token::Quote(a, b) => a <= b < n,
        _ => true,
    }
}

/// A token consumes at least one byte, never runs past the end, and its
/// range begins no earlier than where reading started.
pub proof fn lemma_tok_advances(t: Seq<u8>, p: int)
    requires
        0 <= p <= t.len(),
        t.len() <= usize::MAX,
    ensures
        match spec_tok(t, p) {
            TokStep::Tok(tok, np) => p < np <= t.len() && token_wf(tok, t.len() as int) && (
            tok matches Token::Word(a, b) ==> p <= a && b as int == np) && (
            tok matches Token::Quote(a, b) ==> p < a && b < np),
            _ => true,
        },
{
    lemma_skip_blanks(t, p);
    let s = skip_blanks(t, p);
    if s < t.len() {
        if t[s] != 10 && !is_punct(t[s]) && t[s] == 34 {
            lemma_quote_close(t, s + 1);
        }
        if t[s] != 10 && !is_punct(t[s]) && t[s] != 34 {
            lemma_word_end(t, s);
        }
    }
}

fn blank_x(b: u8) -> (r: bool)
    ensures
        r == is_blank(b),
{
    b == 32 || b == 9 || b == 13
}

fn punct_x(b: u8) -> (r: bool)
    ensures
        r == is_punct(b),
{
    b == 46 || b == 44 || b == 59 || b == 33 || b == 63 || b == 58 || b == 40 || b == 41
}

fn word_byte_x(b: u8) -> (r: bool)
    ensures
        r == is_word_byte(b),
{
    !blank_x(b) && b != 10 && b != 34 && !punct_x(b)
}

/// True exactly when `text[a..b]` equals `pat`.
pub fn range_eq(text: &Vec<u8>, a: usize, b: usize, pat: &Vec<u8>) -> (r: bool)
    requires
        a <= b <= text@.len(),
    ensures
        r == (text@.subrange(a as int, b as int) == pat@),
{
    if b - a != pat.len() {
        proof {
            assert(text@.subrange(a as int, b as int).len() != pat@.len());
        }
        return false;
    }
    let mut k: usize = 0;
    while k < pat.len()
        invariant
            a <= b <= text@.len(),
            b - a == pat@.len(),
            k <= pat@.len(),
            forall|j: int| 0 <= j < k ==> text@[a + j] == pat@[j],
        decreases pat@.len() - k,
    {
        if text[a + k] != pat[k] {
            proof {
                assert(text@.subrange(a as int, b as int)[k as int] == text@[a + k]);
                assert(text@.subrange(a as int, b as int) != pat@) by {
                    if text@.subrange(a as int, b as int) == pat@ {
                        assert(text@.subrange(a as int, b as int)[k as int] == pat@[k as int]);
                    }
                }
            }
            return false;
        }
        k += 1;
    }
    proof {
        assert(text@.subrange(a as int, b as int) =~= pat@);
    }
    true
}

/// A copy of `text[a..b]` as an owned vector.
pub fn copy_range(text: &Vec<u8>, a: usize, b: usize) -> (r: Vec<u8>)
    requires
        a <= b <= text@.len(),
    ensures
        r@ == text@.subrange(a as int, b as int),
{
    let mut r: Vec<u8> = Vec::new();
    let mut k: usize = a;
    while k < b
        invariant
            a <= k <= b <= text@.len(),
            r@ == text@.subrange(a as int, k as int),
        decreases b - k,
    {
        r.push(text[k]);
        proof {
            assert(r@ =~= text@.subrange(a as int, k + 1));
        }
        k += 1;
    }
    r
}

/// A position in the text from which tokens are read. Copying the value is
/// the snapshot operation: the copy advances independently of the original.
#[derive(Clone, Copy, PartialEq, Eq, Structural, Debug)]
pub struct Tokenizer {
    pub pos: usize,
}

impl Tokenizer {
    /// A tokenizer positioned at byte offset `start`.
    pub fn new(start: usize) -> (r: Tokenizer)
        ensures
            r.pos == start,
    {
        Tokenizer { pos: start }
    }

    /// The byte offset immediately after the last token returned.
    pub fn position(&self) -> (r: usize)
        ensures
            r == self.pos,
    {
        self.pos
    }

    /// The next token of `text`, or `None` at the end of the input, or an
    /// error when the remaining text holds an unterminated quoted string.
    /// The result and the new position are exactly those of
    /// [`spec_tok`] at the old position.
    pub fn next_token(&mut self, text: &Vec<u8>) -> (r: Result<Option<Token>, ParseError>)
        requires
            old(self).pos <= text@.len(),
        ensures
            final(self).pos <= text@.len(),
            match spec_tok(text@, old(self).pos as int) {
                TokStep::End => r == Ok::<Option<Token>, ParseError>(Option::None)
                    && final(self).pos == text@.len(),
                TokStep::Fail => r == Err::<Option<Token>, ParseError>(
                    ParseError::UnterminatedQuote,
                ) && final(self).pos == old(self).pos,
                TokStep::Tok(tok, np) => r == Ok::<Option<Token>, ParseError>(Option::Some(tok))
                    && final(self).pos as int == np,
            },
    {
        let start = self.pos;
        let mut i = start;
        while i < text.len() && blank_x(text[i])
            invariant
                start <= i <= text@.len(),
                skip_blanks(text@, start as int) == skip_blanks(text@, i as int),
            decreases text@.len() - i,
        {
            i += 1;
        }
        let s = i;
        proof {
            assert(skip_blanks(text@, s as int) == s as int);
        }
        if s >= text.len() {
            self.pos = text.len();
            return Ok(Option::None);
        }
        let b = text[s];
        if b == 10 {
            self.pos = s + 1;
            Ok(Option::Some(Token::EndOfLine))
        } else if punct_x(b) {
            let tok = if b == 46 {
                Token::Dot
            } else if b == 44 {
                Token::Comma
            } else if b == 59 {
                Token::Semi
            } else if b == 33 {
                Token::Exclamation
            } else if b == 63 {
                Token::Question
            } else if b == 58 {
                Token::Colon
            } else if b == 40 {
                Token::ParenLeft
            } else {
                Token::ParenRight
            };
            proof {
                assert(tok == punct_token(b));
            }
            self.pos = s + 1;
            Ok(Option::Some(tok))
        } else if b == 34 {
            let mut j = s + 1;
            while j < text.len() && text[j] != 34
                invariant
                    s + 1 <= j <= text@.len(),
                    quote_close(text@, s + 1 as int) == quote_close(text@, j as int),
                decreases text@.len() - j,
            {
                j += 1;
            }
            if j < text.len() {
                proof {
                    assert(quote_close(text@, j as int) == Option::Some(j as int));
                }
                self.pos = j + 1;
                Ok(Option::Some(Token::Quote(s + 1, j)))
            } else {
                proof {
                    assert(quote_close(text@, j as int) == Option::None::<int>);
                }
                Err(ParseError::UnterminatedQuote)
            }
        } else {
            let mut e = s;
            while e < text.len() && word_byte_x(text[e])
                invariant
                    s <= e <= text@.len(),
                    word_end(text@, s as int) == word_end(text@, e as int),
                decreases text@.len() - e,
            {
                e += 1;
            }
            proof {
                assert(word_end(text@, e as int) == e as int);
            }
            self.pos = e;
            Ok(Option::Some(Token::Word(s, e)))
        }
    }
}

} // verus!
