//! Locality of dispatch: everything after marker discovery reads the text
//! from the marker onward only.
//!
//! Each lemma here relates a specification function on a text to the same
//! function on the text's suffix, shifted; the closing theorem composes
//! them: two texts that agree from their first marker on — whatever
//! malformed prose, unterminated quotes included, stands before it — are
//! dispatched to the same command, provided no code span suppresses the
//! match in either. This is the general form of the tolerance that the
//! dispatcher owes its callers: lexical errors outside the command region
//! never affect command dispatch.

use crate::assign::{assign_attempt, assign_colon_end, assign_tail_from, assign_to_end, AsgTail};
use crate::command::{
    claimed_cmd, claimed_end, find_marker, lemma_find_marker, marker_word, spec_parse,
};
use crate::code_block::spans_overlap;
use crate::grammar::{claim_count, claims, first_claimer, grammar_attempt, GrammarKind, SpecReply};
use crate::relabel::{deltas_from, relabel_attempt, relabel_kw_end, relabel_sep_end, RelTail};
use crate::token::{
    lemma_skip_blanks, lemma_tok_advances, quote_close, skip_blanks, spec_tok, tok_after,
    word_end, Token, TokStep,
};
use vstd::prelude::*;

verus! {

/// The suffix of `t` from offset `c` on.
pub open spec fn suffix_of(t: Seq<u8>, c: int) -> Seq<u8> {
    t.subrange(c, t.len() as int)
}

/// A token of the full text, re-addressed in the suffix.
pub open spec fn token_shift(tok: Token, c: int) -> Token {
    match tok {
        Token::Word(a, b) => Token::Word((a - c) as usize, (b - c) as usize),
        Token::Quote(a, b) => Token::Quote((a - c) as usize, (b - c) as usize),
        other => other,
    }
}

proof fn lemma_subrange_shift(t: Seq<u8>, c: int, a: int, b: int)
    requires
        0 <= c <= a <= b <= t.len(),
    ensures
        t.subrange(a, b) == suffix_of(t, c).subrange(a - c, b - c),
{
    assert(t.subrange(a, b) =~= suffix_of(t, c).subrange(a - c, b - c));
}

proof fn lemma_skip_blanks_shift(t: Seq<u8>, c: int, p: int)
    requires
        0 <= c <= p <= t.len(),
    ensures
        skip_blanks(t, p) == c + skip_blanks(suffix_of(t, c), p - c),
    decreases t.len() - p,
{
    if p < t.len() && crate::token::is_blank(t[p]) {
        assert(suffix_of(t, c)[p - c] == t[p]);
        lemma_skip_blanks_shift(t, c, p + 1);
    } else {
        if p < t.len() {
            assert(suffix_of(t, c)[p - c] == t[p]);
        }
    }
}

proof fn lemma_word_end_shift(t: Seq<u8>, c: int, p: int)
    requires
        0 <= c <= p <= t.len(),
    ensures
        word_end(t, p) == c + word_end(suffix_of(t, c), p - c),
    decreases t.len() - p,
{
    if p < t.len() && crate::token::is_word_byte(t[p]) {
        assert(suffix_of(t, c)[p - c] == t[p]);
        lemma_word_end_shift(t, c, p + 1);
    } else {
        if p < t.len() {
            assert(suffix_of(t, c)[p - c] == t[p]);
        }
    }
}

proof fn lemma_quote_close_shift(t: Seq<u8>, c: int, p: int)
    requires
        0 <= c <= p <= t.len(),
    ensures
        match quote_close(t, p) {
            Option::Some(q) => quote_close(suffix_of(t, c), p - c) == Option::Some(q - c),
            Option::None => quote_close(suffix_of(t, c), p - c) is None,
        },
    decreases t.len() - p,
{
    if p < t.len() {
        assert(suffix_of(t, c)[p - c] == t[p]);
        if t[p] != 34 {
            lemma_quote_close_shift(t, c, p + 1);
        }
    }
}

/// One tokenization step of the full text, seen from the suffix: the same
/// kind of step, with every offset shifted by `c`.
proof fn lemma_tok_shift(t: Seq<u8>, c: int, p: int)
    requires
        0 <= c <= p <= t.len(),
        t.len() <= usize::MAX,
    ensures
        match spec_tok(t, p) {
            TokStep::End => spec_tok(suffix_of(t, c), p - c) is End,
            TokStep::Fail => spec_tok(suffix_of(t, c), p - c) is Fail,
            TokStep::Tok(tok, np) => spec_tok(suffix_of(t, c), p - c) == TokStep::Tok(
                token_shift(tok, c),
                np - c,
            ),
        },
{
    let s = suffix_of(t, c);
    lemma_skip_blanks_shift(t, c, p);
    lemma_skip_blanks(t, p);
    let w = skip_blanks(t, p);
    let ws = w - c;
    assert(skip_blanks(s, p - c) == ws);
    if w < t.len() {
        assert(s[ws] == t[w]);
        if t[w] == 10 {
            assert(spec_tok(s, p - c) == TokStep::Tok(Token::EndOfLine, ws + 1));
        } else if crate::token::is_punct(t[w]) {
            assert(spec_tok(s, p - c) == TokStep::Tok(crate::token::punct_token(s[ws]), ws + 1));
        } else if t[w] == 34 {
            lemma_quote_close_shift(t, c, w + 1);
            crate::token::lemma_quote_close(t, w + 1);
            match quote_close(t, w + 1) {
                Option::Some(q) => {
                    assert(quote_close(s, ws + 1) == Option::Some(q - c));
                    assert(token_shift(Token::Quote((w + 1) as usize, q as usize), c)
                        == Token::Quote((ws + 1) as usize, (q - c) as usize));
                },
                Option::None => {},
            }
        } else {
            lemma_word_end_shift(t, c, w);
            crate::token::lemma_word_end(t, w);
            let we = word_end(t, w);
            assert(word_end(s, ws) == we - c);
            assert(token_shift(Token::Word(w as usize, we as usize), c) == Token::Word(
                ws as usize,
                (we - c) as usize,
            ));
        }
    }
}

/// The delta list of the full text, seen from the suffix: equal deltas and
/// error, with the end offset shifted by `c`.
proof fn lemma_deltas_shift(t: Seq<u8>, c: int, p: int)
    requires
        0 <= c <= p <= t.len(),
        t.len() <= usize::MAX,
    ensures
        match deltas_from(t, p) {
            RelTail::Match { deltas, end } => deltas_from(suffix_of(t, c), p - c)
                == (RelTail::Match { deltas, end: end - c }),
            RelTail::Reject { err, end } => deltas_from(suffix_of(t, c), p - c)
                == (RelTail::Reject { err, end: end - c }),
        },
    decreases t.len() - p,
{
    let s = suffix_of(t, c);
    lemma_tok_shift(t, c, p);
    lemma_tok_advances(t, p);
    match spec_tok(t, p) {
        TokStep::Tok(tok, np) => {
            match tok {
                Token::Word(a, b) => {
                    lemma_subrange_shift(t, c, a as int, b as int);
                    lemma_tok_shift(t, c, np);
                    lemma_tok_advances(t, np);
                    match spec_tok(t, np) {
                        TokStep::Tok(tok2, np2) => {
                            if tok2 == Token::Comma {
                                lemma_deltas_shift(t, c, np2);
                            }
                        },
                        _ => {},
                    }
                },
                _ => {},
            }
        },
        _ => {},
    }
}

/// The label grammar's attempt, seen from the suffix: the same reply with
/// every offset shifted by `c`.
proof fn lemma_relabel_shift(t: Seq<u8>, c: int, p: int)
    requires
        0 <= c <= p <= t.len(),
        t.len() <= usize::MAX,
    ensures
        match relabel_attempt(t, p) {
            SpecReply::NotMine => relabel_attempt(suffix_of(t, c), p - c) is NotMine,
            SpecReply::Matched(v, e) => relabel_attempt(suffix_of(t, c), p - c)
                == SpecReply::Matched(v, e - c),
            SpecReply::Rejected(err, e) => relabel_attempt(suffix_of(t, c), p - c)
                == SpecReply::Rejected(err, e - c),
        },
{
    let s = suffix_of(t, c);
    lemma_tok_shift(t, c, p);
    lemma_tok_advances(t, p);
    match spec_tok(t, p) {
        TokStep::Tok(tok, p2) => {
            match tok {
                Token::Word(a1, b1) => {
                    lemma_subrange_shift(t, c, a1 as int, b1 as int);
                },
                _ => {},
            }
            lemma_tok_shift(t, c, p2);
            lemma_tok_advances(t, p2);
            match spec_tok(t, p2) {
                TokStep::Tok(tok2, p3) => {
                    match tok2 {
                        Token::Word(a2, b2) => {
                            lemma_subrange_shift(t, c, a2 as int, b2 as int);
                        },
                        _ => {},
                    }
                    assert(relabel_kw_end(s, p - c) == relabel_kw_end(t, p) - c);
                    lemma_tok_shift(t, c, p3);
                    lemma_tok_advances(t, p3);
                    match spec_tok(t, p3) {
                        TokStep::Tok(tok3, p4) => {
                            match tok3 {
                                Token::Word(a3, b3) => {
                                    lemma_subrange_shift(t, c, a3 as int, b3 as int);
                                },
                                _ => {},
                            }
                        },
                        _ => {},
                    }
                    let p4 = relabel_sep_end(t, p3);
                    assert(relabel_sep_end(s, p3 - c) == p4 - c);
                    lemma_deltas_shift(t, c, p4);
                },
                _ => {},
            }
        },
        _ => {},
    }
}

/// The assignment grammar's attempt, seen from the suffix: the same reply
/// with every offset shifted by `c`.
proof fn lemma_assign_shift(t: Seq<u8>, c: int, p: int)
    requires
        0 <= c <= p <= t.len(),
        t.len() <= usize::MAX,
    ensures
        match assign_attempt(t, p) {
            SpecReply::NotMine => assign_attempt(suffix_of(t, c), p - c) is NotMine,
            SpecReply::Matched(v, e) => assign_attempt(suffix_of(t, c), p - c)
                == SpecReply::Matched(v, e - c),
            SpecReply::Rejected(err, e) => assign_attempt(suffix_of(t, c), p - c)
                == SpecReply::Rejected(err, e - c),
        },
{
    let s = suffix_of(t, c);
    lemma_tok_shift(t, c, p);
    lemma_tok_advances(t, p);
    match spec_tok(t, p) {
        TokStep::Tok(tok, p1) => {
            match tok {
                Token::Word(a1, b1) => {
                    lemma_subrange_shift(t, c, a1 as int, b1 as int);
                },
                _ => {},
            }
            lemma_tok_shift(t, c, p1);
            lemma_tok_advances(t, p1);
            match spec_tok(t, p1) {
                TokStep::Tok(tok1, _) => {
                    match tok1 {
                        Token::Word(a, b) => {
                            lemma_subrange_shift(t, c, a as int, b as int);
                        },
                        _ => {},
                    }
                },
                _ => {},
            }
            let p2 = assign_to_end(t, p1);
            assert(assign_to_end(s, p1 - c) == p2 - c);
            lemma_tok_shift(t, c, p2);
            lemma_tok_advances(t, p2);
            let p3 = assign_colon_end(t, p2);
            assert(assign_colon_end(s, p2 - c) == p3 - c);
            lemma_tok_shift(t, c, p3);
            lemma_tok_advances(t, p3);
            match spec_tok(t, p3) {
                TokStep::Tok(tok3, np) => {
                    match tok3 {
                        Token::Word(a, b) => {
                            lemma_subrange_shift(t, c, a as int, b as int);
                            lemma_tok_shift(t, c, np);
                            lemma_tok_advances(t, np);
                        },
                        _ => {},
                    }
                },
                _ => {},
            }
            match assign_tail_from(t, p3) {
                AsgTail::Match { user, end } => {
                    assert(assign_tail_from(s, p3 - c) == (AsgTail::Match {
                        user,
                        end: end - c,
                    }));
                },
                AsgTail::Reject { err, end } => {
                    assert(assign_tail_from(s, p3 - c) == (AsgTail::Reject {
                        err,
                        end: end - c,
                    }));
                },
            }
        },
        _ => {},
    }
}

/// Any grammar's attempt, seen from the suffix.
proof fn lemma_attempt_shift(g: GrammarKind, t: Seq<u8>, c: int, p: int)
    requires
        0 <= c <= p <= t.len(),
        t.len() <= usize::MAX,
    ensures
        claims(g, t, p) == claims(g, suffix_of(t, c), p - c),
        claims(g, t, p) ==> claimed_cmd(g, suffix_of(t, c), p - c) == claimed_cmd(g, t, p),
        claims(g, t, p) ==> claimed_end(g, suffix_of(t, c), p - c) == claimed_end(g, t, p) - c,
        claims(g, t, p) ==> (grammar_attempt(g, t, p) is Matched == grammar_attempt(
            g,
            suffix_of(t, c),
            p - c,
        ) is Matched),
{
    match g {
        GrammarKind::Relabel => lemma_relabel_shift(t, c, p),
        GrammarKind::Assign => lemma_assign_shift(t, c, p),
    }
}

/// The registry's claim data, seen from the suffix.
proof fn lemma_registry_shift(gs: Seq<GrammarKind>, t: Seq<u8>, c: int, p: int)
    requires
        0 <= c <= p <= t.len(),
        t.len() <= usize::MAX,
    ensures
        claim_count(gs, t, p) == claim_count(gs, suffix_of(t, c), p - c),
        claim_count(gs, t, p) >= 1 ==> first_claimer(gs, suffix_of(t, c), p - c) == first_claimer(
            gs,
            t,
            p,
        ),
    decreases gs.len(),
{
    if gs.len() > 0 {
        lemma_attempt_shift(gs[0], t, c, p);
        lemma_registry_shift(gs.drop_first(), t, c, p);
    }
}

/// Lexical errors outside the command region never affect dispatch: two
/// texts that agree from their first marker occurrence onward — whatever
/// stands before it — yield the same command, provided neither match is
/// suppressed by a code span. The cursor differs only by where the marker
/// stands in each text.
pub proof fn lemma_prefix_irrelevant(
    t1: Seq<u8>,
    t2: Seq<u8>,
    bot: Seq<u8>,
    gs: Seq<GrammarKind>,
    spans1: Seq<(usize, usize)>,
    spans2: Seq<(usize, usize)>,
    p1: int,
    p2: int,
)
    requires
        t1.len() <= usize::MAX,
        t2.len() <= usize::MAX,
        find_marker(t1, bot, 0) == Option::Some(p1),
        find_marker(t2, bot, 0) == Option::Some(p2),
        t1.subrange(p1, t1.len() as int) == t2.subrange(p2, t2.len() as int),
        !spans_overlap(
            spans1,
            p1,
            claimed_end(first_claimer(gs, t1, tok_after(t1, p1)), t1, tok_after(t1, p1)),
        ),
        !spans_overlap(
            spans2,
            p2,
            claimed_end(first_claimer(gs, t2, tok_after(t2, p2)), t2, tok_after(t2, p2)),
        ),
    ensures
        spec_parse(t1, 0, bot, gs, spans1).cmd == spec_parse(t2, 0, bot, gs, spans2).cmd,
{
    lemma_find_marker(t1, bot, 0);
    lemma_find_marker(t2, bot, 0);
    let s = suffix_of(t1, p1);
    assert(suffix_of(t2, p2) == s);
    lemma_tok_shift(t1, p1, p1);
    lemma_tok_shift(t2, p2, p2);
    lemma_tok_advances(t1, p1);
    lemma_tok_advances(t2, p2);
    // the marker-word guard answers alike in both texts
    match spec_tok(t1, p1) {
        TokStep::Tok(tok, np) => {
            match tok {
                Token::Word(a, b) => {
                    lemma_subrange_shift(t1, p1, a as int, b as int);
                },
                _ => {},
            }
        },
        _ => {},
    }
    match spec_tok(t2, p2) {
        TokStep::Tok(tok, np) => {
            match tok {
                Token::Word(a, b) => {
                    lemma_subrange_shift(t2, p2, a as int, b as int);
                },
                _ => {},
            }
        },
        _ => {},
    }
    assert(marker_word(t1, bot, p1) == marker_word(t2, bot, p2));
    if marker_word(t1, bot, p1) {
        let q1 = tok_after(t1, p1);
        let q2 = tok_after(t2, p2);
        assert(q1 - p1 == q2 - p2);
        lemma_registry_shift(gs, t1, p1, q1);
        lemma_registry_shift(gs, t2, p2, q2);
        let n = claim_count(gs, t1, q1);
        assert(n == claim_count(gs, t2, q2));
        if n == 1 {
            crate::grammar::lemma_first_claimer_claims(gs, t1, q1);
            crate::grammar::lemma_first_claimer_claims(gs, t2, q2);
            let g1 = first_claimer(gs, t1, q1);
            lemma_attempt_shift(g1, t1, p1, q1);
            lemma_attempt_shift(g1, t2, p2, q2);
        }
    }
}

} // verus!
