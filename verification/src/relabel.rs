//! The label-modification grammar: `modify labels: +name, -name.`
//!
//! The keyword is the two words `modify labels`. After it an optional `:` or
//! `to` is skipped, then a comma-separated list of label deltas follows; each
//! delta is a word beginning with `+` (add) or `-` (remove) followed by a
//! nonempty name. The list ends at a `.`, at the end of a line or at the end
//! of the input. A grammar that has seen its keyword never stays silent: any
//! flaw after the keyword is a rejection carrying the reason.

use crate::error::ParseError;
use crate::grammar::{kw_to, SpecCmdVal, SpecReply};
use crate::token::{
    copy_range, lemma_tok_advances, range_eq, spec_tok, tok_after, Token, TokStep, Tokenizer,
};
use vstd::prelude::*;

verus! {

/// One requested label change, carrying the label's name.
#[derive(Clone, PartialEq, Eq, Debug)]
pub enum LabelDelta {
    Add(Vec<u8>),
    Remove(Vec<u8>),
}

/// Specification counterpart of [`LabelDelta`].
pub enum SpecDelta {
    Add(Seq<u8>),
    Remove(Seq<u8>),
}

impl View for LabelDelta {
    type V = SpecDelta;

    open spec fn view(&self) -> SpecDelta {
        match self {
            LabelDelta::Add(name) => SpecDelta::Add(name@),
            LabelDelta::Remove(name) => SpecDelta::Remove(name@),
        }
    }
}

/// The views of a sequence of deltas.
pub open spec fn deltas_view(s: Seq<LabelDelta>) -> Seq<SpecDelta> {
    s.map_values(|d: LabelDelta| d@)
}

/// A parsed label-modification command.
#[derive(Clone, PartialEq, Eq, Debug)]
pub struct RelabelCommand {
    pub deltas: Vec<LabelDelta>,
}

impl View for RelabelCommand {
    type V = Seq<SpecDelta>;

    open spec fn view(&self) -> Seq<SpecDelta> {
        deltas_view(self.deltas@)
    }
}

/// The bytes of the keyword `modify`.
pub open spec fn kw_modify() -> Seq<u8> {
    seq![109u8, 111u8, 100u8, 105u8, 102u8, 121u8]
}

/// The bytes of the keyword `labels`.
pub open spec fn kw_labels() -> Seq<u8> {
    seq![108u8, 97u8, 98u8, 101u8, 108u8, 115u8]
}

/// The delta a word stands for: `+` or `-` followed by a nonempty name.
pub open spec fn delta_of(w: Seq<u8>) -> Option<SpecDelta> {
    if w.len() >= 2 && w[0] == 43 {
        Option::Some(SpecDelta::Add(w.subrange(1, w.len() as int)))
    } else if w.len() >= 2 && w[0] == 45 {
        Option::Some(SpecDelta::Remove(w.subrange(1, w.len() as int)))
    } else {
        Option::None
    }
}

/// Outcome of parsing the delta list: the deltas with the offset just after
/// the list's terminator, or the reason for rejection with the offset at
/// which parsing stopped.
pub enum RelTail {
    Match { deltas: Seq<SpecDelta>, end: int },
    Reject { err: ParseError, end: int },
}

/// The comma-separated, nonempty list of label deltas starting at `p`,
/// terminated by a dot, an end of line or the end of the input.
pub open spec fn deltas_from(t: Seq<u8>, p: int) -> RelTail
    decreases t.len() - p,
    via deltas_from_dec
{
    if !(0 <= p <= t.len() && t.len() <= usize::MAX) {
        RelTail::Reject { err: ParseError::ExpectedLabel, end: p }
    } else {
        match spec_tok(t, p) {
            TokStep::Fail => RelTail::Reject { err: ParseError::UnterminatedQuote, end: p },
            TokStep::End => RelTail::Reject { err: ParseError::ExpectedLabel, end: p },
            TokStep::Tok(tok, np) => match tok {
                Token::Word(a, b) => match delta_of(t.subrange(a as int, b as int)) {
                    Option::None => RelTail::Reject { err: ParseError::InvalidLabel, end: p },
                    Option::Some(d) => match spec_tok(t, np) {
                        TokStep::Fail => RelTail::Reject {
                            err: ParseError::UnterminatedQuote,
                            end: np,
                        },
                        TokStep::End => RelTail::Match {
                            deltas: seq![d],
                            end: t.len() as int,
                        },
                        TokStep::Tok(tok2, np2) => match tok2 {
                            Token::Dot => RelTail::Match { deltas: seq![d], end: np2 },
                            Token::EndOfLine => RelTail::Match { deltas: seq![d], end: np2 },
                            Token::Comma => match deltas_from(t, np2) {
                                RelTail::Match { deltas, end } => RelTail::Match {
                                    deltas: seq![d] + deltas,
                                    end,
                                },
                                RelTail::Reject { err, end } => RelTail::Reject { err, end },
                            },
                            _ => RelTail::Reject { err: ParseError::ExpectedSeparator, end: np },
                        },
                    },
                },
                _ => RelTail::Reject { err: ParseError::ExpectedLabel, end: p },
            },
        }
    }
}

#[via_fn]
proof fn deltas_from_dec(t: Seq<u8>, p: int) {
    if 0 <= p <= t.len() && t.len() <= usize::MAX {
        lemma_tok_advances(t, p);
        match spec_tok(t, p) {
            TokStep::Tok(tok, np) => {
                lemma_tok_advances(t, np);
            },
            _ => {},
        }
    }
}

/// Bounds of the delta-list outcome: a match ends strictly past `p` and a
/// rejection stops no earlier than `p`; neither runs past the end.
pub proof fn lemma_deltas_from_bounds(t: Seq<u8>, p: int)
    requires
        0 <= p <= t.len(),
        t.len() <= usize::MAX,
    ensures
        match deltas_from(t, p) {
            RelTail::Match { deltas, end } => p < end <= t.len(),
            RelTail::Reject { err, end } => p <= end <= t.len(),
        },
    decreases t.len() - p,
{
    lemma_tok_advances(t, p);
    match spec_tok(t, p) {
        TokStep::Tok(tok, np) => {
            lemma_tok_advances(t, np);
            match spec_tok(t, np) {
                TokStep::Tok(tok2, np2) => {
                    if tok2 == Token::Comma {
                        lemma_deltas_from_bounds(t, np2);
                    }
                },
                _ => {},
            }
        },
        _ => {},
    }
}

/// The text at `p` begins with the words `modify` and `labels`.
pub open spec fn relabel_claims(t: Seq<u8>, p: int) -> bool {
    &&& spec_tok(t, p) matches TokStep::Tok(Token::Word(a1, b1), p2)
    &&& t.subrange(a1 as int, b1 as int) == kw_modify()
    &&& spec_tok(t, p2) matches TokStep::Tok(Token::Word(a2, b2), p3)
    &&& t.subrange(a2 as int, b2 as int) == kw_labels()
}

/// The offset just after the two keyword words.
pub open spec fn relabel_kw_end(t: Seq<u8>, p: int) -> int {
    tok_after(t, tok_after(t, p))
}

/// Skips one optional `:` or `to` after the keyword.
pub open spec fn relabel_sep_end(t: Seq<u8>, p: int) -> int {
    match spec_tok(t, p) {
        TokStep::Tok(Token::Colon, np) => np,
        TokStep::Tok(Token::Word(a, b), np) => if t.subrange(a as int, b as int) == kw_to() {
            np
        } else {
            p
        },
        _ => p,
    }
}

/// The full attempt of the label grammar at `p`: silent unless both keyword
/// words are present, then committed to the outcome of the delta list.
pub open spec fn relabel_attempt(t: Seq<u8>, p: int) -> SpecReply {
    if !relabel_claims(t, p) {
        SpecReply::NotMine
    } else {
        match deltas_from(t, relabel_sep_end(t, relabel_kw_end(t, p))) {
            RelTail::Match { deltas, end } => SpecReply::Matched(SpecCmdVal::Relabel(deltas), end),
            RelTail::Reject { err, end } => SpecReply::Rejected(err, end),
        }
    }
}

/// Bounds of the attempt: any claimed outcome stops within `[p, t.len()]`,
/// and a match consumes at least one byte.
pub proof fn lemma_relabel_bounds(t: Seq<u8>, p: int)
    requires
        0 <= p <= t.len(),
        t.len() <= usize::MAX,
    ensures
        match relabel_attempt(t, p) {
            SpecReply::NotMine => true,
            SpecReply::Matched(v, end) => p < end <= t.len(),
            SpecReply::Rejected(err, end) => p <= end <= t.len(),
        },
{
    if relabel_claims(t, p) {
        lemma_tok_advances(t, p);
        let p2 = tok_after(t, p);
        lemma_tok_advances(t, p2);
        let p3 = tok_after(t, p2);
        lemma_tok_advances(t, p3);
        let p4 = relabel_sep_end(t, p3);
        lemma_deltas_from_bounds(t, p4);
    }
}

/// Outcome of one executable attempt of this grammar.
pub enum RelabelAttempt {
    NotMine,
    Matched(RelabelCommand, usize),
    Rejected(ParseError, usize),
}

fn kw_modify_vec() -> (v: Vec<u8>)
    ensures
        v@ == kw_modify(),
{
    let mut v: Vec<u8> = Vec::new();
    v.push(109);
    v.push(111);
    v.push(100);
    v.push(105);
    v.push(102);
    v.push(121);
    proof {
        assert(v@ =~= kw_modify());
    }
    v
}

fn kw_labels_vec() -> (v: Vec<u8>)
    ensures
        v@ == kw_labels(),
{
    let mut v: Vec<u8> = Vec::new();
    v.push(108);
    v.push(97);
    v.push(98);
    v.push(101);
    v.push(108);
    v.push(115);
    proof {
        assert(v@ =~= kw_labels());
    }
    v
}

pub(crate) fn kw_to_vec() -> (v: Vec<u8>)
    ensures
        v@ == kw_to(),
{
    let mut v: Vec<u8> = Vec::new();
    v.push(116);
    v.push(111);
    proof {
        assert(v@ =~= kw_to());
    }
    v
}

/// Parses the nonempty delta list at `p`, returning the deltas or the reason
/// for rejection, together with the offset at which parsing stopped.
fn parse_deltas(text: &Vec<u8>, p: usize) -> (r: (Result<Vec<LabelDelta>, ParseError>, usize))
    requires
        p <= text@.len(),
    ensures
        match deltas_from(text@, p as int) {
            RelTail::Match { deltas, end } => r.0 matches Ok(v) && deltas_view(v@) == deltas
                && r.1 as int == end,
            RelTail::Reject { err, end } => r.0 matches Err(e) && e == err && r.1 as int == end,
        },
    decreases text@.len() - p,
{
    // recording the text's length brings its usize bound into scope
    let tlen = text.len();
    proof {
        assert(tlen <= usize::MAX);
    }
    let mut tok = Tokenizer::new(p);
    proof {
        lemma_tok_advances(text@, p as int);
    }
    match tok.next_token(text) {
        Err(_) => (Err(ParseError::UnterminatedQuote), p),
        Ok(None) => (Err(ParseError::ExpectedLabel), p),
        Ok(Some(Token::Word(a, b))) => {
            let ghost w = text@.subrange(a as int, b as int);
            let d: LabelDelta;
            if b - a >= 2 && text[a] == 43 {
                d = LabelDelta::Add(copy_range(text, a + 1, b));
            } else if b - a >= 2 && text[a] == 45 {
                d = LabelDelta::Remove(copy_range(text, a + 1, b));
            } else {
                proof {
                    assert(w.len() == b - a);
                    assert(w[0] == text@[a as int]) by {
                        assert(b - a >= 1);
                    }
                    assert(delta_of(w) is None);
                }
                return (Err(ParseError::InvalidLabel), p);
            }
            proof {
                assert(w[0] == text@[a as int]);
                assert(w.subrange(1, w.len() as int) =~= text@.subrange(a + 1, b as int));
                assert(delta_of(w) == Option::Some(d@));
            }
            let np = tok.position();
            proof {
                lemma_tok_advances(text@, np as int);
            }
            match tok.next_token(text) {
                Err(_) => (Err(ParseError::UnterminatedQuote), np),
                Ok(None) => {
                    let mut v: Vec<LabelDelta> = Vec::new();
                    v.push(d);
                    proof {
                        assert(deltas_view(v@) =~= seq![d@]);
                    }
                    (Ok(v), tok.position())
                },
                Ok(Some(Token::Dot)) => {
                    let mut v: Vec<LabelDelta> = Vec::new();
                    v.push(d);
                    proof {
                        assert(deltas_view(v@) =~= seq![d@]);
                    }
                    (Ok(v), tok.position())
                },
                Ok(Some(Token::EndOfLine)) => {
                    let mut v: Vec<LabelDelta> = Vec::new();
                    v.push(d);
                    proof {
                        assert(deltas_view(v@) =~= seq![d@]);
                    }
                    (Ok(v), tok.position())
                },
                Ok(Some(Token::Comma)) => {
                    let (rest, end) = parse_deltas(text, tok.position());
                    match rest {
                        Ok(tail) => {
                            let ghost before = tail@;
                            let mut v = tail;
                            v.insert(0, d);
                            proof {
                                assert(deltas_view(v@) =~= seq![d@] + deltas_view(before));
                            }
                            (Ok(v), end)
                        },
                        Err(e) => (Err(e), end),
                    }
                },
                Ok(Some(_)) => (Err(ParseError::ExpectedSeparator), np),
            }
        },
        Ok(Some(_)) => (Err(ParseError::ExpectedLabel), p),
    }
}

/// One attempt of the label grammar on `text` starting at `p`, exactly as
/// [`relabel_attempt`] describes it.
pub fn parse_relabel(text: &Vec<u8>, p: usize) -> (r: RelabelAttempt)
    requires
        p <= text@.len(),
    ensures
        match relabel_attempt(text@, p as int) {
            SpecReply::NotMine => r is NotMine,
            SpecReply::Matched(v, e) => r matches RelabelAttempt::Matched(cmd, end) && (
            v matches SpecCmdVal::Relabel(ds) && cmd@ == ds) && end as int == e,
            SpecReply::Rejected(err, e) => r matches RelabelAttempt::Rejected(e2, end) && e2 == err
                && end as int == e,
        },
{
    // recording the text's length brings its usize bound into scope
    let tlen = text.len();
    proof {
        assert(tlen <= usize::MAX);
    }
    let mut tok = Tokenizer::new(p);
    proof {
        lemma_tok_advances(text@, p as int);
    }
    let kw1 = kw_modify_vec();
    let claimed1 = match tok.next_token(text) {
        Ok(Some(Token::Word(a, b))) => range_eq(text, a, b, &kw1),
        _ => false,
    };
    if !claimed1 {
        return RelabelAttempt::NotMine;
    }
    proof {
        lemma_tok_advances(text@, tok.pos as int);
    }
    let kw2 = kw_labels_vec();
    let claimed2 = match tok.next_token(text) {
        Ok(Some(Token::Word(a, b))) => range_eq(text, a, b, &kw2),
        _ => false,
    };
    if !claimed2 {
        return RelabelAttempt::NotMine;
    }
    proof {
        assert(relabel_claims(text@, p as int));
        assert(tok.pos as int == relabel_kw_end(text@, p as int));
        lemma_tok_advances(text@, tok.pos as int);
    }
    // optional `:` or `to`
    let save = tok;
    let kwt = kw_to_vec();
    let sep = match tok.next_token(text) {
        Ok(Some(Token::Colon)) => true,
        Ok(Some(Token::Word(a, b))) => range_eq(text, a, b, &kwt),
        _ => false,
    };
    if !sep {
        tok = save;
    }
    proof {
        assert(tok.pos as int == relabel_sep_end(text@, relabel_kw_end(text@, p as int)));
    }
    let (res, end) = parse_deltas(text, tok.position());
    match res {
        Ok(v) => RelabelAttempt::Matched(RelabelCommand { deltas: v }, end),
        Err(e) => RelabelAttempt::Rejected(e, end),
    }
}

} // verus!
