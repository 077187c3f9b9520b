//! The assignment grammar: `assign to: name.`
//!
//! The keyword is the single word `assign`. After it an optional `to` and an
//! optional `:` are skipped, then one word names the assignee; the command
//! ends at a `.`, at the end of a line or at the end of the input. As with
//! every grammar, once the keyword is seen any flaw is a rejection, never
//! silence.

use crate::error::ParseError;
use crate::grammar::{kw_to, SpecCmdVal, SpecReply};
use crate::relabel::kw_to_vec;
use crate::token::{
    copy_range, lemma_tok_advances, range_eq, spec_tok, tok_after, Token, TokStep, Tokenizer,
};
use vstd::prelude::*;

verus! {

/// A parsed assignment command, carrying the assignee's name.
#[derive(Clone, PartialEq, Eq, Debug)]
pub struct AssignCommand {
    pub user: Vec<u8>,
}

impl View for AssignCommand {
    type V = Seq<u8>;

    open spec fn view(&self) -> Seq<u8> {
        self.user@
    }
}

/// The bytes of the keyword `assign`.
pub open spec fn kw_assign() -> Seq<u8> {
    seq![97u8, 115u8, 115u8, 105u8, 103u8, 110u8]
}

/// The text at `p` begins with the word `assign`.
pub open spec fn assign_claims(t: Seq<u8>, p: int) -> bool {
    spec_tok(t, p) matches TokStep::Tok(Token::Word(a, b), np) && t.subrange(a as int, b as int)
        == kw_assign()
}

/// Skips one optional word `to`.
pub open spec fn assign_to_end(t: Seq<u8>, p: int) -> int {
    match spec_tok(t, p) {
        TokStep::Tok(Token::Word(a, b), np) => if t.subrange(a as int, b as int) == kw_to() {
            np
        } else {
            p
        },
        _ => p,
    }
}

/// Skips one optional `:`.
pub open spec fn assign_colon_end(t: Seq<u8>, p: int) -> int {
    match spec_tok(t, p) {
        TokStep::Tok(Token::Colon, np) => np,
        _ => p,
    }
}

/// Outcome of parsing the assignee: the name with the offset just after the
/// command's terminator, or the reason for rejection with the offset at
/// which parsing stopped.
pub enum AsgTail {
    Match { user: Seq<u8>, end: int },
    Reject { err: ParseError, end: int },
}

/// The assignee word at `p`, terminated by a dot, an end of line or the end
/// of the input.
pub open spec fn assign_tail_from(t: Seq<u8>, p: int) -> AsgTail {
    match spec_tok(t, p) {
        TokStep::Fail => AsgTail::Reject { err: ParseError::UnterminatedQuote, end: p },
        TokStep::End => AsgTail::Reject { err: ParseError::ExpectedUser, end: p },
        TokStep::Tok(tok, np) => match tok {
            Token::Word(a, b) => match spec_tok(t, np) {
                TokStep::Fail => AsgTail::Reject { err: ParseError::UnterminatedQuote, end: np },
                TokStep::End => AsgTail::Match {
                    user: t.subrange(a as int, b as int),
                    end: t.len() as int,
                },
                TokStep::Tok(tok2, np2) => match tok2 {
                    Token::Dot => AsgTail::Match {
                        user: t.subrange(a as int, b as int),
                        end: np2,
                    },
                    Token::EndOfLine => AsgTail::Match {
                        user: t.subrange(a as int, b as int),
                        end: np2,
                    },
                    _ => AsgTail::Reject { err: ParseError::ExpectedEnd, end: np },
                },
            },
            _ => AsgTail::Reject { err: ParseError::ExpectedUser, end: p },
        },
    }
}

/// The full attempt of the assignment grammar at `p`: silent unless the
/// keyword is present, then committed to the outcome of the assignee.
pub open spec fn assign_attempt(t: Seq<u8>, p: int) -> SpecReply {
    if !assign_claims(t, p) {
        SpecReply::NotMine
    } else {
        match assign_tail_from(
            t,
            assign_colon_end(t, assign_to_end(t, tok_after(t, p))),
        ) {
            AsgTail::Match { user, end } => SpecReply::Matched(SpecCmdVal::Assign(user), end),
            AsgTail::Reject { err, end } => SpecReply::Rejected(err, end),
        }
    }
}

/// Bounds of the attempt: any claimed outcome stops within `[p, t.len()]`,
/// and a match consumes at least one byte.
pub proof fn lemma_assign_bounds(t: Seq<u8>, p: int)
    requires
        0 <= p <= t.len(),
        t.len() <= usize::MAX,
    ensures
        match assign_attempt(t, p) {
            SpecReply::NotMine => true,
            SpecReply::Matched(v, end) => p < end <= t.len(),
            SpecReply::Rejected(err, end) => p <= end <= t.len(),
        },
{
    if assign_claims(t, p) {
        lemma_tok_advances(t, p);
        let p1 = tok_after(t, p);
        lemma_tok_advances(t, p1);
        let p2 = assign_to_end(t, p1);
        lemma_tok_advances(t, p2);
        let p3 = assign_colon_end(t, p2);
        lemma_tok_advances(t, p3);
        let p4 = tok_after(t, p3);
        lemma_tok_advances(t, p4);
    }
}

/// Outcome of one executable attempt of this grammar.
pub enum AssignAttempt {
    NotMine,
    Matched(AssignCommand, usize),
    Rejected(ParseError, usize),
}

fn kw_assign_vec() -> (v: Vec<u8>)
    ensures
        v@ == kw_assign(),
{
    let mut v: Vec<u8> = Vec::new();
    v.push(97);
    v.push(115);
    v.push(115);
    v.push(105);
    v.push(103);
    v.push(110);
    proof {
        assert(v@ =~= kw_assign());
    }
    v
}

/// One attempt of the assignment grammar on `text` starting at `p`, exactly
/// as [`assign_attempt`] describes it.
pub fn parse_assign(text: &Vec<u8>, p: usize) -> (r: AssignAttempt)
    requires
        p <= text@.len(),
    ensures
        match assign_attempt(text@, p as int) {
            SpecReply::NotMine => r is NotMine,
            SpecReply::Matched(v, e) => r matches AssignAttempt::Matched(cmd, end) && (
            v matches SpecCmdVal::Assign(u) && cmd@ == u) && end as int == e,
            SpecReply::Rejected(err, e) => r matches AssignAttempt::Rejected(e2, end) && e2 == err
                && end as int == e,
        },
{
    // recording the text's length brings its usize bound into scope
    let tlen = text.len();
    proof {
        assert(tlen <= usize::MAX);
    }
    let mut tok = Tokenizer::new(p);
    proof {
        lemma_tok_advances(text@, p as int);
    }
    let kw = kw_assign_vec();
    let claimed = match tok.next_token(text) {
        Ok(Some(Token::Word(a, b))) => range_eq(text, a, b, &kw),
        _ => false,
    };
    if !claimed {
        return AssignAttempt::NotMine;
    }
    proof {
        assert(assign_claims(text@, p as int));
        lemma_tok_advances(text@, tok.pos as int);
    }
    // optional `to`
    let save1 = tok;
    let kwt = kw_to_vec();
    let got_to = match tok.next_token(text) {
        Ok(Some(Token::Word(a, b))) => range_eq(text, a, b, &kwt),
        _ => false,
    };
    if !got_to {
        tok = save1;
    }
    proof {
        assert(tok.pos as int == assign_to_end(text@, tok_after(text@, p as int)));
        lemma_tok_advances(text@, tok.pos as int);
    }
    // optional `:`
    let save2 = tok;
    let got_colon = match tok.next_token(text) {
        Ok(Some(Token::Colon)) => true,
        _ => false,
    };
    if !got_colon {
        tok = save2;
    }
    let p3 = tok.position();
    proof {
        assert(p3 as int == assign_colon_end(
            text@,
            assign_to_end(text@, tok_after(text@, p as int)),
        ));
        lemma_tok_advances(text@, p3 as int);
    }
    match tok.next_token(text) {
        Err(_) => AssignAttempt::Rejected(ParseError::UnterminatedQuote, p3),
        Ok(None) => AssignAttempt::Rejected(ParseError::ExpectedUser, p3),
        Ok(Some(Token::Word(a, b))) => {
            let user = copy_range(text, a, b);
            let np = tok.position();
            proof {
                lemma_tok_advances(text@, np as int);
            }
            match tok.next_token(text) {
                Err(_) => AssignAttempt::Rejected(ParseError::UnterminatedQuote, np),
                Ok(None) => AssignAttempt::Matched(AssignCommand { user }, tok.position()),
                Ok(Some(Token::Dot)) => AssignAttempt::Matched(AssignCommand { user }, tok.position()),
                Ok(Some(Token::EndOfLine)) => AssignAttempt::Matched(
                    AssignCommand { user },
                    tok.position(),
                ),
                Ok(Some(_)) => AssignAttempt::Rejected(ParseError::ExpectedEnd, np),
            }
        },
        Ok(Some(_)) => AssignAttempt::Rejected(ParseError::ExpectedUser, p3),
    }
}

} // verus!
