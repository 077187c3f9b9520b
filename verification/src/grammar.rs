//! The registry of command grammars and what it means for one to claim a
//! command.
//!
//! A grammar must not consume any token before confirming its keyword; once
//! the keyword is confirmed it commits to a match or to a rejection, never to
//! silence. A claim is therefore decided by the keyword alone, which is what
//! makes ambiguity detection meaningful: two registered grammars claiming the
//! same command is a configuration fault of the registry, not of the input.

use crate::assign;
use crate::error::ParseError;
use crate::relabel;
use vstd::prelude::*;

verus! {

/// The command kinds a dispatcher can register. The dispatch algorithm is
/// independent of the registered set, so a registry may hold any number of
/// kinds, in any order, including duplicates (which are then reported as
/// ambiguous on matching text).
#[derive(Clone, Copy, PartialEq, Eq, Structural, Debug)]
pub enum GrammarKind {
    Relabel,
    Assign,
}

/// The keyword `to`, shared by several grammars as an optional filler word.
pub open spec fn kw_to() -> Seq<u8> {
    seq![116u8, 111u8]
}

/// The value a successful grammar attempt carries, at specification level.
pub enum SpecCmdVal {
    Relabel(Seq<relabel::SpecDelta>),
    Assign(Seq<u8>),
}

/// Outcome of one grammar attempt at offset `p`: the grammar did not
/// recognize its keyword, or it matched a command ending at the given offset,
/// or it recognized its keyword and rejected the rest, having looked no
/// further than the given offset.
pub enum SpecReply {
    NotMine,
    Matched(SpecCmdVal, int),
    Rejected(ParseError, int),
}

/// The outcome of grammar `g` on the tokens of `t` starting at `p`.
pub open spec fn grammar_attempt(g: GrammarKind, t: Seq<u8>, p: int) -> SpecReply {
    match g {
        GrammarKind::Relabel => relabel::relabel_attempt(t, p),
        GrammarKind::Assign => assign::assign_attempt(t, p),
    }
}

/// Grammar `g` claims the command at `p`: it recognizes its keyword there,
/// and so commits to a match or a rejection.
pub open spec fn claims(g: GrammarKind, t: Seq<u8>, p: int) -> bool {
    !(grammar_attempt(g, t, p) is NotMine)
}

/// How many grammars of the registry `gs` claim the command at `p`.
pub open spec fn claim_count(gs: Seq<GrammarKind>, t: Seq<u8>, p: int) -> nat
    decreases gs.len(),
{
    if gs.len() == 0 {
        0
    } else {
        (if claims(gs[0], t, p) {
            1nat
        } else {
            0nat
        }) + claim_count(gs.drop_first(), t, p)
    }
}

/// The first grammar of `gs`, in registry order, that claims the command at
/// `p`. Meaningful only when at least one does.
pub open spec fn first_claimer(gs: Seq<GrammarKind>, t: Seq<u8>, p: int) -> GrammarKind
    decreases gs.len(),
{
    if gs.len() == 0 {
        GrammarKind::Relabel
    } else if claims(gs[0], t, p) {
        gs[0]
    } else {
        first_claimer(gs.drop_first(), t, p)
    }
}

pub proof fn lemma_claim_count_push(gs: Seq<GrammarKind>, g: GrammarKind, t: Seq<u8>, p: int)
    ensures
        claim_count(gs.push(g), t, p) == claim_count(gs, t, p) + (if claims(g, t, p) {
            1nat
        } else {
            0nat
        }),
    decreases gs.len(),
{
    if gs.len() == 0 {
        assert(gs.push(g)[0] == g);
        assert(gs.push(g).drop_first() =~= Seq::<GrammarKind>::empty());
    } else {
        assert(gs.push(g)[0] == gs[0]);
        assert(gs.push(g).drop_first() =~= gs.drop_first().push(g));
        lemma_claim_count_push(gs.drop_first(), g, t, p);
    }
}

pub proof fn lemma_first_claimer_push(gs: Seq<GrammarKind>, g: GrammarKind, t: Seq<u8>, p: int)
    ensures
        claim_count(gs, t, p) == 0 && claims(g, t, p) ==> first_claimer(gs.push(g), t, p) == g,
        claim_count(gs, t, p) >= 1 ==> first_claimer(gs.push(g), t, p) == first_claimer(gs, t, p),
    decreases gs.len(),
{
    if gs.len() == 0 {
        assert(gs.push(g)[0] == g);
    } else {
        assert(gs.push(g)[0] == gs[0]);
        assert(gs.push(g).drop_first() =~= gs.drop_first().push(g));
        lemma_first_claimer_push(gs.drop_first(), g, t, p);
    }
}

pub proof fn lemma_first_claimer_claims(gs: Seq<GrammarKind>, t: Seq<u8>, p: int)
    requires
        claim_count(gs, t, p) >= 1,
    ensures
        claims(first_claimer(gs, t, p), t, p),
    decreases gs.len(),
{
    if gs.len() > 0 && !claims(gs[0], t, p) {
        lemma_first_claimer_claims(gs.drop_first(), t, p);
    }
}

} // verus!
