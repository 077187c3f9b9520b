//! The dispatcher: marker discovery, grammar fan-out, ambiguity detection,
//! code-span exclusion and the cursor-advancement policy.
//!
//! A caller repeatedly invokes [`Input::parse_command`] until it reports that
//! nothing was found. The cursor advances only past a successful match: a
//! rejection or an ambiguity leaves it where it was, so either result is a
//! terminal signal for the text — calling again would find the same marker
//! and answer identically, not skip ahead.
//!
//! The whole outcome of one call, including the new cursor, is the value of
//! the specification function [`spec_parse`].

use crate::assign::{lemma_assign_bounds, parse_assign, AssignAttempt, AssignCommand};
use crate::code_block::{
    code_spans_of, lemma_overlap_exists, ranges_intersect, spans_overlap, ColorCodeBlocks,
};
use crate::error::ParseError;
use crate::grammar::{
    claim_count, claims, first_claimer, grammar_attempt, lemma_claim_count_push,
    lemma_first_claimer_claims, lemma_first_claimer_push, GrammarKind, SpecCmdVal, SpecReply,
};
use crate::relabel::{
    lemma_relabel_bounds, parse_relabel, RelabelAttempt, RelabelCommand, SpecDelta,
};
use crate::token::{
    lemma_tok_advances, range_eq, copy_range, spec_tok, tok_after, Token, TokStep, Tokenizer,
};
use vstd::prelude::*;
use vstd::string::{StrSliceExecFns, StringSliceAdditionalSpecFns};

verus! {

/// The invocation marker: `@` followed by the bot's handle.
pub open spec fn marker_seq(bot: Seq<u8>) -> Seq<u8> {
    seq![64u8] + bot
}

/// The marker occurs in `t` at offset `i`.
pub open spec fn marker_at(t: Seq<u8>, bot: Seq<u8>, i: int) -> bool {
    0 <= i && i + 1 + bot.len() <= t.len() && t.subrange(i, i + 1 + bot.len()) == marker_seq(bot)
}

/// The first occurrence of the marker at or after `i`, if any.
pub open spec fn find_marker(t: Seq<u8>, bot: Seq<u8>, i: int) -> Option<int>
    decreases t.len() - i,
{
    if !(0 <= i && i + 1 + bot.len() <= t.len()) {
        Option::None
    } else if marker_at(t, bot, i) {
        Option::Some(i)
    } else {
        find_marker(t, bot, i + 1)
    }
}

pub proof fn lemma_find_marker(t: Seq<u8>, bot: Seq<u8>, i: int)
    requires
        0 <= i,
    ensures
        match find_marker(t, bot, i) {
            Option::Some(p) => i <= p && marker_at(t, bot, p) && forall|j: int|
                i <= j < p ==> !marker_at(t, bot, j),
            Option::None => forall|j: int| j >= i ==> !marker_at(t, bot, j),
        },
    decreases t.len() - i,
{
    if 0 <= i && i + 1 + bot.len() <= t.len() && !marker_at(t, bot, i) {
        lemma_find_marker(t, bot, i + 1);
    }
}

/// The marker occurs at `i` exactly when an `@` byte there is followed by
/// the handle's bytes.
proof fn lemma_marker_decompose(t: Seq<u8>, bot: Seq<u8>, i: int)
    requires
        0 <= i,
        i + 1 + bot.len() <= t.len(),
    ensures
        marker_at(t, bot, i) <==> (t[i] == 64 && t.subrange(i + 1, i + 1 + bot.len() as int)
            == bot),
{
    if t[i] == 64 && t.subrange(i + 1, i + 1 + bot.len() as int) == bot {
        assert(t.subrange(i, i + 1 + bot.len() as int) =~= marker_seq(bot)) by {
            assert forall|k: int| 0 <= k < 1 + bot.len() implies t.subrange(
                i,
                i + 1 + bot.len() as int,
            )[k] == marker_seq(bot)[k] by {
                if k >= 1 {
                    assert(t.subrange(i + 1, i + 1 + bot.len() as int)[k - 1] == t[i + k]);
                }
            }
        }
    }
    if marker_at(t, bot, i) {
        assert(t[i] == t.subrange(i, i + 1 + bot.len() as int)[0]);
        assert(t.subrange(i + 1, i + 1 + bot.len() as int) =~= bot) by {
            assert forall|k: int| 0 <= k < bot.len() implies t.subrange(
                i + 1,
                i + 1 + bot.len() as int,
            )[k] == bot[k] by {
                assert(t.subrange(i, i + 1 + bot.len() as int)[k + 1] == t[i + 1 + k]);
            }
        }
    }
}

/// First occurrence of the marker in `text` at or after `from`, executable.
fn find_marker_x(text: &Vec<u8>, bot: &Vec<u8>, from: usize) -> (r: Option<usize>)
    requires
        from <= text@.len(),
    ensures
        match r {
            Option::Some(p) => find_marker(text@, bot@, from as int) == Option::Some(p as int)
                && from <= p && p + 1 + bot@.len() <= text@.len(),
            Option::None => find_marker(text@, bot@, from as int) is None,
        },
{
    let n = text.len();
    let bl = bot.len();
    let mut i = from;
    while i < n && n - i > bl
        invariant
            from <= i <= n,
            n == text@.len(),
            bl == bot@.len(),
            find_marker(text@, bot@, from as int) == find_marker(text@, bot@, i as int),
        decreases n - i,
    {
        proof {
            lemma_marker_decompose(text@, bot@, i as int);
        }
        if text[i] == 64 && range_eq(text, i + 1, i + 1 + bl, bot) {
            proof {
                assert(marker_at(text@, bot@, i as int));
            }
            return Some(i);
        }
        proof {
            assert(!marker_at(text@, bot@, i as int));
        }
        i += 1;
    }
    None
}

/// Byte offset of the first occurrence of `@` followed by `bot` in `input`,
/// if any.
pub fn find_commmand_start(input: &str, bot: &str) -> (r: Option<usize>)
    ensures
        match find_marker(input.spec_bytes(), bot.spec_bytes(), 0) {
            Option::Some(p) => r matches Option::Some(q) && q as int == p,
            Option::None => r is None,
        },
{
    let text = input.as_bytes_vec();
    let botv = bot.as_bytes_vec();
    find_marker_x(&text, &botv, 0)
}

/// The token at `p` is a word equal to the whole marker. This guards against
/// substring hits that do not begin a standalone marker word; a hit whose
/// word runs further (the handle being a prefix of a longer word) is treated
/// as no command at all.
pub open spec fn marker_word(t: Seq<u8>, bot: Seq<u8>, p: int) -> bool {
    &&& spec_tok(t, p) matches TokStep::Tok(Token::Word(a, b), np)
    &&& a == p
    &&& t.subrange(a as int, b as int) == marker_seq(bot)
}

/// Specification counterpart of [`Command`].
pub enum SpecCommand {
    Relabel(Result<Seq<SpecDelta>, ParseError>),
    Assign(Result<Seq<u8>, ParseError>),
    Ambiguous,
    Nothing,
}

/// The outcome of one dispatch call: which grammar (if any) claimed the
/// command, and whether it succeeded or rejected it; `Ambiguous` reports the
/// registry fault of several grammars claiming the same command; `Nothing`
/// means no command was found (no marker, no claiming grammar, or a match
/// suppressed by code formatting).
#[derive(Debug)]
pub enum Command {
    Relabel(Result<RelabelCommand, ParseError>),
    Assign(Result<AssignCommand, ParseError>),
    Ambiguous,
    Nothing,
}

impl View for Command {
    type V = SpecCommand;

    open spec fn view(&self) -> SpecCommand {
        match self {
            Command::Relabel(res) => SpecCommand::Relabel(
                match res {
                    Ok(c) => Ok(c@),
                    Err(e) => Err(*e),
                },
            ),
            Command::Assign(res) => SpecCommand::Assign(
                match res {
                    Ok(c) => Ok(c@),
                    Err(e) => Err(*e),
                },
            ),
            Command::Ambiguous => SpecCommand::Ambiguous,
            Command::Nothing => SpecCommand::Nothing,
        }
    }
}

/// A successful or an absent match: true unless a grammar rejected the
/// command or dispatch was ambiguous.
pub open spec fn spec_is_ok(c: SpecCommand) -> bool {
    match c {
        SpecCommand::Relabel(res) => res is Ok,
        SpecCommand::Assign(res) => res is Ok,
        SpecCommand::Ambiguous => false,
        SpecCommand::Nothing => true,
    }
}

/// A successful match of some grammar.
pub open spec fn spec_is_success(c: SpecCommand) -> bool {
    match c {
        SpecCommand::Relabel(res) => res is Ok,
        SpecCommand::Assign(res) => res is Ok,
        SpecCommand::Ambiguous => false,
        SpecCommand::Nothing => false,
    }
}

impl Command {
    /// True unless a grammar rejected the command or dispatch was ambiguous.
    pub fn is_ok(&self) -> (r: bool)
        ensures
            r == spec_is_ok(self@),
    {
        match self {
            Command::Relabel(res) => res.is_ok(),
            Command::Assign(res) => res.is_ok(),
            Command::Ambiguous => false,
            Command::Nothing => true,
        }
    }

    /// A grammar rejected the command, or dispatch was ambiguous.
    pub fn is_err(&self) -> (r: bool)
        ensures
            r == !spec_is_ok(self@),
    {
        !self.is_ok()
    }

    /// No command was found.
    pub fn is_none(&self) -> (r: bool)
        ensures
            r == (self@ is Nothing),
    {
        match self {
            Command::Nothing => true,
            _ => false,
        }
    }

    /// Several registered grammars claimed the same command.
    pub fn is_ambiguous(&self) -> (r: bool)
        ensures
            r == (self@ is Ambiguous),
    {
        match self {
            Command::Ambiguous => true,
            _ => false,
        }
    }
}

/// The command a claiming grammar reports at `p`, tagged with its kind.
pub open spec fn claimed_cmd(g: GrammarKind, t: Seq<u8>, p: int) -> SpecCommand {
    match grammar_attempt(g, t, p) {
        SpecReply::Matched(v, e) => match v {
            SpecCmdVal::Relabel(ds) => SpecCommand::Relabel(Ok(ds)),
            SpecCmdVal::Assign(u) => SpecCommand::Assign(Ok(u)),
        },
        SpecReply::Rejected(err, e) => match g {
            GrammarKind::Relabel => SpecCommand::Relabel(Err(err)),
            GrammarKind::Assign => SpecCommand::Assign(Err(err)),
        },
        SpecReply::NotMine => SpecCommand::Nothing,
    }
}

/// The offset up to which a claiming grammar consumed or examined the text.
pub open spec fn claimed_end(g: GrammarKind, t: Seq<u8>, p: int) -> int {
    match grammar_attempt(g, t, p) {
        SpecReply::Matched(v, e) => e,
        SpecReply::Rejected(err, e) => e,
        SpecReply::NotMine => p,
    }
}

/// The claiming grammar matched (rather than rejected) the command.
pub open spec fn claimed_ok(g: GrammarKind, t: Seq<u8>, p: int) -> bool {
    grammar_attempt(g, t, p) is Matched
}

pub proof fn lemma_claimed_bounds(g: GrammarKind, t: Seq<u8>, p: int)
    requires
        0 <= p <= t.len(),
        t.len() <= usize::MAX,
    ensures
        p <= claimed_end(g, t, p) <= t.len(),
        claimed_ok(g, t, p) ==> p < claimed_end(g, t, p),
{
    match g {
        GrammarKind::Relabel => lemma_relabel_bounds(t, p),
        GrammarKind::Assign => lemma_assign_bounds(t, p),
    }
}

/// Outcome of one executable grammar attempt during fan-out.
enum Attempt {
    NotMine,
    Claimed(Command, usize),
}

/// Runs one registered grammar on its own tokenizer snapshot.
fn run_grammar(g: GrammarKind, text: &Vec<u8>, p: usize) -> (r: Attempt)
    requires
        p <= text@.len(),
    ensures
        if claims(g, text@, p as int) {
            r matches Attempt::Claimed(cmd, end) && cmd@ == claimed_cmd(g, text@, p as int)
                && end as int == claimed_end(g, text@, p as int)
        } else {
            r is NotMine
        },
{
    match g {
        GrammarKind::Relabel => match parse_relabel(text, p) {
            RelabelAttempt::NotMine => Attempt::NotMine,
            RelabelAttempt::Matched(cmd, end) => Attempt::Claimed(Command::Relabel(Ok(cmd)), end),
            RelabelAttempt::Rejected(err, end) => Attempt::Claimed(
                Command::Relabel(Err(err)),
                end,
            ),
        },
        GrammarKind::Assign => match parse_assign(text, p) {
            AssignAttempt::NotMine => Attempt::NotMine,
            AssignAttempt::Matched(cmd, end) => Attempt::Claimed(Command::Assign(Ok(cmd)), end),
            AssignAttempt::Rejected(err, end) => Attempt::Claimed(Command::Assign(Err(err)), end),
        },
    }
}

/// Result of one dispatch call at specification level: the command reported
/// and the cursor after the call.
pub struct SpecParse {
    pub cmd: SpecCommand,
    pub cursor: int,
}

/// The complete behaviour of one dispatch call on text `t` with cursor
/// `cur`, handle `bot`, registry `gs` and code spans `spans`: marker
/// discovery, the marker-word guard, grammar fan-out, the ambiguity check,
/// code-span exclusion, and the cursor policy (only a successful match moves
/// the cursor, to the end of what the winning grammar consumed).
pub open spec fn spec_parse(
    t: Seq<u8>,
    cur: int,
    bot: Seq<u8>,
    gs: Seq<GrammarKind>,
    spans: Seq<(usize, usize)>,
) -> SpecParse {
    match find_marker(t, bot, cur) {
        Option::None => SpecParse { cmd: SpecCommand::Nothing, cursor: cur },
        Option::Some(p) => if !marker_word(t, bot, p) {
            SpecParse { cmd: SpecCommand::Nothing, cursor: cur }
        } else {
            let q = tok_after(t, p);
            let n = claim_count(gs, t, q);
            if n == 0 {
                SpecParse { cmd: SpecCommand::Nothing, cursor: cur }
            } else if n >= 2 {
                SpecParse { cmd: SpecCommand::Ambiguous, cursor: cur }
            } else {
                let g = first_claimer(gs, t, q);
                let e = claimed_end(g, t, q);
                if spans_overlap(spans, p, e) {
                    SpecParse { cmd: SpecCommand::Nothing, cursor: cur }
                } else if claimed_ok(g, t, q) {
                    SpecParse { cmd: claimed_cmd(g, t, q), cursor: e }
                } else {
                    SpecParse { cmd: claimed_cmd(g, t, q), cursor: cur }
                }
            }
        },
    }
}

/// The dispatcher. It owns one text, the code-span index computed from it,
/// the bot's handle, the grammar registry, and the cursor marking the start
/// of the unconsumed remainder.
#[derive(Debug)]
pub struct Input {
    all: Vec<u8>,
    parsed: usize,
    code: ColorCodeBlocks,
    bot: Vec<u8>,
    grammars: Vec<GrammarKind>,
}

fn marker_vec(bot: &Vec<u8>) -> (v: Vec<u8>)
    ensures
        v@ == marker_seq(bot@),
{
    let mut v: Vec<u8> = Vec::new();
    v.push(64);
    let mut k: usize = 0;
    while k < bot.len()
        invariant
            k <= bot@.len(),
            v@.len() == 1 + k,
            v@[0] == 64u8,
            forall|j: int| 0 <= j < k ==> v@[1 + j] == bot@[j],
        decreases bot@.len() - k,
    {
        v.push(bot[k]);
        k += 1;
    }
    proof {
        assert(v@ =~= marker_seq(bot@));
    }
    v
}

impl Input {
    /// The full text, as bytes; never mutated after construction.
    pub closed spec fn text(&self) -> Seq<u8> {
        self.all@
    }

    /// The cursor: the byte offset where the unconsumed remainder starts.
    pub closed spec fn cursor(&self) -> int {
        self.parsed as int
    }

    /// The bot's handle, without the leading `@`.
    pub closed spec fn bot_name(&self) -> Seq<u8> {
        self.bot@
    }

    /// The code spans computed at construction.
    pub closed spec fn code_spans(&self) -> Seq<(usize, usize)> {
        self.code.spans()
    }

    /// The registered grammars, in registry order.
    pub closed spec fn grammar_seq(&self) -> Seq<GrammarKind> {
        self.grammars@
    }

    /// The cursor lies within the text and the stored spans are well-formed.
    pub closed spec fn wf(&self) -> bool {
        self.parsed as int <= self.all@.len() && self.code.wf(self.all@.len() as int)
    }

    /// A dispatcher over `input` for the handle `bot`, with the two standard
    /// grammars registered, the cursor at the start and the code spans
    /// computed from the full text: construction is a pure function of its
    /// two arguments.
    pub fn new(input: &str, bot: &str) -> (r: Input)
        ensures
            r.wf(),
            r.text() == input.spec_bytes(),
            r.cursor() == 0,
            r.bot_name() == bot.spec_bytes(),
            r.grammar_seq() == seq![GrammarKind::Relabel, GrammarKind::Assign],
            r.code_spans() == code_spans_of(input.spec_bytes()),
    {
        let all = input.as_bytes_vec();
        let code = ColorCodeBlocks::new(&all);
        let mut grammars: Vec<GrammarKind> = Vec::new();
        grammars.push(GrammarKind::Relabel);
        grammars.push(GrammarKind::Assign);
        proof {
            assert(grammars@ =~= seq![GrammarKind::Relabel, GrammarKind::Assign]);
        }
        Input { all, parsed: 0, code, bot: bot.as_bytes_vec(), grammars }
    }

    /// A dispatcher with a caller-chosen grammar registry.
    pub fn with_grammars(input: &str, bot: &str, grammars: Vec<GrammarKind>) -> (r: Input)
        ensures
            r.wf(),
            r.text() == input.spec_bytes(),
            r.cursor() == 0,
            r.bot_name() == bot.spec_bytes(),
            r.grammar_seq() == grammars@,
            r.code_spans() == code_spans_of(input.spec_bytes()),
    {
        let all = input.as_bytes_vec();
        let code = ColorCodeBlocks::new(&all);
        Input { all, parsed: 0, code, bot: bot.as_bytes_vec(), grammars }
    }

    /// The current cursor.
    pub fn position(&self) -> (r: usize)
        ensures
            r as int == self.cursor(),
    {
        self.parsed
    }

    /// A copy of the unconsumed remainder, `text[cursor..]`.
    pub fn rest(&self) -> (r: Vec<u8>)
        requires
            self.wf(),
        ensures
            r@ == self.text().subrange(self.cursor(), self.text().len() as int),
    {
        copy_range(&self.all, self.parsed, self.all.len())
    }

    /// Finds and parses the next command in the unconsumed remainder; the
    /// result and the cursor movement are exactly those of [`spec_parse`].
    ///
    /// Only a successful match advances the cursor. A rejection, an
    /// ambiguity, or a match suppressed by code formatting leaves the cursor
    /// at its pre-call value, so the caller must treat those results as
    /// terminal for this text.
    pub fn parse_command(&mut self) -> (r: Command)
        requires
            old(self).wf(),
        ensures
            final(self).wf(),
            final(self).text() == old(self).text(),
            final(self).bot_name() == old(self).bot_name(),
            final(self).code_spans() == old(self).code_spans(),
            final(self).grammar_seq() == old(self).grammar_seq(),
            old(self).cursor() <= final(self).cursor() <= final(self).text().len(),
            r@ == spec_parse(
                old(self).text(),
                old(self).cursor(),
                old(self).bot_name(),
                old(self).grammar_seq(),
                old(self).code_spans(),
            ).cmd,
            final(self).cursor() == spec_parse(
                old(self).text(),
                old(self).cursor(),
                old(self).bot_name(),
                old(self).grammar_seq(),
                old(self).code_spans(),
            ).cursor,
    {
        let ghost t = self.all@;
        let ghost gs = self.grammars@;
        let tlen = self.all.len();
        proof {
            lemma_find_marker(t, self.bot@, self.parsed as int);
        }
        let p = match find_marker_x(&self.all, &self.bot, self.parsed) {
            Some(p) => p,
            None => {
                return Command::Nothing;
            },
        };
        proof {
            lemma_tok_advances(t, p as int);
        }
        let mut tok = Tokenizer::new(p);
        let mk = marker_vec(&self.bot);
        let ok_marker: bool;
        match tok.next_token(&self.all) {
            Ok(Some(Token::Word(a, b))) => {
                ok_marker = a == p && range_eq(&self.all, a, b, &mk);
            },
            _ => {
                ok_marker = false;
            },
        }
        if !ok_marker {
            proof {
                assert(!marker_word(t, self.bot@, p as int));
            }
            return Command::Nothing;
        }
        let q = tok.position();
        proof {
            assert(marker_word(t, self.bot@, p as int));
            assert(q as int == tok_after(t, p as int));
        }
        let ng = self.grammars.len();
        let mut k: usize = 0;
        let mut count: usize = 0;
        let mut won_cmd: Option<Command> = None;
        let mut won_end: usize = 0;
        proof {
            assert(gs.subrange(0, 0) =~= Seq::<GrammarKind>::empty());
        }
        while k < ng
            invariant
                ng == gs.len(),
                gs == self.grammars@,
                t == self.all@,
                q <= t.len() <= usize::MAX,
                k <= ng,
                count <= k,
                count as nat == claim_count(gs.subrange(0, k as int), t, q as int),
                (count == 0) == (won_cmd is None),
                count >= 1 ==> (won_cmd matches Some(c) && c@ == claimed_cmd(
                    first_claimer(gs.subrange(0, k as int), t, q as int),
                    t,
                    q as int,
                ) && won_end as int == claimed_end(
                    first_claimer(gs.subrange(0, k as int), t, q as int),
                    t,
                    q as int,
                )),
            decreases ng - k,
        {
            let g = self.grammars[k];
            let att = run_grammar(g, &self.all, q);
            proof {
                assert(gs.subrange(0, k + 1) =~= gs.subrange(0, k as int).push(gs[k as int]));
                lemma_claim_count_push(gs.subrange(0, k as int), g, t, q as int);
                lemma_first_claimer_push(gs.subrange(0, k as int), g, t, q as int);
            }
            match att {
                Attempt::NotMine => {},
                Attempt::Claimed(cmd, end) => {
                    if count == 0 {
                        won_cmd = Some(cmd);
                        won_end = end;
                    }
                    count += 1;
                },
            }
            k += 1;
        }
        proof {
            assert(gs.subrange(0, ng as int) =~= gs);
        }
        if count == 0 {
            return Command::Nothing;
        }
        if count >= 2 {
            return Command::Ambiguous;
        }
        let cmd = won_cmd.unwrap();
        let end = won_end;
        let ghost g1 = first_claimer(gs, t, q as int);
        proof {
            lemma_first_claimer_claims(gs, t, q as int);
            lemma_claimed_bounds(g1, t, q as int);
        }
        match self.code.overlaps_code(p, end) {
            Some(_) => {
                return Command::Nothing;
            },
            None => {},
        }
        if cmd.is_ok() {
            self.parsed = end;
        }
        cmd
    }
}

/// The cursor policy, for every input and every outcome: the cursor never
/// moves backwards, never leaves the text, and moves at all only when some
/// grammar matched successfully — a rejection, an ambiguity, an absent
/// marker or a suppressed match all leave it exactly where it was.
pub proof fn lemma_cursor_policy(
    t: Seq<u8>,
    cur: int,
    bot: Seq<u8>,
    gs: Seq<GrammarKind>,
    spans: Seq<(usize, usize)>,
)
    requires
        0 <= cur <= t.len(),
        t.len() <= usize::MAX,
    ensures
        cur <= spec_parse(t, cur, bot, gs, spans).cursor <= t.len(),
        !spec_is_success(spec_parse(t, cur, bot, gs, spans).cmd) ==> spec_parse(
            t,
            cur,
            bot,
            gs,
            spans,
        ).cursor == cur,
        spec_is_success(spec_parse(t, cur, bot, gs, spans).cmd) ==> cur < spec_parse(
            t,
            cur,
            bot,
            gs,
            spans,
        ).cursor,
{
    lemma_find_marker(t, bot, cur);
    match find_marker(t, bot, cur) {
        Option::Some(p) => {
            if marker_word(t, bot, p) {
                lemma_tok_advances(t, p);
                let q = tok_after(t, p);
                let n = claim_count(gs, t, q);
                if n == 1 {
                    lemma_first_claimer_claims(gs, t, q);
                    lemma_claimed_bounds(first_claimer(gs, t, q), t, q);
                }
            }
        },
        Option::None => {},
    }
}

/// Ambiguity is reported, never guessed around: when the marker is found as
/// a standalone word and two or more registered grammars claim what follows,
/// the result is the explicit `Ambiguous` command and the cursor does not
/// move.
pub proof fn lemma_ambiguity_reported(
    t: Seq<u8>,
    cur: int,
    bot: Seq<u8>,
    gs: Seq<GrammarKind>,
    spans: Seq<(usize, usize)>,
    p: int,
)
    requires
        0 <= cur <= t.len(),
        t.len() <= usize::MAX,
        find_marker(t, bot, cur) == Option::Some(p),
        marker_word(t, bot, p),
        claim_count(gs, t, tok_after(t, p)) >= 2,
    ensures
        spec_parse(t, cur, bot, gs, spans).cmd is Ambiguous,
        spec_parse(t, cur, bot, gs, spans).cursor == cur,
{
}

/// Success is owed: when the marker is found as a standalone word, exactly
/// one grammar claims what follows and matches it, and the claimed region
/// overlaps no code span, the match is reported and the cursor advances to
/// the end of the claimed region. Nothing here constrains the text before
/// the marker: lexical flaws outside the command region — an unterminated
/// quote in earlier prose, say — never affect dispatch.
pub proof fn lemma_success_reported(
    t: Seq<u8>,
    cur: int,
    bot: Seq<u8>,
    gs: Seq<GrammarKind>,
    spans: Seq<(usize, usize)>,
    p: int,
)
    requires
        0 <= cur <= t.len(),
        t.len() <= usize::MAX,
        find_marker(t, bot, cur) == Option::Some(p),
        marker_word(t, bot, p),
        claim_count(gs, t, tok_after(t, p)) == 1,
        claimed_ok(first_claimer(gs, t, tok_after(t, p)), t, tok_after(t, p)),
        !spans_overlap(
            spans,
            p,
            claimed_end(first_claimer(gs, t, tok_after(t, p)), t, tok_after(t, p)),
        ),
    ensures
        spec_parse(t, cur, bot, gs, spans).cmd == claimed_cmd(
            first_claimer(gs, t, tok_after(t, p)),
            t,
            tok_after(t, p),
        ),
        spec_is_success(spec_parse(t, cur, bot, gs, spans).cmd),
        spec_parse(t, cur, bot, gs, spans).cursor == claimed_end(
            first_claimer(gs, t, tok_after(t, p)),
            t,
            tok_after(t, p),
        ),
{
}

/// Code exclusion: when exactly one grammar claims the command and the whole
/// claimed region, from the marker to the claimed end, lies inside one known
/// code span, the match is discarded — the result is `Nothing` and the
/// cursor does not move.
pub proof fn lemma_code_exclusion(
    t: Seq<u8>,
    cur: int,
    bot: Seq<u8>,
    gs: Seq<GrammarKind>,
    spans: Seq<(usize, usize)>,
    p: int,
    k: int,
)
    requires
        0 <= cur <= t.len(),
        t.len() <= usize::MAX,
        find_marker(t, bot, cur) == Option::Some(p),
        marker_word(t, bot, p),
        claim_count(gs, t, tok_after(t, p)) == 1,
        0 <= k < spans.len(),
        spans[k].0 <= p,
        claimed_end(first_claimer(gs, t, tok_after(t, p)), t, tok_after(t, p)) <= spans[k].1,
    ensures
        spec_parse(t, cur, bot, gs, spans).cmd is Nothing,
        spec_parse(t, cur, bot, gs, spans).cursor == cur,
{
    lemma_find_marker(t, bot, cur);
    lemma_tok_advances(t, p);
    let q = tok_after(t, p);
    lemma_first_claimer_claims(gs, t, q);
    let g = first_claimer(gs, t, q);
    lemma_claimed_bounds(g, t, q);
    let e = claimed_end(g, t, q);
    assert(ranges_intersect(spans[k], p, e));
    lemma_overlap_exists(spans, p, e, k);
}

/// Re-scanning is lossless: the consumed prefix and the unconsumed remainder
/// always concatenate back to the original text, whatever calls were made.
pub proof fn lemma_rescan_reconstructs(inp: &Input)
    requires
        inp.wf(),
    ensures
        inp.text().subrange(0, inp.cursor()) + inp.text().subrange(
            inp.cursor(),
            inp.text().len() as int,
        ) == inp.text(),
{
    assert(inp.text().subrange(0, inp.cursor()) + inp.text().subrange(
        inp.cursor(),
        inp.text().len() as int,
    ) =~= inp.text());
}

} // verus!
