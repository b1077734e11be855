//! The parser: one-token-lookahead recursive descent over a token sequence.
//!
//! The leading token of each construct selects exactly one production; a
//! production consumes its keyword and then a fixed sequence of expected
//! pieces, and fails the parse if a piece is absent or of the wrong kind.
//! Loop and conditional bodies arrive as string literals or brace blocks:
//! every body is lexed and parsed once, eagerly, at parse time. The
//! specification-level parser is bounded by a fuel that only nesting depth
//! consumes; the executable parser meets it at some fuel for every input.

use vstd::prelude::*;

use crate::commands::{cmd_view, cmds_view, lemma_cmds_view, lemma_cmds_view_push, Command,
    CommandView};
use crate::errors::Error;
use crate::lexer::{spec_lex, Lexer};
use crate::tokens::{copy_token, lemma_toks_view, lemma_toks_view_push, lemma_toksv_measure_index,
    tok_view, toks_view, toksv_measure, tokv_measure, Token, TokenView};

verus! {

/// A token that may stand in an arithmetic chain: an operand or an
/// operator.
pub open spec fn is_chain_tok(t: TokenView) -> bool {
    t is Number || t is Identifier || t is Maths
}

/// A token that may stand as a comparison operand: a number literal or a
/// variable name.
pub open spec fn is_operand_tok(t: TokenView) -> bool {
    t is Number || t is Identifier
}

/// A token denoting one of the six comparisons.
pub open spec fn is_comparison_tok(t: TokenView) -> bool {
    t is Hotter || t is Cooler || t is Same || t is NotSame || t is HotOrSame || t is CoolOrSame
}

/// A token that may stand alone as an `ingredient` value.
pub open spec fn is_single_value_tok(t: TokenView) -> bool {
    t is StringLiteral || t is ArrayNumber || t is ArrayString
}

/// The first position at or after `pos` whose token is no chain token, or
/// the end of the sequence.
pub open spec fn chain_end(ts: Seq<TokenView>, pos: int) -> int
    decreases ts.len() - pos,
{
    if pos < 0 || pos >= ts.len() || !is_chain_tok(ts[pos]) {
        pos
    } else {
        chain_end(ts, pos + 1)
    }
}

pub proof fn lemma_chain_end(ts: Seq<TokenView>, pos: int)
    requires
        0 <= pos <= ts.len(),
    ensures
        pos <= chain_end(ts, pos) <= ts.len(),
        forall|i: int| pos <= i < chain_end(ts, pos) ==> is_chain_tok(ts[i]),
        chain_end(ts, pos) < ts.len() ==> !is_chain_tok(ts[chain_end(ts, pos)]),
    decreases ts.len() - pos,
{
    if pos < ts.len() && is_chain_tok(ts[pos]) {
        lemma_chain_end(ts, pos + 1);
    }
}

/// A body's token sequence: the lexed tokens of the body string, or, when
/// they form exactly one block, that block's contents.
pub open spec fn unwrap_block(ts: Seq<TokenView>) -> Seq<TokenView> {
    if ts.len() == 1 && ts[0] is Block {
        ts[0]->Block_0
    } else {
        ts
    }
}

/// One step of parsing: a command with the position after it, the end of
/// the tokens, a fault, or an exhausted nesting bound.
pub enum PStep {
    Cmd(CommandView, int),
    End,
    Fail(Error),
    Short,
}

/// The outcome of parsing a whole token sequence.
pub enum ParseResult {
    Cmds(Seq<CommandView>),
    Fail(Error),
    Short,
}

/// Parses an `ingredient` command: the target name, `is`, then either an
/// arithmetic chain or a single value token.
pub open spec fn spec_parse_ingredient(ts: Seq<TokenView>, pos: int) -> PStep {
    if pos + 1 >= ts.len() || !(ts[pos + 1] is Identifier) {
        PStep::Fail(Error::UnexpectedToken)
    } else if pos + 2 >= ts.len() || !(ts[pos + 2] is Is) {
        PStep::Fail(Error::UnexpectedToken)
    } else {
        let name = ts[pos + 1]->Identifier_0;
        if pos + 3 < ts.len() && is_chain_tok(ts[pos + 3]) {
            let vend = chain_end(ts, pos + 3);
            PStep::Cmd(
                CommandView::Ingredient { identifier: name, values: ts.subrange(pos + 3, vend) },
                vend,
            )
        } else if pos + 3 < ts.len() && is_single_value_tok(ts[pos + 3]) {
            PStep::Cmd(
                CommandView::Ingredient { identifier: name, values: seq![ts[pos + 3]] },
                pos + 4,
            )
        } else {
            PStep::Fail(Error::UnexpectedToken)
        }
    }
}

/// Parses a `taste` command: two operands around a comparison, then a
/// string-literal body kept as tokens (the command is reserved, so its body
/// is never parsed further).
pub open spec fn spec_parse_taste(ts: Seq<TokenView>, pos: int) -> PStep {
    if pos + 1 >= ts.len() || !is_operand_tok(ts[pos + 1]) {
        PStep::Fail(Error::UnexpectedToken)
    } else if pos + 2 >= ts.len() || !is_comparison_tok(ts[pos + 2]) {
        PStep::Fail(Error::UnexpectedToken)
    } else if pos + 3 >= ts.len() || !is_operand_tok(ts[pos + 3]) {
        PStep::Fail(Error::UnexpectedToken)
    } else if pos + 4 >= ts.len() || !(ts[pos + 4] is StringLiteral) {
        PStep::Fail(Error::UnexpectedToken)
    } else {
        match spec_lex(ts[pos + 4]->StringLiteral_0) {
            Result::Ok(bts) => PStep::Cmd(
                CommandView::Taste {
                    left_value: ts[pos + 1],
                    comparison: ts[pos + 2],
                    right_value: ts[pos + 3],
                    tokens: bts,
                },
                pos + 5,
            ),
            Result::Err(e) => PStep::Fail(e),
        }
    }
}

/// Parses a `cook` command: a string-literal body kept as tokens.
pub open spec fn spec_parse_cook(ts: Seq<TokenView>, pos: int) -> PStep {
    if pos + 1 >= ts.len() || !(ts[pos + 1] is StringLiteral) {
        PStep::Fail(Error::UnexpectedToken)
    } else {
        match spec_lex(ts[pos + 1]->StringLiteral_0) {
            Result::Ok(bts) => PStep::Cmd(CommandView::Cook { tokens: bts }, pos + 2),
            Result::Err(e) => PStep::Fail(e),
        }
    }
}

/// Parses a `serve` command: a bare name.
pub open spec fn spec_parse_serve(ts: Seq<TokenView>, pos: int) -> PStep {
    if pos + 1 >= ts.len() || !(ts[pos + 1] is Identifier) {
        PStep::Fail(Error::UnexpectedToken)
    } else {
        PStep::Cmd(CommandView::Serve { identifier: ts[pos + 1]->Identifier_0 }, pos + 2)
    }
}

/// Parses a `plate` command: any single token as its payload.
pub open spec fn spec_parse_plate(ts: Seq<TokenView>, pos: int) -> PStep {
    if pos + 1 >= ts.len() {
        PStep::Fail(Error::UnexpectedToken)
    } else {
        PStep::Cmd(CommandView::Plate { value: ts[pos + 1] }, pos + 2)
    }
}

/// Parses a `layer` command: two operands around a comparison, then a
/// string-literal body, lexed and parsed eagerly into the loop's commands.
pub open spec fn spec_parse_layer(ts: Seq<TokenView>, pos: int, fuel: nat) -> PStep
    decreases fuel, ts.len() - pos, 0int,
{
    if pos + 1 >= ts.len() || !is_operand_tok(ts[pos + 1]) {
        PStep::Fail(Error::UnexpectedToken)
    } else if pos + 2 >= ts.len() || !is_comparison_tok(ts[pos + 2]) {
        PStep::Fail(Error::UnexpectedToken)
    } else if pos + 3 >= ts.len() || !is_operand_tok(ts[pos + 3]) {
        PStep::Fail(Error::UnexpectedToken)
    } else if pos + 4 >= ts.len() || !(ts[pos + 4] is StringLiteral) {
        PStep::Fail(Error::UnexpectedToken)
    } else {
        match spec_lex(ts[pos + 4]->StringLiteral_0) {
            Result::Ok(bts) => if fuel == 0 {
                PStep::Short
            } else {
                match spec_parse_cmds(unwrap_block(bts), 0, (fuel - 1) as nat) {
                    ParseResult::Cmds(cs) => PStep::Cmd(
                        CommandView::Layer {
                            left_value: ts[pos + 1],
                            comparison: ts[pos + 2],
                            right_value: ts[pos + 3],
                            commands: cs,
                        },
                        pos + 5,
                    ),
                    ParseResult::Fail(e) => PStep::Fail(e),
                    ParseResult::Short => PStep::Short,
                }
            },
            Result::Err(e) => PStep::Fail(e),
        }
    }
}

/// Parses a `simmer` command: the loop variable, `in`, the array variable,
/// then a brace-block body parsed eagerly into the loop's commands.
pub open spec fn spec_parse_simmer(ts: Seq<TokenView>, pos: int, fuel: nat) -> PStep
    decreases fuel, ts.len() - pos, 0int,
{
    if pos + 1 >= ts.len() || !(ts[pos + 1] is Identifier) {
        PStep::Fail(Error::UnexpectedToken)
    } else if pos + 2 >= ts.len() || !(ts[pos + 2] is In) {
        PStep::Fail(Error::UnexpectedToken)
    } else if pos + 3 >= ts.len() || !(ts[pos + 3] is Identifier) {
        PStep::Fail(Error::UnexpectedToken)
    } else if pos + 4 >= ts.len() || !(ts[pos + 4] is Block) {
        PStep::Fail(Error::UnexpectedToken)
    } else if fuel == 0 {
        PStep::Short
    } else {
        match spec_parse_cmds(ts[pos + 4]->Block_0, 0, (fuel - 1) as nat) {
            ParseResult::Cmds(cs) => PStep::Cmd(
                CommandView::Simmer {
                    identifier: ts[pos + 1]->Identifier_0,
                    array_identifier: ts[pos + 3]->Identifier_0,
                    commands: cs,
                },
                pos + 5,
            ),
            ParseResult::Fail(e) => PStep::Fail(e),
            ParseResult::Short => PStep::Short,
        }
    }
}

/// Parses a `recipe` command: the function name, its parameter list, then a
/// string-literal body parsed eagerly into the function's commands.
pub open spec fn spec_parse_recipe(ts: Seq<TokenView>, pos: int, fuel: nat) -> PStep
    decreases fuel, ts.len() - pos, 0int,
{
    if pos + 1 >= ts.len() || !(ts[pos + 1] is Identifier) {
        PStep::Fail(Error::UnexpectedToken)
    } else if pos + 2 >= ts.len() || !(ts[pos + 2] is ArrayString) {
        PStep::Fail(Error::UnexpectedToken)
    } else if pos + 3 >= ts.len() || !(ts[pos + 3] is StringLiteral) {
        PStep::Fail(Error::UnexpectedToken)
    } else {
        match spec_lex(ts[pos + 3]->StringLiteral_0) {
            Result::Ok(bts) => if fuel == 0 {
                PStep::Short
            } else {
                match spec_parse_cmds(unwrap_block(bts), 0, (fuel - 1) as nat) {
                    ParseResult::Cmds(cs) => PStep::Cmd(
                        CommandView::Recipe {
                            identifier: ts[pos + 1]->Identifier_0,
                            params: ts[pos + 2]->ArrayString_0,
                            commands: cs,
                        },
                        pos + 4,
                    ),
                    ParseResult::Fail(e) => PStep::Fail(e),
                    ParseResult::Short => PStep::Short,
                }
            },
            Result::Err(e) => PStep::Fail(e),
        }
    }
}

/// One parsing step at `pos`: the leading token selects the production; an
/// empty remainder ends the parse; a leading token that selects none is a
/// fault.
pub open spec fn spec_parse_token(ts: Seq<TokenView>, pos: int, fuel: nat) -> PStep
    decreases fuel, ts.len() - pos, 1int,
{
    if pos < 0 || pos >= ts.len() {
        PStep::End
    } else {
        match ts[pos] {
            TokenView::Ingredient => spec_parse_ingredient(ts, pos),
            TokenView::Taste => spec_parse_taste(ts, pos),
            TokenView::Layer => spec_parse_layer(ts, pos, fuel),
            TokenView::Simmer => spec_parse_simmer(ts, pos, fuel),
            TokenView::Cook => spec_parse_cook(ts, pos),
            TokenView::Serve => spec_parse_serve(ts, pos),
            TokenView::Plate => spec_parse_plate(ts, pos),
            TokenView::Recipe => spec_parse_recipe(ts, pos, fuel),
            _ => PStep::Fail(Error::UnexpectedToken),
        }
    }
}

/// Parses the whole remainder of a token sequence into commands, stopping
/// at the first fault.
pub open spec fn spec_parse_cmds(ts: Seq<TokenView>, pos: int, fuel: nat) -> ParseResult
    decreases fuel, ts.len() - pos, 2int,
{
    if pos < 0 || pos >= ts.len() {
        ParseResult::Cmds(Seq::empty())
    } else {
        match spec_parse_token(ts, pos, fuel) {
            PStep::End => ParseResult::Cmds(Seq::empty()),
            PStep::Fail(e) => ParseResult::Fail(e),
            PStep::Short => ParseResult::Short,
            PStep::Cmd(c, newpos) => {
                // A production always consumes at least its keyword
                // (`lemma_parse_token_advances`); the bounds here only make
                // that evident to the termination check.
                let np = if newpos <= pos {
                    pos + 1
                } else if newpos > ts.len() {
                    ts.len() as int
                } else {
                    newpos
                };
                match spec_parse_cmds(ts, np, fuel) {
                    ParseResult::Cmds(rest) => ParseResult::Cmds(seq![c] + rest),
                    other => other,
                }
            },
        }
    }
}

/// The parse of a whole token sequence.
pub open spec fn spec_parse(ts: Seq<TokenView>, fuel: nat) -> ParseResult {
    spec_parse_cmds(ts, 0, fuel)
}

/// A parsed command stands strictly between its start and the end of the
/// tokens.
pub proof fn lemma_parse_token_advances(ts: Seq<TokenView>, pos: int, fuel: nat)
    requires
        0 <= pos <= ts.len(),
    ensures
        match spec_parse_token(ts, pos, fuel) {
            PStep::Cmd(c, np) => pos < np <= ts.len(),
            _ => true,
        },
{
    if pos < ts.len() && ts[pos] is Ingredient {
        if pos + 3 < ts.len() && is_chain_tok(ts[pos + 3]) {
            lemma_chain_end(ts, pos + 3);
        }
    }
}

/// More fuel never changes an outcome that the bound did not cut short.
pub proof fn lemma_parse_token_mono(ts: Seq<TokenView>, pos: int, f1: nat, f2: nat)
    requires
        f1 <= f2,
        !(spec_parse_token(ts, pos, f1) is Short),
    ensures
        spec_parse_token(ts, pos, f2) == spec_parse_token(ts, pos, f1),
    decreases f1, ts.len() - pos, 1int,
{
    if 0 <= pos < ts.len() {
        if ts[pos] is Layer {
            if pos + 1 < ts.len() && is_operand_tok(ts[pos + 1]) && pos + 2 < ts.len()
                && is_comparison_tok(ts[pos + 2]) && pos + 3 < ts.len() && is_operand_tok(
                ts[pos + 3],
            ) && pos + 4 < ts.len() && ts[pos + 4] is StringLiteral {
                match spec_lex(ts[pos + 4]->StringLiteral_0) {
                    Result::Ok(bts) => {
                        lemma_parse_cmds_mono(
                            unwrap_block(bts),
                            0,
                            (f1 - 1) as nat,
                            (f2 - 1) as nat,
                        );
                    },
                    Result::Err(e) => {},
                }
            }
        } else if ts[pos] is Simmer {
            if pos + 1 < ts.len() && ts[pos + 1] is Identifier && pos + 2 < ts.len() && ts[pos
                + 2] is In && pos + 3 < ts.len() && ts[pos + 3] is Identifier && pos + 4
                < ts.len() && ts[pos + 4] is Block {
                lemma_parse_cmds_mono(ts[pos + 4]->Block_0, 0, (f1 - 1) as nat, (f2 - 1) as nat);
            }
        } else if ts[pos] is Recipe {
            if pos + 1 < ts.len() && ts[pos + 1] is Identifier && pos + 2 < ts.len() && ts[pos
                + 2] is ArrayString && pos + 3 < ts.len() && ts[pos + 3] is StringLiteral {
                match spec_lex(ts[pos + 3]->StringLiteral_0) {
                    Result::Ok(bts) => {
                        lemma_parse_cmds_mono(
                            unwrap_block(bts),
                            0,
                            (f1 - 1) as nat,
                            (f2 - 1) as nat,
                        );
                    },
                    Result::Err(e) => {},
                }
            }
        }
    }
}

/// Appending a parsed command to the front commands.
pub open spec fn pr_prepend(front: Seq<CommandView>, r: ParseResult) -> ParseResult {
    match r {
        ParseResult::Cmds(rest) => ParseResult::Cmds(front + rest),
        other => other,
    }
}

/// More fuel never changes an outcome that the bound did not cut short.
pub proof fn lemma_parse_cmds_mono(ts: Seq<TokenView>, pos: int, f1: nat, f2: nat)
    requires
        f1 <= f2,
        !(spec_parse_cmds(ts, pos, f1) is Short),
    ensures
        spec_parse_cmds(ts, pos, f2) == spec_parse_cmds(ts, pos, f1),
    decreases f1, ts.len() - pos, 2int,
{
    if 0 <= pos < ts.len() {
        match spec_parse_token(ts, pos, f1) {
            PStep::Cmd(c, newpos) => {
                lemma_parse_token_mono(ts, pos, f1, f2);
                let np = if newpos <= pos {
                    pos + 1
                } else if newpos > ts.len() {
                    ts.len() as int
                } else {
                    newpos
                };
                lemma_parse_cmds_mono(ts, np, f1, f2);
            },
            PStep::Short => {},
            _ => {
                lemma_parse_token_mono(ts, pos, f1, f2);
            },
        }
    }
}

/// Whether a token may stand in an arithmetic chain.
fn chain_token(t: &Token) -> (r: bool)
    ensures
        r == is_chain_tok(tok_view(*t)),
{
    match t {
        Token::Number(_) => true,
        Token::Identifier(_) => true,
        Token::Maths(_) => true,
        _ => false,
    }
}

/// Whether a token is a brace block.
fn block_token(t: &Token) -> (r: bool)
    ensures
        r == (tok_view(*t) is Block),
{
    match t {
        Token::Block(_) => true,
        _ => false,
    }
}

/// Consumes tokens left to right, keeping the position of the next token.
pub struct Parser {
    pub tokens: Vec<Token>,
    pub position: usize,
}

impl Parser {
    /// The cursor never stands past the end of the tokens.
    pub open spec fn wf(&self) -> bool {
        self.position <= self.tokens@.len()
    }

    /// The model of the token sequence.
    pub open spec fn toks(&self) -> Seq<TokenView> {
        toks_view(self.tokens@)
    }

    /// A parser over `tokens`, standing at the first one.
    pub fn new(tokens: Vec<Token>) -> (r: Parser)
        ensures
            r.wf(),
            r.toks() == toks_view(tokens@),
            r.position == 0,
    {
        Parser { tokens, position: 0 }
    }

    /// A copy of the token under the cursor, if any.
    pub fn curr_token(&self) -> (r: Option<Token>)
        requires
            self.wf(),
        ensures
            match r {
                Some(t) => self.position < self.tokens@.len() && tok_view(t) == self.toks()[self.position as int],
                None => self.position >= self.tokens@.len(),
            },
    {
        if self.position < self.tokens.len() {
            proof {
                lemma_toks_view(self.tokens@);
            }
            Some(copy_token(&self.tokens[self.position]))
        } else {
            None
        }
    }

    /// A copy of the token under the cursor, consuming it.
    pub fn next_token(&mut self) -> (r: Option<Token>)
        requires
            old(self).wf(),
        ensures
            final (self).wf(),
            final (self).tokens == old(self).tokens,
            match r {
                Some(t) => old(self).position < old(self).tokens@.len() && tok_view(t) == old(self).toks()[old(self).position as int] && final (self).position == old(self).position + 1,
                None => old(self).position >= old(self).tokens@.len() && final (self).position
                    == old(self).position,
            },
    {
        match self.curr_token() {
            Some(t) => {
                self.advance();
                Some(t)
            },
            None => None,
        }
    }

    /// Moves the cursor past the current token.
    pub fn advance(&mut self)
        requires
            old(self).wf(),
            old(self).position < old(self).tokens@.len(),
        ensures
            final (self).wf(),
            final (self).tokens == old(self).tokens,
            final (self).position == old(self).position + 1,
    {
        let n = self.tokens.len();
        self.position = self.position + 1;
    }

    /// Consumes the next token when it equals the expected one, payloads
    /// compared too; a mismatched token is still consumed.
    pub fn expect_token(&mut self, expected_token: Token) -> (r: Option<Token>)
        requires
            old(self).wf(),
        ensures
            final (self).wf(),
            final (self).tokens == old(self).tokens,
            match r {
                Some(t) => old(self).position < old(self).tokens@.len() && old(self).toks()[old(self).position as int] == tok_view(expected_token) && tok_view(t) == tok_view(
                    expected_token,
                ) && final (self).position == old(self).position + 1,
                None => (old(self).position >= old(self).tokens@.len() || old(self).toks()[old(self).position as int] != tok_view(expected_token)) && final (self).position == (
                if old(self).position < old(self).tokens@.len() {
                    old(self).position + 1
                } else {
                    old(self).position as int
                }),
            },
    {
        match self.next_token() {
            Some(t) => {
                if crate::tokens::token_eq(&t, &expected_token) {
                    Some(t)
                } else {
                    None
                }
            },
            None => None,
        }
    }

    /// Consumes the next token when it is the `ingredient` keyword.
    pub fn expect_ingredient(&mut self) -> (r: Option<Token>)
        requires
            old(self).wf(),
        ensures
            final (self).wf(),
            final (self).tokens == old(self).tokens,
            match r {
                Some(t) => old(self).position < old(self).tokens@.len() && old(self).toks()[old(self).position as int] == TokenView::Ingredient && tok_view(t) == TokenView::Ingredient
                    && final (self).position == old(self).position + 1,
                None => (old(self).position >= old(self).tokens@.len() || old(self).toks()[old(self).position as int] != TokenView::Ingredient) && final (self).position == (
                if old(self).position < old(self).tokens@.len() {
                    old(self).position + 1
                } else {
                    old(self).position as int
                }),
            },
    {
        self.expect_token(Token::Ingredient)
    }

    /// Consumes the next token when it is an identifier, yielding its name.
    pub fn expect_identifier(&mut self) -> (r: Option<String>)
        requires
            old(self).wf(),
        ensures
            final (self).wf(),
            final (self).tokens == old(self).tokens,
            match r {
                Some(name) => old(self).position < old(self).tokens@.len() && old(self).toks()[old(self).position as int] == TokenView::Identifier(name@) && final (self).position == old(self).position + 1,
                None => (old(self).position >= old(self).tokens@.len() || !(old(self).toks()[old(self).position as int] is Identifier)) && final (self).position == (
                if old(self).position < old(self).tokens@.len() {
                    old(self).position + 1
                } else {
                    old(self).position as int
                }),
            },
    {
        match self.next_token() {
            Some(t) => match t {
                Token::Identifier(name) => Some(name),
                _ => None,
            },
            None => None,
        }
    }

    /// Consumes the next token when it is a number literal or an
    /// identifier: the operand forms of a comparison.
    pub fn expect_operand(&mut self) -> (r: Option<Token>)
        requires
            old(self).wf(),
        ensures
            final (self).wf(),
            final (self).tokens == old(self).tokens,
            match r {
                Some(t) => old(self).position < old(self).tokens@.len() && tok_view(t) == old(self).toks()[old(self).position as int] && is_operand_tok(tok_view(t))
                    && final (self).position == old(self).position + 1,
                None => (old(self).position >= old(self).tokens@.len() || !is_operand_tok(
                    old(self).toks()[old(self).position as int],
                )) && final (self).position == (
                if old(self).position < old(self).tokens@.len() {
                    old(self).position + 1
                } else {
                    old(self).position as int
                }),
            },
    {
        match self.next_token() {
            Some(t) => match t {
                Token::Number(x) => Some(Token::Number(x)),
                Token::Identifier(name) => Some(Token::Identifier(name)),
                _ => None,
            },
            None => None,
        }
    }

    /// Consumes the next token when it is a value literal: a number, a
    /// string, or an array of either.
    pub fn expect_value(&mut self) -> (r: Option<Token>)
        requires
            old(self).wf(),
        ensures
            final (self).wf(),
            final (self).tokens == old(self).tokens,
            match r {
                Some(t) => old(self).position < old(self).tokens@.len() && tok_view(t) == old(self).toks()[old(self).position as int] && (tok_view(t) is Number
                    || is_single_value_tok(tok_view(t))) && final (self).position == old(self).position + 1,
                None => (old(self).position >= old(self).tokens@.len() || !(old(self).toks()[old(self).position as int] is Number || is_single_value_tok(
                    old(self).toks()[old(self).position as int],
                ))) && final (self).position == (
                if old(self).position < old(self).tokens@.len() {
                    old(self).position + 1
                } else {
                    old(self).position as int
                }),
            },
    {
        match self.next_token() {
            Some(t) => match t {
                Token::ArrayNumber(a) => Some(Token::ArrayNumber(a)),
                Token::ArrayString(a) => Some(Token::ArrayString(a)),
                Token::Number(x) => Some(Token::Number(x)),
                Token::StringLiteral(s) => Some(Token::StringLiteral(s)),
                _ => None,
            },
            None => None,
        }
    }

    /// Consumes the next token when it is one of the six comparisons.
    pub fn expect_comparison(&mut self) -> (r: Option<Token>)
        requires
            old(self).wf(),
        ensures
            final (self).wf(),
            final (self).tokens == old(self).tokens,
            match r {
                Some(t) => old(self).position < old(self).tokens@.len() && tok_view(t) == old(self).toks()[old(self).position as int] && is_comparison_tok(
                    tok_view(t),
                ) && final (self).position == old(self).position + 1,
                None => (old(self).position >= old(self).tokens@.len() || !is_comparison_tok(
                    old(self).toks()[old(self).position as int],
                )) && final (self).position == (
                if old(self).position < old(self).tokens@.len() {
                    old(self).position + 1
                } else {
                    old(self).position as int
                }),
            },
    {
        match self.next_token() {
            Some(t) => match t {
                Token::Hotter => Some(Token::Hotter),
                Token::Cooler => Some(Token::Cooler),
                Token::Same => Some(Token::Same),
                Token::NotSame => Some(Token::NotSame),
                Token::HotOrSame => Some(Token::HotOrSame),
                Token::CoolOrSame => Some(Token::CoolOrSame),
                _ => None,
            },
            None => None,
        }
    }

    /// Consumes the next token when it is a string literal, yielding its
    /// contents.
    pub fn expect_string_literal(&mut self) -> (r: Option<String>)
        requires
            old(self).wf(),
        ensures
            final (self).wf(),
            final (self).tokens == old(self).tokens,
            match r {
                Some(s) => old(self).position < old(self).tokens@.len() && old(self).toks()[old(self).position as int] == TokenView::StringLiteral(s@) && final (self).position == old(self).position + 1,
                None => (old(self).position >= old(self).tokens@.len() || !(old(self).toks()[old(self).position as int] is StringLiteral)) && final (self).position == (
                if old(self).position < old(self).tokens@.len() {
                    old(self).position + 1
                } else {
                    old(self).position as int
                }),
            },
    {
        match self.next_token() {
            Some(t) => match t {
                Token::StringLiteral(s) => Some(s),
                _ => None,
            },
            None => None,
        }
    }

    /// Consumes the next token when it is a string array, yielding the
    /// parameter names.
    pub fn expect_params(&mut self) -> (r: Option<Vec<String>>)
        requires
            old(self).wf(),
        ensures
            final (self).wf(),
            final (self).tokens == old(self).tokens,
            match r {
                Some(params) => old(self).position < old(self).tokens@.len() && old(self).toks()[old(self).position as int] == TokenView::ArrayString(crate::tokens::strs_view(params@)) && final (self).position == old(self).position + 1,
                None => (old(self).position >= old(self).tokens@.len() || !(old(self).toks()[old(self).position as int] is ArrayString)) && final (self).position == (
                if old(self).position < old(self).tokens@.len() {
                    old(self).position + 1
                } else {
                    old(self).position as int
                }),
            },
    {
        match self.next_token() {
            Some(t) => match t {
                Token::ArrayString(params) => Some(params),
                _ => None,
            },
            None => None,
        }
    }

    /// Consumes the next token when it is a brace block, yielding its
    /// tokens.
    pub fn expect_block(&mut self) -> (r: Option<Vec<Token>>)
        requires
            old(self).wf(),
        ensures
            final (self).wf(),
            final (self).tokens == old(self).tokens,
            match r {
                Some(ts) => old(self).position < old(self).tokens@.len() && old(self).toks()[old(self).position as int] == TokenView::Block(toks_view(ts@)) && final (self).position == old(self).position + 1,
                None => (old(self).position >= old(self).tokens@.len() || !(old(self).toks()[old(self).position as int] is Block)) && final (self).position == (
                if old(self).position < old(self).tokens@.len() {
                    old(self).position + 1
                } else {
                    old(self).position as int
                }),
            },
    {
        match self.next_token() {
            Some(t) => match t {
                Token::Block(ts) => Some(ts),
                _ => None,
            },
            None => None,
        }
    }

    /// Parses an `ingredient` command under the cursor.
    pub fn parse_ingredient(&mut self) -> (r: Result<Command, Error>)
        requires
            old(self).wf(),
            old(self).position < old(self).tokens@.len(),
            old(self).toks()[old(self).position as int] is Ingredient,
        ensures
            final (self).wf(),
            final (self).tokens == old(self).tokens,
            old(self).position <= final (self).position <= final (self).tokens@.len(),
            match r {
                Result::Ok(c) => exists|fuel: nat|
                    spec_parse_token(old(self).toks(), old(self).position as int, fuel)
                        == PStep::Cmd(cmd_view(c), final (self).position as int),
                Result::Err(e) => exists|fuel: nat|
                    spec_parse_token(old(self).toks(), old(self).position as int, fuel)
                        == PStep::Fail(e),
            },
    {
        let ghost tsv = self.toks();
        let ghost p0 = self.position as int;
        proof {
            lemma_toks_view(self.tokens@);
        }
        match self.expect_ingredient() {
            Some(_) => {},
            None => {
                proof {
                    assert(false);
                }
                return Result::Err(Error::UnexpectedToken);
            },
        }
        let name = match self.expect_identifier() {
            Some(n) => n,
            None => {
                proof {
                    assert(spec_parse_token(tsv, p0, 0) == PStep::Fail(Error::UnexpectedToken));
                }
                return Result::Err(Error::UnexpectedToken);
            },
        };
        match self.expect_token(Token::Is) {
            Some(_) => {},
            None => {
                proof {
                    assert(spec_parse_token(tsv, p0, 0) == PStep::Fail(Error::UnexpectedToken));
                }
                return Result::Err(Error::UnexpectedToken);
            },
        }
        let n = self.tokens.len();
        if self.position < n && chain_token(&self.tokens[self.position]) {
            let ghost vstart = self.position as int;
            let mut values: Vec<Token> = Vec::new();
            proof {
                lemma_chain_end(tsv, vstart);
                assert(toks_view(values@) =~= tsv.subrange(vstart, vstart));
            }
            while self.position < n && chain_token(&self.tokens[self.position])
                invariant
                    self.wf(),
                    self.tokens == old(self).tokens,
                    tsv == toks_view(self.tokens@),
                    n == self.tokens@.len(),
                    0 <= vstart <= self.position,
                    chain_end(tsv, vstart) == chain_end(tsv, self.position as int),
                    toks_view(values@) == tsv.subrange(vstart, self.position as int),
                decreases n - self.position,
            {
                proof {
                    lemma_toks_view(self.tokens@);
                }
                let t = copy_token(&self.tokens[self.position]);
                let ghost vs_old = values@;
                values.push(t);
                self.advance();
                proof {
                    lemma_toks_view_push(vs_old, t);
                    assert(tsv.subrange(vstart, self.position as int) =~= tsv.subrange(
                        vstart,
                        self.position - 1,
                    ).push(tsv[self.position - 1]));
                }
            }
            proof {
                lemma_toks_view(self.tokens@);
                assert(chain_end(tsv, self.position as int) == self.position as int);
            }
            let c = Command::Ingredient { identifier: name, values };
            proof {
                assert(spec_parse_token(tsv, p0, 0) == PStep::Cmd(
                    cmd_view(c),
                    self.position as int,
                ));
            }
            Result::Ok(c)
        } else {
            match self.expect_value() {
                Some(t) => {
                    let mut values: Vec<Token> = Vec::new();
                    let ghost tv = tok_view(t);
                    values.push(t);
                    proof {
                        assert(toks_view(values@) =~= seq![tv]) by {
                            lemma_toks_view_push(Seq::empty(), values@[0]);
                            assert(values@ =~= Seq::empty().push(values@[0]));
                        }
                    }
                    let c = Command::Ingredient { identifier: name, values };
                    proof {
                        assert(spec_parse_token(tsv, p0, 0) == PStep::Cmd(
                            cmd_view(c),
                            self.position as int,
                        ));
                    }
                    Result::Ok(c)
                },
                None => {
                    proof {
                        assert(spec_parse_token(tsv, p0, 0) == PStep::Fail(
                            Error::UnexpectedToken,
                        ));
                    }
                    Result::Err(Error::UnexpectedToken)
                },
            }
        }
    }

    /// Parses a `taste` command under the cursor; its body is lexed and
    /// kept as tokens.
    pub fn parse_taste(&mut self) -> (r: Result<Command, Error>)
        requires
            old(self).wf(),
            old(self).position < old(self).tokens@.len(),
            old(self).toks()[old(self).position as int] is Taste,
        ensures
            final (self).wf(),
            final (self).tokens == old(self).tokens,
            old(self).position <= final (self).position <= final (self).tokens@.len(),
            match r {
                Result::Ok(c) => exists|fuel: nat|
                    spec_parse_token(old(self).toks(), old(self).position as int, fuel)
                        == PStep::Cmd(cmd_view(c), final (self).position as int),
                Result::Err(e) => exists|fuel: nat|
                    spec_parse_token(old(self).toks(), old(self).position as int, fuel)
                        == PStep::Fail(e),
            },
    {
        let ghost tsv = self.toks();
        let ghost p0 = self.position as int;
        proof {
            lemma_toks_view(self.tokens@);
        }
        match self.expect_token(Token::Taste) {
            Some(_) => {},
            None => {
                proof {
                    assert(false);
                }
                return Result::Err(Error::UnexpectedToken);
            },
        }
        let left = match self.expect_operand() {
            Some(t) => t,
            None => {
                proof {
                    assert(spec_parse_token(tsv, p0, 0) == PStep::Fail(Error::UnexpectedToken));
                }
                return Result::Err(Error::UnexpectedToken);
            },
        };
        let comparison = match self.expect_comparison() {
            Some(t) => t,
            None => {
                proof {
                    assert(spec_parse_token(tsv, p0, 0) == PStep::Fail(Error::UnexpectedToken));
                }
                return Result::Err(Error::UnexpectedToken);
            },
        };
        let right = match self.expect_operand() {
            Some(t) => t,
            None => {
                proof {
                    assert(spec_parse_token(tsv, p0, 0) == PStep::Fail(Error::UnexpectedToken));
                }
                return Result::Err(Error::UnexpectedToken);
            },
        };
        let body = match self.expect_string_literal() {
            Some(s) => s,
            None => {
                proof {
                    assert(spec_parse_token(tsv, p0, 0) == PStep::Fail(Error::UnexpectedToken));
                }
                return Result::Err(Error::UnexpectedToken);
            },
        };
        let mut body_lexer = Lexer::new(body.as_str());
        match body_lexer.lex() {
            Result::Ok(bts) => {
                let c = Command::Taste {
                    left_value: left,
                    comparison,
                    right_value: right,
                    tokens: bts,
                };
                proof {
                    assert(spec_parse_token(tsv, p0, 0) == PStep::Cmd(
                        cmd_view(c),
                        self.position as int,
                    ));
                }
                Result::Ok(c)
            },
            Result::Err(e) => {
                proof {
                    assert(spec_parse_token(tsv, p0, 0) == PStep::Fail(e));
                }
                Result::Err(e)
            },
        }
    }

    /// Parses a `cook` command under the cursor; its body is lexed and kept
    /// as tokens.
    pub fn parse_cook(&mut self) -> (r: Result<Command, Error>)
        requires
            old(self).wf(),
            old(self).position < old(self).tokens@.len(),
            old(self).toks()[old(self).position as int] is Cook,
        ensures
            final (self).wf(),
            final (self).tokens == old(self).tokens,
            old(self).position <= final (self).position <= final (self).tokens@.len(),
            match r {
                Result::Ok(c) => exists|fuel: nat|
                    spec_parse_token(old(self).toks(), old(self).position as int, fuel)
                        == PStep::Cmd(cmd_view(c), final (self).position as int),
                Result::Err(e) => exists|fuel: nat|
                    spec_parse_token(old(self).toks(), old(self).position as int, fuel)
                        == PStep::Fail(e),
            },
    {
        let ghost tsv = self.toks();
        let ghost p0 = self.position as int;
        proof {
            lemma_toks_view(self.tokens@);
        }
        match self.expect_token(Token::Cook) {
            Some(_) => {},
            None => {
                proof {
                    assert(false);
                }
                return Result::Err(Error::UnexpectedToken);
            },
        }
        let body = match self.expect_string_literal() {
            Some(s) => s,
            None => {
                proof {
                    assert(spec_parse_token(tsv, p0, 0) == PStep::Fail(Error::UnexpectedToken));
                }
                return Result::Err(Error::UnexpectedToken);
            },
        };
        let mut body_lexer = Lexer::new(body.as_str());
        match body_lexer.lex() {
            Result::Ok(bts) => {
                let c = Command::Cook { tokens: bts };
                proof {
                    assert(spec_parse_token(tsv, p0, 0) == PStep::Cmd(
                        cmd_view(c),
                        self.position as int,
                    ));
                }
                Result::Ok(c)
            },
            Result::Err(e) => {
                proof {
                    assert(spec_parse_token(tsv, p0, 0) == PStep::Fail(e));
                }
                Result::Err(e)
            },
        }
    }

    /// Parses a `serve` command under the cursor.
    pub fn parse_serve(&mut self) -> (r: Result<Command, Error>)
        requires
            old(self).wf(),
            old(self).position < old(self).tokens@.len(),
            old(self).toks()[old(self).position as int] is Serve,
        ensures
            final (self).wf(),
            final (self).tokens == old(self).tokens,
            old(self).position <= final (self).position <= final (self).tokens@.len(),
            match r {
                Result::Ok(c) => exists|fuel: nat|
                    spec_parse_token(old(self).toks(), old(self).position as int, fuel)
                        == PStep::Cmd(cmd_view(c), final (self).position as int),
                Result::Err(e) => exists|fuel: nat|
                    spec_parse_token(old(self).toks(), old(self).position as int, fuel)
                        == PStep::Fail(e),
            },
    {
        let ghost tsv = self.toks();
        let ghost p0 = self.position as int;
        proof {
            lemma_toks_view(self.tokens@);
        }
        match self.expect_token(Token::Serve) {
            Some(_) => {},
            None => {
                proof {
                    assert(false);
                }
                return Result::Err(Error::UnexpectedToken);
            },
        }
        match self.expect_identifier() {
            Some(name) => {
                let c = Command::Serve { identifier: name };
                proof {
                    assert(spec_parse_token(tsv, p0, 0) == PStep::Cmd(
                        cmd_view(c),
                        self.position as int,
                    ));
                }
                Result::Ok(c)
            },
            None => {
                proof {
                    assert(spec_parse_token(tsv, p0, 0) == PStep::Fail(Error::UnexpectedToken));
                }
                Result::Err(Error::UnexpectedToken)
            },
        }
    }

    /// Parses a `plate` command under the cursor: its payload is the next
    /// token, whatever its kind.
    pub fn parse_plate(&mut self) -> (r: Result<Command, Error>)
        requires
            old(self).wf(),
            old(self).position < old(self).tokens@.len(),
            old(self).toks()[old(self).position as int] is Plate,
        ensures
            final (self).wf(),
            final (self).tokens == old(self).tokens,
            old(self).position <= final (self).position <= final (self).tokens@.len(),
            match r {
                Result::Ok(c) => exists|fuel: nat|
                    spec_parse_token(old(self).toks(), old(self).position as int, fuel)
                        == PStep::Cmd(cmd_view(c), final (self).position as int),
                Result::Err(e) => exists|fuel: nat|
                    spec_parse_token(old(self).toks(), old(self).position as int, fuel)
                        == PStep::Fail(e),
            },
    {
        let ghost tsv = self.toks();
        let ghost p0 = self.position as int;
        proof {
            lemma_toks_view(self.tokens@);
        }
        match self.expect_token(Token::Plate) {
            Some(_) => {},
            None => {
                proof {
                    assert(false);
                }
                return Result::Err(Error::UnexpectedToken);
            },
        }
        match self.next_token() {
            Some(t) => {
                let c = Command::Plate { value: t };
                proof {
                    assert(spec_parse_token(tsv, p0, 0) == PStep::Cmd(
                        cmd_view(c),
                        self.position as int,
                    ));
                }
                Result::Ok(c)
            },
            None => {
                proof {
                    assert(spec_parse_token(tsv, p0, 0) == PStep::Fail(Error::UnexpectedToken));
                }
                Result::Err(Error::UnexpectedToken)
            },
        }
    }

    /// Parses a `layer` command under the cursor; its string-literal body
    /// is lexed and parsed eagerly into the loop's commands.
    pub fn parse_layer(&mut self) -> (r: Result<Command, Error>)
        requires
            old(self).wf(),
            old(self).position < old(self).tokens@.len(),
            old(self).toks()[old(self).position as int] is Layer,
        ensures
            final (self).wf(),
            final (self).tokens == old(self).tokens,
            old(self).position <= final (self).position <= final (self).tokens@.len(),
            match r {
                Result::Ok(c) => exists|fuel: nat|
                    spec_parse_token(old(self).toks(), old(self).position as int, fuel)
                        == PStep::Cmd(cmd_view(c), final (self).position as int),
                Result::Err(e) => exists|fuel: nat|
                    spec_parse_token(old(self).toks(), old(self).position as int, fuel)
                        == PStep::Fail(e),
            },
        decreases toksv_measure(toks_view(old(self).tokens@)), 0int,
    {
        let ghost tsv = self.toks();
        let ghost p0 = self.position as int;
        proof {
            lemma_toks_view(self.tokens@);
        }
        match self.expect_token(Token::Layer) {
            Some(_) => {},
            None => {
                proof {
                    assert(false);
                }
                return Result::Err(Error::UnexpectedToken);
            },
        }
        let left = match self.expect_operand() {
            Some(t) => t,
            None => {
                proof {
                    assert(spec_parse_token(tsv, p0, 1) == PStep::Fail(Error::UnexpectedToken));
                }
                return Result::Err(Error::UnexpectedToken);
            },
        };
        let comparison = match self.expect_comparison() {
            Some(t) => t,
            None => {
                proof {
                    assert(spec_parse_token(tsv, p0, 1) == PStep::Fail(Error::UnexpectedToken));
                }
                return Result::Err(Error::UnexpectedToken);
            },
        };
        let right = match self.expect_operand() {
            Some(t) => t,
            None => {
                proof {
                    assert(spec_parse_token(tsv, p0, 1) == PStep::Fail(Error::UnexpectedToken));
                }
                return Result::Err(Error::UnexpectedToken);
            },
        };
        let body = match self.expect_string_literal() {
            Some(s) => s,
            None => {
                proof {
                    assert(spec_parse_token(tsv, p0, 1) == PStep::Fail(Error::UnexpectedToken));
                }
                return Result::Err(Error::UnexpectedToken);
            },
        };
        let mut body_lexer = Lexer::new(body.as_str());
        let bts = match body_lexer.lex() {
            Result::Ok(bts) => bts,
            Result::Err(e) => {
                proof {
                    assert(spec_parse_token(tsv, p0, 1) == PStep::Fail(e));
                }
                return Result::Err(e);
            },
        };
        let body_tokens = self.unwrap_body(bts);
        proof {
            assert(toks_view(body_tokens@) == unwrap_block(
                spec_lex(tsv[p0 + 4]->StringLiteral_0)->Ok_0,
            ));
            crate::lexer::lemma_lex_measure(body@, 0);
            lemma_toksv_measure_index(tsv, p0 + 4);
            assert(tokv_measure(tsv[p0 + 4]) == 1 + body@.len());
        }
        let mut sub = Parser::new(body_tokens);
        match sub.parse() {
            Result::Ok(cs) => {
                let c = Command::Layer {
                    left_value: left,
                    comparison,
                    right_value: right,
                    commands: cs,
                };
                proof {
                    let fb = choose|fb: nat|
                        spec_parse_cmds(toks_view(sub.tokens@), 0, fb) == ParseResult::Cmds(
                            cmds_view(cs@),
                        );
                    assert(spec_parse_token(tsv, p0, fb + 1) == PStep::Cmd(
                        cmd_view(c),
                        self.position as int,
                    ));
                }
                Result::Ok(c)
            },
            Result::Err(e) => {
                proof {
                    let fb = choose|fb: nat|
                        spec_parse_cmds(toks_view(sub.tokens@), 0, fb) == ParseResult::Fail(e);
                    assert(spec_parse_token(tsv, p0, fb + 1) == PStep::Fail(e));
                }
                Result::Err(e)
            },
        }
    }

    /// Parses a `simmer` command under the cursor; its brace-block body is
    /// parsed eagerly into the loop's commands.
    pub fn parse_simmer(&mut self) -> (r: Result<Command, Error>)
        requires
            old(self).wf(),
            old(self).position < old(self).tokens@.len(),
            old(self).toks()[old(self).position as int] is Simmer,
        ensures
            final (self).wf(),
            final (self).tokens == old(self).tokens,
            old(self).position <= final (self).position <= final (self).tokens@.len(),
            match r {
                Result::Ok(c) => exists|fuel: nat|
                    spec_parse_token(old(self).toks(), old(self).position as int, fuel)
                        == PStep::Cmd(cmd_view(c), final (self).position as int),
                Result::Err(e) => exists|fuel: nat|
                    spec_parse_token(old(self).toks(), old(self).position as int, fuel)
                        == PStep::Fail(e),
            },
        decreases toksv_measure(toks_view(old(self).tokens@)), 0int,
    {
        let ghost tsv = self.toks();
        let ghost p0 = self.position as int;
        proof {
            lemma_toks_view(self.tokens@);
        }
        match self.expect_token(Token::Simmer) {
            Some(_) => {},
            None => {
                proof {
                    assert(false);
                }
                return Result::Err(Error::UnexpectedToken);
            },
        }
        let identifier = match self.expect_identifier() {
            Some(n) => n,
            None => {
                proof {
                    assert(spec_parse_token(tsv, p0, 1) == PStep::Fail(Error::UnexpectedToken));
                }
                return Result::Err(Error::UnexpectedToken);
            },
        };
        match self.expect_token(Token::In) {
            Some(_) => {},
            None => {
                proof {
                    assert(spec_parse_token(tsv, p0, 1) == PStep::Fail(Error::UnexpectedToken));
                }
                return Result::Err(Error::UnexpectedToken);
            },
        }
        let array_identifier = match self.expect_identifier() {
            Some(n) => n,
            None => {
                proof {
                    assert(spec_parse_token(tsv, p0, 1) == PStep::Fail(Error::UnexpectedToken));
                }
                return Result::Err(Error::UnexpectedToken);
            },
        };
        let body_tokens = match self.expect_block() {
            Some(ts) => ts,
            None => {
                proof {
                    assert(spec_parse_token(tsv, p0, 1) == PStep::Fail(Error::UnexpectedToken));
                }
                return Result::Err(Error::UnexpectedToken);
            },
        };
        proof {
            lemma_toksv_measure_index(tsv, p0 + 4);
            assert(tokv_measure(tsv[p0 + 4]) == 1 + toksv_measure(toks_view(body_tokens@)));
        }
        let mut sub = Parser::new(body_tokens);
        match sub.parse() {
            Result::Ok(cs) => {
                let c = Command::Simmer { identifier, array_identifier, commands: cs };
                proof {
                    let fb = choose|fb: nat|
                        spec_parse_cmds(toks_view(sub.tokens@), 0, fb) == ParseResult::Cmds(
                            cmds_view(cs@),
                        );
                    assert(spec_parse_token(tsv, p0, fb + 1) == PStep::Cmd(
                        cmd_view(c),
                        self.position as int,
                    ));
                }
                Result::Ok(c)
            },
            Result::Err(e) => {
                proof {
                    let fb = choose|fb: nat|
                        spec_parse_cmds(toks_view(sub.tokens@), 0, fb) == ParseResult::Fail(e);
                    assert(spec_parse_token(tsv, p0, fb + 1) == PStep::Fail(e));
                }
                Result::Err(e)
            },
        }
    }

    /// Parses a `recipe` command under the cursor; its string-literal body
    /// is lexed and parsed eagerly into the function's commands.
    pub fn parse_recipe(&mut self) -> (r: Result<Command, Error>)
        requires
            old(self).wf(),
            old(self).position < old(self).tokens@.len(),
            old(self).toks()[old(self).position as int] is Recipe,
        ensures
            final (self).wf(),
            final (self).tokens == old(self).tokens,
            old(self).position <= final (self).position <= final (self).tokens@.len(),
            match r {
                Result::Ok(c) => exists|fuel: nat|
                    spec_parse_token(old(self).toks(), old(self).position as int, fuel)
                        == PStep::Cmd(cmd_view(c), final (self).position as int),
                Result::Err(e) => exists|fuel: nat|
                    spec_parse_token(old(self).toks(), old(self).position as int, fuel)
                        == PStep::Fail(e),
            },
        decreases toksv_measure(toks_view(old(self).tokens@)), 0int,
    {
        let ghost tsv = self.toks();
        let ghost p0 = self.position as int;
        proof {
            lemma_toks_view(self.tokens@);
        }
        match self.expect_token(Token::Recipe) {
            Some(_) => {},
            None => {
                proof {
                    assert(false);
                }
                return Result::Err(Error::UnexpectedToken);
            },
        }
        let identifier = match self.expect_identifier() {
            Some(n) => n,
            None => {
                proof {
                    assert(spec_parse_token(tsv, p0, 1) == PStep::Fail(Error::UnexpectedToken));
                }
                return Result::Err(Error::UnexpectedToken);
            },
        };
        let params = match self.expect_params() {
            Some(ps) => ps,
            None => {
                proof {
                    assert(spec_parse_token(tsv, p0, 1) == PStep::Fail(Error::UnexpectedToken));
                }
                return Result::Err(Error::UnexpectedToken);
            },
        };
        let body = match self.expect_string_literal() {
            Some(s) => s,
            None => {
                proof {
                    assert(spec_parse_token(tsv, p0, 1) == PStep::Fail(Error::UnexpectedToken));
                }
                return Result::Err(Error::UnexpectedToken);
            },
        };
        let mut body_lexer = Lexer::new(body.as_str());
        let bts = match body_lexer.lex() {
            Result::Ok(bts) => bts,
            Result::Err(e) => {
                proof {
                    assert(spec_parse_token(tsv, p0, 1) == PStep::Fail(e));
                }
                return Result::Err(e);
            },
        };
        let body_tokens = self.unwrap_body(bts);
        proof {
            assert(toks_view(body_tokens@) == unwrap_block(
                spec_lex(tsv[p0 + 3]->StringLiteral_0)->Ok_0,
            ));
            crate::lexer::lemma_lex_measure(body@, 0);
            lemma_toksv_measure_index(tsv, p0 + 3);
            assert(tokv_measure(tsv[p0 + 3]) == 1 + body@.len());
        }
        let mut sub = Parser::new(body_tokens);
        match sub.parse() {
            Result::Ok(cs) => {
                let c = Command::Recipe { identifier, params, commands: cs };
                proof {
                    let fb = choose|fb: nat|
                        spec_parse_cmds(toks_view(sub.tokens@), 0, fb) == ParseResult::Cmds(
                            cmds_view(cs@),
                        );
                    assert(spec_parse_token(tsv, p0, fb + 1) == PStep::Cmd(
                        cmd_view(c),
                        self.position as int,
                    ));
                }
                Result::Ok(c)
            },
            Result::Err(e) => {
                proof {
                    let fb = choose|fb: nat|
                        spec_parse_cmds(toks_view(sub.tokens@), 0, fb) == ParseResult::Fail(e);
                    assert(spec_parse_token(tsv, p0, fb + 1) == PStep::Fail(e));
                }
                Result::Err(e)
            },
        }
    }

    /// Takes a lexed body: when the tokens form exactly one brace block,
    /// its contents, otherwise the tokens themselves.
    fn unwrap_body(&self, bts: Vec<Token>) -> (r: Vec<Token>)
        ensures
            toks_view(r@) == unwrap_block(toks_view(bts@)),
            toksv_measure(toks_view(r@)) <= toksv_measure(toks_view(bts@)),
    {
        let ghost orig = bts@;
        proof {
            lemma_toks_view(bts@);
        }
        if bts.len() == 1 && block_token(&bts[0]) {
            let mut bts = bts;
            let first = bts.remove(0);
            proof {
                assert(toks_view(bts@) =~= Seq::<TokenView>::empty());
                assert(toks_view(orig) =~= seq![tok_view(first)]);
                assert(seq![tok_view(first)].drop_first() =~= Seq::<TokenView>::empty());
                assert(toksv_measure(seq![tok_view(first)]) == tokv_measure(tok_view(first))
                    + toksv_measure(seq![tok_view(first)].drop_first()));
                assert(toksv_measure(Seq::<TokenView>::empty()) == 0);
                assert(toksv_measure(toks_view(orig)) == tokv_measure(tok_view(first)));
            }
            match first {
                Token::Block(inner) => {
                    proof {
                        lemma_toks_view(inner@);
                    }
                    inner
                },
                _ => {
                    proof {
                        assert(false);
                    }
                    bts
                },
            }
        } else {
            bts
        }
    }

    /// One parsing step: the leading token selects the production; an
    /// exhausted token sequence ends the parse.
    pub fn parse_token(&mut self) -> (r: Result<Option<Command>, Error>)
        requires
            old(self).wf(),
        ensures
            final (self).wf(),
            final (self).tokens == old(self).tokens,
            old(self).position <= final (self).position <= final (self).tokens@.len(),
            match r {
                Result::Ok(Some(c)) => exists|fuel: nat|
                    spec_parse_token(old(self).toks(), old(self).position as int, fuel)
                        == PStep::Cmd(cmd_view(c), final (self).position as int),
                Result::Ok(None) => old(self).position >= old(self).tokens@.len() && final (self).position == old(self).position,
                Result::Err(e) => exists|fuel: nat|
                    spec_parse_token(old(self).toks(), old(self).position as int, fuel)
                        == PStep::Fail(e),
            },
        decreases toksv_measure(toks_view(old(self).tokens@)), 1int,
    {
        let ghost tsv = self.toks();
        let ghost p0 = self.position as int;
        proof {
            lemma_toks_view(self.tokens@);
        }
        let t = match self.curr_token() {
            Some(t) => t,
            None => {
                return Result::Ok(None);
            },
        };
        match t {
            Token::Ingredient => match self.parse_ingredient() {
                Result::Ok(c) => Result::Ok(Some(c)),
                Result::Err(e) => Result::Err(e),
            },
            Token::Taste => match self.parse_taste() {
                Result::Ok(c) => Result::Ok(Some(c)),
                Result::Err(e) => Result::Err(e),
            },
            Token::Layer => match self.parse_layer() {
                Result::Ok(c) => Result::Ok(Some(c)),
                Result::Err(e) => Result::Err(e),
            },
            Token::Simmer => match self.parse_simmer() {
                Result::Ok(c) => Result::Ok(Some(c)),
                Result::Err(e) => Result::Err(e),
            },
            Token::Cook => match self.parse_cook() {
                Result::Ok(c) => Result::Ok(Some(c)),
                Result::Err(e) => Result::Err(e),
            },
            Token::Serve => match self.parse_serve() {
                Result::Ok(c) => Result::Ok(Some(c)),
                Result::Err(e) => Result::Err(e),
            },
            Token::Plate => match self.parse_plate() {
                Result::Ok(c) => Result::Ok(Some(c)),
                Result::Err(e) => Result::Err(e),
            },
            Token::Recipe => match self.parse_recipe() {
                Result::Ok(c) => Result::Ok(Some(c)),
                Result::Err(e) => Result::Err(e),
            },
            _ => {
                proof {
                    assert(spec_parse_token(tsv, p0, 0) == PStep::Fail(Error::UnexpectedToken));
                }
                Result::Err(Error::UnexpectedToken)
            },
        }
    }

    /// Parses the whole remainder of the tokens into a command sequence,
    /// stopping at the first fault.
    pub fn parse(&mut self) -> (r: Result<Vec<Command>, Error>)
        requires
            old(self).wf(),
        ensures
            final (self).wf(),
            final (self).tokens == old(self).tokens,
            old(self).position <= final (self).position <= final (self).tokens@.len(),
            match r {
                Result::Ok(cs) => exists|fuel: nat|
                    spec_parse_cmds(old(self).toks(), old(self).position as int, fuel)
                        == ParseResult::Cmds(cmds_view(cs@)),
                Result::Err(e) => exists|fuel: nat|
                    spec_parse_cmds(old(self).toks(), old(self).position as int, fuel)
                        == ParseResult::Fail(e),
            },
        decreases toksv_measure(toks_view(old(self).tokens@)), 2int,
    {
        let ghost tsv = self.toks();
        let ghost p0 = self.position as int;
        let mut commands: Vec<Command> = Vec::new();
        proof {
            assert(cmds_view(commands@) =~= Seq::<CommandView>::empty());
        }
        loop
            invariant
                self.wf(),
                self.tokens == old(self).tokens,
                tsv == toks_view(self.tokens@),
                p0 == old(self).position as int,
                0 <= p0 <= self.position,
                self.position <= self.tokens@.len(),
                forall|f: nat|
                    !(#[trigger] spec_parse_cmds(tsv, self.position as int, f) is Short)
                        ==> exists|f0: nat|
                        spec_parse_cmds(tsv, p0, f0) == pr_prepend(
                            cmds_view(commands@),
                            spec_parse_cmds(tsv, self.position as int, f),
                        ),
            decreases self.tokens@.len() - self.position,
        {
            let ghost pre = self.position as int;
            let ghost front = cmds_view(commands@);
            match self.parse_token() {
                Result::Ok(Some(c)) => {
                    let ghost cv = cmd_view(c);
                    let ghost npos = self.position as int;
                    let ghost fc = choose|fc: nat|
                        spec_parse_token(tsv, pre, fc) == PStep::Cmd(cv, npos);
                    proof {
                        lemma_parse_token_advances(tsv, pre, fc);
                    }
                    let ghost cmds_old = commands@;
                    commands.push(c);
                    proof {
                        lemma_cmds_view_push(cmds_old, c);
                        assert forall|f: nat|
                            !(#[trigger] spec_parse_cmds(tsv, npos, f) is Short) implies exists|
                            f0: nat,
                        |
                            spec_parse_cmds(tsv, p0, f0) == pr_prepend(
                                cmds_view(commands@),
                                spec_parse_cmds(tsv, npos, f),
                            ) by {
                            let rr = spec_parse_cmds(tsv, npos, f);
                            let fmax: nat = if f > fc {
                                f
                            } else {
                                fc
                            };
                            lemma_parse_token_mono(tsv, pre, fc, fmax);
                            lemma_parse_cmds_mono(tsv, npos, f, fmax);
                            assert(spec_parse_cmds(tsv, pre, fmax) == pr_prepend(seq![cv], rr));
                            assert(exists|f0: nat|
                                spec_parse_cmds(tsv, p0, f0) == pr_prepend(
                                    front,
                                    pr_prepend(seq![cv], rr),
                                ));
                            let f0 = choose|f0: nat|
                                spec_parse_cmds(tsv, p0, f0) == pr_prepend(
                                    front,
                                    pr_prepend(seq![cv], rr),
                                );
                            match rr {
                                ParseResult::Cmds(rest) => {
                                    assert(front + (seq![cv] + rest) =~= front.push(cv) + rest);
                                },
                                _ => {},
                            }
                            assert(spec_parse_cmds(tsv, p0, f0) == pr_prepend(
                                cmds_view(commands@),
                                rr,
                            ));
                        }
                    }
                },
                Result::Ok(None) => {
                    proof {
                        lemma_toks_view(self.tokens@);
                        assert(spec_parse_cmds(tsv, self.position as int, 0) == ParseResult::Cmds(
                            Seq::empty(),
                        ));
                        assert(front + Seq::<CommandView>::empty() =~= front);
                        assert(pr_prepend(front, ParseResult::Cmds(Seq::empty()))
                            == ParseResult::Cmds(front));
                        let f0 = choose|f0: nat|
                            spec_parse_cmds(tsv, p0, f0) == pr_prepend(
                                front,
                                spec_parse_cmds(tsv, self.position as int, 0),
                            );
                        assert(spec_parse_cmds(old(self).toks(), old(self).position as int, f0)
                            == ParseResult::Cmds(cmds_view(commands@)));
                    }
                    return Result::Ok(commands);
                },
                Result::Err(e) => {
                    proof {
                        let fe = choose|fe: nat| spec_parse_token(tsv, pre, fe) == PStep::Fail(e);
                        assert(spec_parse_cmds(tsv, pre, fe) == ParseResult::Fail(e));
                        let f0 = choose|f0: nat|
                            spec_parse_cmds(tsv, p0, f0) == pr_prepend(
                                front,
                                spec_parse_cmds(tsv, pre, fe),
                            );
                        assert(spec_parse_cmds(old(self).toks(), old(self).position as int, f0)
                            == ParseResult::Fail(e));
                    }
                    return Result::Err(e);
                },
            }
        }
    }
}

} // verus!
