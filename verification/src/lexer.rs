//! The lexer: a single left-to-right scan turning characters into tokens.
//!
//! At each position the scanner tries, in a fixed priority order: a keyword
//! (the whole run of letters and underscores, looked up in a closed table,
//! so that no keyword shadows a longer one), a brace-delimited block (lexed
//! recursively), a bracket-delimited array literal, a quoted string, a
//! blank, an arithmetic operator, a digit run, and an alphanumeric run. Any
//! other character ends the scan. The specification-level scanner
//! `spec_lex_from` fixes the token sequence that `lex` must produce.

use vstd::prelude::*;
use vstd::string::StrSliceExecFns;

use crate::errors::Error;
use crate::tokens::{lemma_toks_view, lemma_toks_view_push, tok_view, toks_view, tokv_measure,
    toksv_measure, MathsOperations, Token, TokenView, ValueType};

verus! {

/// A capital or small letter.
pub open spec fn is_alpha(c: char) -> bool {
    (65 <= c as u32 && c as u32 <= 90) || (97 <= c as u32 && c as u32 <= 122)
}

/// A character that may stand in a keyword: a letter or an underscore.
pub open spec fn is_kw_char(c: char) -> bool {
    is_alpha(c) || c == '_'
}

/// A decimal digit.
pub open spec fn is_digit(c: char) -> bool {
    48 <= c as u32 && c as u32 <= 57
}

/// The value of a decimal digit.
pub open spec fn digit_val(c: char) -> int {
    c as u32 - 48
}

/// A character that may stand in an identifier: a letter or a digit.
pub open spec fn is_alnum(c: char) -> bool {
    is_alpha(c) || is_digit(c)
}

/// The arithmetic operator a character denotes, if any.
pub open spec fn maths_op(c: char) -> Option<MathsOperations> {
    if c == '+' {
        Some(MathsOperations::Plus)
    } else if c == '-' {
        Some(MathsOperations::Minus)
    } else if c == '*' {
        Some(MathsOperations::Multiply)
    } else if c == '/' {
        Some(MathsOperations::Division)
    } else if c == '%' {
        Some(MathsOperations::Mod)
    } else {
        None
    }
}

/// The first position at or after `pos` whose character fails `p`, or the
/// end of the input.
pub open spec fn run_end(s: Seq<char>, pos: int, p: spec_fn(char) -> bool) -> int
    decreases s.len() - pos,
{
    if pos < 0 || pos >= s.len() || !p(s[pos]) {
        pos
    } else {
        run_end(s, pos + 1, p)
    }
}

pub proof fn lemma_run_end(s: Seq<char>, pos: int, p: spec_fn(char) -> bool)
    requires
        0 <= pos <= s.len(),
    ensures
        pos <= run_end(s, pos, p) <= s.len(),
        forall|i: int| pos <= i < run_end(s, pos, p) ==> p(s[i]),
        run_end(s, pos, p) < s.len() ==> !p(s[run_end(s, pos, p)]),
    decreases s.len() - pos,
{
    if pos < s.len() && p(s[pos]) {
        lemma_run_end(s, pos + 1, p);
    }
}

/// A run whose characters all satisfy `p`, bounded by one that does not
/// (or by the end of the input), ends exactly there.
pub proof fn lemma_run_end_exact(s: Seq<char>, pos: int, p: spec_fn(char) -> bool, e: int)
    requires
        0 <= pos <= e <= s.len(),
        forall|i: int| pos <= i < e ==> p(s[i]),
        e < s.len() ==> !p(s[e]),
    ensures
        run_end(s, pos, p) == e,
    decreases e - pos,
{
    if pos < e {
        lemma_run_end_exact(s, pos + 1, p, e);
    }
}

/// The keyword or comparison a whole word denotes, if any.
pub open spec fn keyword_of(w: Seq<char>) -> Option<TokenView> {
    if w == "ingredient"@ {
        Some(TokenView::Ingredient)
    } else if w == "taste_again"@ {
        Some(TokenView::TasteAgain)
    } else if w == "tasteless"@ {
        Some(TokenView::Tasteless)
    } else if w == "taste"@ {
        Some(TokenView::Taste)
    } else if w == "layer"@ {
        Some(TokenView::Layer)
    } else if w == "simmer"@ {
        Some(TokenView::Simmer)
    } else if w == "cook"@ {
        Some(TokenView::Cook)
    } else if w == "burnt"@ {
        Some(TokenView::Burnt)
    } else if w == "serve"@ {
        Some(TokenView::Serve)
    } else if w == "plate"@ {
        Some(TokenView::Plate)
    } else if w == "recipe"@ {
        Some(TokenView::Recipe)
    } else if w == "open"@ {
        Some(TokenView::Fresh)
    } else if w == "close"@ {
        Some(TokenView::Spoiled)
    } else if w == "mix"@ {
        Some(TokenView::Mix)
    } else if w == "separate"@ {
        Some(TokenView::Separate)
    } else if w == "is"@ {
        Some(TokenView::Is)
    } else if w == "in"@ {
        Some(TokenView::In)
    } else if w == "hotter"@ {
        Some(TokenView::Hotter)
    } else if w == "cooler"@ {
        Some(TokenView::Cooler)
    } else if w == "same"@ {
        Some(TokenView::Same)
    } else if w == "notsame"@ {
        Some(TokenView::NotSame)
    } else if w == "hotorsame"@ {
        Some(TokenView::HotOrSame)
    } else if w == "coolorsame"@ {
        Some(TokenView::CoolOrSame)
    } else {
        None
    }
}

/// One step of the scan: a token with the position after it, the end of the
/// scan, or a lexical fault.
pub enum LexStep {
    Tok(TokenView, int),
    End,
    Fail(Error),
}

/// Scans a number at `pos`, one digit per step, into the accumulator. A
/// value that leaves the machine range is a fault.
pub open spec fn spec_number(s: Seq<char>, pos: int, acc: i64) -> LexStep
    decreases s.len() - pos,
{
    if pos < 0 || pos >= s.len() || !is_digit(s[pos]) {
        LexStep::Tok(TokenView::Number(acc), pos)
    } else {
        match acc.checked_mul(10) {
            Some(a10) => match a10.checked_add(digit_val(s[pos]) as i64) {
                Some(acc2) => spec_number(s, pos + 1, acc2),
                None => LexStep::Fail(Error::Overflow),
            },
            None => LexStep::Fail(Error::Overflow),
        }
    }
}

/// Scans the inside of a number array. A minus sign flips the sign of the
/// digit run that follows it; a digit extends the run in progress (`cur`);
/// any other character closes the run, pushing its value; the closing
/// bracket ends the array, and reaching the end of the input without one
/// is a fault.
pub open spec fn spec_num_array(
    s: Seq<char>,
    pos: int,
    acc: Seq<i64>,
    cur: Option<i64>,
    neg: bool,
) -> LexStep
    decreases s.len() - pos,
{
    if pos < 0 || pos >= s.len() {
        LexStep::Fail(Error::UnterminatedArray)
    } else if is_digit(s[pos]) {
        let d = digit_val(s[pos]) as i64;
        let stepped: Option<i64> = match cur {
            None => if neg {
                Some((-d) as i64)
            } else {
                Some(d)
            },
            Some(x) => match x.checked_mul(10) {
                Some(x10) => if neg {
                    x10.checked_sub(d)
                } else {
                    x10.checked_add(d)
                },
                None => None,
            },
        };
        match stepped {
            Some(x2) => spec_num_array(s, pos + 1, acc, Some(x2), neg),
            None => LexStep::Fail(Error::Overflow),
        }
    } else {
        let acc2 = match cur {
            Some(x) => acc.push(x),
            None => acc,
        };
        if s[pos] == ']' {
            LexStep::Tok(TokenView::ArrayNumber(acc2), pos + 1)
        } else if s[pos] == '-' {
            spec_num_array(s, pos + 1, acc2, None, true)
        } else {
            spec_num_array(s, pos + 1, acc2, None, false)
        }
    }
}

/// Scans the inside of a string array. A quote toggles the open flag; a
/// comma inside quotes also closes the element; characters inside quotes
/// accumulate; the closing bracket ends the array, and reaching the end of
/// the input without one is a fault.
pub open spec fn spec_str_array(
    s: Seq<char>,
    pos: int,
    acc: Seq<Seq<char>>,
    cur: Seq<char>,
    open: bool,
) -> LexStep
    decreases s.len() - pos,
{
    if pos < 0 || pos >= s.len() {
        LexStep::Fail(Error::UnterminatedArray)
    } else if s[pos] == ']' {
        LexStep::Tok(TokenView::ArrayString(acc), pos + 1)
    } else if s[pos] == '"' || (open && s[pos] == ',') {
        if open {
            spec_str_array(s, pos + 1, acc.push(cur), Seq::empty(), false)
        } else {
            spec_str_array(s, pos + 1, acc, cur, true)
        }
    } else if open {
        spec_str_array(s, pos + 1, acc, cur.push(s[pos]), true)
    } else {
        spec_str_array(s, pos + 1, acc, cur, false)
    }
}

/// Scans the inside of a parameter list: bare names separated by commas. A
/// blank is a fault; the closing bracket ends the list, keeping a pending
/// nonempty name, and reaching the end of the input without one is a
/// fault.
pub open spec fn spec_params(s: Seq<char>, pos: int, acc: Seq<Seq<char>>, cur: Seq<char>) -> LexStep
    decreases s.len() - pos,
{
    if pos < 0 || pos >= s.len() {
        LexStep::Fail(Error::UnterminatedArray)
    } else if s[pos] == ' ' {
        LexStep::Fail(Error::SpaceInParams)
    } else if s[pos] == ',' {
        spec_params(s, pos + 1, acc.push(cur), Seq::empty())
    } else if s[pos] == ']' {
        LexStep::Tok(
            TokenView::ArrayString(
                if cur.len() > 0 {
                    acc.push(cur)
                } else {
                    acc
                },
            ),
            pos + 1,
        )
    } else {
        spec_params(s, pos + 1, acc, cur.push(s[pos]))
    }
}

/// The keyword-run predicate.
pub open spec fn kw_pred() -> spec_fn(char) -> bool {
    |c: char| is_kw_char(c)
}

/// The identifier-run predicate.
pub open spec fn alnum_pred() -> spec_fn(char) -> bool {
    |c: char| is_alnum(c)
}

/// Holds until a closing quote.
pub open spec fn not_quote_pred() -> spec_fn(char) -> bool {
    |c: char| c != '"'
}

/// Holds until a closing brace.
pub open spec fn not_rbrace_pred() -> spec_fn(char) -> bool {
    |c: char| c != '}'
}

/// One step of the scan at `pos`: the token found there and the position
/// after it, the end of the scan, or a fault.
pub open spec fn spec_next_token(s: Seq<char>, pos: int) -> LexStep
    decreases s.len() - pos, 0int,
        when 0 <= pos <= s.len()
    via spec_next_token_dec
{
    if pos >= s.len() {
        LexStep::End
    } else {
        let c = s[pos];
        let kwe = run_end(s, pos, kw_pred());
        if is_kw_char(c) && keyword_of(s.subrange(pos, kwe)) is Some {
            LexStep::Tok(keyword_of(s.subrange(pos, kwe)).unwrap(), kwe)
        } else if c == '{' {
            let cend = run_end(s, pos + 1, not_rbrace_pred());
            if cend >= s.len() {
                LexStep::Fail(Error::UnterminatedBlock)
            } else {
                match spec_lex_from(s.subrange(pos + 1, cend), 0) {
                    Result::Ok(ts) => LexStep::Tok(TokenView::Block(ts), cend + 1),
                    Result::Err(e) => LexStep::Fail(e),
                }
            }
        } else if c == '[' {
            if pos + 1 >= s.len() {
                LexStep::Fail(Error::UnterminatedArray)
            } else if s[pos + 1] == '"' {
                spec_str_array(s, pos + 1, Seq::empty(), Seq::empty(), false)
            } else {
                spec_num_array(s, pos + 1, Seq::empty(), None, false)
            }
        } else if c == '"' {
            let close = run_end(s, pos + 1, not_quote_pred());
            if close >= s.len() {
                LexStep::Fail(Error::UnterminatedString)
            } else {
                LexStep::Tok(TokenView::StringLiteral(s.subrange(pos + 1, close)), close + 1)
            }
        } else if c == ' ' {
            LexStep::Tok(TokenView::Space, pos + 1)
        } else if maths_op(c) is Some {
            LexStep::Tok(TokenView::Maths(maths_op(c).unwrap()), pos + 1)
        } else if is_digit(c) {
            spec_number(s, pos, 0)
        } else if is_alnum(c) {
            let ae = run_end(s, pos, alnum_pred());
            LexStep::Tok(TokenView::Identifier(s.subrange(pos, ae)), ae)
        } else {
            LexStep::End
        }
    }
}

/// The token sequence of the input from `pos` on: the scan's tokens in
/// order, blanks dropped, ending at the first unrecognized character or at
/// the end of the input; a lexical fault fails the whole scan.
pub open spec fn spec_lex_from(s: Seq<char>, pos: int) -> Result<Seq<TokenView>, Error>
    decreases s.len() - pos, 1int,
        when 0 <= pos <= s.len()
{
    if pos >= s.len() {
        Result::Ok(Seq::empty())
    } else {
        match spec_next_token(s, pos) {
        LexStep::End => Result::Ok(Seq::empty()),
        LexStep::Fail(e) => Result::Err(e),
        LexStep::Tok(t, newpos) => {
            // A produced token always stands strictly between its start and
            // the end of the input (`lemma_next_token_advances`); the bounds
            // here only make that evident to the termination check.
            let np = if newpos <= pos {
                pos + 1
            } else if newpos > s.len() {
                s.len() as int
            } else {
                newpos
            };
            match spec_lex_from(s, np) {
                Result::Ok(rest) => Result::Ok(
                    if t is Space {
                        rest
                    } else {
                        seq![t] + rest
                    },
                ),
                Result::Err(e) => Result::Err(e),
            }
        },
        }
    }
}

/// The token sequence of a whole input.
pub open spec fn spec_lex(s: Seq<char>) -> Result<Seq<TokenView>, Error> {
    spec_lex_from(s, 0)
}

pub proof fn lemma_spec_number_bounds(s: Seq<char>, pos: int, acc: i64)
    requires
        0 <= pos <= s.len(),
    ensures
        match spec_number(s, pos, acc) {
            LexStep::Tok(t, p) => pos <= p <= s.len() && t is Number,
            _ => true,
        },
    decreases s.len() - pos,
{
    if 0 <= pos < s.len() && is_digit(s[pos]) {
        match acc.checked_mul(10) {
            Some(a10) => match a10.checked_add(digit_val(s[pos]) as i64) {
                Some(acc2) => {
                    lemma_spec_number_bounds(s, pos + 1, acc2);
                },
                None => {},
            },
            None => {},
        }
    }
}

pub proof fn lemma_spec_num_array_bounds(
    s: Seq<char>,
    pos: int,
    acc: Seq<i64>,
    cur: Option<i64>,
    neg: bool,
)
    requires
        0 <= pos <= s.len(),
    ensures
        match spec_num_array(s, pos, acc, cur, neg) {
            LexStep::Tok(t, p) => pos <= p <= s.len() && t is ArrayNumber,
            _ => true,
        },
    decreases s.len() - pos,
{
    if 0 <= pos < s.len() {
        if is_digit(s[pos]) {
            let d = digit_val(s[pos]) as i64;
            let stepped: Option<i64> = match cur {
                None => if neg {
                    Some((-d) as i64)
                } else {
                    Some(d)
                },
                Some(x) => match x.checked_mul(10) {
                    Some(x10) => if neg {
                        x10.checked_sub(d)
                    } else {
                        x10.checked_add(d)
                    },
                    None => None,
                },
            };
            match stepped {
                Some(x2) => {
                    lemma_spec_num_array_bounds(s, pos + 1, acc, Some(x2), neg);
                },
                None => {},
            }
        } else if s[pos] == ']' {
        } else {
            let acc2 = match cur {
                Some(x) => acc.push(x),
                None => acc,
            };
            lemma_spec_num_array_bounds(s, pos + 1, acc2, None, s[pos] == '-');
        }
    }
}

pub proof fn lemma_spec_str_array_bounds(
    s: Seq<char>,
    pos: int,
    acc: Seq<Seq<char>>,
    cur: Seq<char>,
    open: bool,
)
    requires
        0 <= pos <= s.len(),
    ensures
        match spec_str_array(s, pos, acc, cur, open) {
            LexStep::Tok(t, p) => pos <= p <= s.len() && t is ArrayString,
            _ => true,
        },
    decreases s.len() - pos,
{
    if 0 <= pos < s.len() && s[pos] != ']' {
        if s[pos] == '"' || (open && s[pos] == ',') {
            if open {
                lemma_spec_str_array_bounds(s, pos + 1, acc.push(cur), Seq::empty(), false);
            } else {
                lemma_spec_str_array_bounds(s, pos + 1, acc, cur, true);
            }
        } else if open {
            lemma_spec_str_array_bounds(s, pos + 1, acc, cur.push(s[pos]), true);
        } else {
            lemma_spec_str_array_bounds(s, pos + 1, acc, cur, false);
        }
    }
}


/// A produced token stands strictly between its start and the end of the
/// input.
pub proof fn lemma_next_token_advances(s: Seq<char>, pos: int)
    requires
        0 <= pos <= s.len(),
    ensures
        match spec_next_token(s, pos) {
            LexStep::Tok(t, p) => pos < p <= s.len(),
            _ => true,
        },
{
    if pos < s.len() {
        let c = s[pos];
        lemma_run_end(s, pos, kw_pred());
        lemma_run_end(s, pos, alnum_pred());
        lemma_run_end(s, pos + 1, not_rbrace_pred());
        lemma_run_end(s, pos + 1, not_quote_pred());
        if is_kw_char(c) && keyword_of(s.subrange(pos, run_end(s, pos, kw_pred()))) is Some {
            assert(run_end(s, pos, kw_pred()) == run_end(s, pos + 1, kw_pred()));
            lemma_run_end(s, pos + 1, kw_pred());
        } else if c == '{' {
        } else if c == '[' {
            if pos + 1 < s.len() {
                if s[pos + 1] == '"' {
                    lemma_spec_str_array_bounds(s, pos + 1, Seq::empty(), Seq::empty(), false);
                } else {
                    lemma_spec_num_array_bounds(s, pos + 1, Seq::empty(), None, false);
                }
            }
        } else if c == '"' {
        } else if c == ' ' {
        } else if maths_op(c) is Some {
        } else if is_digit(c) {
            lemma_spec_number_bounds(s, pos + 1, digit_val(c) as i64);
            assert(spec_number(s, pos, 0) == if digit_val(c) as i64 == 0 {
                spec_number(s, pos + 1, 0)
            } else {
                spec_number(s, pos + 1, digit_val(c) as i64)
            });
            lemma_spec_number_bounds(s, pos + 1, 0);
        } else if is_alnum(c) {
            assert(run_end(s, pos, alnum_pred()) == run_end(s, pos + 1, alnum_pred()));
            lemma_run_end(s, pos + 1, alnum_pred());
        }
    }
}

#[via_fn]
proof fn spec_next_token_dec(s: Seq<char>, pos: int) {
    if 0 <= pos < s.len() && s[pos] == '{' {
        lemma_run_end(s, pos + 1, not_rbrace_pred());
    }
}

/// A token's structural size never exceeds the number of characters it was
/// scanned from.
pub proof fn lemma_next_token_measure(s: Seq<char>, pos: int)
    requires
        0 <= pos <= s.len(),
    ensures
        match spec_next_token(s, pos) {
            LexStep::Tok(t, np) => tokv_measure(t) <= np - pos,
            _ => true,
        },
    decreases s.len() - pos, 0int,
{
    lemma_next_token_advances(s, pos);
    if pos < s.len() {
        let c = s[pos];
        let kwe = run_end(s, pos, kw_pred());
        if is_kw_char(c) && keyword_of(s.subrange(pos, kwe)) is Some {
            assert(tokv_measure(keyword_of(s.subrange(pos, kwe)).unwrap()) == 1);
        } else if c == '{' {
            let cend = run_end(s, pos + 1, not_rbrace_pred());
            lemma_run_end(s, pos + 1, not_rbrace_pred());
            lemma_lex_measure(s.subrange(pos + 1, cend), 0);
        } else if c == '[' {
            if pos + 1 < s.len() {
                if s[pos + 1] == '"' {
                    lemma_spec_str_array_bounds(s, pos + 1, Seq::empty(), Seq::empty(), false);
                } else {
                    lemma_spec_num_array_bounds(s, pos + 1, Seq::empty(), None, false);
                }
            }
        } else if c == '"' {
            let close = run_end(s, pos + 1, not_quote_pred());
            lemma_run_end(s, pos + 1, not_quote_pred());
        } else if c == ' ' {
        } else if maths_op(c) is Some {
        } else if is_digit(c) {
            lemma_spec_number_bounds(s, pos + 1, digit_val(c) as i64);
            lemma_spec_number_bounds(s, pos + 1, 0);
            lemma_spec_number_bounds(s, pos, 0);
        }
    }
}

/// The total structural size of the scanned tokens never exceeds the
/// number of characters scanned.
pub proof fn lemma_lex_measure(s: Seq<char>, pos: int)
    requires
        0 <= pos <= s.len(),
    ensures
        match spec_lex_from(s, pos) {
            Result::Ok(ts) => toksv_measure(ts) <= s.len() - pos,
            _ => true,
        },
    decreases s.len() - pos, 1int,
{
    if pos < s.len() {
        lemma_next_token_advances(s, pos);
        lemma_next_token_measure(s, pos);
        match spec_next_token(s, pos) {
            LexStep::Tok(t, np) => {
                lemma_lex_measure(s, np);
                match spec_lex_from(s, np) {
                    Result::Ok(rest) => {
                        if !(t is Space) {
                            assert((seq![t] + rest)[0] == t);
                            assert((seq![t] + rest).drop_first() =~= rest);
                        }
                    },
                    _ => {},
                }
            },
            _ => {},
        }
    }
}

/// Whether a character may stand in a keyword.
fn char_is_kw(c: char) -> (r: bool)
    ensures
        r == is_kw_char(c),
{
    let u = c as u32;
    (65 <= u && u <= 90) || (97 <= u && u <= 122) || c == '_'
}

/// Whether a character is a decimal digit.
fn char_is_digit(c: char) -> (r: bool)
    ensures
        r == is_digit(c),
{
    let u = c as u32;
    48 <= u && u <= 57
}

/// Whether a character may stand in an identifier.
fn char_is_alnum(c: char) -> (r: bool)
    ensures
        r == is_alnum(c),
{
    char_is_kw(c) && c != '_' || char_is_digit(c)
}

/// The arithmetic operator a character denotes, if any.
fn char_maths_op(c: char) -> (r: Option<MathsOperations>)
    ensures
        r == maths_op(c),
{
    if c == '+' {
        Some(MathsOperations::Plus)
    } else if c == '-' {
        Some(MathsOperations::Minus)
    } else if c == '*' {
        Some(MathsOperations::Multiply)
    } else if c == '/' {
        Some(MathsOperations::Division)
    } else if c == '%' {
        Some(MathsOperations::Mod)
    } else {
        None
    }
}

/// Scans the input one character at a time, keeping the position of the
/// next character to read.
pub struct Lexer {
    pub input: String,
    pub position: usize,
}

impl Lexer {
    /// The scanner never stands past the end of its input.
    pub open spec fn wf(&self) -> bool {
        self.position <= self.input@.len()
    }

    /// A scanner over `input`, standing at its first character.
    pub fn new(input: &str) -> (r: Lexer)
        ensures
            r.wf(),
            r.input@ == input@,
            r.position == 0,
    {
        Lexer { input: input.to_owned(), position: 0 }
    }

    /// The character at position `i`.
    fn char_at(&self, i: usize) -> (c: char)
        requires
            i < self.input@.len(),
        ensures
            c == self.input@[i as int],
    {
        self.input.as_str().get_char(i)
    }

    /// The number of characters of the input.
    fn len(&self) -> (n: usize)
        ensures
            n == self.input@.len(),
    {
        self.input.as_str().unicode_len()
    }

    /// The character under the cursor, if any.
    pub fn curr_char(&self) -> (r: Option<char>)
        ensures
            r == if self.position < self.input@.len() {
                Some(self.input@[self.position as int])
            } else {
                None::<char>
            },
    {
        if self.position < self.len() {
            Some(self.char_at(self.position))
        } else {
            None
        }
    }

    /// The character under the cursor, consuming it.
    pub fn next_char(&mut self) -> (r: Option<char>)
        requires
            old(self).wf(),
        ensures
            final (self).wf(),
            final (self).input@ == old(self).input@,
            if old(self).position < old(self).input@.len() {
                r == Some(old(self).input@[old(self).position as int]) && final (self).position
                    == old(self).position + 1
            } else {
                r == None::<char> && final (self).position == old(self).position
            },
    {
        if self.position < self.len() {
            let c = self.char_at(self.position);
            self.advance(1);
            Some(c)
        } else {
            None
        }
    }

    /// Moves the cursor forward; the cursor stays within the input.
    pub fn advance(&mut self, increment: usize)
        requires
            old(self).wf(),
            old(self).position + increment <= old(self).input@.len(),
        ensures
            final (self).wf(),
            final (self).input@ == old(self).input@,
            final (self).position == old(self).position + increment,
    {
        let n = self.len();
        proof {
            assert(self.position + increment <= n);
        }
        self.position = self.position + increment;
    }

    /// The end of the keyword run starting at `from`.
    fn scan_kw_end(&self, from: usize) -> (end: usize)
        requires
            self.wf(),
            from <= self.input@.len(),
        ensures
            end as int == run_end(self.input@, from as int, kw_pred()),
            from <= end <= self.input@.len(),
    {
        let n = self.len();
        let mut i = from;
        while i < n && char_is_kw(self.char_at(i))
            invariant
                self.wf(),
                from <= i <= n,
                n == self.input@.len(),
                run_end(self.input@, from as int, kw_pred()) == run_end(
                    self.input@,
                    i as int,
                    kw_pred(),
                ),
            decreases n - i,
        {
            i = i + 1;
        }
        proof {
            lemma_run_end(self.input@, i as int, kw_pred());
        }
        i
    }

    /// The end of the identifier run starting at `from`.
    fn scan_alnum_end(&self, from: usize) -> (end: usize)
        requires
            self.wf(),
            from <= self.input@.len(),
        ensures
            end as int == run_end(self.input@, from as int, alnum_pred()),
            from <= end <= self.input@.len(),
    {
        let n = self.len();
        let mut i = from;
        while i < n && char_is_alnum(self.char_at(i))
            invariant
                self.wf(),
                from <= i <= n,
                n == self.input@.len(),
                run_end(self.input@, from as int, alnum_pred()) == run_end(
                    self.input@,
                    i as int,
                    alnum_pred(),
                ),
            decreases n - i,
        {
            i = i + 1;
        }
        proof {
            lemma_run_end(self.input@, i as int, alnum_pred());
        }
        i
    }

    /// The position of the first closing quote at or after `from`, or the
    /// end of the input.
    fn scan_until_quote(&self, from: usize) -> (end: usize)
        requires
            self.wf(),
            from <= self.input@.len(),
        ensures
            end as int == run_end(self.input@, from as int, not_quote_pred()),
            from <= end <= self.input@.len(),
    {
        let n = self.len();
        let mut i = from;
        while i < n && self.char_at(i) != '"'
            invariant
                self.wf(),
                from <= i <= n,
                n == self.input@.len(),
                run_end(self.input@, from as int, not_quote_pred()) == run_end(
                    self.input@,
                    i as int,
                    not_quote_pred(),
                ),
            decreases n - i,
        {
            i = i + 1;
        }
        proof {
            lemma_run_end(self.input@, i as int, not_quote_pred());
        }
        i
    }

    /// The position of the first closing brace at or after `from`, or the
    /// end of the input.
    fn scan_until_rbrace(&self, from: usize) -> (end: usize)
        requires
            self.wf(),
            from <= self.input@.len(),
        ensures
            end as int == run_end(self.input@, from as int, not_rbrace_pred()),
            from <= end <= self.input@.len(),
    {
        let n = self.len();
        let mut i = from;
        while i < n && self.char_at(i) != '}'
            invariant
                self.wf(),
                from <= i <= n,
                n == self.input@.len(),
                run_end(self.input@, from as int, not_rbrace_pred()) == run_end(
                    self.input@,
                    i as int,
                    not_rbrace_pred(),
                ),
            decreases n - i,
        {
            i = i + 1;
        }
        proof {
            lemma_run_end(self.input@, i as int, not_rbrace_pred());
        }
        i
    }

    /// Compares the whole keyword run under the cursor against `keyword`;
    /// on a match the run is consumed.
    pub fn match_keyword(&mut self, keyword: &str) -> (r: bool)
        requires
            old(self).wf(),
        ensures
            final (self).wf(),
            final (self).input@ == old(self).input@,
            r == (old(self).input@.subrange(
                old(self).position as int,
                run_end(old(self).input@, old(self).position as int, kw_pred()),
            ) == keyword@),
            r ==> final (self).position as int == run_end(
                old(self).input@,
                old(self).position as int,
                kw_pred(),
            ),
            !r ==> final (self).position == old(self).position,
    {
        let e = self.scan_kw_end(self.position);
        let klen = keyword.unicode_len();
        let ghost sub = self.input@.subrange(self.position as int, e as int);
        if e - self.position != klen {
            proof {
                assert(sub.len() != keyword@.len());
            }
            return false;
        }
        let mut j: usize = 0;
        while j < klen
            invariant
                self.wf(),
                self.input@ == old(self).input@,
                self.position == old(self).position,
                j <= klen,
                klen == keyword@.len(),
                self.position + klen == e,
                e <= self.input@.len(),
                e as int == run_end(old(self).input@, old(self).position as int, kw_pred()),
                sub == self.input@.subrange(self.position as int, e as int),
                forall|k: int| 0 <= k < j ==> sub[k] == keyword@[k],
            decreases klen - j,
        {
            if self.char_at(self.position + j) != keyword.get_char(j) {
                proof {
                    assert(sub[j as int] != keyword@[j as int]);
                }
                return false;
            }
            j = j + 1;
        }
        proof {
            assert(sub =~= keyword@);
        }
        self.position = e;
        true
    }

    /// Consumes one blank character.
    pub fn parse_space(&mut self) -> (r: Option<Token>)
        requires
            old(self).wf(),
            old(self).position < old(self).input@.len(),
        ensures
            final (self).wf(),
            final (self).input@ == old(self).input@,
            final (self).position == old(self).position + 1,
            r == Some(Token::Space),
    {
        self.advance(1);
        Some(Token::Space)
    }

    /// Scans a number under the cursor; `None` when no digit stands there.
    pub fn parse_number(&mut self) -> (r: Result<Option<Token>, Error>)
        requires
            old(self).wf(),
        ensures
            final (self).wf(),
            final (self).input@ == old(self).input@,
            match r {
                Result::Ok(Some(t)) => spec_number(old(self).input@, old(self).position as int, 0)
                    == LexStep::Tok(tok_view(t), final (self).position as int),
                Result::Ok(None) => (old(self).position >= old(self).input@.len() || !is_digit(
                    old(self).input@[old(self).position as int],
                )) && final (self).position == old(self).position,
                Result::Err(e) => spec_number(old(self).input@, old(self).position as int, 0)
                    == LexStep::Fail(e),
            },
    {
        let ghost s = self.input@;
        let ghost p0 = self.position as int;
        let n = self.len();
        if self.position >= n {
            return Result::Ok(None);
        }
        if !char_is_digit(self.char_at(self.position)) {
            return Result::Ok(None);
        }
        let mut acc: i64 = 0;
        while self.position < n && char_is_digit(self.char_at(self.position))
            invariant
                self.wf(),
                self.input@ == s,
                s == old(self).input@,
                p0 == old(self).position as int,
                n == s.len(),
                0 <= p0 <= self.position,
                spec_number(s, p0, 0) == spec_number(s, self.position as int, acc),
            decreases n - self.position,
        {
            let c = self.char_at(self.position);
            let d = (c as u32 - 48) as i64;
            let stepped: Option<i64> = match acc.checked_mul(10) {
                Some(a10) => a10.checked_add(d),
                None => None,
            };
            match stepped {
                Some(acc2) => {
                    acc = acc2;
                },
                None => {
                    return Result::Err(Error::Overflow);
                },
            }
            self.advance(1);
        }
        Result::Ok(Some(Token::Number(acc)))
    }

    /// Scans an identifier under the cursor; `None` when no letter or digit
    /// stands there.
    pub fn parse_identifier(&mut self) -> (r: Option<Token>)
        requires
            old(self).wf(),
        ensures
            final (self).wf(),
            final (self).input@ == old(self).input@,
            match r {
                Some(t) => old(self).position < old(self).input@.len() && is_alnum(
                    old(self).input@[old(self).position as int],
                ) && tok_view(t) == TokenView::Identifier(
                    old(self).input@.subrange(
                        old(self).position as int,
                        run_end(old(self).input@, old(self).position as int, alnum_pred()),
                    ),
                ) && final (self).position as int == run_end(
                    old(self).input@,
                    old(self).position as int,
                    alnum_pred(),
                ),
                None => (old(self).position >= old(self).input@.len() || !is_alnum(
                    old(self).input@[old(self).position as int],
                )) && final (self).position == old(self).position,
            },
    {
        let n = self.len();
        if self.position >= n {
            return None;
        }
        if !char_is_alnum(self.char_at(self.position)) {
            return None;
        }
        let e = self.scan_alnum_end(self.position);
        let name = self.input.as_str().substring_char(self.position, e).to_owned();
        self.position = e;
        Some(Token::Identifier(name))
    }

    /// Scans a number array from the cursor to its closing bracket.
    pub fn parse_number_array(&mut self) -> (r: Result<Token, Error>)
        requires
            old(self).wf(),
        ensures
            final (self).wf(),
            final (self).input@ == old(self).input@,
            match r {
                Result::Ok(t) => spec_num_array(
                    old(self).input@,
                    old(self).position as int,
                    Seq::empty(),
                    None,
                    false,
                ) == LexStep::Tok(tok_view(t), final (self).position as int),
                Result::Err(e) => spec_num_array(
                    old(self).input@,
                    old(self).position as int,
                    Seq::empty(),
                    None,
                    false,
                ) == LexStep::Fail(e),
            },
    {
        let ghost s = self.input@;
        let ghost p0 = self.position as int;
        let n = self.len();
        let mut acc: Vec<i64> = Vec::new();
        let mut cur: Option<i64> = None;
        let mut neg: bool = false;
        loop
            invariant
                self.wf(),
                self.input@ == s,
                s == old(self).input@,
                p0 == old(self).position as int,
                n == s.len(),
                0 <= p0 <= self.position,
                spec_num_array(s, p0, Seq::empty(), None, false) == spec_num_array(
                    s,
                    self.position as int,
                    acc@,
                    cur,
                    neg,
                ),
            decreases n - self.position,
        {
            if self.position >= n {
                return Result::Err(Error::UnterminatedArray);
            }
            let c = self.char_at(self.position);
            if char_is_digit(c) {
                let d = (c as u32 - 48) as i64;
                let stepped: Option<i64> = match cur {
                    None => if neg {
                        Some(-d)
                    } else {
                        Some(d)
                    },
                    Some(x) => match x.checked_mul(10) {
                        Some(x10) => if neg {
                            x10.checked_sub(d)
                        } else {
                            x10.checked_add(d)
                        },
                        None => None,
                    },
                };
                match stepped {
                    Some(x2) => {
                        cur = Some(x2);
                    },
                    None => {
                        return Result::Err(Error::Overflow);
                    },
                }
                self.advance(1);
            } else if c == ']' {
                match cur {
                    Some(x) => {
                        acc.push(x);
                    },
                    None => {},
                }
                self.advance(1);
                return Result::Ok(Token::ArrayNumber(acc));
            } else {
                match cur {
                    Some(x) => {
                        acc.push(x);
                    },
                    None => {},
                }
                cur = None;
                neg = c == '-';
                self.advance(1);
            }
        }
    }

    /// Scans a string array from the cursor to its closing bracket; the
    /// end of the input before the bracket is a fault.
    pub fn parse_string_array(&mut self) -> (r: Result<Token, Error>)
        requires
            old(self).wf(),
        ensures
            final (self).wf(),
            final (self).input@ == old(self).input@,
            match r {
                Result::Ok(t) => spec_str_array(
                    old(self).input@,
                    old(self).position as int,
                    Seq::empty(),
                    Seq::empty(),
                    false,
                ) == LexStep::Tok(tok_view(t), final (self).position as int),
                Result::Err(e) => spec_str_array(
                    old(self).input@,
                    old(self).position as int,
                    Seq::empty(),
                    Seq::empty(),
                    false,
                ) == LexStep::Fail(e),
            },
    {
        let ghost s = self.input@;
        let ghost p0 = self.position as int;
        let n = self.len();
        let mut acc: Vec<String> = Vec::new();
        let mut open: bool = false;
        let mut start: usize = 0;
        proof {
            assert(crate::tokens::strs_view(acc@) =~= Seq::<Seq<char>>::empty());
        }
        loop
            invariant
                self.wf(),
                self.input@ == s,
                s == old(self).input@,
                p0 == old(self).position as int,
                n == s.len(),
                0 <= p0 <= self.position,
                open ==> start <= self.position,
                spec_str_array(s, p0, Seq::empty(), Seq::empty(), false) == spec_str_array(
                    s,
                    self.position as int,
                    crate::tokens::strs_view(acc@),
                    if open {
                        s.subrange(start as int, self.position as int)
                    } else {
                        Seq::empty()
                    },
                    open,
                ),
            decreases n - self.position,
        {
            if self.position >= n {
                return Result::Err(Error::UnterminatedArray);
            }
            let c = self.char_at(self.position);
            if c == ']' {
                self.advance(1);
                return Result::Ok(Token::ArrayString(acc));
            }
            if c == '"' || (open && c == ',') {
                if open {
                    let ghost acc_old = acc@;
                    let elem = self.input.as_str().substring_char(start, self.position).to_owned();
                    acc.push(elem);
                    open = false;
                    proof {
                        assert(crate::tokens::strs_view(acc@) =~= crate::tokens::strs_view(
                            acc_old,
                        ).push(s.subrange(start as int, self.position as int)));
                    }
                    self.advance(1);
                } else {
                    open = true;
                    self.advance(1);
                    start = self.position;
                    proof {
                        assert(s.subrange(start as int, self.position as int) =~= Seq::<
                            char,
                        >::empty());
                    }
                }
            } else {
                self.advance(1);
                proof {
                    if open {
                        assert(s.subrange(start as int, self.position as int) =~= s.subrange(
                            start as int,
                            self.position - 1,
                        ).push(s[self.position - 1]));
                    }
                }
            }
        }
    }

    /// Dispatches an array literal on its first interior character: a quote
    /// begins a string array, anything else a number array; an opening
    /// bracket as the last character of the input is a fault.
    pub fn parse_array(&mut self) -> (r: Result<Token, Error>)
        requires
            old(self).wf(),
            old(self).position < old(self).input@.len(),
            old(self).input@[old(self).position as int] == '[',
        ensures
            final (self).wf(),
            final (self).input@ == old(self).input@,
            match r {
                Result::Ok(t) => spec_next_token(old(self).input@, old(self).position as int)
                    == LexStep::Tok(tok_view(t), final (self).position as int),
                Result::Err(e) => spec_next_token(old(self).input@, old(self).position as int)
                    == LexStep::Fail(e),
            },
    {
        let n = self.len();
        if self.position + 1 >= n {
            return Result::Err(Error::UnterminatedArray);
        }
        let c2 = self.char_at(self.position + 1);
        let value_type = if c2 == '"' {
            ValueType::String
        } else {
            ValueType::Number
        };
        self.advance(1);
        match value_type {
            ValueType::String => self.parse_string_array(),
            ValueType::Number => self.parse_number_array(),
        }
    }

    /// Scans a parameter list: bare names separated by commas, no blanks;
    /// the closing bracket keeps a pending nonempty name, and the end of
    /// the input before the bracket is a fault.
    pub fn parse_params(&mut self) -> (r: Result<Token, Error>)
        requires
            old(self).wf(),
        ensures
            final (self).wf(),
            final (self).input@ == old(self).input@,
            match r {
                Result::Ok(t) => spec_params(
                    old(self).input@,
                    old(self).position as int,
                    Seq::empty(),
                    Seq::empty(),
                ) == LexStep::Tok(tok_view(t), final (self).position as int),
                Result::Err(e) => spec_params(
                    old(self).input@,
                    old(self).position as int,
                    Seq::empty(),
                    Seq::empty(),
                ) == LexStep::Fail(e),
            },
    {
        let ghost s = self.input@;
        let ghost p0 = self.position as int;
        let n = self.len();
        let mut acc: Vec<String> = Vec::new();
        let mut start: usize = self.position;
        proof {
            assert(crate::tokens::strs_view(acc@) =~= Seq::<Seq<char>>::empty());
            assert(s.subrange(start as int, self.position as int) =~= Seq::<char>::empty());
        }
        loop
            invariant
                self.wf(),
                self.input@ == s,
                s == old(self).input@,
                p0 == old(self).position as int,
                n == s.len(),
                0 <= p0 <= self.position,
                start <= self.position,
                spec_params(s, p0, Seq::empty(), Seq::empty()) == spec_params(
                    s,
                    self.position as int,
                    crate::tokens::strs_view(acc@),
                    s.subrange(start as int, self.position as int),
                ),
            decreases n - self.position,
        {
            if self.position >= n {
                return Result::Err(Error::UnterminatedArray);
            }
            let c = self.char_at(self.position);
            if c == ' ' {
                return Result::Err(Error::SpaceInParams);
            }
            if c == ',' {
                let ghost acc_old = acc@;
                let elem = self.input.as_str().substring_char(start, self.position).to_owned();
                acc.push(elem);
                proof {
                    assert(crate::tokens::strs_view(acc@) =~= crate::tokens::strs_view(
                        acc_old,
                    ).push(s.subrange(start as int, self.position as int)));
                }
                self.advance(1);
                start = self.position;
                proof {
                    assert(s.subrange(start as int, self.position as int) =~= Seq::<char>::empty());
                }
            } else if c == ']' {
                if start < self.position {
                    let ghost acc_old = acc@;
                    let elem = self.input.as_str().substring_char(start, self.position).to_owned();
                    acc.push(elem);
                    proof {
                        assert(crate::tokens::strs_view(acc@) =~= crate::tokens::strs_view(
                            acc_old,
                        ).push(s.subrange(start as int, self.position as int)));
                    }
                } else {
                    proof {
                        assert(s.subrange(start as int, self.position as int) =~= Seq::<
                            char,
                        >::empty());
                    }
                }
                self.advance(1);
                return Result::Ok(Token::ArrayString(acc));
            } else {
                self.advance(1);
                proof {
                    assert(s.subrange(start as int, self.position as int) =~= s.subrange(
                        start as int,
                        self.position - 1,
                    ).push(s[self.position - 1]));
                }
            }
        }
    }

    /// Scans a quoted string literal; reaching the end of the input without
    /// a closing quote is a fault.
    fn parse_string_literal(&mut self) -> (r: Result<Token, Error>)
        requires
            old(self).wf(),
            old(self).position < old(self).input@.len(),
            old(self).input@[old(self).position as int] == '"',
            !is_kw_char('"'),
        ensures
            final (self).wf(),
            final (self).input@ == old(self).input@,
            match r {
                Result::Ok(t) => spec_next_token(old(self).input@, old(self).position as int)
                    == LexStep::Tok(tok_view(t), final (self).position as int),
                Result::Err(e) => spec_next_token(old(self).input@, old(self).position as int)
                    == LexStep::Fail(e),
            },
    {
        let n = self.len();
        let close = self.scan_until_quote(self.position + 1);
        if close >= n {
            return Result::Err(Error::UnterminatedString);
        }
        let content = self.input.as_str().substring_char(self.position + 1, close).to_owned();
        self.position = close + 1;
        Result::Ok(Token::StringLiteral(content))
    }

    /// Scans a brace-delimited block: the characters up to the first
    /// closing brace are lexed recursively; the end of the input before
    /// the brace is a fault.
    pub fn parse_block(&mut self) -> (r: Result<Token, Error>)
        requires
            old(self).wf(),
            old(self).position < old(self).input@.len(),
            old(self).input@[old(self).position as int] == '{',
        ensures
            final (self).wf(),
            final (self).input@ == old(self).input@,
            match r {
                Result::Ok(t) => spec_next_token(old(self).input@, old(self).position as int)
                    == LexStep::Tok(tok_view(t), final (self).position as int),
                Result::Err(e) => spec_next_token(old(self).input@, old(self).position as int)
                    == LexStep::Fail(e),
            },
        decreases old(self).input@.len() - old(self).position, 0int,
    {
        let ghost s = self.input@;
        let ghost p0 = self.position as int;
        let n = self.len();
        let cend = self.scan_until_rbrace(self.position + 1);
        if cend >= n {
            return Result::Err(Error::UnterminatedBlock);
        }
        let content = self.input.as_str().substring_char(self.position + 1, cend);
        let mut sub = Lexer::new(content);
        match sub.lex() {
            Result::Ok(ts) => {
                self.position = cend + 1;
                Result::Ok(Token::Block(ts))
            },
            Result::Err(e) => Result::Err(e),
        }
    }

    /// One token of the scan: tries, in order, a keyword, a block, an
    /// array, a string, a blank, an operator, a number, and an identifier;
    /// any other character ends the scan.
    pub fn next_token(&mut self) -> (r: Result<Option<Token>, Error>)
        requires
            old(self).wf(),
        ensures
            final (self).wf(),
            final (self).input@ == old(self).input@,
            match r {
                Result::Ok(Some(t)) => spec_next_token(old(self).input@, old(self).position as int)
                    == LexStep::Tok(tok_view(t), final (self).position as int),
                Result::Ok(None) => spec_next_token(old(self).input@, old(self).position as int)
                    is End && final (self).position == old(self).position,
                Result::Err(e) => spec_next_token(old(self).input@, old(self).position as int)
                    == LexStep::Fail(e),
            },
        decreases old(self).input@.len() - old(self).position, 1int,
    {
        let c = match self.curr_char() {
            Some(c) => c,
            None => {
                return Result::Ok(None);
            },
        };
        if char_is_kw(c) {
            if self.match_keyword("ingredient") {
                return Result::Ok(Some(Token::Ingredient));
            }
            if self.match_keyword("taste_again") {
                return Result::Ok(Some(Token::TasteAgain));
            }
            if self.match_keyword("tasteless") {
                return Result::Ok(Some(Token::Tasteless));
            }
            if self.match_keyword("taste") {
                return Result::Ok(Some(Token::Taste));
            }
            if self.match_keyword("layer") {
                return Result::Ok(Some(Token::Layer));
            }
            if self.match_keyword("simmer") {
                return Result::Ok(Some(Token::Simmer));
            }
            if self.match_keyword("cook") {
                return Result::Ok(Some(Token::Cook));
            }
            if self.match_keyword("burnt") {
                return Result::Ok(Some(Token::Burnt));
            }
            if self.match_keyword("serve") {
                return Result::Ok(Some(Token::Serve));
            }
            if self.match_keyword("plate") {
                return Result::Ok(Some(Token::Plate));
            }
            if self.match_keyword("recipe") {
                return Result::Ok(Some(Token::Recipe));
            }
            if self.match_keyword("open") {
                return Result::Ok(Some(Token::Fresh));
            }
            if self.match_keyword("close") {
                return Result::Ok(Some(Token::Spoiled));
            }
            if self.match_keyword("mix") {
                return Result::Ok(Some(Token::Mix));
            }
            if self.match_keyword("separate") {
                return Result::Ok(Some(Token::Separate));
            }
            if self.match_keyword("is") {
                return Result::Ok(Some(Token::Is));
            }
            if self.match_keyword("in") {
                return Result::Ok(Some(Token::In));
            }
            if self.match_keyword("hotter") {
                return Result::Ok(Some(Token::Hotter));
            }
            if self.match_keyword("cooler") {
                return Result::Ok(Some(Token::Cooler));
            }
            if self.match_keyword("same") {
                return Result::Ok(Some(Token::Same));
            }
            if self.match_keyword("notsame") {
                return Result::Ok(Some(Token::NotSame));
            }
            if self.match_keyword("hotorsame") {
                return Result::Ok(Some(Token::HotOrSame));
            }
            if self.match_keyword("coolorsame") {
                return Result::Ok(Some(Token::CoolOrSame));
            }
            if c != '_' {
                match self.parse_identifier() {
                    Some(t) => {
                        return Result::Ok(Some(t));
                    },
                    None => {
                        proof {
                            assert(false);
                        }
                        return Result::Ok(None);
                    },
                }
            }
            return Result::Ok(None);
        }
        if c == '{' {
            return match self.parse_block() {
                Result::Ok(t) => Result::Ok(Some(t)),
                Result::Err(e) => Result::Err(e),
            };
        }
        if c == '[' {
            return match self.parse_array() {
                Result::Ok(t) => Result::Ok(Some(t)),
                Result::Err(e) => Result::Err(e),
            };
        }
        if c == '"' {
            return match self.parse_string_literal() {
                Result::Ok(t) => Result::Ok(Some(t)),
                Result::Err(e) => Result::Err(e),
            };
        }
        if c == ' ' {
            return match self.parse_space() {
                Some(t) => Result::Ok(Some(t)),
                None => Result::Ok(None),
            };
        }
        match char_maths_op(c) {
            Some(op) => {
                self.advance(1);
                return Result::Ok(Some(Token::Maths(op)));
            },
            None => {},
        }
        if char_is_digit(c) {
            return match self.parse_number() {
                Result::Ok(Some(t)) => Result::Ok(Some(t)),
                Result::Ok(None) => {
                    proof {
                        assert(false);
                    }
                    Result::Ok(None)
                },
                Result::Err(e) => Result::Err(e),
            };
        }
        Result::Ok(None)
    }

    /// The whole token sequence of the input from the cursor on, blanks
    /// dropped; the scan ends at the first unrecognized character, and a
    /// lexical fault fails it.
    pub fn lex(&mut self) -> (r: Result<Vec<Token>, Error>)
        requires
            old(self).wf(),
        ensures
            final (self).wf(),
            final (self).input@ == old(self).input@,
            match r {
                Result::Ok(ts) => spec_lex_from(old(self).input@, old(self).position as int)
                    == Result::<Seq<TokenView>, Error>::Ok(toks_view(ts@)),
                Result::Err(e) => spec_lex_from(old(self).input@, old(self).position as int)
                    == Result::<Seq<TokenView>, Error>::Err(e),
            },
        decreases old(self).input@.len() - old(self).position, 2int,
    {
        let ghost s = self.input@;
        let ghost p0 = self.position as int;
        let mut tokens: Vec<Token> = Vec::new();
        proof {
            lemma_toks_view(tokens@);
        }
        loop
            invariant
                self.wf(),
                self.input@ == s,
                s == old(self).input@,
                p0 == old(self).position as int,
                0 <= p0 <= self.position,
                spec_lex_from(s, p0) == (match spec_lex_from(s, self.position as int) {
                    Result::Ok(rest) => Result::<Seq<TokenView>, Error>::Ok(
                        toks_view(tokens@) + rest,
                    ),
                    Result::Err(e) => Result::<Seq<TokenView>, Error>::Err(e),
                }),
            decreases s.len() - self.position,
        {
            let ghost pos_pre = self.position as int;
            let ghost front = toks_view(tokens@);
            match self.next_token() {
                Result::Ok(Some(t)) => {
                    proof {
                        lemma_next_token_advances(s, pos_pre);
                    }
                    let ghost tv = tok_view(t);
                    match t {
                        Token::Space => {
                            proof {
                                assert(spec_lex_from(s, pos_pre)
                                    == (match spec_lex_from(s, self.position as int) {
                                    Result::Ok(rest) => Result::<Seq<TokenView>, Error>::Ok(rest),
                                    Result::Err(e) => Result::<Seq<TokenView>, Error>::Err(e),
                                }));
                            }
                        },
                        t2 => {
                            let ghost toks_old = tokens@;
                            tokens.push(t2);
                            proof {
                                lemma_toks_view_push(toks_old, t2);
                                assert(spec_lex_from(s, pos_pre)
                                    == (match spec_lex_from(s, self.position as int) {
                                    Result::Ok(rest) => Result::<Seq<TokenView>, Error>::Ok(
                                        seq![tv] + rest,
                                    ),
                                    Result::Err(e) => Result::<Seq<TokenView>, Error>::Err(e),
                                }));
                                assert(forall|rest: Seq<TokenView>|
                                    front + (seq![tv] + rest) =~= (front.push(tv)) + rest);
                            }
                        },
                    }
                },
                Result::Ok(None) => {
                    proof {
                        assert(toks_view(tokens@) + Seq::<TokenView>::empty() =~= toks_view(
                            tokens@,
                        ));
                    }
                    return Result::Ok(tokens);
                },
                Result::Err(e) => {
                    return Result::Err(e);
                },
            }
        }
    }
}

} // verus!
