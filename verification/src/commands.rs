//! The abstract syntax tree: one `Command` per top-level construct.

use vstd::prelude::*;

use crate::tokens::{copy_strings, copy_token, copy_tokens, strs_view, tok_view, toks_view, Token,
    TokenView};

verus! {

/// One node of the program tree produced by the parser.
///
/// `Ingredient` binds a name to a single value token or to an arithmetic
/// chain; `Layer` is a while-loop over a comparison of two operands, its body
/// parsed once at parse time; `Simmer` is a for-each loop over a named array
/// variable; `Plate` emits one value; `Recipe` declares a named function
/// value; `Maths` is a bare arithmetic chain. The remaining variants
/// (`Taste`, `TasteAgain`, `Tasteless`, `Cook`, `Burnt`, `Serve`) are
/// accepted by the parser but reserved: the interpreter fails fast on them.
#[derive(Debug, PartialEq)]
pub enum Command {
    Ingredient { identifier: String, values: Vec<Token> },
    Taste { left_value: Token, comparison: Token, right_value: Token, tokens: Vec<Token> },
    TasteAgain { condition: bool, tokens: Vec<Token> },
    Tasteless { tokens: Vec<Token> },
    Layer { left_value: Token, comparison: Token, right_value: Token, commands: Vec<Command> },
    Simmer { identifier: String, array_identifier: String, commands: Vec<Command> },
    Cook { tokens: Vec<Token> },
    Burnt { error: String, tokens: Vec<Token> },
    Serve { identifier: String },
    Plate { value: Token },
    Recipe { identifier: String, params: Vec<String>, commands: Vec<Command> },
    Maths { values: Vec<Token> },
}

/// The mathematical model of a `Command`.
pub enum CommandView {
    Ingredient { identifier: Seq<char>, values: Seq<TokenView> },
    Taste {
        left_value: TokenView,
        comparison: TokenView,
        right_value: TokenView,
        tokens: Seq<TokenView>,
    },
    TasteAgain { condition: bool, tokens: Seq<TokenView> },
    Tasteless { tokens: Seq<TokenView> },
    Layer {
        left_value: TokenView,
        comparison: TokenView,
        right_value: TokenView,
        commands: Seq<CommandView>,
    },
    Simmer {
        identifier: Seq<char>,
        array_identifier: Seq<char>,
        commands: Seq<CommandView>,
    },
    Cook { tokens: Seq<TokenView> },
    Burnt { error: Seq<char>, tokens: Seq<TokenView> },
    Serve { identifier: Seq<char> },
    Plate { value: TokenView },
    Recipe { identifier: Seq<char>, params: Seq<Seq<char>>, commands: Seq<CommandView> },
    Maths { values: Seq<TokenView> },
}

/// Model of a single command.
pub open spec fn cmd_view(c: Command) -> CommandView
    decreases c,
{
    match c {
        Command::Ingredient { identifier, values } => CommandView::Ingredient {
            identifier: identifier@,
            values: toks_view(values@),
        },
        Command::Taste { left_value, comparison, right_value, tokens } => CommandView::Taste {
            left_value: tok_view(left_value),
            comparison: tok_view(comparison),
            right_value: tok_view(right_value),
            tokens: toks_view(tokens@),
        },
        Command::TasteAgain { condition, tokens } => CommandView::TasteAgain {
            condition,
            tokens: toks_view(tokens@),
        },
        Command::Tasteless { tokens } => CommandView::Tasteless { tokens: toks_view(tokens@) },
        Command::Layer { left_value, comparison, right_value, commands } => CommandView::Layer {
            left_value: tok_view(left_value),
            comparison: tok_view(comparison),
            right_value: tok_view(right_value),
            commands: cmds_view(commands@),
        },
        Command::Simmer { identifier, array_identifier, commands } => CommandView::Simmer {
            identifier: identifier@,
            array_identifier: array_identifier@,
            commands: cmds_view(commands@),
        },
        Command::Cook { tokens } => CommandView::Cook { tokens: toks_view(tokens@) },
        Command::Burnt { error, tokens } => CommandView::Burnt {
            error: error@,
            tokens: toks_view(tokens@),
        },
        Command::Serve { identifier } => CommandView::Serve { identifier: identifier@ },
        Command::Plate { value } => CommandView::Plate { value: tok_view(value) },
        Command::Recipe { identifier, params, commands } => CommandView::Recipe {
            identifier: identifier@,
            params: strs_view(params@),
            commands: cmds_view(commands@),
        },
        Command::Maths { values } => CommandView::Maths { values: toks_view(values@) },
    }
}

/// Model of a sequence of commands.
pub open spec fn cmds_view(s: Seq<Command>) -> Seq<CommandView>
    decreases s,
{
    if s.len() == 0 {
        Seq::empty()
    } else {
        seq![cmd_view(s[0])] + cmds_view(s.drop_first())
    }
}

pub proof fn lemma_cmds_view(s: Seq<Command>)
    ensures
        cmds_view(s).len() == s.len(),
        forall|i: int| 0 <= i < s.len() ==> cmds_view(s)[i] == cmd_view(s[i]),
    decreases s.len(),
{
    if s.len() > 0 {
        lemma_cmds_view(s.drop_first());
    }
}

pub proof fn lemma_cmds_view_push(s: Seq<Command>, c: Command)
    ensures
        cmds_view(s.push(c)) == cmds_view(s).push(cmd_view(c)),
{
    lemma_cmds_view(s);
    lemma_cmds_view(s.push(c));
    assert(cmds_view(s.push(c)) =~= cmds_view(s).push(cmd_view(c)));
}

/// Structural size of a command model: a nested body counts its commands,
/// so that the body of a loop is strictly smaller than the loop itself.
pub open spec fn cmdv_measure(c: CommandView) -> nat
    decreases c,
{
    match c {
        CommandView::Layer { left_value, comparison, right_value, commands } => 1
            + cmdsv_measure(commands),
        CommandView::Simmer { identifier, array_identifier, commands } => 1 + cmdsv_measure(
            commands,
        ),
        CommandView::Recipe { identifier, params, commands } => 1 + cmdsv_measure(commands),
        _ => 1,
    }
}

/// Structural size of a command model sequence: the sum of its sizes, plus
/// one per element.
pub open spec fn cmdsv_measure(s: Seq<CommandView>) -> nat
    decreases s,
{
    if s.len() == 0 {
        0
    } else {
        1 + cmdv_measure(s[0]) + cmdsv_measure(s.drop_first())
    }
}

pub proof fn lemma_cmdsv_measure_index(s: Seq<CommandView>, i: int)
    requires
        0 <= i < s.len(),
    ensures
        cmdv_measure(s[i]) <= cmdsv_measure(s),
    decreases s.len(),
{
    if i > 0 {
        lemma_cmdsv_measure_index(s.drop_first(), i - 1);
    }
}

/// Copies one command; the copy has the same model.
pub fn copy_command(c: &Command) -> (r: Command)
    ensures
        cmd_view(r) == cmd_view(*c),
    decreases cmdv_measure(cmd_view(*c)), 0int,
{
    match c {
        Command::Ingredient { identifier, values } => Command::Ingredient {
            identifier: identifier.clone(),
            values: copy_tokens(values),
        },
        Command::Taste { left_value, comparison, right_value, tokens } => Command::Taste {
            left_value: copy_token(left_value),
            comparison: copy_token(comparison),
            right_value: copy_token(right_value),
            tokens: copy_tokens(tokens),
        },
        Command::TasteAgain { condition, tokens } => Command::TasteAgain {
            condition: *condition,
            tokens: copy_tokens(tokens),
        },
        Command::Tasteless { tokens } => Command::Tasteless { tokens: copy_tokens(tokens) },
        Command::Layer { left_value, comparison, right_value, commands } => Command::Layer {
            left_value: copy_token(left_value),
            comparison: copy_token(comparison),
            right_value: copy_token(right_value),
            commands: copy_commands(commands),
        },
        Command::Simmer { identifier, array_identifier, commands } => Command::Simmer {
            identifier: identifier.clone(),
            array_identifier: array_identifier.clone(),
            commands: copy_commands(commands),
        },
        Command::Cook { tokens } => Command::Cook { tokens: copy_tokens(tokens) },
        Command::Burnt { error, tokens } => Command::Burnt {
            error: error.clone(),
            tokens: copy_tokens(tokens),
        },
        Command::Serve { identifier } => Command::Serve { identifier: identifier.clone() },
        Command::Plate { value } => Command::Plate { value: copy_token(value) },
        Command::Recipe { identifier, params, commands } => Command::Recipe {
            identifier: identifier.clone(),
            params: copy_strings(params),
            commands: copy_commands(commands),
        },
        Command::Maths { values } => Command::Maths { values: copy_tokens(values) },
    }
}

/// Copies a vector of commands; the copy has the same model.
pub fn copy_commands(cs: &Vec<Command>) -> (r: Vec<Command>)
    ensures
        cmds_view(r@) == cmds_view(cs@),
    decreases cmdsv_measure(cmds_view(cs@)), 1int,
{
    let mut r: Vec<Command> = Vec::new();
    let n = cs.len();
    let mut i: usize = 0;
    while i < n
        invariant
            i <= n,
            n == cs@.len(),
            cmds_view(r@) == cmds_view(cs@.take(i as int)),
        decreases n - i,
    {
        proof {
            lemma_cmds_view(cs@);
            lemma_cmdsv_measure_index(cmds_view(cs@), i as int);
        }
        let c = copy_command(&cs[i]);
        let ghost r_old = r@;
        r.push(c);
        proof {
            lemma_cmds_view_push(r_old, c);
            lemma_cmds_view_push(cs@.take(i as int), cs@[i as int]);
            assert(cs@.take(i as int).push(cs@[i as int]) =~= cs@.take(i + 1));
        }
        i = i + 1;
    }
    proof {
        assert(cs@.take(n as int) =~= cs@);
    }
    r
}

} // verus!
