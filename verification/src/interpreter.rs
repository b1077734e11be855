//! The tree-walking interpreter and its big-step semantics.
//!
//! The semantics is a specification-level machine: `run_cmds` maps a command
//! sequence, a store, an output log and a fuel bound to the run's outcome.
//! Fuel is consumed only when a `layer` loop re-evaluates its condition, so
//! it bounds nothing but loop iterations; every executable entry point is
//! proved to return exactly what the machine says for its fuel.

use vstd::prelude::*;

use crate::commands::{cmds_view, cmdsv_measure, cmdv_measure, lemma_cmds_view,
    lemma_cmdsv_measure_index, Command, CommandView};
use crate::errors::Error;
use crate::render::{append_i64, append_num_array, append_str_array, render_i64, render_num_array,
    render_str_array, render_value, value_to_string};
use crate::state::{val_view, State, Value, ValueView};
use crate::tokens::{copy_i64s, copy_strings, lemma_toks_view, strs_view, tok_view, toks_view,
    MathsOperations, Token, TokenView};

verus! {

/// The outcome of running commands: a final store and output on success;
/// on a fault or an exhausted fuel bound, the fault's kind together with
/// the store and the output as they stood at that moment.
pub enum RunResult {
    Done { state: Map<Seq<char>, ValueView>, output: Seq<Seq<char>> },
    Fail { error: Error, state: Map<Seq<char>, ValueView>, output: Seq<Seq<char>> },
    OutOfFuel { state: Map<Seq<char>, ValueView>, output: Seq<Seq<char>> },
}

/// The number an operand token denotes: a number literal denotes itself, an
/// identifier the number held by that variable. Anything else, an unbound
/// name, or a variable holding a non-number is a fault.
pub open spec fn num_operand(st: Map<Seq<char>, ValueView>, t: TokenView) -> Result<i64, Error> {
    match t {
        TokenView::Number(n) => Result::Ok(n),
        TokenView::Identifier(name) => if st.contains_key(name) {
            match st[name] {
                ValueView::Number(n) => Result::Ok(n),
                _ => Result::Err(Error::TypeMismatch),
            }
        } else {
            Result::Err(Error::UnboundVariable)
        },
        _ => Result::Err(Error::TypeMismatch),
    }
}

/// One arithmetic step: the pending operator applied to the accumulator and
/// the next operand. A step that leaves the machine range is a fault, as is
/// dividing by zero.
pub open spec fn apply_op(op: MathsOperations, acc: i64, n: i64) -> Result<i64, Error> {
    match op {
        MathsOperations::Plus => match acc.checked_add(n) {
            Some(v) => Result::Ok(v),
            None => Result::Err(Error::Overflow),
        },
        MathsOperations::Minus => match acc.checked_sub(n) {
            Some(v) => Result::Ok(v),
            None => Result::Err(Error::Overflow),
        },
        MathsOperations::Multiply => match acc.checked_mul(n) {
            Some(v) => Result::Ok(v),
            None => Result::Err(Error::Overflow),
        },
        MathsOperations::Division => if n == 0 {
            Result::Err(Error::DivisionByZero)
        } else {
            match acc.checked_div(n) {
                Some(v) => Result::Ok(v),
                None => Result::Err(Error::Overflow),
            }
        },
        MathsOperations::Mod => if n == 0 {
            Result::Err(Error::DivisionByZero)
        } else {
            match acc.checked_rem(n) {
                Some(v) => Result::Ok(v),
                None => Result::Err(Error::Overflow),
            }
        },
    }
}

/// Left-to-right evaluation of an arithmetic chain from position `i`. The
/// accumulator starts at zero. Before any operator has arrived, an operand
/// is deferred (`lead`); the first operator encountered combines it with
/// the zero accumulator, so there is no implicit leading addition. Once an
/// operator has been seen it stays pending (`pending`) and each following
/// operand combines with the accumulator through it at once; a later
/// operator merely switches the pending operation. A chain that never sees
/// an operator folds its operands with addition, and any token that is
/// neither an operand nor an operator is a fault.
pub open spec fn eval_maths_from(
    st: Map<Seq<char>, ValueView>,
    values: Seq<TokenView>,
    i: int,
    acc: i64,
    lead: Option<i64>,
    pending: Option<MathsOperations>,
) -> Result<i64, Error>
    decreases values.len() - i,
{
    if i < 0 || i >= values.len() {
        match lead {
            Some(l) => apply_op(MathsOperations::Plus, acc, l),
            None => Result::Ok(acc),
        }
    } else {
        match values[i] {
            TokenView::Maths(op2) => match lead {
                Some(l) => match apply_op(op2, acc, l) {
                    Result::Ok(acc2) => eval_maths_from(st, values, i + 1, acc2, None, Some(op2)),
                    Result::Err(e) => Result::Err(e),
                },
                None => eval_maths_from(st, values, i + 1, acc, None, Some(op2)),
            },
            TokenView::Number(n) => match pending {
                Some(o) => match apply_op(o, acc, n) {
                    Result::Ok(acc2) => eval_maths_from(st, values, i + 1, acc2, None, Some(o)),
                    Result::Err(e) => Result::Err(e),
                },
                None => match lead {
                    None => eval_maths_from(st, values, i + 1, acc, Some(n), None),
                    Some(l) => match apply_op(MathsOperations::Plus, acc, l) {
                        Result::Ok(acc2) => eval_maths_from(
                            st,
                            values,
                            i + 1,
                            acc2,
                            Some(n),
                            None,
                        ),
                        Result::Err(e) => Result::Err(e),
                    },
                },
            },
            TokenView::Identifier(name) => match num_operand(st, values[i]) {
                Result::Ok(n) => match pending {
                    Some(o) => match apply_op(o, acc, n) {
                        Result::Ok(acc2) => eval_maths_from(
                            st,
                            values,
                            i + 1,
                            acc2,
                            None,
                            Some(o),
                        ),
                        Result::Err(e) => Result::Err(e),
                    },
                    None => match lead {
                        None => eval_maths_from(st, values, i + 1, acc, Some(n), None),
                        Some(l) => match apply_op(MathsOperations::Plus, acc, l) {
                            Result::Ok(acc2) => eval_maths_from(
                                st,
                                values,
                                i + 1,
                                acc2,
                                Some(n),
                                None,
                            ),
                            Result::Err(e) => Result::Err(e),
                        },
                    },
                },
                Result::Err(e) => Result::Err(e),
            },
            _ => Result::Err(Error::InvalidValue),
        }
    }
}

/// An arithmetic chain's value: evaluated strictly left to right with no
/// precedence, from a zero accumulator, the leading operand combined by
/// the first operator encountered and every later operand by the operator
/// standing before it.
pub open spec fn eval_maths(st: Map<Seq<char>, ValueView>, values: Seq<TokenView>) -> Result<
    i64,
    Error,
> {
    eval_maths_from(st, values, 0, 0, None, None)
}

/// Arithmetic evaluation faults on its own grounds, never for want of fuel.
pub proof fn lemma_eval_maths_from_no_fuel(
    st: Map<Seq<char>, ValueView>,
    values: Seq<TokenView>,
    i: int,
    acc: i64,
    lead: Option<i64>,
    pending: Option<MathsOperations>,
)
    ensures
        eval_maths_from(st, values, i, acc, lead, pending) != Result::<i64, Error>::Err(
            Error::OutOfFuel,
        ),
    decreases values.len() - i, 1int,
{
    if 0 <= i < values.len() {
        match values[i] {
            TokenView::Maths(op2) => {
                match lead {
                    Some(l) => {
                        match apply_op(op2, acc, l) {
                            Result::Ok(acc2) => {
                                lemma_eval_maths_from_no_fuel(
                                    st,
                                    values,
                                    i + 1,
                                    acc2,
                                    None,
                                    Some(op2),
                                );
                            },
                            Result::Err(e) => {},
                        }
                    },
                    None => {
                        lemma_eval_maths_from_no_fuel(st, values, i + 1, acc, None, Some(op2));
                    },
                }
            },
            TokenView::Number(n) => {
                lemma_eval_maths_no_fuel_operand(st, values, i, acc, lead, pending, n);
            },
            TokenView::Identifier(name) => {
                match num_operand(st, values[i]) {
                    Result::Ok(n) => {
                        lemma_eval_maths_no_fuel_operand(st, values, i, acc, lead, pending, n);
                    },
                    Result::Err(e) => {},
                }
            },
            _ => {},
        }
    }
}

/// The operand case of the lemma above, shared by number literals and
/// bound identifiers.
proof fn lemma_eval_maths_no_fuel_operand(
    st: Map<Seq<char>, ValueView>,
    values: Seq<TokenView>,
    i: int,
    acc: i64,
    lead: Option<i64>,
    pending: Option<MathsOperations>,
    n: i64,
)
    requires
        0 <= i < values.len(),
        num_operand(st, values[i]) == Result::<i64, Error>::Ok(n) || values[i]
            == TokenView::Number(n),
    ensures
        eval_maths_from(st, values, i, acc, lead, pending) != Result::<i64, Error>::Err(
            Error::OutOfFuel,
        ),
    decreases values.len() - i, 0int,
{
    match pending {
        Some(o) => {
            match apply_op(o, acc, n) {
                Result::Ok(acc2) => {
                    lemma_eval_maths_from_no_fuel(st, values, i + 1, acc2, None, Some(o));
                },
                Result::Err(e) => {},
            }
        },
        None => {
            match lead {
                None => {
                    lemma_eval_maths_from_no_fuel(st, values, i + 1, acc, Some(n), None);
                },
                Some(l) => {
                    match apply_op(MathsOperations::Plus, acc, l) {
                        Result::Ok(acc2) => {
                            lemma_eval_maths_from_no_fuel(st, values, i + 1, acc2, Some(n), None);
                        },
                        Result::Err(e) => {},
                    }
                },
            }
        },
    }
}

/// Applies one arithmetic step with the machine's checked operations.
fn checked_apply(op: MathsOperations, acc: i64, h: i64) -> (r: Result<i64, Error>)
    ensures
        r == apply_op(op, acc, h),
{
    let stepped: Option<i64> = match op {
        MathsOperations::Plus => acc.checked_add(h),
        MathsOperations::Minus => acc.checked_sub(h),
        MathsOperations::Multiply => acc.checked_mul(h),
        MathsOperations::Division => {
            if h == 0 {
                return Result::Err(Error::DivisionByZero);
            }
            acc.checked_div(h)
        },
        MathsOperations::Mod => {
            if h == 0 {
                return Result::Err(Error::DivisionByZero);
            }
            acc.checked_rem(h)
        },
    };
    match stepped {
        Some(v) => Result::Ok(v),
        None => Result::Err(Error::Overflow),
    }
}

/// The value a single literal token binds: a number, a string, or an array.
/// Every other token is a fault.
pub open spec fn literal_value(t: TokenView) -> Result<ValueView, Error> {
    match t {
        TokenView::ArrayNumber(a) => Result::Ok(ValueView::ArrayNumber(a)),
        TokenView::ArrayString(a) => Result::Ok(ValueView::ArrayString(a)),
        TokenView::Number(n) => Result::Ok(ValueView::Number(n)),
        TokenView::StringLiteral(s) => Result::Ok(ValueView::String(s)),
        _ => Result::Err(Error::InvalidValue),
    }
}

/// The value an `ingredient` command binds: a chain of several tokens is
/// evaluated arithmetically; a single token is taken as a literal; an empty
/// payload is a fault.
pub open spec fn ingredient_value(st: Map<Seq<char>, ValueView>, values: Seq<TokenView>) -> Result<
    ValueView,
    Error,
> {
    if values.len() > 1 {
        match eval_maths(st, values) {
            Result::Ok(n) => Result::Ok(ValueView::Number(n)),
            Result::Err(e) => Result::Err(e),
        }
    } else if values.len() == 1 {
        literal_value(values[0])
    } else {
        Result::Err(Error::InvalidValue)
    }
}

/// Whether a token is one of the six comparison operators.
pub open spec fn is_comparison(t: TokenView) -> bool {
    match t {
        TokenView::Hotter => true,
        TokenView::Cooler => true,
        TokenView::Same => true,
        TokenView::NotSame => true,
        TokenView::HotOrSame => true,
        TokenView::CoolOrSame => true,
        _ => false,
    }
}

/// The comparison a token denotes, applied to two numbers.
pub open spec fn compare(t: TokenView, a: i64, b: i64) -> bool {
    match t {
        TokenView::Hotter => a > b,
        TokenView::Cooler => a < b,
        TokenView::Same => a == b,
        TokenView::NotSame => a != b,
        TokenView::HotOrSame => a >= b,
        TokenView::CoolOrSame => a <= b,
        _ => false,
    }
}

/// The line a `plate` command emits: an identifier is resolved and its value
/// rendered; a literal is rendered directly.
pub open spec fn plate_line(st: Map<Seq<char>, ValueView>, t: TokenView) -> Result<
    Seq<char>,
    Error,
> {
    match t {
        TokenView::Identifier(name) => if st.contains_key(name) {
            Result::Ok(render_value(st[name]))
        } else {
            Result::Err(Error::UnboundVariable)
        },
        TokenView::StringLiteral(s) => Result::Ok(s),
        TokenView::Number(n) => Result::Ok(render_i64(n)),
        TokenView::ArrayNumber(a) => Result::Ok(render_num_array(a)),
        TokenView::ArrayString(a) => Result::Ok(render_str_array(a)),
        _ => Result::Err(Error::InvalidValue),
    }
}

/// A number array's elements as values.
pub open spec fn nums_to_vals(a: Seq<i64>) -> Seq<ValueView> {
    Seq::new(a.len(), |i: int| ValueView::Number(a[i]))
}

/// A string array's elements as values.
pub open spec fn strs_to_vals(a: Seq<Seq<char>>) -> Seq<ValueView> {
    Seq::new(a.len(), |i: int| ValueView::String(a[i]))
}

/// Runs a command sequence strictly in order, stopping at the first fault.
pub open spec fn run_cmds(
    cs: Seq<CommandView>,
    st: Map<Seq<char>, ValueView>,
    out: Seq<Seq<char>>,
    fuel: nat,
) -> RunResult
    decreases fuel, cmdsv_measure(cs), 2int, 0int,
{
    if cs.len() == 0 {
        RunResult::Done { state: st, output: out }
    } else {
        match run_cmd(cs[0], st, out, fuel) {
            RunResult::Done { state, output } => run_cmds(cs.drop_first(), state, output, fuel),
            r => r,
        }
    }
}

/// Runs one command.
///
/// `ingredient` binds its value; `maths` evaluates its chain and discards
/// the result; `plate` appends one line; `recipe` binds a function value;
/// `simmer` iterates a named array, rebinding the loop variable before each
/// pass over the body; `layer` re-resolves its operands each round, runs the
/// body while the comparison holds, and consumes one unit of fuel for each
/// re-evaluation of the condition. The reserved commands are faults.
pub open spec fn run_cmd(
    c: CommandView,
    st: Map<Seq<char>, ValueView>,
    out: Seq<Seq<char>>,
    fuel: nat,
) -> RunResult
    decreases fuel, cmdv_measure(c), 1int, 0int,
{
    match c {
        CommandView::Ingredient { identifier, values } => match ingredient_value(st, values) {
            Result::Ok(v) => RunResult::Done { state: st.insert(identifier, v), output: out },
            Result::Err(e) => RunResult::Fail { error: e, state: st, output: out },
        },
        CommandView::Maths { values } => match eval_maths(st, values) {
            Result::Ok(n) => RunResult::Done { state: st, output: out },
            Result::Err(e) => RunResult::Fail { error: e, state: st, output: out },
        },
        CommandView::Plate { value } => match plate_line(st, value) {
            Result::Ok(line) => RunResult::Done { state: st, output: out.push(line) },
            Result::Err(e) => RunResult::Fail { error: e, state: st, output: out },
        },
        CommandView::Recipe { identifier, params, commands } => RunResult::Done {
            state: st.insert(identifier, ValueView::Function(params, commands)),
            output: out,
        },
        CommandView::Simmer { identifier, array_identifier, commands } => {
            if !st.contains_key(array_identifier) {
                RunResult::Fail { error: Error::UnboundVariable, state: st, output: out }
            } else {
                match st[array_identifier] {
                    ValueView::ArrayNumber(a) => run_simmer(
                        identifier,
                        nums_to_vals(a),
                        commands,
                        st,
                        out,
                        fuel,
                    ),
                    ValueView::ArrayString(a) => run_simmer(
                        identifier,
                        strs_to_vals(a),
                        commands,
                        st,
                        out,
                        fuel,
                    ),
                    _ => RunResult::Fail { error: Error::TypeMismatch, state: st, output: out },
                }
            }
        },
        CommandView::Layer { left_value, comparison, right_value, commands } => {
            match num_operand(st, left_value) {
                Result::Err(e) => RunResult::Fail { error: e, state: st, output: out },
                Result::Ok(a) => match num_operand(st, right_value) {
                    Result::Err(e) => RunResult::Fail { error: e, state: st, output: out },
                    Result::Ok(b) => if !is_comparison(comparison) {
                        RunResult::Fail { error: Error::InvalidValue, state: st, output: out }
                    } else if !compare(comparison, a, b) {
                        RunResult::Done { state: st, output: out }
                    } else {
                        match run_cmds(commands, st, out, fuel) {
                            RunResult::Done { state, output } => if fuel == 0 {
                                RunResult::OutOfFuel { state, output }
                            } else {
                                run_cmd(c, state, output, (fuel - 1) as nat)
                            },
                            r => r,
                        }
                    },
                },
            }
        },
        _ => RunResult::Fail { error: Error::ReservedCommand, state: st, output: out },
    }
}

/// Runs a `simmer` body once per element: the loop variable is rebound to
/// the element, then the body runs; the variable keeps its last value after
/// the loop.
pub open spec fn run_simmer(
    name: Seq<char>,
    elems: Seq<ValueView>,
    body: Seq<CommandView>,
    st: Map<Seq<char>, ValueView>,
    out: Seq<Seq<char>>,
    fuel: nat,
) -> RunResult
    decreases fuel, 1 + cmdsv_measure(body), 0int, elems.len(),
{
    if elems.len() == 0 {
        RunResult::Done { state: st, output: out }
    } else {
        match run_cmds(body, st.insert(name, elems[0]), out, fuel) {
            RunResult::Done { state, output } => run_simmer(
                name,
                elems.drop_first(),
                body,
                state,
                output,
                fuel,
            ),
            r => r,
        }
    }
}

/// The machine outcome that an executable result denotes: each case, the
/// exhausted bound and every fault included, carries the store and the
/// output the run ended with.
pub open spec fn result_view(
    r: Result<(), Error>,
    st: Map<Seq<char>, ValueView>,
    out: Seq<Seq<char>>,
) -> RunResult {
    match r {
        Result::Ok(()) => RunResult::Done { state: st, output: out },
        Result::Err(Error::OutOfFuel) => RunResult::OutOfFuel { state: st, output: out },
        Result::Err(e) => RunResult::Fail { error: e, state: st, output: out },
    }
}

/// The outcome of a whole source text under given parsing and running
/// bounds: the text is lexed, the tokens parsed, and the commands run
/// against an empty store and an empty output log. A lexical or structural
/// fault fails the run; an exhausted parse bound cuts it short.
pub open spec fn spec_run_program(source: Seq<char>, parse_fuel: nat, fuel: nat) -> RunResult {
    match crate::lexer::spec_lex(source) {
        Result::Err(e) => RunResult::Fail {
            error: e,
            state: Map::empty(),
            output: Seq::empty(),
        },
        Result::Ok(ts) => match crate::parser::spec_parse(ts, parse_fuel) {
            crate::parser::ParseResult::Fail(e) => RunResult::Fail {
                error: e,
                state: Map::empty(),
                output: Seq::empty(),
            },
            crate::parser::ParseResult::Short => RunResult::OutOfFuel {
                state: Map::empty(),
                output: Seq::empty(),
            },
            crate::parser::ParseResult::Cmds(cs) => run_cmds(
                cs,
                Map::empty(),
                Seq::empty(),
                fuel,
            ),
        },
    }
}

/// Whether `parse_fuel` is enough nesting depth for the source's parse:
/// either the scan already fails, or the parse at that bound is not cut
/// short. Every outcome of `spec_run_program` below is quantified over
/// such a bound, so an exhausted bound can only mean an exhausted run.
pub open spec fn parse_settled(source: Seq<char>, parse_fuel: nat) -> bool {
    match crate::lexer::spec_lex(source) {
        Result::Ok(ts) => !(crate::parser::spec_parse(ts, parse_fuel) is Short),
        Result::Err(e) => true,
    }
}

/// Runs a whole source text: lexes it, parses it, executes it against a
/// fresh store, and returns the emitted lines. The parse always finishes
/// (the bound below is existential because nesting depth alone fixes it);
/// `fuel` bounds only `layer` re-evaluations, as in `execute`. A faulted
/// run returns only the fault; a caller that wants the lines emitted
/// before a fault drives `Interpreter::execute` itself and reads `output`.
pub fn run_program(source: &str, fuel: u64) -> (r: Result<Vec<String>, Error>)
    ensures
        match r {
            Result::Ok(lines) => exists|pf: nat|
                parse_settled(source@, pf) && (#[trigger] spec_run_program(
                    source@,
                    pf,
                    fuel as nat,
                ) matches RunResult::Done { state, output } && output == strs_view(lines@)),
            Result::Err(e) => exists|pf: nat|
                parse_settled(source@, pf) && ((#[trigger] spec_run_program(
                    source@,
                    pf,
                    fuel as nat,
                ) matches RunResult::Fail { error, state, output } && error == e) || (e
                    == Error::OutOfFuel && spec_run_program(source@, pf, fuel as nat)
                    is OutOfFuel)),
        },
{
    let mut lexer = crate::lexer::Lexer::new(source);
    let tokens = match lexer.lex() {
        Result::Ok(ts) => ts,
        Result::Err(e) => {
            proof {
                assert(spec_run_program(source@, 0, fuel as nat) == (RunResult::Fail {
                    error: e,
                    state: Map::empty(),
                    output: Seq::empty(),
                }));
            }
            return Result::Err(e);
        },
    };
    let mut parser = crate::parser::Parser::new(tokens);
    let commands = match parser.parse() {
        Result::Ok(cs) => cs,
        Result::Err(e) => {
            proof {
                let pf = choose|pf: nat|
                    crate::parser::spec_parse_cmds(toks_view(parser.tokens@), 0, pf)
                        == crate::parser::ParseResult::Fail(e);
                assert(spec_run_program(source@, pf, fuel as nat) == (RunResult::Fail {
                    error: e,
                    state: Map::empty(),
                    output: Seq::empty(),
                }));
            }
            return Result::Err(e);
        },
    };
    let mut interpreter = Interpreter::new();
    let ghost pf0 = choose|pf: nat|
        crate::parser::spec_parse_cmds(toks_view(parser.tokens@), 0, pf)
            == crate::parser::ParseResult::Cmds(cmds_view(commands@));
    proof {
        assert(crate::parser::spec_parse_cmds(toks_view(parser.tokens@), 0, pf0)
            == crate::parser::ParseResult::Cmds(cmds_view(commands@)));
    }
    match interpreter.execute(&commands, fuel) {
        Result::Ok(()) => {
            let ghost final_st = interpreter.state@;
            let ghost final_lines = interpreter.output@;
            proof {
                assert(spec_run_program(source@, pf0, fuel as nat) == (RunResult::Done {
                    state: final_st,
                    output: strs_view(final_lines),
                }));
            }
            Result::Ok(interpreter.output)
        },
        Result::Err(e) => {
            proof {
                assert(spec_run_program(source@, pf0, fuel as nat) == result_view(
                    Result::<(), Error>::Err(e),
                    interpreter.state@,
                    interpreter.out_view(),
                ));
            }
            Result::Err(e)
        },
    }
}

/// Walks command sequences, owning the single variable store of the run and
/// the output lines emitted so far.
pub struct Interpreter {
    pub state: State,
    pub output: Vec<String>,
}

impl Interpreter {
    /// The interpreter is well formed when its store is.
    pub open spec fn wf(&self) -> bool {
        self.state.wf()
    }

    /// The model of the output emitted so far.
    pub open spec fn out_view(&self) -> Seq<Seq<char>> {
        strs_view(self.output@)
    }

    /// A fresh interpreter: empty store, no output.
    pub fn new() -> (r: Interpreter)
        ensures
            r.wf(),
            r.state@ == Map::<Seq<char>, ValueView>::empty(),
            r.out_view() == Seq::<Seq<char>>::empty(),
    {
        let r = Interpreter { state: State::new(), output: Vec::new() };
        proof {
            assert(r.out_view() =~= Seq::<Seq<char>>::empty());
        }
        r
    }

    /// Evaluates an arithmetic chain against the current store.
    fn execute_maths(&self, values: &Vec<Token>) -> (r: Result<i64, Error>)
        requires
            self.wf(),
        ensures
            r == eval_maths(self.state@, toks_view(values@)),
    {
        let ghost vs = toks_view(values@);
        proof {
            lemma_toks_view(values@);
        }
        let n = values.len();
        let mut i: usize = 0;
        let mut acc: i64 = 0;
        let mut lead: Option<i64> = None;
        let mut pending: Option<MathsOperations> = None;
        while i < n
            invariant
                self.wf(),
                i <= n,
                n == values@.len(),
                vs == toks_view(values@),
                vs.len() == n,
                forall|j: int| 0 <= j < n ==> vs[j] == tok_view(values@[j]),
                lead is Some ==> pending is None,
                eval_maths(self.state@, vs) == eval_maths_from(
                    self.state@,
                    vs,
                    i as int,
                    acc,
                    lead,
                    pending,
                ),
            decreases n - i,
        {
            let operand: Option<i64> = match &values[i] {
                Token::Number(x) => Some(*x),
                Token::Identifier(name) => match self.state.get_variable(name) {
                    Some(v) => match v {
                        Value::Number(x) => Some(*x),
                        _ => {
                            return Result::Err(Error::TypeMismatch);
                        },
                    },
                    None => {
                        return Result::Err(Error::UnboundVariable);
                    },
                },
                Token::Maths(_) => None,
                _ => {
                    return Result::Err(Error::InvalidValue);
                },
            };
            match operand {
                Some(x) => {
                    match pending {
                        Some(o) => {
                            match checked_apply(o, acc, x) {
                                Result::Ok(acc2) => {
                                    acc = acc2;
                                },
                                Result::Err(e) => {
                                    return Result::Err(e);
                                },
                            }
                        },
                        None => {
                            match lead {
                                Some(l) => {
                                    match checked_apply(MathsOperations::Plus, acc, l) {
                                        Result::Ok(acc2) => {
                                            acc = acc2;
                                        },
                                        Result::Err(e) => {
                                            return Result::Err(e);
                                        },
                                    }
                                },
                                None => {},
                            }
                            lead = Some(x);
                        },
                    }
                },
                None => {
                    match &values[i] {
                        Token::Maths(op2) => {
                            match lead {
                                Some(l) => {
                                    match checked_apply(*op2, acc, l) {
                                        Result::Ok(acc2) => {
                                            acc = acc2;
                                        },
                                        Result::Err(e) => {
                                            return Result::Err(e);
                                        },
                                    }
                                },
                                None => {},
                            }
                            lead = None;
                            pending = Some(*op2);
                        },
                        _ => {
                            proof {
                                assert(false);
                            }
                        },
                    }
                },
            }
            i = i + 1;
        }
        match lead {
            Some(l) => {
                match checked_apply(MathsOperations::Plus, acc, l) {
                    Result::Ok(acc2) => Result::Ok(acc2),
                    Result::Err(e) => Result::Err(e),
                }
            },
            None => Result::Ok(acc),
        }
    }


    /// Binds a name to the value of an `ingredient` payload.
    fn execute_ingredient(&mut self, identifier: &String, values: &Vec<Token>) -> (r: Result<
        (),
        Error,
    >)
        requires
            old(self).wf(),
        ensures
            final (self).wf(),
            final (self).output == old(self).output,
            match ingredient_value(old(self).state@, toks_view(values@)) {
                Result::Ok(v) => r == Result::<(), Error>::Ok(()) && final (self).state@ == old(
                    self,
                ).state@.insert(identifier@, v),
                Result::Err(e) => r == Result::<(), Error>::Err(e) && final (self).state@ == old(
                    self,
                ).state@,
            },
    {
        proof {
            lemma_toks_view(values@);
        }
        if values.len() > 1 {
            match self.execute_maths(values) {
                Result::Ok(x) => {
                    self.state.add_variable(identifier, Value::Number(x));
                    Result::Ok(())
                },
                Result::Err(e) => Result::Err(e),
            }
        } else if values.len() == 1 {
            let value = match &values[0] {
                Token::ArrayNumber(a) => Value::ArrayNumber(copy_i64s(a)),
                Token::ArrayString(a) => Value::ArrayString(copy_strings(a)),
                Token::Number(x) => Value::Number(*x),
                Token::StringLiteral(s) => Value::String(s.clone()),
                _ => {
                    return Result::Err(Error::InvalidValue);
                },
            };
            self.state.add_variable(identifier, value);
            Result::Ok(())
        } else {
            Result::Err(Error::InvalidValue)
        }
    }

    /// Emits the line for one `plate` payload.
    fn execute_plate(&mut self, value: &Token) -> (r: Result<(), Error>)
        requires
            old(self).wf(),
        ensures
            final (self).wf(),
            final (self).state@ == old(self).state@,
            match plate_line(old(self).state@, tok_view(*value)) {
                Result::Ok(line) => r == Result::<(), Error>::Ok(()) && final (self).out_view()
                    == old(self).out_view().push(line),
                Result::Err(e) => r == Result::<(), Error>::Err(e) && final (self).out_view()
                    == old(self).out_view(),
            },
    {
        let line: String = match value {
            Token::Identifier(name) => match self.state.get_variable(name) {
                Some(v) => value_to_string(v),
                None => {
                    return Result::Err(Error::UnboundVariable);
                },
            },
            Token::StringLiteral(s) => s.clone(),
            Token::Number(x) => {
                let mut out = String::new();
                append_i64(&mut out, *x);
                out
            },
            Token::ArrayNumber(a) => {
                let mut out = String::new();
                append_num_array(&mut out, a);
                out
            },
            Token::ArrayString(a) => {
                let mut out = String::new();
                append_str_array(&mut out, a);
                out
            },
            _ => {
                return Result::Err(Error::InvalidValue);
            },
        };
        let ghost out_old = self.output@;
        self.output.push(line);
        proof {
            assert(strs_view(self.output@) =~= strs_view(out_old).push(self.output@.last()@));
        }
        Result::Ok(())
    }

    /// Binds a name to a function value: the parameter names and the body.
    pub fn execute_recipe(
        &mut self,
        identifier: &String,
        params: &Vec<String>,
        commands: &Vec<Command>,
    ) -> (r: Option<Value>)
        requires
            old(self).wf(),
        ensures
            final (self).wf(),
            final (self).output == old(self).output,
            final (self).state@ == old(self).state@.insert(
                identifier@,
                ValueView::Function(strs_view(params@), cmds_view(commands@)),
            ),
            match r {
                Some(v) => old(self).state@.contains_key(identifier@) && val_view(v) == old(
                    self,
                ).state@[identifier@],
                None => !old(self).state@.contains_key(identifier@),
            },
    {
        let value = Value::Function(crate::tokens::copy_strings(params), crate::commands::copy_commands(commands));
        self.state.add_variable(identifier, value)
    }

    /// Runs a `layer` loop: resolves both operands anew each round, applies
    /// the comparison, and runs the body while it holds. Each re-evaluation
    /// of the condition costs one unit of fuel.
    fn execute_layer(
        &mut self,
        left_value: &Token,
        comparison: &Token,
        right_value: &Token,
        commands: &Vec<Command>,
        fuel: u64,
    ) -> (r: Result<(), Error>)
        requires
            old(self).wf(),
        ensures
            final (self).wf(),
            run_cmd(
                CommandView::Layer {
                    left_value: tok_view(*left_value),
                    comparison: tok_view(*comparison),
                    right_value: tok_view(*right_value),
                    commands: cmds_view(commands@),
                },
                old(self).state@,
                old(self).out_view(),
                fuel as nat,
            ) == result_view(r, final (self).state@, final (self).out_view()),
        decreases 1 + cmdsv_measure(cmds_view(commands@)), 0int,
    {
        let ghost lv = CommandView::Layer {
            left_value: tok_view(*left_value),
            comparison: tok_view(*comparison),
            right_value: tok_view(*right_value),
            commands: cmds_view(commands@),
        };
        let mut fuel_left: u64 = fuel;
        loop
            invariant
                self.wf(),
                fuel_left <= fuel,
                lv == (CommandView::Layer {
                    left_value: tok_view(*left_value),
                    comparison: tok_view(*comparison),
                    right_value: tok_view(*right_value),
                    commands: cmds_view(commands@),
                }),
                run_cmd(lv, old(self).state@, old(self).out_view(), fuel as nat) == run_cmd(
                    lv,
                    self.state@,
                    self.out_view(),
                    fuel_left as nat,
                ),
            decreases fuel_left,
        {
            let a: i64 = match left_value {
                Token::Number(x) => *x,
                Token::Identifier(name) => match self.state.get_variable(name) {
                    Some(v) => match v {
                        Value::Number(x) => *x,
                        _ => {
                            return Result::Err(Error::TypeMismatch);
                        },
                    },
                    None => {
                        return Result::Err(Error::UnboundVariable);
                    },
                },
                _ => {
                    return Result::Err(Error::TypeMismatch);
                },
            };
            let b: i64 = match right_value {
                Token::Number(x) => *x,
                Token::Identifier(name) => match self.state.get_variable(name) {
                    Some(v) => match v {
                        Value::Number(x) => *x,
                        _ => {
                            return Result::Err(Error::TypeMismatch);
                        },
                    },
                    None => {
                        return Result::Err(Error::UnboundVariable);
                    },
                },
                _ => {
                    return Result::Err(Error::TypeMismatch);
                },
            };
            let cond: bool = match comparison {
                Token::Hotter => a > b,
                Token::Cooler => a < b,
                Token::Same => a == b,
                Token::NotSame => a != b,
                Token::HotOrSame => a >= b,
                Token::CoolOrSame => a <= b,
                _ => {
                    return Result::Err(Error::InvalidValue);
                },
            };
            if !cond {
                return Result::Ok(());
            }
            match self.execute(commands, fuel_left) {
                Result::Ok(()) => {},
                Result::Err(e) => {
                    return Result::Err(e);
                },
            }
            if fuel_left == 0 {
                return Result::Err(Error::OutOfFuel);
            }
            fuel_left = fuel_left - 1;
        }
    }

    /// Runs a `simmer` loop over the named array variable, rebinding the
    /// loop variable before each pass over the body.
    fn execute_simmer(
        &mut self,
        identifier: &String,
        array_identifier: &String,
        commands: &Vec<Command>,
        fuel: u64,
    ) -> (r: Result<(), Error>)
        requires
            old(self).wf(),
        ensures
            final (self).wf(),
            run_cmd(
                CommandView::Simmer {
                    identifier: identifier@,
                    array_identifier: array_identifier@,
                    commands: cmds_view(commands@),
                },
                old(self).state@,
                old(self).out_view(),
                fuel as nat,
            ) == result_view(r, final (self).state@, final (self).out_view()),
        decreases 1 + cmdsv_measure(cmds_view(commands@)), 0int,
    {
        let ghost bodyv = cmds_view(commands@);
        let ghost st0 = self.state@;
        let ghost out0 = self.out_view();
        let mut nums: Option<Vec<i64>> = None;
        let mut strs: Option<Vec<String>> = None;
        match self.state.get_variable(array_identifier) {
            Some(v) => match v {
                Value::ArrayNumber(a) => {
                    nums = Some(copy_i64s(a));
                },
                Value::ArrayString(a) => {
                    strs = Some(copy_strings(a));
                },
                _ => {
                    return Result::Err(Error::TypeMismatch);
                },
            },
            None => {
                return Result::Err(Error::UnboundVariable);
            },
        }
        let ghost sv = CommandView::Simmer {
            identifier: identifier@,
            array_identifier: array_identifier@,
            commands: bodyv,
        };
        match nums {
            Some(a) => {
                let ghost vals = nums_to_vals(a@);
                proof {
                    assert(st0[array_identifier@] == ValueView::ArrayNumber(a@));
                    assert(run_cmd(sv, st0, out0, fuel as nat) == run_simmer(
                        identifier@,
                        vals,
                        bodyv,
                        st0,
                        out0,
                        fuel as nat,
                    ));
                    assert(vals.skip(0) =~= vals);
                }
                let n = a.len();
                let mut i: usize = 0;
                while i < n
                    invariant
                        self.wf(),
                        i <= n,
                        n == a@.len(),
                        vals == nums_to_vals(a@),
                        bodyv == cmds_view(commands@),
                        st0 == old(self).state@,
                        out0 == old(self).out_view(),
                        sv == (CommandView::Simmer {
                            identifier: identifier@,
                            array_identifier: array_identifier@,
                            commands: bodyv,
                        }),
                        run_cmd(sv, st0, out0, fuel as nat) == run_simmer(
                            identifier@,
                            vals.skip(i as int),
                            bodyv,
                            self.state@,
                            self.out_view(),
                            fuel as nat,
                        ),
                    decreases n - i,
                {
                    self.state.add_variable(identifier, Value::Number(a[i]));
                    proof {
                        assert(vals.skip(i as int)[0] == ValueView::Number(a@[i as int]));
                        assert(vals.skip(i as int).drop_first() =~= vals.skip(i + 1));
                    }
                    match self.execute(commands, fuel) {
                        Result::Ok(()) => {},
                        Result::Err(e) => {
                            proof {
                                assert(run_cmd(sv, st0, out0, fuel as nat) == result_view(
                                    Result::<(), Error>::Err(e),
                                    self.state@,
                                    self.out_view(),
                                ));
                            }
                            return Result::Err(e);
                        },
                    }
                    i = i + 1;
                }
                proof {
                    assert(vals.skip(n as int) =~= Seq::<ValueView>::empty());
                }
                return Result::Ok(());
            },
            None => {},
        }
        match strs {
            Some(a) => {
                let ghost vals = strs_to_vals(strs_view(a@));
                proof {
                    assert(st0[array_identifier@] == ValueView::ArrayString(strs_view(a@)));
                    assert(run_cmd(sv, st0, out0, fuel as nat) == run_simmer(
                        identifier@,
                        vals,
                        bodyv,
                        st0,
                        out0,
                        fuel as nat,
                    ));
                    assert(vals.skip(0) =~= vals);
                }
                let n = a.len();
                let mut i: usize = 0;
                while i < n
                    invariant
                        self.wf(),
                        i <= n,
                        n == a@.len(),
                        vals == strs_to_vals(strs_view(a@)),
                        bodyv == cmds_view(commands@),
                        st0 == old(self).state@,
                        out0 == old(self).out_view(),
                        sv == (CommandView::Simmer {
                            identifier: identifier@,
                            array_identifier: array_identifier@,
                            commands: bodyv,
                        }),
                        run_cmd(sv, st0, out0, fuel as nat) == run_simmer(
                            identifier@,
                            vals.skip(i as int),
                            bodyv,
                            self.state@,
                            self.out_view(),
                            fuel as nat,
                        ),
                    decreases n - i,
                {
                    self.state.add_variable(identifier, Value::String(a[i].clone()));
                    proof {
                        assert(vals.skip(i as int)[0] == ValueView::String(a@[i as int]@));
                        assert(vals.skip(i as int).drop_first() =~= vals.skip(i + 1));
                    }
                    match self.execute(commands, fuel) {
                        Result::Ok(()) => {},
                        Result::Err(e) => {
                            proof {
                                assert(run_cmd(sv, st0, out0, fuel as nat) == result_view(
                                    Result::<(), Error>::Err(e),
                                    self.state@,
                                    self.out_view(),
                                ));
                            }
                            return Result::Err(e);
                        },
                    }
                    i = i + 1;
                }
                proof {
                    assert(vals.skip(n as int) =~= Seq::<ValueView>::empty());
                }
                return Result::Ok(());
            },
            None => {},
        }
        proof {
            assert(false);
        }
        Result::Err(Error::TypeMismatch)
    }

    /// Walks a command sequence strictly in order, stopping at the first
    /// fault. Returns exactly what the semantic machine says for the given
    /// fuel: success when it finishes, the machine's fault otherwise, and
    /// `Error::OutOfFuel` when the bound on loop re-evaluations runs out.
    pub fn execute(&mut self, commands: &Vec<Command>, fuel: u64) -> (r: Result<(), Error>)
        requires
            old(self).wf(),
        ensures
            final (self).wf(),
            run_cmds(cmds_view(commands@), old(self).state@, old(self).out_view(), fuel as nat)
                == result_view(r, final (self).state@, final (self).out_view()),
        decreases cmdsv_measure(cmds_view(commands@)), 1int,
    {
        let ghost cvs = cmds_view(commands@);
        let ghost st0 = self.state@;
        let ghost out0 = self.out_view();
        proof {
            lemma_cmds_view(commands@);
            assert(cvs.skip(0) =~= cvs);
        }
        let n = commands.len();
        let mut i: usize = 0;
        while i < n
            invariant
                self.wf(),
                i <= n,
                n == commands@.len(),
                cvs == cmds_view(commands@),
                st0 == old(self).state@,
                out0 == old(self).out_view(),
                cvs.len() == n,
                forall|j: int| 0 <= j < n ==> cvs[j] == crate::commands::cmd_view(commands@[j]),
                run_cmds(cvs, st0, out0, fuel as nat) == run_cmds(
                    cvs.skip(i as int),
                    self.state@,
                    self.out_view(),
                    fuel as nat,
                ),
            decreases n - i,
        {
            let ghost st_i = self.state@;
            let ghost out_i = self.out_view();
            proof {
                assert(cvs.skip(i as int)[0] == cvs[i as int]);
                assert(cvs.skip(i as int).drop_first() =~= cvs.skip(i + 1));
                lemma_cmdsv_measure_index(cvs, i as int);
            }
            let step: Result<(), Error> = match &commands[i] {
                Command::Ingredient { identifier, values } => {
                    let r = self.execute_ingredient(identifier, values);
                    proof {
                        lemma_eval_maths_from_no_fuel(st_i, toks_view(values@), 0, 0, None, None);
                        assert(run_cmd(cvs[i as int], st_i, out_i, fuel as nat) == result_view(
                            r,
                            self.state@,
                            self.out_view(),
                        ));
                    }
                    r
                },
                Command::Maths { values } => {
                    let r0 = self.execute_maths(values);
                    let r: Result<(), Error> = match r0 {
                        Result::Ok(_) => Result::Ok(()),
                        Result::Err(e) => Result::Err(e),
                    };
                    proof {
                        lemma_eval_maths_from_no_fuel(st_i, toks_view(values@), 0, 0, None, None);
                        assert(run_cmd(cvs[i as int], st_i, out_i, fuel as nat) == result_view(
                            r,
                            self.state@,
                            self.out_view(),
                        ));
                    }
                    r
                },
                Command::Plate { value } => {
                    let r = self.execute_plate(value);
                    proof {
                        assert(run_cmd(cvs[i as int], st_i, out_i, fuel as nat) == result_view(
                            r,
                            self.state@,
                            self.out_view(),
                        ));
                    }
                    r
                },
                Command::Recipe { identifier, params, commands: body } => {
                    self.execute_recipe(identifier, params, body);
                    proof {
                        assert(run_cmd(cvs[i as int], st_i, out_i, fuel as nat) == result_view(
                            Result::<(), Error>::Ok(()),
                            self.state@,
                            self.out_view(),
                        ));
                    }
                    Result::Ok(())
                },
                Command::Layer { left_value, comparison, right_value, commands: body } => {
                    proof {
                        assert(cmdv_measure(cvs[i as int]) == 1 + cmdsv_measure(cmds_view(body@)));
                    }
                    self.execute_layer(left_value, comparison, right_value, body, fuel)
                },
                Command::Simmer { identifier, array_identifier, commands: body } => {
                    proof {
                        assert(cmdv_measure(cvs[i as int]) == 1 + cmdsv_measure(cmds_view(body@)));
                    }
                    self.execute_simmer(identifier, array_identifier, body, fuel)
                },
                _ => {
                    proof {
                        assert(run_cmd(cvs[i as int], st_i, out_i, fuel as nat)
                            == (RunResult::Fail {
                            error: Error::ReservedCommand,
                            state: st_i,
                            output: out_i,
                        }));
                    }
                    Result::Err(Error::ReservedCommand)
                },
            };
            proof {
                assert(run_cmd(cvs[i as int], st_i, out_i, fuel as nat) == result_view(
                    step,
                    self.state@,
                    self.out_view(),
                ));
            }
            match step {
                Result::Ok(()) => {},
                Result::Err(e) => {
                    return Result::Err(e);
                },
            }
            i = i + 1;
        }
        proof {
            assert(cvs.skip(n as int) =~= Seq::<CommandView>::empty());
        }
        Result::Ok(())
    }
}

} // verus!
