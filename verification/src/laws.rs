//! Proved laws of the interpreter's semantics.
//!
//! Each law is stated over the specification machine (`run_cmd`,
//! `run_cmds`, `eval_maths`) that the executable interpreter is proved to
//! implement exactly, so each holds of the executable code as well.

use vstd::prelude::*;

use crate::commands::CommandView;
use crate::errors::Error;
use crate::interpreter::{compare, eval_maths, eval_maths_from, is_comparison, num_operand,
    nums_to_vals, run_cmd, run_cmds, run_simmer, RunResult};
use crate::render::{dec_digits, digit_char, render_i64, render_num_array, render_num_elems,
    render_value};
use crate::lexer::{alnum_pred, digit_val, is_alnum, is_alpha, is_digit, is_kw_char, keyword_of,
    kw_pred, lemma_run_end, lemma_run_end_exact, maths_op, not_quote_pred, run_end, spec_lex,
    spec_lex_from, spec_next_token, spec_number, LexStep};
use crate::state::ValueView;
use crate::tokens::{MathsOperations, TokenView};

verus! {

/// Binding a name to the array `[1,2,3]` and then plating that name, from
/// any store, any prior output and any fuel, emits exactly the literal
/// rendering of the array and binds the name to it.
pub proof fn lemma_bind_array_then_plate(
    name: Seq<char>,
    st: Map<Seq<char>, ValueView>,
    out: Seq<Seq<char>>,
    fuel: nat,
)
    ensures
        run_cmds(
            seq![
                (CommandView::Ingredient {
                    identifier: name,
                    values: seq![TokenView::ArrayNumber(seq![1i64, 2i64, 3i64])],
                }),
                (CommandView::Plate { value: TokenView::Identifier(name) }),
            ],
            st,
            out,
            fuel,
        ) == (RunResult::Done {
            state: st.insert(name, ValueView::ArrayNumber(seq![1i64, 2i64, 3i64])),
            output: out.push("[1, 2, 3]"@),
        }),
{
    let cmds = seq![
        CommandView::Ingredient {
            identifier: name,
            values: seq![TokenView::ArrayNumber(seq![1i64, 2i64, 3i64])],
        },
        CommandView::Plate { value: TokenView::Identifier(name) },
    ];
    let st1 = st.insert(name, ValueView::ArrayNumber(seq![1i64, 2i64, 3i64]));
    assert(run_cmd(cmds[0], st, out, fuel) == RunResult::Done { state: st1, output: out });
    assert(cmds.drop_first() =~= seq![
        CommandView::Plate { value: TokenView::Identifier(name) },
    ]);
    assert(render_value(st1[name]) == render_num_array(seq![1i64, 2i64, 3i64]));
    assert(render_num_array(seq![1i64, 2i64, 3i64]) == "[1, 2, 3]"@) by {
        reveal_strlit("[1, 2, 3]");
        assert(render_i64(1i64) =~= seq!['1']);
        assert(render_i64(2i64) =~= seq!['2']);
        assert(render_i64(3i64) =~= seq!['3']);
        assert(seq![1i64, 2i64, 3i64].drop_first() =~= seq![2i64, 3i64]);
        assert(seq![2i64, 3i64].drop_first() =~= seq![3i64]);
        assert(render_num_elems(seq![3i64]) == render_i64(3i64));
        assert(render_num_elems(seq![2i64, 3i64]) =~= seq!['2', ',', ' ', '3']);
        assert(render_num_elems(seq![1i64, 2i64, 3i64]) =~= seq![
            '1',
            ',',
            ' ',
            '2',
            ',',
            ' ',
            '3',
        ]);
        assert(render_num_array(seq![1i64, 2i64, 3i64]) =~= seq![
            '[',
            '1',
            ',',
            ' ',
            '2',
            ',',
            ' ',
            '3',
            ']',
        ]);
        assert("[1, 2, 3]"@ =~= seq!['[', '1', ',', ' ', '2', ',', ' ', '3', ']']);
    }
    let out1 = out.push("[1, 2, 3]"@);
    assert(cmds.drop_first().drop_first() =~= Seq::<CommandView>::empty());
    assert(run_cmds(cmds.drop_first().drop_first(), st1, out1, fuel) == (RunResult::Done {
        state: st1,
        output: out1,
    }));
    assert(run_cmd(cmds.drop_first()[0], st1, out, fuel) == (RunResult::Done {
        state: st1,
        output: out1,
    }));
    assert(run_cmds(cmds.drop_first(), st1, out, fuel) == (RunResult::Done {
        state: st1,
        output: out1,
    }));
}

/// A `layer` loop whose body never moves the compared variable towards the
/// bound runs forever, emitting one line per iteration: whatever fuel it is
/// given, it runs out, having emitted one more line than the fuel and
/// changed the store not at all. The loop here compares a variable holding
/// a number below three against the literal three, and its body only
/// plates the variable.
pub proof fn lemma_layer_without_progress_never_ends(
    name: Seq<char>,
    v: i64,
    st: Map<Seq<char>, ValueView>,
    out: Seq<Seq<char>>,
    fuel: nat,
)
    requires
        st.contains_key(name),
        st[name] == ValueView::Number(v),
        v < 3,
    ensures
        run_cmd(
            (CommandView::Layer {
                left_value: TokenView::Identifier(name),
                comparison: TokenView::Cooler,
                right_value: TokenView::Number(3),
                commands: seq![CommandView::Plate { value: TokenView::Identifier(name) }],
            }),
            st,
            out,
            fuel,
        ) == (RunResult::OutOfFuel {
            state: st,
            output: out + Seq::new((fuel + 1) as nat, |i: int| render_value(st[name])),
        }),
    decreases fuel,
{
    let body = seq![CommandView::Plate { value: TokenView::Identifier(name) }];
    let line = render_value(st[name]);
    let out1 = out.push(line);
    lemma_run_plate_body(name, st, out, fuel);
    if fuel > 0 {
        lemma_layer_without_progress_never_ends(name, v, st, out1, (fuel - 1) as nat);
        assert(out1 + Seq::new(fuel, |i: int| line) =~= out + Seq::new(
            (fuel + 1) as nat,
            |i: int| line,
        ));
    } else {
        assert(out1 =~= out + Seq::new(1, |i: int| line));
    }
}

/// Running the one-command body that plates a bound variable emits its
/// rendering and changes nothing else.
proof fn lemma_run_plate_body(
    name: Seq<char>,
    st: Map<Seq<char>, ValueView>,
    out: Seq<Seq<char>>,
    fuel: nat,
)
    requires
        st.contains_key(name),
    ensures
        run_cmds(
            seq![CommandView::Plate { value: TokenView::Identifier(name) }],
            st,
            out,
            fuel,
        ) == (RunResult::Done { state: st, output: out.push(render_value(st[name])) }),
{
    let body = seq![CommandView::Plate { value: TokenView::Identifier(name) }];
    let out1 = out.push(render_value(st[name]));
    assert(body.drop_first() =~= Seq::<CommandView>::empty());
    assert(run_cmds(body.drop_first(), st, out1, fuel) == (RunResult::Done {
        state: st,
        output: out1,
    }));
    assert(run_cmd(body[0], st, out, fuel) == (RunResult::Done { state: st, output: out1 }));
}

/// The store and output after `k` passes of a `layer` body, the comparison
/// holding before each pass and one unit of fuel spent per re-evaluation;
/// `None` when a pass faults, the comparison fails early, or the fuel
/// cannot cover the passes.
pub open spec fn layer_steps(
    left: TokenView,
    comparison: TokenView,
    right: TokenView,
    body: Seq<CommandView>,
    st: Map<Seq<char>, ValueView>,
    out: Seq<Seq<char>>,
    fuel: nat,
    k: nat,
) -> Option<(Map<Seq<char>, ValueView>, Seq<Seq<char>>)>
    decreases k,
{
    if k == 0 {
        Some((st, out))
    } else {
        match num_operand(st, left) {
            Result::Ok(a) => match num_operand(st, right) {
                Result::Ok(b) => if is_comparison(comparison) && compare(comparison, a, b) && fuel
                    > 0 {
                    match run_cmds(body, st, out, fuel) {
                        RunResult::Done { state, output } => layer_steps(
                            left,
                            comparison,
                            right,
                            body,
                            state,
                            output,
                            (fuel - 1) as nat,
                            (k - 1) as nat,
                        ),
                        _ => None,
                    }
                } else {
                    None
                },
                _ => None,
            },
            _ => None,
        }
    }
}

/// A `layer` loop terminates for every body under which the compared
/// values converge: when `k` passes of the body leave a store where the
/// re-resolved operands make the comparison false, and the fuel covers
/// those passes, the loop is `Done` with exactly the store and output the
/// passes produced.
pub proof fn lemma_layer_converging_body_ends(
    left: TokenView,
    comparison: TokenView,
    right: TokenView,
    body: Seq<CommandView>,
    st: Map<Seq<char>, ValueView>,
    out: Seq<Seq<char>>,
    fuel: nat,
    k: nat,
)
    requires
        is_comparison(comparison),
        layer_steps(left, comparison, right, body, st, out, fuel, k) is Some,
        ({
            let end = layer_steps(left, comparison, right, body, st, out, fuel, k)->Some_0;
            &&& num_operand(end.0, left) is Ok
            &&& num_operand(end.0, right) is Ok
            &&& !compare(
                comparison,
                num_operand(end.0, left)->Ok_0,
                num_operand(end.0, right)->Ok_0,
            )
        }),
    ensures
        ({
            let end = layer_steps(left, comparison, right, body, st, out, fuel, k)->Some_0;
            run_cmd(
                (CommandView::Layer {
                    left_value: left,
                    comparison,
                    right_value: right,
                    commands: body,
                }),
                st,
                out,
                fuel,
            ) == (RunResult::Done { state: end.0, output: end.1 })
        }),
    decreases k,
{
    if k > 0 {
        let a = num_operand(st, left)->Ok_0;
        let b = num_operand(st, right)->Ok_0;
        match run_cmds(body, st, out, fuel) {
            RunResult::Done { state, output } => {
                lemma_layer_converging_body_ends(
                    left,
                    comparison,
                    right,
                    body,
                    state,
                    output,
                    (fuel - 1) as nat,
                    (k - 1) as nat,
                );
            },
            _ => {},
        }
    }
}

/// A `layer` loop whose body moves the compared variable towards the bound
/// terminates once given fuel for the remaining distance: here the body
/// plates the variable and then increments it, so the loop comparing it
/// against three ends with the variable bound to three (or untouched when
/// it already fails the comparison).
pub proof fn lemma_layer_with_progress_ends(
    name: Seq<char>,
    v: i64,
    st: Map<Seq<char>, ValueView>,
    out: Seq<Seq<char>>,
    fuel: nat,
)
    requires
        st.contains_key(name),
        st[name] == ValueView::Number(v),
        0 <= v,
        v < 3 ==> 3 - v <= fuel,
    ensures
        run_cmd(
            (CommandView::Layer {
                left_value: TokenView::Identifier(name),
                comparison: TokenView::Cooler,
                right_value: TokenView::Number(3),
                commands: increment_body(name),
            }),
            st,
            out,
            fuel,
        ) matches RunResult::Done { state, output } && state == st.insert(
            name,
            ValueView::Number(
                if v < 3 {
                    3
                } else {
                    v
                },
            ),
        ),
    decreases
            (if v < 3 {
                3 - v
            } else {
                0
            }) as nat,
{
    let body = increment_body(name);
    if v >= 3 {
        assert(st.insert(name, ValueView::Number(v)) =~= st);
    } else {
        let out1 = out.push(render_value(st[name]));
        let st1 = st.insert(name, ValueView::Number((v + 1) as i64));
        lemma_run_increment_body(name, v, st, out, fuel);
        lemma_layer_with_progress_ends(name, (v + 1) as i64, st1, out1, (fuel - 1) as nat);
        assert(st1.insert(
            name,
            ValueView::Number(
                if v + 1 < 3 {
                    3
                } else {
                    (v + 1) as i64
                },
            ),
        ) =~= st.insert(
            name,
            ValueView::Number(
                if v < 3 {
                    3
                } else {
                    v
                },
            ),
        ));
    }
}

/// The body that plates a variable and then rebinds it to itself plus one.
pub open spec fn increment_body(name: Seq<char>) -> Seq<CommandView> {
    seq![
        (CommandView::Plate { value: TokenView::Identifier(name) }),
        (CommandView::Ingredient {
            identifier: name,
            values: seq![
                TokenView::Identifier(name),
                TokenView::Maths(MathsOperations::Plus),
                TokenView::Number(1),
            ],
        }),
    ]
}

/// Running the increment body emits the variable's rendering and raises it
/// by one.
proof fn lemma_run_increment_body(
    name: Seq<char>,
    v: i64,
    st: Map<Seq<char>, ValueView>,
    out: Seq<Seq<char>>,
    fuel: nat,
)
    requires
        st.contains_key(name),
        st[name] == ValueView::Number(v),
        v < i64::MAX,
    ensures
        run_cmds(increment_body(name), st, out, fuel) == (RunResult::Done {
            state: st.insert(name, ValueView::Number((v + 1) as i64)),
            output: out.push(render_value(st[name])),
        }),
{
    let body = increment_body(name);
    let out1 = out.push(render_value(st[name]));
    let st1 = st.insert(name, ValueView::Number((v + 1) as i64));
    let chain = seq![
        TokenView::Identifier(name),
        TokenView::Maths(MathsOperations::Plus),
        TokenView::Number(1),
    ];
    assert(run_cmd(body[0], st, out, fuel) == (RunResult::Done { state: st, output: out1 }));
    assert(eval_maths_from(st, chain, 3, (v + 1) as i64, None, Some(MathsOperations::Plus))
        == Result::<i64, Error>::Ok((v + 1) as i64));
    assert(eval_maths_from(st, chain, 2, v, None, Some(MathsOperations::Plus)) == Result::<
        i64,
        Error,
    >::Ok((v + 1) as i64));
    assert(eval_maths_from(st, chain, 1, 0, Some(v), None) == Result::<i64, Error>::Ok(
        (v + 1) as i64,
    ));
    assert(eval_maths_from(st, chain, 0, 0, None, None) == Result::<i64, Error>::Ok(
        (v + 1) as i64,
    ));
    assert(run_cmd(body[1], st, out1, fuel) == (RunResult::Done { state: st1, output: out1 }));
    assert(body.drop_first() =~= seq![body[1]]);
    assert(body.drop_first().drop_first() =~= Seq::<CommandView>::empty());
    assert(run_cmds(body.drop_first().drop_first(), st1, out1, fuel) == (RunResult::Done {
        state: st1,
        output: out1,
    }));
    assert(run_cmds(body.drop_first(), st, out1, fuel) == (RunResult::Done {
        state: st1,
        output: out1,
    }));
}

/// A `simmer` loop over a three-element number array whose body plates the
/// loop variable emits exactly three lines, one per element in array
/// order, and leaves the loop variable bound to the last element.
pub proof fn lemma_simmer_three_elements(
    n: Seq<char>,
    arr: Seq<char>,
    a: Seq<i64>,
    st: Map<Seq<char>, ValueView>,
    out: Seq<Seq<char>>,
    fuel: nat,
)
    requires
        st.contains_key(arr),
        st[arr] == ValueView::ArrayNumber(a),
        a.len() == 3,
    ensures
        run_cmd(
            (CommandView::Simmer {
                identifier: n,
                array_identifier: arr,
                commands: seq![CommandView::Plate { value: TokenView::Identifier(n) }],
            }),
            st,
            out,
            fuel,
        ) == (RunResult::Done {
            state: st.insert(n, ValueView::Number(a[2])),
            output: out.push(render_i64(a[0])).push(render_i64(a[1])).push(render_i64(a[2])),
        }),
{
    let body = seq![CommandView::Plate { value: TokenView::Identifier(n) }];
    let vals = nums_to_vals(a);
    assert(body.drop_first() =~= Seq::<CommandView>::empty());
    let st1 = st.insert(n, ValueView::Number(a[0]));
    let st2 = st1.insert(n, ValueView::Number(a[1]));
    let st3 = st2.insert(n, ValueView::Number(a[2]));
    let out1 = out.push(render_i64(a[0]));
    let out2 = out1.push(render_i64(a[1]));
    let out3 = out2.push(render_i64(a[2]));
    lemma_run_plate_body(n, st1, out, fuel);
    lemma_run_plate_body(n, st2, out1, fuel);
    lemma_run_plate_body(n, st3, out2, fuel);
    assert(render_value(st1[n]) == render_i64(a[0]));
    assert(render_value(st2[n]) == render_i64(a[1]));
    assert(render_value(st3[n]) == render_i64(a[2]));
    assert(vals.drop_first() =~= nums_to_vals(a).subrange(1, 3));
    assert(vals.drop_first()[0] == ValueView::Number(a[1]));
    assert(vals.drop_first().drop_first() =~= nums_to_vals(a).subrange(2, 3));
    assert(vals.drop_first().drop_first()[0] == ValueView::Number(a[2]));
    assert(vals.drop_first().drop_first().drop_first() =~= Seq::<ValueView>::empty());
    assert(run_simmer(n, vals.drop_first().drop_first().drop_first(), body, st3, out3, fuel)
        == (RunResult::Done { state: st3, output: out3 }));
    assert(run_simmer(n, vals.drop_first().drop_first(), body, st2, out2, fuel)
        == (RunResult::Done { state: st3, output: out3 }));
    assert(run_simmer(n, vals.drop_first(), body, st1, out1, fuel) == (RunResult::Done {
        state: st3,
        output: out3,
    }));
    assert(vals[0] == ValueView::Number(a[0]));
    assert(run_simmer(n, vals, body, st, out, fuel) == (RunResult::Done {
        state: st3,
        output: out3,
    }));
    assert(st3 =~= st.insert(n, ValueView::Number(a[2])));
}

/// The zero-seeded, strictly left-to-right arithmetic rule: in the chain
/// `5 - 2 - 1`, the first subtraction combines the first operand with the
/// zero accumulator, so the chain evaluates to `(0 - 5) - 2 - 1 == -8`.
pub proof fn lemma_left_to_right_arithmetic(st: Map<Seq<char>, ValueView>)
    ensures
        eval_maths(
            st,
            seq![
                TokenView::Number(5),
                TokenView::Maths(MathsOperations::Minus),
                TokenView::Number(2),
                TokenView::Maths(MathsOperations::Minus),
                TokenView::Number(1),
            ],
        ) == Result::<i64, Error>::Ok(-8i64),
{
    let vs = seq![
        TokenView::Number(5),
        TokenView::Maths(MathsOperations::Minus),
        TokenView::Number(2),
        TokenView::Maths(MathsOperations::Minus),
        TokenView::Number(1),
    ];
    let minus = Some(MathsOperations::Minus);
    assert(eval_maths_from(st, vs, 5, -8i64, None, minus) == Result::<i64, Error>::Ok(-8i64));
    assert(eval_maths_from(st, vs, 4, -7i64, None, minus) == Result::<i64, Error>::Ok(-8i64));
    assert(eval_maths_from(st, vs, 3, -7i64, None, minus) == Result::<i64, Error>::Ok(-8i64));
    assert(eval_maths_from(st, vs, 2, -5i64, None, minus) == Result::<i64, Error>::Ok(-8i64));
    assert(eval_maths_from(st, vs, 1, 0i64, Some(5i64), None) == Result::<i64, Error>::Ok(
        -8i64,
    ));
    assert(eval_maths_from(st, vs, 0, 0i64, None, None) == Result::<i64, Error>::Ok(-8i64));
}

/// A later operator switches the pending operation applied to the operands
/// that follow it: in the mixed chain `5 - 2 + 3`, the subtraction governs
/// the first two operands and the addition the third, so the chain
/// evaluates to `((0 - 5) - 2) + 3 == -4`.
pub proof fn lemma_pending_operator_applies_forward(st: Map<Seq<char>, ValueView>)
    ensures
        eval_maths(
            st,
            seq![
                TokenView::Number(5),
                TokenView::Maths(MathsOperations::Minus),
                TokenView::Number(2),
                TokenView::Maths(MathsOperations::Plus),
                TokenView::Number(3),
            ],
        ) == Result::<i64, Error>::Ok(-4i64),
{
    let vs = seq![
        TokenView::Number(5),
        TokenView::Maths(MathsOperations::Minus),
        TokenView::Number(2),
        TokenView::Maths(MathsOperations::Plus),
        TokenView::Number(3),
    ];
    let minus = Some(MathsOperations::Minus);
    let plus = Some(MathsOperations::Plus);
    assert(eval_maths_from(st, vs, 5, -4i64, None, plus) == Result::<i64, Error>::Ok(-4i64));
    assert(eval_maths_from(st, vs, 4, -7i64, None, plus) == Result::<i64, Error>::Ok(-4i64));
    assert(eval_maths_from(st, vs, 3, -7i64, None, minus) == Result::<i64, Error>::Ok(-4i64));
    assert(eval_maths_from(st, vs, 2, -5i64, None, minus) == Result::<i64, Error>::Ok(-4i64));
    assert(eval_maths_from(st, vs, 1, 0i64, Some(5i64), None) == Result::<i64, Error>::Ok(
        -4i64,
    ));
    assert(eval_maths_from(st, vs, 0, 0i64, None, None) == Result::<i64, Error>::Ok(-4i64));
}

/// A `simmer` loop whose source variable holds a number, not an array, is
/// a type-mismatch fault, whatever the loop's body.
pub proof fn lemma_simmer_source_must_be_array(
    n: Seq<char>,
    x: Seq<char>,
    v: i64,
    body: Seq<CommandView>,
    st: Map<Seq<char>, ValueView>,
    out: Seq<Seq<char>>,
    fuel: nat,
)
    requires
        st.contains_key(x),
        st[x] == ValueView::Number(v),
    ensures
        run_cmd(
            (CommandView::Simmer { identifier: n, array_identifier: x, commands: body }),
            st,
            out,
            fuel,
        ) == (RunResult::Fail { error: Error::TypeMismatch, state: st, output: out }),
{
}

/// A fragment of the lexing round trip: a nonempty word of letters and
/// digits that starts with a letter, and whose leading letter run is no
/// keyword, lexes back to exactly the one identifier it renders as.
pub proof fn lemma_identifier_round_trip(s: Seq<char>)
    requires
        s.len() > 0,
        forall|i: int| 0 <= i < s.len() ==> is_alnum(s[i]),
        is_alpha(s[0]),
        keyword_of(s.subrange(0, run_end(s, 0, kw_pred()))) is None,
    ensures
        spec_lex(s) == Result::<Seq<TokenView>, Error>::Ok(seq![TokenView::Identifier(s)]),
{
    lemma_run_end(s, 0, kw_pred());
    lemma_run_end_exact(s, 0, alnum_pred(), s.len() as int);
    assert(s.subrange(0, s.len() as int) =~= s);
    assert(spec_next_token(s, 0) == LexStep::Tok(TokenView::Identifier(s), s.len() as int));
    assert(spec_lex_from(s, s.len() as int) == Result::<Seq<TokenView>, Error>::Ok(
        Seq::<TokenView>::empty(),
    ));
    assert(seq![TokenView::Identifier(s)] + Seq::<TokenView>::empty() =~= seq![
        TokenView::Identifier(s),
    ]);
}

/// A fragment of the lexing round trip: a string literal's rendering, its
/// contents between two quotes, lexes back to exactly that one string
/// token, provided the contents hold no quote themselves.
pub proof fn lemma_string_literal_round_trip(content: Seq<char>)
    requires
        forall|i: int| 0 <= i < content.len() ==> content[i] != '"',
    ensures
        spec_lex(seq!['"'] + content + seq!['"']) == Result::<Seq<TokenView>, Error>::Ok(
            seq![TokenView::StringLiteral(content)],
        ),
{
    let s = seq!['"'] + content + seq!['"'];
    let n = s.len() as int;
    assert(s[0] == '"');
    assert(!is_kw_char('"'));
    assert(forall|i: int| 1 <= i < n - 1 ==> s[i] == content[i - 1]);
    assert(s[n - 1] == '"');
    lemma_run_end_exact(s, 1, not_quote_pred(), n - 1);
    assert(s.subrange(1, n - 1) =~= content);
    assert(spec_next_token(s, 0) == LexStep::Tok(TokenView::StringLiteral(content), n));
    assert(spec_lex_from(s, n) == Result::<Seq<TokenView>, Error>::Ok(Seq::<TokenView>::empty()));
    assert(seq![TokenView::StringLiteral(content)] + Seq::<TokenView>::empty() =~= seq![
        TokenView::StringLiteral(content),
    ]);
}

/// The value of the digit run `s` appended to an accumulator read so far.
pub open spec fn digits_value(acc: int, s: Seq<char>) -> int
    decreases s.len(),
{
    if s.len() == 0 {
        acc
    } else {
        digits_value(acc * 10 + digit_val(s[0]), s.drop_first())
    }
}

/// Reading further digits never shrinks a nonnegative value.
proof fn lemma_digits_value_grows(acc: int, s: Seq<char>)
    requires
        0 <= acc,
        forall|i: int| 0 <= i < s.len() ==> is_digit(s[i]),
    ensures
        digits_value(acc, s) >= acc,
    decreases s.len(),
{
    if s.len() > 0 {
        lemma_digits_value_grows(acc * 10 + digit_val(s[0]), s.drop_first());
    }
}

/// Appending one digit multiplies the value by ten and adds the digit.
proof fn lemma_digits_value_push(acc: int, s: Seq<char>, c: char)
    ensures
        digits_value(acc, s.push(c)) == digits_value(acc, s) * 10 + digit_val(c),
    decreases s.len(),
{
    if s.len() == 0 {
        assert(s.push(c)[0] == c);
        assert(s.push(c).drop_first() =~= Seq::<char>::empty());
        assert(digits_value(acc, s.push(c)) == digits_value(
            acc * 10 + digit_val(c),
            Seq::<char>::empty(),
        ));
    } else {
        assert(s.push(c)[0] == s[0]);
        assert(s.push(c).drop_first() =~= s.drop_first().push(c));
        lemma_digits_value_push(acc * 10 + digit_val(s[0]), s.drop_first(), c);
        assert(digits_value(acc, s.push(c)) == digits_value(
            acc * 10 + digit_val(s[0]),
            s.drop_first().push(c),
        ));
        assert(digits_value(acc, s) == digits_value(acc * 10 + digit_val(s[0]), s.drop_first()));
    }
}

/// The decimal rendering of a number holds only digits, and reading it
/// back onto a zero accumulator yields the number again.
proof fn lemma_dec_digits_value(n: nat)
    ensures
        dec_digits(n).len() > 0,
        forall|i: int| 0 <= i < dec_digits(n).len() ==> is_digit(dec_digits(n)[i]),
        digits_value(0, dec_digits(n)) == n,
    decreases n,
{
    assert(is_digit(digit_char(n as int % 10)) && digit_val(digit_char(n as int % 10)) == n as int
        % 10);
    if n < 10 {
        assert(is_digit(digit_char(n as int)) && digit_val(digit_char(n as int)) == n);
        assert(dec_digits(n).drop_first() =~= Seq::<char>::empty());
        assert(digits_value(0, dec_digits(n)) == digits_value(digit_val(dec_digits(n)[0]), Seq::<
            char,
        >::empty()));
    } else {
        lemma_dec_digits_value(n / 10);
        lemma_digits_value_push(0, dec_digits(n / 10), digit_char((n % 10) as int));
    }
}

/// Scanning an all-digit remainder accumulates exactly its decimal value.
proof fn lemma_spec_number_exact(s: Seq<char>, pos: int, acc: i64)
    requires
        0 <= pos <= s.len(),
        forall|i: int| pos <= i < s.len() ==> is_digit(s[i]),
        0 <= acc,
        digits_value(acc as int, s.subrange(pos, s.len() as int)) <= i64::MAX,
    ensures
        spec_number(s, pos, acc) == LexStep::Tok(
            TokenView::Number(digits_value(acc as int, s.subrange(pos, s.len() as int)) as i64),
            s.len() as int,
        ),
    decreases s.len() - pos,
{
    let rest = s.subrange(pos, s.len() as int);
    if pos == s.len() {
        assert(rest =~= Seq::<char>::empty());
    } else {
        let d = digit_val(s[pos]);
        assert(rest[0] == s[pos]);
        assert(rest.drop_first() =~= s.subrange(pos + 1, s.len() as int));
        lemma_digits_value_grows(
            acc as int * 10 + d,
            s.subrange(pos + 1, s.len() as int),
        );
        assert(acc as int * 10 + d <= i64::MAX);
        lemma_spec_number_exact(s, pos + 1, (acc * 10 + d as i64) as i64);
    }
}

/// A fragment of the lexing round trip: the decimal rendering of a
/// nonnegative number lexes back to exactly that one number token.
pub proof fn lemma_number_round_trip(n: i64)
    requires
        0 <= n,
    ensures
        spec_lex(dec_digits(n as nat)) == Result::<Seq<TokenView>, Error>::Ok(
            seq![TokenView::Number(n)],
        ),
{
    let s = dec_digits(n as nat);
    lemma_dec_digits_value(n as nat);
    assert(s.subrange(0, s.len() as int) =~= s);
    lemma_spec_number_exact(s, 0, 0);
    assert(!is_kw_char(s[0]));
    assert(maths_op(s[0]) is None);
    assert(spec_next_token(s, 0) == LexStep::Tok(TokenView::Number(n), s.len() as int));
    assert(spec_lex_from(s, s.len() as int) == Result::<Seq<TokenView>, Error>::Ok(
        Seq::<TokenView>::empty(),
    ));
    assert(seq![TokenView::Number(n)] + Seq::<TokenView>::empty() =~= seq![TokenView::Number(n)]);
}

} // verus!
