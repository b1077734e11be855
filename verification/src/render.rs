//! Human-readable rendering of runtime values, one line per emitted value.

use vstd::prelude::*;
use vstd::string::StringExecFns;
use vstd::string::StrSliceExecFns;

use crate::state::{Value, ValueView};
use crate::tokens::strs_view;

verus! {

/// The decimal digit character for `d`.
pub open spec fn digit_char(d: int) -> char {
    if d == 0 {
        '0'
    } else if d == 1 {
        '1'
    } else if d == 2 {
        '2'
    } else if d == 3 {
        '3'
    } else if d == 4 {
        '4'
    } else if d == 5 {
        '5'
    } else if d == 6 {
        '6'
    } else if d == 7 {
        '7'
    } else if d == 8 {
        '8'
    } else {
        '9'
    }
}

/// The decimal digits of `n`, most significant first.
pub open spec fn dec_digits(n: nat) -> Seq<char>
    decreases n,
{
    if n < 10 {
        seq![digit_char(n as int)]
    } else {
        dec_digits(n / 10).push(digit_char((n % 10) as int))
    }
}

/// The decimal rendering of a number, with a leading minus sign if negative.
pub open spec fn render_i64(n: i64) -> Seq<char> {
    if n < 0 {
        seq!['-'] + dec_digits((-(n as int)) as nat)
    } else {
        dec_digits(n as nat)
    }
}

/// The comma-separated renderings of a number array's elements.
pub open spec fn render_num_elems(a: Seq<i64>) -> Seq<char>
    decreases a.len(),
{
    if a.len() == 0 {
        Seq::empty()
    } else if a.len() == 1 {
        render_i64(a[0])
    } else {
        render_i64(a[0]) + seq![',', ' '] + render_num_elems(a.drop_first())
    }
}

/// A number array rendered in brackets: the elements, comma separated.
pub open spec fn render_num_array(a: Seq<i64>) -> Seq<char> {
    seq!['['] + render_num_elems(a) + seq![']']
}

/// The comma-separated renderings of a string array's elements, each quoted.
pub open spec fn render_str_elems(a: Seq<Seq<char>>) -> Seq<char>
    decreases a.len(),
{
    if a.len() == 0 {
        Seq::empty()
    } else if a.len() == 1 {
        seq!['"'] + a[0] + seq!['"']
    } else {
        seq!['"'] + a[0] + seq!['"', ',', ' '] + render_str_elems(a.drop_first())
    }
}

/// A string array rendered in brackets: the elements, quoted and comma
/// separated.
pub open spec fn render_str_array(a: Seq<Seq<char>>) -> Seq<char> {
    seq!['['] + render_str_elems(a) + seq![']']
}

/// The line that emitting a value produces: strings are emitted bare,
/// numbers in decimal, arrays in bracket form, booleans as their names, and
/// a function value as the word `recipe` followed by its parameter list.
pub open spec fn render_value(v: ValueView) -> Seq<char> {
    match v {
        ValueView::String(s) => s,
        ValueView::Number(n) => render_i64(n),
        ValueView::ArrayNumber(a) => render_num_array(a),
        ValueView::ArrayString(a) => render_str_array(a),
        ValueView::Boolean(b) => if b {
            "true"@
        } else {
            "false"@
        },
        ValueView::Function(params, body) => "recipe "@ + render_str_array(params),
    }
}

pub proof fn lemma_render_num_elems_push(a: Seq<i64>, x: i64)
    ensures
        render_num_elems(a.push(x)) == if a.len() == 0 {
            render_i64(x)
        } else {
            render_num_elems(a) + seq![',', ' '] + render_i64(x)
        },
    decreases a.len(),
{
    if a.len() == 0 {
        assert(a.push(x) =~= seq![x]);
        assert(render_num_elems(seq![x]) == render_i64(x));
    } else {
        assert(a.push(x).drop_first() =~= a.drop_first().push(x));
        lemma_render_num_elems_push(a.drop_first(), x);
        if a.len() == 1 {
            assert(render_num_elems(a) == render_i64(a[0]));
        }
    }
}

pub proof fn lemma_render_str_elems_push(a: Seq<Seq<char>>, x: Seq<char>)
    ensures
        render_str_elems(a.push(x)) == if a.len() == 0 {
            seq!['"'] + x + seq!['"']
        } else {
            render_str_elems(a) + seq![',', ' '] + (seq!['"'] + x + seq!['"'])
        },
    decreases a.len(),
{
    if a.len() == 0 {
        assert(a.push(x) =~= seq![x]);
    } else {
        assert(a.push(x).drop_first() =~= a.drop_first().push(x));
        lemma_render_str_elems_push(a.drop_first(), x);
    }
}

/// Appends one decimal digit character.
fn append_digit(out: &mut String, d: u64)
    requires
        d < 10,
    ensures
        final (out)@ == old(out)@.push(digit_char(d as int)),
{
    let s: &str = if d == 0 {
        "0"
    } else if d == 1 {
        "1"
    } else if d == 2 {
        "2"
    } else if d == 3 {
        "3"
    } else if d == 4 {
        "4"
    } else if d == 5 {
        "5"
    } else if d == 6 {
        "6"
    } else if d == 7 {
        "7"
    } else if d == 8 {
        "8"
    } else {
        "9"
    };
    proof {
        reveal_strlit("0");
        reveal_strlit("1");
        reveal_strlit("2");
        reveal_strlit("3");
        reveal_strlit("4");
        reveal_strlit("5");
        reveal_strlit("6");
        reveal_strlit("7");
        reveal_strlit("8");
        reveal_strlit("9");
        assert(s@ =~= seq![digit_char(d as int)]);
    }
    out.append(s);
    proof {
        assert(out@ =~= old(out)@.push(digit_char(d as int)));
    }
}

/// Appends the decimal digits of `n`.
fn append_u64_digits(out: &mut String, n: u64)
    ensures
        final (out)@ == old(out)@ + dec_digits(n as nat),
    decreases n,
{
    if n < 10 {
        append_digit(out, n);
        proof {
            assert(out@ =~= old(out)@ + dec_digits(n as nat));
        }
    } else {
        append_u64_digits(out, n / 10);
        append_digit(out, n % 10);
        proof {
            assert(out@ =~= old(out)@ + dec_digits(n as nat));
        }
    }
}

/// Appends the decimal rendering of `n`.
pub fn append_i64(out: &mut String, n: i64)
    ensures
        final (out)@ == old(out)@ + render_i64(n),
{
    if n < 0 {
        proof {
            reveal_strlit("-");
        }
        out.append("-");
        let magnitude: u64 = if n == i64::MIN {
            9223372036854775808u64
        } else {
            (-n) as u64
        };
        proof {
            assert(magnitude as nat == (-(n as int)) as nat);
        }
        append_u64_digits(out, magnitude);
        proof {
            assert(out@ =~= old(out)@ + render_i64(n));
        }
    } else {
        append_u64_digits(out, n as u64);
    }
}

/// Appends a number array in bracket form.
pub fn append_num_array(out: &mut String, a: &Vec<i64>)
    ensures
        final (out)@ == old(out)@ + render_num_array(a@),
{
    proof {
        reveal_strlit("[");
        reveal_strlit("]");
        reveal_strlit(", ");
    }
    out.append("[");
    let n = a.len();
    let mut i: usize = 0;
    while i < n
        invariant
            i <= n,
            n == a@.len(),
            out@ == old(out)@ + seq!['['] + render_num_elems(a@.take(i as int)),
        decreases n - i,
    {
        if i > 0 {
            out.append(", ");
        }
        append_i64(out, a[i]);
        proof {
            reveal_strlit("[");
            reveal_strlit(", ");
            assert(a@.take(i as int).push(a@[i as int]) =~= a@.take(i + 1));
            lemma_render_num_elems_push(a@.take(i as int), a@[i as int]);
            assert(", "@ =~= seq![',', ' ']);
            assert(out@ =~= old(out)@ + seq!['['] + render_num_elems(a@.take(i + 1)));
        }
        i = i + 1;
    }
    out.append("]");
    proof {
        assert(a@.take(n as int) =~= a@);
        assert(out@ =~= old(out)@ + render_num_array(a@));
    }
}

/// Appends a string array in bracket form, each element quoted.
pub fn append_str_array(out: &mut String, a: &Vec<String>)
    ensures
        final (out)@ == old(out)@ + render_str_array(strs_view(a@)),
{
    proof {
        reveal_strlit("[");
        reveal_strlit("]");
        reveal_strlit("\"");
        reveal_strlit("\", \"");
    }
    out.append("[");
    let n = a.len();
    let mut i: usize = 0;
    while i < n
        invariant
            i <= n,
            n == a@.len(),
            i == 0 ==> out@ == old(out)@ + seq!['['],
            i > 0 ==> out@.push('"') == old(out)@ + seq!['['] + render_str_elems(
                strs_view(a@).take(i as int),
            ),
        decreases n - i,
    {
        let ghost entry = out@;
        if i > 0 {
            out.append("\", \"");
        } else {
            out.append("\"");
        }
        out.append(a[i].as_str());
        proof {
            reveal_strlit("[");
            reveal_strlit("\"");
            reveal_strlit("\", \"");
            let sv = strs_view(a@);
            assert(sv.take(i as int).push(sv[i as int]) =~= sv.take(i + 1));
            lemma_render_str_elems_push(sv.take(i as int), sv[i as int]);
            assert("\", \""@ =~= seq!['"', ',', ' ', '"']);
            assert("\""@ =~= seq!['"']);
            assert(sv[i as int] == a@[i as int]@);
            if i == 0 {
                assert(out@ =~= entry + seq!['"'] + a@[i as int]@);
                assert(render_str_elems(sv.take(1)) =~= seq!['"'] + sv[0] + seq!['"']);
                assert(out@.push('"') =~= old(out)@ + seq!['['] + render_str_elems(sv.take(i + 1)));
            } else {
                assert(out@ =~= entry + seq!['"', ',', ' ', '"'] + a@[i as int]@);
                assert(out@.push('"') =~= entry.push('"') + seq![',', ' '] + (seq!['"'] + sv[
                    i as int
                ] + seq!['"']));
                assert(out@.push('"') =~= old(out)@ + seq!['['] + render_str_elems(sv.take(i + 1)));
            }
        }
        i = i + 1;
    }
    if n > 0 {
        out.append("\"");
        proof {
            assert(strs_view(a@).take(n as int) =~= strs_view(a@));
            assert(out@ =~= old(out)@ + seq!['['] + render_str_elems(strs_view(a@)));
        }
    }
    out.append("]");
    proof {
        assert(strs_view(a@).take(n as int) =~= strs_view(a@));
        assert(out@ =~= old(out)@ + render_str_array(strs_view(a@)));
    }
}

/// The emitted line for a value.
pub fn value_to_string(v: &Value) -> (s: String)
    ensures
        s@ == render_value(crate::state::val_view(*v)),
{
    match v {
        Value::String(s0) => s0.clone(),
        Value::Number(n) => {
            let mut out = String::new();
            append_i64(&mut out, *n);
            out
        },
        Value::ArrayNumber(a) => {
            let mut out = String::new();
            append_num_array(&mut out, a);
            out
        },
        Value::ArrayString(a) => {
            let mut out = String::new();
            append_str_array(&mut out, a);
            out
        },
        Value::Boolean(b) => {
            if *b {
                "true".to_owned()
            } else {
                "false".to_owned()
            }
        },
        Value::Function(params, body) => {
            let mut out = "recipe ".to_owned();
            append_str_array(&mut out, params);
            out
        },
    }
}

} // verus!
