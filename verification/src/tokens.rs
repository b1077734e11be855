//! The lexical units of the language and their mathematical model.

use vstd::prelude::*;

verus! {

/// The arithmetic operators that a `Token::Maths` payload carries.
#[derive(Clone, Copy, Debug, PartialEq, Eq, Structural)]
pub enum MathsOperations {
    Plus,
    Minus,
    Multiply,
    Division,
    Mod,
}

/// The two element kinds an array literal can hold.
#[derive(Clone, Copy, Debug, PartialEq, Eq, Structural)]
pub enum ValueType {
    String,
    Number,
}

/// One lexical unit produced by the lexer.
///
/// Keyword markers carry no payload; `Maths` carries an arithmetic operator;
/// the data-carrying variants hold a number, a name, a quoted string, an
/// array literal, or a recursively lexed brace-delimited block. `Space`
/// marks one blank character; the lexer consumes it and never forwards it.
#[derive(Debug, PartialEq)]
pub enum Token {
    Ingredient,
    Taste,
    TasteAgain,
    Tasteless,
    Layer,
    Simmer,
    Cook,
    Burnt,
    Serve,
    Plate,
    Recipe,
    Fresh,
    Spoiled,
    Mix,
    Separate,
    Is,
    In,
    Hotter,
    Cooler,
    Same,
    NotSame,
    HotOrSame,
    CoolOrSame,
    Maths(MathsOperations),
    Number(i64),
    Identifier(String),
    StringLiteral(String),
    ArrayNumber(Vec<i64>),
    ArrayString(Vec<String>),
    Block(Vec<Token>),
    Space,
}

/// The mathematical model of a `Token`: strings become `Seq<char>`, vectors
/// become `Seq`, and a block holds the models of its inner tokens.
pub enum TokenView {
    Ingredient,
    Taste,
    TasteAgain,
    Tasteless,
    Layer,
    Simmer,
    Cook,
    Burnt,
    Serve,
    Plate,
    Recipe,
    Fresh,
    Spoiled,
    Mix,
    Separate,
    Is,
    In,
    Hotter,
    Cooler,
    Same,
    NotSame,
    HotOrSame,
    CoolOrSame,
    Maths(MathsOperations),
    Number(i64),
    Identifier(Seq<char>),
    StringLiteral(Seq<char>),
    ArrayNumber(Seq<i64>),
    ArrayString(Seq<Seq<char>>),
    Block(Seq<TokenView>),
    Space,
}

/// Model of a sequence of strings as a sequence of character sequences.
pub open spec fn strs_view(s: Seq<String>) -> Seq<Seq<char>> {
    Seq::new(s.len(), |i: int| s[i]@)
}

/// Model of a single token.
pub open spec fn tok_view(t: Token) -> TokenView
    decreases t,
{
    match t {
        Token::Ingredient => TokenView::Ingredient,
        Token::Taste => TokenView::Taste,
        Token::TasteAgain => TokenView::TasteAgain,
        Token::Tasteless => TokenView::Tasteless,
        Token::Layer => TokenView::Layer,
        Token::Simmer => TokenView::Simmer,
        Token::Cook => TokenView::Cook,
        Token::Burnt => TokenView::Burnt,
        Token::Serve => TokenView::Serve,
        Token::Plate => TokenView::Plate,
        Token::Recipe => TokenView::Recipe,
        Token::Fresh => TokenView::Fresh,
        Token::Spoiled => TokenView::Spoiled,
        Token::Mix => TokenView::Mix,
        Token::Separate => TokenView::Separate,
        Token::Is => TokenView::Is,
        Token::In => TokenView::In,
        Token::Hotter => TokenView::Hotter,
        Token::Cooler => TokenView::Cooler,
        Token::Same => TokenView::Same,
        Token::NotSame => TokenView::NotSame,
        Token::HotOrSame => TokenView::HotOrSame,
        Token::CoolOrSame => TokenView::CoolOrSame,
        Token::Maths(op) => TokenView::Maths(op),
        Token::Number(n) => TokenView::Number(n),
        Token::Identifier(s) => TokenView::Identifier(s@),
        Token::StringLiteral(s) => TokenView::StringLiteral(s@),
        Token::ArrayNumber(v) => TokenView::ArrayNumber(v@),
        Token::ArrayString(v) => TokenView::ArrayString(strs_view(v@)),
        Token::Block(ts) => TokenView::Block(toks_view(ts@)),
        Token::Space => TokenView::Space,
    }
}

/// Model of a sequence of tokens.
pub open spec fn toks_view(s: Seq<Token>) -> Seq<TokenView>
    decreases s,
{
    if s.len() == 0 {
        Seq::empty()
    } else {
        seq![tok_view(s[0])] + toks_view(s.drop_first())
    }
}

pub proof fn lemma_toks_view(s: Seq<Token>)
    ensures
        toks_view(s).len() == s.len(),
        forall|i: int| 0 <= i < s.len() ==> toks_view(s)[i] == tok_view(s[i]),
    decreases s.len(),
{
    if s.len() > 0 {
        lemma_toks_view(s.drop_first());
    }
}

pub proof fn lemma_toks_view_push(s: Seq<Token>, t: Token)
    ensures
        toks_view(s.push(t)) == toks_view(s).push(tok_view(t)),
{
    lemma_toks_view(s);
    lemma_toks_view(s.push(t));
    assert(toks_view(s.push(t)) =~= toks_view(s).push(tok_view(t)));
}

/// Structural size of a token model. A string literal counts its
/// characters, so that the tokens obtained by re-lexing a literal's
/// contents are strictly smaller than the literal itself; a block counts
/// its inner tokens.
pub open spec fn tokv_measure(t: TokenView) -> nat
    decreases t,
{
    match t {
        TokenView::StringLiteral(s) => 1 + s.len(),
        TokenView::Block(ts) => 1 + toksv_measure(ts),
        _ => 1,
    }
}

/// Structural size of a token model sequence: the sum of its sizes.
pub open spec fn toksv_measure(s: Seq<TokenView>) -> nat
    decreases s,
{
    if s.len() == 0 {
        0
    } else {
        tokv_measure(s[0]) + toksv_measure(s.drop_first())
    }
}

pub proof fn lemma_toksv_measure_index(s: Seq<TokenView>, i: int)
    requires
        0 <= i < s.len(),
    ensures
        tokv_measure(s[i]) <= toksv_measure(s),
    decreases s.len(),
{
    if i > 0 {
        lemma_toksv_measure_index(s.drop_first(), i - 1);
    }
}

/// Copies a vector of numbers element by element.
pub fn copy_i64s(a: &Vec<i64>) -> (r: Vec<i64>)
    ensures
        r@ == a@,
{
    let mut r: Vec<i64> = Vec::new();
    let n = a.len();
    let mut i: usize = 0;
    while i < n
        invariant
            i <= n,
            n == a@.len(),
            r@ == a@.take(i as int),
        decreases n - i,
    {
        r.push(a[i]);
        proof {
            assert(r@ =~= a@.take(i + 1));
        }
        i = i + 1;
    }
    proof {
        assert(a@.take(n as int) =~= a@);
    }
    r
}

/// Copies a vector of strings element by element.
pub fn copy_strings(a: &Vec<String>) -> (r: Vec<String>)
    ensures
        r@ == a@,
{
    let mut r: Vec<String> = Vec::new();
    let n = a.len();
    let mut i: usize = 0;
    while i < n
        invariant
            i <= n,
            n == a@.len(),
            r@ == a@.take(i as int),
        decreases n - i,
    {
        r.push(a[i].clone());
        proof {
            assert(r@ =~= a@.take(i + 1));
        }
        i = i + 1;
    }
    proof {
        assert(a@.take(n as int) =~= a@);
    }
    r
}

/// Copies one token; the copy has the same model.
pub fn copy_token(t: &Token) -> (r: Token)
    ensures
        tok_view(r) == tok_view(*t),
    decreases tokv_measure(tok_view(*t)), 0int,
{
    match t {
        Token::Ingredient => Token::Ingredient,
        Token::Taste => Token::Taste,
        Token::TasteAgain => Token::TasteAgain,
        Token::Tasteless => Token::Tasteless,
        Token::Layer => Token::Layer,
        Token::Simmer => Token::Simmer,
        Token::Cook => Token::Cook,
        Token::Burnt => Token::Burnt,
        Token::Serve => Token::Serve,
        Token::Plate => Token::Plate,
        Token::Recipe => Token::Recipe,
        Token::Fresh => Token::Fresh,
        Token::Spoiled => Token::Spoiled,
        Token::Mix => Token::Mix,
        Token::Separate => Token::Separate,
        Token::Is => Token::Is,
        Token::In => Token::In,
        Token::Hotter => Token::Hotter,
        Token::Cooler => Token::Cooler,
        Token::Same => Token::Same,
        Token::NotSame => Token::NotSame,
        Token::HotOrSame => Token::HotOrSame,
        Token::CoolOrSame => Token::CoolOrSame,
        Token::Maths(op) => Token::Maths(*op),
        Token::Number(n) => Token::Number(*n),
        Token::Identifier(s) => Token::Identifier(s.clone()),
        Token::StringLiteral(s) => Token::StringLiteral(s.clone()),
        Token::ArrayNumber(a) => Token::ArrayNumber(copy_i64s(a)),
        Token::ArrayString(a) => Token::ArrayString(copy_strings(a)),
        Token::Block(ts) => Token::Block(copy_tokens(ts)),
        Token::Space => Token::Space,
    }
}

/// Copies a vector of tokens; the copy has the same model.
pub fn copy_tokens(ts: &Vec<Token>) -> (r: Vec<Token>)
    ensures
        toks_view(r@) == toks_view(ts@),
    decreases toksv_measure(toks_view(ts@)), 1int,
{
    let mut r: Vec<Token> = Vec::new();
    let n = ts.len();
    let mut i: usize = 0;
    while i < n
        invariant
            i <= n,
            n == ts@.len(),
            toks_view(r@) == toks_view(ts@.take(i as int)),
        decreases n - i,
    {
        proof {
            lemma_toks_view(ts@);
            lemma_toksv_measure_index(toks_view(ts@), i as int);
        }
        let c = copy_token(&ts[i]);
        let ghost r_old = r@;
        r.push(c);
        proof {
            lemma_toks_view_push(r_old, c);
            lemma_toks_view_push(ts@.take(i as int), ts@[i as int]);
            assert(ts@.take(i as int).push(ts@[i as int]) =~= ts@.take(i + 1));
        }
        i = i + 1;
    }
    proof {
        assert(ts@.take(n as int) =~= ts@);
    }
    r
}

/// Whether two vectors of numbers hold the same sequence.
fn i64s_eq(a: &Vec<i64>, b: &Vec<i64>) -> (r: bool)
    ensures
        r == (a@ == b@),
{
    let n = a.len();
    if n != b.len() {
        return false;
    }
    let mut j: usize = 0;
    while j < n
        invariant
            j <= n,
            n == a@.len(),
            n == b@.len(),
            forall|k: int| 0 <= k < j ==> a@[k] == b@[k],
        decreases n - j,
    {
        if a[j] != b[j] {
            return false;
        }
        j = j + 1;
    }
    proof {
        assert(a@ =~= b@);
    }
    true
}

/// Whether two vectors of strings hold the same character sequences.
fn strings_eq(a: &Vec<String>, b: &Vec<String>) -> (r: bool)
    ensures
        r == (strs_view(a@) == strs_view(b@)),
{
    let n = a.len();
    if n != b.len() {
        proof {
            assert(strs_view(a@).len() != strs_view(b@).len());
        }
        return false;
    }
    let mut j: usize = 0;
    while j < n
        invariant
            j <= n,
            n == a@.len(),
            n == b@.len(),
            forall|k: int| 0 <= k < j ==> a@[k]@ == b@[k]@,
        decreases n - j,
    {
        if !(a[j] == b[j]) {
            proof {
                assert(strs_view(a@)[j as int] != strs_view(b@)[j as int]);
            }
            return false;
        }
        j = j + 1;
    }
    proof {
        assert(strs_view(a@) =~= strs_view(b@));
    }
    true
}

/// Whether two tokens have the same model: the same variant with, where one
/// exists, an equal payload, blocks compared token by token.
pub fn token_eq(a: &Token, b: &Token) -> (r: bool)
    ensures
        r == (tok_view(*a) == tok_view(*b)),
    decreases tokv_measure(tok_view(*a)), 0int,
{
    match a {
        Token::Ingredient => match b {
            Token::Ingredient => true,
            _ => false,
        },
        Token::Taste => match b {
            Token::Taste => true,
            _ => false,
        },
        Token::TasteAgain => match b {
            Token::TasteAgain => true,
            _ => false,
        },
        Token::Tasteless => match b {
            Token::Tasteless => true,
            _ => false,
        },
        Token::Layer => match b {
            Token::Layer => true,
            _ => false,
        },
        Token::Simmer => match b {
            Token::Simmer => true,
            _ => false,
        },
        Token::Cook => match b {
            Token::Cook => true,
            _ => false,
        },
        Token::Burnt => match b {
            Token::Burnt => true,
            _ => false,
        },
        Token::Serve => match b {
            Token::Serve => true,
            _ => false,
        },
        Token::Plate => match b {
            Token::Plate => true,
            _ => false,
        },
        Token::Recipe => match b {
            Token::Recipe => true,
            _ => false,
        },
        Token::Fresh => match b {
            Token::Fresh => true,
            _ => false,
        },
        Token::Spoiled => match b {
            Token::Spoiled => true,
            _ => false,
        },
        Token::Mix => match b {
            Token::Mix => true,
            _ => false,
        },
        Token::Separate => match b {
            Token::Separate => true,
            _ => false,
        },
        Token::Is => match b {
            Token::Is => true,
            _ => false,
        },
        Token::In => match b {
            Token::In => true,
            _ => false,
        },
        Token::Hotter => match b {
            Token::Hotter => true,
            _ => false,
        },
        Token::Cooler => match b {
            Token::Cooler => true,
            _ => false,
        },
        Token::Same => match b {
            Token::Same => true,
            _ => false,
        },
        Token::NotSame => match b {
            Token::NotSame => true,
            _ => false,
        },
        Token::HotOrSame => match b {
            Token::HotOrSame => true,
            _ => false,
        },
        Token::CoolOrSame => match b {
            Token::CoolOrSame => true,
            _ => false,
        },
        Token::Space => match b {
            Token::Space => true,
            _ => false,
        },
        Token::Maths(x) => match b {
            Token::Maths(y) => *x == *y,
            _ => false,
        },
        Token::Number(x) => match b {
            Token::Number(y) => *x == *y,
            _ => false,
        },
        Token::Identifier(x) => match b {
            Token::Identifier(y) => *x == *y,
            _ => false,
        },
        Token::StringLiteral(x) => match b {
            Token::StringLiteral(y) => *x == *y,
            _ => false,
        },
        Token::ArrayNumber(x) => match b {
            Token::ArrayNumber(y) => i64s_eq(x, y),
            _ => false,
        },
        Token::ArrayString(x) => match b {
            Token::ArrayString(y) => strings_eq(x, y),
            _ => false,
        },
        Token::Block(x) => match b {
            Token::Block(y) => tokens_eq(x, y),
            _ => false,
        },
    }
}

/// Whether two vectors of tokens have the same models.
fn tokens_eq(a: &Vec<Token>, b: &Vec<Token>) -> (r: bool)
    ensures
        r == (toks_view(a@) == toks_view(b@)),
    decreases toksv_measure(toks_view(a@)), 1int,
{
    proof {
        lemma_toks_view(a@);
        lemma_toks_view(b@);
    }
    let n = a.len();
    if n != b.len() {
        return false;
    }
    let mut j: usize = 0;
    while j < n
        invariant
            j <= n,
            n == a@.len(),
            n == b@.len(),
            toks_view(a@).len() == n,
            toks_view(b@).len() == n,
            forall|k: int| 0 <= k < n ==> toks_view(a@)[k] == tok_view(a@[k]),
            forall|k: int| 0 <= k < n ==> toks_view(b@)[k] == tok_view(b@[k]),
            forall|k: int| 0 <= k < j ==> tok_view(a@[k]) == tok_view(b@[k]),
        decreases n - j,
    {
        proof {
            lemma_toksv_measure_index(toks_view(a@), j as int);
        }
        if !token_eq(&a[j], &b[j]) {
            return false;
        }
        j = j + 1;
    }
    proof {
        assert(toks_view(a@) =~= toks_view(b@));
    }
    true
}

} // verus!
