//! Expression and recipe parsing.
//!
//! The grammar:
//!
//! ```text
//! E -> E + T | E - T | T
//! T -> T * F | T / F | F
//! F -> - F | P ^ F | P
//! P -> <number> | ( E ) | <function> ( E ) | <constant>
//! ```
//!
//! A recipe is a query string, `?shell=<shape>&cut=<shape>...`, each shape a
//! polyhedron code or three plane coefficients, then `$` and a distance.

use vstd::prelude::*;
use vstd::string::{StrSliceExecFns, StringExecFns, StringSliceAdditionalSpecFns};

use crate::error::{Error, ErrorKind};
use crate::layout::is_space;
use crate::menu::digits_value;
use crate::num::fraction::{fraction_new_spec, fraction_text, Fraction};
use crate::num::ring::{Elem, Outcome};
use crate::render::font::chars_of;

verus! {

/* ------------------------------------------------------------------------ */
/*  Tokens                                                                   */
/* ------------------------------------------------------------------------ */

/// A token: a symbol, a name, or a number.
pub enum Token {
    Sym(char),
    Ident(String),
    Num(Fraction),
}

/// The mathematical form of a token.
pub enum TokV {
    Sym(char),
    Ident(Seq<char>),
    Num((int, int)),
}

impl View for Token {
    type V = TokV;

    open spec fn view(&self) -> TokV {
        match self {
            Token::Sym(c) => TokV::Sym(*c),
            Token::Ident(s) => TokV::Ident(s@),
            Token::Num(f) => TokV::Num(f@),
        }
    }
}

/// The views of a list of tokens.
pub open spec fn toks(v: Seq<Token>) -> Seq<TokV> {
    v.map_values(|t: Token| t@)
}

/// One of the symbols `+ - * / ^ ( )`.
pub open spec fn is_sym(c: char) -> bool {
    c == '+' || c == '-' || c == '*' || c == '/' || c == '^' || c == '(' || c == ')'
}

/// An ASCII letter or `_`, which may start a name.
pub open spec fn is_name_start(c: char) -> bool {
    ('a' <= c <= 'z') || ('A' <= c <= 'Z') || c == '_'
}

/// An ASCII digit.
pub open spec fn is_digit(c: char) -> bool {
    '0' <= c <= '9'
}

/// A character that may continue a name.
pub open spec fn is_name_char(c: char) -> bool {
    is_name_start(c) || is_digit(c)
}

/// The first position from `i` that is not white space.
pub open spec fn skip_ws(cs: Seq<char>, i: int) -> int
    decreases cs.len() - i,
{
    if 0 <= i < cs.len() && is_space(cs[i]) {
        skip_ws(cs, i + 1)
    } else {
        i
    }
}

/// The end of the run of name characters from `i`.
pub open spec fn name_end(cs: Seq<char>, i: int) -> int
    decreases cs.len() - i,
{
    if 0 <= i < cs.len() && is_name_char(cs[i]) {
        name_end(cs, i + 1)
    } else {
        i
    }
}

/// The end of the run of digits from `i`.
pub open spec fn digit_end(cs: Seq<char>, i: int) -> int
    decreases cs.len() - i,
{
    if 0 <= i < cs.len() && is_digit(cs[i]) {
        digit_end(cs, i + 1)
    } else {
        i
    }
}

/// The number starting at `b`, whose integer digits end at `e`: the token
/// and where it ends. A number too large for 64 bits is refused.
pub open spec fn number_spec(cs: Seq<char>, b: int, e: int) -> Outcome<(TokV, int)> {
    let n = digits_value(cs.subrange(b, e));
    if n > i64::MAX {
        Outcome::Err(ErrorKind::Parse)
    } else if e + 1 < cs.len() && cs[e] == '.' && is_digit(cs[e + 1]) {
        let fe = digit_end(cs, e + 1);
        let frac = digits_value(cs.subrange(e + 1, fe));
        let d = vstd::arithmetic::power::pow(10, (fe - (e + 1)) as nat);
        if d > i64::MAX || n * d > i64::MAX || n * d + frac > i64::MAX {
            Outcome::Err(ErrorKind::Parse)
        } else {
            match fraction_new_spec(n * d + frac, d, true) {
                Outcome::Ok(f) => Outcome::Ok((TokV::Num(f), fe)),
                Outcome::Err(k) => Outcome::Err(k),
            }
        }
    } else {
        Outcome::Ok((TokV::Num((n, 1)), e))
    }
}

/// The token starting at `j`, a position that is not white space, and
/// where it ends.
pub open spec fn token_at(cs: Seq<char>, j: int) -> Outcome<(TokV, int)> {
    let c = cs[j];
    if is_sym(c) {
        Outcome::Ok((TokV::Sym(c), j + 1))
    } else if is_name_start(c) {
        let e = name_end(cs, j + 1);
        Outcome::Ok((TokV::Ident(cs.subrange(j, e)), e))
    } else if is_digit(c) {
        number_spec(cs, j, digit_end(cs, j + 1))
    } else {
        Outcome::Err(ErrorKind::Parse)
    }
}

/// The tokens from position `i` on, after `acc`.
pub open spec fn tok_loop(cs: Seq<char>, i: int, acc: Seq<TokV>) -> Outcome<Seq<TokV>>
    decreases cs.len() - i,
{
    if i < 0 || i >= cs.len() {
        Outcome::Ok(acc)
    } else {
        let j = skip_ws(cs, i);
        if j >= cs.len() || j < i {
            Outcome::Err(ErrorKind::Parse)
        } else {
            match token_at(cs, j) {
                Outcome::Err(k) => Outcome::Err(k),
                Outcome::Ok(te) => if j < te.1 <= cs.len() {
                    proof {
                        lemma_skip_ws(cs, te.1);
                    }
                    tok_loop(cs, skip_ws(cs, te.1), acc.push(te.0))
                } else {
                    Outcome::Err(ErrorKind::Parse)
                },
            }
        }
    }
}

/// The tokens of a text.
pub open spec fn tokenize_spec(cs: Seq<char>) -> Outcome<Seq<TokV>> {
    tok_loop(cs, 0, Seq::empty())
}

/// Skipping white space moves forward.
pub proof fn lemma_skip_ws(cs: Seq<char>, i: int)
    requires
        0 <= i,
    ensures
        i <= skip_ws(cs, i),
        i <= cs.len() ==> skip_ws(cs, i) <= cs.len(),
    decreases cs.len() - i,
{
    if 0 <= i < cs.len() && is_space(cs[i]) {
        lemma_skip_ws(cs, i + 1);
    }
}

/// Runs of name characters and digits end after they start.
proof fn lemma_runs(cs: Seq<char>, i: int)
    requires
        0 <= i <= cs.len(),
    ensures
        i <= name_end(cs, i) <= cs.len(),
        i <= digit_end(cs, i) <= cs.len(),
        forall|t: int| i <= t < digit_end(cs, i) ==> is_digit(#[trigger] cs[t]),
    decreases cs.len() - i,
{
    if i < cs.len() {
        lemma_runs(cs, i + 1);
    }
}

/// A token ends after it starts.
proof fn lemma_token_advances(cs: Seq<char>, j: int)
    requires
        0 <= j < cs.len(),
    ensures
        token_at(cs, j) matches Outcome::Ok(te) ==> j < te.1 <= cs.len(),
{
    lemma_runs(cs, j + 1);
    let e = digit_end(cs, j + 1);
    if e + 1 < cs.len() {
        lemma_runs(cs, e + 1);
    }
}

/// Whether `c` is white space.
pub fn is_space_char(c: char) -> (r: bool)
    ensures
        r == is_space(c),
{
    let x = c as u32;
    (0x9 <= x && x <= 0xD) || x == 0x20 || x == 0x85 || x == 0xA0 || x == 0x1680 || (0x2000 <= x && x
        <= 0x200A) || x == 0x2028 || x == 0x2029 || x == 0x202F || x == 0x205F || x == 0x3000
}

/// The first position from `i` that is not white space.
fn skip_ws_exec(cs: &Vec<char>, i: usize) -> (r: usize)
    requires
        i <= cs@.len(),
    ensures
        r == skip_ws(cs@, i as int),
        i <= r <= cs@.len(),
{
    let mut j = i;
    proof {
        lemma_skip_ws(cs@, i as int);
    }
    while j < cs.len() && is_space_char(cs[j])
        invariant
            i <= j <= cs@.len(),
            skip_ws(cs@, j as int) == skip_ws(cs@, i as int),
        decreases cs@.len() - j,
    {
        j = j + 1;
    }
    j
}

/// The value of the digits `cs[b..e]`, if it fits in an `i64`.
fn digits_i64(cs: &Vec<char>, b: usize, e: usize) -> (r: Option<i64>)
    requires
        b <= e <= cs@.len(),
        forall|t: int| b <= t < e ==> is_digit(#[trigger] cs@[t]),
    ensures
        r matches Some(v) ==> v == digits_value(cs@.subrange(b as int, e as int)),
        r is None ==> digits_value(cs@.subrange(b as int, e as int)) > i64::MAX,
{
    let mut v: i64 = 0;
    let mut i = b;
    while i < e
        invariant
            b <= i <= e <= cs@.len(),
            forall|t: int| b <= t < e ==> is_digit(#[trigger] cs@[t]),
            v == digits_value(cs@.subrange(b as int, i as int)),
            v >= 0,
        decreases e - i,
    {
        let d = (cs[i] as u32 - '0' as u32) as i64;
        proof {
            assert(cs@.subrange(b as int, i + 1).drop_last() =~= cs@.subrange(b as int, i as int));
        }
        if v > (i64::MAX - d) / 10 {
            proof {
                lemma_digits_monotone(cs@, b as int, i + 1, e as int);
            }
            return None;
        }
        v = v * 10 + d;
        i = i + 1;
    }
    Some(v)
}

/// A run of digits is worth nothing negative.
proof fn lemma_digits_nonneg(cs: Seq<char>, b: int, e: int)
    requires
        0 <= b <= e <= cs.len(),
        forall|t: int| b <= t < e ==> is_digit(#[trigger] cs[t]),
    ensures
        digits_value(cs.subrange(b, e)) >= 0,
    decreases e - b,
{
    if b < e {
        lemma_digits_nonneg(cs, b, e - 1);
        assert(cs.subrange(b, e).drop_last() =~= cs.subrange(b, e - 1));
        assert(cs.subrange(b, e).last() == cs[e - 1]);
    } else {
        assert(cs.subrange(b, e) =~= Seq::<char>::empty());
    }
}

/// A longer run of digits is worth at least as much.
proof fn lemma_digits_monotone(cs: Seq<char>, b: int, i: int, e: int)
    requires
        0 <= b <= i <= e <= cs.len(),
        forall|t: int| b <= t < e ==> is_digit(#[trigger] cs[t]),
    ensures
        digits_value(cs.subrange(b, e)) >= digits_value(cs.subrange(b, i)),
        digits_value(cs.subrange(b, i)) >= 0,
    decreases e - i,
{
    lemma_digits_nonneg(cs, b, i);
    if i < e {
        lemma_digits_monotone(cs, b, i, e - 1);
        lemma_digits_nonneg(cs, b, e - 1);
        assert(cs.subrange(b, e).drop_last() =~= cs.subrange(b, e - 1));
        assert(cs.subrange(b, e).last() == cs[e - 1]);
    }
}


/// The end of the run of characters from `i` that satisfy the class:
/// digits, or name characters.
fn run_end(cs: &Vec<char>, i: usize, digits: bool) -> (r: usize)
    requires
        i <= cs@.len(),
    ensures
        digits ==> r == digit_end(cs@, i as int),
        !digits ==> r == name_end(cs@, i as int),
        i <= r <= cs@.len(),
{
    proof {
        lemma_runs(cs@, i as int);
    }
    let mut j = i;
    while j < cs.len() && in_class(cs[j], digits)
        invariant
            i <= j <= cs@.len(),
            digits ==> digit_end(cs@, j as int) == digit_end(cs@, i as int),
            !digits ==> name_end(cs@, j as int) == name_end(cs@, i as int),
        decreases cs@.len() - j,
    {
        j = j + 1;
    }
    j
}

/// A digit, or a name character.
fn in_class(c: char, digits: bool) -> (r: bool)
    ensures
        r == (if digits {
            is_digit(c)
        } else {
            is_name_char(c)
        }),
{
    if digits {
        is_digit_char(c)
    } else {
        is_name_char_exec(c)
    }
}

fn is_digit_char(c: char) -> (r: bool)
    ensures
        r == is_digit(c),
{
    '0' <= c && c <= '9'
}

fn is_name_start_exec(c: char) -> (r: bool)
    ensures
        r == is_name_start(c),
{
    ('a' <= c && c <= 'z') || ('A' <= c && c <= 'Z') || c == '_'
}

fn is_name_char_exec(c: char) -> (r: bool)
    ensures
        r == is_name_char(c),
{
    is_name_start_exec(c) || is_digit_char(c)
}

/// `10^k`, if it fits in an `i64`.
fn pow10(k: usize) -> (r: Option<i64>)
    ensures
        r matches Some(v) ==> v == vstd::arithmetic::power::pow(10, k as nat),
        r is None ==> vstd::arithmetic::power::pow(10, k as nat) > i64::MAX,
{
    let mut d: i64 = 1;
    let mut t: usize = 0;
    proof {
        reveal(vstd::arithmetic::power::pow);
    }
    while t < k
        invariant
            t <= k,
            d == vstd::arithmetic::power::pow(10, t as nat),
            1 <= d <= i64::MAX,
        decreases k - t,
    {
        proof {
            reveal(vstd::arithmetic::power::pow);
            assert(vstd::arithmetic::power::pow(10, (t + 1) as nat) == 10 * vstd::arithmetic::power::pow(
                10,
                t as nat,
            ));
        }
        if d > i64::MAX / 10 {
            proof {
                vstd::arithmetic::power::lemma_pow_increases(10, (t + 1) as nat, k as nat);
            }
            return None;
        }
        d = d * 10;
        t = t + 1;
    }
    Some(d)
}

/// A parse error with its message.
fn parse_error(m: &str) -> (r: Error)
    ensures
        r.spec_error_kind() == ErrorKind::Parse,
        r.spec_message() == m@,
{
    Error::Parse(String::from_str(m))
}

/// The number starting at `b`, whose integer digits end at `e`.
fn number_at(cs: &Vec<char>, b: usize, e: usize) -> (r: core::result::Result<(Token, usize), Error>)
    requires
        b <= e <= cs@.len(),
        forall|t: int| b <= t < e ==> is_digit(#[trigger] cs@[t]),
    ensures
        match r {
            Ok(t) => number_spec(cs@, b as int, e as int) == Outcome::Ok((t.0@, t.1 as int)),
            Err(k) => number_spec(cs@, b as int, e as int) == Outcome::<(TokV, int)>::Err(k.spec_error_kind()),
        },
{
    let n = match digits_i64(cs, b, e) {
        Some(n) => n,
        None => {
            return Err(parse_error("Number out of range"));
        },
    };
    let len = cs.len();
    if e < len && len - e >= 2 && cs[e] == '.' && is_digit_char(cs[e + 1]) {
        let fe = run_end(cs, e + 1, true);
        proof {
            lemma_runs(cs@, e + 1);
            lemma_digits_nonneg(cs@, e + 1, fe as int);
            lemma_digits_nonneg(cs@, b as int, e as int);
        }
        let d = match pow10(fe - (e + 1)) {
            Some(d) => d,
            None => {
                return Err(parse_error("Number out of range"));
            },
        };
        proof {
            vstd::arithmetic::power::lemma_pow_positive(10, (fe - (e + 1)) as nat);
        }
        let frac = match digits_i64(cs, e + 1, fe) {
            Some(f) => f,
            None => {
                proof {
                    assert(n * d >= 0) by (nonlinear_arith)
                        requires
                            n >= 0,
                            d >= 0,
                    ;
                }
                return Err(parse_error("Number out of range"));
            },
        };
        let nd = match n.checked_mul(d) {
            Some(x) => x,
            None => {
                return Err(parse_error("Number out of range"));
            },
        };
        let v = match nd.checked_add(frac) {
            Some(x) => x,
            None => {
                return Err(parse_error("Number out of range"));
            },
        };
        proof {
            vstd::arithmetic::power::lemma_pow_positive(10, (fe - (e + 1)) as nat);
        }
        let f = Fraction::of(v, d);
        Ok((Token::Num(f), fe))
    } else {
        Ok((Token::Num(Fraction::from_int(n)), e))
    }
}

/// The token at `j`, a position that is not white space.
fn token_at_exec(s: &str, cs: &Vec<char>, j: usize) -> (r: core::result::Result<(Token, usize), Error>)
    requires
        j < cs@.len(),
        cs@ == s@,
    ensures
        match r {
            Ok(t) => token_at(cs@, j as int) == Outcome::Ok((t.0@, t.1 as int)),
            Err(k) => token_at(cs@, j as int) == Outcome::<(TokV, int)>::Err(k.spec_error_kind()),
        },
{
    let len = cs.len();
    let c = cs[j];
    if c == '+' || c == '-' || c == '*' || c == '/' || c == '^' || c == '(' || c == ')' {
        Ok((Token::Sym(c), j + 1))
    } else if is_name_start_exec(c) {
        let e = run_end(cs, j + 1, false);
        let name = String::from_str(s.substring_char(j, e));
        Ok((Token::Ident(name), e))
    } else if is_digit_char(c) {
        let e = run_end(cs, j + 1, true);
        proof {
            lemma_runs(cs@, j + 1);
        }
        number_at(cs, j, e)
    } else {
        Err(parse_error("Unexpected character"))
    }
}


/// The tokens of a text.
pub fn tokenize(s: &str) -> (r: core::result::Result<Vec<Token>, Error>)
    ensures
        match r {
            Ok(v) => tokenize_spec(s@) == Outcome::Ok(toks(v@)),
            Err(k) => tokenize_spec(s@) == Outcome::<Seq<TokV>>::Err(k.spec_error_kind()),
        },
{
    let cs = chars_of(s);
    let mut tokens: Vec<Token> = Vec::new();
    let mut i: usize = 0;
    proof {
        assert(toks(tokens@) =~= Seq::<TokV>::empty());
    }
    while i < cs.len()
        invariant
            i <= cs@.len(),
            cs@ == s@,
            tok_loop(cs@, i as int, toks(tokens@)) == tokenize_spec(s@),
        decreases cs@.len() - i,
    {
        let j = skip_ws_exec(&cs, i);
        if j >= cs.len() {
            return Err(parse_error("Unexpected character"));
        }
        let (tok, e) = token_at_exec(s, &cs, j)?;
        proof {
            lemma_token_advances(cs@, j as int);
        }
        let ghost before = toks(tokens@);
        tokens.push(tok);
        proof {
            assert(toks(tokens@) =~= before.push(tok@));
        }
        i = skip_ws_exec(&cs, e);
    }
    Ok(tokens)
}


/* ------------------------------------------------------------------------ */
/*  Expressions                                                              */
/* ------------------------------------------------------------------------ */

/// An expression: an operation on arguments, or (`num`) a number.
pub struct Expr {
    pub op: String,
    pub args: Vec<Expr>,
    pub val: Option<Fraction>,
}

/// The mathematical form of an expression.
pub enum ExprV {
    Node { op: Seq<char>, args: Seq<ExprV>, val: Option<(int, int)> },
}

/// The mathematical form of an expression, argument by argument.
pub open spec fn expr_view(e: Expr) -> ExprV
    decreases e,
{
    ExprV::Node {
        op: e.op@,
        args: Seq::new(
            e.args@.len(),
            |i: int|
                if 0 <= i < e.args@.len() {
                    expr_view(e.args@[i])
                } else {
                    ExprV::Node { op: Seq::empty(), args: Seq::empty(), val: None }
                },
        ),
        val: match e.val {
            Some(f) => Some(f@),
            None => None,
        },
    }
}

impl View for Expr {
    type V = ExprV;

    open spec fn view(&self) -> ExprV {
        expr_view(*self)
    }
}

/// An operation on arguments.
pub open spec fn node(op: Seq<char>, args: Seq<ExprV>) -> ExprV {
    ExprV::Node { op, args, val: None }
}

/// A number.
pub open spec fn num_node(f: (int, int)) -> ExprV {
    ExprV::Node { op: seq!['n', 'u', 'm'], args: Seq::empty(), val: Some(f) }
}

/// Whether token `i` is the symbol `c`.
pub open spec fn sym_at(ts: Seq<TokV>, i: int, c: char) -> bool {
    0 <= i < ts.len() && ts[i] == TokV::Sym(c)
}

/// `E -> E + T | E - T | T`, from token `i`: the expression and where it
/// ends.
pub open spec fn p_start(ts: Seq<TokV>, i: int) -> Outcome<(ExprV, int)>
    decreases ts.len() - i, 3int,
{
    if i < 0 || i > ts.len() {
        Outcome::Err(ErrorKind::Parse)
    } else {
        match p_term(ts, i) {
            Outcome::Err(k) => Outcome::Err(k),
            Outcome::Ok(xj) => if i < xj.1 <= ts.len() {
                p_start_loop(ts, xj.0, xj.1)
            } else {
                Outcome::Err(ErrorKind::Parse)
            },
        }
    }
}

/// More `+ T` or `- T` after `x`, from token `i`.
pub open spec fn p_start_loop(ts: Seq<TokV>, x: ExprV, i: int) -> Outcome<(ExprV, int)>
    decreases ts.len() - i, 4int,
{
    if sym_at(ts, i, '+') || sym_at(ts, i, '-') {
        let op = if sym_at(ts, i, '+') {
            seq!['+']
        } else {
            seq!['-']
        };
        match p_term(ts, i + 1) {
            Outcome::Err(k) => Outcome::Err(k),
            Outcome::Ok(yj) => if i + 1 < yj.1 <= ts.len() {
                p_start_loop(ts, node(op, seq![x, yj.0]), yj.1)
            } else {
                Outcome::Err(ErrorKind::Parse)
            },
        }
    } else {
        Outcome::Ok((x, i))
    }
}

/// `T -> T * F | T / F | F`, from token `i`.
pub open spec fn p_term(ts: Seq<TokV>, i: int) -> Outcome<(ExprV, int)>
    decreases ts.len() - i, 2int,
{
    if i < 0 || i > ts.len() {
        Outcome::Err(ErrorKind::Parse)
    } else {
        match p_factor(ts, i) {
            Outcome::Err(k) => Outcome::Err(k),
            Outcome::Ok(xj) => if i < xj.1 <= ts.len() {
                p_term_loop(ts, xj.0, xj.1)
            } else {
                Outcome::Err(ErrorKind::Parse)
            },
        }
    }
}

/// More `* F` or `/ F` after `x`, from token `i`.
pub open spec fn p_term_loop(ts: Seq<TokV>, x: ExprV, i: int) -> Outcome<(ExprV, int)>
    decreases ts.len() - i, 4int,
{
    if sym_at(ts, i, '*') || sym_at(ts, i, '/') {
        let op = if sym_at(ts, i, '*') {
            seq!['*']
        } else {
            seq!['/']
        };
        match p_factor(ts, i + 1) {
            Outcome::Err(k) => Outcome::Err(k),
            Outcome::Ok(yj) => if i + 1 < yj.1 <= ts.len() {
                p_term_loop(ts, node(op, seq![x, yj.0]), yj.1)
            } else {
                Outcome::Err(ErrorKind::Parse)
            },
        }
    } else {
        Outcome::Ok((x, i))
    }
}

/// `F -> - F | P ^ F | P`, from token `i`.
pub open spec fn p_factor(ts: Seq<TokV>, i: int) -> Outcome<(ExprV, int)>
    decreases ts.len() - i, 1int,
{
    if i < 0 || i >= ts.len() {
        Outcome::Err(ErrorKind::Parse)
    } else if ts[i] == TokV::Sym('-') {
        match p_factor(ts, i + 1) {
            Outcome::Err(k) => Outcome::Err(k),
            Outcome::Ok(xj) => Outcome::Ok((node(seq!['n', 'e', 'g'], seq![xj.0]), xj.1)),
        }
    } else {
        match p_primary(ts, i) {
            Outcome::Err(k) => Outcome::Err(k),
            Outcome::Ok(xj) => if sym_at(ts, xj.1, '^') {
                if i <= xj.1 {
                    match p_factor(ts, xj.1 + 1) {
                        Outcome::Err(k) => Outcome::Err(k),
                        Outcome::Ok(yk) => Outcome::Ok((node(seq!['^'], seq![xj.0, yk.0]), yk.1)),
                    }
                } else {
                    Outcome::Err(ErrorKind::Parse)
                }
            } else {
                Outcome::Ok(xj)
            },
        }
    }
}

/// The closing `)` at token `j`, and the position after it.
pub open spec fn p_close(ts: Seq<TokV>, j: int) -> Outcome<int> {
    if sym_at(ts, j, ')') {
        Outcome::Ok(j + 1)
    } else {
        Outcome::Err(ErrorKind::Parse)
    }
}

/// `P -> <number> | ( E ) | <function> ( E ) | <constant>`, from token `i`.
pub open spec fn p_primary(ts: Seq<TokV>, i: int) -> Outcome<(ExprV, int)>
    decreases ts.len() - i, 0int,
{
    if i < 0 || i >= ts.len() {
        Outcome::Err(ErrorKind::Parse)
    } else {
        match ts[i] {
            TokV::Sym(c) => if c == '(' {
                match p_start(ts, i + 1) {
                    Outcome::Err(k) => Outcome::Err(k),
                    Outcome::Ok(xj) => match p_close(ts, xj.1) {
                        Outcome::Err(k) => Outcome::Err(k),
                        Outcome::Ok(e) => Outcome::Ok((xj.0, e)),
                    },
                }
            } else {
                Outcome::Err(ErrorKind::Parse)
            },
            TokV::Num(f) => Outcome::Ok((num_node(f), i + 1)),
            TokV::Ident(id) => if sym_at(ts, i + 1, '(') {
                match p_start(ts, i + 2) {
                    Outcome::Err(k) => Outcome::Err(k),
                    Outcome::Ok(xj) => match p_close(ts, xj.1) {
                        Outcome::Err(k) => Outcome::Err(k),
                        Outcome::Ok(e) => Outcome::Ok((node(id, seq![xj.0]), e)),
                    },
                }
            } else {
                Outcome::Ok((node(id, Seq::empty()), i + 1))
            },
        }
    }
}

/// `parse_expr(s)`: the whole text, one expression.
pub open spec fn parse_expr_spec(cs: Seq<char>) -> Outcome<ExprV> {
    match tokenize_spec(cs) {
        Outcome::Err(k) => Outcome::Err(k),
        Outcome::Ok(ts) => match p_start(ts, 0) {
            Outcome::Err(k) => Outcome::Err(k),
            Outcome::Ok(xj) => if xj.1 < ts.len() {
                Outcome::Err(ErrorKind::Parse)
            } else {
                Outcome::Ok(xj.0)
            },
        },
    }
}

/// A parse result as the spec describes it.
pub open spec fn pr(r: core::result::Result<(Expr, usize), Error>) -> Outcome<(ExprV, int)> {
    match r {
        Ok(t) => Outcome::Ok((t.0@, t.1 as int)),
        Err(e) => Outcome::Err(e.spec_error_kind()),
    }
}

/// An operation on arguments.
fn mk_node(op: &str, args: Vec<Expr>) -> (r: Expr)
    ensures
        r@ == node(op@, Seq::new(args@.len(), |i: int| args@[i]@)),
{
    let r = Expr { op: String::from_str(op), args, val: None };
    proof {
        assert(expr_view(r)->args =~= Seq::new(args@.len(), |i: int| args@[i]@));
    }
    r
}

/// The operation a symbol stands for.
fn sym_op(c: char) -> (r: &'static str)
    requires
        c == '+' || c == '-' || c == '*' || c == '/',
    ensures
        r@ == seq![c],
{
    proof {
        reveal_strlit("+");
        reveal_strlit("-");
        reveal_strlit("*");
        reveal_strlit("/");
    }
    let r = if c == '+' {
        "+"
    } else if c == '-' {
        "-"
    } else if c == '*' {
        "*"
    } else {
        "/"
    };
    assert(r@ =~= seq![c]);
    r
}

/// Whether token `i` is the symbol `c`.
fn sym_at_exec(ts: &Vec<Token>, i: usize, c: char) -> (r: bool)
    ensures
        r == sym_at(toks(ts@), i as int, c),
{
    if i < ts.len() {
        match &ts[i] {
            Token::Sym(d) => *d == c,
            _ => false,
        }
    } else {
        false
    }
}

/// Two arguments.
fn two(x: Expr, y: Expr) -> (r: Vec<Expr>)
    ensures
        Seq::new(r@.len(), |i: int| r@[i]@) == seq![x@, y@],
{
    let r = vec![x, y];
    assert(Seq::new(r@.len(), |i: int| r@[i]@) =~= seq![x@, y@]);
    r
}

/// One argument.
fn one(x: Expr) -> (r: Vec<Expr>)
    ensures
        Seq::new(r@.len(), |i: int| r@[i]@) == seq![x@],
{
    let r = vec![x];
    assert(Seq::new(r@.len(), |i: int| r@[i]@) =~= seq![x@]);
    r
}

fn parse_start(ts: &Vec<Token>, i: usize) -> (r: core::result::Result<(Expr, usize), Error>)
    requires
        i <= ts@.len(),
    ensures
        pr(r) == p_start(toks(ts@), i as int),
        r matches Ok(t) ==> i < t.1 <= ts@.len(),
    decreases ts@.len() - i, 3int,
{
    let (x, j) = parse_term(ts, i)?;
    parse_start_loop(ts, x, j)
}

fn parse_start_loop(ts: &Vec<Token>, x: Expr, i: usize) -> (r: core::result::Result<(Expr, usize), Error>)
    requires
        i <= ts@.len(),
    ensures
        pr(r) == p_start_loop(toks(ts@), x@, i as int),
        r matches Ok(t) ==> i <= t.1 <= ts@.len(),
    decreases ts@.len() - i, 4int,
{
    let _n = ts.len();
    let plus = sym_at_exec(ts, i, '+');
    if plus || sym_at_exec(ts, i, '-') {
        let op = sym_op(if plus {
            '+'
        } else {
            '-'
        });
        let (y, j) = parse_term(ts, i + 1)?;
        let z = mk_node(op, two(x, y));
        parse_start_loop(ts, z, j)
    } else {
        Ok((x, i))
    }
}

fn parse_term(ts: &Vec<Token>, i: usize) -> (r: core::result::Result<(Expr, usize), Error>)
    requires
        i <= ts@.len(),
    ensures
        pr(r) == p_term(toks(ts@), i as int),
        r matches Ok(t) ==> i < t.1 <= ts@.len(),
    decreases ts@.len() - i, 2int,
{
    let (x, j) = parse_factor(ts, i)?;
    parse_term_loop(ts, x, j)
}

fn parse_term_loop(ts: &Vec<Token>, x: Expr, i: usize) -> (r: core::result::Result<(Expr, usize), Error>)
    requires
        i <= ts@.len(),
    ensures
        pr(r) == p_term_loop(toks(ts@), x@, i as int),
        r matches Ok(t) ==> i <= t.1 <= ts@.len(),
    decreases ts@.len() - i, 4int,
{
    let _n = ts.len();
    let times = sym_at_exec(ts, i, '*');
    if times || sym_at_exec(ts, i, '/') {
        let op = sym_op(if times {
            '*'
        } else {
            '/'
        });
        let (y, j) = parse_factor(ts, i + 1)?;
        let z = mk_node(op, two(x, y));
        parse_term_loop(ts, z, j)
    } else {
        Ok((x, i))
    }
}

fn parse_factor(ts: &Vec<Token>, i: usize) -> (r: core::result::Result<(Expr, usize), Error>)
    requires
        i <= ts@.len(),
    ensures
        pr(r) == p_factor(toks(ts@), i as int),
        r matches Ok(t) ==> i < t.1 <= ts@.len(),
    decreases ts@.len() - i, 1int,
{
    if i == ts.len() {
        return Err(parse_error("Unexpected end of expression"));
    }
    proof {
        reveal_strlit("neg");
        reveal_strlit("^");
        assert("neg"@ =~= seq!['n', 'e', 'g']);
        assert("^"@ =~= seq!['^']);
    }
    if sym_at_exec(ts, i, '-') {
        let (x, j) = parse_factor(ts, i + 1)?;
        return Ok((mk_node("neg", one(x)), j));
    }
    let (x, j) = parse_primary(ts, i)?;
    if sym_at_exec(ts, j, '^') {
        let (y, k) = parse_factor(ts, j + 1)?;
        Ok((mk_node("^", two(x, y)), k))
    } else {
        Ok((x, j))
    }
}

fn parse_close(ts: &Vec<Token>, j: usize) -> (r: core::result::Result<usize, Error>)
    ensures
        match r {
            Ok(e) => p_close(toks(ts@), j as int) == Outcome::Ok(e as int),
            Err(k) => p_close(toks(ts@), j as int) == Outcome::<int>::Err(k.spec_error_kind()),
        },
{
    let _n = ts.len();
    if sym_at_exec(ts, j, ')') {
        Ok(j + 1)
    } else if j >= ts.len() {
        Err(parse_error("Expected ), but reached end of expression"))
    } else {
        Err(parse_error("Expected ), but found something else"))
    }
}

fn parse_primary(ts: &Vec<Token>, i: usize) -> (r: core::result::Result<(Expr, usize), Error>)
    requires
        i <= ts@.len(),
    ensures
        pr(r) == p_primary(toks(ts@), i as int),
        r matches Ok(t) ==> i < t.1 <= ts@.len(),
    decreases ts@.len() - i, 0int,
{
    if i == ts.len() {
        return Err(parse_error("Unexpected end of expression"));
    }
    proof {
        assert(toks(ts@)[i as int] == ts@[i as int]@);
        reveal_strlit("num");
        assert("num"@ =~= seq!['n', 'u', 'm']);
    }
    match &ts[i] {
        Token::Sym(c) => {
            if *c == '(' {
                let (x, j) = parse_start(ts, i + 1)?;
                let e = parse_close(ts, j)?;
                Ok((x, e))
            } else {
                Err(parse_error("Unexpected symbol"))
            }
        },
        Token::Num(f) => {
            let v = Fraction { n: f.n.clone(), d: f.d.clone() };
            let x = Expr { op: String::from_str("num"), args: Vec::new(), val: Some(v) };
            proof {
                assert(expr_view(x)->args =~= Seq::<ExprV>::empty());
            }
            Ok((x, i + 1))
        },
        Token::Ident(id) => {
            if sym_at_exec(ts, i + 1, '(') {
                let (x, j) = parse_start(ts, i + 2)?;
                let e = parse_close(ts, j)?;
                Ok((mk_node(id.as_str(), one(x)), e))
            } else {
                let none: Vec<Expr> = Vec::new();
                proof {
                    assert(Seq::new(none@.len(), |k: int| none@[k]@) =~= Seq::<ExprV>::empty());
                }
                Ok((mk_node(id.as_str(), none), i + 1))
            }
        },
    }
}

/// Parse one expression.
pub fn parse_expr(s: &str) -> (r: core::result::Result<Expr, Error>)
    ensures
        match r {
            Ok(x) => parse_expr_spec(s@) == Outcome::Ok(x@),
            Err(k) => parse_expr_spec(s@) == Outcome::<ExprV>::Err(k.spec_error_kind()),
        },
{
    let ts = tokenize(s)?;
    let (x, j) = parse_start(&ts, 0)?;
    if j < ts.len() {
        return Err(parse_error("Expected end of string"));
    }
    Ok(x)
}


/* ------------------------------------------------------------------------ */
/*  Shapes and recipes                                                       */
/* ------------------------------------------------------------------------ */

/// A shape of a recipe: a polyhedron by its code, or a plane by its three
/// coefficients; either with a distance.
pub enum Shape {
    Polyhedron { name: String, d: Expr },
    Plane { a: Expr, b: Expr, c: Expr, d: Expr },
}

/// The mathematical form of a shape.
pub enum ShapeV {
    Polyhedron { name: Seq<char>, d: ExprV },
    Plane { a: ExprV, b: ExprV, c: ExprV, d: ExprV },
}

impl View for Shape {
    type V = ShapeV;

    open spec fn view(&self) -> ShapeV {
        match self {
            Shape::Polyhedron { name, d } => ShapeV::Polyhedron { name: name@, d: d@ },
            Shape::Plane { a, b, c, d } => ShapeV::Plane { a: a@, b: b@, c: c@, d: d@ },
        }
    }
}

/// A puzzle: the shapes of its shell and of its cuts.
pub struct PuzzleRecipe {
    pub shell: Vec<Shape>,
    pub cuts: Vec<Shape>,
}

/// The views of a list of shapes.
pub open spec fn shapes_v(v: Seq<Shape>) -> Seq<ShapeV> {
    v.map_values(|x: Shape| x@)
}

/// The pieces of `cs` between the separators `sep`: one more than there are
/// separators.
pub open spec fn split_spec(cs: Seq<char>, sep: char) -> Seq<Seq<char>>
    decreases cs.len(),
{
    if cs.len() == 0 {
        seq![Seq::empty()]
    } else {
        let prev = split_spec(cs.drop_last(), sep);
        if cs.last() == sep {
            prev.push(Seq::empty())
        } else {
            prev.update(prev.len() - 1, prev.last().push(cs.last()))
        }
    }
}

/// Each of the pieces parsed, in order; the first failure stops it.
pub open spec fn parse_all(fields: Seq<Seq<char>>, j: nat) -> Outcome<Seq<ExprV>>
    decreases j,
{
    if j == 0 {
        Outcome::Ok(Seq::empty())
    } else {
        match parse_all(fields, (j - 1) as nat) {
            Outcome::Err(k) => Outcome::Err(k),
            Outcome::Ok(done) => match parse_expr_spec(fields[j - 1]) {
                Outcome::Err(k) => Outcome::Err(k),
                Outcome::Ok(x) => Outcome::Ok(done.push(x)),
            },
        }
    }
}

/// `parse_shape(s)`: `<code>$<distance>` or `<a>,<b>,<c>$<distance>`. Every
/// comma-separated field is parsed before deciding which it is.
pub open spec fn parse_shape_spec(cs: Seq<char>) -> Outcome<ShapeV> {
    let parts = split_spec(cs, '$');
    if parts.len() != 2 {
        Outcome::Err(ErrorKind::Parse)
    } else {
        match parse_expr_spec(parts[1]) {
            Outcome::Err(k) => Outcome::Err(k),
            Outcome::Ok(d) => {
                let fields = split_spec(parts[0], ',');
                match parse_all(fields, fields.len()) {
                    Outcome::Err(k) => Outcome::Err(k),
                    Outcome::Ok(xs) => if xs.len() == 3 {
                        Outcome::Ok(ShapeV::Plane { a: xs[0], b: xs[1], c: xs[2], d })
                    } else {
                        Outcome::Ok(ShapeV::Polyhedron { name: parts[0], d })
                    },
                }
            },
        }
    }
}

/// The pieces of `s` between the separators `sep`.
pub fn split_text(s: &str, sep: char) -> (r: Vec<String>)
    ensures
        r@.map_values(|x: String| x@) == split_spec(s@, sep),
{
    let n = s.unicode_len();
    let mut out: Vec<String> = Vec::new();
    let mut start: usize = 0;
    let mut i: usize = 0;
    proof {
        assert(s@.take(0) =~= Seq::<char>::empty());
        assert(out@.map_values(|x: String| x@).push(s@.subrange(0, 0)) =~= seq![Seq::<char>::empty()]);
    }
    while i < n
        invariant
            start <= i <= n == s@.len(),
            out@.map_values(|x: String| x@).push(s@.subrange(start as int, i as int)) == split_spec(
                s@.take(i as int),
                sep,
            ),
        decreases n - i,
    {
        let c = s.get_char(i);
        proof {
            assert(s@.take(i + 1).drop_last() =~= s@.take(i as int));
            assert(s@.take(i + 1).last() == c);
        }
        if c == sep {
            let piece = String::from_str(s.substring_char(start, i));
            let ghost before = out@.map_values(|x: String| x@);
            out.push(piece);
            proof {
                assert(out@.map_values(|x: String| x@) =~= before.push(piece@));
                assert(s@.subrange((i + 1) as int, (i + 1) as int) =~= Seq::<char>::empty());
            }
            start = i + 1;
        } else {
            proof {
                assert(s@.subrange(start as int, i + 1) =~= s@.subrange(start as int, i as int).push(c));
                let prev = out@.map_values(|x: String| x@).push(s@.subrange(start as int, i as int));
                assert(out@.map_values(|x: String| x@).push(s@.subrange(start as int, i + 1)) =~= prev.update(
                    prev.len() - 1,
                    prev.last().push(c),
                ));
            }
        }
        i = i + 1;
    }
    let last = String::from_str(s.substring_char(start, n));
    let ghost before = out@.map_values(|x: String| x@);
    out.push(last);
    proof {
        assert(out@.map_values(|x: String| x@) =~= before.push(last@));
        assert(s@.take(n as int) =~= s@);
    }
    out
}

/// Parse one shape, such as `"C$1"` or `"1,0,0$1/3"`.
pub fn parse_shape(s: &str) -> (r: core::result::Result<Shape, Error>)
    ensures
        match r {
            Ok(x) => parse_shape_spec(s@) == Outcome::Ok(x@),
            Err(k) => parse_shape_spec(s@) == Outcome::<ShapeV>::Err(k.spec_error_kind()),
        },
{
    let parts = split_text(s, '$');
    proof {
        assert(parts@.map_values(|x: String| x@).len() == parts@.len());
    }
    if parts.len() != 2 {
        return Err(parse_error("expected $"));
    }
    proof {
        assert(parts@.map_values(|x: String| x@)[1] == parts@[1]@);
        assert(parts@.map_values(|x: String| x@)[0] == parts@[0]@);
    }
    let d = parse_expr(parts[1].as_str())?;
    let fields = split_text(parts[0].as_str(), ',');
    let ghost fv = fields@.map_values(|x: String| x@);
    let mut xs: Vec<Expr> = Vec::new();
    let mut j: usize = 0;
    proof {
        assert(Seq::new(xs@.len(), |t: int| xs@[t]@) =~= Seq::<ExprV>::empty());
    }
    while j < fields.len()
        invariant
            j <= fields@.len(),
            fv == fields@.map_values(|x: String| x@),
            parts@.len() == 2,
            split_spec(s@, '$') == parts@.map_values(|x: String| x@),
            parse_expr_spec(parts@[1]@) == Outcome::Ok(d@),
            fv == split_spec(parts@[0]@, ','),
            parse_all(fv, j as nat) == Outcome::Ok(Seq::new(xs@.len(), |t: int| xs@[t]@)),
        decreases fields@.len() - j,
    {
        proof {
            assert(fv[j as int] == fields@[j as int]@);
        }
        let x = match parse_expr(fields[j].as_str()) {
            Ok(x) => x,
            Err(e) => {
                proof {
                    lemma_parse_all_err(fv, (j + 1) as nat, fv.len());
                }
                return Err(e);
            },
        };
        let ghost before = Seq::new(xs@.len(), |t: int| xs@[t]@);
        xs.push(x);
        j = j + 1;
        proof {
            assert(Seq::new(xs@.len(), |t: int| xs@[t]@) =~= before.push(x@));
        }
    }
    if xs.len() == 3 {
        let c = xs.pop().unwrap();
        let b = xs.pop().unwrap();
        let a = xs.pop().unwrap();
        Ok(Shape::Plane { a, b, c, d })
    } else {
        let name = parts[0].clone();
        Ok(Shape::Polyhedron { name, d })
    }
}

/// Once a field fails, parsing every field fails the same way.
proof fn lemma_parse_all_err(fields: Seq<Seq<char>>, j: nat, j2: nat)
    requires
        j <= j2,
        parse_all(fields, j) is Err,
    ensures
        parse_all(fields, j2) == parse_all(fields, j),
    decreases j2 - j,
{
    if j < j2 {
        lemma_parse_all_err(fields, j, (j2 - 1) as nat);
    }
}


/// What `String::from_utf8` makes of bytes: the text they encode in UTF-8,
/// or nothing when they are not valid UTF-8.
pub uninterp spec fn utf8_text(b: Seq<u8>) -> Option<Seq<char>>;

/// `String::from_utf8` from std: the text the bytes encode, when they are
/// valid UTF-8. Claimed: the result is `utf8_text` of the bytes, and bytes
/// that are all ASCII decode one character each, to the character with the
/// byte's code; what UTF-8 decoding gives beyond ASCII is left to that name.
#[verifier::external_body]
fn text_from_utf8(bytes: Vec<u8>) -> (r: Option<String>)
    ensures
        match r {
            Some(t) => utf8_text(bytes@) == Some(t@),
            None => utf8_text(bytes@) is None,
        },
        r is Some || exists|i: int| 0 <= i < bytes@.len() && #[trigger] bytes@[i] >= 128,
        r matches Some(t) ==> ((forall|i: int| 0 <= i < bytes@.len() ==> #[trigger] bytes@[i] < 128) ==> t@
            == bytes@.map_values(|b: u8| b as char)),
{
    String::from_utf8(bytes).ok()
}

/// The value of a hexadecimal digit.
pub open spec fn hex_digit(b: u8) -> Option<int> {
    if 48 <= b <= 57 {
        Some(b - 48)
    } else if 97 <= b <= 102 {
        Some(b - 87)
    } else if 65 <= b <= 70 {
        Some(b - 55)
    } else {
        None
    }
}

/// Two bytes read as an escape's byte: two hexadecimal digits, as
/// `decodeURIComponent` takes them.
pub open spec fn hex_pair(b1: u8, b2: u8) -> Option<u8> {
    match (hex_digit(b1), hex_digit(b2)) {
        (Some(h), Some(l)) => Some((16 * h + l) as u8),
        _ => None,
    }
}

/// The bytes from `i` on with each `%XY` replaced by the byte it names,
/// after `acc`; nothing if an escape is malformed.
pub open spec fn decode_loop(b: Seq<u8>, i: int, acc: Seq<u8>) -> Option<Seq<u8>>
    decreases b.len() - i,
{
    if i < 0 || i >= b.len() {
        Some(acc)
    } else if b[i] == 37 {
        if i + 2 >= b.len() {
            None
        } else {
            match hex_pair(b[i + 1], b[i + 2]) {
                None => None,
                Some(v) => decode_loop(b, i + 3, acc.push(v)),
            }
        }
    } else {
        decode_loop(b, i + 1, acc.push(b[i]))
    }
}

/// `decodeURIComponent`: the escapes decoded, and the bytes read as UTF-8.
pub open spec fn decode_spec(b: Seq<u8>) -> Outcome<Seq<char>> {
    match decode_loop(b, 0, Seq::empty()) {
        None => Outcome::Err(ErrorKind::Parse),
        Some(out) => match utf8_text(out) {
            None => Outcome::Err(ErrorKind::Parse),
            Some(t) => Outcome::Ok(t),
        },
    }
}

fn hex_digit_exec(b: u8) -> (r: Option<u8>)
    ensures
        r matches Some(v) ==> hex_digit(b) == Some(v as int),
        r is None ==> hex_digit(b) is None,
{
    if 48 <= b && b <= 57 {
        Some(b - 48)
    } else if 97 <= b && b <= 102 {
        Some(b - 87)
    } else if 65 <= b && b <= 70 {
        Some(b - 55)
    } else {
        None
    }
}

/// `decodeURIComponent`.
pub fn decode_uri_component(s: &str) -> (r: core::result::Result<String, Error>)
    ensures
        match r {
            Ok(t) => decode_spec(s.spec_bytes()) == Outcome::Ok(t@),
            Err(k) => decode_spec(s.spec_bytes()) == Outcome::<Seq<char>>::Err(k.spec_error_kind())
                && k.spec_message() == "URI malformed"@,
        },
        decode_loop(s.spec_bytes(), 0, Seq::empty()) matches Some(out) ==> ((forall|i: int|
            0 <= i < out.len() ==> #[trigger] out[i] < 128) ==> (r matches Ok(t) && t@ == out.map_values(
            |b: u8| b as char,
        ))),
{
    let bytes = s.as_bytes();
    let ghost b = s.spec_bytes();
    let n = bytes.len();
    let mut out: Vec<u8> = Vec::new();
    let mut i: usize = 0;
    while i < n
        invariant
            i <= n,
            n == bytes@.len(),
            bytes@ == b,
            b == s.spec_bytes(),
            decode_loop(b, i as int, out@) == decode_loop(b, 0, Seq::empty()),
        decreases n - i,
    {
        if bytes[i] == 37 {
            if n - i <= 2 {
                return Err(parse_error("URI malformed"));
            }
            let h = hex_digit_exec(bytes[i + 1]);
            let l = hex_digit_exec(bytes[i + 2]);
            let v = match (h, l) {
                (Some(h), Some(l)) => 16 * h + l,
                _ => {
                    return Err(parse_error("URI malformed"));
                },
            };
            out.push(v);
            i = i + 3;
        } else {
            out.push(bytes[i]);
            i = i + 1;
        }
    }
    proof {
        assert(decode_loop(b, i as int, out@) == Some(out@));
    }
    match text_from_utf8(out) {
        Some(t) => Ok(t),
        None => Err(parse_error("URI malformed")),
    }
}

/// The shell and the cut shapes named by `key=value` pairs; an unknown key
/// is passed over, and a pair that is not one `=` is refused.
pub open spec fn query_loop(kvs: Seq<Seq<char>>, j: nat) -> Outcome<(Seq<ShapeV>, Seq<ShapeV>)>
    decreases j,
{
    if j == 0 {
        Outcome::Ok((Seq::empty(), Seq::empty()))
    } else {
        match query_loop(kvs, (j - 1) as nat) {
            Outcome::Err(k) => Outcome::Err(k),
            Outcome::Ok(sc) => {
                let kv = split_spec(kvs[j - 1], '=');
                if kv.len() != 2 {
                    Outcome::Err(ErrorKind::Parse)
                } else if kv[0] == seq!['s', 'h', 'e', 'l', 'l'] {
                    match parse_shape_spec(kv[1]) {
                        Outcome::Err(k) => Outcome::Err(k),
                        Outcome::Ok(x) => Outcome::Ok((sc.0.push(x), sc.1)),
                    }
                } else if kv[0] == seq!['c', 'u', 't'] {
                    match parse_shape_spec(kv[1]) {
                        Outcome::Err(k) => Outcome::Err(k),
                        Outcome::Ok(x) => Outcome::Ok((sc.0, sc.1.push(x))),
                    }
                } else {
                    Outcome::Ok(sc)
                }
            },
        }
    }
}

/// `parse_query(s)`: a `?shell=...&cut=...` query string, decoded first; the
/// empty string is the empty recipe.
pub open spec fn parse_query_spec(b: Seq<u8>) -> Outcome<(Seq<ShapeV>, Seq<ShapeV>)> {
    match decode_spec(b) {
        Outcome::Err(k) => Outcome::Err(k),
        Outcome::Ok(t) => if t.len() == 0 {
            Outcome::Ok((Seq::empty(), Seq::empty()))
        } else if t[0] != '?' {
            Outcome::Err(ErrorKind::Parse)
        } else {
            let kvs = split_spec(t.skip(1), '&');
            query_loop(kvs, kvs.len())
        },
    }
}

/// Whether two texts are the same.
fn same(a: &str, b: &str) -> (r: bool)
    ensures
        r == (a@ == b@),
{
    let n = a.unicode_len();
    if n != b.unicode_len() {
        return false;
    }
    let mut i: usize = 0;
    while i < n
        invariant
            i <= n == a@.len() == b@.len(),
            forall|j: int| 0 <= j < i ==> a@[j] == b@[j],
        decreases n - i,
    {
        if a.get_char(i) != b.get_char(i) {
            return false;
        }
        i = i + 1;
    }
    assert(a@ =~= b@);
    true
}

/// Once a pair fails, the whole query fails the same way.
proof fn lemma_query_err(kvs: Seq<Seq<char>>, j: nat, j2: nat)
    requires
        j <= j2,
        query_loop(kvs, j) is Err,
    ensures
        query_loop(kvs, j2) == query_loop(kvs, j),
    decreases j2 - j,
{
    if j < j2 {
        lemma_query_err(kvs, j, (j2 - 1) as nat);
    }
}

/// Parse a `?shell=...&cut=...` query string into a recipe.
pub fn parse_query(s: &str) -> (r: core::result::Result<PuzzleRecipe, Error>)
    ensures
        match r {
            Ok(p) => parse_query_spec(s.spec_bytes()) == Outcome::Ok((shapes_v(p.shell@), shapes_v(p.cuts@))),
            Err(k) => parse_query_spec(s.spec_bytes()) == Outcome::<(Seq<ShapeV>, Seq<ShapeV>)>::Err(
                k.spec_error_kind(),
            ),
        },
{
    let mut shell: Vec<Shape> = Vec::new();
    let mut cuts: Vec<Shape> = Vec::new();
    proof {
        assert(shapes_v(shell@) =~= Seq::<ShapeV>::empty());
    }
    let t = decode_uri_component(s)?;
    let n = t.as_str().unicode_len();
    if n == 0 {
        return Ok(PuzzleRecipe { shell, cuts });
    }
    if t.as_str().get_char(0) != '?' {
        return Err(parse_error("expected ?"));
    }
    let kvs = split_text(t.as_str().substring_char(1, n), '&');
    let ghost kv_v = kvs@.map_values(|x: String| x@);
    proof {
        reveal_strlit("shell");
        reveal_strlit("cut");
        assert(t@.subrange(1, n as int) =~= t@.skip(1));
    }
    let mut j: usize = 0;
    while j < kvs.len()
        invariant
            j <= kvs@.len(),
            kv_v == kvs@.map_values(|x: String| x@),
            kv_v == split_spec(t@.skip(1), '&'),
            decode_spec(s.spec_bytes()) == Outcome::Ok(t@),
            t@.len() > 0 && t@[0] == '?',
            query_loop(kv_v, j as nat) == Outcome::Ok((shapes_v(shell@), shapes_v(cuts@))),
        decreases kvs@.len() - j,
    {
        proof {
            assert(kv_v[j as int] == kvs@[j as int]@);
            reveal_strlit("shell");
            reveal_strlit("cut");
            assert("shell"@ =~= seq!['s', 'h', 'e', 'l', 'l']);
            assert("cut"@ =~= seq!['c', 'u', 't']);
        }
        let kv = split_text(kvs[j].as_str(), '=');
        proof {
            assert(kv@.map_values(|x: String| x@).len() == kv@.len());
        }
        if kv.len() != 2 {
            proof {
                lemma_query_err(kv_v, (j + 1) as nat, kv_v.len());
            }
            return Err(parse_error("expected exactly one ="));
        }
        proof {
            assert(kv@.map_values(|x: String| x@)[0] == kv@[0]@);
            assert(kv@.map_values(|x: String| x@)[1] == kv@[1]@);
        }
        if same(kv[0].as_str(), "shell") {
            let x = match parse_shape(kv[1].as_str()) {
                Ok(x) => x,
                Err(e) => {
                    proof {
                        lemma_query_err(kv_v, (j + 1) as nat, kv_v.len());
                    }
                    return Err(e);
                },
            };
            let ghost before = shapes_v(shell@);
            shell.push(x);
            proof {
                assert(shapes_v(shell@) =~= before.push(x@));
            }
        } else if same(kv[0].as_str(), "cut") {
            let x = match parse_shape(kv[1].as_str()) {
                Ok(x) => x,
                Err(e) => {
                    proof {
                        lemma_query_err(kv_v, (j + 1) as nat, kv_v.len());
                    }
                    return Err(e);
                },
            };
            let ghost before = shapes_v(cuts@);
            cuts.push(x);
            proof {
                assert(shapes_v(cuts@) =~= before.push(x@));
            }
        }
        j = j + 1;
    }
    Ok(PuzzleRecipe { shell, cuts })
}

/* ------------------------------------------------------------------------ */
/*  Writing expressions, shapes and recipes back                            */
/* ------------------------------------------------------------------------ */

/// `s` in parentheses when `wrap` holds.
pub open spec fn paren(wrap: bool, s: Seq<char>) -> Seq<char> {
    if wrap {
        seq!['('] + s + seq![')']
    } else {
        s
    }
}

/// Whether `op` is one of the five binary operators.
pub open spec fn bin_op(op: Seq<char>) -> bool {
    op == seq!['+'] || op == seq!['-'] || op == seq!['*'] || op == seq!['/'] || op == seq!['^']
}

/// For a binary operator: the precedence its left operand is written at,
/// that of its right operand, and the least context precedence at which it
/// needs no parentheses.
pub open spec fn bin_prec(op: Seq<char>) -> (int, int, int) {
    if op == seq!['+'] || op == seq!['-'] {
        (6, 5, 6)
    } else if op == seq!['*'] || op == seq!['/'] {
        (4, 3, 4)
    } else {
        (1, 2, 2)
    }
}

/// `generate_expr(e, prec)`: the source text of `e` written in a context of
/// precedence `prec`, with the parentheses that context needs; an unknown
/// operation is refused. (An argument that is missing leaves the result
/// open: `args_present` rules it out.)
pub open spec fn gen_spec(e: ExprV, prec: int) -> Outcome<Seq<char>>
    decreases e,
{
    match e {
        ExprV::Node { op, args, val } => {
            if bin_op(op) {
                if args.len() < 1 {
                    Outcome::Err(ErrorKind::Parse)
                } else {
                    let p = bin_prec(op);
                    match gen_spec(args[0], p.0) {
                        Outcome::Err(k) => Outcome::Err(k),
                        Outcome::Ok(l) => if args.len() < 2 {
                            Outcome::Err(ErrorKind::Parse)
                        } else {
                            match gen_spec(args[1], p.1) {
                                Outcome::Err(k) => Outcome::Err(k),
                                Outcome::Ok(r) => Outcome::Ok(paren(prec < p.2, l + op + r)),
                            }
                        },
                    }
                }
            } else if op == seq!['n', 'e', 'g'] || op == seq!['s', 'q', 'r', 't'] {
                if args.len() < 1 {
                    Outcome::Err(ErrorKind::Parse)
                } else if op == seq!['n', 'e', 'g'] {
                    match gen_spec(args[0], 2) {
                        Outcome::Err(k) => Outcome::Err(k),
                        Outcome::Ok(x) => Outcome::Ok(paren(prec < 2, seq!['-'] + x)),
                    }
                } else {
                    match gen_spec(args[0], 10) {
                        Outcome::Err(k) => Outcome::Err(k),
                        Outcome::Ok(x) => Outcome::Ok(seq!['s', 'q', 'r', 't', '('] + x + seq![')']),
                    }
                }
            } else if op == seq!['n', 'u', 'm'] {
                match val {
                    Some(v) => Outcome::Ok(fraction_text(v)),
                    None => Outcome::Ok(seq!['u', 'n', 'd', 'e', 'f', 'i', 'n', 'e', 'd']),
                }
            } else {
                Outcome::Err(ErrorKind::Parse)
            }
        },
    }
}

/// Whether every argument that writing `e` reads is there: two for a binary
/// operator (the second only once the first was written), one for `neg` and
/// `sqrt`.
pub open spec fn args_present(e: ExprV) -> bool
    decreases e,
{
    match e {
        ExprV::Node { op, args, val } => {
            if bin_op(op) {
                args.len() >= 1 && args_present(args[0]) && (gen_spec(args[0], bin_prec(op).0) is Ok
                    ==> args.len() >= 2 && args_present(args[1]))
            } else if op == seq!['n', 'e', 'g'] || op == seq!['s', 'q', 'r', 't'] {
                args.len() >= 1 && args_present(args[0])
            } else {
                true
            }
        },
    }
}

/// The precedences of a binary operator, or nothing for another operation.
fn bin_prec_exec(op: &str) -> (r: Option<(i32, i32, i32)>)
    ensures
        r is Some <==> bin_op(op@),
        r matches Some(p) ==> p.0 == bin_prec(op@).0 && p.1 == bin_prec(op@).1 && p.2 == bin_prec(
            op@,
        ).2,
{
    proof {
        reveal_strlit("+");
        reveal_strlit("-");
        reveal_strlit("*");
        reveal_strlit("/");
        reveal_strlit("^");
        assert("+"@ =~= seq!['+']);
        assert("-"@ =~= seq!['-']);
        assert("*"@ =~= seq!['*']);
        assert("/"@ =~= seq!['/']);
        assert("^"@ =~= seq!['^']);
    }
    if same(op, "+") || same(op, "-") {
        Some((6, 5, 6))
    } else if same(op, "*") || same(op, "/") {
        Some((4, 3, 4))
    } else if same(op, "^") {
        Some((1, 2, 2))
    } else {
        None
    }
}

/// The text `s` in parentheses when `wrap` holds.
fn paren_exec(wrap: bool, s: String) -> (r: String)
    ensures
        r@ == paren(wrap, s@),
{
    if wrap {
        proof {
            reveal_strlit("(");
            reveal_strlit(")");
            assert("("@ =~= seq!['(']);
            assert(")"@ =~= seq![')']);
        }
        let mut w = String::from_str("(");
        w.append(s.as_str());
        w.append(")");
        w
    } else {
        s
    }
}

/// The view of argument `i` of an expression is argument `i` of its view.
proof fn lemma_arg_view(x: &Expr, i: int)
    requires
        0 <= i < x.args@.len(),
    ensures
        x@->args.len() == x.args@.len(),
        x.args@[i]@ == x@->args[i],
{
}

/// Render an expression back to source text, inserting the minimum
/// parentheses needed at the given precedence.
pub fn generate_expr(x: &Expr, prec: i32) -> (r: core::result::Result<String, Error>)
    requires
        args_present(x@),
    ensures
        match r {
            Ok(t) => gen_spec(x@, prec as int) == Outcome::Ok(t@),
            Err(k) => gen_spec(x@, prec as int) == Outcome::<Seq<char>>::Err(k.spec_error_kind()),
        },
    decreases x,
{
    let op = x.op.as_str();
    proof {
        reveal_strlit("neg");
        reveal_strlit("sqrt");
        reveal_strlit("num");
        assert("neg"@ =~= seq!['n', 'e', 'g']);
        assert("sqrt"@ =~= seq!['s', 'q', 'r', 't']);
        assert("num"@ =~= seq!['n', 'u', 'm']);
        assert(x@->op == op@);
        assert(x@->args.len() == x.args@.len());
    }
    if let Some((lp, rp, th)) = bin_prec_exec(op) {
        proof {
            lemma_arg_view(x, 0);
        }
        let l = match generate_expr(&x.args[0], lp) {
            Ok(l) => l,
            Err(e) => {
                return Err(e);
            },
        };
        proof {
            lemma_arg_view(x, 1);
        }
        let r = match generate_expr(&x.args[1], rp) {
            Ok(r) => r,
            Err(e) => {
                return Err(e);
            },
        };
        let mut t = l;
        t.append(op);
        t.append(r.as_str());
        Ok(paren_exec(prec < th, t))
    } else if same(op, "neg") {
        proof {
            lemma_arg_view(x, 0);
        }
        let a = match generate_expr(&x.args[0], 2) {
            Ok(a) => a,
            Err(e) => {
                return Err(e);
            },
        };
        proof {
            reveal_strlit("-");
            assert("-"@ =~= seq!['-']);
        }
        let mut t = String::from_str("-");
        t.append(a.as_str());
        Ok(paren_exec(prec < 2, t))
    } else if same(op, "sqrt") {
        proof {
            lemma_arg_view(x, 0);
        }
        let a = match generate_expr(&x.args[0], 10) {
            Ok(a) => a,
            Err(e) => {
                return Err(e);
            },
        };
        proof {
            reveal_strlit("sqrt(");
            reveal_strlit(")");
            assert("sqrt("@ =~= seq!['s', 'q', 'r', 't', '(']);
            assert(")"@ =~= seq![')']);
        }
        let mut t = String::from_str("sqrt(");
        t.append(a.as_str());
        t.append(")");
        Ok(t)
    } else if same(op, "num") {
        match &x.val {
            Some(v) => Ok(v.to_string()),
            None => {
                proof {
                    reveal_strlit("undefined");
                    assert("undefined"@ =~= seq!['u', 'n', 'd', 'e', 'f', 'i', 'n', 'e', 'd']);
                }
                Ok(String::from_str("undefined"))
            },
        }
    } else {
        proof {
            reveal_strlit("generateExpr: invalid operation '");
            reveal_strlit("'");
        }
        let mut m = String::from_str("generateExpr: invalid operation '");
        m.append(op);
        m.append("'");
        Err(Error::Parse(m))
    }
}

/// `generate_shape(s)`: `<code>$<distance>` for a polyhedron, and
/// `<a>,<b>,<c>$<distance>` for a plane, each expression written at the
/// loosest precedence.
pub open spec fn shape_text_spec(s: ShapeV) -> Outcome<Seq<char>> {
    match s {
        ShapeV::Polyhedron { name, d } => match gen_spec(d, 10) {
            Outcome::Err(k) => Outcome::Err(k),
            Outcome::Ok(td) => Outcome::Ok(name + seq!['$'] + td),
        },
        ShapeV::Plane { a, b, c, d } => match gen_spec(a, 10) {
            Outcome::Err(k) => Outcome::Err(k),
            Outcome::Ok(ta) => match gen_spec(b, 10) {
                Outcome::Err(k) => Outcome::Err(k),
                Outcome::Ok(tb) => match gen_spec(c, 10) {
                    Outcome::Err(k) => Outcome::Err(k),
                    Outcome::Ok(tc) => match gen_spec(d, 10) {
                        Outcome::Err(k) => Outcome::Err(k),
                        Outcome::Ok(td) => Outcome::Ok(
                            ta + seq![','] + tb + seq![','] + tc + seq!['$'] + td,
                        ),
                    },
                },
            },
        },
    }
}

/// Whether every argument that writing the shape reads is there, expression
/// by expression in the order they are written.
pub open spec fn shape_args_present(s: ShapeV) -> bool {
    match s {
        ShapeV::Polyhedron { name, d } => args_present(d),
        ShapeV::Plane { a, b, c, d } => {
            &&& args_present(a)
            &&& gen_spec(a, 10) is Ok ==> args_present(b)
            &&& gen_spec(a, 10) is Ok && gen_spec(b, 10) is Ok ==> args_present(c)
            &&& gen_spec(a, 10) is Ok && gen_spec(b, 10) is Ok && gen_spec(c, 10) is Ok
                ==> args_present(d)
        },
    }
}

/// Render a shape back to the text `parse_shape` reads.
pub fn generate_shape(s: &Shape) -> (r: core::result::Result<String, Error>)
    requires
        shape_args_present(s@),
    ensures
        match r {
            Ok(t) => shape_text_spec(s@) == Outcome::Ok(t@),
            Err(k) => shape_text_spec(s@) == Outcome::<Seq<char>>::Err(k.spec_error_kind()),
        },
{
    proof {
        reveal_strlit("$");
        reveal_strlit(",");
        assert("$"@ =~= seq!['$']);
        assert(","@ =~= seq![',']);
    }
    match s {
        Shape::Polyhedron { name, d } => {
            let td = generate_expr(d, 10)?;
            let mut t = name.clone();
            t.append("$");
            t.append(td.as_str());
            Ok(t)
        },
        Shape::Plane { a, b, c, d } => {
            let ta = generate_expr(a, 10)?;
            let tb = generate_expr(b, 10)?;
            let tc = generate_expr(c, 10)?;
            let td = generate_expr(d, 10)?;
            let mut t = ta;
            t.append(",");
            t.append(tb.as_str());
            t.append(",");
            t.append(tc.as_str());
            t.append("$");
            t.append(td.as_str());
            Ok(t)
        },
    }
}

/// The first `j` shapes written as `key=<shape>`, in order; the first
/// failure stops it.
pub open spec fn shape_lines(ss: Seq<ShapeV>, key: Seq<char>, j: nat) -> Outcome<Seq<Seq<char>>>
    decreases j,
{
    if j == 0 {
        Outcome::Ok(Seq::empty())
    } else {
        match shape_lines(ss, key, (j - 1) as nat) {
            Outcome::Err(k) => Outcome::Err(k),
            Outcome::Ok(done) => match shape_text_spec(ss[j - 1]) {
                Outcome::Err(k) => Outcome::Err(k),
                Outcome::Ok(t) => Outcome::Ok(done.push(key + seq!['='] + t)),
            },
        }
    }
}

/// Whether each of the first `j` shapes that is reached has its arguments.
pub open spec fn lines_present(ss: Seq<ShapeV>, key: Seq<char>, j: nat) -> bool
    decreases j,
{
    j == 0 || (lines_present(ss, key, (j - 1) as nat) && (shape_lines(ss, key, (j - 1) as nat) is Ok
        ==> shape_args_present(ss[j - 1])))
}

/// The pieces joined with `sep` between each two.
pub open spec fn join_spec(parts: Seq<Seq<char>>, sep: char) -> Seq<char>
    decreases parts.len(),
{
    if parts.len() == 0 {
        Seq::empty()
    } else if parts.len() == 1 {
        parts[0]
    } else {
        join_spec(parts.drop_last(), sep) + seq![sep] + parts.last()
    }
}

/// `generate_query(p)`: `?`, then `shell=<shape>` for each shape of the shell
/// and `cut=<shape>` for each cut, joined with `&`.
pub open spec fn query_text_spec(shell: Seq<ShapeV>, cuts: Seq<ShapeV>) -> Outcome<Seq<char>> {
    match shape_lines(shell, seq!['s', 'h', 'e', 'l', 'l'], shell.len()) {
        Outcome::Err(k) => Outcome::Err(k),
        Outcome::Ok(a) => match shape_lines(cuts, seq!['c', 'u', 't'], cuts.len()) {
            Outcome::Err(k) => Outcome::Err(k),
            Outcome::Ok(b) => Outcome::Ok(seq!['?'] + join_spec(a + b, '&')),
        },
    }
}

/// Whether every shape of the recipe that is reached has its arguments.
pub open spec fn query_present(shell: Seq<ShapeV>, cuts: Seq<ShapeV>) -> bool {
    &&& lines_present(shell, seq!['s', 'h', 'e', 'l', 'l'], shell.len())
    &&& shape_lines(shell, seq!['s', 'h', 'e', 'l', 'l'], shell.len()) is Ok ==> lines_present(
        cuts,
        seq!['c', 'u', 't'],
        cuts.len(),
    )
}

proof fn lemma_lines_present(ss: Seq<ShapeV>, key: Seq<char>, j: nat, j2: nat)
    requires
        j <= j2,
        lines_present(ss, key, j2),
    ensures
        lines_present(ss, key, j),
    decreases j2 - j,
{
    if j < j2 {
        lemma_lines_present(ss, key, j, (j2 - 1) as nat);
    }
}

proof fn lemma_lines_err(ss: Seq<ShapeV>, key: Seq<char>, j: nat, j2: nat)
    requires
        j <= j2,
        shape_lines(ss, key, j) is Err,
    ensures
        shape_lines(ss, key, j2) == shape_lines(ss, key, j),
    decreases j2 - j,
{
    if j < j2 {
        lemma_lines_err(ss, key, j, (j2 - 1) as nat);
    }
}

/// The texts of a list of strings.
pub open spec fn texts(v: Seq<String>) -> Seq<Seq<char>> {
    v.map_values(|x: String| x@)
}

/// Append `key=<shape>` for each shape to `parts`.
fn push_shape_lines(ss: &Vec<Shape>, key: &str, parts: &mut Vec<String>) -> (r: core::result::Result<(), Error>)
    requires
        lines_present(shapes_v(ss@), key@, ss@.len()),
    ensures
        match r {
            Ok(_) => shape_lines(shapes_v(ss@), key@, ss@.len()) matches Outcome::Ok(x) && texts(
                final(parts)@,
            ) == texts(old(parts)@) + x,
            Err(k) => shape_lines(shapes_v(ss@), key@, ss@.len()) == Outcome::<Seq<Seq<char>>>::Err(
                k.spec_error_kind(),
            ),
        },
{
    let ghost sv = shapes_v(ss@);
    let ghost start = texts(parts@);
    proof {
        reveal_strlit("=");
        assert("="@ =~= seq!['=']);
        assert(texts(parts@) =~= start + Seq::<Seq<char>>::empty());
    }
    let mut i: usize = 0;
    while i < ss.len()
        invariant
            i <= ss@.len(),
            sv == shapes_v(ss@),
            lines_present(sv, key@, ss@.len()),
            "="@ == seq!['='],
            shape_lines(sv, key@, i as nat) matches Outcome::Ok(x) && texts(parts@) == start + x,
        decreases ss@.len() - i,
    {
        proof {
            lemma_lines_present(sv, key@, (i + 1) as nat, ss@.len());
            assert(sv[i as int] == ss@[i as int]@);
        }
        let t = match generate_shape(&ss[i]) {
            Ok(t) => t,
            Err(e) => {
                proof {
                    lemma_lines_err(sv, key@, (i + 1) as nat, ss@.len());
                }
                return Err(e);
            },
        };
        let ghost before = texts(parts@);
        let ghost done = shape_lines(sv, key@, i as nat)->Ok_0;
        let mut line = String::from_str(key);
        line.append("=");
        line.append(t.as_str());
        parts.push(line);
        proof {
            assert(texts(parts@) =~= before.push(line@));
            assert(start + done.push(key@ + seq!['='] + t@) =~= (start + done).push(line@));
        }
        i = i + 1;
    }
    Ok(())
}

/// Joining one piece more adds the separator and the piece.
proof fn lemma_join_push(parts: Seq<Seq<char>>, x: Seq<char>, sep: char)
    ensures
        join_spec(parts.push(x), sep) == (if parts.len() == 0 {
            x
        } else {
            join_spec(parts, sep) + seq![sep] + x
        }),
{
    assert(parts.push(x).drop_last() =~= parts);
}

/// Render a recipe back to a `?shell=...&cut=...` query string.
pub fn generate_query(p: &PuzzleRecipe) -> (r: core::result::Result<String, Error>)
    requires
        query_present(shapes_v(p.shell@), shapes_v(p.cuts@)),
    ensures
        match r {
            Ok(t) => query_text_spec(shapes_v(p.shell@), shapes_v(p.cuts@)) == Outcome::Ok(t@),
            Err(k) => query_text_spec(shapes_v(p.shell@), shapes_v(p.cuts@)) == Outcome::<Seq<char>>::Err(
                k.spec_error_kind(),
            ),
        },
{
    proof {
        reveal_strlit("shell");
        reveal_strlit("cut");
        reveal_strlit("?");
        reveal_strlit("&");
        assert("shell"@ =~= seq!['s', 'h', 'e', 'l', 'l']);
        assert("cut"@ =~= seq!['c', 'u', 't']);
        assert("?"@ =~= seq!['?']);
        assert("&"@ =~= seq!['&']);
    }
    let mut parts: Vec<String> = Vec::new();
    proof {
        assert(texts(parts@) =~= Seq::<Seq<char>>::empty());
    }
    push_shape_lines(&p.shell, "shell", &mut parts)?;
    push_shape_lines(&p.cuts, "cut", &mut parts)?;
    let ghost all = texts(parts@);
    let mut out = String::from_str("?");
    let mut i: usize = 0;
    while i < parts.len()
        invariant
            i <= parts@.len(),
            all == texts(parts@),
            "&"@ == seq!['&'],
            "?"@ == seq!['?'],
            out@ == seq!['?'] + join_spec(all.take(i as int), '&'),
        decreases parts@.len() - i,
    {
        proof {
            lemma_join_push(all.take(i as int), all[i as int], '&');
            assert(all.take(i as int).push(all[i as int]) =~= all.take(i + 1));
            assert(all[i as int] == parts@[i as int]@);
        }
        if i > 0 {
            out.append("&");
        }
        out.append(parts[i].as_str());
        i = i + 1;
    }
    proof {
        assert(all.take(parts@.len() as int) =~= all);
    }
    Ok(out)
}

} // verus!
