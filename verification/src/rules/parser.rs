//! Parser for free-form rule strings.
//!
//! The grammar: literals are bare feature names (ASCII letters, digits and
//! underscores, not starting with a digit), quoted feature names (single
//! quotes, any other characters inside), or decimal integers. Binary
//! operators by ascending precedence: `==`; `<`, `>`, `<=`, `>=`; `+`, `-`;
//! `=>`; `<=>`; `|`; `^`; `&`. All binary operators are left-associative.
//! Prefix `!` and `-` bind tightest; parentheses group.
//!
//! The functions here are specified against a declarative description of
//! the same grammar: `spec_tokenize` for the lexer and `sp_climb`
//! (precedence climbing) for the parser.

use crate::rules::expr::{
    expr_view, infix_op_chars, inside_chars, prefix_op_chars, render_chars, Expr, InfixOp, Literal,
    PrefixOp, SpecExpr,
};
use crate::strutil::dec_nat;
use crate::types::Feature;
use vstd::prelude::*;
use vstd::string::StrSliceExecFns;

verus! {

/// One lexical token of a rule string.
pub enum Token {
    /// A bare or quoted feature name.
    Name(String),
    /// A decimal integer literal.
    Int(i32),
    EqEq,
    Lt,
    Gt,
    Le,
    Ge,
    Plus,
    Minus,
    FatArrow,
    Equiv,
    Pipe,
    Caret,
    Amp,
    Bang,
    LPar,
    RPar,
}

/// The mathematical shape of a token, with the name as characters.
pub ghost enum SpecToken {
    Name(Seq<char>),
    Int(i32),
    EqEq,
    Lt,
    Gt,
    Le,
    Ge,
    Plus,
    Minus,
    FatArrow,
    Equiv,
    Pipe,
    Caret,
    Amp,
    Bang,
    LPar,
    RPar,
}

impl View for Token {
    type V = SpecToken;

    open spec fn view(&self) -> SpecToken {
        match self {
            Token::Name(s) => SpecToken::Name(s@),
            Token::Int(v) => SpecToken::Int(*v),
            Token::EqEq => SpecToken::EqEq,
            Token::Lt => SpecToken::Lt,
            Token::Gt => SpecToken::Gt,
            Token::Le => SpecToken::Le,
            Token::Ge => SpecToken::Ge,
            Token::Plus => SpecToken::Plus,
            Token::Minus => SpecToken::Minus,
            Token::FatArrow => SpecToken::FatArrow,
            Token::Equiv => SpecToken::Equiv,
            Token::Pipe => SpecToken::Pipe,
            Token::Caret => SpecToken::Caret,
            Token::Amp => SpecToken::Amp,
            Token::Bang => SpecToken::Bang,
            Token::LPar => SpecToken::LPar,
            Token::RPar => SpecToken::RPar,
        }
    }
}

/// The token views of a token vector.
pub open spec fn tok_views(toks: Seq<Token>) -> Seq<SpecToken> {
    Seq::new(toks.len(), |i: int| toks[i]@)
}

pub open spec fn is_space(c: char) -> bool {
    c == ' ' || c == '\t' || c == '\n' || c == '\r'
}

pub open spec fn is_digit(c: char) -> bool {
    48 <= c as u32 && c as u32 <= 57
}

pub open spec fn is_ident_start(c: char) -> bool {
    (97 <= c as u32 && c as u32 <= 122) || (65 <= c as u32 && c as u32 <= 90) || c == '_'
}

pub open spec fn is_ident_char(c: char) -> bool {
    is_ident_start(c) || is_digit(c)
}

/// What remains of a length after a position, never negative.
pub open spec fn clipped(len: nat, i: int) -> int {
    if i <= len {
        len - i
    } else {
        0
    }
}

/// The first position at or after `i` that does not hold an identifier
/// character.
pub open spec fn ident_end(s: Seq<char>, i: int) -> int
    decreases clipped(s.len(), i),
{
    if i < 0 || i >= s.len() || !is_ident_char(s[i]) {
        i
    } else {
        ident_end(s, i + 1)
    }
}

/// The first position at or after `i` that does not hold a digit.
pub open spec fn digit_end(s: Seq<char>, i: int) -> int
    decreases clipped(s.len(), i),
{
    if i < 0 || i >= s.len() || !is_digit(s[i]) {
        i
    } else {
        digit_end(s, i + 1)
    }
}

/// The first position at or after `i` holding a single quote, or -1.
pub open spec fn find_quote(s: Seq<char>, i: int) -> int
    decreases clipped(s.len(), i),
{
    if i < 0 || i >= s.len() {
        -1
    } else if s[i] == '\'' {
        i
    } else {
        find_quote(s, i + 1)
    }
}

/// The value of a sequence of decimal digits.
pub open spec fn dec_value(s: Seq<char>) -> int
    decreases s.len(),
{
    if s.len() == 0 {
        0
    } else {
        dec_value(s.drop_last()) * 10 + (s.last() as u32 - 48)
    }
}

/// A position clamped into `[lo, len]`; the scans above stay in that range
/// anyway, this keeps the recursions below well-founded by construction.
pub open spec fn clamp_pos(j: int, lo: int, len: nat) -> int {
    if j < lo {
        lo
    } else if j > len {
        len as int
    } else {
        j
    }
}

pub proof fn lemma_ident_end_bounds(s: Seq<char>, i: int)
    requires
        0 <= i <= s.len(),
    ensures
        i <= ident_end(s, i) <= s.len(),
    decreases clipped(s.len(), i),
{
    if !(i >= s.len() || !is_ident_char(s[i])) {
        lemma_ident_end_bounds(s, i + 1);
    }
}

pub proof fn lemma_digit_end_bounds(s: Seq<char>, i: int)
    requires
        0 <= i <= s.len(),
    ensures
        i <= digit_end(s, i) <= s.len(),
    decreases clipped(s.len(), i),
{
    if !(i >= s.len() || !is_digit(s[i])) {
        lemma_digit_end_bounds(s, i + 1);
    }
}

pub proof fn lemma_find_quote_bounds(s: Seq<char>, i: int)
    requires
        0 <= i <= s.len(),
    ensures
        find_quote(s, i) == -1 || i <= find_quote(s, i) < s.len(),
    decreases clipped(s.len(), i),
{
    if i < s.len() && s[i] != '\'' {
        lemma_find_quote_bounds(s, i + 1);
    }
}

/// The symbol token starting at `i` and how many characters it takes,
/// longest match first.
pub open spec fn sym_token(s: Seq<char>, i: int) -> (Option<SpecToken>, int) {
    if i + 3 <= s.len() && s[i] == '<' && s[i + 1] == '=' && s[i + 2] == '>' {
        (Some(SpecToken::Equiv), 3)
    } else if i + 2 <= s.len() && s[i] == '<' && s[i + 1] == '=' {
        (Some(SpecToken::Le), 2)
    } else if i + 2 <= s.len() && s[i] == '>' && s[i + 1] == '=' {
        (Some(SpecToken::Ge), 2)
    } else if i + 2 <= s.len() && s[i] == '=' && s[i + 1] == '=' {
        (Some(SpecToken::EqEq), 2)
    } else if i + 2 <= s.len() && s[i] == '=' && s[i + 1] == '>' {
        (Some(SpecToken::FatArrow), 2)
    } else if i < s.len() && s[i] == '<' {
        (Some(SpecToken::Lt), 1)
    } else if i < s.len() && s[i] == '>' {
        (Some(SpecToken::Gt), 1)
    } else if i < s.len() && s[i] == '+' {
        (Some(SpecToken::Plus), 1)
    } else if i < s.len() && s[i] == '-' {
        (Some(SpecToken::Minus), 1)
    } else if i < s.len() && s[i] == '|' {
        (Some(SpecToken::Pipe), 1)
    } else if i < s.len() && s[i] == '^' {
        (Some(SpecToken::Caret), 1)
    } else if i < s.len() && s[i] == '&' {
        (Some(SpecToken::Amp), 1)
    } else if i < s.len() && s[i] == '!' {
        (Some(SpecToken::Bang), 1)
    } else if i < s.len() && s[i] == '(' {
        (Some(SpecToken::LPar), 1)
    } else if i < s.len() && s[i] == ')' {
        (Some(SpecToken::RPar), 1)
    } else {
        (Option::None, 1)
    }
}

/// The token stream of a rule string from position `i` on, or `None` when
/// the text does not lex: a stray character, an unterminated quote, or an
/// integer literal too large for a thirty-two-bit value.
pub open spec fn spec_tokenize(s: Seq<char>, i: int) -> Option<Seq<SpecToken>>
    decreases clipped(s.len(), i),
{
    if i < 0 || i >= s.len() {
        Some(Seq::empty())
    } else if is_space(s[i]) {
        spec_tokenize(s, i + 1)
    } else if is_ident_start(s[i]) {
        let j = clamp_pos(ident_end(s, i + 1), i + 1, s.len());
        match spec_tokenize(s, j) {
            Option::None => Option::None,
            Option::Some(rest) => Some(seq![SpecToken::Name(s.subrange(i, j))] + rest),
        }
    } else if is_digit(s[i]) {
        let j = clamp_pos(digit_end(s, i + 1), i + 1, s.len());
        if dec_value(s.subrange(i, j)) > i32::MAX {
            Option::None
        } else {
            match spec_tokenize(s, j) {
                Option::None => Option::None,
                Option::Some(rest) => Some(
                    seq![SpecToken::Int(dec_value(s.subrange(i, j)) as i32)] + rest,
                ),
            }
        }
    } else if s[i] == '\'' {
        let q = find_quote(s, i + 1);
        if q == -1 {
            Option::None
        } else {
            let j = clamp_pos(q + 1, i + 1, s.len());
            match spec_tokenize(s, j) {
                Option::None => Option::None,
                Option::Some(rest) => Some(seq![SpecToken::Name(s.subrange(i + 1, j - 1))] + rest),
            }
        }
    } else {
        let (tok, used) = sym_token(s, i);
        match tok {
            Option::None => Option::None,
            Option::Some(t) => match spec_tokenize(s, i + used) {
                Option::None => Option::None,
                Option::Some(rest) => Some(seq![t] + rest),
            },
        }
    }
}

/// The infix operator a token stands for, if any.
pub open spec fn tok_infix_op(t: SpecToken) -> Option<InfixOp> {
    match t {
        SpecToken::EqEq => Some(InfixOp::Equal),
        SpecToken::Lt => Some(InfixOp::Lower),
        SpecToken::Gt => Some(InfixOp::Greater),
        SpecToken::Le => Some(InfixOp::LowEq),
        SpecToken::Ge => Some(InfixOp::GreatEq),
        SpecToken::Plus => Some(InfixOp::Add),
        SpecToken::Minus => Some(InfixOp::Sub),
        SpecToken::FatArrow => Some(InfixOp::Implies),
        SpecToken::Equiv => Some(InfixOp::Equiv),
        SpecToken::Pipe => Some(InfixOp::Or),
        SpecToken::Caret => Some(InfixOp::Xor),
        SpecToken::Amp => Some(InfixOp::And),
        _ => Option::None,
    }
}

/// The precedence of a binary operator, lowest first.
pub open spec fn prec(op: InfixOp) -> u32 {
    match op {
        InfixOp::Equal => 1,
        InfixOp::Lower => 2,
        InfixOp::Greater => 2,
        InfixOp::LowEq => 2,
        InfixOp::GreatEq => 2,
        InfixOp::Add => 3,
        InfixOp::Sub => 3,
        InfixOp::Implies => 4,
        InfixOp::Equiv => 5,
        InfixOp::Or => 6,
        InfixOp::Xor => 7,
        InfixOp::And => 8,
    }
}

/// Parses one unary expression at `i`: a literal, a prefix operator
/// applied to a unary expression, or a parenthesized expression.
pub open spec fn sp_unary(toks: Seq<SpecToken>, i: int) -> Option<(SpecExpr, int)>
    decreases clipped(toks.len(), i), 1int,
{
    if i < 0 || i >= toks.len() {
        Option::None
    } else {
        match toks[i] {
            SpecToken::Name(s) => Some((SpecExpr::Feat(s), i + 1)),
            SpecToken::Int(v) => Some((SpecExpr::IntLit(v), i + 1)),
            SpecToken::Bang => match sp_unary(toks, i + 1) {
                Option::None => Option::None,
                Option::Some((e, j)) => Some(
                    (SpecExpr::Prefix { op: PrefixOp::Not, rhs: Box::new(e) }, j),
                ),
            },
            SpecToken::Minus => match sp_unary(toks, i + 1) {
                Option::None => Option::None,
                Option::Some((e, j)) => Some(
                    (SpecExpr::Prefix { op: PrefixOp::Neg, rhs: Box::new(e) }, j),
                ),
            },
            SpecToken::LPar => match sp_climb(toks, i + 1, 1) {
                Option::None => Option::None,
                Option::Some((e, j)) => if 0 <= j < toks.len() && toks[j] is RPar {
                    Some((e, j + 1))
                } else {
                    Option::None
                },
            },
            _ => Option::None,
        }
    }
}

/// Parses a full expression at `i` whose binary operators all have
/// precedence at least `min_prec`.
pub open spec fn sp_climb(toks: Seq<SpecToken>, i: int, min_prec: u32) -> Option<(SpecExpr, int)>
    decreases clipped(toks.len(), i), 2int,
{
    match sp_unary(toks, i) {
        Option::None => Option::None,
        Option::Some((e, j)) => sp_rest(toks, e, clamp_pos(j, i + 1, toks.len()), min_prec),
    }
}

/// Folds binary operators of precedence at least `min_prec` onto `lhs`,
/// left-associatively.
pub open spec fn sp_rest(toks: Seq<SpecToken>, lhs: SpecExpr, i: int, min_prec: u32) -> Option<
    (SpecExpr, int),
>
    decreases clipped(toks.len(), i), 0int,
{
    if i < 0 || i >= toks.len() {
        Some((lhs, i))
    } else {
        match tok_infix_op(toks[i]) {
            Option::None => Some((lhs, i)),
            Option::Some(op) => if prec(op) >= min_prec {
                match sp_climb(toks, i + 1, (prec(op) + 1) as u32) {
                    Option::None => Option::None,
                    Option::Some((rhs, k)) => sp_rest(
                        toks,
                        SpecExpr::Infix { lhs: Box::new(lhs), op, rhs: Box::new(rhs) },
                        clamp_pos(k, i + 1, toks.len()),
                        min_prec,
                    ),
                }
            } else {
                Some((lhs, i))
            },
        }
    }
}

fn is_space_exec(c: char) -> (r: bool)
    ensures
        r == is_space(c),
{
    match c {
        ' ' | '\t' | '\n' | '\r' => true,
        _ => false,
    }
}

fn is_digit_exec(c: char) -> (r: bool)
    ensures
        r == is_digit(c),
{
    let u = c as u32;
    48 <= u && u <= 57
}

fn is_ident_start_exec(c: char) -> (r: bool)
    ensures
        r == is_ident_start(c),
{
    let u = c as u32;
    (97 <= u && u <= 122) || (65 <= u && u <= 90) || u == 95
}

fn is_ident_char_exec(c: char) -> (r: bool)
    ensures
        r == is_ident_char(c),
{
    is_ident_start_exec(c) || is_digit_exec(c)
}

/// Digits are worth no less than any of their prefixes.
proof fn lemma_dec_prefix(s: Seq<char>, a: int, m: int, b: int)
    requires
        0 <= a <= m <= b <= s.len(),
        forall|k: int| a <= k < b ==> is_digit(#[trigger] s[k]),
    ensures
        0 <= dec_value(s.subrange(a, m)) <= dec_value(s.subrange(a, b)),
    decreases b - m,
{
    if m == b {
        lemma_dec_nonneg(s, a, m);
    } else {
        lemma_dec_prefix(s, a, m, b - 1);
        lemma_dec_nonneg(s, a, b - 1);
        assert(s.subrange(a, b).drop_last() =~= s.subrange(a, b - 1));
        assert(s.subrange(a, b).last() == s[b - 1]);
        assert(is_digit(s[b - 1]));
    }
}

proof fn lemma_dec_nonneg(s: Seq<char>, a: int, m: int)
    requires
        0 <= a <= m <= s.len(),
        forall|k: int| a <= k < m ==> is_digit(#[trigger] s[k]),
    ensures
        dec_value(s.subrange(a, m)) >= 0,
    decreases m - a,
{
    if m > a {
        lemma_dec_nonneg(s, a, m - 1);
        assert(s.subrange(a, m).drop_last() =~= s.subrange(a, m - 1));
        assert(is_digit(s[m - 1]));
    }
}

/// Splits the rule string into tokens; an `Err` reports a character that
/// belongs to no token, an unterminated quote, or an oversized integer.
pub fn tokenize(input: &str) -> (r: Result<Vec<Token>, String>)
    ensures
        match r {
            Result::Ok(v) => spec_tokenize(input@, 0) == Some(tok_views(v@)),
            Result::Err(_) => spec_tokenize(input@, 0) is None,
        },
{
    let n = input.unicode_len();
    let mut v: Vec<Token> = Vec::new();
    let mut i: usize = 0;
    while i < n
        invariant
            n == input@.len(),
            i <= n,
            match spec_tokenize(input@, i as int) {
                Option::Some(rest) => spec_tokenize(input@, 0) == Some(tok_views(v@) + rest),
                Option::None => spec_tokenize(input@, 0) is None,
            },
        decreases n - i,
    {
        let ghost s = input@;
        let c = input.get_char(i);
        if is_space_exec(c) {
            i += 1;
        } else if is_ident_start_exec(c) {
            let mut j = i + 1;
            while j < n && is_ident_char_exec(input.get_char(j))
                invariant
                    i < j <= n,
                    n == input@.len(),
                    ident_end(input@, i + 1) == ident_end(input@, j as int),
                decreases n - j,
            {
                j += 1;
            }
            assert(ident_end(s, j as int) == j);
            proof {
                lemma_ident_end_bounds(s, i + 1);
            }
            let name = input.substring_char(i, j).to_owned();
            let ghost tok = SpecToken::Name(s.subrange(i as int, j as int));
            proof {
                step_push(s, i as int, j as int, tok, v@);
            }
            v.push(Token::Name(name));
            assert(tok_views(v@) =~= tok_views(v@.drop_last()).push(tok));
            i = j;
        } else if is_digit_exec(c) {
            let mut j = i + 1;
            while j < n && is_digit_exec(input.get_char(j))
                invariant
                    i < j <= n,
                    n == input@.len(),
                    digit_end(input@, i + 1) == digit_end(input@, j as int),
                decreases n - j,
            {
                j += 1;
            }
            assert(digit_end(s, j as int) == j);
            proof {
                lemma_digit_end_bounds(s, i + 1);
                lemma_digit_scan(s, i + 1, j as int);
            }
            assert(forall|k: int| i <= k < j ==> is_digit(#[trigger] s[k]));
            let mut value: u64 = 0;
            let mut k = i;
            let mut overflow = false;
            while k < j && !overflow
                invariant
                    i <= k <= j <= n,
                    n == input@.len(),
                    forall|t: int| i <= t < j ==> is_digit(#[trigger] input@[t]),
                    !overflow ==> value == dec_value(input@.subrange(i as int, k as int))
                        && value <= 2147483647,
                    overflow ==> dec_value(input@.subrange(i as int, k as int)) > 2147483647,
                decreases j - k,
            {
                let d = (input.get_char(k) as u32) as u64 - 48;
                assert(d <= 9);
                assert(value * 10 + d <= 21474836479);
                value = value * 10 + d;
                assert(input@.subrange(i as int, k + 1).drop_last() =~= input@.subrange(
                    i as int,
                    k as int,
                ));
                assert(value == dec_value(input@.subrange(i as int, k + 1)));
                k += 1;
                if value > 2147483647 {
                    overflow = true;
                }
            }
            if overflow {
                proof {
                    lemma_dec_prefix(s, i as int, k as int, j as int);
                }
                return Err("integer literal does not fit in 32 bits".to_owned());
            }
            let ghost tok = SpecToken::Int(dec_value(s.subrange(i as int, j as int)) as i32);
            proof {
                step_push(s, i as int, j as int, tok, v@);
            }
            v.push(Token::Int(value as i32));
            assert(tok_views(v@) =~= tok_views(v@.drop_last()).push(tok));
            i = j;
        } else if c == '\'' {
            let mut j = i + 1;
            while j < n && input.get_char(j) != '\''
                invariant
                    i < j <= n,
                    n == input@.len(),
                    find_quote(input@, i + 1) == find_quote(input@, j as int),
                decreases n - j,
            {
                j += 1;
            }
            if j == n {
                assert(find_quote(s, j as int) == -1);
                return Err("unterminated quoted feature name".to_owned());
            }
            assert(find_quote(s, j as int) == j);
            proof {
                lemma_find_quote_bounds(s, i + 1);
            }
            let name = input.substring_char(i + 1, j).to_owned();
            let ghost tok = SpecToken::Name(s.subrange(i + 1, j as int));
            proof {
                step_push(s, i as int, j + 1, tok, v@);
            }
            v.push(Token::Name(name));
            assert(tok_views(v@) =~= tok_views(v@.drop_last()).push(tok));
            i = j + 1;
        } else {
            let (tok, used) = match c {
                '<' => {
                    if n - i > 2 && input.get_char(i + 1) == '=' && input.get_char(i + 2) == '>' {
                        (Token::Equiv, 3usize)
                    } else if n - i > 1 && input.get_char(i + 1) == '=' {
                        (Token::Le, 2)
                    } else {
                        (Token::Lt, 1)
                    }
                },
                '>' => {
                    if n - i > 1 && input.get_char(i + 1) == '=' {
                        (Token::Ge, 2)
                    } else {
                        (Token::Gt, 1)
                    }
                },
                '=' => {
                    if n - i > 1 && input.get_char(i + 1) == '=' {
                        (Token::EqEq, 2)
                    } else if n - i > 1 && input.get_char(i + 1) == '>' {
                        (Token::FatArrow, 2)
                    } else {
                        return Err("unexpected character in rule".to_owned());
                    }
                },
                '+' => (Token::Plus, 1),
                '-' => (Token::Minus, 1),
                '|' => (Token::Pipe, 1),
                '^' => (Token::Caret, 1),
                '&' => (Token::Amp, 1),
                '!' => (Token::Bang, 1),
                '(' => (Token::LPar, 1),
                ')' => (Token::RPar, 1),
                _ => {
                    return Err("unexpected character in rule".to_owned());
                },
            };
            assert(sym_token(s, i as int) == (Some(tok@), used as int));
            proof {
                step_push(s, i as int, i + used, tok@, v@);
            }
            v.push(tok);
            assert(tok_views(v@) =~= tok_views(v@.drop_last()).push(tok@));
            i += used;
        }
    }
    assert(spec_tokenize(input@, i as int) == Some(Seq::<SpecToken>::empty()));
    assert(tok_views(v@) + Seq::<SpecToken>::empty() =~= tok_views(v@));
    Ok(v)
}

/// One step of the tokenizer: if the text from `i` lexes into `tok`
/// followed by the stream from `j`, then appending `tok` keeps the
/// overall correspondence.
proof fn step_push(s: Seq<char>, i: int, j: int, tok: SpecToken, done: Seq<Token>)
    requires
        spec_tokenize(s, i) == match spec_tokenize(s, j) {
            Option::None => Option::None::<Seq<SpecToken>>,
            Option::Some(rest) => Some(seq![tok] + rest),
        },
        match spec_tokenize(s, i) {
            Option::Some(rest) => spec_tokenize(s, 0) == Some(tok_views(done) + rest),
            Option::None => spec_tokenize(s, 0) is None,
        },
    ensures
        match spec_tokenize(s, j) {
            Option::Some(rest) => spec_tokenize(s, 0) == Some(tok_views(done).push(tok) + rest),
            Option::None => spec_tokenize(s, 0) is None,
        },
{
    match spec_tokenize(s, j) {
        Option::None => {},
        Option::Some(rest) => {
            assert(tok_views(done) + (seq![tok] + rest) =~= tok_views(done).push(tok) + rest);
        },
    }
}

/// Every position scanned over by `digit_end` holds a digit.
proof fn lemma_digit_scan(s: Seq<char>, a: int, b: int)
    requires
        0 <= a <= b <= s.len(),
        digit_end(s, a) == b,
    ensures
        forall|k: int| a <= k < b ==> is_digit(#[trigger] s[k]),
    decreases b - a,
{
    if a < b {
        if !is_digit(s[a]) {
            assert(digit_end(s, a) == a);
        } else {
            assert(digit_end(s, a) == digit_end(s, a + 1));
            lemma_digit_scan(s, a + 1, b);
        }
    }
}

/// The expression a whole rule string denotes, or `None` when it does not
/// lex or parse.
pub open spec fn sp_parse_str(s: Seq<char>) -> Option<SpecExpr> {
    match spec_tokenize(s, 0) {
        Option::None => Option::None,
        Option::Some(toks) => match sp_climb(toks, 0, 1) {
            Option::None => Option::None,
            Option::Some((e, j)) => if j == toks.len() {
                Some(e)
            } else {
                Option::None
            },
        },
    }
}

fn tok_op(t: &Token) -> (r: Option<InfixOp>)
    ensures
        r == tok_infix_op(t@),
{
    match t {
        Token::EqEq => Some(InfixOp::Equal),
        Token::Lt => Some(InfixOp::Lower),
        Token::Gt => Some(InfixOp::Greater),
        Token::Le => Some(InfixOp::LowEq),
        Token::Ge => Some(InfixOp::GreatEq),
        Token::Plus => Some(InfixOp::Add),
        Token::Minus => Some(InfixOp::Sub),
        Token::FatArrow => Some(InfixOp::Implies),
        Token::Equiv => Some(InfixOp::Equiv),
        Token::Pipe => Some(InfixOp::Or),
        Token::Caret => Some(InfixOp::Xor),
        Token::Amp => Some(InfixOp::And),
        _ => None,
    }
}

fn op_prec(op: InfixOp) -> (r: u32)
    ensures
        r == prec(op),
{
    match op {
        InfixOp::Equal => 1,
        InfixOp::Lower => 2,
        InfixOp::Greater => 2,
        InfixOp::LowEq => 2,
        InfixOp::GreatEq => 2,
        InfixOp::Add => 3,
        InfixOp::Sub => 3,
        InfixOp::Implies => 4,
        InfixOp::Equiv => 5,
        InfixOp::Or => 6,
        InfixOp::Xor => 7,
        InfixOp::And => 8,
    }
}

/// A precedence-climbing parser over a token stream.
pub struct RuleParser {
    pub tokens: Vec<Token>,
}

impl RuleParser {
    pub fn new(tokens: Vec<Token>) -> (r: RuleParser)
        ensures
            r.tokens@ == tokens@,
    {
        RuleParser { tokens }
    }

    fn parse_unary(&self, i: usize) -> (r: Result<(Expr, usize), String>)
        requires
            i <= self.tokens@.len(),
        ensures
            match r {
                Result::Ok((e, j)) => sp_unary(tok_views(self.tokens@), i as int) == Some(
                    (expr_view(e), j as int),
                ) && i < j <= self.tokens@.len(),
                Result::Err(_) => sp_unary(tok_views(self.tokens@), i as int) is None,
            },
        decreases self.tokens@.len() - i, 1int,
    {
        let ghost toks = tok_views(self.tokens@);
        if i >= self.tokens.len() {
            return Err("unexpected end of rule".to_owned());
        }
        assert(toks[i as int] == self.tokens@[i as int]@);
        match &self.tokens[i] {
            Token::Name(s) => Ok((Expr::Literal(Literal::Feature(Feature(s.clone()))), i + 1)),
            Token::Int(v) => Ok((Expr::Literal(Literal::Integer(*v)), i + 1)),
            Token::Bang => {
                let (e, j) = match self.parse_unary(i + 1) {
                    Result::Ok(p) => p,
                    Result::Err(m) => {
                        return Err(m);
                    },
                };
                Ok((Expr::Prefix { op: PrefixOp::Not, rhs: Box::new(e) }, j))
            },
            Token::Minus => {
                let (e, j) = match self.parse_unary(i + 1) {
                    Result::Ok(p) => p,
                    Result::Err(m) => {
                        return Err(m);
                    },
                };
                Ok((Expr::Prefix { op: PrefixOp::Neg, rhs: Box::new(e) }, j))
            },
            Token::LPar => {
                let (e, j) = match self.parse_climb(i + 1, 1) {
                    Result::Ok(p) => p,
                    Result::Err(m) => {
                        return Err(m);
                    },
                };
                if j < self.tokens.len() && matches!(&self.tokens[j], Token::RPar) {
                    assert(toks[j as int] == self.tokens@[j as int]@);
                    Ok((e, j + 1))
                } else {
                    if j < self.tokens.len() {
                        assert(toks[j as int] == self.tokens@[j as int]@);
                    }
                    Err("expected a closing parenthesis".to_owned())
                }
            },
            _ => Err("expected a feature name, an integer or a parenthesis".to_owned()),
        }
    }

    fn parse_climb(&self, i: usize, min_prec: u32) -> (r: Result<(Expr, usize), String>)
        requires
            i <= self.tokens@.len(),
        ensures
            match r {
                Result::Ok((e, j)) => sp_climb(tok_views(self.tokens@), i as int, min_prec)
                    == Some((expr_view(e), j as int)) && i < j <= self.tokens@.len(),
                Result::Err(_) => sp_climb(tok_views(self.tokens@), i as int, min_prec) is None,
            },
        decreases self.tokens@.len() - i, 2int,
    {
        let (e, j) = match self.parse_unary(i) {
            Result::Ok(p) => p,
            Result::Err(m) => {
                return Err(m);
            },
        };
        assert(clamp_pos(j as int, i + 1, tok_views(self.tokens@).len()) == j as int);
        self.parse_rest(e, j, min_prec)
    }

    fn parse_rest(&self, lhs: Expr, i: usize, min_prec: u32) -> (r: Result<(Expr, usize), String>)
        requires
            0 < i <= self.tokens@.len(),
        ensures
            match r {
                Result::Ok((e, j)) => sp_rest(
                    tok_views(self.tokens@),
                    expr_view(lhs),
                    i as int,
                    min_prec,
                ) == Some((expr_view(e), j as int)) && i <= j <= self.tokens@.len(),
                Result::Err(_) => sp_rest(
                    tok_views(self.tokens@),
                    expr_view(lhs),
                    i as int,
                    min_prec,
                ) is None,
            },
        decreases self.tokens@.len() - i, 0int,
    {
        let ghost toks = tok_views(self.tokens@);
        if i >= self.tokens.len() {
            return Ok((lhs, i));
        }
        assert(toks[i as int] == self.tokens@[i as int]@);
        let op = match tok_op(&self.tokens[i]) {
            Option::Some(op) => op,
            Option::None => {
                return Ok((lhs, i));
            },
        };
        let p = op_prec(op);
        if p >= min_prec {
            let (rhs, k) = match self.parse_climb(i + 1, p + 1) {
                Result::Ok(pair) => pair,
                Result::Err(m) => {
                    return Err(m);
                },
            };
            assert(clamp_pos(k as int, i + 1, toks.len()) == k as int);
            let ghost glhs = expr_view(lhs);
            let ghost grhs = expr_view(rhs);
            let combined = lhs.infix(op, rhs);
            assert(expr_view(combined) == (SpecExpr::Infix {
                lhs: Box::new(glhs),
                op,
                rhs: Box::new(grhs),
            }));
            self.parse_rest(combined, k, min_prec)
        } else {
            Ok((lhs, i))
        }
    }
}

/// The token of each binary operator, as the rendering prints it.
pub open spec fn op_token(op: InfixOp) -> SpecToken {
    match op {
        InfixOp::Equal => SpecToken::EqEq,
        InfixOp::Lower => SpecToken::Lt,
        InfixOp::Greater => SpecToken::Gt,
        InfixOp::LowEq => SpecToken::Le,
        InfixOp::GreatEq => SpecToken::Ge,
        InfixOp::Add => SpecToken::Plus,
        InfixOp::Sub => SpecToken::Minus,
        InfixOp::Implies => SpecToken::FatArrow,
        InfixOp::Equiv => SpecToken::Equiv,
        InfixOp::Or => SpecToken::Pipe,
        InfixOp::Xor => SpecToken::Caret,
        InfixOp::And => SpecToken::Amp,
    }
}

/// The token of each unary operator.
pub open spec fn prefix_token(op: PrefixOp) -> SpecToken {
    match op {
        PrefixOp::Not => SpecToken::Bang,
        PrefixOp::Neg => SpecToken::Minus,
    }
}

/// The token stream the plain rendering of an expression produces, with
/// subexpressions under a binary operator parenthesized when they are
/// binary themselves — the token-level shape of `render`.
pub open spec fn full_tokens(e: SpecExpr) -> Seq<SpecToken>
    decreases e, 0nat,
{
    match e {
        SpecExpr::Feat(n) => seq![SpecToken::Name(n)],
        SpecExpr::IntLit(i) => seq![SpecToken::Int(i)],
        SpecExpr::Infix { lhs, op, rhs } => inside_tokens(*lhs) + seq![op_token(op)]
            + inside_tokens(*rhs),
        SpecExpr::Prefix { op, rhs } => seq![prefix_token(op)] + inside_tokens(*rhs),
    }
}

/// The token stream of a subexpression: parenthesized if binary.
pub open spec fn inside_tokens(e: SpecExpr) -> Seq<SpecToken>
    decreases e, 1nat,
{
    match e {
        SpecExpr::Infix { .. } => seq![SpecToken::LPar] + full_tokens(e) + seq![SpecToken::RPar],
        _ => full_tokens(e),
    }
}

/// Every rendering holds at least one token.
pub proof fn lemma_tokens_nonempty(e: SpecExpr)
    ensures
        full_tokens(e).len() >= 1,
        inside_tokens(e).len() >= 1,
    decreases e,
{
    match e {
        SpecExpr::Infix { lhs, op, rhs } => {
            lemma_tokens_nonempty(*lhs);
        },
        _ => {},
    }
}

/// When the rendering is followed by nothing an operator could continue,
/// the top binary operator of the expression is the last one folded.
pub open spec fn top_prec_admits(e: SpecExpr, min_prec: u32) -> bool {
    match e {
        SpecExpr::Infix { lhs: _, op, rhs: _ } => min_prec <= prec(op),
        _ => true,
    }
}

/// A stretch of tokens that holds the parenthesized rendering of an
/// expression parses as one unary expression: exactly that expression,
/// ending right after the stretch.
pub proof fn lemma_unary_roundtrip(toks: Seq<SpecToken>, i: int, e: SpecExpr)
    requires
        0 <= i,
        i + inside_tokens(e).len() <= toks.len(),
        toks.subrange(i, i + inside_tokens(e).len()) == inside_tokens(e),
    ensures
        sp_unary(toks, i) == Some((e, i + inside_tokens(e).len())),
    decreases e, (if e is Infix {
        1int
    } else {
        0int
    }),
{
    let inside = inside_tokens(e);
    assert(toks[i] == inside[0]) by {
        assert(toks.subrange(i, i + inside.len())[0] == toks[i]);
    }
    match e {
        SpecExpr::Feat(n) => {
            assert(inside =~= seq![SpecToken::Name(n)]);
            assert(toks[i] == SpecToken::Name(n));
        },
        SpecExpr::IntLit(v) => {
            assert(inside =~= seq![SpecToken::Int(v)]);
            assert(toks[i] == SpecToken::Int(v));
        },
        SpecExpr::Prefix { op, rhs } => {
            assert(inside =~= seq![prefix_token(op)] + inside_tokens(*rhs));
            assert(toks[i] == prefix_token(op));
            lemma_tokens_nonempty(*rhs);
            assert(toks.subrange(i + 1, i + 1 + inside_tokens(*rhs).len()) =~= inside_tokens(
                *rhs,
            )) by {
                assert forall|k: int| 0 <= k < inside_tokens(*rhs).len() implies toks.subrange(
                    i + 1,
                    i + 1 + inside_tokens(*rhs).len(),
                )[k] == inside_tokens(*rhs)[k] by {
                    assert(toks.subrange(i, i + inside.len())[k + 1] == inside[k + 1]);
                }
            }
            lemma_unary_roundtrip(toks, i + 1, *rhs);
            match op {
                PrefixOp::Not => {
                    assert(sp_unary(toks, i) == Some(
                        (
                            SpecExpr::Prefix { op: PrefixOp::Not, rhs: Box::new(*rhs) },
                            i + inside.len(),
                        ),
                    ));
                },
                PrefixOp::Neg => {
                    assert(sp_unary(toks, i) == Some(
                        (
                            SpecExpr::Prefix { op: PrefixOp::Neg, rhs: Box::new(*rhs) },
                            i + inside.len(),
                        ),
                    ));
                },
            }
            assert((SpecExpr::Prefix { op, rhs: Box::new(*rhs) }) == e);
        },
        SpecExpr::Infix { lhs, op, rhs } => {
            let body = full_tokens(e);
            assert(inside =~= seq![SpecToken::LPar] + body + seq![SpecToken::RPar]);
            assert(toks[i] == SpecToken::LPar);
            lemma_tokens_nonempty(e);
            assert(toks.subrange(i + 1, i + 1 + body.len()) =~= body) by {
                assert forall|k: int| 0 <= k < body.len() implies toks.subrange(
                    i + 1,
                    i + 1 + body.len(),
                )[k] == body[k] by {
                    assert(toks.subrange(i, i + inside.len())[k + 1] == inside[k + 1]);
                }
            }
            let jend = i + 1 + body.len();
            assert(toks[jend] == SpecToken::RPar) by {
                assert(toks.subrange(i, i + inside.len())[1 + body.len() as int] == inside[1
                    + body.len() as int]);
            }
            assert(tok_infix_op(SpecToken::RPar) is None);
            lemma_full_roundtrip(toks, i + 1, e, 1);
            assert(sp_climb(toks, i + 1, 1) == Some((e, jend)));
            assert(sp_unary(toks, i) == Some((e, jend + 1)));
            assert(jend + 1 == i + inside.len());
        },
    }
}

/// A stretch of tokens that holds the unparenthesized rendering of an
/// expression, followed by nothing that could extend it at the given
/// minimum precedence, parses back to exactly that expression.
pub proof fn lemma_full_roundtrip(toks: Seq<SpecToken>, i: int, e: SpecExpr, min_prec: u32)
    requires
        0 <= i,
        min_prec >= 1,
        top_prec_admits(e, min_prec),
        i + full_tokens(e).len() <= toks.len(),
        toks.subrange(i, i + full_tokens(e).len()) == full_tokens(e),
        ({
            let j = i + full_tokens(e).len();
            j >= toks.len() || tok_infix_op(toks[j]) is None || prec(
                tok_infix_op(toks[j])->Some_0,
            ) < min_prec
        }),
    ensures
        sp_climb(toks, i, min_prec) == Some((e, i + full_tokens(e).len())),
    decreases e, (if e is Infix {
        0int
    } else {
        1int
    }),
{
    let body = full_tokens(e);
    let jend = i + body.len();
    match e {
        SpecExpr::Infix { lhs, op, rhs } => {
            let left = inside_tokens(*lhs);
            let right = inside_tokens(*rhs);
            assert(body =~= left + seq![op_token(op)] + right);
            lemma_tokens_nonempty(*lhs);
            lemma_tokens_nonempty(*rhs);
            let j1 = i + left.len();
            assert(toks.subrange(i, i + left.len()) =~= left) by {
                assert forall|k: int| 0 <= k < left.len() implies toks.subrange(
                    i,
                    i + left.len(),
                )[k] == left[k] by {
                    assert(toks.subrange(i, i + body.len())[k] == body[k]);
                }
            }
            lemma_unary_roundtrip(toks, i, *lhs);
            assert(sp_unary(toks, i) == Some((*lhs, j1)));
            assert(clamp_pos(j1, i + 1, toks.len()) == j1);
            assert(toks[j1] == op_token(op)) by {
                assert(toks.subrange(i, i + body.len())[left.len() as int] == body[left.len()
                    as int]);
            }
            assert(tok_infix_op(op_token(op)) == Some(op));
            assert(prec(op) >= min_prec);
            // The right side parses as one unary expression, and nothing
            // after it continues at the raised precedence.
            assert(toks.subrange(j1 + 1, j1 + 1 + right.len()) =~= right) by {
                assert forall|k: int| 0 <= k < right.len() implies toks.subrange(
                    j1 + 1,
                    j1 + 1 + right.len(),
                )[k] == right[k] by {
                    assert(toks.subrange(i, i + body.len())[left.len() + 1 + k] == body[left.len()
                        + 1 + k]);
                }
            }
            lemma_unary_roundtrip(toks, j1 + 1, *rhs);
            let j2 = j1 + 1 + right.len();
            assert(j2 == jend);
            assert(sp_unary(toks, j1 + 1) == Some((*rhs, j2)));
            assert(clamp_pos(j2, j1 + 2, toks.len()) == j2);
            assert(sp_rest(toks, *rhs, j2, (prec(op) + 1) as u32) == Some((*rhs, j2))) by {
                if j2 < toks.len() {
                    match tok_infix_op(toks[j2]) {
                        Option::None => {},
                        Option::Some(after) => {
                            assert(prec(after) < min_prec);
                        },
                    }
                }
            }
            assert(sp_climb(toks, j1 + 1, (prec(op) + 1) as u32) == Some((*rhs, j2)));
            let combined = SpecExpr::Infix { lhs: Box::new(*lhs), op, rhs: Box::new(*rhs) };
            assert(combined == e);
            assert(sp_rest(toks, combined, clamp_pos(j2, j1 + 1, toks.len()), min_prec) == Some(
                (e, jend),
            )) by {
                assert(clamp_pos(j2, j1 + 1, toks.len()) == j2);
                if j2 < toks.len() {
                    match tok_infix_op(toks[j2]) {
                        Option::None => {},
                        Option::Some(after) => {
                            assert(prec(after) < min_prec);
                        },
                    }
                }
            }
            assert(sp_rest(toks, *lhs, j1, min_prec) == Some((e, jend)));
        },
        _ => {
            assert(inside_tokens(e) =~= body);
            lemma_unary_roundtrip(toks, i, e);
            assert(sp_unary(toks, i) == Some((e, jend)));
            lemma_tokens_nonempty(e);
            assert(clamp_pos(jend, i + 1, toks.len()) == jend);
            assert(sp_rest(toks, e, jend, min_prec) == Some((e, jend))) by {
                if jend < toks.len() {
                    match tok_infix_op(toks[jend]) {
                        Option::None => {},
                        Option::Some(after) => {
                            assert(prec(after) < min_prec);
                        },
                    }
                }
            }
        },
    }
}

/// Parsing the token rendering of any expression yields exactly that
/// expression: at the token level, the plain rendering and the parser are
/// inverse to each other, so a re-rendered expression keeps its meaning.
pub proof fn lemma_rendering_parses_back(e: SpecExpr)
    ensures
        sp_climb(full_tokens(e), 0, 1) == Some((e, full_tokens(e).len() as int)),
{
    assert(full_tokens(e).subrange(0, full_tokens(e).len() as int) =~= full_tokens(e));
    lemma_full_roundtrip(full_tokens(e), 0, e, 1);
}

/// A feature name the plain rendering can print unambiguously: a bare
/// identifier of the grammar.
pub open spec fn printable_name(n: Seq<char>) -> bool {
    &&& n.len() > 0
    &&& is_ident_start(n[0])
    &&& forall|k: int| 0 <= k < n.len() ==> is_ident_char(#[trigger] n[k])
}

/// An expression the plain rendering prints in re-parseable form: bare
/// identifier names and non-negative integer literals.
pub open spec fn printable(e: Expr) -> bool
    decreases e,
{
    match e {
        Expr::Literal(Literal::Feature(f)) => printable_name(f@),
        Expr::Literal(Literal::Integer(i)) => i >= 0,
        Expr::Infix { lhs, op, rhs } => printable(*lhs) && printable(*rhs),
        Expr::Prefix { op, rhs } => printable(*rhs),
    }
}

/// A position the rendering may stop at: the end, a space, or a closing
/// parenthesis — nothing that could extend the token before it.
pub open spec fn safe_follow(s: Seq<char>, j: int) -> bool {
    j == s.len() || s[j] == ' ' || s[j] == ')'
}

proof fn lemma_ident_end_at(s: Seq<char>, a: int, b: int)
    requires
        0 <= a <= b <= s.len(),
        forall|k: int| a <= k < b ==> is_ident_char(#[trigger] s[k]),
        b == s.len() || !is_ident_char(s[b]),
    ensures
        ident_end(s, a) == b,
    decreases b - a,
{
    if a < b {
        lemma_ident_end_at(s, a + 1, b);
    }
}

proof fn lemma_digit_end_at(s: Seq<char>, a: int, b: int)
    requires
        0 <= a <= b <= s.len(),
        forall|k: int| a <= k < b ==> is_digit(#[trigger] s[k]),
        b == s.len() || !is_digit(s[b]),
    ensures
        digit_end(s, a) == b,
    decreases b - a,
{
    if a < b {
        lemma_digit_end_at(s, a + 1, b);
    }
}

/// The decimal rendering of a number holds digits only and reads back as
/// that number.
proof fn lemma_dec_nat_roundtrip(v: nat)
    ensures
        dec_nat(v).len() >= 1,
        forall|k: int| 0 <= k < dec_nat(v).len() ==> is_digit(#[trigger] dec_nat(v)[k]),
        forall|k: int| 0 <= k < dec_nat(v).len() ==> !is_ident_start(#[trigger] dec_nat(v)[k]),
        dec_value(dec_nat(v)) == v,
    decreases v,
{
    if v < 10 {
        assert('0' as u32 == 48 && '9' as u32 == 57);
        assert(dec_nat(v) =~= seq![crate::strutil::dec_digit(v)]);
        assert(is_digit(crate::strutil::dec_digit(v)) && !is_ident_start(
            crate::strutil::dec_digit(v),
        ));
        assert(dec_nat(v).drop_last() =~= Seq::<char>::empty());
        assert(dec_value(Seq::<char>::empty()) == 0);
        assert(dec_value(dec_nat(v)) == v);
    } else {
        lemma_dec_nat_roundtrip(v / 10);
        let digit = crate::strutil::dec_digit(v % 10);
        assert(is_digit(digit) && !is_ident_start(digit));
        assert(dec_nat(v) =~= dec_nat(v / 10).push(digit));
        assert(dec_nat(v).drop_last() =~= dec_nat(v / 10));
        assert forall|k: int| 0 <= k < dec_nat(v).len() implies is_digit(#[trigger] dec_nat(v)[k])
            && !is_ident_start(dec_nat(v)[k]) by {
            if k < dec_nat(v).len() - 1 {
                assert(dec_nat(v)[k] == dec_nat(v / 10)[k]);
            }
        }
        assert(dec_value(dec_nat(v)) == dec_value(dec_nat(v / 10)) * 10 + (digit as u32 - 48));
        assert(digit as u32 - 48 == v % 10);
    }
}

/// At the symbol of a binary operator followed by a space, the tokenizer
/// takes exactly that operator's token.
proof fn lemma_sym_token_of_op(s: Seq<char>, i: int, op: InfixOp)
    requires
        0 <= i,
        i + infix_op_chars(op).len() < s.len(),
        s.subrange(i, i + infix_op_chars(op).len()) == infix_op_chars(op),
        s[i + infix_op_chars(op).len()] == ' ',
    ensures
        sym_token(s, i) == (Some(op_token(op)), infix_op_chars(op).len() as int),
        !is_space(s[i]),
        !is_ident_start(s[i]),
        !is_digit(s[i]),
        s[i] != '\'',
    decreases 0int,
{
    reveal_strlit("==");
    reveal_strlit("<");
    reveal_strlit(">");
    reveal_strlit("<=");
    reveal_strlit(">=");
    reveal_strlit("+");
    reveal_strlit("-");
    reveal_strlit("=>");
    reveal_strlit("<=>");
    reveal_strlit("|");
    reveal_strlit("^");
    reveal_strlit("&");
    let text = infix_op_chars(op);
    assert(s[i] == text[0]) by {
        assert(s.subrange(i, i + text.len())[0] == text[0]);
    }
    if text.len() >= 2 {
        assert(s[i + 1] == text[1]) by {
            assert(s.subrange(i, i + text.len())[1] == text[1]);
        }
    }
    if text.len() >= 3 {
        assert(s[i + 2] == text[2]) by {
            assert(s.subrange(i, i + text.len())[2] == text[2]);
        }
    }
    match op {
        InfixOp::Equal => {
            assert(s[i] == '=' && s[i + 1] == '=');
        },
        InfixOp::Lower => {
            assert(s[i] == '<');
            assert(s[i + 1] == ' ');
        },
        InfixOp::Greater => {
            assert(s[i] == '>');
            assert(s[i + 1] == ' ');
        },
        InfixOp::LowEq => {
            assert(s[i] == '<' && s[i + 1] == '=');
            assert(s[i + 2] == ' ');
        },
        InfixOp::GreatEq => {
            assert(s[i] == '>' && s[i + 1] == '=');
        },
        InfixOp::Add => {
            assert(s[i] == '+');
        },
        InfixOp::Sub => {
            assert(s[i] == '-');
        },
        InfixOp::Implies => {
            assert(s[i] == '=' && s[i + 1] == '>');
        },
        InfixOp::Equiv => {
            assert(s[i] == '<' && s[i + 1] == '=' && s[i + 2] == '>');
        },
        InfixOp::Or => {
            assert(s[i] == '|');
        },
        InfixOp::Xor => {
            assert(s[i] == '^');
        },
        InfixOp::And => {
            assert(s[i] == '&');
        },
    }
}

/// A rendering is never empty.
proof fn lemma_render_nonempty(e: Expr)
    requires
        printable(e),
    ensures
        render_chars(e).len() >= 1,
        inside_chars(e).len() >= 1,
    decreases e,
{
    match e {
        Expr::Literal(Literal::Feature(f)) => {},
        Expr::Literal(Literal::Integer(v)) => {
            lemma_dec_nat_roundtrip(v as nat);
        },
        Expr::Infix { lhs, op, rhs } => {
            lemma_render_nonempty(*lhs);
            reveal_strlit("(");
        },
        Expr::Prefix { op, rhs } => {
            reveal_strlit("!");
            reveal_strlit("-");
            match op {
                PrefixOp::Not => {},
                PrefixOp::Neg => {},
            }
        },
    }
}

/// One character of a stretch known through a subrange equality.
proof fn lemma_char_at(s: Seq<char>, i: int, whole: Seq<char>, off: int)
    requires
        0 <= i,
        i + whole.len() <= s.len(),
        s.subrange(i, i + whole.len()) == whole,
        0 <= off < whole.len(),
    ensures
        s[i + off] == whole[off],
{
    assert(s.subrange(i, i + whole.len())[off] == whole[off]);
}

/// A chunk of a stretch known through a subrange equality.
proof fn lemma_subrange_chunk(s: Seq<char>, i: int, whole: Seq<char>, off: int, part: Seq<char>)
    requires
        0 <= i,
        i + whole.len() <= s.len(),
        s.subrange(i, i + whole.len()) == whole,
        0 <= off,
        off + part.len() <= whole.len(),
        whole.subrange(off, off + part.len()) == part,
    ensures
        s.subrange(i + off, i + off + part.len()) == part,
{
    assert(s.subrange(i + off, i + off + part.len()) =~= part) by {
        assert forall|k: int| 0 <= k < part.len() implies s.subrange(
            i + off,
            i + off + part.len(),
        )[k] == part[k] by {
            assert(s.subrange(i, i + whole.len())[off + k] == whole[off + k]);
            assert(whole.subrange(off, off + part.len())[k] == part[k]);
        }
    }
}

/// Lexing a stretch that holds the parenthesized rendering of a printable
/// expression yields its tokens, then carries on after the stretch.
proof fn lemma_tokenize_inside(s: Seq<char>, i: int, e: Expr)
    requires
        printable(e),
        0 <= i,
        i + inside_chars(e).len() <= s.len(),
        s.subrange(i, i + inside_chars(e).len()) == inside_chars(e),
        safe_follow(s, i + inside_chars(e).len()),
    ensures
        spec_tokenize(s, i) == match spec_tokenize(s, i + inside_chars(e).len()) {
            Option::None => Option::None::<Seq<SpecToken>>,
            Option::Some(tr) => Some(inside_tokens(expr_view(e)) + tr),
        },
    decreases e, (if e is Infix {
        1int
    } else {
        0int
    }),
{
    let inside = inside_chars(e);
    let iend = i + inside.len();
    match e {
        Expr::Literal(Literal::Feature(f)) => {
            let n = f@.len() as int;
            assert(inside =~= f@);
            assert(forall|k: int| 0 <= k < n ==> s[i + k] == #[trigger] f@[k]) by {
                assert(forall|k: int|
                    0 <= k < n ==> s.subrange(i, i + inside.len())[k] == #[trigger] f@[k]);
            }
            assert(s[i + 0] == f@[0]);
            assert(!is_space(s[i]) && is_ident_start(s[i]));
            assert forall|k: int| i + 1 <= k < iend implies is_ident_char(#[trigger] s[k]) by {
                assert(s.subrange(i, i + inside.len())[k - i] == f@[k - i]);
                assert(is_ident_char(f@[k - i]));
            }
            assert(ident_end(s, i + 1) == iend) by {
                if iend < s.len() {
                    assert(s[iend] == ' ' || s[iend] == ')');
                    assert(!is_ident_char(s[iend]));
                }
                lemma_ident_end_at(s, i + 1, iend);
            }
            assert(clamp_pos(ident_end(s, i + 1), i + 1, s.len()) == iend);
            assert(s.subrange(i, iend) == f@);
            assert(inside_tokens(expr_view(e)) =~= seq![SpecToken::Name(f@)]);
        },
        Expr::Literal(Literal::Integer(v)) => {
            lemma_dec_nat_roundtrip(v as nat);
            let digits = dec_nat(v as nat);
            let n = digits.len() as int;
            assert(inside =~= digits);
            assert(forall|k: int| 0 <= k < n ==> s[i + k] == #[trigger] digits[k]) by {
                assert(forall|k: int|
                    0 <= k < n ==> s.subrange(i, i + inside.len())[k] == #[trigger] digits[k]);
            }
            assert(s[i + 0] == digits[0]);
            assert(!is_space(s[i]) && !is_ident_start(s[i]) && is_digit(s[i]));
            assert forall|k: int| i + 1 <= k < iend implies is_digit(#[trigger] s[k]) by {
                assert(s.subrange(i, i + inside.len())[k - i] == digits[k - i]);
                assert(is_digit(digits[k - i]));
            }
            assert(digit_end(s, i + 1) == iend) by {
                if iend < s.len() {
                    assert(s[iend] == ' ' || s[iend] == ')');
                    assert(!is_digit(s[iend]));
                }
                lemma_digit_end_at(s, i + 1, iend);
            }
            assert(clamp_pos(digit_end(s, i + 1), i + 1, s.len()) == iend);
            assert(s.subrange(i, iend) == digits);
            assert(dec_value(s.subrange(i, iend)) == v);
            assert(!(dec_value(s.subrange(i, iend)) > i32::MAX));
            assert(inside_tokens(expr_view(e)) =~= seq![SpecToken::Int(v)]);
        },
        Expr::Prefix { op, rhs } => {
            reveal_strlit("!");
            reveal_strlit("-");
            let optext = prefix_op_chars(op);
            assert(inside =~= optext + inside_chars(*rhs));
            lemma_char_at(s, i, inside, 0);
            match op {
                PrefixOp::Not => {
                    assert(s[i] == '!');
                },
                PrefixOp::Neg => {
                    assert(s[i] == '-');
                },
            }
            assert(!is_space(s[i]) && !is_ident_start(s[i]) && !is_digit(s[i]) && s[i] != '\'');
            assert(sym_token(s, i) == (Some(
                match op {
                    PrefixOp::Not => SpecToken::Bang,
                    PrefixOp::Neg => SpecToken::Minus,
                },
            ), 1int));
            assert(inside.subrange(1, 1 + inside_chars(*rhs).len() as int) =~= inside_chars(*rhs));
            lemma_subrange_chunk(s, i, inside, 1, inside_chars(*rhs));
            lemma_tokenize_inside(s, i + 1, *rhs);
            let ghost tail = spec_tokenize(s, iend);
            match tail {
                Option::None => {
                    assert(spec_tokenize(s, i + 1) is None);
                },
                Option::Some(tr) => {
                    assert(spec_tokenize(s, i + 1) == Some(inside_tokens(expr_view(*rhs)) + tr));
                    assert(seq![
                        match op {
                            PrefixOp::Not => SpecToken::Bang,
                            PrefixOp::Neg => SpecToken::Minus,
                        },
                    ] + (inside_tokens(expr_view(*rhs)) + tr) =~= inside_tokens(expr_view(e))
                        + tr);
                },
            }
        },
        Expr::Infix { lhs, op, rhs } => {
            reveal_strlit("(");
            reveal_strlit(")");
            let body = render_chars(e);
            assert(inside =~= "("@ + body + ")"@);
            lemma_char_at(s, i, inside, 0);
            assert(s[i] == '(');
            assert(!is_space(s[i]) && !is_ident_start(s[i]) && !is_digit(s[i]) && s[i] != '\'');
            assert(sym_token(s, i) == (Some(SpecToken::LPar), 1int));
            assert(inside.subrange(1, 1 + body.len() as int) =~= body);
            lemma_subrange_chunk(s, i, inside, 1, body);
            let jr = i + 1 + body.len();
            lemma_char_at(s, i, inside, 1 + body.len() as int);
            assert(s[jr] == ')');
            assert(safe_follow(s, jr));
            lemma_tokenize_render(s, i + 1, e);
            assert(!is_space(s[jr]) && !is_ident_start(s[jr]) && !is_digit(s[jr]) && s[jr]
                != '\'');
            assert(sym_token(s, jr) == (Some(SpecToken::RPar), 1int));
            let ghost tail = spec_tokenize(s, iend);
            match tail {
                Option::None => {
                    assert(spec_tokenize(s, jr) is None);
                    assert(spec_tokenize(s, i + 1) is None);
                },
                Option::Some(tr) => {
                    assert(spec_tokenize(s, jr) == Some(seq![SpecToken::RPar] + tr));
                    assert(spec_tokenize(s, i + 1) == Some(
                        full_tokens(expr_view(e)) + (seq![SpecToken::RPar] + tr),
                    ));
                    assert(seq![SpecToken::LPar] + (full_tokens(expr_view(e)) + (seq![
                        SpecToken::RPar,
                    ] + tr)) =~= inside_tokens(expr_view(e)) + tr);
                },
            }
        },
    }
}

/// Lexing a stretch that holds the plain rendering of a printable
/// expression yields its tokens, then carries on after the stretch.
proof fn lemma_tokenize_render(s: Seq<char>, i: int, e: Expr)
    requires
        printable(e),
        0 <= i,
        i + render_chars(e).len() <= s.len(),
        s.subrange(i, i + render_chars(e).len()) == render_chars(e),
        safe_follow(s, i + render_chars(e).len()),
    ensures
        spec_tokenize(s, i) == match spec_tokenize(s, i + render_chars(e).len()) {
            Option::None => Option::None::<Seq<SpecToken>>,
            Option::Some(tr) => Some(full_tokens(expr_view(e)) + tr),
        },
    decreases e, (if e is Infix {
        0int
    } else {
        1int
    }),
{
    let body = render_chars(e);
    let iend = i + body.len();
    match e {
        Expr::Infix { lhs, op, rhs } => {
            reveal_strlit(" ");
            let left = inside_chars(*lhs);
            let optext = infix_op_chars(op);
            let right = inside_chars(*rhs);
            assert(body =~= left + " "@ + optext + " "@ + right);
            lemma_render_nonempty(*lhs);
            lemma_render_nonempty(*rhs);
            let i1 = i + left.len();
            let i2 = i1 + 2 + optext.len();
            assert(body.subrange(0, left.len() as int) =~= left);
            lemma_subrange_chunk(s, i, body, 0, left);
            lemma_char_at(s, i, body, left.len() as int);
            assert(s[i1] == ' ');
            assert(safe_follow(s, i1));
            lemma_tokenize_inside(s, i, *lhs);
            assert(body.subrange(
                left.len() as int + 1,
                left.len() as int + 1 + optext.len(),
            ) =~= optext);
            lemma_subrange_chunk(s, i, body, left.len() as int + 1, optext);
            lemma_char_at(s, i, body, left.len() as int + 1 + optext.len());
            assert(s[i1 + 1 + optext.len()] == ' ');
            lemma_sym_token_of_op(s, i1 + 1, op);
            assert(body.subrange(
                left.len() as int + 2 + optext.len(),
                body.len() as int,
            ) =~= right);
            lemma_subrange_chunk(s, i, body, left.len() as int + 2 + optext.len(), right);
            assert(i2 + right.len() == iend);
            assert(safe_follow(s, i2 + right.len()));
            lemma_tokenize_inside(s, i2, *rhs);
            // Stitch the five steps together: left side, space, operator,
            // space, right side.
            assert(is_space(s[i1]));
            assert(spec_tokenize(s, i1) == spec_tokenize(s, i1 + 1));
            assert(is_space(s[i1 + 1 + optext.len()]));
            assert(spec_tokenize(s, i1 + 1 + optext.len()) == spec_tokenize(s, i2));
            let ghost tail = spec_tokenize(s, iend);
            match tail {
                Option::None => {
                    assert(spec_tokenize(s, i2) is None);
                    assert(spec_tokenize(s, i1 + 1) is None);
                    assert(spec_tokenize(s, i1) is None);
                    assert(spec_tokenize(s, i) is None);
                },
                Option::Some(tr) => {
                    assert(spec_tokenize(s, i2) == Some(inside_tokens(expr_view(*rhs)) + tr));
                    assert(spec_tokenize(s, i1 + 1) == Some(
                        seq![op_token(op)] + (inside_tokens(expr_view(*rhs)) + tr),
                    ));
                    assert(spec_tokenize(s, i) == Some(
                        inside_tokens(expr_view(*lhs)) + (seq![op_token(op)] + (inside_tokens(
                            expr_view(*rhs),
                        ) + tr)),
                    ));
                    assert(inside_tokens(expr_view(*lhs)) + (seq![op_token(op)] + (inside_tokens(
                        expr_view(*rhs),
                    ) + tr)) =~= full_tokens(expr_view(e)) + tr);
                },
            }
        },
        _ => {
            assert(inside_chars(e) =~= body);
            assert(inside_tokens(expr_view(e)) =~= full_tokens(expr_view(e)));
            lemma_tokenize_inside(s, i, e);
        },
    }
}

/// Parsing the plain rendering of an expression yields the expression
/// back, whenever the rendering is unambiguous: feature names that are
/// bare identifiers and non-negative integer literals. Together with the
/// token-level theorem this pins the whole round trip: lexing the
/// rendered text gives the expression's tokens, and parsing those gives
/// the expression.
pub proof fn lemma_render_parse_roundtrip(e: Expr)
    requires
        printable(e),
    ensures
        sp_parse_str(render_chars(e)) == Some(expr_view(e)),
{
    let s = render_chars(e);
    assert(s.subrange(0, s.len() as int) =~= s);
    assert(safe_follow(s, s.len() as int));
    lemma_tokenize_render(s, 0, e);
    assert(spec_tokenize(s, s.len() as int) == Some(Seq::<SpecToken>::empty()));
    assert(full_tokens(expr_view(e)) + Seq::<SpecToken>::empty() =~= full_tokens(expr_view(e)));
    assert(spec_tokenize(s, 0) == Some(full_tokens(expr_view(e))));
    lemma_rendering_parses_back(expr_view(e));
}

/// Parses one free-form rule string into an expression; errors report a
/// string that does not lex or does not follow the grammar.
pub fn parse_expr(input: &str) -> (r: Result<Expr, String>)
    ensures
        match r {
            Result::Ok(e) => sp_parse_str(input@) == Some(expr_view(e)),
            Result::Err(_) => sp_parse_str(input@) is None,
        },
{
    let tokens = match tokenize(input) {
        Result::Ok(t) => t,
        Result::Err(m) => {
            return Err(m);
        },
    };
    let parser = RuleParser::new(tokens);
    let n = parser.tokens.len();
    let (e, j) = match parser.parse_climb(0, 1) {
        Result::Ok(p) => p,
        Result::Err(m) => {
            return Err(m);
        },
    };
    if j == n {
        Ok(e)
    } else {
        Err("unexpected trailing tokens in rule".to_owned())
    }
}

} // verus!
