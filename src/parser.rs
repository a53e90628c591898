//! Parsing command lines into expression trees.
//!
//! Grammar (whitespace between tokens is insignificant):
//!
//! ```text
//! command := (identifier "=")? expr
//! expr    := term (("+" | "-") term)*
//! term    := power (("*" | "/") power)*
//! power   := atom ("^" power)?
//! atom    := number | identifier | "(" expr ")"
//! ```
//!
//! `+ - * /` group to the left and `^` groups to the right; `^` binds
//! tighter than `* /`, which bind tighter than `+ -`.

use vstd::prelude::*;

use crate::lexer::{lex, tokenize, tokens_view, Tk, Token, TokenKind};
use crate::syntax::{BinOp, Cmd, Command, Expr, Expression};

verus! {

/// A line that does not match the grammar; `position` is the character
/// offset of the offending token, or the line's length when the line ended
/// too early.
#[derive(Debug, PartialEq, Eq, Structural)]
pub struct SyntaxError {
    pub position: usize,
}

/// Outcome of parsing a phrase that starts at a token index: the tree and
/// the index just past it, or the index where parsing failed.
pub type Parsed = Result<(Expr, int), int>;

pub open spec fn op_in(t: Seq<(Tk, int)>, i: int, a: BinOp, b: BinOp) -> bool {
    &&& 0 <= i < t.len()
    &&& t[i].0 is Op
    &&& (t[i].0->Op_0 == a || t[i].0->Op_0 == b)
}

pub open spec fn bin(op: BinOp, l: Expr, r: Expr) -> Expr {
    Expr::Bin(op, Box::new(l), Box::new(r))
}

/// `atom := number | identifier | "(" expr ")"`
pub open spec fn p_atom(t: Seq<(Tk, int)>, i: int) -> Parsed
    decreases t.len() - i, 0int,
{
    if i < 0 || i >= t.len() {
        Err(i)
    } else {
        match t[i].0 {
            Tk::Num(s) => Ok((Expr::Num(s), i + 1)),
            Tk::Ident(s) => Ok((Expr::Var(s), i + 1)),
            Tk::LParen => match p_expr(t, i + 1) {
                Ok((e, j)) => if i < j < t.len() && t[j].0 is RParen {
                    Ok((e, j + 1))
                } else {
                    Err(j)
                },
                Err(p) => Err(p),
            },
            _ => Err(i),
        }
    }
}

/// `power := atom ("^" power)?`
pub open spec fn p_power(t: Seq<(Tk, int)>, i: int) -> Parsed
    decreases t.len() - i, 1int,
{
    match p_atom(t, i) {
        Ok((a, j)) => if 0 <= i < j <= t.len() {
            if op_in(t, j, BinOp::Power, BinOp::Power) {
                match p_power(t, j + 1) {
                    Ok((b, k)) => Ok((bin(BinOp::Power, a, b), k)),
                    Err(p) => Err(p),
                }
            } else {
                Ok((a, j))
            }
        } else {
            Err(j)
        },
        Err(p) => Err(p),
    }
}

/// The `(("*" | "/") power)*` tail of a term, folded to the left onto `acc`.
pub open spec fn p_term_rest(t: Seq<(Tk, int)>, acc: Expr, i: int) -> Parsed
    decreases t.len() - i, 2int,
{
    if op_in(t, i, BinOp::Multiply, BinOp::Divide) {
        match p_power(t, i + 1) {
            Ok((b, k)) => if i < k <= t.len() {
                p_term_rest(t, bin(t[i].0->Op_0, acc, b), k)
            } else {
                Err(k)
            },
            Err(p) => Err(p),
        }
    } else {
        Ok((acc, i))
    }
}

/// `term := power (("*" | "/") power)*`
pub open spec fn p_term(t: Seq<(Tk, int)>, i: int) -> Parsed
    decreases t.len() - i, 3int,
{
    match p_power(t, i) {
        Ok((a, j)) => if 0 <= i < j <= t.len() {
            p_term_rest(t, a, j)
        } else {
            Err(j)
        },
        Err(p) => Err(p),
    }
}

/// The `(("+" | "-") term)*` tail of an expression, folded to the left onto `acc`.
pub open spec fn p_expr_rest(t: Seq<(Tk, int)>, acc: Expr, i: int) -> Parsed
    decreases t.len() - i, 4int,
{
    if op_in(t, i, BinOp::Add, BinOp::Subtract) {
        match p_term(t, i + 1) {
            Ok((b, k)) => if i < k <= t.len() {
                p_expr_rest(t, bin(t[i].0->Op_0, acc, b), k)
            } else {
                Err(k)
            },
            Err(p) => Err(p),
        }
    } else {
        Ok((acc, i))
    }
}

/// `expr := term (("+" | "-") term)*`
pub open spec fn p_expr(t: Seq<(Tk, int)>, i: int) -> Parsed
    decreases t.len() - i, 5int,
{
    match p_term(t, i) {
        Ok((a, j)) => if 0 <= i < j <= t.len() {
            p_expr_rest(t, a, j)
        } else {
            Err(j)
        },
        Err(p) => Err(p),
    }
}

/// A command whose expression must end exactly at the last token.
pub open spec fn finish(target: Option<Seq<char>>, r: Parsed, n: int) -> Result<Cmd, int> {
    match r {
        Ok((e, j)) => if j == n {
            Ok(Cmd { target, expr: e })
        } else {
            Err(j)
        },
        Err(p) => Err(p),
    }
}

/// `command := (identifier "=")? expr`, over the whole token sequence.
pub open spec fn p_command(t: Seq<(Tk, int)>) -> Result<Cmd, int> {
    if t.len() >= 2 && t[0].0 is Ident && t[1].0 is Assign {
        finish(Some(t[0].0->Ident_0), p_expr(t, 2), t.len() as int)
    } else {
        finish(None, p_expr(t, 0), t.len() as int)
    }
}

/// Character offset of the token at index `k`, or `n` past the last token.
pub open spec fn offset_of(t: Seq<(Tk, int)>, k: int, n: int) -> int {
    if 0 <= k < t.len() {
        t[k].1
    } else {
        n
    }
}

/// What a line parses to: its command, or the character offset of the error.
pub open spec fn parse(line: Seq<char>) -> Result<Cmd, int> {
    match lex(line, 0) {
        Err(p) => Err(p),
        Ok(t) => match p_command(t) {
            Ok(c) => Ok(c),
            Err(k) => Err(offset_of(t, k, line.len() as int)),
        },
    }
}

pub open spec fn parsed_view(r: Result<(Expression, usize), usize>) -> Parsed {
    match r {
        Ok((e, j)) => Ok((e@, j as int)),
        Err(p) => Err(p as int),
    }
}

pub open spec fn advances(r: Result<(Expression, usize), usize>, i: usize, n: usize) -> bool {
    r is Ok ==> i < r->Ok_0.1 <= n
}

fn op_at(ts: &Vec<Token>, i: usize, a: BinOp, b: BinOp) -> (r: Option<BinOp>)
    ensures
        r is Some == op_in(tokens_view(ts@), i as int, a, b),
        r is Some ==> tokens_view(ts@)[i as int].0 == Tk::Op(r->Some_0),
{
    if i < ts.len() {
        match &ts[i].kind {
            TokenKind::Op(op) => {
                if *op == a || *op == b {
                    Some(*op)
                } else {
                    None
                }
            },
            _ => None,
        }
    } else {
        None
    }
}

fn parse_atom(ts: &Vec<Token>, i: usize) -> (r: Result<(Expression, usize), usize>)
    ensures
        parsed_view(r) == p_atom(tokens_view(ts@), i as int),
        advances(r, i, ts.len()),
    decreases ts.len() - i, 0int,
{
    let ghost t = tokens_view(ts@);
    if i >= ts.len() {
        return Err(i);
    }
    match &ts[i].kind {
        TokenKind::Num(s) => Ok((Expression::Num(s.clone()), i + 1)),
        TokenKind::Ident(s) => Ok((Expression::Variable(s.clone()), i + 1)),
        TokenKind::LParen => match parse_expr(ts, i + 1) {
            Ok((e, j)) => {
                if j < ts.len() && matches!(ts[j].kind, TokenKind::RParen) {
                    Ok((e, j + 1))
                } else {
                    Err(j)
                }
            },
            Err(p) => Err(p),
        },
        _ => Err(i),
    }
}

fn parse_power(ts: &Vec<Token>, i: usize) -> (r: Result<(Expression, usize), usize>)
    ensures
        parsed_view(r) == p_power(tokens_view(ts@), i as int),
        advances(r, i, ts.len()),
    decreases ts.len() - i, 1int,
{
    match parse_atom(ts, i) {
        Ok((a, j)) => {
            if op_at(ts, j, BinOp::Power, BinOp::Power).is_some() {
                match parse_power(ts, j + 1) {
                    Ok((b, k)) => Ok(
                        (Expression::BinOp { op: BinOp::Power, lhs: Box::new(a), rhs: Box::new(b) }, k),
                    ),
                    Err(p) => Err(p),
                }
            } else {
                Ok((a, j))
            }
        },
        Err(p) => Err(p),
    }
}

fn parse_term_rest(ts: &Vec<Token>, acc: Expression, i: usize) -> (r: Result<
    (Expression, usize),
    usize,
>)
    requires
        i <= ts.len(),
    ensures
        parsed_view(r) == p_term_rest(tokens_view(ts@), acc@, i as int),
        r is Ok ==> i <= r->Ok_0.1 <= ts.len(),
    decreases ts.len() - i, 2int,
{
    match op_at(ts, i, BinOp::Multiply, BinOp::Divide) {
        Some(op) => match parse_power(ts, i + 1) {
            Ok((b, k)) => parse_term_rest(
                ts,
                Expression::BinOp { op, lhs: Box::new(acc), rhs: Box::new(b) },
                k,
            ),
            Err(p) => Err(p),
        },
        None => Ok((acc, i)),
    }
}

fn parse_term(ts: &Vec<Token>, i: usize) -> (r: Result<(Expression, usize), usize>)
    ensures
        parsed_view(r) == p_term(tokens_view(ts@), i as int),
        advances(r, i, ts.len()),
    decreases ts.len() - i, 3int,
{
    match parse_power(ts, i) {
        Ok((a, j)) => parse_term_rest(ts, a, j),
        Err(p) => Err(p),
    }
}

fn parse_expr_rest(ts: &Vec<Token>, acc: Expression, i: usize) -> (r: Result<
    (Expression, usize),
    usize,
>)
    requires
        i <= ts.len(),
    ensures
        parsed_view(r) == p_expr_rest(tokens_view(ts@), acc@, i as int),
        r is Ok ==> i <= r->Ok_0.1 <= ts.len(),
    decreases ts.len() - i, 4int,
{
    match op_at(ts, i, BinOp::Add, BinOp::Subtract) {
        Some(op) => match parse_term(ts, i + 1) {
            Ok((b, k)) => parse_expr_rest(
                ts,
                Expression::BinOp { op, lhs: Box::new(acc), rhs: Box::new(b) },
                k,
            ),
            Err(p) => Err(p),
        },
        None => Ok((acc, i)),
    }
}

fn parse_expr(ts: &Vec<Token>, i: usize) -> (r: Result<(Expression, usize), usize>)
    ensures
        parsed_view(r) == p_expr(tokens_view(ts@), i as int),
        advances(r, i, ts.len()),
    decreases ts.len() - i, 5int,
{
    match parse_term(ts, i) {
        Ok((a, j)) => parse_expr_rest(ts, a, j),
        Err(p) => Err(p),
    }
}

/// Parses one command line.
///
/// Succeeds exactly when the line matches the grammar, with the command
/// that [`parse`] describes; otherwise the error carries the offset that
/// [`parse`] gives.
pub fn parse_command(line: &str) -> (r: Result<Command, SyntaxError>)
    ensures
        match r {
            Ok(c) => parse(line@) == Ok::<Cmd, int>(c@),
            Err(e) => parse(line@) == Err::<Cmd, int>(e.position as int),
        },
{
    let ts = match tokenize(line) {
        Ok(ts) => ts,
        Err(p) => {
            return Err(SyntaxError { position: p });
        },
    };
    let ghost t = tokens_view(ts@);
    let n = ts.len();
    let assign = n >= 2 && matches!(ts[0].kind, TokenKind::Ident(_)) && matches!(
        ts[1].kind,
        TokenKind::Assign
    );
    let (variable, outcome) = if assign {
        let name = match &ts[0].kind {
            TokenKind::Ident(s) => s.clone(),
            _ => String::new(),
        };
        (Some(name), parse_expr(&ts, 2))
    } else {
        (None, parse_expr(&ts, 0))
    };
    let line_len = line.unicode_len();
    match outcome {
        Ok((expression, j)) => {
            if j == n {
                Ok(Command { variable, expression })
            } else {
                Err(SyntaxError { position: ts[j].start })
            }
        },
        Err(k) => {
            if k < n {
                Err(SyntaxError { position: ts[k].start })
            } else {
                Err(SyntaxError { position: line_len })
            }
        },
    }
}

/// Parsing is a function of the line alone: two successful parses of the
/// same text give structurally identical commands.
pub proof fn lemma_parse_deterministic(line: Seq<char>, first: Cmd, second: Cmd)
    requires
        parse(line) == Ok::<Cmd, int>(first),
        parse(line) == Ok::<Cmd, int>(second),
    ensures
        first == second,
{
}

} // verus!
