//! Splitting a command line into tokens.

use vstd::prelude::*;

use crate::syntax::BinOp;
use crate::text::chars_of;

verus! {

/// A token as produced by [`tokenize`].
#[derive(Debug, PartialEq)]
pub enum TokenKind {
    /// A number: one or more digits, optionally followed by `.` and one or more digits.
    Num(String),
    /// An identifier: a letter or `_`, then letters, digits or `_`.
    Ident(String),
    /// One of `+ - * / ^`.
    Op(BinOp),
    /// `(`
    LParen,
    /// `)`
    RParen,
    /// `=`
    Assign,
}

/// A token and the character offset where it starts.
#[derive(Debug, PartialEq)]
pub struct Token {
    pub kind: TokenKind,
    pub start: usize,
}

/// Mathematical model of a [`TokenKind`].
pub enum Tk {
    Num(Seq<char>),
    Ident(Seq<char>),
    Op(BinOp),
    LParen,
    RParen,
    Assign,
}

impl View for TokenKind {
    type V = Tk;

    open spec fn view(&self) -> Tk {
        match self {
            TokenKind::Num(s) => Tk::Num(s@),
            TokenKind::Ident(s) => Tk::Ident(s@),
            TokenKind::Op(op) => Tk::Op(*op),
            TokenKind::LParen => Tk::LParen,
            TokenKind::RParen => Tk::RParen,
            TokenKind::Assign => Tk::Assign,
        }
    }
}

impl View for Token {
    type V = (Tk, int);

    open spec fn view(&self) -> (Tk, int) {
        (self.kind@, self.start as int)
    }
}

pub open spec fn is_digit(c: char) -> bool {
    '0' <= c && c <= '9'
}

pub open spec fn is_letter(c: char) -> bool {
    ('a' <= c && c <= 'z') || ('A' <= c && c <= 'Z') || c == '_'
}

pub open spec fn is_space(c: char) -> bool {
    c == ' ' || c == '\t'
}

/// The token that a one-character symbol stands for.
pub open spec fn symbol(c: char) -> Option<Tk> {
    if c == '+' {
        Some(Tk::Op(BinOp::Add))
    } else if c == '-' {
        Some(Tk::Op(BinOp::Subtract))
    } else if c == '*' {
        Some(Tk::Op(BinOp::Multiply))
    } else if c == '/' {
        Some(Tk::Op(BinOp::Divide))
    } else if c == '^' {
        Some(Tk::Op(BinOp::Power))
    } else if c == '(' {
        Some(Tk::LParen)
    } else if c == ')' {
        Some(Tk::RParen)
    } else if c == '=' {
        Some(Tk::Assign)
    } else {
        None
    }
}

/// End of the run of digits that starts at `i`.
pub open spec fn digits_end(s: Seq<char>, i: int) -> int
    decreases s.len() - i,
{
    if 0 <= i < s.len() && is_digit(s[i]) {
        digits_end(s, i + 1)
    } else {
        i
    }
}

/// End of the run of identifier characters that starts at `i`.
pub open spec fn word_end(s: Seq<char>, i: int) -> int
    decreases s.len() - i,
{
    if 0 <= i < s.len() && (is_letter(s[i]) || is_digit(s[i])) {
        word_end(s, i + 1)
    } else {
        i
    }
}

/// End of the number that starts at `i`: digits, then `.` and digits if a
/// digit follows the dot.
pub open spec fn number_end(s: Seq<char>, i: int) -> int {
    let j = digits_end(s, i);
    if j + 1 < s.len() && s[j] == '.' && is_digit(s[j + 1]) {
        digits_end(s, j + 1)
    } else {
        j
    }
}

proof fn lemma_digits_end(s: Seq<char>, i: int)
    requires
        0 <= i,
    ensures
        i <= digits_end(s, i),
        digits_end(s, i) <= if i < s.len() { s.len() as int } else { i },
    decreases s.len() - i,
{
    if 0 <= i < s.len() && is_digit(s[i]) {
        lemma_digits_end(s, i + 1);
    }
}

proof fn lemma_word_end(s: Seq<char>, i: int)
    requires
        0 <= i,
    ensures
        i <= word_end(s, i),
        word_end(s, i) <= if i < s.len() { s.len() as int } else { i },
    decreases s.len() - i,
{
    if 0 <= i < s.len() && (is_letter(s[i]) || is_digit(s[i])) {
        lemma_word_end(s, i + 1);
    }
}

/// Prepends one token to the outcome of lexing the rest.
pub open spec fn cons_tok(t: (Tk, int), rest: Result<Seq<(Tk, int)>, int>) -> Result<
    Seq<(Tk, int)>,
    int,
> {
    match rest {
        Ok(ts) => Ok(seq![t] + ts),
        Err(p) => Err(p),
    }
}

/// The tokens of `s` from offset `i` on, each with its start offset, or the
/// offset of the first character that starts no token.
pub open spec fn lex(s: Seq<char>, i: int) -> Result<Seq<(Tk, int)>, int>
    decreases s.len() - i,
    via lex_decreases
{
    if i < 0 || i >= s.len() {
        Ok(seq![])
    } else if is_space(s[i]) {
        lex(s, i + 1)
    } else if is_digit(s[i]) {
        let j = number_end(s, i);
        cons_tok((Tk::Num(s.subrange(i, j)), i), lex(s, j))
    } else if is_letter(s[i]) {
        let j = word_end(s, i + 1);
        cons_tok((Tk::Ident(s.subrange(i, j)), i), lex(s, j))
    } else {
        match symbol(s[i]) {
            Some(t) => cons_tok((t, i), lex(s, i + 1)),
            None => Err(i),
        }
    }
}

#[via_fn]
proof fn lex_decreases(s: Seq<char>, i: int) {
    if 0 <= i < s.len() {
        lemma_digits_end(s, i + 1);
        lemma_word_end(s, i + 1);
        let j = digits_end(s, i);
        lemma_digits_end(s, i);
        if j + 1 < s.len() {
            lemma_digits_end(s, j + 1);
        }
    }
}

fn digit(c: char) -> (r: bool)
    ensures
        r == is_digit(c),
{
    '0' <= c && c <= '9'
}

fn letter(c: char) -> (r: bool)
    ensures
        r == is_letter(c),
{
    ('a' <= c && c <= 'z') || ('A' <= c && c <= 'Z') || c == '_'
}

fn symbol_token(c: char) -> (r: Option<TokenKind>)
    ensures
        match r {
            Some(k) => symbol(c) == Some(k@),
            None => symbol(c) is None,
        },
{
    if c == '+' {
        Some(TokenKind::Op(BinOp::Add))
    } else if c == '-' {
        Some(TokenKind::Op(BinOp::Subtract))
    } else if c == '*' {
        Some(TokenKind::Op(BinOp::Multiply))
    } else if c == '/' {
        Some(TokenKind::Op(BinOp::Divide))
    } else if c == '^' {
        Some(TokenKind::Op(BinOp::Power))
    } else if c == '(' {
        Some(TokenKind::LParen)
    } else if c == ')' {
        Some(TokenKind::RParen)
    } else if c == '=' {
        Some(TokenKind::Assign)
    } else {
        None
    }
}

/// Offset just past the run of digits starting at `i`.
fn skip_digits(cs: &Vec<char>, i: usize) -> (r: usize)
    requires
        i <= cs.len(),
    ensures
        r as int == digits_end(cs@, i as int),
        i <= r <= cs.len(),
        i < cs.len() && is_digit(cs@[i as int]) ==> i < r,
{
    let mut j = i;
    while j < cs.len() && digit(cs[j])
        invariant
            i <= j <= cs.len(),
            digits_end(cs@, i as int) == digits_end(cs@, j as int),
        decreases cs.len() - j,
    {
        j += 1;
    }
    j
}

/// Offset just past the run of identifier characters starting at `i`.
fn skip_word(cs: &Vec<char>, i: usize) -> (r: usize)
    requires
        i <= cs.len(),
    ensures
        r as int == word_end(cs@, i as int),
        i <= r <= cs.len(),
{
    let mut j = i;
    while j < cs.len() && (letter(cs[j]) || digit(cs[j]))
        invariant
            i <= j <= cs.len(),
            word_end(cs@, i as int) == word_end(cs@, j as int),
        decreases cs.len() - j,
    {
        j += 1;
    }
    j
}

/// The characters `cs[from..to]` as a `String`.
fn slice_string(cs: &Vec<char>, from: usize, to: usize) -> (r: String)
    requires
        from <= to <= cs.len(),
    ensures
        r@ == cs@.subrange(from as int, to as int),
{
    let mut part: Vec<char> = Vec::new();
    let mut k = from;
    while k < to
        invariant
            from <= k <= to <= cs.len(),
            part@ == cs@.subrange(from as int, k as int),
        decreases to - k,
    {
        part.push(cs[k]);
        k += 1;
    }
    crate::text::string_of(&part)
}

/// `prefix` followed by the tokens of a successful outcome.
pub open spec fn after(prefix: Seq<(Tk, int)>, r: Result<Seq<(Tk, int)>, int>) -> Result<
    Seq<(Tk, int)>,
    int,
> {
    match r {
        Ok(ts) => Ok(prefix + ts),
        Err(p) => Err(p),
    }
}

proof fn lemma_after_cons(prefix: Seq<(Tk, int)>, t: (Tk, int), r: Result<Seq<(Tk, int)>, int>)
    ensures
        after(prefix, cons_tok(t, r)) == after(prefix.push(t), r),
{
    if let Ok(ts) = r {
        assert(prefix + (seq![t] + ts) =~= prefix.push(t) + ts);
    }
}

pub open spec fn tokens_view(ts: Seq<Token>) -> Seq<(Tk, int)> {
    ts.map_values(|t: Token| t@)
}

/// Splits `line` into tokens. Whitespace between tokens is skipped; a
/// character that starts no token is an error carrying its offset.
pub fn tokenize(line: &str) -> (r: Result<Vec<Token>, usize>)
    ensures
        match r {
            Ok(ts) => lex(line@, 0) == Ok::<Seq<(Tk, int)>, int>(tokens_view(ts@)),
            Err(p) => lex(line@, 0) == Err::<Seq<(Tk, int)>, int>(p as int),
        },
{
    let cs = chars_of(line);
    let n = cs.len();
    let mut out: Vec<Token> = Vec::new();
    let mut i: usize = 0;
    proof {
        assert(after(seq![], lex(cs@, 0)) == lex(cs@, 0)) by {
            if let Ok(ts) = lex(cs@, 0) {
                assert(Seq::<(Tk, int)>::empty() + ts =~= ts);
            }
        }
        assert(tokens_view(out@) =~= seq![]);
    }
    while i < n
        invariant
            n == cs.len(),
            cs@ == line@,
            i <= n,
            lex(cs@, 0) == after(tokens_view(out@), lex(cs@, i as int)),
        decreases n - i,
    {
        let c = cs[i];
        let ghost before = tokens_view(out@);
        if c == ' ' || c == '\t' {
            i += 1;
        } else if digit(c) {
            let mut j = skip_digits(&cs, i);
            if j < n && cs[j] == '.' && j + 1 < n && digit(cs[j + 1]) {
                j = skip_digits(&cs, j + 1);
            }
            let text = slice_string(&cs, i, j);
            let tok = Token { kind: TokenKind::Num(text), start: i };
            out.push(tok);
            proof {
                lemma_after_cons(before, tok@, lex(cs@, j as int));
                assert(tokens_view(out@) =~= before.push(tok@));
            }
            i = j;
        } else if letter(c) {
            let j = skip_word(&cs, i + 1);
            let text = slice_string(&cs, i, j);
            let tok = Token { kind: TokenKind::Ident(text), start: i };
            out.push(tok);
            proof {
                lemma_after_cons(before, tok@, lex(cs@, j as int));
                assert(tokens_view(out@) =~= before.push(tok@));
            }
            i = j;
        } else {
            match symbol_token(c) {
                Some(kind) => {
                    let tok = Token { kind, start: i };
                    out.push(tok);
                    proof {
                        lemma_after_cons(before, tok@, lex(cs@, i + 1));
                        assert(tokens_view(out@) =~= before.push(tok@));
                    }
                    i += 1;
                },
                None => {
                    return Err(i);
                },
            }
        }
    }
    assert(tokens_view(out@) + seq![] =~= tokens_view(out@));
    Ok(out)
}

} // verus!
