use vstd::prelude::*;
use crate::parsing::{Token, Lexeme, is_ident, lex, tokenize, tokens_ok, lemma_lex_ok};
use crate::types::{Prop, Sentence, views, nary};
use vstd::string::StringSliceAdditionalSpecFns;

verus! {

/// What the parser was looking for when it met an unexpected token.
#[derive(PartialEq, Eq, Structural, Clone, Copy, Debug)]
pub enum Expected {
    Atom,
    ParenR,
}

/// The kind of a parse failure.
#[derive(PartialEq, Eq, Structural, Clone, Copy, Debug)]
pub enum ErrorKind {
    UnexpectedToken { expected: Expected, found: Token },
    UnexpectedEnd,
    UnmatchedParen,
    UnexpectedClose,
    LexicalError,
    TrailingInput,
}

/// A parse failure and the byte span `[start, end)` it concerns.
#[derive(PartialEq, Eq, Structural, Clone, Copy, Debug)]
pub struct ParseError {
    pub kind: ErrorKind,
    pub start: usize,
    pub end: usize,
}

pub open spec fn err_at(kind: ErrorKind, t: Lexeme) -> ParseError {
    ParseError { kind, start: t.start, end: t.end }
}

/// The token at `i`, or an empty `Eof` past the end.
pub open spec fn at(ts: Seq<Lexeme>, i: int) -> Lexeme {
    if 0 <= i < ts.len() {
        ts[i]
    } else {
        Lexeme { kind: Token::Eof, start: 0, end: 0 }
    }
}

pub open spec fn ends_sentence(k: Token) -> bool {
    k == Token::Eof || k == Token::NewLine
}

pub open spec fn chars_of(s: Seq<u8>) -> Seq<char> {
    Seq::new(s.len(), |k: int| s[k] as char)
}

/// The text of token `t` in `b`.
pub open spec fn lexeme_text(b: Seq<u8>, t: Lexeme) -> Seq<char> {
    chars_of(b.subrange(t.start as int, t.end as int))
}

/// The atom an identifier stands for: the constants `true` and `false`, or a symbol.
pub open spec fn atom_of(name: Seq<char>) -> Prop {
    if name == seq!['t', 'r', 'u', 'e'] {
        Prop::True
    } else if name == seq!['f', 'a', 'l', 's', 'e'] {
        Prop::False
    } else {
        Prop::Symbol(name)
    }
}

/// The error for token `t` where an operand must start.
pub open spec fn atom_error(t: Lexeme) -> ParseError {
    match t.kind {
        Token::ParenR => err_at(ErrorKind::UnexpectedClose, t),
        Token::Eof => err_at(ErrorKind::UnexpectedEnd, t),
        Token::NewLine => err_at(ErrorKind::UnexpectedEnd, t),
        Token::Error => err_at(ErrorKind::LexicalError, t),
        _ => err_at(ErrorKind::UnexpectedToken { expected: Expected::Atom, found: t.kind }, t),
    }
}

/// The error for token `t` where the `)` closing the `(` at `open` must stand.
pub open spec fn close_error(open: Lexeme, t: Lexeme) -> ParseError {
    if ends_sentence(t.kind) {
        err_at(ErrorKind::UnmatchedParen, open)
    } else if t.kind == Token::Error {
        err_at(ErrorKind::LexicalError, t)
    } else {
        err_at(ErrorKind::UnexpectedToken { expected: Expected::ParenR, found: t.kind }, t)
    }
}

/// The error for token `t` that follows a complete sentence.
pub open spec fn trailing_error(t: Lexeme) -> ParseError {
    match t.kind {
        Token::ParenR => err_at(ErrorKind::UnexpectedClose, t),
        Token::Error => err_at(ErrorKind::LexicalError, t),
        _ => err_at(ErrorKind::TrailingInput, t),
    }
}

pub open spec fn past_end(ts: Seq<Lexeme>) -> ParseError {
    err_at(ErrorKind::UnexpectedEnd, at(ts, ts.len() - 1))
}

/// `atom := Symbol | "(" sentence ")"`, from token `i` on; the result carries the next position.
pub open spec fn p_atom(b: Seq<u8>, ts: Seq<Lexeme>, i: int) -> Result<(Prop, int), ParseError>
    decreases ts.len() - i, 1int,
{
    if !(0 <= i < ts.len()) {
        Err(past_end(ts))
    } else {
        let t = ts[i];
        if t.kind == Token::Symbol {
            Ok((atom_of(lexeme_text(b, t)), i + 1))
        } else if t.kind == Token::ParenL {
            match p_iff(b, ts, i + 1) {
                Err(e) => Err(e),
                Ok((p, r)) => {
                    if at(ts, r).kind == Token::ParenR {
                        Ok((p, r + 1))
                    } else {
                        Err(close_error(t, at(ts, r)))
                    }
                },
            }
        } else {
            Err(atom_error(t))
        }
    }
}

/// `not := "~" not | atom`
pub open spec fn p_not(b: Seq<u8>, ts: Seq<Lexeme>, i: int) -> Result<(Prop, int), ParseError>
    decreases ts.len() - i, 2int,
{
    if !(0 <= i < ts.len()) {
        Err(past_end(ts))
    } else if ts[i].kind == Token::Not {
        match p_not(b, ts, i + 1) {
            Err(e) => Err(e),
            Ok((p, r)) => Ok((Prop::Not(Box::new(p)), r)),
        }
    } else {
        p_atom(b, ts, i)
    }
}

/// `( "^" not )*` after the operands `acc`.
pub open spec fn p_and_rest(b: Seq<u8>, ts: Seq<Lexeme>, acc: Seq<Prop>, i: int) -> Result<(Seq<Prop>, int), ParseError>
    decreases ts.len() - i, 3int,
{
    if 0 <= i < ts.len() && ts[i].kind == Token::And {
        match p_not(b, ts, i + 1) {
            Err(e) => Err(e),
            Ok((q, r)) => if i < r <= ts.len() {
                p_and_rest(b, ts, acc.push(q), r)
            } else {
                Err(past_end(ts))
            },
        }
    } else {
        Ok((acc, i))
    }
}

/// `and := not ( "^" not )*`, flattened into one node.
pub open spec fn p_and(b: Seq<u8>, ts: Seq<Lexeme>, i: int) -> Result<(Prop, int), ParseError>
    decreases ts.len() - i, 4int,
{
    match p_not(b, ts, i) {
        Err(e) => Err(e),
        Ok((p, r)) => if 0 <= i <= r <= ts.len() {
            match p_and_rest(b, ts, seq![p], r) {
                Err(e) => Err(e),
                Ok((xs, r2)) => Ok((nary(true, xs), r2)),
            }
        } else {
            Err(past_end(ts))
        },
    }
}

/// `( "v" and )*` after the operands `acc`.
pub open spec fn p_or_rest(b: Seq<u8>, ts: Seq<Lexeme>, acc: Seq<Prop>, i: int) -> Result<(Seq<Prop>, int), ParseError>
    decreases ts.len() - i, 5int,
{
    if 0 <= i < ts.len() && ts[i].kind == Token::Or {
        match p_and(b, ts, i + 1) {
            Err(e) => Err(e),
            Ok((q, r)) => if i < r <= ts.len() {
                p_or_rest(b, ts, acc.push(q), r)
            } else {
                Err(past_end(ts))
            },
        }
    } else {
        Ok((acc, i))
    }
}

/// `or := and ( "v" and )*`, flattened into one node.
pub open spec fn p_or(b: Seq<u8>, ts: Seq<Lexeme>, i: int) -> Result<(Prop, int), ParseError>
    decreases ts.len() - i, 6int,
{
    match p_and(b, ts, i) {
        Err(e) => Err(e),
        Ok((p, r)) => if 0 <= i <= r <= ts.len() {
            match p_or_rest(b, ts, seq![p], r) {
                Err(e) => Err(e),
                Ok((xs, r2)) => Ok((nary(false, xs), r2)),
            }
        } else {
            Err(past_end(ts))
        },
    }
}

/// `imp := or ( "->" imp )?`, nesting to the right.
pub open spec fn p_imp(b: Seq<u8>, ts: Seq<Lexeme>, i: int) -> Result<(Prop, int), ParseError>
    decreases ts.len() - i, 7int,
{
    match p_or(b, ts, i) {
        Err(e) => Err(e),
        Ok((p, r)) => if 0 <= i <= r < ts.len() && ts[r].kind == Token::Imp {
            match p_imp(b, ts, r + 1) {
                Err(e) => Err(e),
                Ok((q, r2)) => Ok((Prop::Imp(Box::new(p), Box::new(q)), r2)),
            }
        } else {
            Ok((p, r))
        },
    }
}

/// `( "<=>" imp )*` after the left operand `acc`, nesting to the left.
pub open spec fn p_iff_rest(b: Seq<u8>, ts: Seq<Lexeme>, acc: Prop, i: int) -> Result<(Prop, int), ParseError>
    decreases ts.len() - i, 8int,
{
    if 0 <= i < ts.len() && ts[i].kind == Token::Iff {
        match p_imp(b, ts, i + 1) {
            Err(e) => Err(e),
            Ok((q, r)) => if i < r <= ts.len() {
                p_iff_rest(b, ts, Prop::Iff(Box::new(acc), Box::new(q)), r)
            } else {
                Err(past_end(ts))
            },
        }
    } else {
        Ok((acc, i))
    }
}

/// `sentence := imp ( "<=>" imp )*`
pub open spec fn p_iff(b: Seq<u8>, ts: Seq<Lexeme>, i: int) -> Result<(Prop, int), ParseError>
    decreases ts.len() - i, 9int,
{
    match p_imp(b, ts, i) {
        Err(e) => Err(e),
        Ok((p, r)) => if 0 <= i <= r <= ts.len() {
            p_iff_rest(b, ts, p, r)
        } else {
            Err(past_end(ts))
        },
    }
}

/// The sentence the tokens `ts` of `b` spell, up to the end of input or a new line.
pub open spec fn parse_tokens_spec(b: Seq<u8>, ts: Seq<Lexeme>) -> Result<Prop, ParseError> {
    match p_iff(b, ts, 0) {
        Err(e) => Err(e),
        Ok((p, r)) => if ends_sentence(at(ts, r).kind) {
            Ok(p)
        } else {
            Err(trailing_error(at(ts, r)))
        },
    }
}

/// The sentence the text `b` spells.
pub open spec fn parse_spec(b: Seq<u8>) -> Result<Prop, ParseError> {
    parse_tokens_spec(b, lex(b))
}


/// `r` is the outcome `res` describes, with the next position in `[lo, hi)`.
pub open spec fn agrees(res: Result<(Prop, int), ParseError>, r: Result<(Sentence, usize), ParseError>, lo: int, hi: int) -> bool {
    match r {
        Ok((s, j)) => res == Ok::<(Prop, int), ParseError>((s@, j as int)) && lo <= j < hi,
        Err(e) => res == Err::<(Prop, int), ParseError>(e),
    }
}

/// `r` is the outcome `res` describes, with the next position in `[lo, hi)`.
pub open spec fn agrees_list(res: Result<(Seq<Prop>, int), ParseError>, r: Result<(Vec<Sentence>, usize), ParseError>, lo: int, hi: int) -> bool {
    match r {
        Ok((v, j)) => res == Ok::<(Seq<Prop>, int), ParseError>((views(v@), j as int)) && lo <= j < hi,
        Err(e) => res == Err::<(Seq<Prop>, int), ParseError>(e),
    }
}

pub open spec fn all_ascii(v: Seq<u8>) -> bool {
    forall|k: int| 0 <= k < v.len() ==> v[k] < 128u8
}

/// Relies on String::from_utf8: ASCII bytes are valid UTF-8 and decode to one char each.
#[verifier::external_body]
fn string_from_ascii(v: Vec<u8>) -> (r: Option<String>)
    ensures
        all_ascii(v@) ==> r is Some && r->0@ == chars_of(v@),
{
    String::from_utf8(v).ok()
}

/// The atom spelled by the identifier token `t`.
fn atom_from(b: &[u8], t: Lexeme) -> (r: Sentence)
    requires
        t.start < t.end <= b@.len(),
        forall|j: int| t.start <= j < t.end ==> is_ident(#[trigger] b@[j]),
    ensures
        r@ == atom_of(lexeme_text(b@, t)),
{
    let mut v: Vec<u8> = Vec::new();
    let mut j: usize = t.start;
    while j < t.end
        invariant
            t.start <= j <= t.end <= b@.len(),
            v@ == b@.subrange(t.start as int, j as int),
        decreases t.end - j,
    {
        v.push(b[j]);
        j = j + 1;
        proof {
            assert(v@ =~= b@.subrange(t.start as int, j as int));
        }
    }
    let ghost text = lexeme_text(b@, t);
    assert(text == chars_of(v@));
    let n = v.len();
    if n == 4 && v[0] == 116u8 && v[1] == 114u8 && v[2] == 117u8 && v[3] == 101u8 {
        assert(text =~= seq!['t', 'r', 'u', 'e']);
        return Sentence::True;
    }
    if n == 5 && v[0] == 102u8 && v[1] == 97u8 && v[2] == 108u8 && v[3] == 115u8 && v[4] == 101u8 {
        assert(text =~= seq!['f', 'a', 'l', 's', 'e']);
        return Sentence::False;
    }
    proof {
        if text == seq!['t', 'r', 'u', 'e'] {
            assert(text[0] == 't' && text[1] == 'r' && text[2] == 'u' && text[3] == 'e');
        }
        if text == seq!['f', 'a', 'l', 's', 'e'] {
            assert(text[0] == 'f' && text[1] == 'a' && text[2] == 'l' && text[3] == 's' && text[4] == 'e');
        }
    }
    let s = string_from_ascii(v).unwrap();
    Sentence::Symbol(s)
}

fn atom_error_of(t: Lexeme) -> (r: ParseError)
    ensures
        r == atom_error(t),
{
    let kind = match t.kind {
        Token::ParenR => ErrorKind::UnexpectedClose,
        Token::Eof => ErrorKind::UnexpectedEnd,
        Token::NewLine => ErrorKind::UnexpectedEnd,
        Token::Error => ErrorKind::LexicalError,
        _ => ErrorKind::UnexpectedToken { expected: Expected::Atom, found: t.kind },
    };
    ParseError { kind, start: t.start, end: t.end }
}

fn close_error_of(open: Lexeme, t: Lexeme) -> (r: ParseError)
    ensures
        r == close_error(open, t),
{
    if t.kind == Token::Eof || t.kind == Token::NewLine {
        ParseError { kind: ErrorKind::UnmatchedParen, start: open.start, end: open.end }
    } else if t.kind == Token::Error {
        ParseError { kind: ErrorKind::LexicalError, start: t.start, end: t.end }
    } else {
        ParseError {
            kind: ErrorKind::UnexpectedToken { expected: Expected::ParenR, found: t.kind },
            start: t.start,
            end: t.end,
        }
    }
}

fn trailing_error_of(t: Lexeme) -> (r: ParseError)
    ensures
        r == trailing_error(t),
{
    let kind = match t.kind {
        Token::ParenR => ErrorKind::UnexpectedClose,
        Token::Error => ErrorKind::LexicalError,
        _ => ErrorKind::TrailingInput,
    };
    ParseError { kind, start: t.start, end: t.end }
}

fn parse_atom(b: &[u8], ts: &Vec<Lexeme>, i: usize) -> (r: Result<(Sentence, usize), ParseError>)
    requires
        tokens_ok(b@, ts@),
        i < ts@.len() <= usize::MAX,
    ensures
        agrees(p_atom(b@, ts@, i as int), r, i + 1, ts@.len() as int),
    decreases ts@.len() - i, 1int,
{
    let t = ts[i];
    if t.kind == Token::Symbol {
        Ok((atom_from(b, t), i + 1))
    } else if t.kind == Token::ParenL {
        match parse_iff(b, ts, i + 1) {
            Err(e) => Err(e),
            Ok((p, r)) => {
                let u = ts[r];
                if u.kind == Token::ParenR {
                    Ok((p, r + 1))
                } else {
                    Err(close_error_of(t, u))
                }
            },
        }
    } else {
        Err(atom_error_of(t))
    }
}

fn parse_not(b: &[u8], ts: &Vec<Lexeme>, i: usize) -> (r: Result<(Sentence, usize), ParseError>)
    requires
        tokens_ok(b@, ts@),
        i < ts@.len() <= usize::MAX,
    ensures
        agrees(p_not(b@, ts@, i as int), r, i + 1, ts@.len() as int),
    decreases ts@.len() - i, 2int,
{
    if ts[i].kind == Token::Not {
        match parse_not(b, ts, i + 1) {
            Err(e) => Err(e),
            Ok((p, r)) => Ok((Sentence::not(p), r)),
        }
    } else {
        parse_atom(b, ts, i)
    }
}

fn parse_and_rest(b: &[u8], ts: &Vec<Lexeme>, acc: Vec<Sentence>, i: usize) -> (r: Result<(Vec<Sentence>, usize), ParseError>)
    requires
        tokens_ok(b@, ts@),
        i < ts@.len() <= usize::MAX,
    ensures
        agrees_list(p_and_rest(b@, ts@, views(acc@), i as int), r, i as int, ts@.len() as int),
        r matches Ok((v, _)) ==> v@.len() >= acc@.len(),
    decreases ts@.len() - i, 3int,
{
    if ts[i].kind == Token::And {
        match parse_not(b, ts, i + 1) {
            Err(e) => Err(e),
            Ok((q, r)) => {
                let ghost a0 = acc@;
                let mut acc = acc;
                acc.push(q);
                proof {
                    assert(views(acc@) =~= views(a0).push(q@));
                }
                parse_and_rest(b, ts, acc, r)
            },
        }
    } else {
        Ok((acc, i))
    }
}

fn parse_and(b: &[u8], ts: &Vec<Lexeme>, i: usize) -> (r: Result<(Sentence, usize), ParseError>)
    requires
        tokens_ok(b@, ts@),
        i < ts@.len() <= usize::MAX,
    ensures
        agrees(p_and(b@, ts@, i as int), r, i + 1, ts@.len() as int),
    decreases ts@.len() - i, 4int,
{
    match parse_not(b, ts, i) {
        Err(e) => Err(e),
        Ok((p, r)) => {
            let ghost pv = p@;
            let v = vec![p];
            proof {
                assert(views(v@) =~= seq![pv]);
            }
            match parse_and_rest(b, ts, v, r) {
                Err(e) => Err(e),
                Ok((xs, r2)) => Ok((Sentence::join(true, xs), r2)),
            }
        },
    }
}

fn parse_or_rest(b: &[u8], ts: &Vec<Lexeme>, acc: Vec<Sentence>, i: usize) -> (r: Result<(Vec<Sentence>, usize), ParseError>)
    requires
        tokens_ok(b@, ts@),
        i < ts@.len() <= usize::MAX,
    ensures
        agrees_list(p_or_rest(b@, ts@, views(acc@), i as int), r, i as int, ts@.len() as int),
        r matches Ok((v, _)) ==> v@.len() >= acc@.len(),
    decreases ts@.len() - i, 5int,
{
    if ts[i].kind == Token::Or {
        match parse_and(b, ts, i + 1) {
            Err(e) => Err(e),
            Ok((q, r)) => {
                let ghost a0 = acc@;
                let mut acc = acc;
                acc.push(q);
                proof {
                    assert(views(acc@) =~= views(a0).push(q@));
                }
                parse_or_rest(b, ts, acc, r)
            },
        }
    } else {
        Ok((acc, i))
    }
}

fn parse_or(b: &[u8], ts: &Vec<Lexeme>, i: usize) -> (r: Result<(Sentence, usize), ParseError>)
    requires
        tokens_ok(b@, ts@),
        i < ts@.len() <= usize::MAX,
    ensures
        agrees(p_or(b@, ts@, i as int), r, i + 1, ts@.len() as int),
    decreases ts@.len() - i, 6int,
{
    match parse_and(b, ts, i) {
        Err(e) => Err(e),
        Ok((p, r)) => {
            let ghost pv = p@;
            let v = vec![p];
            proof {
                assert(views(v@) =~= seq![pv]);
            }
            match parse_or_rest(b, ts, v, r) {
                Err(e) => Err(e),
                Ok((xs, r2)) => Ok((Sentence::join(false, xs), r2)),
            }
        },
    }
}

fn parse_imp(b: &[u8], ts: &Vec<Lexeme>, i: usize) -> (r: Result<(Sentence, usize), ParseError>)
    requires
        tokens_ok(b@, ts@),
        i < ts@.len() <= usize::MAX,
    ensures
        agrees(p_imp(b@, ts@, i as int), r, i + 1, ts@.len() as int),
    decreases ts@.len() - i, 7int,
{
    match parse_or(b, ts, i) {
        Err(e) => Err(e),
        Ok((p, r)) => {
            if ts[r].kind == Token::Imp {
                match parse_imp(b, ts, r + 1) {
                    Err(e) => Err(e),
                    Ok((q, r2)) => Ok((Sentence::imp(p, q), r2)),
                }
            } else {
                Ok((p, r))
            }
        },
    }
}

fn parse_iff_rest(b: &[u8], ts: &Vec<Lexeme>, acc: Sentence, i: usize) -> (r: Result<(Sentence, usize), ParseError>)
    requires
        tokens_ok(b@, ts@),
        i < ts@.len() <= usize::MAX,
    ensures
        agrees(p_iff_rest(b@, ts@, acc@, i as int), r, i as int, ts@.len() as int),
    decreases ts@.len() - i, 8int,
{
    if ts[i].kind == Token::Iff {
        match parse_imp(b, ts, i + 1) {
            Err(e) => Err(e),
            Ok((q, r)) => parse_iff_rest(b, ts, Sentence::iff(acc, q), r),
        }
    } else {
        Ok((acc, i))
    }
}

fn parse_iff(b: &[u8], ts: &Vec<Lexeme>, i: usize) -> (r: Result<(Sentence, usize), ParseError>)
    requires
        tokens_ok(b@, ts@),
        i < ts@.len() <= usize::MAX,
    ensures
        agrees(p_iff(b@, ts@, i as int), r, i + 1, ts@.len() as int),
    decreases ts@.len() - i, 9int,
{
    match parse_imp(b, ts, i) {
        Err(e) => Err(e),
        Ok((p, r)) => parse_iff_rest(b, ts, p, r),
    }
}

/// Parses one sentence from the tokens `ts` of the text `b`.
pub fn parse_tokens(b: &[u8], ts: &Vec<Lexeme>) -> (r: Result<Sentence, ParseError>)
    requires
        tokens_ok(b@, ts@),
    ensures
        match r {
            Ok(s) => parse_tokens_spec(b@, ts@) == Ok::<Prop, ParseError>(s@),
            Err(e) => parse_tokens_spec(b@, ts@) == Err::<Prop, ParseError>(e),
        },
{
    let n = ts.len();
    assert(ts@.len() == n);
    match parse_iff(b, ts, 0) {
        Err(e) => Err(e),
        Ok((p, r)) => {
            let t = ts[r];
            if t.kind == Token::Eof || t.kind == Token::NewLine {
                Ok(p)
            } else {
                Err(trailing_error_of(t))
            }
        },
    }
}

/// Parses one sentence of `input`, up to its end or its first new line.
pub fn parse(input: &str) -> (r: Result<Sentence, ParseError>)
    ensures
        match r {
            Ok(s) => parse_spec(input.spec_bytes()) == Ok::<Prop, ParseError>(s@),
            Err(e) => parse_spec(input.spec_bytes()) == Err::<Prop, ParseError>(e),
        },
{
    let b = input.as_bytes();
    let n = b.len();
    proof {
        lemma_lex_ok(b@);
    }
    let ts = tokenize(b);
    parse_tokens(b, &ts)
}

} // verus!
