use vstd::prelude::*;

verus! {

/// Kind of a lexical token.
#[derive(PartialEq, Eq, Structural, Clone, Copy, Debug)]
pub enum Token {
    Error,
    Symbol,
    NewLine,
    Not,
    And,
    Or,
    Imp,
    Iff,
    ParenL,
    ParenR,
    Eof,
}

/// A token together with the byte span `[start, end)` it was read from.
#[derive(PartialEq, Eq, Structural, Clone, Copy, Debug)]
pub struct Lexeme {
    pub kind: Token,
    pub start: usize,
    pub end: usize,
}

pub open spec fn is_space(c: u8) -> bool {
    c == 32u8 || c == 9u8 || c == 12u8
}

/// Bytes of `[A-Za-z0-9_']`.
pub open spec fn is_ident(c: u8) -> bool {
    (65u8 <= c <= 90u8) || (97u8 <= c <= 122u8) || (48u8 <= c <= 57u8) || c == 95u8 || c == 39u8
}

/// Bytes that can start some token or are skipped.
pub open spec fn in_alphabet(c: u8) -> bool {
    is_space(c) || is_ident(c) || c == 126u8 || c == 94u8 || c == 40u8 || c == 41u8
        || c == 10u8 || c == 45u8 || c == 60u8 || c == 61u8 || c == 62u8
}

/// First index at or after `i` that does not hold an identifier byte.
pub open spec fn ident_end(b: Seq<u8>, i: int) -> int
    decreases b.len() - i,
{
    if 0 <= i < b.len() && is_ident(b[i]) {
        ident_end(b, i + 1)
    } else {
        i
    }
}

pub open spec fn mk(kind: Token, start: int, end: int) -> Lexeme {
    Lexeme { kind, start: start as usize, end: end as usize }
}

/// Kind and length of the token that starts at `i`, which holds no whitespace.
pub open spec fn token_at(b: Seq<u8>, i: int) -> (Token, int) {
    let c = b[i];
    if c == 60u8 && i + 2 < b.len() && b[i + 1] == 61u8 && b[i + 2] == 62u8 {
        (Token::Iff, 3)
    } else if c == 45u8 && i + 1 < b.len() && b[i + 1] == 62u8 {
        (Token::Imp, 2)
    } else if c == 126u8 {
        (Token::Not, 1)
    } else if c == 94u8 {
        (Token::And, 1)
    } else if c == 40u8 {
        (Token::ParenL, 1)
    } else if c == 41u8 {
        (Token::ParenR, 1)
    } else if c == 10u8 {
        (Token::NewLine, 1)
    } else if is_ident(c) {
        let n = ident_end(b, i) - i;
        if n == 1 && c == 118u8 {
            (Token::Or, 1)
        } else {
            (Token::Symbol, n)
        }
    } else {
        (Token::Error, 1)
    }
}

/// The tokens of `b` from byte `i` on, ending with `Eof`.
pub open spec fn lex_from(b: Seq<u8>, i: int) -> Seq<Lexeme>
    decreases b.len() - i,
{
    if i < 0 || i >= b.len() {
        seq![mk(Token::Eof, b.len() as int, b.len() as int)]
    } else if is_space(b[i]) {
        lex_from(b, i + 1)
    } else {
        let (k, n) = token_at(b, i);
        if 1 <= n <= b.len() - i {
            seq![mk(k, i, i + n)] + lex_from(b, i + n)
        } else {
            seq![]
        }
    }
}

/// The tokens of `b`.
pub open spec fn lex(b: Seq<u8>) -> Seq<Lexeme> {
    lex_from(b, 0)
}

proof fn lemma_ident_end(b: Seq<u8>, i: int)
    requires
        0 <= i <= b.len(),
    ensures
        i <= ident_end(b, i) <= b.len(),
        forall|j: int| i <= j < ident_end(b, i) ==> is_ident(#[trigger] b[j]),
        ident_end(b, i) < b.len() ==> !is_ident(b[ident_end(b, i)]),
    decreases b.len() - i,
{
    if i < b.len() && is_ident(b[i]) {
        lemma_ident_end(b, i + 1);
    }
}

fn is_space_byte(c: u8) -> (r: bool)
    ensures
        r == is_space(c),
{
    c == 32u8 || c == 9u8 || c == 12u8
}

fn is_ident_byte(c: u8) -> (r: bool)
    ensures
        r == is_ident(c),
{
    (65u8 <= c && c <= 90u8) || (97u8 <= c && c <= 122u8) || (48u8 <= c && c <= 57u8) || c == 95u8
        || c == 39u8
}

/// Reads the token that starts at `i`.
fn next_token(b: &[u8], i: usize) -> (r: (Token, usize))
    requires
        i < b@.len(),
        !is_space(b@[i as int]),
    ensures
        r.0 == token_at(b@, i as int).0,
        r.1 as int == token_at(b@, i as int).1,
        1 <= r.1 <= b@.len() - i,
{
    let c = b[i];
    let len = b.len();
    if c == 60u8 && len - i > 2 && b[i + 1] == 61u8 && b[i + 2] == 62u8 {
        (Token::Iff, 3)
    } else if c == 45u8 && len - i > 1 && b[i + 1] == 62u8 {
        (Token::Imp, 2)
    } else if c == 126u8 {
        (Token::Not, 1)
    } else if c == 94u8 {
        (Token::And, 1)
    } else if c == 40u8 {
        (Token::ParenL, 1)
    } else if c == 41u8 {
        (Token::ParenR, 1)
    } else if c == 10u8 {
        (Token::NewLine, 1)
    } else if is_ident_byte(c) {
        let mut j: usize = i + 1;
        while j < len && is_ident_byte(b[j])
            invariant
                i < j <= len,
                len == b@.len(),
                is_ident(b@[i as int]),
                ident_end(b@, i as int) == ident_end(b@, j as int),
            decreases len - j,
        {
            j = j + 1;
        }
        proof {
            lemma_ident_end(b@, i as int);
        }
        if j - i == 1 && c == 118u8 {
            (Token::Or, 1)
        } else {
            (Token::Symbol, j - i)
        }
    } else {
        (Token::Error, 1)
    }
}

/// Token lists the parser accepts: they end with `Eof`, and each symbol spans
/// identifier bytes of `b`.
pub open spec fn tokens_ok(b: Seq<u8>, ts: Seq<Lexeme>) -> bool {
    &&& ts.len() > 0
    &&& ts[ts.len() - 1].kind == Token::Eof
    &&& forall|k: int| 0 <= k < ts.len() && (#[trigger] ts[k]).kind == Token::Symbol ==> {
        &&& ts[k].start < ts[k].end <= b.len()
        &&& forall|j: int| ts[k].start <= j < ts[k].end ==> is_ident(#[trigger] b[j])
    }
}

pub proof fn lemma_lex_from_ok(b: Seq<u8>, i: int)
    requires
        0 <= i,
        b.len() <= usize::MAX,
    ensures
        tokens_ok(b, lex_from(b, i)),
    decreases b.len() - i,
{
    if i < 0 || i >= b.len() {
    } else if is_space(b[i]) {
        lemma_lex_from_ok(b, i + 1);
    } else {
        let (k, n) = token_at(b, i);
        lemma_ident_end(b, i);
        if 1 <= n <= b.len() - i {
            lemma_lex_from_ok(b, i + n);
            let ts = lex_from(b, i);
            let rest = lex_from(b, i + n);
            assert(ts == seq![mk(k, i, i + n)] + rest);
            assert forall|q: int| 0 <= q < ts.len() && (#[trigger] ts[q]).kind == Token::Symbol implies {
                &&& ts[q].start < ts[q].end <= b.len()
                &&& forall|j: int| ts[q].start <= j < ts[q].end ==> is_ident(#[trigger] b[j])
            } by {
                if q > 0 {
                    assert(ts[q] == rest[q - 1]);
                } else {
                    assert(ts[q] == mk(k, i, i + n));
                    assert(is_ident(b[i]));
                    assert(n == ident_end(b, i) - i);
                }
            }
        }
    }
}

/// The tokens of any text suit the parser.
pub proof fn lemma_lex_ok(b: Seq<u8>)
    requires
        b.len() <= usize::MAX,
    ensures
        tokens_ok(b, lex(b)),
{
    lemma_lex_from_ok(b, 0);
}

/// `t` spans a run of identifier bytes that the next byte does not extend.
pub open spec fn ident_run(b: Seq<u8>, t: Lexeme) -> bool {
    &&& forall|j: int| t.start <= j < t.end ==> is_ident(#[trigger] b[j])
    &&& (t.end == b.len() || !is_ident(b[t.end as int]))
}

/// What every token read from `b`, other than the final `Eof`, satisfies.
pub open spec fn token_sound(b: Seq<u8>, t: Lexeme) -> bool {
    &&& t.start < t.end <= b.len()
    &&& t.kind != Token::Eof
    &&& t.kind == Token::Error ==> t.end == t.start + 1
    &&& t.kind != Token::Error ==> forall|j: int| t.start <= j < t.end ==> in_alphabet(#[trigger] b[j])
    &&& (t.kind == Token::Symbol || t.kind == Token::Or) ==> ident_run(b, t)
    &&& t.kind == Token::Or ==> t.end == t.start + 1 && b[t.start as int] == 118u8
    &&& t.kind == Token::Symbol ==> !(t.end == t.start + 1 && b[t.start as int] == 118u8)
}

/// The shape of the tokens read from `b` from byte `from` on: sound tokens in
/// increasing, disjoint spans, then `Eof` at the end of `b`; and every byte
/// that no token covers is whitespace.
pub open spec fn lex_shape(b: Seq<u8>, ts: Seq<Lexeme>, from: int) -> bool {
    &&& ts.len() > 0
    &&& ts[ts.len() - 1] == mk(Token::Eof, b.len() as int, b.len() as int)
    &&& forall|k: int| 0 <= k < ts.len() - 1 ==> token_sound(b, #[trigger] ts[k])
    &&& forall|k: int| 0 <= k < ts.len() ==> from <= (#[trigger] ts[k]).start
    &&& forall|k1: int, k2: int| 0 <= k1 < k2 < ts.len() ==> (#[trigger] ts[k1]).end <= (#[trigger] ts[k2]).start
    &&& forall|j: int| from <= j < b.len() && !is_space(#[trigger] b[j]) ==> exists|k: int|
        0 <= k < ts.len() - 1 && (#[trigger] ts[k]).start <= j < ts[k].end
}

proof fn lemma_lex_from_shape(b: Seq<u8>, i: int)
    requires
        0 <= i,
        b.len() <= usize::MAX,
    ensures
        lex_shape(b, lex_from(b, i), if i < b.len() { i } else { b.len() as int }),
    decreases b.len() - i,
{
    if i >= b.len() {
    } else if is_space(b[i]) {
        lemma_lex_from_shape(b, i + 1);
        let ts = lex_from(b, i);
        assert forall|j: int| i <= j < b.len() && !is_space(#[trigger] b[j]) implies exists|k: int|
            0 <= k < ts.len() - 1 && (#[trigger] ts[k]).start <= j < ts[k].end by {
            assert(j != i);
        }
    } else {
        let (kind, n) = token_at(b, i);
        lemma_ident_end(b, i);
        lemma_lex_from_shape(b, i + n);
        let t = mk(kind, i, i + n);
        let rest = lex_from(b, i + n);
        let ts = lex_from(b, i);
        assert(ts == seq![t] + rest);
        assert(token_sound(b, t)) by {
            if kind != Token::Error {
                assert forall|j: int| t.start <= j < t.end implies in_alphabet(#[trigger] b[j]) by {
                    if is_ident(b[i]) && kind != Token::Iff && kind != Token::Imp {
                        assert(is_ident(b[j]));
                    }
                }
            }
        }
        assert forall|k: int| 0 <= k < ts.len() - 1 implies token_sound(b, #[trigger] ts[k]) by {
            if k > 0 {
                assert(ts[k] == rest[k - 1]);
            }
        }
        assert forall|k: int| 0 <= k < ts.len() implies i <= (#[trigger] ts[k]).start by {
            if k > 0 {
                assert(ts[k] == rest[k - 1]);
            }
        }
        assert forall|k1: int, k2: int| 0 <= k1 < k2 < ts.len() implies (#[trigger] ts[k1]).end <= (#[trigger] ts[k2]).start by {
            assert(ts[k2] == rest[k2 - 1]);
            if k1 > 0 {
                assert(ts[k1] == rest[k1 - 1]);
            }
        }
        assert forall|j: int| i <= j < b.len() && !is_space(#[trigger] b[j]) implies exists|k: int|
            0 <= k < ts.len() - 1 && (#[trigger] ts[k]).start <= j < ts[k].end by {
            if j < i + n {
                assert(ts[0].start <= j < ts[0].end);
            } else {
                let k2 = choose|k2: int| 0 <= k2 < rest.len() - 1 && (#[trigger] rest[k2]).start <= j < rest[k2].end;
                assert(ts[k2 + 1] == rest[k2]);
            }
        }
    }
}

/// The tokens of `b` read back the text: they stand in increasing, disjoint
/// spans of `b`, each sound for its kind, `Eof` closes them at the end of `b`,
/// and every byte outside all spans is whitespace. So the lexemes, with the
/// whitespace between them, spell `b` again.
pub proof fn lemma_lex_shape(b: Seq<u8>)
    requires
        b.len() <= usize::MAX,
    ensures
        lex_shape(b, lex(b), 0),
{
    lemma_lex_from_shape(b, 0);
}

/// The identifier `v` is the `Or` token and every other identifier, such as
/// `vest`, `v_`, `v1` or `v'`, is a `Symbol`: a token of either kind spans a
/// whole run of identifier bytes, and it is `Or` exactly when that run is `v`.
pub proof fn lemma_v_is_or(b: Seq<u8>, k: int)
    requires
        b.len() <= usize::MAX,
        0 <= k < lex(b).len(),
        lex(b)[k].kind == Token::Symbol || lex(b)[k].kind == Token::Or,
    ensures
        ident_run(b, lex(b)[k]),
        lex(b)[k].kind == Token::Or <==> lex_text_is_v(b, lex(b)[k]),
{
    lemma_lex_shape(b);
}

/// The lexeme of `t` is the single byte `v`.
pub open spec fn lex_text_is_v(b: Seq<u8>, t: Lexeme) -> bool {
    t.end == t.start + 1 && b[t.start as int] == 118u8
}

/// Each byte outside the alphabet gives exactly one `Error` token, which spans
/// that byte alone.
pub proof fn lemma_foreign_bytes(b: Seq<u8>, j: int)
    requires
        b.len() <= usize::MAX,
        0 <= j < b.len(),
        !in_alphabet(b[j]),
    ensures
        exists|k: int| 0 <= k < lex(b).len() && #[trigger] lex(b)[k] == mk(Token::Error, j, j + 1),
        forall|k1: int, k2: int|
            0 <= k1 < lex(b).len() && 0 <= k2 < lex(b).len() && #[trigger] lex(b)[k1] == mk(Token::Error, j, j + 1)
                && #[trigger] lex(b)[k2] == mk(Token::Error, j, j + 1) ==> k1 == k2,
{
    lemma_lex_shape(b);
    let ts = lex(b);
    assert(!is_space(b[j]));
    let k = choose|k: int| 0 <= k < ts.len() - 1 && (#[trigger] ts[k]).start <= j < ts[k].end;
    assert(token_sound(b, ts[k]));
    if ts[k].kind != Token::Error {
        assert(in_alphabet(b[j]));
    }
    assert(ts[k] == mk(Token::Error, j, j + 1));
    assert forall|k1: int, k2: int|
        0 <= k1 < ts.len() && 0 <= k2 < ts.len() && #[trigger] ts[k1] == mk(Token::Error, j, j + 1)
            && #[trigger] ts[k2] == mk(Token::Error, j, j + 1) implies k1 == k2 by {
        if k1 < k2 {
            assert(ts[k1].end <= ts[k2].start);
        } else if k2 < k1 {
            assert(ts[k2].end <= ts[k1].start);
        }
    }
}

/// Splits `b` into tokens, the last of which is `Eof`.
pub fn tokenize(b: &[u8]) -> (r: Vec<Lexeme>)
    ensures
        r@ == lex(b@),
{
    let mut out: Vec<Lexeme> = Vec::new();
    let len = b.len();
    let mut i: usize = 0;
    while i < len
        invariant
            i <= len,
            len == b@.len(),
            out@ + lex_from(b@, i as int) == lex(b@),
        decreases len - i,
    {
        if is_space_byte(b[i]) {
            i = i + 1;
        } else {
            let (k, n) = next_token(b, i);
            let lx = Lexeme { kind: k, start: i, end: i + n };
            proof {
                assert(lex_from(b@, i as int) == seq![lx] + lex_from(b@, i + n));
                assert(out@.push(lx) + lex_from(b@, i + n) == out@ + lex_from(b@, i as int));
            }
            out.push(lx);
            i = i + n;
        }
    }
    out.push(Lexeme { kind: Token::Eof, start: len, end: len });
    proof {
        assert(out@ == lex(b@));
    }
    out
}

} // verus!
