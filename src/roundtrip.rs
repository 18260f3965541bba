use vstd::prelude::*;
use crate::types::{Prop, valid_name, is_ident_char, nary};
use crate::parsing::{Token, Lexeme, mk, is_ident, is_space, ident_end, token_at, lex_from, lex, token_sound, lemma_lex_shape};
use crate::render::{render, renders, join_with};
use vstd::utf8::{is_ascii_chars, encode_utf8, is_ascii_chars_encode_utf8};
use crate::parser::{
    ParseError, lexeme_text, atom_of, p_not, p_and, p_and_rest, p_or, p_or_rest, p_imp, p_iff_rest,
    p_iff, p_atom, parse_spec,
};

verus! {

/// Sentences the parser can produce: symbols with valid names other than the
/// constants, and `And` / `Or` nodes of two or more children.
pub open spec fn wf(p: Prop) -> bool
    decreases p,
{
    match p {
        Prop::True => true,
        Prop::False => true,
        Prop::Symbol(s) => valid_name(s) && s != seq!['t', 'r', 'u', 'e'] && s != seq!['f', 'a', 'l', 's', 'e'],
        Prop::Not(x) => wf(*x),
        Prop::And(xs) => xs.len() >= 2 && forall|i: int| 0 <= i < xs.len() ==> wf(#[trigger] xs[i]),
        Prop::Or(xs) => xs.len() >= 2 && forall|i: int| 0 <= i < xs.len() ==> wf(#[trigger] xs[i]),
        Prop::Imp(a, c) => wf(*a) && wf(*c),
        Prop::Iff(a, c) => wf(*a) && wf(*c),
    }
}

/// The bytes of an ASCII text.
pub open spec fn to_bytes(s: Seq<char>) -> Seq<u8> {
    Seq::new(s.len(), |i: int| s[i] as u8)
}

pub open spec fn sep_of(k: Token) -> Seq<char> {
    if k == Token::And {
        seq![' ', '^', ' ']
    } else {
        seq![' ', 'v', ' ']
    }
}

/// The texts of `xs` from index `j` on, joined by `sep`.
pub open spec fn rlist(xs: Seq<Prop>, j: int, sep: Seq<char>) -> Seq<char>
    decreases xs.len() - j,
{
    if !(0 <= j < xs.len()) {
        seq![]
    } else if j + 1 == xs.len() {
        render(xs[j])
    } else {
        render(xs[j]) + sep + rlist(xs, j + 1, sep)
    }
}

/// The tokens of the text of `p`, placed at byte `off`.
pub open spec fn rtoks(p: Prop, off: int) -> Seq<Lexeme>
    decreases p, 0int,
{
    match p {
        Prop::True => seq![mk(Token::Symbol, off, off + 4)],
        Prop::False => seq![mk(Token::Symbol, off, off + 5)],
        Prop::Symbol(s) => seq![mk(Token::Symbol, off, off + s.len())],
        Prop::Not(x) => seq![mk(Token::Not, off, off + 1)] + rtoks(*x, off + 1),
        Prop::And(xs) => seq![mk(Token::ParenL, off, off + 1)] + ltoks(xs, 0, Token::And, off + 1)
            + seq![mk(Token::ParenR, off + 1 + rlist(xs, 0, sep_of(Token::And)).len(), off + 2 + rlist(xs, 0, sep_of(Token::And)).len())],
        Prop::Or(xs) => seq![mk(Token::ParenL, off, off + 1)] + ltoks(xs, 0, Token::Or, off + 1)
            + seq![mk(Token::ParenR, off + 1 + rlist(xs, 0, sep_of(Token::Or)).len(), off + 2 + rlist(xs, 0, sep_of(Token::Or)).len())],
        Prop::Imp(a, c) => {
            let la = render(*a).len() as int;
            let lc = render(*c).len() as int;
            seq![mk(Token::ParenL, off, off + 1)] + rtoks(*a, off + 1) + seq![mk(Token::Imp, off + la + 2, off + la + 4)]
                + rtoks(*c, off + la + 5) + seq![mk(Token::ParenR, off + la + lc + 5, off + la + lc + 6)]
        },
        Prop::Iff(a, c) => {
            let la = render(*a).len() as int;
            let lc = render(*c).len() as int;
            seq![mk(Token::ParenL, off, off + 1)] + rtoks(*a, off + 1) + seq![mk(Token::Iff, off + la + 2, off + la + 5)]
                + rtoks(*c, off + la + 6) + seq![mk(Token::ParenR, off + la + lc + 6, off + la + lc + 7)]
        },
    }
}

/// The tokens of `rlist(xs, j, sep_of(k))`, placed at byte `off`.
pub open spec fn ltoks(xs: Seq<Prop>, j: int, k: Token, off: int) -> Seq<Lexeme>
    decreases xs, xs.len() - j,
{
    if !(0 <= j < xs.len()) {
        seq![]
    } else if j + 1 == xs.len() {
        rtoks(xs[j], off)
    } else {
        let lj = render(xs[j]).len() as int;
        rtoks(xs[j], off) + seq![mk(k, off + lj + 1, off + lj + 2)] + ltoks(xs, j + 1, k, off + lj + 3)
    }
}

proof fn lemma_join_left(parts: Seq<Seq<char>>, sep: Seq<char>, j: int)
    requires
        0 <= j < parts.len(),
    ensures
        j + 1 == parts.len() ==> join_with(parts.subrange(j, parts.len() as int), sep) == parts[j],
        j + 1 < parts.len() ==> join_with(parts.subrange(j, parts.len() as int), sep)
            == parts[j] + sep + join_with(parts.subrange(j + 1, parts.len() as int), sep),
    decreases parts.len(),
{
    let n = parts.len() as int;
    let whole = parts.subrange(j, n);
    if j + 1 == n {
        assert(whole.len() == 1);
    } else {
        let init = parts.drop_last();
        assert(whole.drop_last() =~= init.subrange(j, n - 1));
        assert(whole.last() == parts[n - 1]);
        assert(join_with(whole, sep) == join_with(whole.drop_last(), sep) + sep + whole.last());
        let tail = parts.subrange(j + 1, n);
        if j + 2 == n {
            assert(init.subrange(j, n - 1).len() == 1);
            assert(join_with(init.subrange(j, n - 1), sep) == init.subrange(j, n - 1)[0]);
            assert(init.subrange(j, n - 1)[0] == parts[j]);
            assert(tail.len() == 1);
            assert(join_with(tail, sep) == tail[0]);
        } else {
            lemma_join_left(init, sep, j);
            assert(tail.drop_last() =~= init.subrange(j + 1, n - 1));
            assert(tail.last() == parts[n - 1]);
            assert(join_with(tail, sep) == join_with(tail.drop_last(), sep) + sep + tail.last());
            assert(join_with(whole, sep) =~= parts[j] + sep + join_with(tail, sep));
        }
    }
}

proof fn lemma_rlist_join(xs: Seq<Prop>, sep: Seq<char>, j: int)
    requires
        0 <= j < xs.len(),
    ensures
        rlist(xs, j, sep) == join_with(renders(xs).subrange(j, xs.len() as int), sep),
    decreases xs.len() - j,
{
    let parts = renders(xs);
    lemma_join_left(parts, sep, j);
    if j + 1 < xs.len() {
        lemma_rlist_join(xs, sep, j + 1);
    }
}

/// The text of an n-ary node, read from the left.
proof fn lemma_render_nary(xs: Seq<Prop>, k: Token)
    requires
        xs.len() >= 1,
    ensures
        k == Token::And ==> render(Prop::And(xs)) == seq!['('] + rlist(xs, 0, sep_of(k)) + seq![')'],
        k == Token::Or ==> render(Prop::Or(xs)) == seq!['('] + rlist(xs, 0, sep_of(k)) + seq![')'],
{
    lemma_rlist_join(xs, sep_of(k), 0);
    assert(renders(xs).subrange(0, xs.len() as int) =~= renders(xs));
}


/// `b` holds the ASCII text `t` from byte `i` on.
pub open spec fn bytes_at(b: Seq<u8>, i: int, t: Seq<char>) -> bool {
    &&& 0 <= i
    &&& i + t.len() <= b.len()
    &&& forall|q: int| 0 <= q < t.len() ==> b[i + q] == (#[trigger] t[q]) as u8
}

/// Byte `e` of `b` ends a rendered sentence: the end, a space or `)`.
pub open spec fn stop_ok(b: Seq<u8>, e: int) -> bool {
    e == b.len() || (0 <= e < b.len() && (b[e] == 32u8 || b[e] == 41u8))
}

proof fn lemma_bytes_part(b: Seq<u8>, i: int, whole: Seq<char>, lo: int, part: Seq<char>)
    requires
        bytes_at(b, i, whole),
        0 <= lo,
        lo + part.len() <= whole.len(),
        whole.subrange(lo, lo + part.len()) == part,
    ensures
        bytes_at(b, i + lo, part),
{
    assert forall|q: int| 0 <= q < part.len() implies b[i + lo + q] == (#[trigger] part[q]) as u8 by {
        assert(part[q] == whole.subrange(lo, lo + part.len())[q]);
        assert(whole[lo + q] == part[q]);
    }
}

proof fn lemma_ident_run(b: Seq<u8>, i: int, e: int)
    requires
        0 <= i < e <= b.len(),
        forall|q: int| i <= q < e ==> is_ident(#[trigger] b[q]),
        e == b.len() || !is_ident(b[e]),
    ensures
        ident_end(b, i) == e,
    decreases e - i,
{
    if i + 1 < e {
        lemma_ident_run(b, i + 1, e);
    } else {
        assert(ident_end(b, e) == e);
    }
}

proof fn lemma_lex_word(b: Seq<u8>, i: int, w: Seq<char>)
    requires
        b.len() <= usize::MAX,
        bytes_at(b, i, w),
        w.len() > 0,
        forall|q: int| 0 <= q < w.len() ==> is_ident_char(#[trigger] w[q]),
        w != seq!['v'],
        stop_ok(b, i + w.len()),
    ensures
        lex_from(b, i) == seq![mk(Token::Symbol, i, i + w.len())] + lex_from(b, i + w.len()),
{
    let e = i + w.len();
    assert forall|q: int| i <= q < e implies is_ident(#[trigger] b[q]) by {
        assert(b[i + (q - i)] == w[q - i] as u8);
        assert(is_ident_char(w[q - i]));
    }
    lemma_ident_run(b, i, e);
    assert(b[i] == w[0] as u8);
    if w.len() == 1 && b[i] == 118u8 {
        assert(w =~= seq!['v']);
    }
    assert(token_at(b, i) == (Token::Symbol, w.len() as int));
}

proof fn lemma_lex_rtoks(p: Prop, b: Seq<u8>, i: int)
    requires
        wf(p),
        b.len() <= usize::MAX,
        bytes_at(b, i, render(p)),
        stop_ok(b, i + render(p).len()),
    ensures
        lex_from(b, i) == rtoks(p, i) + lex_from(b, i + render(p).len()),
    decreases p, 1int,
{
    let r = render(p);
    let e = i + r.len();
    match p {
        Prop::True => {
            lemma_lex_word(b, i, r);
        },
        Prop::False => {
            lemma_lex_word(b, i, r);
        },
        Prop::Symbol(w) => {
            lemma_lex_word(b, i, r);
        },
        Prop::Not(x) => {
            let rx = render(*x);
            assert(b[i] == r[0] as u8);
            assert(token_at(b, i) == (Token::Not, 1int));
            assert(r.subrange(1, 1 + rx.len() as int) =~= rx);
            lemma_bytes_part(b, i, r, 1, rx);
            lemma_lex_rtoks(*x, b, i + 1);
            assert(lex_from(b, i) =~= rtoks(p, i) + lex_from(b, e));
        },
        Prop::And(_) => {
            lemma_lex_nary(p, b, i);
        },
        Prop::Or(_) => {
            lemma_lex_nary(p, b, i);
        },
        Prop::Imp(_, _) => {
            lemma_lex_pair(p, b, i);
        },
        Prop::Iff(_, _) => {
            lemma_lex_pair(p, b, i);
        },
    }
}

pub open spec fn left(p: Prop) -> Prop {
    match p {
        Prop::Imp(a, _) => *a,
        Prop::Iff(a, _) => *a,
        _ => p,
    }
}

pub open spec fn right(p: Prop) -> Prop {
    match p {
        Prop::Imp(_, c) => *c,
        Prop::Iff(_, c) => *c,
        _ => p,
    }
}

pub open spec fn children(p: Prop) -> Seq<Prop> {
    match p {
        Prop::And(xs) => xs,
        Prop::Or(xs) => xs,
        _ => seq![],
    }
}

pub open spec fn op_text(p: Prop) -> Seq<char> {
    if p is Imp {
        seq![' ', '-', '>', ' ']
    } else {
        seq![' ', '<', '=', '>', ' ']
    }
}

#[verifier::rlimit(100)]
#[verifier::spinoff_prover]
proof fn lemma_lex_pair(p: Prop, b: Seq<u8>, i: int)
    requires
        p is Imp || p is Iff,
        wf(p),
        b.len() <= usize::MAX,
        bytes_at(b, i, render(p)),
        stop_ok(b, i + render(p).len()),
    ensures
        lex_from(b, i) == rtoks(p, i) + lex_from(b, i + render(p).len()),
    decreases p, 0int,
{
    let a = left(p);
    let c = right(p);
    let ra = render(a);
    let rc = render(c);
    let la = ra.len() as int;
    let lc = rc.len() as int;
    let k = if p is Imp { Token::Imp } else { Token::Iff };
    let opn: int = if p is Imp { 2 } else { 3 };
    let op = op_text(p);
    let r = render(p);
    assert(r == seq!['('] + ra + op + rc + seq![')']);
    let e = i + r.len();
    let x1 = i + 1 + la;
    let x2 = x1 + opn + 2;
    let x3 = x2 + lc;
    assert(e == x3 + 1);
    assert(b[i] == r[0] as u8);
    assert(r[0] == '(');
    assert(token_at(b, i) == (Token::ParenL, 1int));
    assert(lex_from(b, i) == seq![mk(Token::ParenL, i, i + 1)] + lex_from(b, i + 1));
    assert(r.subrange(1, 1 + la) =~= ra);
    lemma_bytes_part(b, i, r, 1, ra);
    assert(b[x1] == r[1 + la] as u8);
    assert(r[1 + la] == ' ');
    lemma_lex_rtoks(a, b, i + 1);
    assert(lex_from(b, x1) == lex_from(b, x1 + 1));
    assert(b[x1 + 1] == r[2 + la] as u8);
    assert(b[x1 + 2] == r[3 + la] as u8);
    assert(b[x1 + 3] == r[4 + la] as u8);
    assert(token_at(b, x1 + 1) == (k, opn));
    assert(lex_from(b, x1 + 1) == seq![mk(k, x1 + 1, x1 + 1 + opn)] + lex_from(b, x1 + 1 + opn));
    assert(b[x1 + 1 + opn] == r[2 + la + opn] as u8);
    assert(lex_from(b, x1 + 1 + opn) == lex_from(b, x2));
    assert(r.subrange(x2 - i, x2 - i + lc) =~= rc);
    lemma_bytes_part(b, i, r, x2 - i, rc);
    assert(b[x3] == r[x3 - i] as u8);
    lemma_lex_rtoks(c, b, x2);
    assert(token_at(b, x3) == (Token::ParenR, 1int));
    assert(lex_from(b, x3) == seq![mk(Token::ParenR, x3, x3 + 1)] + lex_from(b, e));
    assert(rtoks(p, i) == seq![mk(Token::ParenL, i, i + 1)] + rtoks(a, i + 1) + seq![mk(k, x1 + 1, x1 + 1 + opn)]
        + rtoks(c, x2) + seq![mk(Token::ParenR, x3, x3 + 1)]);
    assert(lex_from(b, i) =~= rtoks(p, i) + lex_from(b, e));
}

#[verifier::rlimit(100)]
#[verifier::spinoff_prover]
proof fn lemma_lex_nary(p: Prop, b: Seq<u8>, i: int)
    requires
        p is And || p is Or,
        wf(p),
        b.len() <= usize::MAX,
        bytes_at(b, i, render(p)),
        stop_ok(b, i + render(p).len()),
    ensures
        lex_from(b, i) == rtoks(p, i) + lex_from(b, i + render(p).len()),
    decreases p, 0int,
{
    let xs = children(p);
    let k = if p is And { Token::And } else { Token::Or };
    lemma_render_nary(xs, k);
    let rl = rlist(xs, 0, sep_of(k));
    let n = rl.len() as int;
    let r = render(p);
    let e = i + r.len();
    assert(b[i] == r[0] as u8);
    assert(token_at(b, i) == (Token::ParenL, 1int));
    assert(r.subrange(1, 1 + rl.len() as int) =~= rl);
    lemma_bytes_part(b, i, r, 1, rl);
    assert(b[i + 1 + n] == r[1 + n] as u8);
    lemma_lex_ltoks(xs, 0, k, b, i + 1);
    assert(token_at(b, i + 1 + n) == (Token::ParenR, 1int));
    assert(lex_from(b, i) =~= rtoks(p, i) + lex_from(b, e));
}

proof fn lemma_lex_ltoks(xs: Seq<Prop>, j: int, k: Token, b: Seq<u8>, i: int)
    requires
        k == Token::And || k == Token::Or,
        0 <= j < xs.len(),
        forall|m: int| 0 <= m < xs.len() ==> wf(#[trigger] xs[m]),
        b.len() <= usize::MAX,
        bytes_at(b, i, rlist(xs, j, sep_of(k))),
        stop_ok(b, i + rlist(xs, j, sep_of(k)).len()),
    ensures
        lex_from(b, i) == ltoks(xs, j, k, i) + lex_from(b, i + rlist(xs, j, sep_of(k)).len()),
    decreases xs, xs.len() - j,
{
    let r = rlist(xs, j, sep_of(k));
    let rj = render(xs[j]);
    let lj = rj.len() as int;
    if j + 1 == xs.len() {
        lemma_lex_rtoks(xs[j], b, i);
    } else {
        let rest = rlist(xs, j + 1, sep_of(k));
        assert(r.subrange(0, 0 + rj.len() as int) =~= rj);
        lemma_bytes_part(b, i, r, 0, rj);
        assert(b[i + lj] == r[lj] as u8);
        lemma_lex_rtoks(xs[j], b, i);
        assert(b[i + lj + 1] == r[lj + 1] as u8);
        assert(b[i + lj + 2] == r[lj + 2] as u8);
        if k == Token::Or {
            lemma_ident_run(b, i + lj + 1, i + lj + 2);
        }
        assert(token_at(b, i + lj + 1) == (k, 1int));
        assert(r.subrange(lj + 3, lj + 3 + rest.len() as int) =~= rest);
        lemma_bytes_part(b, i, r, lj + 3, rest);
        lemma_lex_ltoks(xs, j + 1, k, b, i + lj + 3);
        assert(is_space(b[i + lj]));
        assert(lex_from(b, i + lj) == lex_from(b, i + lj + 1));
        assert(lex_from(b, i + lj + 1) == seq![mk(k, i + lj + 1, i + lj + 2)] + lex_from(b, i + lj + 2));
        assert(is_space(b[i + lj + 2]));
        assert(lex_from(b, i + lj + 2) == lex_from(b, i + lj + 3));
        assert(r.len() == lj + 3 + rest.len());
        assert(ltoks(xs, j, k, i) == rtoks(xs[j], i) + seq![mk(k, i + lj + 1, i + lj + 2)] + ltoks(xs, j + 1, k, i + lj + 3));
        assert(lex_from(b, i) =~= ltoks(xs, j, k, i) + lex_from(b, i + r.len()));
    }
}


/// `ts` holds the tokens `r` from index `k` on, and at least one token after them.
pub open spec fn toks_at(ts: Seq<Lexeme>, k: int, r: Seq<Lexeme>) -> bool {
    &&& 0 <= k
    &&& k + r.len() < ts.len()
    &&& forall|m: int| 0 <= m < r.len() ==> ts[k + m] == #[trigger] r[m]
}

proof fn lemma_toks_part(ts: Seq<Lexeme>, k: int, whole: Seq<Lexeme>, lo: int, part: Seq<Lexeme>)
    requires
        toks_at(ts, k, whole),
        0 <= lo,
        lo + part.len() <= whole.len(),
        whole.subrange(lo, lo + part.len()) == part,
    ensures
        toks_at(ts, k + lo, part),
{
    assert forall|m: int| 0 <= m < part.len() implies ts[k + lo + m] == #[trigger] part[m] by {
        assert(part[m] == whole.subrange(lo, lo + part.len())[m]);
        assert(whole[lo + m] == part[m]);
    }
}

/// A complete operand followed by a token that continues no operator of
/// higher precedence is the whole operand at every level.
#[verifier::spinoff_prover]
proof fn lemma_levels(b: Seq<u8>, ts: Seq<Lexeme>, k: int, p: Prop, e: int)
    requires
        p_not(b, ts, k) == Ok::<(Prop, int), ParseError>((p, e)),
        0 <= k < e < ts.len(),
    ensures
        ts[e].kind != Token::And ==> p_and(b, ts, k) == Ok::<(Prop, int), ParseError>((p, e)),
        ts[e].kind != Token::And && ts[e].kind != Token::Or ==> p_or(b, ts, k) == Ok::<(Prop, int), ParseError>((p, e)),
        ts[e].kind != Token::And && ts[e].kind != Token::Or && ts[e].kind != Token::Imp ==> p_imp(b, ts, k)
            == Ok::<(Prop, int), ParseError>((p, e)),
{
    if ts[e].kind != Token::And {
        assert(p_and_rest(b, ts, seq![p], e) == Ok::<(Seq<Prop>, int), ParseError>((seq![p], e)));
        assert(p_and(b, ts, k) == Ok::<(Prop, int), ParseError>((p, e)));
        if ts[e].kind != Token::Or {
            assert(p_or_rest(b, ts, seq![p], e) == Ok::<(Seq<Prop>, int), ParseError>((seq![p], e)));
            assert(p_or(b, ts, k) == Ok::<(Prop, int), ParseError>((p, e)));
        }
    }
}

proof fn lemma_text_of_word(b: Seq<u8>, off: int, w: Seq<char>)
    requires
        bytes_at(b, off, w),
        forall|q: int| 0 <= q < w.len() ==> is_ident_char(#[trigger] w[q]),
        off + w.len() <= usize::MAX,
    ensures
        lexeme_text(b, mk(Token::Symbol, off, off + w.len())) == w,
{
    let t = mk(Token::Symbol, off, off + w.len());
    let text = lexeme_text(b, t);
    assert forall|q: int| 0 <= q < w.len() implies text[q] == w[q] by {
        assert(b[off + q] == w[q] as u8);
        assert(is_ident_char(w[q]));
    }
    assert(text =~= w);
}

#[verifier::spinoff_prover]
proof fn lemma_parse_rtoks(p: Prop, b: Seq<u8>, ts: Seq<Lexeme>, k: int, off: int)
    requires
        wf(p),
        bytes_at(b, off, render(p)),
        off + render(p).len() <= usize::MAX,
        toks_at(ts, k, rtoks(p, off)),
    ensures
        p_not(b, ts, k) == Ok::<(Prop, int), ParseError>((p, k + rtoks(p, off).len())),
    decreases p, 3int,
{
    let r = rtoks(p, off);
    assert(ts[k] == r[0]);
    match p {
        Prop::True => {
            lemma_text_of_word(b, off, render(p));
            assert(atom_of(render(p)) == p);
            assert(p_atom(b, ts, k) == Ok::<(Prop, int), ParseError>((p, k + 1)));
        },
        Prop::False => {
            lemma_text_of_word(b, off, render(p));
            assert(atom_of(render(p)) == p);
            assert(p_atom(b, ts, k) == Ok::<(Prop, int), ParseError>((p, k + 1)));
        },
        Prop::Symbol(w) => {
            lemma_text_of_word(b, off, render(p));
            assert(atom_of(render(p)) == p);
            assert(p_atom(b, ts, k) == Ok::<(Prop, int), ParseError>((p, k + 1)));
        },
        Prop::Not(x) => {
            let rx = render(*x);
            assert(render(p).subrange(1, 1 + rx.len() as int) =~= rx);
            lemma_bytes_part(b, off, render(p), 1, rx);
            let tx = rtoks(*x, off + 1);
            assert(r.subrange(1, 1 + tx.len() as int) =~= tx);
            lemma_toks_part(ts, k, r, 1, tx);
            lemma_parse_rtoks(*x, b, ts, k + 1, off + 1);
        },
        _ => {
            lemma_parse_group(p, b, ts, k, off);
        },
    }
}

#[verifier::spinoff_prover]
proof fn lemma_parse_group(p: Prop, b: Seq<u8>, ts: Seq<Lexeme>, k: int, off: int)
    requires
        p is And || p is Or || p is Imp || p is Iff,
        wf(p),
        bytes_at(b, off, render(p)),
        off + render(p).len() <= usize::MAX,
        toks_at(ts, k, rtoks(p, off)),
    ensures
        p_not(b, ts, k) == Ok::<(Prop, int), ParseError>((p, k + rtoks(p, off).len())),
    decreases p, 2int,
{
    let r = rtoks(p, off);
    let n = r.len() as int;
    assert(ts[k] == r[0]);
    assert(ts[k + n - 1] == r[n - 1]);
    assert(r[n - 1].kind == Token::ParenR);
    assert(p_iff(b, ts, k + 1) == Ok::<(Prop, int), ParseError>((p, k + n - 1))) by {
        if p is Imp || p is Iff {
            lemma_parse_pair(p, b, ts, k, off);
        } else {
            lemma_parse_nary(p, b, ts, k, off);
        }
    }
    assert(p_atom(b, ts, k) == Ok::<(Prop, int), ParseError>((p, k + n)));
}

pub open spec fn op_len(p: Prop) -> int {
    if p is Imp {
        2
    } else {
        3
    }
}

pub open spec fn pair_x2(p: Prop, off: int) -> int {
    off + 1 + render(left(p)).len() + op_len(p) + 2
}

pub open spec fn pair_e1(p: Prop, k: int, off: int) -> int {
    k + 1 + rtoks(left(p), off + 1).len()
}

pub open spec fn pair_e2(p: Prop, k: int, off: int) -> int {
    pair_e1(p, k, off) + 1 + rtoks(right(p), pair_x2(p, off)).len()
}

#[verifier::rlimit(100)]
#[verifier::spinoff_prover]
proof fn lemma_pair_layout(p: Prop, b: Seq<u8>, ts: Seq<Lexeme>, k: int, off: int)
    requires
        p is Imp || p is Iff,
        bytes_at(b, off, render(p)),
        toks_at(ts, k, rtoks(p, off)),
    ensures
        bytes_at(b, off + 1, render(left(p))),
        bytes_at(b, pair_x2(p, off), render(right(p))),
        pair_x2(p, off) + render(right(p)).len() < off + render(p).len(),
        toks_at(ts, k + 1, rtoks(left(p), off + 1)),
        toks_at(ts, pair_e1(p, k, off) + 1, rtoks(right(p), pair_x2(p, off))),
        ts[pair_e1(p, k, off)].kind == (if p is Imp { Token::Imp } else { Token::Iff }),
        ts[pair_e2(p, k, off)].kind == Token::ParenR,
        pair_e2(p, k, off) == k + rtoks(p, off).len() - 1,
{
    let a = left(p);
    let c = right(p);
    let ra = render(a);
    let rc = render(c);
    let la = ra.len() as int;
    let lc = rc.len() as int;
    let kind = if p is Imp { Token::Imp } else { Token::Iff };
    let opn = op_len(p);
    let rp = render(p);
    assert(rp == seq!['('] + ra + op_text(p) + rc + seq![')']);
    let ta = rtoks(a, off + 1);
    let x2 = pair_x2(p, off);
    let tc = rtoks(c, x2);
    let r = rtoks(p, off);
    assert(r == seq![mk(Token::ParenL, off, off + 1)] + ta + seq![mk(kind, off + 1 + la + 1, off + 1 + la + 1 + opn)] + tc
        + seq![mk(Token::ParenR, x2 + lc, x2 + lc + 1)]);
    let e1 = pair_e1(p, k, off);
    let e2 = pair_e2(p, k, off);
    assert(rp.subrange(1, 1 + la) =~= ra);
    lemma_bytes_part(b, off, rp, 1, ra);
    assert(rp.subrange(x2 - off, x2 - off + lc) =~= rc);
    lemma_bytes_part(b, off, rp, x2 - off, rc);
    assert(r.subrange(1, 1 + ta.len() as int) =~= ta);
    lemma_toks_part(ts, k, r, 1, ta);
    assert(r.subrange(e1 - k + 1, e1 - k + 1 + tc.len() as int) =~= tc);
    lemma_toks_part(ts, k, r, e1 - k + 1, tc);
    assert(ts[e1] == r[e1 - k]);
    assert(ts[e2] == r[e2 - k]);
}

#[verifier::rlimit(100)]
#[verifier::spinoff_prover]
proof fn lemma_parse_pair(p: Prop, b: Seq<u8>, ts: Seq<Lexeme>, k: int, off: int)
    requires
        p is Imp || p is Iff,
        wf(p),
        bytes_at(b, off, render(p)),
        off + render(p).len() <= usize::MAX,
        toks_at(ts, k, rtoks(p, off)),
    ensures
        p_iff(b, ts, k + 1) == Ok::<(Prop, int), ParseError>((p, k + rtoks(p, off).len() - 1)),
    decreases p, 1int,
{
    let a = left(p);
    let c = right(p);
    lemma_pair_layout(p, b, ts, k, off);
    let e1 = pair_e1(p, k, off);
    let e2 = pair_e2(p, k, off);
    lemma_parse_rtoks(a, b, ts, k + 1, off + 1);
    lemma_parse_rtoks(c, b, ts, e1 + 1, pair_x2(p, off));
    lemma_levels(b, ts, k + 1, a, e1);
    lemma_levels(b, ts, e1 + 1, c, e2);
    assert(p_imp(b, ts, e1 + 1) == Ok::<(Prop, int), ParseError>((c, e2)));
    if p is Imp {
        assert(p_imp(b, ts, k + 1) == Ok::<(Prop, int), ParseError>((p, e2)));
        assert(p_iff_rest(b, ts, p, e2) == Ok::<(Prop, int), ParseError>((p, e2)));
    } else {
        assert(p_imp(b, ts, k + 1) == Ok::<(Prop, int), ParseError>((a, e1)));
        assert(p_iff_rest(b, ts, p, e2) == Ok::<(Prop, int), ParseError>((p, e2)));
        assert(p_iff_rest(b, ts, a, e1) == Ok::<(Prop, int), ParseError>((p, e2)));
    }
}

#[verifier::rlimit(100)]
#[verifier::spinoff_prover]
proof fn lemma_parse_nary(p: Prop, b: Seq<u8>, ts: Seq<Lexeme>, k: int, off: int)
    requires
        p is And || p is Or,
        wf(p),
        bytes_at(b, off, render(p)),
        off + render(p).len() <= usize::MAX,
        toks_at(ts, k, rtoks(p, off)),
    ensures
        p_iff(b, ts, k + 1) == Ok::<(Prop, int), ParseError>((p, k + rtoks(p, off).len() - 1)),
    decreases p, 1int,
{
    let xs = children(p);
    let kk = if p is And { Token::And } else { Token::Or };
    lemma_render_nary(xs, kk);
    let rl = rlist(xs, 0, sep_of(kk));
    let rp = render(p);
    let l = ltoks(xs, 0, kk, off + 1);
    let r = rtoks(p, off);
    assert(r == seq![mk(Token::ParenL, off, off + 1)] + l + seq![mk(Token::ParenR, off + 1 + rl.len(), off + 2 + rl.len())]);
    let e = k + 1 + l.len();
    assert(ts[e] == r[e - k]);
    assert(rp.subrange(1, 1 + rl.len() as int) =~= rl);
    lemma_bytes_part(b, off, rp, 1, rl);
    assert(r.subrange(1, 1 + l.len() as int) =~= l);
    lemma_toks_part(ts, k, r, 1, l);
    // the first child
    let x0 = xs[0];
    let r0 = render(x0);
    let t0 = rtoks(x0, off + 1);
    let l1 = ltoks(xs, 1, kk, off + 1 + r0.len() + 3);
    assert(l == t0 + seq![mk(kk, off + 1 + (r0.len() + 1) as int, off + 1 + r0.len() + 2)] + l1);
    assert(rl == r0 + sep_of(kk) + rlist(xs, 1, sep_of(kk)));
    assert(rl.subrange(0, r0.len() as int) =~= r0);
    lemma_bytes_part(b, off + 1, rl, 0, r0);
    let rest = rlist(xs, 1, sep_of(kk));
    assert(rl.subrange((r0.len() + 3) as int, r0.len() + 3 + rest.len() as int) =~= rest);
    lemma_bytes_part(b, off + 1, rl, (r0.len() + 3) as int, rest);
    assert(l.subrange(0, t0.len() as int) =~= t0);
    lemma_toks_part(ts, k + 1, l, 0, t0);
    let q0 = k + 1 + t0.len();
    assert(ts[q0] == l[t0.len() as int]);
    assert(l.subrange((t0.len() + 1) as int, t0.len() + 1 + l1.len() as int) =~= l1);
    lemma_toks_part(ts, k + 1, l, (t0.len() + 1) as int, l1);
    assert(e == q0 + 1 + l1.len());
    lemma_parse_rtoks(x0, b, ts, k + 1, off + 1);
    lemma_parse_list(xs, 1, kk, b, ts, q0 + 1, off + 1 + r0.len() + 3);
    assert(xs.subrange(0, 1) =~= seq![x0]);
    if p is And {
        assert(p_and(b, ts, k + 1) == Ok::<(Prop, int), ParseError>((p, e)));
    } else {
        lemma_levels(b, ts, k + 1, x0, q0);
        assert(p_or(b, ts, k + 1) == Ok::<(Prop, int), ParseError>((p, e)));
    }
    assert(p_or_rest(b, ts, seq![p], e) == Ok::<(Seq<Prop>, int), ParseError>((seq![p], e)));
    assert(p_or(b, ts, k + 1) == Ok::<(Prop, int), ParseError>((p, e)));
    assert(p_imp(b, ts, k + 1) == Ok::<(Prop, int), ParseError>((p, e)));
    assert(p_iff_rest(b, ts, p, e) == Ok::<(Prop, int), ParseError>((p, e)));
}

#[verifier::rlimit(100)]
#[verifier::spinoff_prover]
proof fn lemma_parse_list(xs: Seq<Prop>, j: int, kk: Token, b: Seq<u8>, ts: Seq<Lexeme>, pos: int, off: int)
    requires
        kk == Token::And || kk == Token::Or,
        1 <= j < xs.len(),
        forall|m: int| 0 <= m < xs.len() ==> wf(#[trigger] xs[m]),
        bytes_at(b, off, rlist(xs, j, sep_of(kk))),
        off + rlist(xs, j, sep_of(kk)).len() <= usize::MAX,
        toks_at(ts, pos, ltoks(xs, j, kk, off)),
        1 <= pos,
        ts[pos - 1].kind == kk,
        ts[pos + ltoks(xs, j, kk, off).len()].kind == Token::ParenR,
    ensures
        kk == Token::And ==> p_and_rest(b, ts, xs.subrange(0, j), pos - 1) == Ok::<(Seq<Prop>, int), ParseError>(
            (xs, pos + ltoks(xs, j, kk, off).len())),
        kk == Token::Or ==> p_or_rest(b, ts, xs.subrange(0, j), pos - 1) == Ok::<(Seq<Prop>, int), ParseError>(
            (xs, pos + ltoks(xs, j, kk, off).len())),
    decreases xs, xs.len() - j,
{
    let x = xs[j];
    let rx = render(x);
    let tx = rtoks(x, off);
    let l = ltoks(xs, j, kk, off);
    let rl = rlist(xs, j, sep_of(kk));
    let e = pos + l.len();
    let q = pos + tx.len();
    let acc = xs.subrange(0, j);
    assert(acc.push(x) =~= xs.subrange(0, j + 1));
    if j + 1 == xs.len() {
        assert(l == tx);
        assert(rl == rx);
        lemma_parse_rtoks(x, b, ts, pos, off);
        assert(xs.subrange(0, j + 1) =~= xs);
        if kk == Token::Or {
            lemma_levels(b, ts, pos, x, q);
            assert(p_and(b, ts, pos) == Ok::<(Prop, int), ParseError>((x, q)));
            assert(p_or_rest(b, ts, xs, q) == Ok::<(Seq<Prop>, int), ParseError>((xs, q)));
        } else {
            assert(p_and_rest(b, ts, xs, q) == Ok::<(Seq<Prop>, int), ParseError>((xs, q)));
        }
    } else {
        let l1 = ltoks(xs, j + 1, kk, off + rx.len() + 3);
        let rest = rlist(xs, j + 1, sep_of(kk));
        assert(l == tx + seq![mk(kk, off + (rx.len() + 1) as int, off + rx.len() + 2)] + l1);
        assert(rl == rx + sep_of(kk) + rest);
        assert(rl.subrange(0, rx.len() as int) =~= rx);
        lemma_bytes_part(b, off, rl, 0, rx);
        assert(rl.subrange((rx.len() + 3) as int, rx.len() + 3 + rest.len() as int) =~= rest);
        lemma_bytes_part(b, off, rl, (rx.len() + 3) as int, rest);
        assert(l.subrange(0, tx.len() as int) =~= tx);
        lemma_toks_part(ts, pos, l, 0, tx);
        assert(ts[q] == l[tx.len() as int]);
        assert(l.subrange((tx.len() + 1) as int, tx.len() + 1 + l1.len() as int) =~= l1);
        lemma_toks_part(ts, pos, l, (tx.len() + 1) as int, l1);
        assert(e == q + 1 + l1.len());
        lemma_parse_rtoks(x, b, ts, pos, off);
        lemma_parse_list(xs, j + 1, kk, b, ts, q + 1, off + rx.len() + 3);
        if kk == Token::Or {
            lemma_levels(b, ts, pos, x, q);
            assert(p_and(b, ts, pos) == Ok::<(Prop, int), ParseError>((x, q)));
        }
    }
}


proof fn lemma_wf_nary(xs: Seq<Prop>, is_and: bool)
    requires
        all_wf(xs),
        xs.len() >= 1,
    ensures
        wf(nary(is_and, xs)),
{
    if xs.len() == 1 {
        assert(wf(xs[0]));
    }
}

/// Every symbol token of `ts` is sound for `b`.
pub open spec fn symbols_sound(b: Seq<u8>, ts: Seq<Lexeme>) -> bool {
    forall|k: int| 0 <= k < ts.len() && (#[trigger] ts[k]).kind == Token::Symbol ==> token_sound(b, ts[k])
}

pub open spec fn all_wf(xs: Seq<Prop>) -> bool {
    forall|m: int| 0 <= m < xs.len() ==> wf(#[trigger] xs[m])
}

proof fn lemma_wf_symbol(b: Seq<u8>, ts: Seq<Lexeme>, i: int)
    requires
        symbols_sound(b, ts),
        0 <= i < ts.len(),
        ts[i].kind == Token::Symbol,
    ensures
        wf(atom_of(lexeme_text(b, ts[i]))),
{
    let t = ts[i];
    assert(token_sound(b, t));
    let text = lexeme_text(b, t);
    assert forall|q: int| 0 <= q < text.len() implies is_ident_char(#[trigger] text[q]) by {
        assert(is_ident(b[t.start + q]));
    }
    if text == seq!['v'] {
        assert(text.len() == 1);
        assert(text[0] == 'v');
        assert(b[t.start as int] == 118u8);
    }
}

#[verifier::spinoff_prover]
proof fn lemma_wf_atom(b: Seq<u8>, ts: Seq<Lexeme>, i: int)
    requires
        symbols_sound(b, ts),
    ensures
        p_atom(b, ts, i) matches Ok((p, _)) ==> wf(p),
    decreases ts.len() - i, 1int,
{
    if 0 <= i < ts.len() {
        if ts[i].kind == Token::Symbol {
            lemma_wf_symbol(b, ts, i);
        } else if ts[i].kind == Token::ParenL {
            lemma_wf_iff(b, ts, i + 1);
        }
    }
}

#[verifier::spinoff_prover]
proof fn lemma_wf_not(b: Seq<u8>, ts: Seq<Lexeme>, i: int)
    requires
        symbols_sound(b, ts),
    ensures
        p_not(b, ts, i) matches Ok((p, _)) ==> wf(p),
    decreases ts.len() - i, 2int,
{
    if 0 <= i < ts.len() {
        if ts[i].kind == Token::Not {
            lemma_wf_not(b, ts, i + 1);
        } else {
            lemma_wf_atom(b, ts, i);
        }
    }
}

#[verifier::spinoff_prover]
proof fn lemma_wf_and_rest(b: Seq<u8>, ts: Seq<Lexeme>, acc: Seq<Prop>, i: int)
    requires
        symbols_sound(b, ts),
        all_wf(acc),
    ensures
        p_and_rest(b, ts, acc, i) matches Ok((xs, _)) ==> all_wf(xs) && xs.len() >= acc.len(),
    decreases ts.len() - i, 3int,
{
    if 0 <= i < ts.len() && ts[i].kind == Token::And {
        lemma_wf_not(b, ts, i + 1);
        if let Ok((q, r)) = p_not(b, ts, i + 1) {
            if i < r <= ts.len() {
                assert(all_wf(acc.push(q)));
                lemma_wf_and_rest(b, ts, acc.push(q), r);
            }
        }
    }
}

#[verifier::spinoff_prover]
proof fn lemma_wf_and(b: Seq<u8>, ts: Seq<Lexeme>, i: int)
    requires
        symbols_sound(b, ts),
    ensures
        p_and(b, ts, i) matches Ok((p, _)) ==> wf(p),
    decreases ts.len() - i, 4int,
{
    lemma_wf_not(b, ts, i);
    if let Ok((p, r)) = p_not(b, ts, i) {
        if 0 <= i <= r <= ts.len() {
            assert(all_wf(seq![p]));
            lemma_wf_and_rest(b, ts, seq![p], r);
            if let Ok((xs, r2)) = p_and_rest(b, ts, seq![p], r) {
                assert(p_and(b, ts, i) == Ok::<(Prop, int), ParseError>((nary(true, xs), r2)));
                lemma_wf_nary(xs, true);
            }
        }
    }
}

#[verifier::spinoff_prover]
proof fn lemma_wf_or_rest(b: Seq<u8>, ts: Seq<Lexeme>, acc: Seq<Prop>, i: int)
    requires
        symbols_sound(b, ts),
        all_wf(acc),
    ensures
        p_or_rest(b, ts, acc, i) matches Ok((xs, _)) ==> all_wf(xs) && xs.len() >= acc.len(),
    decreases ts.len() - i, 5int,
{
    if 0 <= i < ts.len() && ts[i].kind == Token::Or {
        lemma_wf_and(b, ts, i + 1);
        if let Ok((q, r)) = p_and(b, ts, i + 1) {
            if i < r <= ts.len() {
                assert(all_wf(acc.push(q)));
                lemma_wf_or_rest(b, ts, acc.push(q), r);
            }
        }
    }
}

#[verifier::rlimit(100)]
#[verifier::spinoff_prover]
proof fn lemma_wf_or(b: Seq<u8>, ts: Seq<Lexeme>, i: int)
    requires
        symbols_sound(b, ts),
    ensures
        p_or(b, ts, i) matches Ok((p, _)) ==> wf(p),
    decreases ts.len() - i, 6int,
{
    lemma_wf_and(b, ts, i);
    if let Ok((p, r)) = p_and(b, ts, i) {
        if 0 <= i <= r <= ts.len() {
            assert(all_wf(seq![p]));
            lemma_wf_or_rest(b, ts, seq![p], r);
            if let Ok((xs, r2)) = p_or_rest(b, ts, seq![p], r) {
                assert(p_or(b, ts, i) == Ok::<(Prop, int), ParseError>((nary(false, xs), r2)));
                lemma_wf_nary(xs, false);
            }
        }
    }
}

#[verifier::spinoff_prover]
proof fn lemma_wf_imp(b: Seq<u8>, ts: Seq<Lexeme>, i: int)
    requires
        symbols_sound(b, ts),
    ensures
        p_imp(b, ts, i) matches Ok((p, _)) ==> wf(p),
    decreases ts.len() - i, 7int,
{
    lemma_wf_or(b, ts, i);
    if let Ok((p, r)) = p_or(b, ts, i) {
        if 0 <= i <= r < ts.len() && ts[r].kind == Token::Imp {
            lemma_wf_imp(b, ts, r + 1);
        }
    }
}

#[verifier::spinoff_prover]
proof fn lemma_wf_iff_rest(b: Seq<u8>, ts: Seq<Lexeme>, acc: Prop, i: int)
    requires
        symbols_sound(b, ts),
        wf(acc),
    ensures
        p_iff_rest(b, ts, acc, i) matches Ok((p, _)) ==> wf(p),
    decreases ts.len() - i, 8int,
{
    if 0 <= i < ts.len() && ts[i].kind == Token::Iff {
        lemma_wf_imp(b, ts, i + 1);
        if let Ok((q, r)) = p_imp(b, ts, i + 1) {
            if i < r <= ts.len() {
                lemma_wf_iff_rest(b, ts, Prop::Iff(Box::new(acc), Box::new(q)), r);
            }
        }
    }
}

#[verifier::spinoff_prover]
proof fn lemma_wf_iff(b: Seq<u8>, ts: Seq<Lexeme>, i: int)
    requires
        symbols_sound(b, ts),
    ensures
        p_iff(b, ts, i) matches Ok((p, _)) ==> wf(p),
    decreases ts.len() - i, 9int,
{
    lemma_wf_imp(b, ts, i);
    if let Ok((p, r)) = p_imp(b, ts, i) {
        if 0 <= i <= r <= ts.len() {
            lemma_wf_iff_rest(b, ts, p, r);
        }
    }
}

/// Every sentence the parser returns is well formed.
pub proof fn lemma_parse_wf(b: Seq<u8>)
    requires
        b.len() <= usize::MAX,
    ensures
        parse_spec(b) matches Ok(p) ==> wf(p),
{
    lemma_lex_shape(b);
    let ts = lex(b);
    assert forall|k: int| 0 <= k < ts.len() && (#[trigger] ts[k]).kind == Token::Symbol implies token_sound(b, ts[k]) by {
        assert(k < ts.len() - 1);
    }
    lemma_wf_iff(b, ts, 0);
}

/// Parsing the text of a well-formed sentence gives the sentence back.
pub proof fn lemma_parse_render(p: Prop)
    requires
        wf(p),
        render(p).len() <= usize::MAX,
    ensures
        parse_spec(to_bytes(render(p))) == Ok::<Prop, ParseError>(p),
{
    let r = render(p);
    let t = to_bytes(r);
    let n = r.len() as int;
    assert(bytes_at(t, 0, r));
    lemma_lex_rtoks(p, t, 0);
    let ts = lex(t);
    let rt = rtoks(p, 0);
    assert(lex_from(t, n) == seq![mk(Token::Eof, n, n)]);
    assert(ts == rt + seq![mk(Token::Eof, n, n)]);
    assert(toks_at(ts, 0, rt));
    lemma_parse_rtoks(p, t, ts, 0, 0);
    let e = rt.len() as int;
    assert(ts[e].kind == Token::Eof);
    lemma_levels(t, ts, 0, p, e);
    assert(p_iff_rest(t, ts, p, e) == Ok::<(Prop, int), ParseError>((p, e)));
    assert(p_iff(t, ts, 0) == Ok::<(Prop, int), ParseError>((p, e)));
}

proof fn lemma_ascii_concat(x: Seq<char>, y: Seq<char>)
    requires
        is_ascii_chars(x),
        is_ascii_chars(y),
    ensures
        is_ascii_chars(x + y),
{
    assert forall|q: int| 0 <= q < (x + y).len() implies '\0' <= #[trigger] (x + y)[q] <= '\u{7f}' by {
        if q < x.len() {
            assert((x + y)[q] == x[q]);
        } else {
            assert((x + y)[q] == y[q - x.len()]);
        }
    }
}

proof fn lemma_render_ascii(p: Prop)
    requires
        wf(p),
    ensures
        is_ascii_chars(render(p)),
    decreases p, 1int,
{
    let r = render(p);
    match p {
        Prop::True => {
            assert(is_ascii_chars(r));
        },
        Prop::False => {
            assert(is_ascii_chars(r));
        },
        Prop::Symbol(w) => {
            assert forall|q: int| 0 <= q < r.len() implies '\0' <= #[trigger] r[q] <= '\u{7f}' by {
                assert(is_ident_char(w[q]));
            }
        },
        Prop::Not(x) => {
            lemma_render_ascii(*x);
            lemma_ascii_concat(seq!['~'], render(*x));
        },
        Prop::Imp(a, c) => {
            lemma_render_ascii(*a);
            lemma_render_ascii(*c);
            lemma_ascii_concat(seq!['('], render(*a));
            lemma_ascii_concat(seq!['('] + render(*a), op_text(p));
            lemma_ascii_concat(seq!['('] + render(*a) + op_text(p), render(*c));
            lemma_ascii_concat(seq!['('] + render(*a) + op_text(p) + render(*c), seq![')']);
            assert(r == seq!['('] + render(*a) + op_text(p) + render(*c) + seq![')']);
        },
        Prop::Iff(a, c) => {
            lemma_render_ascii(*a);
            lemma_render_ascii(*c);
            lemma_ascii_concat(seq!['('], render(*a));
            lemma_ascii_concat(seq!['('] + render(*a), op_text(p));
            lemma_ascii_concat(seq!['('] + render(*a) + op_text(p), render(*c));
            lemma_ascii_concat(seq!['('] + render(*a) + op_text(p) + render(*c), seq![')']);
            assert(r == seq!['('] + render(*a) + op_text(p) + render(*c) + seq![')']);
        },
        Prop::And(xs) => {
            lemma_render_nary(xs, Token::And);
            lemma_rlist_ascii(xs, 0, sep_of(Token::And));
            lemma_ascii_concat(seq!['('], rlist(xs, 0, sep_of(Token::And)));
            lemma_ascii_concat(seq!['('] + rlist(xs, 0, sep_of(Token::And)), seq![')']);
        },
        Prop::Or(xs) => {
            lemma_render_nary(xs, Token::Or);
            lemma_rlist_ascii(xs, 0, sep_of(Token::Or));
            lemma_ascii_concat(seq!['('], rlist(xs, 0, sep_of(Token::Or)));
            lemma_ascii_concat(seq!['('] + rlist(xs, 0, sep_of(Token::Or)), seq![')']);
        },
    }
}

proof fn lemma_rlist_ascii(xs: Seq<Prop>, j: int, sep: Seq<char>)
    requires
        all_wf(xs),
        is_ascii_chars(sep),
    ensures
        is_ascii_chars(rlist(xs, j, sep)),
    decreases xs, xs.len() - j,
{
    if 0 <= j < xs.len() {
        lemma_render_ascii(xs[j]);
        if j + 1 < xs.len() {
            lemma_rlist_ascii(xs, j + 1, sep);
            lemma_ascii_concat(render(xs[j]), sep);
            lemma_ascii_concat(render(xs[j]) + sep, rlist(xs, j + 1, sep));
        }
    }
}

/// Rendering a parsed sentence and parsing its text again gives the same
/// sentence: `parse(render(parse(s))) == parse(s)` whenever `parse(s)`
/// succeeds.
pub proof fn lemma_round_trip(b: Seq<u8>, p: Prop)
    requires
        b.len() <= usize::MAX,
        parse_spec(b) == Ok::<Prop, ParseError>(p),
        render(p).len() <= usize::MAX,
    ensures
        parse_spec(encode_utf8(render(p))) == parse_spec(b),
{
    lemma_parse_wf(b);
    lemma_parse_render(p);
    lemma_render_ascii(p);
    is_ascii_chars_encode_utf8(render(p));
    assert(encode_utf8(render(p)) =~= to_bytes(render(p)));
}

} // verus!
