use pimpl::parsing::Token;
use pimpl::parser::{parse, ErrorKind, Expected, ParseError};
use pimpl::types::Sentence;

fn sym(s: &str) -> Sentence {
    Sentence::Symbol(s.to_string())
}

fn not(s: Sentence) -> Sentence {
    Sentence::Not(Box::new(s))
}

fn and(v: Vec<Sentence>) -> Sentence {
    Sentence::And(v)
}

fn or(v: Vec<Sentence>) -> Sentence {
    Sentence::Or(v)
}

fn imp(a: Sentence, b: Sentence) -> Sentence {
    Sentence::Imp(Box::new(a), Box::new(b))
}

fn iff(a: Sentence, b: Sentence) -> Sentence {
    Sentence::Iff(Box::new(a), Box::new(b))
}

fn err(kind: ErrorKind, start: usize, end: usize) -> Result<Sentence, ParseError> {
    Err(ParseError { kind, start, end })
}

#[test]
fn precedence_of_and_over_or() {
    assert_eq!(parse("a v b ^ c"), Ok(or(vec![sym("a"), and(vec![sym("b"), sym("c")])])));
}

#[test]
fn implication_nests_right() {
    assert_eq!(parse("a -> b -> c"), Ok(imp(sym("a"), imp(sym("b"), sym("c")))));
}

#[test]
fn biconditional_nests_left() {
    assert_eq!(parse("a <=> b <=> c"), Ok(iff(iff(sym("a"), sym("b")), sym("c"))));
}

#[test]
fn conjunctions_flatten() {
    assert_eq!(parse("a ^ b ^ c"), Ok(and(vec![sym("a"), sym("b"), sym("c")])));
    assert_eq!(parse("a v b v c v d"), Ok(or(vec![sym("a"), sym("b"), sym("c"), sym("d")])));
}

#[test]
fn negations_stack() {
    assert_eq!(parse("~~p"), Ok(not(not(sym("p")))));
}

#[test]
fn parentheses_are_transparent() {
    assert_eq!(parse("(((p)))"), parse("p"));
    assert_eq!(parse("(((p)))"), Ok(sym("p")));
}

#[test]
fn scenario_and_then_or() {
    assert_eq!(
        parse("favorite ^ bar -> vest v testy"),
        Ok(imp(
            and(vec![sym("favorite"), sym("bar")]),
            or(vec![sym("vest"), sym("testy")])
        ))
    );
}

#[test]
fn scenario_parenthesised_disjunctions() {
    assert_eq!(
        parse("(favorite v bar) -> (vest v testy)"),
        Ok(imp(
            or(vec![sym("favorite"), sym("bar")]),
            or(vec![sym("vest"), sym("testy")])
        ))
    );
}

#[test]
fn scenario_negated_biconditional() {
    assert_eq!(parse("~a <=> ~~a"), Ok(iff(not(sym("a")), not(not(sym("a"))))));
}

#[test]
fn scenario_and_binds_tighter() {
    assert_eq!(parse("a ^ b v c"), Ok(or(vec![and(vec![sym("a"), sym("b")]), sym("c")])));
}

#[test]
fn scenario_unclosed_paren() {
    assert_eq!(parse("(a ^ b"), err(ErrorKind::UnmatchedParen, 0, 1));
}

#[test]
fn scenario_double_operator() {
    assert_eq!(
        parse("a ^ ^ b"),
        err(ErrorKind::UnexpectedToken { expected: Expected::Atom, found: Token::And }, 4, 5)
    );
}

#[test]
fn constants() {
    assert_eq!(parse("true"), Ok(Sentence::True));
    assert_eq!(parse("false ^ truth"), Ok(and(vec![Sentence::False, sym("truth")])));
}

#[test]
fn new_line_ends_the_sentence() {
    assert_eq!(parse("a ^ b\nc"), Ok(and(vec![sym("a"), sym("b")])));
}

#[test]
fn error_kinds() {
    assert_eq!(parse(""), err(ErrorKind::UnexpectedEnd, 0, 0));
    assert_eq!(parse("a ^"), err(ErrorKind::UnexpectedEnd, 3, 3));
    assert_eq!(parse("a)"), err(ErrorKind::UnexpectedClose, 1, 2));
    assert_eq!(parse(")"), err(ErrorKind::UnexpectedClose, 0, 1));
    assert_eq!(parse("a $"), err(ErrorKind::LexicalError, 2, 3));
    assert_eq!(parse("a ^ $"), err(ErrorKind::LexicalError, 4, 5));
    assert_eq!(parse("a b"), err(ErrorKind::TrailingInput, 2, 3));
    assert_eq!(
        parse("(a b)"),
        err(ErrorKind::UnexpectedToken { expected: Expected::ParenR, found: Token::Symbol }, 3, 4)
    );
    assert_eq!(
        parse("-> a"),
        err(ErrorKind::UnexpectedToken { expected: Expected::Atom, found: Token::Imp }, 0, 2)
    );
}

#[test]
fn render_then_parse_gives_back_the_sentence() {
    for text in [
        "p -> q",
        "(favorite v bar) -> (vest v testy)",
        "~(a ^ b) <=> (~a v ~b)",
        "a ^ b ^ c ^ d",
        "a <=> b <=> c",
        "a -> b -> c",
        "~~true v false",
        "(a ^ b) ^ c",
    ] {
        let first = parse(text).unwrap();
        let again = parse(&first.render()).unwrap();
        assert_eq!(again, first, "{}", text);
    }
}

#[test]
fn render_of_parse() {
    assert_eq!(parse("a ^ b v c").unwrap().render(), "((a ^ b) v c)");
    assert_eq!(parse("(a ^ b) ^ c").unwrap().render(), "((a ^ b) ^ c)");
}
