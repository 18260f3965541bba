use pimpl::parsing::{tokenize, Lexeme, Token};

fn kinds(text: &str) -> Vec<Token> {
    tokenize(text.as_bytes()).iter().map(|t| t.kind).collect()
}

fn lexemes(text: &str) -> Vec<String> {
    tokenize(text.as_bytes())
        .iter()
        .filter(|t| t.kind != Token::Eof)
        .map(|t| text[t.start..t.end].to_string())
        .collect()
}

#[test]
fn lone_v_is_or() {
    assert_eq!(kinds("a v b"), vec![Token::Symbol, Token::Or, Token::Symbol, Token::Eof]);
    assert_eq!(kinds("v"), vec![Token::Or, Token::Eof]);
}

#[test]
fn words_starting_with_v_are_symbols() {
    for w in ["vest", "v_", "v1", "v'"] {
        assert_eq!(kinds(w), vec![Token::Symbol, Token::Eof], "{}", w);
    }
}

#[test]
fn all_token_kinds() {
    assert_eq!(
        kinds("~p ^ q v r -> s <=> (t)\n"),
        vec![
            Token::Not,
            Token::Symbol,
            Token::And,
            Token::Symbol,
            Token::Or,
            Token::Symbol,
            Token::Imp,
            Token::Symbol,
            Token::Iff,
            Token::ParenL,
            Token::Symbol,
            Token::ParenR,
            Token::NewLine,
            Token::Eof,
        ]
    );
}

#[test]
fn spans_are_byte_offsets() {
    let ts = tokenize("ab  <=>\tc".as_bytes());
    assert_eq!(
        ts,
        vec![
            Lexeme { kind: Token::Symbol, start: 0, end: 2 },
            Lexeme { kind: Token::Iff, start: 4, end: 7 },
            Lexeme { kind: Token::Symbol, start: 8, end: 9 },
            Lexeme { kind: Token::Eof, start: 9, end: 9 },
        ]
    );
}

#[test]
fn lexemes_rebuild_the_text() {
    let text = "favorite ^ bar -> vest v testy";
    assert_eq!(lexemes(text).join(" "), text);
    let spaced = "  (a\t^\x0cb)   ->c ";
    assert_eq!(lexemes(spaced).join(" "), "( a ^ b ) -> c");
}

#[test]
fn empty_input_is_only_eof() {
    assert_eq!(tokenize(b""), vec![Lexeme { kind: Token::Eof, start: 0, end: 0 }]);
    assert_eq!(kinds(" \t "), vec![Token::Eof]);
}

#[test]
fn each_foreign_byte_is_one_error() {
    let ts = tokenize("a $# b".as_bytes());
    assert_eq!(
        ts,
        vec![
            Lexeme { kind: Token::Symbol, start: 0, end: 1 },
            Lexeme { kind: Token::Error, start: 2, end: 3 },
            Lexeme { kind: Token::Error, start: 3, end: 4 },
            Lexeme { kind: Token::Symbol, start: 5, end: 6 },
            Lexeme { kind: Token::Eof, start: 6, end: 6 },
        ]
    );
    // A two-byte character gives one error per byte.
    assert_eq!(kinds("é"), vec![Token::Error, Token::Error, Token::Eof]);
}

#[test]
fn incomplete_arrows_are_errors() {
    assert_eq!(kinds("<="), vec![Token::Error, Token::Error, Token::Eof]);
    assert_eq!(kinds("-"), vec![Token::Error, Token::Eof]);
    assert_eq!(kinds("->"), vec![Token::Imp, Token::Eof]);
}
