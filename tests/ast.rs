use pimpl::types::{AstError, Sentence};

fn sym(s: &str) -> Sentence {
    Sentence::Symbol(s.to_string())
}

#[test]
fn symbol_accepts_identifiers() {
    assert_eq!(Sentence::symbol("favorite".to_string()), Ok(sym("favorite")));
    assert_eq!(Sentence::symbol("v'_1".to_string()), Ok(sym("v'_1")));
    assert_eq!(Sentence::symbol("vest".to_string()), Ok(sym("vest")));
}

#[test]
fn symbol_rejects_bad_names() {
    assert_eq!(Sentence::symbol(String::new()), Err(AstError::InvalidSymbol));
    assert_eq!(Sentence::symbol("v".to_string()), Err(AstError::InvalidSymbol));
    assert_eq!(Sentence::symbol("a b".to_string()), Err(AstError::InvalidSymbol));
    assert_eq!(Sentence::symbol("é".to_string()), Err(AstError::InvalidSymbol));
    assert_eq!(Sentence::symbol("a-b".to_string()), Err(AstError::InvalidSymbol));
}

#[test]
fn not_wraps() {
    assert_eq!(Sentence::not(sym("p")), Sentence::Not(Box::new(sym("p"))));
}

#[test]
fn and_or_collapse_and_reject() {
    assert_eq!(Sentence::and(vec![]), Err(AstError::EmptyConnective));
    assert_eq!(Sentence::or(vec![]), Err(AstError::EmptyConnective));
    assert_eq!(Sentence::and(vec![sym("a")]), Ok(sym("a")));
    assert_eq!(Sentence::or(vec![sym("a")]), Ok(sym("a")));
    assert_eq!(
        Sentence::and(vec![sym("a"), sym("b")]),
        Ok(Sentence::And(vec![sym("a"), sym("b")]))
    );
    assert_eq!(
        Sentence::or(vec![sym("a"), sym("b"), sym("c")]),
        Ok(Sentence::Or(vec![sym("a"), sym("b"), sym("c")]))
    );
}

#[test]
fn imp_and_iff_build_binary_nodes() {
    assert_eq!(
        Sentence::imp(sym("a"), sym("b")),
        Sentence::Imp(Box::new(sym("a")), Box::new(sym("b")))
    );
    assert_eq!(
        Sentence::iff(sym("a"), sym("b")),
        Sentence::Iff(Box::new(sym("a")), Box::new(sym("b")))
    );
}

#[test]
fn render_forms() {
    assert_eq!(Sentence::True.render(), "true");
    assert_eq!(Sentence::False.render(), "false");
    assert_eq!(sym("p").render(), "p");
    assert_eq!(Sentence::not(Sentence::not(sym("p"))).render(), "~~p");
    assert_eq!(Sentence::And(vec![sym("a"), sym("b"), sym("c")]).render(), "(a ^ b ^ c)");
    assert_eq!(Sentence::Or(vec![sym("a"), sym("b")]).render(), "(a v b)");
    assert_eq!(Sentence::imp(sym("a"), sym("c")).render(), "(a -> c)");
    assert_eq!(Sentence::iff(sym("l"), sym("r")).render(), "(l <=> r)");
    assert_eq!(
        Sentence::not(Sentence::And(vec![sym("a"), Sentence::Or(vec![sym("b"), sym("c")])])).render(),
        "~(a ^ (b v c))"
    );
}
