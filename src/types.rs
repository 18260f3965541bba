use vstd::prelude::*;

verus! {

broadcast use vstd::std_specs::vec::group_vec_axioms;

/// Mathematical model of a propositional sentence.
pub enum Prop {
    True,
    False,
    Symbol(Seq<char>),
    Not(Box<Prop>),
    And(Seq<Prop>),
    Or(Seq<Prop>),
    Imp(Box<Prop>, Box<Prop>),
    Iff(Box<Prop>, Box<Prop>),
}

/// A propositional sentence; each node owns its subtrees.
#[derive(Debug, PartialEq, Eq)]
pub enum Sentence {
    True,
    False,
    Symbol(String),
    Not(Box<Sentence>),
    And(Vec<Sentence>),
    Or(Vec<Sentence>),
    Imp(Box<Sentence>, Box<Sentence>),
    Iff(Box<Sentence>, Box<Sentence>),
}

impl Sentence {
    pub open spec fn view(&self) -> Prop
        decreases self,
    {
        match self {
            Sentence::True => Prop::True,
            Sentence::False => Prop::False,
            Sentence::Symbol(s) => Prop::Symbol(s@),
            Sentence::Not(c) => Prop::Not(Box::new(c.view())),
            Sentence::And(v) => Prop::And(Seq::new(v.len() as nat, |i: int| if 0 <= i < v.len() { v[i].view() } else { Prop::True })),
            Sentence::Or(v) => Prop::Or(Seq::new(v.len() as nat, |i: int| if 0 <= i < v.len() { v[i].view() } else { Prop::True })),
            Sentence::Imp(a, b) => Prop::Imp(Box::new(a.view()), Box::new(b.view())),
            Sentence::Iff(a, b) => Prop::Iff(Box::new(a.view()), Box::new(b.view())),
        }
    }
}


/// Error of a smart constructor.
#[derive(PartialEq, Eq, Structural, Clone, Copy, Debug)]
pub enum AstError {
    InvalidSymbol,
    EmptyConnective,
}

/// Characters of `[A-Za-z0-9_']`.
pub open spec fn is_ident_char(c: char) -> bool {
    ('A' <= c <= 'Z') || ('a' <= c <= 'z') || ('0' <= c <= '9') || c == '_' || c == '\''
}

/// A name a symbol may carry: non-empty, identifier characters only, and not the word `v`.
pub open spec fn valid_name(s: Seq<char>) -> bool {
    s.len() > 0 && (forall|i: int| 0 <= i < s.len() ==> is_ident_char(#[trigger] s[i])) && s != seq!['v']
}

/// The views of a list of sentences.
pub open spec fn views(v: Seq<Sentence>) -> Seq<Prop> {
    Seq::new(v.len(), |i: int| v[i].view())
}

/// The sentence a smart n-ary constructor builds from `xs`: the sole child, or the node.
pub open spec fn nary(is_and: bool, xs: Seq<Prop>) -> Prop {
    if xs.len() == 1 {
        xs[0]
    } else if is_and {
        Prop::And(xs)
    } else {
        Prop::Or(xs)
    }
}

/// The view of an n-ary node is the node over the views of its children.
pub proof fn lemma_view_nary(v: Vec<Sentence>)
    ensures
        Sentence::And(v)@ == Prop::And(views(v@)),
        Sentence::Or(v)@ == Prop::Or(views(v@)),
{
    let a = Sentence::And(v)@;
    let o = Sentence::Or(v)@;
    if let Prop::And(xs) = a {
        assert(xs =~= views(v@));
    }
    if let Prop::Or(xs) = o {
        assert(xs =~= views(v@));
    }
}

impl Sentence {
    /// A symbol, checked against the identifier rules.
    pub fn symbol(s: String) -> (r: Result<Sentence, AstError>)
        ensures
            valid_name(s@) ==> (r matches Ok(x) && x@ == Prop::Symbol(s@)),
            !valid_name(s@) ==> r == Err::<Sentence, AstError>(AstError::InvalidSymbol),
    {
        broadcast use vstd::string::is_ascii_spec_bytes;
        if !s.as_str().is_ascii() {
            proof {
                assert(valid_name(s@) ==> vstd::utf8::is_ascii_chars(s@));
            }
            return Err(AstError::InvalidSymbol);
        }
        let n = s.as_str().unicode_len();
        proof {
            assert(vstd::utf8::is_ascii_chars(s@));
        }
        if n == 0 {
            return Err(AstError::InvalidSymbol);
        }
        let mut i: usize = 0;
        while i < n
            invariant
                n == s@.len(),
                i <= n,
                vstd::utf8::is_ascii_chars(s@),
                forall|k: int| 0 <= k < i ==> is_ident_char(#[trigger] s@[k]),
            decreases n - i,
        {
            let c = s.as_str().get_ascii(i);
            if !((65u8 <= c && c <= 90u8) || (97u8 <= c && c <= 122u8) || (48u8 <= c && c <= 57u8) || c == 95u8
                || c == 39u8) {
                return Err(AstError::InvalidSymbol);
            }
            i = i + 1;
        }
        if n == 1 && s.as_str().get_ascii(0) == 118u8 {
            proof {
                assert(s@ =~= seq!['v']);
            }
            return Err(AstError::InvalidSymbol);
        }
        Ok(Sentence::Symbol(s))
    }

    /// The negation of `s`.
    pub fn not(s: Sentence) -> (r: Sentence)
        ensures
            r@ == Prop::Not(Box::new(s@)),
    {
        Sentence::Not(Box::new(s))
    }

    /// The conjunction of `s`; a single child is returned as it is.
    pub fn and(s: Vec<Sentence>) -> (r: Result<Sentence, AstError>)
        ensures
            s@.len() == 0 ==> r == Err::<Sentence, AstError>(AstError::EmptyConnective),
            s@.len() > 0 ==> (r matches Ok(x) && x@ == nary(true, views(s@))),
    {
        Sentence::connective(true, s)
    }

    /// The disjunction of `s`; a single child is returned as it is.
    pub fn or(s: Vec<Sentence>) -> (r: Result<Sentence, AstError>)
        ensures
            s@.len() == 0 ==> r == Err::<Sentence, AstError>(AstError::EmptyConnective),
            s@.len() > 0 ==> (r matches Ok(x) && x@ == nary(false, views(s@))),
    {
        Sentence::connective(false, s)
    }

    fn connective(is_and: bool, s: Vec<Sentence>) -> (r: Result<Sentence, AstError>)
        ensures
            s@.len() == 0 ==> r == Err::<Sentence, AstError>(AstError::EmptyConnective),
            s@.len() > 0 ==> (r matches Ok(x) && x@ == nary(is_and, views(s@))),
    {
        if s.len() == 0 {
            Err(AstError::EmptyConnective)
        } else {
            Ok(Sentence::join(is_and, s))
        }
    }

    /// The n-ary node over `s`, or its sole element.
    pub(crate) fn join(is_and: bool, s: Vec<Sentence>) -> (r: Sentence)
        requires
            s@.len() > 0,
        ensures
            r@ == nary(is_and, views(s@)),
    {
        let ghost s0 = s@;
        let mut s = s;
        if s.len() == 1 {
            let x = s.pop().unwrap();
            proof {
                assert(views(s0)[0] == x@);
            }
            x
        } else if is_and {
            proof {
                lemma_view_nary(s);
            }
            Sentence::And(s)
        } else {
            proof {
                lemma_view_nary(s);
            }
            Sentence::Or(s)
        }
    }

    /// The implication `sl -> sr`.
    pub fn imp(sl: Sentence, sr: Sentence) -> (r: Sentence)
        ensures
            r@ == Prop::Imp(Box::new(sl@), Box::new(sr@)),
    {
        Sentence::Imp(Box::new(sl), Box::new(sr))
    }

    /// The biconditional `sl <=> sr`.
    pub fn iff(sl: Sentence, sr: Sentence) -> (r: Sentence)
        ensures
            r@ == Prop::Iff(Box::new(sl@), Box::new(sr@)),
    {
        Sentence::Iff(Box::new(sl), Box::new(sr))
    }
}

} // verus!
