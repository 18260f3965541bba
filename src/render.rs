use vstd::prelude::*;
use crate::types::{Prop, Sentence, views, lemma_view_nary};

verus! {

/// The parts joined by `sep`.
pub open spec fn join_with(parts: Seq<Seq<char>>, sep: Seq<char>) -> Seq<char>
    decreases parts.len(),
{
    if parts.len() == 0 {
        seq![]
    } else if parts.len() == 1 {
        parts[0]
    } else {
        join_with(parts.drop_last(), sep) + sep + parts.last()
    }
}

/// The canonical text of a sentence: every connective other than `~` is
/// parenthesised, and operands are separated by single spaces.
pub open spec fn render(p: Prop) -> Seq<char>
    decreases p,
{
    match p {
        Prop::True => seq!['t', 'r', 'u', 'e'],
        Prop::False => seq!['f', 'a', 'l', 's', 'e'],
        Prop::Symbol(s) => s,
        Prop::Not(x) => seq!['~'] + render(*x),
        Prop::And(xs) => seq!['('] + join_with(renders(xs), seq![' ', '^', ' ']) + seq![')'],
        Prop::Or(xs) => seq!['('] + join_with(renders(xs), seq![' ', 'v', ' ']) + seq![')'],
        Prop::Imp(a, c) => seq!['('] + render(*a) + seq![' ', '-', '>', ' '] + render(*c) + seq![')'],
        Prop::Iff(l, r) => seq!['('] + render(*l) + seq![' ', '<', '=', '>', ' '] + render(*r) + seq![')'],
    }
}

/// The texts of the sentences `xs`.
pub open spec fn renders(xs: Seq<Prop>) -> Seq<Seq<char>>
    decreases xs,
{
    Seq::new(xs.len(), |i: int| if 0 <= i < xs.len() { render(xs[i]) } else { seq![] })
}

impl Sentence {
    /// The canonical text of this sentence.
    pub fn render(&self) -> (r: String)
        ensures
            r@ == render(self@),
        decreases self, 1int,
    {
        match self {
            Sentence::True => {
                proof {
                    reveal_strlit("true");
                    assert("true"@ =~= seq!['t', 'r', 'u', 'e']);
                }
                String::from_str("true")
            },
            Sentence::False => {
                proof {
                    reveal_strlit("false");
                    assert("false"@ =~= seq!['f', 'a', 'l', 's', 'e']);
                }
                String::from_str("false")
            },
            Sentence::Symbol(s) => s.clone(),
            Sentence::Not(x) => {
                proof {
                    reveal_strlit("~");
                }
                let mut out = String::from_str("~");
                let inner = x.render();
                out.append(inner.as_str());
                out
            },
            Sentence::And(v) => {
                proof {
                    lemma_view_nary(*v);
                    reveal_strlit(" ^ ");
                    assert(" ^ "@ =~= seq![' ', '^', ' ']);
                }
                Sentence::render_list(v, " ^ ")
            },
            Sentence::Or(v) => {
                proof {
                    lemma_view_nary(*v);
                    reveal_strlit(" v ");
                    assert(" v "@ =~= seq![' ', 'v', ' ']);
                }
                Sentence::render_list(v, " v ")
            },
            Sentence::Imp(a, c) => {
                proof {
                    reveal_strlit(" -> ");
                    reveal_strlit("(");
                    reveal_strlit(")");
                }
                let mut out = String::from_str("(");
                let left = a.render();
                out.append(left.as_str());
                out.append(" -> ");
                let right = c.render();
                out.append(right.as_str());
                out.append(")");
                proof {
                    assert(out@ =~= render(self@));
                }
                out
            },
            Sentence::Iff(l, r) => {
                proof {
                    reveal_strlit(" <=> ");
                    reveal_strlit("(");
                    reveal_strlit(")");
                }
                let mut out = String::from_str("(");
                let left = l.render();
                out.append(left.as_str());
                out.append(" <=> ");
                let right = r.render();
                out.append(right.as_str());
                out.append(")");
                proof {
                    assert(out@ =~= render(self@));
                }
                out
            },
        }
    }

    fn render_list(v: &Vec<Sentence>, sep: &str) -> (r: String)
        ensures
            r@ == seq!['('] + join_with(renders(views(v@)), sep@) + seq![')'],
        decreases v, 0int,
    {
        proof {
            reveal_strlit("(");
            reveal_strlit(")");
        }
        let mut out = String::from_str("(");
        let ghost parts = renders(views(v@));
        let mut k: usize = 0;
        while k < v.len()
            invariant
                k <= v@.len(),
                parts == renders(views(v@)),
                out@ == seq!['('] + join_with(parts.subrange(0, k as int), sep@),
            decreases v@.len() - k,
        {
            if k > 0 {
                out.append(sep);
            }
            proof {
                assert(decreases_to!(v => v@[k as int]));
            }
            let part = v[k].render();
            out.append(part.as_str());
            proof {
                let pre = parts.subrange(0, k as int);
                let next = parts.subrange(0, k + 1);
                assert(next.drop_last() =~= pre);
                assert(part@ == parts[k as int]);
                assert(out@ =~= seq!['('] + join_with(next, sep@));
            }
            k = k + 1;
        }
        out.append(")");
        proof {
            assert(parts.subrange(0, v@.len() as int) =~= parts);
        }
        out
    }
}

} // verus!
