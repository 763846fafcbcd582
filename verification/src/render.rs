//! Textual rendering of terms, tokens and clauses.
//!
//! A compound term renders as `head(arg1,arg2,...)`, except for the
//! cons-list convention: a binary `cons` cell renders as a bracketed list
//! `[e1,e2]`, closed by the atom `nil`, or `[e1|tail]` when the tail is not
//! eventually `nil`.  Rendering is a pure function of the term tree.

use vstd::prelude::*;

use crate::terms::Clause;
use crate::terms::ClauseV;
use crate::terms::Term;
use crate::terms::TermV;
use crate::terms::Token;
use crate::terms::TokenV;
use crate::terms::lemma_term_seq_view_index;
use crate::terms::lemma_term_seq_view_len;
use crate::terms::term_seq_view;
use vstd::string::StringExecFns;
use vstd::string::StrSliceExecFns;

verus! {

broadcast use vstd::seq::group_seq_axioms;

/// The rendered text of a term.
pub open spec fn render_term(t: TermV) -> Seq<char>
    decreases t, 0int,
{
    match t {
        TermV::Var(name) => name,
        TermV::Atom(name) => name,
        TermV::Cmp { head, args } => {
            if head == "cons"@ && args.len() == 2 {
                "["@ + render_term(args[0]) + render_list_tail(args[1])
            } else {
                head + "("@ + render_args(args) + ")"@
            }
        },
    }
}

/// The rendered text of a compound's argument list, comma-separated.
pub open spec fn render_args(ts: Seq<TermV>) -> Seq<char>
    decreases ts, 1int,
{
    if ts.len() == 0 {
        Seq::empty()
    } else if ts.len() == 1 {
        render_term(ts[0])
    } else {
        render_term(ts[0]) + ","@ + render_args(ts.drop_first())
    }
}

/// The rendered text after a list element: more comma-separated elements
/// while the tail is a cons cell, nothing for `nil`, and `|tail` otherwise,
/// always closed by the bracket.
pub open spec fn render_list_tail(t: TermV) -> Seq<char>
    decreases t, 1int,
{
    match t {
        TermV::Cmp { head, args } if head == "cons"@ && args.len() == 2 => {
            ","@ + render_term(args[0]) + render_list_tail(args[1])
        },
        TermV::Atom(name) if name == "nil"@ => "]"@,
        _ => "|"@ + render_term(t) + "]"@,
    }
}

/// The rendered text of one token.
pub open spec fn render_token(t: TokenV) -> Seq<char> {
    match t {
        TokenV::Var(name) => name,
        TokenV::Atom(name) => name,
        TokenV::LeftParen => "("@,
        TokenV::RightParen => ")"@,
        TokenV::Period => "."@,
        TokenV::Comma => ","@,
        TokenV::ColonHyphen => ":-"@,
    }
}

/// The rendered text of a clause, closed by a period and a newline.
pub open spec fn render_clause(c: ClauseV) -> Seq<char> {
    match c {
        ClauseV::Fact(head) => render_term(head) + ".\n"@,
        ClauseV::Rule(head, body) => render_term(head) + " :- "@ + render_body(body) + ".\n"@,
    }
}

/// The rendered text of a rule body, separated by comma and space.
pub open spec fn render_body(ts: Seq<TermV>) -> Seq<char>
    decreases ts.len(),
{
    if ts.len() == 0 {
        Seq::empty()
    } else if ts.len() == 1 {
        render_term(ts[0])
    } else {
        render_term(ts[0]) + ", "@ + render_body(ts.drop_first())
    }
}

impl Term {
    /// Renders the term, with the cons-list convention.
    pub fn display_string(&self) -> (s: String)
        ensures
            s@ == render_term(self@),
        decreases *self, 0int,
    {
        match self {
            Term::Var(name) => name.clone(),
            Term::Atom(name) => name.clone(),
            Term::Compound { head_atom, termlist } => {
                proof {
                    lemma_term_seq_view_len(termlist@);
                }
                if *head_atom == String::from_str("cons") && termlist.len() == 2 {
                    proof {
                        assert(decreases_to!(*self => self->Compound_termlist));
                        assert(decreases_to!(*termlist => termlist[0int]));
                        assert(decreases_to!(*termlist => termlist[1int]));
                        lemma_term_seq_view_index(termlist@, 0);
                        lemma_term_seq_view_index(termlist@, 1);
                    }
                    let mut s = String::from_str("[");
                    let first = termlist[0].display_string();
                    s.append(first.as_str());
                    let tail = list_tail_string(&termlist[1]);
                    s.append(tail.as_str());
                    s
                } else {
                    proof {
                        assert(decreases_to!(*self => self->Compound_termlist));
                        assert(decreases_to!(*termlist => termlist@));
                        assert(term_seq_view(termlist@).skip(0) =~= term_seq_view(termlist@));
                    }
                    let mut s = head_atom.clone();
                    s.append("(");
                    let inner = args_string(termlist, 0);
                    s.append(inner.as_str());
                    s.append(")");
                    s
                }
            },
        }
    }
}

/// Renders the arguments from position `i` on, comma-separated.
fn args_string(args: &Vec<Term>, i: usize) -> (s: String)
    requires
        i <= args@.len(),
    ensures
        s@ == render_args(term_seq_view(args@).skip(i as int)),
    decreases args@, args@.len() - i, 2int,
{
    proof {
        lemma_term_seq_view_len(args@);
    }
    let ghost rest = term_seq_view(args@).skip(i as int);
    if i == args.len() {
        proof {
            assert(rest =~= Seq::<TermV>::empty());
        }
        String::new()
    } else {
        proof {
            assert(decreases_to!(args@ => args@[i as int]));
            lemma_term_seq_view_index(args@, i as int);
            assert(rest[0] == term_seq_view(args@)[i as int]);
        }
        let first = args[i].display_string();
        if i + 1 == args.len() {
            first
        } else {
            proof {
                assert(rest.drop_first() =~= term_seq_view(args@).skip(i as int + 1));
            }
            let mut s = first;
            s.append(",");
            let more = args_string(args, i + 1);
            s.append(more.as_str());
            s
        }
    }
}

/// Renders a list tail: elements while the tail is a cons cell, `]` at
/// `nil`, and `|tail]` otherwise.
fn list_tail_string(t: &Term) -> (s: String)
    ensures
        s@ == render_list_tail(t@),
    decreases *t, 1int,
{
    match t {
        Term::Compound { head_atom, termlist } => {
            proof {
                lemma_term_seq_view_len(termlist@);
            }
            if *head_atom == String::from_str("cons") && termlist.len() == 2 {
                proof {
                    assert(decreases_to!(*t => t->Compound_termlist));
                    assert(decreases_to!(*termlist => termlist[0int]));
                    assert(decreases_to!(*termlist => termlist[1int]));
                    lemma_term_seq_view_index(termlist@, 0);
                    lemma_term_seq_view_index(termlist@, 1);
                }
                let mut s = String::from_str(",");
                let first = termlist[0].display_string();
                s.append(first.as_str());
                let tail = list_tail_string(&termlist[1]);
                s.append(tail.as_str());
                proof {
                    assert(render_list_tail(t@) == ","@ + render_term(
                        term_seq_view(termlist@)[0],
                    ) + render_list_tail(term_seq_view(termlist@)[1]));
                }
                s
            } else {
                let mut s = String::from_str("|");
                let inner = t.display_string();
                s.append(inner.as_str());
                s.append("]");
                proof {
                    assert(render_list_tail(t@) == "|"@ + render_term(t@) + "]"@);
                }
                s
            }
        },
        Term::Atom(name) => {
            if *name == String::from_str("nil") {
                let s = String::from_str("]");
                proof {
                    assert(render_list_tail(t@) == "]"@);
                }
                s
            } else {
                let mut s = String::from_str("|");
                s.append(name.as_str());
                s.append("]");
                proof {
                    assert(render_list_tail(t@) == "|"@ + render_term(t@) + "]"@);
                    assert(render_term(t@) == name@);
                }
                s
            }
        },
        Term::Var(name) => {
            let mut s = String::from_str("|");
            s.append(name.as_str());
            s.append("]");
            proof {
                assert(render_list_tail(t@) == "|"@ + render_term(t@) + "]"@);
                assert(render_term(t@) == name@);
            }
            s
        },
    }
}

impl Token {
    /// Renders the token as it appears in source text.
    pub fn display_string(&self) -> (s: String)
        ensures
            s@ == render_token(self@),
    {
        match self {
            Token::Var(name) => name.clone(),
            Token::Atom(name) => name.clone(),
            Token::LeftParen => String::from_str("("),
            Token::RightParen => String::from_str(")"),
            Token::Period => String::from_str("."),
            Token::Comma => String::from_str(","),
            Token::ColonHyphen => String::from_str(":-"),
        }
    }
}

impl Clause {
    /// Renders the clause, closed by a period and a newline.
    pub fn display_string(&self) -> (s: String)
        ensures
            s@ == render_clause(self@),
    {
        match self {
            Clause::Fact(head) => {
                let mut s = head.display_string();
                s.append(".\n");
                s
            },
            Clause::Rule(head, body) => {
                let mut s = head.display_string();
                s.append(" :- ");
                let inner = body_string(body, 0);
                proof {
                    lemma_term_seq_view_len(body@);
                    assert(term_seq_view(body@).skip(0) =~= term_seq_view(body@));
                }
                s.append(inner.as_str());
                s.append(".\n");
                s
            },
        }
    }
}

/// Renders the body terms from position `i` on, separated by comma-space.
fn body_string(body: &Vec<Term>, i: usize) -> (s: String)
    requires
        i <= body@.len(),
    ensures
        s@ == render_body(term_seq_view(body@).skip(i as int)),
    decreases body@.len() - i,
{
    proof {
        lemma_term_seq_view_len(body@);
    }
    let ghost rest = term_seq_view(body@).skip(i as int);
    if i == body.len() {
        proof {
            assert(rest =~= Seq::<TermV>::empty());
        }
        String::new()
    } else {
        proof {
            lemma_term_seq_view_index(body@, i as int);
            assert(rest[0] == term_seq_view(body@)[i as int]);
        }
        let first = body[i].display_string();
        if i + 1 == body.len() {
            first
        } else {
            proof {
                assert(rest.drop_first() =~= term_seq_view(body@).skip(i as int + 1));
            }
            let mut s = first;
            s.append(", ");
            let more = body_string(body, i + 1);
            s.append(more.as_str());
            s
        }
    }
}

} // verus!
