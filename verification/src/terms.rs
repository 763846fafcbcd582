//! The term and clause data model, with its mathematical view.
//!
//! A `Term` is an immutable value tree: a variable, a nullary atom, or a
//! compound application of a head atom to an ordered argument list.  The
//! ghost types `TermV` and `ClauseV` mirror these trees over `Seq`, and every
//! contract in the crate speaks of terms through these views.

use vstd::prelude::*;

verus! {

/// A lexical token of the surface syntax.
#[derive(Debug, PartialEq)]
pub enum Token {
    Var(String),
    Atom(String),
    LeftParen,
    RightParen,
    Period,
    Comma,
    ColonHyphen,
}

/// A logic term: a variable, an atom, or a compound application.
#[derive(Debug, PartialEq)]
pub enum Term {
    Var(String),
    Atom(String),
    Compound { head_atom: String, termlist: Vec<Term> },
}

/// A clause of the database: an unconditional fact, or a rule whose head
/// holds whenever every body subgoal holds.
#[derive(Debug)]
pub enum Clause {
    Fact(Term),
    Rule(Term, Vec<Term>),
}

/// The mathematical view of a `Term`: the same tree over `Seq`.
pub enum TermV {
    Var(Seq<char>),
    Atom(Seq<char>),
    Cmp { head: Seq<char>, args: Seq<TermV> },
}

/// The mathematical view of a `Clause`.
pub enum ClauseV {
    Fact(TermV),
    Rule(TermV, Seq<TermV>),
}

/// The view of one token.
pub enum TokenV {
    Var(Seq<char>),
    Atom(Seq<char>),
    LeftParen,
    RightParen,
    Period,
    Comma,
    ColonHyphen,
}

pub open spec fn term_view(t: Term) -> TermV
    decreases t,
{
    match t {
        Term::Var(name) => TermV::Var(name@),
        Term::Atom(name) => TermV::Atom(name@),
        Term::Compound { head_atom, termlist } => TermV::Cmp {
            head: head_atom@,
            args: term_seq_view(termlist@),
        },
    }
}

pub open spec fn term_seq_view(ts: Seq<Term>) -> Seq<TermV>
    decreases ts,
{
    if ts.len() == 0 {
        Seq::empty()
    } else {
        term_seq_view(ts.drop_last()).push(term_view(ts.last()))
    }
}

impl View for Term {
    type V = TermV;

    open spec fn view(&self) -> TermV {
        term_view(*self)
    }
}

impl View for Clause {
    type V = ClauseV;

    open spec fn view(&self) -> ClauseV {
        match *self {
            Clause::Fact(head) => ClauseV::Fact(head@),
            Clause::Rule(head, body) => ClauseV::Rule(head@, term_seq_view(body@)),
        }
    }
}

impl View for Token {
    type V = TokenV;

    open spec fn view(&self) -> TokenV {
        match *self {
            Token::Var(name) => TokenV::Var(name@),
            Token::Atom(name) => TokenV::Atom(name@),
            Token::LeftParen => TokenV::LeftParen,
            Token::RightParen => TokenV::RightParen,
            Token::Period => TokenV::Period,
            Token::Comma => TokenV::Comma,
            Token::ColonHyphen => TokenV::ColonHyphen,
        }
    }
}

/// The head term of a clause, against which goals are unified.
pub open spec fn clause_head(c: ClauseV) -> TermV {
    match c {
        ClauseV::Fact(head) => head,
        ClauseV::Rule(head, _) => head,
    }
}

/// The body subgoals of a clause; a fact has none.
pub open spec fn clause_body(c: ClauseV) -> Seq<TermV> {
    match c {
        ClauseV::Fact(_) => Seq::empty(),
        ClauseV::Rule(_, body) => body,
    }
}

pub proof fn lemma_term_seq_view_len(ts: Seq<Term>)
    ensures
        term_seq_view(ts).len() == ts.len(),
    decreases ts.len(),
{
    if ts.len() > 0 {
        lemma_term_seq_view_len(ts.drop_last());
    }
}

pub proof fn lemma_term_seq_view_index(ts: Seq<Term>, i: int)
    requires
        0 <= i < ts.len(),
    ensures
        term_seq_view(ts).len() == ts.len(),
        term_seq_view(ts)[i] == term_view(ts[i]),
    decreases ts.len(),
{
    lemma_term_seq_view_len(ts);
    if i < ts.len() - 1 {
        lemma_term_seq_view_index(ts.drop_last(), i);
    }
}

pub proof fn lemma_term_seq_view_drop_first(ts: Seq<Term>)
    requires
        ts.len() > 0,
    ensures
        term_seq_view(ts.drop_first()) == term_seq_view(ts).drop_first(),
{
    lemma_term_seq_view_len(ts);
    lemma_term_seq_view_len(ts.drop_first());
    assert forall|i: int| 0 <= i < ts.len() - 1 implies term_seq_view(ts.drop_first())[i]
        == term_seq_view(ts).drop_first()[i] by {
        lemma_term_seq_view_index(ts.drop_first(), i);
        lemma_term_seq_view_index(ts, i + 1);
        assert(ts.drop_first()[i] == ts[i + 1]);
    };
    assert(term_seq_view(ts.drop_first()) =~= term_seq_view(ts).drop_first());
}

pub proof fn lemma_term_seq_view_concat(a: Seq<Term>, b: Seq<Term>)
    ensures
        term_seq_view(a + b) == term_seq_view(a) + term_seq_view(b),
{
    lemma_term_seq_view_len(a);
    lemma_term_seq_view_len(b);
    lemma_term_seq_view_len(a + b);
    assert forall|i: int| 0 <= i < a.len() + b.len() implies term_seq_view(a + b)[i]
        == (term_seq_view(a) + term_seq_view(b))[i] by {
        lemma_term_seq_view_index(a + b, i);
        if i < a.len() {
            lemma_term_seq_view_index(a, i);
            assert((a + b)[i] == a[i]);
        } else {
            lemma_term_seq_view_index(b, i - a.len());
            assert((a + b)[i] == b[i - a.len()]);
        }
    };
    assert(term_seq_view(a + b) =~= term_seq_view(a) + term_seq_view(b));
}

pub proof fn lemma_term_seq_view_push(ts: Seq<Term>, t: Term)
    ensures
        term_seq_view(ts.push(t)) == term_seq_view(ts).push(term_view(t)),
{
    assert(ts.push(t).drop_last() =~= ts);
    assert(ts.push(t).last() == t);
}

} // verus!
