//! Recursive-descent parsing of tokens into terms and clauses.
//!
//! Grammar: a term is a variable, an atom, or an atom applied to a
//! parenthesized comma-separated term list; a clause is a fact `term .` or a
//! rule `term :- termlist .`.  A successful parse is sound: the tokens it
//! consumed are exactly the canonical token rendering of what it built.

use vstd::prelude::*;

use crate::terms::Clause;
use crate::terms::ClauseV;
use crate::terms::Term;
use crate::terms::TermV;
use crate::terms::Token;
use crate::terms::TokenV;
use crate::terms::lemma_term_seq_view_index;
use crate::terms::lemma_term_seq_view_len;
use crate::terms::lemma_term_seq_view_push;
use crate::terms::term_seq_view;
use crate::tokenize::token_seq_view;
use vstd::string::StringExecFns;

verus! {

broadcast use vstd::seq::group_seq_axioms;

/// The canonical token rendering of a term.
pub open spec fn term_tokens(t: TermV) -> Seq<TokenV>
    decreases t, 0int,
{
    match t {
        TermV::Var(name) => seq![TokenV::Var(name)],
        TermV::Atom(name) => seq![TokenV::Atom(name)],
        TermV::Cmp { head, args } => seq![TokenV::Atom(head), TokenV::LeftParen]
            + termlist_tokens(args) + seq![TokenV::RightParen],
    }
}

/// The canonical token rendering of a comma-separated term list.
pub open spec fn termlist_tokens(ts: Seq<TermV>) -> Seq<TokenV>
    decreases ts, 1int,
{
    if ts.len() == 0 {
        Seq::empty()
    } else if ts.len() == 1 {
        term_tokens(ts[0])
    } else {
        term_tokens(ts[0]) + seq![TokenV::Comma] + termlist_tokens(ts.drop_first())
    }
}

/// The canonical token rendering of a clause.
pub open spec fn clause_tokens(c: ClauseV) -> Seq<TokenV> {
    match c {
        ClauseV::Fact(head) => term_tokens(head) + seq![TokenV::Period],
        ClauseV::Rule(head, body) => term_tokens(head) + seq![TokenV::ColonHyphen]
            + termlist_tokens(body) + seq![TokenV::Period],
    }
}

/// Appending one more term appends a comma and its tokens.
pub proof fn lemma_termlist_tokens_push(ts: Seq<TermV>, t: TermV)
    requires
        ts.len() >= 1,
    ensures
        termlist_tokens(ts.push(t)) == termlist_tokens(ts) + seq![TokenV::Comma] + term_tokens(t),
    decreases ts.len(),
{
    if ts.len() == 1 {
        assert(ts.push(t)[0] == ts[0]);
        assert(ts.push(t).drop_first() =~= seq![t]);
        assert(termlist_tokens(seq![t]) == term_tokens(t));
    } else {
        assert(ts.push(t).drop_first() =~= ts.drop_first().push(t));
        lemma_termlist_tokens_push(ts.drop_first(), t);
        assert(ts.push(t)[0] == ts[0]);
    }
}

/// No opening parenthesis stands at position `q` (the position may be past
/// the end).
pub open spec fn no_lparen_at(tv: Seq<TokenV>, q: int) -> bool {
    q < 0 || q >= tv.len() || tv[q] != TokenV::LeftParen
}

/// Structural equality of tokens.
fn token_eq(a: &Token, b: &Token) -> (r: bool)
    ensures
        r == (a@ == b@),
{
    match (a, b) {
        (Token::Var(x), Token::Var(y)) => *x == *y,
        (Token::Atom(x), Token::Atom(y)) => *x == *y,
        (Token::LeftParen, Token::LeftParen) => true,
        (Token::RightParen, Token::RightParen) => true,
        (Token::Period, Token::Period) => true,
        (Token::Comma, Token::Comma) => true,
        (Token::ColonHyphen, Token::ColonHyphen) => true,
        _ => false,
    }
}

/// A cursor over a token list.
pub struct Parser<'a> {
    pub tokens: &'a Vec<Token>,
    pub pos: usize,
}

impl<'a> Parser<'a> {
    pub fn new(tokens: &'a Vec<Token>) -> (p: Self)
        ensures
            p.tokens == tokens,
            p.pos == 0,
    {
        Parser { tokens, pos: 0 }
    }

    pub fn current_token(&self) -> (r: Option<&Token>)
        ensures
            (match r {
                Option::Some(t) => self.pos < self.tokens@.len() && *t == self.tokens@[
                    self.pos as int
                ],
                Option::None => self.pos >= self.tokens@.len(),
            }),
    {
        if self.pos < self.tokens.len() {
            Some(&self.tokens[self.pos])
        } else {
            None
        }
    }

    pub fn advance(&mut self)
        ensures
            final(self).tokens == old(self).tokens,
            old(self).pos < old(self).tokens@.len() ==> final(self).pos == old(self).pos + 1,
            old(self).pos >= old(self).tokens@.len() ==> final(self).pos == old(self).pos,
    {
        if self.pos < self.tokens.len() {
            self.pos += 1;
        }
    }

    pub fn expect_token(&mut self, expected: &Token) -> (r: Result<(), String>)
        ensures
            final(self).tokens == old(self).tokens,
            (match r {
                Result::Ok(_) => old(self).pos < old(self).tokens@.len() && old(self).tokens@[
                    old(self).pos as int
                ]@ == expected@ && final(self).pos == old(self).pos + 1,
                Result::Err(_) => final(self).pos == old(self).pos && (old(self).pos >= old(
                    self,
                ).tokens@.len() || old(self).tokens@[old(self).pos as int]@ != expected@),
            }),
    {
        match self.current_token() {
            Some(token) => {
                if token_eq(token, expected) {
                    self.advance();
                    Ok(())
                } else {
                    let mut msg = String::from_str("Expected ");
                    let es = expected.display_string();
                    msg.append(es.as_str());
                    msg.append(", found ");
                    let ts = token.display_string();
                    msg.append(ts.as_str());
                    Err(msg)
                }
            },
            None => {
                let mut msg = String::from_str("Expected ");
                let es = expected.display_string();
                msg.append(es.as_str());
                msg.append(", found end of input");
                Err(msg)
            },
        }
    }

    /// term -> variable | atom ( termlist ) | atom
    pub fn parse_term(&mut self) -> (r: Result<Term, String>)
        ensures
            final(self).tokens == old(self).tokens,
            final(self).pos >= old(self).pos,
            (match r {
                Result::Ok(t) => old(self).pos < final(self).pos <= old(self).tokens@.len()
                    && token_seq_view(old(self).tokens@).subrange(
                    old(self).pos as int,
                    final(self).pos as int,
                ) == term_tokens(t@) && ((t@ matches TermV::Atom(_)) ==> no_lparen_at(
                    token_seq_view(old(self).tokens@),
                    final(self).pos as int,
                )) && wf_term(t@) && term_fits(
                    token_seq_view(old(self).tokens@),
                    old(self).pos as int,
                    t@,
                ),
                Result::Err(_) => forall|u: TermV|
                    !term_fits(token_seq_view(old(self).tokens@), old(self).pos as int, u),
            }),
            old(self).pos < old(self).tokens@.len() ==> (match token_seq_view(
                old(self).tokens@,
            )[old(self).pos as int] {
                TokenV::Var(n) => r matches Ok(t) && t@ == TermV::Var(n) && final(self).pos == old(
                    self,
                ).pos + 1,
                TokenV::Atom(n) => no_lparen_at(
                    token_seq_view(old(self).tokens@),
                    old(self).pos + 1,
                ) ==> (r matches Ok(t) && t@ == TermV::Atom(n) && final(self).pos == old(self).pos
                    + 1),
                _ => r is Err,
            }),
            old(self).pos >= old(self).tokens@.len() ==> r is Err,
        decreases old(self).tokens@.len() - old(self).pos, 0int,
    {
        let ghost p0 = self.pos as int;
        let ghost tv = token_seq_view(self.tokens@);
        match self.current_token() {
            Some(tok) => {
                match tok {
                    Token::Var(name) => {
                        let term = Term::Var(name.clone());
                        self.advance();
                        proof {
                            assert(tv.subrange(p0, p0 + 1) =~= seq![tv[p0]]);
                            assert(term_at(tv, p0, term@));
                        }
                        Ok(term)
                    },
                    Token::Atom(name) => {
                        let name = name.clone();
                        let ghost nmv = name@;
                        self.advance();
                        let is_open = match self.current_token() {
                            Some(Token::LeftParen) => true,
                            _ => false,
                        };
                        if is_open {
                            proof {
                                assert(tv[p0] == TokenV::Atom(nmv));
                                assert(tv[p0 + 1] == TokenV::LeftParen);
                            }
                            self.advance();
                            let ghost pargs = self.pos as int;
                            let args = match self.parse_termlist() {
                                Ok(a) => a,
                                Err(m) => {
                                    proof {
                                        assert forall|u: TermV| !term_fits(tv, p0, u) by {
                                            lemma_term_tokens_starts(u);
                                            if term_fits(tv, p0, u) {
                                                assert(tv.subrange(
                                                    p0,
                                                    p0 + term_tokens(u).len(),
                                                )[0] == tv[p0]);
                                                match u {
                                                    TermV::Cmp { head: h2, args: args2 } => {
                                                        lemma_cmp_inner(tv, p0, h2, args2);
                                                    },
                                                    _ => {},
                                                }
                                            }
                                        };
                                    }
                                    return Err(m);
                                },
                            };
                            let ghost pend = self.pos as int;
                            match self.expect_token(&Token::RightParen) {
                                Ok(_) => {},
                                Err(m) => {
                                    proof {
                                        assert forall|u: TermV| !term_fits(tv, p0, u) by {
                                            lemma_term_tokens_starts(u);
                                            if term_fits(tv, p0, u) {
                                                assert(tv.subrange(
                                                    p0,
                                                    p0 + term_tokens(u).len(),
                                                )[0] == tv[p0]);
                                                match u {
                                                    TermV::Cmp { head: h2, args: args2 } => {
                                                        lemma_cmp_inner(tv, p0, h2, args2);
                                                        lemma_termlist_body_unique(
                                                            tv,
                                                            pargs,
                                                            args2,
                                                            pargs + termlist_tokens(args2).len(),
                                                            term_seq_view(args@),
                                                            pend,
                                                        );
                                                    },
                                                    _ => {},
                                                }
                                            }
                                        };
                                    }
                                    return Err(m);
                                },
                            };
                            let t = Term::Compound { head_atom: name, termlist: args };
                            proof {
                                assert(tv.subrange(p0, pend + 1) =~= seq![
                                    TokenV::Atom(t->Compound_head_atom@),
                                    TokenV::LeftParen,
                                ] + tv.subrange(pargs, pend) + seq![TokenV::RightParen]);
                                crate::terms::lemma_term_seq_view_len(args@);
                                lemma_wf_term_each_iff(term_seq_view(args@));
                                assert(wf_term(t@));
                                assert(term_at(tv, p0, t@));
                            }
                            Ok(t)
                        } else {
                            proof {
                                assert(tv.subrange(p0, p0 + 1) =~= seq![tv[p0]]);
                                assert(no_lparen_at(tv, p0 + 1));
                                assert(tv[p0] == TokenV::Atom(nmv));
                            }
                            Ok(Term::Atom(name))
                        }
                    },
                    _ => {
                        proof {
                            assert(!is_term_start(tv[p0]));
                            assert forall|u: TermV| !term_fits(tv, p0, u) by {
                                lemma_term_tokens_starts(u);
                                if term_fits(tv, p0, u) {
                                    assert(tv.subrange(p0, p0 + term_tokens(u).len())[0] == tv[
                                        p0
                                    ]);
                                }
                            };
                        }
                        let mut msg = String::from_str("Unexpected token in term: ");
                        let ts = tok.display_string();
                        msg.append(ts.as_str());
                        Err(msg)
                    },
                }
            },
            None => {
                proof {
                    assert forall|u: TermV| !term_fits(tv, p0, u) by {
                        lemma_term_tokens_starts(u);
                    };
                }
                Err(String::from_str("Unexpected end of input in term"))
            },
        }
    }

    /// termlist -> term | term , termlist
    pub fn parse_termlist(&mut self) -> (r: Result<Vec<Term>, String>)
        ensures
            final(self).tokens == old(self).tokens,
            final(self).pos >= old(self).pos,
            (match r {
                Result::Ok(ts) => old(self).pos < final(self).pos <= old(self).tokens@.len()
                    && ts@.len() >= 1 && token_seq_view(old(self).tokens@).subrange(
                    old(self).pos as int,
                    final(self).pos as int,
                ) == termlist_tokens(term_seq_view(ts@)) && (final(self).pos
                    == old(self).tokens@.len() || token_seq_view(old(self).tokens@)[
                    final(self).pos as int
                ] != TokenV::Comma) && wf_term_each(term_seq_view(ts@)) && termlist_body_at(
                    token_seq_view(old(self).tokens@),
                    old(self).pos as int,
                    term_seq_view(ts@),
                    final(self).pos as int,
                ) && no_comma_at(token_seq_view(old(self).tokens@), final(self).pos as int),
                Result::Err(_) => forall|hs: Seq<TermV>|
                    !termlist_fits(token_seq_view(old(self).tokens@), old(self).pos as int, hs),
            }),
        decreases old(self).tokens@.len() - old(self).pos, 1int,
    {
        let ghost p0 = self.pos as int;
        let ghost tv = token_seq_view(self.tokens@);
        let mut terms: Vec<Term> = Vec::new();
        let first = match self.parse_term() {
            Ok(t) => t,
            Err(m) => {
                proof {
                    assert forall|hs: Seq<TermV>| !termlist_fits(tv, p0, hs) by {
                        if termlist_fits(tv, p0, hs) {
                            assert(term_fits(tv, p0, hs[0]));
                        }
                    };
                }
                return Err(m);
            },
        };
        let ghost firstv = first@;
        terms.push(first);
        proof {
            lemma_term_seq_view_len(terms@);
            lemma_term_seq_view_index(terms@, 0);
            assert(term_seq_view(terms@) =~= seq![firstv]);
            assert(termlist_tokens(seq![firstv]) == term_tokens(firstv));
            assert(seq![firstv][0] == firstv);
            assert(seq![firstv].last() == firstv);
            assert(seq![firstv].drop_last() =~= Seq::<TermV>::empty());
            assert(wf_term_each(Seq::<TermV>::empty()));
            assert(wf_term_each(term_seq_view(terms@)));
            assert(termlist_body_at(tv, p0, term_seq_view(terms@), self.pos as int));
            assert forall|hs: Seq<TermV>| #[trigger] termlist_fits(tv, p0, hs) implies list_extends(
                tv,
                p0,
                hs,
                term_seq_view(terms@),
                self.pos as int,
            ) by {
                assert(term_fits(tv, p0, hs[0]));
                lemma_term_fits_unique(tv, p0, hs[0], firstv);
                assert(hs.take(1) =~= seq![firstv]);
                if hs.len() > 1 {
                    assert(hs.skip(1) =~= hs.drop_first());
                }
            };
        }
        loop
            invariant
                self.tokens == old(self).tokens,
                terms@.len() >= 1,
                p0 < self.pos <= self.tokens@.len(),
                p0 == old(self).pos,
                tv == token_seq_view(self.tokens@),
                tv.subrange(p0, self.pos as int) == termlist_tokens(term_seq_view(terms@)),
                wf_term_each(term_seq_view(terms@)),
                termlist_body_at(tv, p0, term_seq_view(terms@), self.pos as int),
                forall|hs: Seq<TermV>| #[trigger]
                    termlist_fits(tv, p0, hs) ==> list_extends(
                        tv,
                        p0,
                        hs,
                        term_seq_view(terms@),
                        self.pos as int,
                    ),
            ensures
                self.tokens == old(self).tokens,
                terms@.len() >= 1,
                p0 < self.pos <= self.tokens@.len(),
                tv.subrange(p0, self.pos as int) == termlist_tokens(term_seq_view(terms@)),
                self.pos == self.tokens@.len() || tv[self.pos as int] != TokenV::Comma,
                wf_term_each(term_seq_view(terms@)),
                termlist_body_at(tv, p0, term_seq_view(terms@), self.pos as int),
            decreases self.tokens@.len() - self.pos,
        {
            let is_comma = match self.current_token() {
                Some(Token::Comma) => true,
                _ => false,
            };
            if !is_comma {
                break;
            }
            let ghost pmid = self.pos as int;
            self.advance();
            let ghost listv = term_seq_view(terms@);
            let next = match self.parse_term() {
                Ok(t) => t,
                Err(m) => {
                    proof {
                        assert forall|hs: Seq<TermV>| !termlist_fits(tv, p0, hs) by {
                            if termlist_fits(tv, p0, hs) {
                                assert(list_extends(tv, p0, hs, listv, pmid));
                                if hs.len() == listv.len() {
                                    assert(hs =~= listv);
                                } else {
                                    assert(term_fits(tv, pmid + 1, hs.skip(listv.len() as int)[0]));
                                }
                            }
                        };
                    }
                    return Err(m);
                },
            };
            let ghost nextv = next@;
            let ghost pend = self.pos as int;
            let ghost pre = terms@;
            terms.push(next);
            proof {
                lemma_term_seq_view_push(pre, terms@.last());
                assert(pre.push(terms@.last()) =~= terms@);
                assert(terms@.last()@ == nextv);
                assert(term_seq_view(terms@) == listv.push(nextv));
                lemma_termlist_tokens_push(listv, nextv);
                assert(tv[pmid] == TokenV::Comma);
                assert(tv.subrange(p0, pend) =~= tv.subrange(p0, pmid) + seq![TokenV::Comma]
                    + tv.subrange(pmid + 1, pend));
                assert(listv.push(nextv).drop_last() =~= listv);
                assert(wf_term_each(term_seq_view(terms@)));
                lemma_termlist_body_push(tv, p0, listv, pmid, nextv);
                assert(termlist_body_at(tv, p0, term_seq_view(terms@), pend));
                assert forall|hs: Seq<TermV>| #[trigger] termlist_fits(tv, p0, hs)
                    implies list_extends(tv, p0, hs, term_seq_view(terms@), pend) by {
                    assert(list_extends(tv, p0, hs, listv, pmid));
                    if hs.len() == listv.len() {
                        assert(hs =~= listv);
                        assert(false);
                    } else {
                        let k = listv.len() as int;
                        let suf = hs.skip(k);
                        assert(term_fits(tv, pmid + 1, suf[0]));
                        lemma_term_fits_unique(tv, pmid + 1, suf[0], nextv);
                        assert(hs.take(k + 1) =~= listv.push(nextv));
                        if hs.len() > k + 1 {
                            assert(suf.drop_first() =~= hs.skip(k + 1));
                        }
                    }
                };
            }
        }
        Ok(terms)
    }

    /// clause -> fact | rule ; fact -> term . ; rule -> term :- termlist .
    pub fn parse_clause(&mut self) -> (r: Result<Clause, String>)
        ensures
            final(self).tokens == old(self).tokens,
            (match r {
                Result::Ok(c) => old(self).pos < final(self).pos <= old(self).tokens@.len()
                    && token_seq_view(old(self).tokens@).subrange(
                    old(self).pos as int,
                    final(self).pos as int,
                ) == clause_tokens(c@) && wf_clause(c@) && clause_fits(
                    token_seq_view(old(self).tokens@),
                    old(self).pos as int,
                    c@,
                ),
                Result::Err(_) => forall|c: ClauseV|
                    !clause_fits(token_seq_view(old(self).tokens@), old(self).pos as int, c),
            }),
    {
        let ghost p0 = self.pos as int;
        let ghost tv = token_seq_view(self.tokens@);
        let head = match self.parse_term() {
            Ok(t) => t,
            Err(m) => {
                proof {
                    assert forall|c: ClauseV| !clause_fits(tv, p0, c) by {
                        if clause_fits(tv, p0, c) {
                            lemma_clause_fits_parts(tv, p0, c);
                        }
                    };
                }
                return Err(m);
            },
        };
        let ghost phead = self.pos as int;
        match self.current_token() {
            Some(Token::Period) => {
                self.advance();
                let c = Clause::Fact(head);
                proof {
                    assert(tv.subrange(p0, phead + 1) =~= tv.subrange(p0, phead) + seq![
                        TokenV::Period,
                    ]);
                    assert(wf_clause(c@));
                }
                Ok(c)
            },
            Some(Token::ColonHyphen) => {
                self.advance();
                let ghost pbody = self.pos as int;
                proof {
                    assert(tv[phead] == TokenV::ColonHyphen);
                }
                let body = match self.parse_termlist() {
                    Ok(b) => b,
                    Err(m) => {
                        proof {
                            assert forall|c: ClauseV| !clause_fits(tv, p0, c) by {
                                if clause_fits(tv, p0, c) {
                                    lemma_clause_fits_parts(tv, p0, c);
                                    match c {
                                        ClauseV::Rule(h2, b2) => {
                                            lemma_term_fits_unique(tv, p0, h2, head@);
                                            assert(termlist_fits(tv, pbody, b2));
                                        },
                                        ClauseV::Fact(h2) => {
                                            lemma_term_fits_unique(tv, p0, h2, head@);
                                        },
                                    }
                                }
                            };
                        }
                        return Err(m);
                    },
                };
                let ghost pend = self.pos as int;
                match self.expect_token(&Token::Period) {
                    Ok(_) => {},
                    Err(m) => {
                        proof {
                            assert forall|c: ClauseV| !clause_fits(tv, p0, c) by {
                                if clause_fits(tv, p0, c) {
                                    lemma_clause_fits_parts(tv, p0, c);
                                    match c {
                                        ClauseV::Rule(h2, b2) => {
                                            lemma_term_fits_unique(tv, p0, h2, head@);
                                            lemma_termlist_body_unique(
                                                tv,
                                                pbody,
                                                b2,
                                                pbody + termlist_tokens(b2).len(),
                                                term_seq_view(body@),
                                                pend,
                                            );
                                        },
                                        ClauseV::Fact(h2) => {
                                            lemma_term_fits_unique(tv, p0, h2, head@);
                                        },
                                    }
                                }
                            };
                        }
                        return Err(m);
                    },
                };
                let c = Clause::Rule(head, body);
                proof {
                    assert(tv.subrange(p0, pend + 1) =~= tv.subrange(p0, phead) + seq![
                        TokenV::ColonHyphen,
                    ] + tv.subrange(pbody, pend) + seq![TokenV::Period]);
                    crate::terms::lemma_term_seq_view_len(body@);
                    assert(wf_clause(c@));
                }
                Ok(c)
            },
            Some(tok) => {
                proof {
                    assert(tv[phead] != TokenV::Period && tv[phead] != TokenV::ColonHyphen);
                    assert forall|c: ClauseV| !clause_fits(tv, p0, c) by {
                        if clause_fits(tv, p0, c) {
                            lemma_clause_fits_parts(tv, p0, c);
                            match c {
                                ClauseV::Rule(h2, b2) => {
                                    lemma_term_fits_unique(tv, p0, h2, head@);
                                },
                                ClauseV::Fact(h2) => {
                                    lemma_term_fits_unique(tv, p0, h2, head@);
                                },
                            }
                        }
                    };
                }
                let mut msg = String::from_str("Expected . or :- after head, found ");
                let ts = tok.display_string();
                msg.append(ts.as_str());
                Err(msg)
            },
            None => {
                proof {
                    assert forall|c: ClauseV| !clause_fits(tv, p0, c) by {
                        if clause_fits(tv, p0, c) {
                            lemma_clause_fits_parts(tv, p0, c);
                            match c {
                                ClauseV::Rule(h2, b2) => {
                                    lemma_term_fits_unique(tv, p0, h2, head@);
                                },
                                ClauseV::Fact(h2) => {
                                    lemma_term_fits_unique(tv, p0, h2, head@);
                                },
                            }
                        }
                    };
                }
                Err(String::from_str("Unexpected end of input in clause"))
            },
        }
    }
}

/// Parses one whole clause from the token list; the input must hold exactly
/// one clause.  On success the input is the clause's canonical rendering.
pub fn parse_clause(tokens: &Vec<Token>) -> (r: Result<Clause, String>)
    ensures
        (match r {
            Result::Ok(c) => token_seq_view(tokens@) == clause_tokens(c@) && wf_clause(c@),
            Result::Err(_) => forall|c: ClauseV|
                !(wf_clause(c) && token_seq_view(tokens@) == clause_tokens(c)),
        }),
{
    let ghost tv = token_seq_view(tokens@);
    let mut parser = Parser::new(tokens);
    let clause = match parser.parse_clause() {
        Ok(c) => c,
        Err(m) => {
            proof {
                assert forall|c: ClauseV| !(wf_clause(c) && tv == clause_tokens(c)) by {
                    if wf_clause(c) && tv == clause_tokens(c) {
                        assert(tv.subrange(0, clause_tokens(c).len() as int) =~= tv);
                        assert(clause_fits(tv, 0, c));
                    }
                };
            }
            return Err(m);
        },
    };
    let at_end = match parser.current_token() {
        Some(_) => false,
        None => true,
    };
    if !at_end {
        proof {
            assert forall|c: ClauseV| !(wf_clause(c) && tv == clause_tokens(c)) by {
                if wf_clause(c) && tv == clause_tokens(c) {
                    assert(tv.subrange(0, clause_tokens(c).len() as int) =~= tv);
                    assert(clause_fits(tv, 0, c));
                    assert(clause_fits(tv, 0, clause@));
                    lemma_clause_fits_unique(tv, 0, c, clause@);
                }
            };
        }
        return Err(String::from_str("Expected to find end of input"));
    }
    proof {
        assert(token_seq_view(tokens@).subrange(0, tokens@.len() as int) =~= token_seq_view(
            tokens@,
        ));
    }
    Ok(clause)
}

/// Parses one whole query term, closed by a period, from the token list.
/// On success the input is the term's canonical rendering plus the period.
pub fn parse_query(tokens: &Vec<Token>) -> (r: Result<Term, String>)
    ensures
        (match r {
            Result::Ok(t) => token_seq_view(tokens@) == term_tokens(t@) + seq![TokenV::Period]
                && wf_term(t@),
            Result::Err(_) => forall|t: TermV|
                !(wf_term(t) && token_seq_view(tokens@) == term_tokens(t) + seq![TokenV::Period]),
        }),
{
    let mut parser = Parser::new(tokens);
    let ghost tv = token_seq_view(tokens@);
    let term = match parser.parse_term() {
        Ok(t) => t,
        Err(m) => {
            proof {
                assert forall|t: TermV|
                    !(wf_term(t) && tv == term_tokens(t) + seq![TokenV::Period]) by {
                    if wf_term(t) && tv == term_tokens(t) + seq![TokenV::Period] {
                        let n = term_tokens(t).len() as int;
                        assert(tv.subrange(0, n) =~= term_tokens(t));
                        assert(tv[n] == TokenV::Period);
                        assert(term_fits(tv, 0, t));
                    }
                };
            }
            return Err(m);
        },
    };
    let ghost pterm = parser.pos as int;
    match parser.expect_token(&Token::Period) {
        Ok(_) => {},
        Err(m) => {
            proof {
                assert forall|t: TermV|
                    !(wf_term(t) && tv == term_tokens(t) + seq![TokenV::Period]) by {
                    if wf_term(t) && tv == term_tokens(t) + seq![TokenV::Period] {
                        let n = term_tokens(t).len() as int;
                        assert(tv.subrange(0, n) =~= term_tokens(t));
                        assert(tv[n] == TokenV::Period);
                        assert(term_fits(tv, 0, t));
                        lemma_term_fits_unique(tv, 0, t, term@);
                    }
                };
            }
            return Err(m);
        },
    };
    let at_end = match parser.current_token() {
        Some(_) => false,
        None => true,
    };
    if !at_end {
        proof {
            assert forall|t: TermV|
                !(wf_term(t) && tv == term_tokens(t) + seq![TokenV::Period]) by {
                if wf_term(t) && tv == term_tokens(t) + seq![TokenV::Period] {
                    let n = term_tokens(t).len() as int;
                    assert(tv.subrange(0, n) =~= term_tokens(t));
                    assert(tv[n] == TokenV::Period);
                    assert(term_fits(tv, 0, t));
                    lemma_term_fits_unique(tv, 0, t, term@);
                }
            };
        }
        return Err(String::from_str("Expected to find end of input"));
    }
    proof {
        assert(tv.subrange(0, pterm + 1) =~= tv.subrange(0, pterm) + seq![TokenV::Period]);
        assert(tv.subrange(0, tokens@.len() as int) =~= tv);
    }
    Ok(term)
}

} // verus!

verus! {

/// Cancelling a shared prefix of two equal concatenations.
proof fn lemma_concat_cancel_left(a: Seq<TokenV>, r1: Seq<TokenV>, r2: Seq<TokenV>)
    requires
        a + r1 == a + r2,
    ensures
        r1 == r2,
{
    assert((a + r1).skip(a.len() as int) =~= r1);
    assert((a + r2).skip(a.len() as int) =~= r2);
}

/// A token that can begin a term.
pub open spec fn is_term_start(t: TokenV) -> bool {
    t matches TokenV::Var(_) || t matches TokenV::Atom(_)
}

/// Law (grammar unambiguity, term level): a term's token rendering followed
/// by a continuation that cannot extend it determines the term and the
/// continuation.
pub proof fn lemma_term_tokens_unique(t1: TermV, t2: TermV, r1: Seq<TokenV>, r2: Seq<TokenV>)
    requires
        term_tokens(t1) + r1 == term_tokens(t2) + r2,
        r1.len() > 0,
        r2.len() > 0,
        r1[0] != TokenV::LeftParen,
        r2[0] != TokenV::LeftParen,
    ensures
        t1 == t2,
        r1 == r2,
    decreases t1, 0int,
{
    let s = term_tokens(t1) + r1;
    match (t1, t2) {
        (TermV::Var(n1), TermV::Var(n2)) => {
            assert(s[0] == TokenV::Var(n1));
            assert(s[0] == TokenV::Var(n2));
            assert(term_tokens(t1) == term_tokens(t2));
            lemma_concat_cancel_left(term_tokens(t1), r1, r2);
        },
        (TermV::Atom(n1), TermV::Atom(n2)) => {
            assert(s[0] == TokenV::Atom(n1));
            assert(s[0] == TokenV::Atom(n2));
            assert(term_tokens(t1) == term_tokens(t2));
            lemma_concat_cancel_left(term_tokens(t1), r1, r2);
        },
        (TermV::Atom(n1), TermV::Cmp { head: h2, args: args2 }) => {
            assert(s[1] == r1[0]);
            assert(s[1] == TokenV::LeftParen);
        },
        (TermV::Cmp { head: h1, args: args1 }, TermV::Atom(n2)) => {
            assert(s[1] == r2[0]);
            assert(s[1] == TokenV::LeftParen);
        },
        (TermV::Cmp { head: h1, args: args1 }, TermV::Cmp { head: h2, args: args2 }) => {
            assert(s[0] == TokenV::Atom(h1));
            assert(s[0] == TokenV::Atom(h2));
            let c1 = seq![TokenV::RightParen] + r1;
            let c2 = seq![TokenV::RightParen] + r2;
            assert(termlist_tokens(args1) + c1 =~= s.skip(2));
            assert(termlist_tokens(args2) + c2 =~= (term_tokens(t2) + r2).skip(2));
            lemma_termlist_tokens_unique(args1, args2, c1, c2);
            assert(r1 =~= c1.drop_first());
            assert(r2 =~= c2.drop_first());
        },
        _ => {
            assert(s[0] == (term_tokens(t1) + r1)[0]);
        },
    }
}

/// Law (grammar unambiguity, term-list level): a comma-separated term
/// list's rendering followed by a continuation that cannot extend it
/// determines the list and the continuation.
pub proof fn lemma_termlist_tokens_unique(
    ts1: Seq<TermV>,
    ts2: Seq<TermV>,
    r1: Seq<TokenV>,
    r2: Seq<TokenV>,
)
    requires
        termlist_tokens(ts1) + r1 == termlist_tokens(ts2) + r2,
        r1.len() > 0,
        r2.len() > 0,
        !is_term_start(r1[0]) && r1[0] != TokenV::LeftParen && r1[0] != TokenV::Comma,
        !is_term_start(r2[0]) && r2[0] != TokenV::LeftParen && r2[0] != TokenV::Comma,
    ensures
        ts1 == ts2,
        r1 == r2,
    decreases ts1, 1int,
{
    let s = termlist_tokens(ts1) + r1;
    if ts1.len() == 0 && ts2.len() == 0 {
        assert(ts1 =~= ts2);
        assert(r1 =~= r2);
    } else if ts1.len() == 0 {
        assert(s[0] == r1[0]);
        lemma_term_tokens_starts(ts2[0]);
        assert(s[0] == term_tokens(ts2[0])[0]);
    } else if ts2.len() == 0 {
        assert(s[0] == r2[0]);
        lemma_term_tokens_starts(ts1[0]);
        assert(s[0] == term_tokens(ts1[0])[0]);
    } else {
        let tail1: Seq<TokenV> = if ts1.len() == 1 {
            Seq::empty()
        } else {
            seq![TokenV::Comma] + termlist_tokens(ts1.drop_first())
        };
        let tail2: Seq<TokenV> = if ts2.len() == 1 {
            Seq::empty()
        } else {
            seq![TokenV::Comma] + termlist_tokens(ts2.drop_first())
        };
        assert(termlist_tokens(ts1) =~= term_tokens(ts1[0]) + tail1);
        assert(termlist_tokens(ts2) =~= term_tokens(ts2[0]) + tail2);
        let d1 = tail1 + r1;
        let d2 = tail2 + r2;
        assert(term_tokens(ts1[0]) + d1 =~= termlist_tokens(ts1) + r1);
        assert(term_tokens(ts2[0]) + d2 =~= termlist_tokens(ts2) + r2);
        lemma_term_tokens_unique(ts1[0], ts2[0], d1, d2);
        if ts1.len() == 1 && ts2.len() == 1 {
            assert(ts1 =~= ts2);
            assert(r1 =~= r2);
        } else if ts1.len() == 1 {
            assert(d1[0] == r1[0]);
            assert(d2[0] == TokenV::Comma);
        } else if ts2.len() == 1 {
            assert(d2[0] == r2[0]);
            assert(d1[0] == TokenV::Comma);
        } else {
            assert(termlist_tokens(ts1.drop_first()) + r1 =~= d1.drop_first());
            assert(termlist_tokens(ts2.drop_first()) + r2 =~= d2.drop_first());
            lemma_termlist_tokens_unique(ts1.drop_first(), ts2.drop_first(), r1, r2);
            assert forall|i: int| 0 <= i < ts1.len() implies ts1[i] == ts2[i] by {
                if i > 0 {
                    assert(ts1[i] == ts1.drop_first()[i - 1]);
                    assert(ts2[i] == ts2.drop_first()[i - 1]);
                }
            };
            assert(ts1 =~= ts2);
        }
    }
}

/// Every term's rendering begins with a variable or atom token.
proof fn lemma_term_tokens_starts(t: TermV)
    ensures
        term_tokens(t).len() >= 1,
        is_term_start(term_tokens(t)[0]),
{
}

/// Law (grammar unambiguity): two clauses with the same token rendering are
/// the same clause.  Together with the parsers' soundness, a successful
/// parse returns the one clause or query whose rendering is the input.
pub proof fn lemma_clause_tokens_unique(c1: ClauseV, c2: ClauseV)
    requires
        clause_tokens(c1) == clause_tokens(c2),
    ensures
        c1 == c2,
{
    let s = clause_tokens(c1);
    match (c1, c2) {
        (ClauseV::Fact(h1), ClauseV::Fact(h2)) => {
            lemma_term_tokens_unique(h1, h2, seq![TokenV::Period], seq![TokenV::Period]);
        },
        (ClauseV::Fact(h1), ClauseV::Rule(h2, b2)) => {
            let r2 = seq![TokenV::ColonHyphen] + termlist_tokens(b2) + seq![TokenV::Period];
            assert(term_tokens(h2) + r2 =~= clause_tokens(c2));
            lemma_term_tokens_unique(h1, h2, seq![TokenV::Period], r2);
            assert(seq![TokenV::Period][0] == r2[0]);
        },
        (ClauseV::Rule(h1, b1), ClauseV::Fact(h2)) => {
            let r1 = seq![TokenV::ColonHyphen] + termlist_tokens(b1) + seq![TokenV::Period];
            assert(term_tokens(h1) + r1 =~= clause_tokens(c1));
            lemma_term_tokens_unique(h1, h2, r1, seq![TokenV::Period]);
            assert(seq![TokenV::Period][0] == r1[0]);
        },
        (ClauseV::Rule(h1, b1), ClauseV::Rule(h2, b2)) => {
            let r1 = seq![TokenV::ColonHyphen] + (termlist_tokens(b1) + seq![TokenV::Period]);
            let r2 = seq![TokenV::ColonHyphen] + (termlist_tokens(b2) + seq![TokenV::Period]);
            assert(term_tokens(h1) + r1 =~= clause_tokens(c1));
            assert(term_tokens(h2) + r2 =~= clause_tokens(c2));
            lemma_term_tokens_unique(h1, h2, r1, r2);
            assert(termlist_tokens(b1) + seq![TokenV::Period] =~= r1.drop_first());
            assert(termlist_tokens(b2) + seq![TokenV::Period] =~= r2.drop_first());
            lemma_termlist_tokens_unique(
                b1,
                b2,
                seq![TokenV::Period],
                seq![TokenV::Period],
            );
        },
    }
}

} // verus!

verus! {

/// A term of the grammar: compounds apply a head to at least one argument.
pub open spec fn wf_term(t: TermV) -> bool
    decreases t, 0int,
{
    match t {
        TermV::Var(_) => true,
        TermV::Atom(_) => true,
        TermV::Cmp { head, args } => args.len() >= 1 && wf_term_each(args),
    }
}

pub open spec fn wf_term_each(ts: Seq<TermV>) -> bool
    decreases ts, 1int,
{
    if ts.len() == 0 {
        true
    } else {
        wf_term_each(ts.drop_last()) && wf_term(ts.last())
    }
}

pub proof fn lemma_wf_term_each_iff(ts: Seq<TermV>)
    ensures
        wf_term_each(ts) <==> (forall|j: int| 0 <= j < ts.len() ==> wf_term(ts[j])),
    decreases ts.len(),
{
    if ts.len() > 0 {
        lemma_wf_term_each_iff(ts.drop_last());
        assert(forall|j: int| 0 <= j < ts.len() - 1 ==> ts[j] == ts.drop_last()[j]);
    }
}

/// No comma stands at position `q` (the position may be past the end).
pub open spec fn no_comma_at(tv: Seq<TokenV>, q: int) -> bool {
    q < 0 || q >= tv.len() || tv[q] != TokenV::Comma
}

/// The term's token spelling stands at position `p` of the token text.
pub open spec fn term_at(tv: Seq<TokenV>, p: int, t: TermV) -> bool {
    &&& 0 <= p
    &&& p + term_tokens(t).len() <= tv.len()
    &&& tv.subrange(p, p + term_tokens(t).len()) == term_tokens(t)
}

/// A grammatical term spelled at `p` that the grammar does not extend in
/// place: an atom directly followed by an opening parenthesis spells the
/// head of a compound instead, never a whole term.
pub open spec fn term_fits(tv: Seq<TokenV>, p: int, t: TermV) -> bool {
    &&& wf_term(t)
    &&& term_at(tv, p, t)
    &&& ((t matches TermV::Atom(_)) ==> no_lparen_at(tv, p + 1))
}

/// A comma-separated list of unextendable grammatical terms spelled from
/// `p` up to `q`.
pub open spec fn termlist_body_at(tv: Seq<TokenV>, p: int, ts: Seq<TermV>, q: int) -> bool
    decreases ts.len(),
{
    if ts.len() == 0 {
        false
    } else if ts.len() == 1 {
        term_fits(tv, p, ts[0]) && q == p + term_tokens(ts[0]).len()
    } else {
        &&& term_fits(tv, p, ts[0])
        &&& p + term_tokens(ts[0]).len() < tv.len()
        &&& tv[p + term_tokens(ts[0]).len()] == TokenV::Comma
        &&& termlist_body_at(tv, p + term_tokens(ts[0]).len() + 1, ts.drop_first(), q)
    }
}

/// A maximal term list at `p`: spelled there, and not extendable by a
/// further comma.
pub open spec fn termlist_fits(tv: Seq<TokenV>, p: int, ts: Seq<TermV>) -> bool {
    &&& termlist_body_at(tv, p, ts, p + termlist_tokens(ts).len())
    &&& no_comma_at(tv, p + termlist_tokens(ts).len())
}

/// A clause of the grammar: grammatical terms, a rule body of at least one
/// subgoal.
pub open spec fn wf_clause(c: ClauseV) -> bool {
    match c {
        ClauseV::Fact(h) => wf_term(h),
        ClauseV::Rule(h, b) => wf_term(h) && b.len() >= 1 && wf_term_each(b),
    }
}

/// The clause's token spelling stands at position `p` of the token text.
pub open spec fn clause_fits(tv: Seq<TokenV>, p: int, c: ClauseV) -> bool {
    &&& wf_clause(c)
    &&& 0 <= p
    &&& p + clause_tokens(c).len() <= tv.len()
    &&& tv.subrange(p, p + clause_tokens(c).len()) == clause_tokens(c)
}

/// A spelled list whose end no comma or parenthesis can extend is a list of
/// unextendable terms: inside the spelling each element is followed by a
/// comma or by the list's end, neither an opening parenthesis.
pub proof fn lemma_spelled_list_fits(tv: Seq<TokenV>, p: int, ts: Seq<TermV>, q: int)
    requires
        ts.len() >= 1,
        wf_term_each(ts),
        0 <= p,
        q == p + termlist_tokens(ts).len(),
        q <= tv.len(),
        tv.subrange(p, q) == termlist_tokens(ts),
        no_comma_at(tv, q),
        no_lparen_at(tv, q),
    ensures
        termlist_body_at(tv, p, ts, q),
        termlist_fits(tv, p, ts),
    decreases ts.len(),
{
    lemma_wf_term_each_iff(ts);
    let t0 = ts[0];
    let n0 = term_tokens(t0).len() as int;
    if ts.len() == 1 {
        assert(termlist_tokens(ts) == term_tokens(t0));
        assert(tv.subrange(p, p + n0) == term_tokens(t0));
        if t0 matches TermV::Atom(_) {
            assert(n0 == 1);
        }
    } else {
        let rest = ts.drop_first();
        assert(termlist_tokens(ts) == term_tokens(t0) + seq![TokenV::Comma] + termlist_tokens(
            rest,
        ));
        assert forall|i: int| 0 <= i < n0 implies tv.subrange(p, p + n0)[i] == term_tokens(t0)[i]
            by {
            assert(tv.subrange(p, q)[i] == termlist_tokens(ts)[i]);
        };
        assert(tv.subrange(p, p + n0) =~= term_tokens(t0));
        assert(tv.subrange(p, q)[n0] == termlist_tokens(ts)[n0]);
        assert(tv[p + n0] == TokenV::Comma);
        if t0 matches TermV::Atom(_) {
            assert(n0 == 1);
        }
        assert forall|i: int| 0 <= i < termlist_tokens(rest).len() implies tv.subrange(
            p + n0 + 1,
            q,
        )[i] == termlist_tokens(rest)[i] by {
            assert(tv.subrange(p, q)[n0 + 1 + i] == termlist_tokens(ts)[n0 + 1 + i]);
        };
        assert(tv.subrange(p + n0 + 1, q) =~= termlist_tokens(rest));
        lemma_wf_term_each_iff(rest);
        assert(forall|j: int| 0 <= j < rest.len() ==> rest[j] == ts[j + 1]);
        lemma_spelled_list_fits(tv, p + n0 + 1, rest, q);
    }
}

/// Inside a spelled grammatical compound, the argument list is a maximal
/// list, closed by the right parenthesis.
pub proof fn lemma_cmp_inner(tv: Seq<TokenV>, p: int, h: Seq<char>, args: Seq<TermV>)
    requires
        term_at(tv, p, (TermV::Cmp { head: h, args })),
        wf_term((TermV::Cmp { head: h, args })),
    ensures
        tv[p] == TokenV::Atom(h),
        tv[p + 1] == TokenV::LeftParen,
        p + 2 + termlist_tokens(args).len() < tv.len(),
        tv[p + 2 + termlist_tokens(args).len()] == TokenV::RightParen,
        termlist_body_at(tv, p + 2, args, p + 2 + termlist_tokens(args).len()),
        termlist_fits(tv, p + 2, args),
{
    let u = TermV::Cmp { head: h, args };
    let m = termlist_tokens(args);
    let n = term_tokens(u).len() as int;
    assert(term_tokens(u) == seq![TokenV::Atom(h), TokenV::LeftParen] + m + seq![
        TokenV::RightParen,
    ]);
    assert(tv.subrange(p, p + n)[0] == term_tokens(u)[0]);
    assert(tv.subrange(p, p + n)[1] == term_tokens(u)[1]);
    assert forall|i: int| 0 <= i < m.len() implies tv.subrange(p + 2, p + 2 + m.len())[i] == m[i]
        by {
        assert(term_tokens(u)[2 + i] == m[i]);
        assert(tv.subrange(p, p + n)[2 + i] == term_tokens(u)[2 + i]);
    };
    assert(tv.subrange(p + 2, p + 2 + m.len()) =~= m);
    assert(tv.subrange(p, p + n)[2 + m.len() as int] == term_tokens(u)[2 + m.len() as int]);
    assert(tv[p + 2 + m.len()] == TokenV::RightParen);
    lemma_spelled_list_fits(tv, p + 2, args, p + 2 + m.len());
}

/// Law (unextendable spellings are unique, term level): at one position at
/// most one unextendable grammatical term is spelled.
pub proof fn lemma_term_fits_unique(tv: Seq<TokenV>, p: int, t1: TermV, t2: TermV)
    requires
        term_fits(tv, p, t1),
        term_fits(tv, p, t2),
    ensures
        t1 == t2,
    decreases t1, 0int,
{
    let n1 = term_tokens(t1).len() as int;
    let n2 = term_tokens(t2).len() as int;
    assert(tv[p] == term_tokens(t1)[0]);
    assert(tv[p] == term_tokens(t2)[0]);
    match (t1, t2) {
        (TermV::Var(a), TermV::Var(b)) => {},
        (TermV::Atom(a), TermV::Atom(b)) => {},
        (TermV::Atom(a), TermV::Cmp { head: h2, args: args2 }) => {
            assert(tv[p + 1] == term_tokens(t2)[1]);
        },
        (TermV::Cmp { head: h1, args: args1 }, TermV::Atom(b)) => {
            assert(tv[p + 1] == term_tokens(t1)[1]);
        },
        (TermV::Cmp { head: h1, args: args1 }, TermV::Cmp { head: h2, args: args2 }) => {
            let m1 = termlist_tokens(args1);
            let m2 = termlist_tokens(args2);
            assert(term_tokens(t1) == seq![TokenV::Atom(h1), TokenV::LeftParen] + m1 + seq![
                TokenV::RightParen,
            ]);
            assert(term_tokens(t2) == seq![TokenV::Atom(h2), TokenV::LeftParen] + m2 + seq![
                TokenV::RightParen,
            ]);
            assert forall|i: int| 0 <= i < m1.len() implies tv.subrange(p + 2, p + 2 + m1.len())[i]
                == m1[i] by {
                assert(term_tokens(t1)[2 + i] == m1[i]);
                assert(tv.subrange(p, p + n1)[2 + i] == term_tokens(t1)[2 + i]);
            };
            assert(tv.subrange(p + 2, p + 2 + m1.len()) =~= m1);
            assert forall|i: int| 0 <= i < m2.len() implies tv.subrange(p + 2, p + 2 + m2.len())[i]
                == m2[i] by {
                assert(term_tokens(t2)[2 + i] == m2[i]);
                assert(tv.subrange(p, p + n2)[2 + i] == term_tokens(t2)[2 + i]);
            };
            assert(tv.subrange(p + 2, p + 2 + m2.len()) =~= m2);
            assert(tv.subrange(p, p + n1)[2 + m1.len() as int] == term_tokens(t1)[2 + m1.len() as int]);
            assert(tv[p + 2 + m1.len()] == TokenV::RightParen);
            assert(tv.subrange(p, p + n2)[2 + m2.len() as int] == term_tokens(t2)[2 + m2.len() as int]);
            assert(tv[p + 2 + m2.len()] == TokenV::RightParen);
            lemma_spelled_list_fits(tv, p + 2, args1, p + 2 + m1.len());
            lemma_spelled_list_fits(tv, p + 2, args2, p + 2 + m2.len());
            assert(decreases_to!(t1 => args1));
            lemma_termlist_body_unique(
                tv,
                p + 2,
                args1,
                p + 2 + m1.len(),
                args2,
                p + 2 + m2.len(),
            );
        },
        _ => {},
    }
}

/// How a maximal list spelled at the start relates to a parsed prefix
/// `done` ending at `q`: it begins with `done`, and if it is longer, a
/// comma stands at `q` and the rest of it is spelled beyond.
pub open spec fn list_extends(
    tv: Seq<TokenV>,
    p0: int,
    hs: Seq<TermV>,
    done: Seq<TermV>,
    q: int,
) -> bool {
    &&& hs.len() >= done.len()
    &&& hs.take(done.len() as int) == done
    &&& (hs.len() > done.len() ==> q < tv.len() && tv[q] == TokenV::Comma && termlist_body_at(
        tv,
        q + 1,
        hs.skip(done.len() as int),
        p0 + termlist_tokens(hs).len(),
    ))
}

/// Extending a spelled list by a comma and one more unextendable term.
pub proof fn lemma_termlist_body_push(
    tv: Seq<TokenV>,
    p: int,
    ts: Seq<TermV>,
    q: int,
    t: TermV,
)
    requires
        termlist_body_at(tv, p, ts, q),
        q < tv.len(),
        tv[q] == TokenV::Comma,
        term_fits(tv, q + 1, t),
    ensures
        termlist_body_at(tv, p, ts.push(t), q + 1 + term_tokens(t).len()),
    decreases ts.len(),
{
    if ts.len() == 1 {
        assert(ts.push(t)[0] == ts[0]);
        assert(ts.push(t).drop_first() =~= seq![t]);
        assert(seq![t][0] == t);
        assert(seq![t].len() == 1);
        assert(termlist_body_at(tv, q + 1, seq![t], q + 1 + term_tokens(t).len()));
    } else {
        let n0 = term_tokens(ts[0]).len() as int;
        lemma_termlist_body_push(tv, p + n0 + 1, ts.drop_first(), q, t);
        assert(ts.push(t)[0] == ts[0]);
        assert(ts.push(t).drop_first() =~= ts.drop_first().push(t));
    }
}

/// Law (unextendable spellings are unique, list level): at one position at
/// most one maximal term list is spelled, and it has one end.
pub proof fn lemma_termlist_body_unique(
    tv: Seq<TokenV>,
    p: int,
    ts1: Seq<TermV>,
    q1: int,
    ts2: Seq<TermV>,
    q2: int,
)
    requires
        termlist_body_at(tv, p, ts1, q1),
        termlist_body_at(tv, p, ts2, q2),
        no_comma_at(tv, q1),
        no_comma_at(tv, q2),
    ensures
        ts1 == ts2,
        q1 == q2,
    decreases ts1, 1int,
{
    lemma_term_fits_unique(tv, p, ts1[0], ts2[0]);
    let n0 = term_tokens(ts1[0]).len() as int;
    if ts1.len() == 1 && ts2.len() == 1 {
        assert(ts1 =~= ts2);
    } else if ts1.len() == 1 {
        assert(tv[p + n0] == TokenV::Comma);
    } else if ts2.len() == 1 {
        assert(tv[p + n0] == TokenV::Comma);
    } else {
        lemma_termlist_body_unique(
            tv,
            p + n0 + 1,
            ts1.drop_first(),
            q1,
            ts2.drop_first(),
            q2,
        );
        assert forall|i: int| 0 <= i < ts1.len() implies ts1[i] == ts2[i] by {
            if i > 0 {
                assert(ts1[i] == ts1.drop_first()[i - 1]);
                assert(ts2[i] == ts2.drop_first()[i - 1]);
            }
        };
        assert(ts1 =~= ts2);
    }
}

} // verus!

verus! {

/// Inside a spelled grammatical clause: the head is an unextendable term,
/// the neck token follows it, a rule's body is a maximal list, and the
/// period closes the spelling.
pub proof fn lemma_clause_fits_parts(tv: Seq<TokenV>, p: int, c: ClauseV)
    requires
        clause_fits(tv, p, c),
    ensures
        (match c {
            ClauseV::Fact(h) => term_fits(tv, p, h) && p + term_tokens(h).len() < tv.len() && tv[p
                + term_tokens(h).len()] == TokenV::Period && p + clause_tokens(c).len() == p
                + term_tokens(h).len() + 1,
            ClauseV::Rule(h, b) => term_fits(tv, p, h) && p + term_tokens(h).len() < tv.len()
                && tv[p + term_tokens(h).len()] == TokenV::ColonHyphen && termlist_body_at(
                tv,
                p + term_tokens(h).len() + 1,
                b,
                p + term_tokens(h).len() + 1 + termlist_tokens(b).len(),
            ) && p + term_tokens(h).len() + 1 + termlist_tokens(b).len() < tv.len() && tv[p
                + term_tokens(h).len() + 1 + termlist_tokens(b).len()] == TokenV::Period && p
                + clause_tokens(c).len() == p + term_tokens(h).len() + 1 + termlist_tokens(
                b,
            ).len() + 1,
        }),
{
    let cn = clause_tokens(c).len() as int;
    match c {
        ClauseV::Fact(h) => {
            let n = term_tokens(h).len() as int;
            assert(clause_tokens(c) == term_tokens(h) + seq![TokenV::Period]);
            assert forall|i: int| 0 <= i < n implies tv.subrange(p, p + n)[i] == term_tokens(h)[i]
                by {
                assert(tv.subrange(p, p + cn)[i] == clause_tokens(c)[i]);
            };
            assert(tv.subrange(p, p + n) =~= term_tokens(h));
            assert(tv.subrange(p, p + cn)[n] == clause_tokens(c)[n]);
            assert(tv[p + n] == TokenV::Period);
        },
        ClauseV::Rule(h, b) => {
            let n = term_tokens(h).len() as int;
            let m = termlist_tokens(b);
            assert(clause_tokens(c) == term_tokens(h) + seq![TokenV::ColonHyphen] + m + seq![
                TokenV::Period,
            ]);
            assert forall|i: int| 0 <= i < n implies tv.subrange(p, p + n)[i] == term_tokens(h)[i]
                by {
                assert(tv.subrange(p, p + cn)[i] == clause_tokens(c)[i]);
            };
            assert(tv.subrange(p, p + n) =~= term_tokens(h));
            assert(tv.subrange(p, p + cn)[n] == clause_tokens(c)[n]);
            assert(tv[p + n] == TokenV::ColonHyphen);
            assert forall|i: int| 0 <= i < m.len() implies tv.subrange(
                p + n + 1,
                p + n + 1 + m.len(),
            )[i] == m[i] by {
                assert(clause_tokens(c)[n + 1 + i] == m[i]);
                assert(tv.subrange(p, p + cn)[n + 1 + i] == clause_tokens(c)[n + 1 + i]);
            };
            assert(tv.subrange(p + n + 1, p + n + 1 + m.len()) =~= m);
            assert(tv.subrange(p, p + cn)[n + 1 + m.len() as int] == clause_tokens(c)[n + 1
                + m.len() as int]);
            assert(tv[p + n + 1 + m.len()] == TokenV::Period);
            lemma_spelled_list_fits(tv, p + n + 1, b, p + n + 1 + m.len());
        },
    }
}

/// Law (unextendable spellings are unique, clause level): at one position
/// at most one grammatical clause is spelled.
pub proof fn lemma_clause_fits_unique(tv: Seq<TokenV>, p: int, c1: ClauseV, c2: ClauseV)
    requires
        clause_fits(tv, p, c1),
        clause_fits(tv, p, c2),
    ensures
        c1 == c2,
{
    lemma_clause_fits_parts(tv, p, c1);
    lemma_clause_fits_parts(tv, p, c2);
    match (c1, c2) {
        (ClauseV::Fact(h1), ClauseV::Fact(h2)) => {
            lemma_term_fits_unique(tv, p, h1, h2);
        },
        (ClauseV::Fact(h1), ClauseV::Rule(h2, b2)) => {
            lemma_term_fits_unique(tv, p, h1, h2);
        },
        (ClauseV::Rule(h1, b1), ClauseV::Fact(h2)) => {
            lemma_term_fits_unique(tv, p, h1, h2);
        },
        (ClauseV::Rule(h1, b1), ClauseV::Rule(h2, b2)) => {
            lemma_term_fits_unique(tv, p, h1, h2);
            let ph = p + term_tokens(h1).len() as int;
            lemma_termlist_body_unique(
                tv,
                ph + 1,
                b1,
                ph + 1 + termlist_tokens(b1).len(),
                b2,
                ph + 1 + termlist_tokens(b2).len(),
            );
        },
    }
}

} // verus!
