//! Ordered substitutions and their sequential application.
//!
//! A `Sub` binds one variable name to a term.  A substitution is an ordered
//! list of such bindings; it is applied one binding at a time, in list order,
//! each pass rewriting the whole term.  The order is significant: earlier
//! bindings are fully resolved into the term before later ones are
//! considered.

use vstd::prelude::*;

use crate::terms::Term;
use crate::terms::TermV;
use crate::terms::term_seq_view;
use crate::terms::term_view;

verus! {

broadcast use vstd::std_specs::vec::group_vec_axioms, vstd::seq::group_seq_axioms;

/// One binding: the named variable is replaced by the output term.
pub struct Sub {
    pub input_variable: String,
    pub output_term: Term,
}

/// The mathematical view of a binding.
pub struct SubV {
    pub var: Seq<char>,
    pub val: TermV,
}

impl View for Sub {
    type V = SubV;

    open spec fn view(&self) -> SubV {
        SubV { var: self.input_variable@, val: self.output_term@ }
    }
}

/// The view of a list of bindings.
pub open spec fn sub_seq_view(ss: Seq<Sub>) -> Seq<SubV> {
    Seq::new(ss.len(), |i: int| ss[i]@)
}

/// One pass of a single binding over a term: every leaf variable named `v`
/// becomes `out`; atoms are untouched; compounds are rewritten argument-wise.
pub open spec fn subst_one(v: Seq<char>, out: TermV, t: TermV) -> TermV
    decreases t,
{
    match t {
        TermV::Var(name) => if name == v {
            out
        } else {
            t
        },
        TermV::Atom(_) => t,
        TermV::Cmp { head, args } => TermV::Cmp { head, args: subst_one_each(v, out, args) },
    }
}

pub open spec fn subst_one_each(v: Seq<char>, out: TermV, ts: Seq<TermV>) -> Seq<TermV>
    decreases ts,
{
    if ts.len() == 0 {
        Seq::empty()
    } else {
        subst_one_each(v, out, ts.drop_last()).push(subst_one(v, out, ts.last()))
    }
}

/// Sequential application: the bindings rewrite the term one at a time, in
/// list order.
pub open spec fn subst_list(subs: Seq<SubV>, t: TermV) -> TermV
    decreases subs.len(),
{
    if subs.len() == 0 {
        t
    } else {
        subst_list(subs.drop_first(), subst_one(subs[0].var, subs[0].val, t))
    }
}

/// Pointwise application of a whole substitution to a list of terms.
pub open spec fn subst_list_each(subs: Seq<SubV>, ts: Seq<TermV>) -> Seq<TermV> {
    Seq::new(ts.len(), |i: int| subst_list(subs, ts[i]))
}

/// Whether the variable named `v` occurs anywhere in `t`.
pub open spec fn occurs(v: Seq<char>, t: TermV) -> bool
    decreases t,
{
    match t {
        TermV::Var(name) => name == v,
        TermV::Atom(_) => false,
        TermV::Cmp { head, args } => occurs_in_seq(v, args),
    }
}

pub open spec fn occurs_in_seq(v: Seq<char>, ts: Seq<TermV>) -> bool
    decreases ts,
{
    if ts.len() == 0 {
        false
    } else {
        occurs_in_seq(v, ts.drop_last()) || occurs(v, ts.last())
    }
}

/// A binding that replaces a variable by itself; such a binding rewrites
/// nothing.
pub open spec fn sub_ident(s: SubV) -> bool {
    s.val == TermV::Var(s.var)
}

/// No binding replaces its variable by a term in which that same variable
/// occurs (identity bindings aside).  The unifier performs no occurs-check,
/// so a substitution it returns can break this on pathological input.
pub open spec fn no_self_occurrence(subs: Seq<SubV>) -> bool {
    forall|k: int|
        0 <= k < subs.len() ==> sub_ident(subs[k]) || !occurs(subs[k].var, subs[k].val)
}

pub proof fn lemma_subst_one_absent(v: Seq<char>, out: TermV, t: TermV)
    requires
        !occurs(v, t),
    ensures
        subst_one(v, out, t) == t,
    decreases t,
{
    match t {
        TermV::Cmp { head, args } => {
            lemma_subst_one_each_absent(v, out, args);
        },
        _ => {},
    }
}

pub proof fn lemma_subst_one_each_absent(v: Seq<char>, out: TermV, ts: Seq<TermV>)
    requires
        !occurs_in_seq(v, ts),
    ensures
        subst_one_each(v, out, ts) == ts,
    decreases ts,
{
    if ts.len() > 0 {
        lemma_subst_one_each_absent(v, out, ts.drop_last());
        lemma_subst_one_absent(v, out, ts.last());
        assert(subst_one_each(v, out, ts) =~= ts);
    } else {
        assert(subst_one_each(v, out, ts) =~= ts);
    }
}

pub proof fn lemma_subst_one_ident(v: Seq<char>, t: TermV)
    ensures
        subst_one(v, TermV::Var(v), t) == t,
    decreases t,
{
    match t {
        TermV::Cmp { head, args } => {
            lemma_subst_one_each_ident(v, args);
        },
        _ => {},
    }
}

pub proof fn lemma_subst_one_each_ident(v: Seq<char>, ts: Seq<TermV>)
    ensures
        subst_one_each(v, TermV::Var(v), ts) == ts,
    decreases ts,
{
    if ts.len() > 0 {
        lemma_subst_one_each_ident(v, ts.drop_last());
        lemma_subst_one_ident(v, ts.last());
        assert(subst_one_each(v, TermV::Var(v), ts) =~= ts);
    } else {
        assert(subst_one_each(v, TermV::Var(v), ts) =~= ts);
    }
}

/// Absence from a term list is absence from each of its terms.
pub proof fn lemma_occurs_in_seq_index(v: Seq<char>, ts: Seq<TermV>)
    requires
        !occurs_in_seq(v, ts),
    ensures
        forall|j: int| 0 <= j < ts.len() ==> !occurs(v, ts[j]),
    decreases ts,
{
    if ts.len() > 0 {
        lemma_occurs_in_seq_index(v, ts.drop_last());
        assert(forall|j: int| 0 <= j < ts.len() - 1 ==> ts[j] == ts.drop_last()[j]);
    }
}

/// A pass of a binding free of `v` cannot introduce `v`.
pub proof fn lemma_occurs_subst_one(v: Seq<char>, w: Seq<char>, out: TermV, t: TermV)
    requires
        !occurs(v, t),
        !occurs(v, out),
    ensures
        !occurs(v, subst_one(w, out, t)),
    decreases t,
{
    match t {
        TermV::Cmp { head, args } => {
            lemma_occurs_subst_one_each(v, w, out, args);
        },
        _ => {},
    }
}

pub proof fn lemma_occurs_subst_one_each(v: Seq<char>, w: Seq<char>, out: TermV, ts: Seq<TermV>)
    requires
        !occurs_in_seq(v, ts),
        !occurs(v, out),
    ensures
        !occurs_in_seq(v, subst_one_each(w, out, ts)),
    decreases ts,
{
    if ts.len() > 0 {
        lemma_occurs_subst_one_each(v, w, out, ts.drop_last());
        lemma_occurs_subst_one(v, w, out, ts.last());
        let rr = subst_one_each(w, out, ts);
        assert(rr.drop_last() =~= subst_one_each(w, out, ts.drop_last()));
        assert(rr.last() == subst_one(w, out, ts.last()));
    }
}

/// A pass of a binding for `v`, whose output is free of `v`, removes `v`.
pub proof fn lemma_subst_one_removes(v: Seq<char>, out: TermV, t: TermV)
    requires
        !occurs(v, out),
    ensures
        !occurs(v, subst_one(v, out, t)),
    decreases t,
{
    match t {
        TermV::Cmp { head, args } => {
            lemma_subst_one_removes_each(v, out, args);
        },
        _ => {},
    }
}

pub proof fn lemma_subst_one_removes_each(v: Seq<char>, out: TermV, ts: Seq<TermV>)
    requires
        !occurs(v, out),
    ensures
        !occurs_in_seq(v, subst_one_each(v, out, ts)),
    decreases ts,
{
    if ts.len() > 0 {
        lemma_subst_one_removes_each(v, out, ts.drop_last());
        lemma_subst_one_removes(v, out, ts.last());
        let rr = subst_one_each(v, out, ts);
        assert(rr.drop_last() =~= subst_one_each(v, out, ts.drop_last()));
        assert(rr.last() == subst_one(v, out, ts.last()));
    }
}

/// A one-binding substitution is one pass of that binding.
pub proof fn lemma_subst_list_one(s: SubV, t: TermV)
    ensures
        subst_list(seq![s], t) == subst_one(s.var, s.val, t),
{
    assert(seq![s][0] == s);
    assert(seq![s].drop_first() =~= Seq::<SubV>::empty());
    assert(subst_list(Seq::<SubV>::empty(), subst_one(s.var, s.val, t)) == subst_one(
        s.var,
        s.val,
        t,
    ));
}

/// Splitting a substitution splits its sequential application.
pub proof fn lemma_subst_list_append(s1: Seq<SubV>, s2: Seq<SubV>, t: TermV)
    ensures
        subst_list(s1 + s2, t) == subst_list(s2, subst_list(s1, t)),
    decreases s1.len(),
{
    if s1.len() == 0 {
        assert(s1 + s2 =~= s2);
    } else {
        assert((s1 + s2).drop_first() =~= s1.drop_first() + s2);
        lemma_subst_list_append(s1.drop_first(), s2, subst_one(s1[0].var, s1[0].val, t));
    }
}

/// Law: a substitution none of whose bound variables still occurs in a term
/// rewrites that term to itself.  In particular, once a term has been fully
/// rewritten and carries no residual occurrence of the substitution's input
/// variables, applying the same substitution a second time is a no-op.
pub proof fn lemma_subst_list_no_residue(subs: Seq<SubV>, t: TermV)
    requires
        forall|k: int|
            0 <= k < subs.len() ==> sub_ident(subs[k]) || !occurs(subs[k].var, t),
    ensures
        subst_list(subs, t) == t,
    decreases subs.len(),
{
    if subs.len() > 0 {
        if sub_ident(subs[0]) {
            lemma_subst_one_ident(subs[0].var, t);
        } else {
            lemma_subst_one_absent(subs[0].var, subs[0].val, t);
        }
        assert(forall|k: int|
            0 <= k < subs.drop_first().len() ==> subs.drop_first()[k] == subs[k + 1]);
        lemma_subst_list_no_residue(subs.drop_first(), t);
    }
}

pub proof fn lemma_subst_one_each_index(v: Seq<char>, out: TermV, ts: Seq<TermV>)
    ensures
        subst_one_each(v, out, ts).len() == ts.len(),
        forall|i: int|
            0 <= i < ts.len() ==> subst_one_each(v, out, ts)[i] == subst_one(v, out, ts[i]),
    decreases ts,
{
    if ts.len() > 0 {
        lemma_subst_one_each_index(v, out, ts.drop_last());
    }
}

/// A whole substitution rewrites a compound argument-wise.
pub proof fn lemma_subst_list_cmp(subs: Seq<SubV>, head: Seq<char>, args: Seq<TermV>)
    ensures
        subst_list(subs, (TermV::Cmp { head, args })) == (TermV::Cmp {
            head,
            args: subst_list_each(subs, args),
        }),
    decreases subs.len(),
{
    if subs.len() == 0 {
        assert(subst_list_each(subs, args) =~= args);
    } else {
        let v = subs[0].var;
        let out = subs[0].val;
        lemma_subst_one_each_index(v, out, args);
        lemma_subst_list_cmp(subs.drop_first(), head, subst_one_each(v, out, args));
        assert(subst_list_each(subs.drop_first(), subst_one_each(v, out, args)) =~= subst_list_each(
            subs,
            args,
        ));
    }
}

impl Clone for Term {
    /// A deep copy with the same view.
    #[verifier::loop_isolation(false)]
    fn clone(&self) -> (res: Term)
        ensures
            res@ == self@,
        decreases self,
    {
        match self {
            Term::Var(name) => Term::Var(name.clone()),
            Term::Atom(name) => Term::Atom(name.clone()),
            Term::Compound { head_atom, termlist } => {
                let mut copied: Vec<Term> = Vec::new();
                let mut i: usize = 0;
                while i < termlist.len()
                    invariant
                        i <= termlist.len(),
                        copied@.len() == i,
                        forall|j: int| 0 <= j < i ==> copied@[j]@ == termlist@[j]@,
                    decreases termlist.len() - i,
                {
                    proof {
                        assert(decreases_to!(*self => self->Compound_termlist));
                        assert(decreases_to!(*termlist => termlist[i as int]));
                    }
                    copied.push(termlist[i].clone());
                    i += 1;
                }
                proof {
                    lemma_term_seq_view_pointwise(copied@, termlist@);
                }
                Term::Compound { head_atom: head_atom.clone(), termlist: copied }
            },
        }
    }
}

impl Clone for Sub {
    /// A copy with the same view.
    fn clone(&self) -> (res: Sub)
        ensures
            res@ == self@,
    {
        Sub { input_variable: self.input_variable.clone(), output_term: self.output_term.clone() }
    }
}

/// Term lists with pointwise equal views have equal views.
pub proof fn lemma_term_seq_view_pointwise(a: Seq<Term>, b: Seq<Term>)
    requires
        a.len() == b.len(),
        forall|j: int| 0 <= j < a.len() ==> term_view(a[j]) == term_view(b[j]),
    ensures
        term_seq_view(a) == term_seq_view(b),
    decreases a.len(),
{
    if a.len() > 0 {
        lemma_term_seq_view_pointwise(a.drop_last(), b.drop_last());
        assert(term_seq_view(a) =~= term_seq_view(b));
    } else {
        assert(term_seq_view(a) =~= term_seq_view(b));
    }
}

/// One pass of a single binding over a term, per the sequential semantics.
#[verifier::loop_isolation(false)]
fn apply_one(v: &String, out: &Term, t: &Term) -> (res: Term)
    ensures
        res@ == subst_one(v@, out@, t@),
    decreases t,
{
    match t {
        Term::Var(name) => {
            if *name == *v {
                out.clone()
            } else {
                Term::Var(name.clone())
            }
        },
        Term::Atom(name) => Term::Atom(name.clone()),
        Term::Compound { head_atom, termlist } => {
            let mut rewritten: Vec<Term> = Vec::new();
            let mut i: usize = 0;
            proof {
                crate::terms::lemma_term_seq_view_len(termlist@);
            }
            while i < termlist.len()
                invariant
                    i <= termlist.len(),
                    rewritten@.len() == i,
                    term_seq_view(termlist@).len() == termlist@.len(),
                    forall|j: int|
                        0 <= j < i ==> rewritten@[j]@ == subst_one(
                            v@,
                            out@,
                            term_seq_view(termlist@)[j],
                        ),
                decreases termlist.len() - i,
            {
                proof {
                    crate::terms::lemma_term_seq_view_index(termlist@, i as int);
                    assert(decreases_to!(*t => t->Compound_termlist));
                    assert(decreases_to!(*termlist => termlist[i as int]));
                }
                rewritten.push(apply_one(v, out, &termlist[i]));
                i += 1;
            }
            proof {
                lemma_subst_one_each_index(v@, out@, term_seq_view(termlist@));
                crate::terms::lemma_term_seq_view_len(termlist@);
                crate::terms::lemma_term_seq_view_len(rewritten@);
                assert forall|j: int|
                    0 <= j < rewritten@.len() implies term_seq_view(rewritten@)[j]
                    == subst_one_each(v@, out@, term_seq_view(termlist@))[j] by {
                    crate::terms::lemma_term_seq_view_index(rewritten@, j);
                };
                assert(term_seq_view(rewritten@) =~= subst_one_each(
                    v@,
                    out@,
                    term_seq_view(termlist@),
                ));
            }
            Term::Compound { head_atom: head_atom.clone(), termlist: rewritten }
        },
    }
}

/// Applies an ordered substitution to a term, one binding at a time, in list
/// order, each pass rewriting the whole term.
pub fn apply_subs(subs: &Vec<Sub>, term: Term) -> (res: Term)
    ensures
        res@ == subst_list(sub_seq_view(subs@), term@),
{
    let ghost t0 = term@;
    let ghost all = sub_seq_view(subs@);
    let mut t = term;
    let mut i: usize = 0;
    while i < subs.len()
        invariant
            i <= subs.len(),
            subs@.len() == all.len(),
            all == sub_seq_view(subs@),
            t@ == subst_list(all.take(i as int), t0),
        decreases subs.len() - i,
    {
        proof {
            let pre = all.take(i as int);
            let s = all[i as int];
            assert(all.take(i as int + 1) =~= pre + seq![s]);
            lemma_subst_list_append(pre, seq![s], t0);
            lemma_subst_list_one(s, subst_list(pre, t0));
            assert(s.var == subs@[i as int].input_variable@);
            assert(s.val == subs@[i as int].output_term@);
        }
        t = apply_one(&subs[i].input_variable, &subs[i].output_term, &t);
        i += 1;
    }
    proof {
        assert(all.take(subs@.len() as int) =~= all);
    }
    t
}

} // verus!


verus! {

/// A substitution under which a binding's variable and output agree is
/// unchanged by a pass of that binding.
pub proof fn lemma_subst_list_absorbs_one(e: Seq<SubV>, v: Seq<char>, out: TermV, t: TermV)
    requires
        subst_list(e, TermV::Var(v)) == subst_list(e, out),
    ensures
        subst_list(e, subst_one(v, out, t)) == subst_list(e, t),
    decreases t,
{
    match t {
        TermV::Cmp { head, args } => {
            lemma_subst_list_cmp(e, head, args);
            lemma_subst_list_cmp(e, head, subst_one_each(v, out, args));
            lemma_subst_one_each_index(v, out, args);
            assert forall|j: int| 0 <= j < args.len() implies subst_list(
                e,
                subst_one_each(v, out, args)[j],
            ) == subst_list(e, args[j]) by {
                assert(decreases_to!(args => args[j]));
                lemma_subst_list_absorbs_one(e, v, out, args[j]);
            };
            assert(subst_list_each(e, subst_one_each(v, out, args)) =~= subst_list_each(e, args));
        },
        _ => {},
    }
}

} // verus!
