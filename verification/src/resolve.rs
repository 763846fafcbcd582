//! The resolution step and the depth-first search engine.
//!
//! One resolution step takes the substitution from a successful unification
//! of a clause head against the first pending goal, and produces the next
//! goal list (the clause's rewritten body followed by the remaining
//! rewritten goals) and the next query term.  The engine tries every clause
//! in database order against the first goal, recurses on success, and emits
//! the fully rewritten query whenever the goal list empties, so all proofs
//! are found, in database order.  Unguarded recursion in a clause database
//! never terminates, so the engine carries an explicit depth budget and
//! reports `None` when it is exhausted.

use vstd::prelude::*;

use crate::subst::Sub;
use crate::subst::SubV;
use crate::subst::sub_seq_view;
use crate::subst::subst_list;
use crate::subst::subst_list_each;
use crate::subst::apply_subs;
use crate::terms::Clause;
use crate::terms::ClauseV;
use crate::terms::Term;
use crate::terms::TermV;
use crate::terms::clause_body;
use crate::terms::clause_head;
use crate::terms::lemma_term_seq_view_index;
use crate::terms::lemma_term_seq_view_len;
use crate::terms::term_seq_view;
use crate::unify::MguOutcome;
use crate::unify::apply_subs_each;
use crate::unify::lemma_mgu_rec_mono;
use crate::unify::mgu;
use crate::unify::mgu_rec;

verus! {

broadcast use vstd::seq::group_seq_axioms;

/// The view of a clause database.
pub open spec fn clause_seq_view(cs: Seq<Clause>) -> Seq<ClauseV> {
    Seq::new(cs.len(), |i: int| cs[i]@)
}

/// The goal list after one resolution step: the clause body, then the
/// remaining goals, each rewritten by the unifying substitution.
pub open spec fn step_goals(s: Seq<SubV>, body: Seq<TermV>, goals: Seq<TermV>) -> Seq<TermV> {
    subst_list_each(s, body) + subst_list_each(s, goals.drop_first())
}

/// The budget-bounded meaning of the search: the ordered sequence of
/// solutions, or `None` if the budget ran out before the search finished.
/// Each recursive descent costs one unit, and each unification walk is given
/// the budget still held at that depth.
pub open spec fn solve_rec(prog: Seq<ClauseV>, goals: Seq<TermV>, query: TermV, fuel: nat) -> Option<
    Seq<TermV>,
>
    decreases fuel, prog.len() + 1,
{
    if goals.len() == 0 {
        Option::Some(seq![query])
    } else if fuel == 0 {
        Option::None
    } else {
        solve_clauses(prog, goals, query, 0, fuel)
    }
}

/// The solutions contributed by clauses `k..` of the database, in order.
pub open spec fn solve_clauses(
    prog: Seq<ClauseV>,
    goals: Seq<TermV>,
    query: TermV,
    k: int,
    fuel: nat,
) -> Option<Seq<TermV>>
    decreases fuel, prog.len() - k,
    when fuel >= 1 && goals.len() >= 1
{
    if !(0 <= k < prog.len()) {
        Option::Some(Seq::empty())
    } else {
        let c = prog[k];
        match mgu_rec(seq![clause_head(c)], seq![goals[0]], Seq::empty(), fuel) {
            MguOutcome::Pending => Option::None,
            MguOutcome::Fail => solve_clauses(prog, goals, query, k + 1, fuel),
            MguOutcome::Done(s) => {
                let child = solve_rec(
                    prog,
                    step_goals(s, clause_body(c), goals),
                    subst_list(s, query),
                    (fuel - 1) as nat,
                );
                match (child, solve_clauses(prog, goals, query, k + 1, fuel)) {
                    (Option::Some(xs), Option::Some(ys)) => Option::Some(xs + ys),
                    _ => Option::None,
                }
            },
        }
    }
}

/// The limit of the search: its solution sequence under any budget large
/// enough to finish it, or `None` if no budget finishes it.
pub open spec fn solve_spec(prog: Seq<ClauseV>, goals: Seq<TermV>, query: TermV) -> Option<
    Seq<TermV>,
> {
    if exists|f: nat| solve_rec(prog, goals, query, f) is Some {
        solve_rec(prog, goals, query, choose|f: nat| solve_rec(prog, goals, query, f) is Some)
    } else {
        Option::None
    }
}

/// A finished search stays finished, with the same solutions, under a larger
/// budget.
pub proof fn lemma_solve_rec_mono(
    prog: Seq<ClauseV>,
    goals: Seq<TermV>,
    query: TermV,
    f1: nat,
    f2: nat,
)
    requires
        solve_rec(prog, goals, query, f1) is Some,
        f1 <= f2,
    ensures
        solve_rec(prog, goals, query, f2) == solve_rec(prog, goals, query, f1),
    decreases f1, prog.len() + 1,
{
    if goals.len() == 0 {
    } else if f1 == 0 {
    } else {
        lemma_solve_clauses_mono(prog, goals, query, 0, f1, f2);
    }
}

proof fn lemma_solve_clauses_mono(
    prog: Seq<ClauseV>,
    goals: Seq<TermV>,
    query: TermV,
    k: int,
    f1: nat,
    f2: nat,
)
    requires
        goals.len() >= 1,
        f1 >= 1,
        f1 <= f2,
        solve_clauses(prog, goals, query, k, f1) is Some,
    ensures
        solve_clauses(prog, goals, query, k, f2) == solve_clauses(prog, goals, query, k, f1),
    decreases f1, prog.len() - k,
{
    if !(0 <= k < prog.len()) {
    } else {
        let c = prog[k];
        let m1 = mgu_rec(seq![clause_head(c)], seq![goals[0]], Seq::empty(), f1);
        match m1 {
            MguOutcome::Pending => {},
            MguOutcome::Fail => {
                lemma_mgu_rec_mono(seq![clause_head(c)], seq![goals[0]], Seq::empty(), f1, f2);
                lemma_solve_clauses_mono(prog, goals, query, k + 1, f1, f2);
            },
            MguOutcome::Done(s) => {
                lemma_mgu_rec_mono(seq![clause_head(c)], seq![goals[0]], Seq::empty(), f1, f2);
                lemma_solve_rec_mono(
                    prog,
                    step_goals(s, clause_body(c), goals),
                    subst_list(s, query),
                    (f1 - 1) as nat,
                    (f2 - 1) as nat,
                );
                lemma_solve_clauses_mono(prog, goals, query, k + 1, f1, f2);
            },
        }
    }
}

/// Any finishing budget witnesses the limit.
pub proof fn lemma_solve_spec_of_witness(prog: Seq<ClauseV>, goals: Seq<TermV>, query: TermV, f: nat)
    requires
        solve_rec(prog, goals, query, f) is Some,
    ensures
        solve_spec(prog, goals, query) == solve_rec(prog, goals, query, f),
{
    let fc = choose|fc: nat| solve_rec(prog, goals, query, fc) is Some;
    if fc <= f {
        lemma_solve_rec_mono(prog, goals, query, fc, f);
    } else {
        lemma_solve_rec_mono(prog, goals, query, f, fc);
    }
}

} // verus!

verus! {

/// One resolution step: rewrites the chosen clause's body and the remaining
/// goals by the unifying substitution, and rewrites the query term, which
/// accumulates every binding discovered along the proof path.
#[verifier::loop_isolation(false)]
pub fn resolution(subs: &Vec<Sub>, clause: &Clause, goals: &Vec<Term>, query: &Term) -> (r: (
    Vec<Term>,
    Term,
))
    requires
        goals@.len() >= 1,
    ensures
        term_seq_view(r.0@) == step_goals(
            sub_seq_view(subs@),
            clause_body(clause@),
            term_seq_view(goals@),
        ),
        r.1@ == subst_list(sub_seq_view(subs@), query@),
{
    let ghost sv = sub_seq_view(subs@);
    let ghost cb = clause_body(clause@);
    let ghost tg = term_seq_view(goals@);
    let mut new_goals: Vec<Term> = match clause {
        Clause::Fact(_) => Vec::new(),
        Clause::Rule(_, body) => apply_subs_each(subs, body),
    };
    proof {
        lemma_term_seq_view_len(goals@);
        lemma_term_seq_view_len(new_goals@);
        assert(term_seq_view(new_goals@) == subst_list_each(sv, cb));
        assert forall|j: int| 0 <= j < new_goals@.len() implies new_goals@[j]@ == subst_list(
            sv,
            cb[j],
        ) by {
            lemma_term_seq_view_index(new_goals@, j);
        };
    }
    let ghost blen = cb.len();
    let mut i: usize = 1;
    while i < goals.len()
        invariant
            1 <= i <= goals.len(),
            new_goals@.len() == blen + i - 1,
            forall|j: int| 0 <= j < blen ==> new_goals@[j]@ == subst_list(sv, cb[j]),
            forall|j: int|
                blen <= j < new_goals@.len() ==> new_goals@[j]@ == subst_list(
                    sv,
                    tg[j - blen + 1],
                ),
        decreases goals.len() - i,
    {
        proof {
            lemma_term_seq_view_index(goals@, i as int);
        }
        new_goals.push(apply_subs(subs, goals[i].clone()));
        i += 1;
    }
    let new_query = apply_subs(subs, query.clone());
    proof {
        lemma_term_seq_view_len(new_goals@);
        assert(step_goals(sv, cb, tg).len() == blen + tg.drop_first().len());
        assert forall|j: int| 0 <= j < new_goals@.len() implies term_seq_view(new_goals@)[j]
            == step_goals(sv, cb, tg)[j] by {
            lemma_term_seq_view_index(new_goals@, j);
            if j < blen {
                assert(step_goals(sv, cb, tg)[j] == subst_list_each(sv, cb)[j]);
            } else {
                assert(step_goals(sv, cb, tg)[j] == subst_list_each(sv, tg.drop_first())[j - blen]);
                assert(tg.drop_first()[j - blen] == tg[j - blen + 1]);
            }
        };
        assert(term_seq_view(new_goals@) =~= step_goals(sv, cb, tg));
    }
    (new_goals, new_query)
}

/// Explores every proof of the query against the program, depth-first,
/// trying clauses in database order, and returns the fully rewritten query
/// term of each proof found, in discovery order.  `None` means the depth
/// budget ran out first: the search has no termination guarantee (an
/// unguarded recursive rule recurses forever), so a budget is the price of
/// a total function.
#[verifier::loop_isolation(false)]
pub fn solve(program: &Vec<Clause>, goals: &Vec<Term>, query: &Term, fuel: usize) -> (res: Option<
    Vec<Term>,
>)
    ensures
        (match res {
            Option::Some(sols) => solve_rec(
                clause_seq_view(program@),
                term_seq_view(goals@),
                query@,
                fuel as nat,
            ) == Option::Some(term_seq_view(sols@)) && solve_spec(
                clause_seq_view(program@),
                term_seq_view(goals@),
                query@,
            ) == Option::Some(term_seq_view(sols@)),
            Option::None => solve_rec(
                clause_seq_view(program@),
                term_seq_view(goals@),
                query@,
                fuel as nat,
            ) is None,
        }),
    decreases fuel,
{
    let ghost pv = clause_seq_view(program@);
    let ghost gv = term_seq_view(goals@);
    proof {
        lemma_term_seq_view_len(goals@);
    }
    if goals.len() == 0 {
        let mut out: Vec<Term> = Vec::new();
        out.push(query.clone());
        proof {
            lemma_term_seq_view_len(out@);
            lemma_term_seq_view_index(out@, 0);
            assert(term_seq_view(out@) =~= seq![query@]);
            lemma_solve_spec_of_witness(pv, gv, query@, fuel as nat);
        }
        return Some(out);
    }
    if fuel == 0 {
        return None;
    }
    let mut sols: Vec<Term> = Vec::new();
    let mut k: usize = 0;
    proof {
        assert(term_seq_view(sols@) =~= Seq::<TermV>::empty());
    }
    while k < program.len()
        invariant
            k <= program.len(),
            (match solve_clauses(pv, gv, query@, k as int, fuel as nat) {
                Option::Some(ys) => solve_clauses(pv, gv, query@, 0, fuel as nat)
                    == Option::Some(term_seq_view(sols@) + ys),
                Option::None => solve_clauses(pv, gv, query@, 0, fuel as nat) is None,
            }),
        decreases program.len() - k,
    {
        let ghost mk = mgu_rec(seq![clause_head(pv[k as int])], seq![gv[0]], Seq::empty(), fuel as nat);
        let clause = &program[k];
        let clause_head_term = match clause {
            Clause::Fact(head) => head,
            Clause::Rule(head, _) => head,
        };
        proof {
            assert(pv[k as int] == program@[k as int]@);
            assert(clause_head(pv[k as int]) == clause_head_term@);
            lemma_term_seq_view_index(goals@, 0);
        }
        match mgu(clause_head_term, &goals[0], fuel) {
            Option::None => {
                return None;
            },
            Option::Some(Result::Err(_)) => {},
            Option::Some(Result::Ok(subs)) => {
                let (new_goals, new_query) = resolution(&subs, clause, goals, query);
                match solve(program, &new_goals, &new_query, fuel - 1) {
                    Option::None => {
                        return None;
                    },
                    Option::Some(mut child) => {
                        let ghost old_sols = term_seq_view(sols@);
                        let ghost child_v = term_seq_view(child@);
                        proof {
                            lemma_term_seq_view_len(child@);
                            assert(old_sols + child_v.take(0) =~= old_sols);
                            lemma_solve_spec_of_witness(
                                pv,
                                term_seq_view(new_goals@),
                                new_query@,
                                (fuel - 1) as nat,
                            );
                        }
                        let mut j: usize = 0;
                        while j < child.len()
                            invariant
                                j <= child@.len(),
                                term_seq_view(sols@) == old_sols + child_v.take(j as int),
                            decreases child.len() - j,
                        {
                            proof {
                                lemma_term_seq_view_index(child@, j as int);
                            }
                            let copied = child[j].clone();
                            let ghost copied_v = copied@;
                            let ghost prev = sols@;
                            sols.push(copied);
                            proof {
                                crate::terms::lemma_term_seq_view_push(prev, sols@.last());
                                assert(prev.push(sols@.last()) =~= sols@);
                                assert(copied_v == child_v[j as int]);
                                assert(old_sols + child_v.take(j as int + 1) =~= (old_sols
                                    + child_v.take(j as int)).push(child_v[j as int]));
                            }
                            j += 1;
                        }
                        proof {
                            assert(child_v.take(child_v.len() as int) =~= child_v);
                        }
                    },
                }
            },
        }
        k += 1;
    }
    proof {
        assert(term_seq_view(sols@) + Seq::<TermV>::empty() =~= term_seq_view(sols@));
        lemma_solve_spec_of_witness(pv, gv, query@, fuel as nat);
    }
    Some(sols)
}

} // verus!
