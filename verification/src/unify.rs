//! Most-general unification of two terms.
//!
//! The algorithm walks two parallel worklists of disagreement pairs in
//! lock-step.  A variable paired with a variable binds the lexicographically
//! greater name to the smaller; a variable paired with anything else binds
//! the variable to it; atoms must agree by name; compounds must agree in
//! head and arity and queue their arguments pairwise.  After every new
//! binding the whole accumulated substitution is re-applied to both
//! worklists.  No occurs-check is performed, so the walk need not terminate
//! on pathological input; the mathematical model below is therefore a
//! fuel-bounded recursion, and `mgu_spec` is its limit.

use vstd::prelude::*;

use crate::subst::SubV;
use crate::subst::no_self_occurrence;
use crate::subst::occurs;
use crate::subst::sub_ident;
use crate::subst::subst_list;
use crate::subst::subst_list_each;
use crate::subst::subst_one;
use crate::subst::lemma_subst_list_absorbs_one;
use crate::subst::lemma_subst_list_append;
use crate::subst::lemma_subst_list_cmp;
use crate::subst::lemma_occurs_in_seq_index;
use crate::subst::lemma_occurs_subst_one;
use crate::subst::lemma_subst_list_no_residue;
use crate::subst::lemma_subst_list_one;
use crate::subst::lemma_subst_one_absent;
use crate::subst::lemma_subst_one_removes;
use crate::subst::Sub;
use crate::subst::sub_seq_view;
use crate::terms::Term;
use crate::terms::TermV;
use crate::terms::lemma_term_seq_view_index;
use crate::terms::lemma_term_seq_view_len;
use crate::terms::term_seq_view;
use vstd::string::StrSliceExecFns;

verus! {

broadcast use vstd::seq::group_seq_axioms;

/// Lexicographic order on names, by code point; mirrors how `str` compares.
pub open spec fn name_gt(a: Seq<char>, b: Seq<char>) -> bool
    decreases a.len(),
{
    if a.len() == 0 {
        false
    } else if b.len() == 0 {
        true
    } else if a[0] != b[0] {
        (a[0] as u32) > (b[0] as u32)
    } else {
        name_gt(a.drop_first(), b.drop_first())
    }
}

pub proof fn lemma_name_gt_trichotomy(a: Seq<char>, b: Seq<char>)
    ensures
        !name_gt(a, b) && !name_gt(b, a) ==> a == b,
        a == b ==> !name_gt(a, b),
        name_gt(a, b) ==> !name_gt(b, a),
    decreases a.len(),
{
    if a.len() == 0 {
        if b.len() == 0 {
            assert(a =~= b);
        }
    } else if b.len() == 0 {
    } else if a[0] != b[0] {
        if a[0] as u32 == b[0] as u32 {
            vstd::utf8::char_u32_cast(a[0], a[0] as u32);
            vstd::utf8::char_u32_cast(b[0], b[0] as u32);
        }
        assert(a[0] as u32 != b[0] as u32);
    } else {
        lemma_name_gt_trichotomy(a.drop_first(), b.drop_first());
        if !name_gt(a, b) && !name_gt(b, a) {
            assert(a.drop_first() == b.drop_first());
            assert(a.len() == b.len());
            assert forall|i: int| 0 <= i < a.len() implies a[i] == b[i] by {
                if i > 0 {
                    assert(a[i] == a.drop_first()[i - 1]);
                    assert(b[i] == b.drop_first()[i - 1]);
                }
            };
            assert(a =~= b);
        }
        if a == b {
            assert(a.drop_first() =~= b.drop_first());
        }
    }
}

/// The binding the unifier appends for a variable/variable pair: the
/// lexicographically greater name is bound to the smaller one.
pub open spec fn var_var_binding(va: Seq<char>, vb: Seq<char>) -> SubV {
    if name_gt(va, vb) {
        SubV { var: va, val: TermV::Var(vb) }
    } else {
        SubV { var: vb, val: TermV::Var(va) }
    }
}

/// The outcome of the fuel-bounded unification walk.
pub enum MguOutcome {
    /// The fuel ran out before the walk settled.
    Pending,
    /// No unifier exists.
    Fail,
    /// The walk finished with this accumulated substitution.
    Done(Seq<SubV>),
}

/// One fuel-bounded run of the unification walk over two parallel worklists
/// `al` and `bl`, with `u` the substitution accumulated so far.
pub open spec fn mgu_rec(al: Seq<TermV>, bl: Seq<TermV>, u: Seq<SubV>, fuel: nat) -> MguOutcome
    decreases fuel,
{
    if al.len() == 0 || bl.len() == 0 {
        MguOutcome::Done(u)
    } else if fuel == 0 {
        MguOutcome::Pending
    } else {
        match (al[0], bl[0]) {
            (TermV::Var(va), TermV::Var(vb)) => {
                let u2 = u.push(var_var_binding(va, vb));
                mgu_rec(
                    subst_list_each(u2, al.drop_first()),
                    subst_list_each(u2, bl.drop_first()),
                    u2,
                    (fuel - 1) as nat,
                )
            },
            (x, TermV::Var(vb)) => {
                let u2 = u.push(SubV { var: vb, val: x });
                mgu_rec(
                    subst_list_each(u2, al.drop_first()),
                    subst_list_each(u2, bl.drop_first()),
                    u2,
                    (fuel - 1) as nat,
                )
            },
            (TermV::Var(va), y) => {
                let u2 = u.push(SubV { var: va, val: y });
                mgu_rec(
                    subst_list_each(u2, al.drop_first()),
                    subst_list_each(u2, bl.drop_first()),
                    u2,
                    (fuel - 1) as nat,
                )
            },
            (TermV::Atom(na), TermV::Atom(nb)) => {
                if na == nb {
                    mgu_rec(al.drop_first(), bl.drop_first(), u, (fuel - 1) as nat)
                } else {
                    MguOutcome::Fail
                }
            },
            (TermV::Cmp { head: ha, args: aas }, TermV::Cmp { head: hb, args: bas }) => {
                if ha == hb && aas.len() == bas.len() {
                    mgu_rec(al.drop_first() + aas, bl.drop_first() + bas, u, (fuel - 1) as nat)
                } else {
                    MguOutcome::Fail
                }
            },
            _ => MguOutcome::Fail,
        }
    }
}

/// The limit of the walk: its result under any fuel large enough to settle
/// it, or `Pending` if no fuel settles it (the walk diverges).
pub open spec fn mgu_spec(a: TermV, b: TermV) -> MguOutcome {
    if exists|f: nat| mgu_rec(seq![a], seq![b], Seq::empty(), f) != MguOutcome::Pending {
        mgu_rec(
            seq![a],
            seq![b],
            Seq::empty(),
            choose|f: nat| mgu_rec(seq![a], seq![b], Seq::empty(), f) != MguOutcome::Pending,
        )
    } else {
        MguOutcome::Pending
    }
}

/// A settled walk stays settled, with the same outcome, under more fuel.
pub proof fn lemma_mgu_rec_mono(al: Seq<TermV>, bl: Seq<TermV>, u: Seq<SubV>, f1: nat, f2: nat)
    requires
        mgu_rec(al, bl, u, f1) != MguOutcome::Pending,
        f1 <= f2,
    ensures
        mgu_rec(al, bl, u, f2) == mgu_rec(al, bl, u, f1),
    decreases f1,
{
    if al.len() == 0 || bl.len() == 0 {
    } else if f1 == 0 {
    } else {
        match (al[0], bl[0]) {
            (TermV::Var(va), TermV::Var(vb)) => {
                let u2 = u.push(var_var_binding(va, vb));
                lemma_mgu_rec_mono(subst_list_each(u2, al.drop_first()), subst_list_each(u2, bl.drop_first()), u2, (f1 - 1) as nat, (f2 - 1) as nat);
            },
            (x, TermV::Var(vb)) => {
                let u2 = u.push(SubV { var: vb, val: x });
                lemma_mgu_rec_mono(subst_list_each(u2, al.drop_first()), subst_list_each(u2, bl.drop_first()), u2, (f1 - 1) as nat, (f2 - 1) as nat);
            },
            (TermV::Var(va), y) => {
                let u2 = u.push(SubV { var: va, val: y });
                lemma_mgu_rec_mono(subst_list_each(u2, al.drop_first()), subst_list_each(u2, bl.drop_first()), u2, (f1 - 1) as nat, (f2 - 1) as nat);
            },
            (TermV::Atom(na), TermV::Atom(nb)) => {
                if na == nb {
                lemma_mgu_rec_mono(al.drop_first(), bl.drop_first(), u, (f1 - 1) as nat, (f2 - 1) as nat);
                }
            },
            (TermV::Cmp { head: ha, args: aas }, TermV::Cmp { head: hb, args: bas }) => {
                if ha == hb && aas.len() == bas.len() {
                lemma_mgu_rec_mono(al.drop_first() + aas, bl.drop_first() + bas, u, (f1 - 1) as nat, (f2 - 1) as nat);
                }
            },
            _ => {},
        }
    }
}

/// Any settling fuel witnesses the limit.
pub proof fn lemma_mgu_spec_of_witness(a: TermV, b: TermV, f: nat)
    requires
        mgu_rec(seq![a], seq![b], Seq::empty(), f) != MguOutcome::Pending,
    ensures
        mgu_spec(a, b) == mgu_rec(seq![a], seq![b], Seq::empty(), f),
{
    let fc = choose|fc: nat| mgu_rec(seq![a], seq![b], Seq::empty(), fc) != MguOutcome::Pending;
    if fc <= f {
        lemma_mgu_rec_mono(seq![a], seq![b], Seq::empty(), fc, f);
    } else {
        lemma_mgu_rec_mono(seq![a], seq![b], Seq::empty(), f, fc);
    }
}

/// Law: the walk is symmetric in its two inputs — swapping them swaps the
/// worklists only, and every step appends the same binding and takes the
/// same branch, so success, failure, and the resulting substitution agree.
pub proof fn lemma_mgu_rec_swap(al: Seq<TermV>, bl: Seq<TermV>, u: Seq<SubV>, fuel: nat)
    ensures
        mgu_rec(bl, al, u, fuel) == mgu_rec(al, bl, u, fuel),
    decreases fuel,
{
    if al.len() == 0 || bl.len() == 0 {
    } else if fuel == 0 {
    } else {
        match (al[0], bl[0]) {
            (TermV::Var(va), TermV::Var(vb)) => {
                lemma_name_gt_trichotomy(va, vb);
                assert(var_var_binding(vb, va) == var_var_binding(va, vb));
                let u2 = u.push(var_var_binding(va, vb));
                lemma_mgu_rec_swap(subst_list_each(u2, al.drop_first()), subst_list_each(u2, bl.drop_first()), u2, (fuel - 1) as nat);
            },
            (x, TermV::Var(vb)) => {
                let u2 = u.push(SubV { var: vb, val: x });
                lemma_mgu_rec_swap(subst_list_each(u2, al.drop_first()), subst_list_each(u2, bl.drop_first()), u2, (fuel - 1) as nat);
            },
            (TermV::Var(va), y) => {
                let u2 = u.push(SubV { var: va, val: y });
                lemma_mgu_rec_swap(subst_list_each(u2, al.drop_first()), subst_list_each(u2, bl.drop_first()), u2, (fuel - 1) as nat);
            },
            (TermV::Atom(na), TermV::Atom(nb)) => {
                if na == nb {
                lemma_mgu_rec_swap(al.drop_first(), bl.drop_first(), u, (fuel - 1) as nat);
                }
            },
            (TermV::Cmp { head: ha, args: aas }, TermV::Cmp { head: hb, args: bas }) => {
                if ha == hb && aas.len() == bas.len() {
                lemma_mgu_rec_swap(al.drop_first() + aas, bl.drop_first() + bas, u, (fuel - 1) as nat);
                }
            },
            _ => {},
        }
    }
}

/// Law: unification succeeds on `(a, b)` exactly when it succeeds on
/// `(b, a)`, and with the same substitution: the variable-binding direction
/// is fixed by the names, not by the argument order.
pub proof fn lemma_mgu_spec_symmetric(a: TermV, b: TermV)
    ensures
        mgu_spec(b, a) == mgu_spec(a, b),
{
    lemma_mgu_rec_swap(seq![a], seq![b], Seq::empty(), 0);
    if exists|f: nat| mgu_rec(seq![a], seq![b], Seq::empty(), f) != MguOutcome::Pending {
        let f = choose|f: nat| mgu_rec(seq![a], seq![b], Seq::empty(), f) != MguOutcome::Pending;
        lemma_mgu_rec_swap(seq![a], seq![b], Seq::empty(), f);
        lemma_mgu_spec_of_witness(a, b, f);
        lemma_mgu_spec_of_witness(b, a, f);
    } else {
        assert forall|f: nat|
            mgu_rec(seq![b], seq![a], Seq::empty(), f) == MguOutcome::Pending by {
            lemma_mgu_rec_swap(seq![a], seq![b], Seq::empty(), f);
        };
    }
}

/// The walk only ever appends to the accumulated substitution.
pub proof fn lemma_mgu_rec_extends(al: Seq<TermV>, bl: Seq<TermV>, u: Seq<SubV>, fuel: nat)
    ensures
        mgu_rec(al, bl, u, fuel) matches MguOutcome::Done(s) ==> s.len() >= u.len()
            && s.take(u.len() as int) == u,
    decreases fuel,
{
    if al.len() == 0 || bl.len() == 0 {
        match mgu_rec(al, bl, u, fuel) {
            MguOutcome::Done(s) => {
                assert(s.take(u.len() as int) =~= u);
            },
            _ => {},
        }
    } else if fuel == 0 {
    } else {
        match (al[0], bl[0]) {
            (TermV::Var(va), TermV::Var(vb)) => {
                let u2 = u.push(var_var_binding(va, vb));
                lemma_mgu_rec_extends(subst_list_each(u2, al.drop_first()), subst_list_each(u2, bl.drop_first()), u2, (fuel - 1) as nat);
                match mgu_rec(al, bl, u, fuel) {
                    MguOutcome::Done(s) => {
                        assert(s.take(u2.len() as int).take(u.len() as int) =~= s.take(
                            u.len() as int,
                        ));
                        assert(u2.take(u.len() as int) =~= u);
                    },
                    _ => {},
                }
            },
            (x, TermV::Var(vb)) => {
                let u2 = u.push(SubV { var: vb, val: x });
                lemma_mgu_rec_extends(subst_list_each(u2, al.drop_first()), subst_list_each(u2, bl.drop_first()), u2, (fuel - 1) as nat);
                match mgu_rec(al, bl, u, fuel) {
                    MguOutcome::Done(s) => {
                        assert(s.take(u2.len() as int).take(u.len() as int) =~= s.take(
                            u.len() as int,
                        ));
                        assert(u2.take(u.len() as int) =~= u);
                    },
                    _ => {},
                }
            },
            (TermV::Var(va), y) => {
                let u2 = u.push(SubV { var: va, val: y });
                lemma_mgu_rec_extends(subst_list_each(u2, al.drop_first()), subst_list_each(u2, bl.drop_first()), u2, (fuel - 1) as nat);
                match mgu_rec(al, bl, u, fuel) {
                    MguOutcome::Done(s) => {
                        assert(s.take(u2.len() as int).take(u.len() as int) =~= s.take(
                            u.len() as int,
                        ));
                        assert(u2.take(u.len() as int) =~= u);
                    },
                    _ => {},
                }
            },
            (TermV::Atom(na), TermV::Atom(nb)) => {
                if na == nb {
                lemma_mgu_rec_extends(al.drop_first(), bl.drop_first(), u, (fuel - 1) as nat);
                }
            },
            (TermV::Cmp { head: ha, args: aas }, TermV::Cmp { head: hb, args: bas }) => {
                if ha == hb && aas.len() == bas.len() {
                lemma_mgu_rec_extends(al.drop_first() + aas, bl.drop_first() + bas, u, (fuel - 1) as nat);
                }
            },
            _ => {},
        }
    }
}

} // verus!

verus! {

/// No variable bound by a non-identity binding of `u` still occurs in any
/// queued term: the walk re-applies the whole substitution after each new
/// binding, which keeps this invariant as long as no self-occurrence arises.
pub open spec fn worklist_clean(u: Seq<SubV>, ts: Seq<TermV>) -> bool {
    forall|k: int, i: int|
        0 <= k < u.len() && 0 <= i < ts.len() && !sub_ident(u[k]) ==> !occurs(u[k].var, ts[i])
}

proof fn lemma_sound_var_step(
    al: Seq<TermV>,
    bl: Seq<TermV>,
    u: Seq<SubV>,
    fuel: nat,
    s: Seq<SubV>,
    snew: SubV,
)
    requires
        al.len() == bl.len(),
        al.len() > 0,
        fuel > 0,
        mgu_rec(
            subst_list_each(u.push(snew), al.drop_first()),
            subst_list_each(u.push(snew), bl.drop_first()),
            u.push(snew),
            (fuel - 1) as nat,
        ) == MguOutcome::Done(s),
        no_self_occurrence(s),
        worklist_clean(u, al),
        worklist_clean(u, bl),
        s.len() > u.len(),
        s[u.len() as int] == snew,
        sub_ident(snew) || !occurs(snew.var, snew.val),
        forall|k: int|
            0 <= k < u.len() && !sub_ident(u[k]) ==> !occurs(u[k].var, snew.val),
    ensures
        forall|t: TermV| #![all_triggers]
            subst_list(s.skip(u.len() as int), t) == subst_list(
                s.skip(u.len() as int + 1),
                subst_one(snew.var, snew.val, t),
            ),
        forall|i: int|
            1 <= i < al.len() ==> subst_list(s.skip(u.len() as int), al[i]) == subst_list(
                s.skip(u.len() as int),
                bl[i],
            ),
    decreases fuel, 0nat,
{
    let d = u.len() as int;
    let u2 = u.push(snew);
    let resta = al.drop_first();
    let restb = bl.drop_first();
    let al2 = subst_list_each(u2, resta);
    let bl2 = subst_list_each(u2, restb);

    assert(u2 =~= u + seq![snew]);

    // Each queued term is already fully rewritten by `u`, so re-applying the
    // grown substitution is exactly one pass of the new binding.
    assert forall|i: int| 0 <= i < resta.len() implies al2[i] == subst_one(
        snew.var,
        snew.val,
        resta[i],
    ) && bl2[i] == subst_one(snew.var, snew.val, restb[i]) by {
        lemma_subst_list_append(u, seq![snew], resta[i]);
        lemma_subst_list_no_residue(u, resta[i]);
        lemma_subst_list_one(snew, resta[i]);
        lemma_subst_list_append(u, seq![snew], restb[i]);
        lemma_subst_list_no_residue(u, restb[i]);
        lemma_subst_list_one(snew, restb[i]);
    };

    // The invariant survives: old bound variables cannot be reintroduced by
    // the new output, and the new variable was just substituted away.
    assert forall|k: int, i: int|
        0 <= k < u2.len() && 0 <= i < al2.len() && !sub_ident(u2[k]) implies !occurs(
        u2[k].var,
        al2[i],
    ) by {
        if k < u.len() {
            lemma_occurs_subst_one(u[k].var, snew.var, snew.val, resta[i]);
        } else {
            lemma_subst_one_removes(snew.var, snew.val, resta[i]);
        }
    };
    assert forall|k: int, i: int|
        0 <= k < u2.len() && 0 <= i < bl2.len() && !sub_ident(u2[k]) implies !occurs(
        u2[k].var,
        bl2[i],
    ) by {
        if k < u.len() {
            lemma_occurs_subst_one(u[k].var, snew.var, snew.val, restb[i]);
        } else {
            lemma_subst_one_removes(snew.var, snew.val, restb[i]);
        }
    };

    lemma_mgu_rec_sound(al2, bl2, u2, (fuel - 1) as nat, s);

    assert(s.skip(d) =~= seq![snew] + s.skip(d + 1));
    assert forall|t: TermV| #![all_triggers]
        subst_list(s.skip(d), t) == subst_list(
        s.skip(d + 1),
        subst_one(snew.var, snew.val, t),
    ) by {
        lemma_subst_list_append(seq![snew], s.skip(d + 1), t);
        lemma_subst_list_one(snew, t);
    };

    assert forall|i: int| 1 <= i < al.len() implies subst_list(s.skip(d), al[i]) == subst_list(
        s.skip(d),
        bl[i],
    ) by {
        assert(al2[i - 1] == subst_one(snew.var, snew.val, al[i]));
        assert(bl2[i - 1] == subst_one(snew.var, snew.val, bl[i]));
    };
}

/// Law (unifier soundness, generalized over the walk): if the walk finishes
/// with substitution `s`, and `s` has no self-occurrent binding, then the
/// bindings appended by the walk equalize every queued pair.
pub proof fn lemma_mgu_rec_sound(al: Seq<TermV>, bl: Seq<TermV>, u: Seq<SubV>, fuel: nat, s: Seq<SubV>)
    requires
        al.len() == bl.len(),
        mgu_rec(al, bl, u, fuel) == MguOutcome::Done(s),
        no_self_occurrence(s),
        worklist_clean(u, al),
        worklist_clean(u, bl),
    ensures
        forall|i: int|
            0 <= i < al.len() ==> subst_list(s.skip(u.len() as int), al[i]) == subst_list(
                s.skip(u.len() as int),
                bl[i],
            ),
    decreases fuel, 1nat,
{
    let d = u.len() as int;
    if al.len() == 0 || bl.len() == 0 {
    } else {
        let al2_of = |u2: Seq<SubV>| subst_list_each(u2, al.drop_first());
        match (al[0], bl[0]) {
            (TermV::Var(va), TermV::Var(vb)) => {
                let snew = var_var_binding(va, vb);
                let u2 = u.push(snew);
                lemma_mgu_rec_extends(
                    subst_list_each(u2, al.drop_first()),
                    subst_list_each(u2, bl.drop_first()),
                    u2,
                    (fuel - 1) as nat,
                );
                assert(s.take(u2.len() as int)[d] == s[d]);
                assert(s[d] == snew);
                lemma_name_gt_trichotomy(va, vb);
                assert forall|k: int|
                    0 <= k < u.len() && !sub_ident(u[k]) implies !occurs(u[k].var, snew.val) by {
                    assert(!occurs(u[k].var, al[0]));
                    assert(!occurs(u[k].var, bl[0]));
                };
                lemma_sound_var_step(al, bl, u, fuel, s, snew);
                if va == vb {
                    assert(al[0] == bl[0]);
                } else if name_gt(va, vb) {
                    assert(subst_one(snew.var, snew.val, al[0]) == TermV::Var(vb));
                    assert(subst_one(snew.var, snew.val, bl[0]) == TermV::Var(vb));
                } else {
                    assert(subst_one(snew.var, snew.val, al[0]) == TermV::Var(va));
                    assert(subst_one(snew.var, snew.val, bl[0]) == TermV::Var(va));
                }
            },
            (x, TermV::Var(vb)) => {
                let snew = SubV { var: vb, val: x };
                let u2 = u.push(snew);
                lemma_mgu_rec_extends(
                    subst_list_each(u2, al.drop_first()),
                    subst_list_each(u2, bl.drop_first()),
                    u2,
                    (fuel - 1) as nat,
                );
                assert(s.take(u2.len() as int)[d] == s[d]);
                assert(s[d] == snew);
                assert(!sub_ident(snew));
                assert forall|k: int|
                    0 <= k < u.len() && !sub_ident(u[k]) implies !occurs(u[k].var, snew.val) by {
                    assert(!occurs(u[k].var, al[0]));
                };
                lemma_sound_var_step(al, bl, u, fuel, s, snew);
                lemma_subst_one_absent(vb, x, x);
                assert(subst_one(snew.var, snew.val, bl[0]) == x);
            },
            (TermV::Var(va), y) => {
                let snew = SubV { var: va, val: y };
                let u2 = u.push(snew);
                lemma_mgu_rec_extends(
                    subst_list_each(u2, al.drop_first()),
                    subst_list_each(u2, bl.drop_first()),
                    u2,
                    (fuel - 1) as nat,
                );
                assert(s.take(u2.len() as int)[d] == s[d]);
                assert(s[d] == snew);
                assert(!sub_ident(snew));
                assert forall|k: int|
                    0 <= k < u.len() && !sub_ident(u[k]) implies !occurs(u[k].var, snew.val) by {
                    assert(!occurs(u[k].var, bl[0]));
                };
                lemma_sound_var_step(al, bl, u, fuel, s, snew);
                lemma_subst_one_absent(va, y, y);
                assert(subst_one(snew.var, snew.val, al[0]) == y);
            },
            (TermV::Atom(na), TermV::Atom(nb)) => {
                assert(na == nb);
                assert forall|k: int, i: int|
                    0 <= k < u.len() && 0 <= i < al.drop_first().len() && !sub_ident(u[k])
                    implies !occurs(u[k].var, al.drop_first()[i]) && !occurs(
                    u[k].var,
                    bl.drop_first()[i],
                ) by {
                    assert(al.drop_first()[i] == al[i + 1]);
                    assert(bl.drop_first()[i] == bl[i + 1]);
                };
                lemma_mgu_rec_sound(al.drop_first(), bl.drop_first(), u, (fuel - 1) as nat, s);
                assert forall|i: int| 1 <= i < al.len() implies subst_list(s.skip(d), al[i])
                    == subst_list(s.skip(d), bl[i]) by {
                    assert(al.drop_first()[i - 1] == al[i]);
                    assert(bl.drop_first()[i - 1] == bl[i]);
                };
                assert(al[0] == bl[0]);
            },
            (TermV::Cmp { head: ha, args: aas }, TermV::Cmp { head: hb, args: bas }) => {
                assert(ha == hb && aas.len() == bas.len());
                let al2 = al.drop_first() + aas;
                let bl2 = bl.drop_first() + bas;
                assert forall|k: int, i: int|
                    0 <= k < u.len() && 0 <= i < al2.len() && !sub_ident(u[k]) implies !occurs(
                    u[k].var,
                    al2[i],
                ) && !occurs(u[k].var, bl2[i]) by {
                    if i < al.drop_first().len() {
                        assert(al2[i] == al[i + 1]);
                        assert(bl2[i] == bl[i + 1]);
                    } else {
                        let j = i - al.drop_first().len();
                        assert(al2[i] == aas[j]);
                        assert(bl2[i] == bas[j]);
                        assert(!occurs(u[k].var, al[0]));
                        assert(!occurs(u[k].var, bl[0]));
                        lemma_occurs_in_seq_index(u[k].var, aas);
                        lemma_occurs_in_seq_index(u[k].var, bas);
                    }
                };
                lemma_mgu_rec_sound(al2, bl2, u, (fuel - 1) as nat, s);
                assert forall|i: int| 1 <= i < al.len() implies subst_list(s.skip(d), al[i])
                    == subst_list(s.skip(d), bl[i]) by {
                    assert(al2[i - 1] == al[i]);
                    assert(bl2[i - 1] == bl[i]);
                };
                let dd = s.skip(d);
                lemma_subst_list_cmp(dd, ha, aas);
                lemma_subst_list_cmp(dd, hb, bas);
                assert forall|j: int| 0 <= j < aas.len() implies subst_list(dd, aas[j])
                    == subst_list(dd, bas[j]) by {
                    let i = al.drop_first().len() + j;
                    assert(al2[i] == aas[j]);
                    assert(bl2[i] == bas[j]);
                };
                assert(subst_list_each(dd, aas) =~= subst_list_each(dd, bas));
            },
            _ => {},
        }
    }
}

/// Law (unifier soundness): a successful unification of `a` and `b` whose
/// substitution has no self-occurrent binding equalizes `a` and `b`: applying
/// the substitution to both yields structurally equal terms.  The
/// self-occurrence proviso is forced by the absent occurs-check: unifying
/// `X` with `f(X)` "succeeds" with `X -> f(X)`, which no application can
/// equalize.
pub proof fn lemma_mgu_sound(a: TermV, b: TermV, fuel: nat, s: Seq<SubV>)
    requires
        mgu_rec(seq![a], seq![b], Seq::empty(), fuel) == MguOutcome::Done(s),
        no_self_occurrence(s),
    ensures
        subst_list(s, a) == subst_list(s, b),
{
    lemma_mgu_rec_sound(seq![a], seq![b], Seq::empty(), fuel, s);
    assert(s.skip(0) =~= s);
    assert(seq![a][0] == a);
    assert(seq![b][0] == b);
}

} // verus!

verus! {

/// Compares two names lexicographically, as `str` ordering does.
fn name_gt_exec(a: &str, b: &str) -> (r: bool)
    ensures
        r == name_gt(a@, b@),
{
    let la = a.unicode_len();
    let lb = b.unicode_len();
    let mut i: usize = 0;
    proof {
        assert(a@.skip(0) =~= a@);
        assert(b@.skip(0) =~= b@);
    }
    while i < la && i < lb
        invariant
            i <= la,
            i <= lb,
            la == a@.len(),
            lb == b@.len(),
            name_gt(a@, b@) == name_gt(a@.skip(i as int), b@.skip(i as int)),
        decreases la - i,
    {
        let ca = a.get_char(i);
        let cb = b.get_char(i);
        proof {
            assert(a@.skip(i as int)[0] == a@[i as int]);
            assert(b@.skip(i as int)[0] == b@[i as int]);
            assert(a@.skip(i as int).drop_first() =~= a@.skip(i as int + 1));
            assert(b@.skip(i as int).drop_first() =~= b@.skip(i as int + 1));
        }
        if ca != cb {
            return (ca as u32) > (cb as u32);
        }
        i += 1;
    }
    proof {
        if i == la {
            assert(a@.skip(i as int).len() == 0);
        } else {
            assert(b@.skip(i as int).len() == 0);
            assert(a@.skip(i as int).len() > 0);
        }
    }
    la > lb
}

/// Rewrites every queued term by the whole accumulated substitution.
pub(crate) fn apply_subs_each(subs: &Vec<Sub>, ts: &Vec<Term>) -> (res: Vec<Term>)
    ensures
        term_seq_view(res@) == subst_list_each(sub_seq_view(subs@), term_seq_view(ts@)),
{
    let mut res: Vec<Term> = Vec::new();
    let mut i: usize = 0;
    proof {
        lemma_term_seq_view_len(ts@);
    }
    while i < ts.len()
        invariant
            i <= ts.len(),
            res@.len() == i,
            term_seq_view(ts@).len() == ts@.len(),
            forall|j: int|
                0 <= j < i ==> res@[j]@ == subst_list(sub_seq_view(subs@), term_seq_view(ts@)[j]),
        decreases ts.len() - i,
    {
        proof {
            lemma_term_seq_view_index(ts@, i as int);
        }
        res.push(crate::subst::apply_subs(subs, ts[i].clone()));
        i += 1;
    }
    proof {
        lemma_term_seq_view_len(res@);
        assert forall|j: int| 0 <= j < res@.len() implies term_seq_view(res@)[j] == subst_list_each(
            sub_seq_view(subs@),
            term_seq_view(ts@),
        )[j] by {
            lemma_term_seq_view_index(res@, j);
        };
        assert(term_seq_view(res@) =~= subst_list_each(sub_seq_view(subs@), term_seq_view(ts@)));
    }
    res
}

/// Appends a copy of every term of `src` to `dst`.
fn push_all(dst: &mut Vec<Term>, src: &Vec<Term>)
    ensures
        term_seq_view(final(dst)@) == term_seq_view(old(dst)@) + term_seq_view(src@),
{
    let mut i: usize = 0;
    proof {
        lemma_term_seq_view_len(src@);
    }
    while i < src.len()
        invariant
            i <= src.len(),
            dst@.len() == old(dst)@.len() + i,
            term_seq_view(src@).len() == src@.len(),
            dst@.subrange(0, old(dst)@.len() as int) == old(dst)@,
            forall|j: int| 0 <= j < i ==> dst@[old(dst)@.len() + j]@ == term_seq_view(src@)[j],
        decreases src.len() - i,
    {
        proof {
            lemma_term_seq_view_index(src@, i as int);
        }
        dst.push(src[i].clone());
        proof {
            assert(dst@.subrange(0, old(dst)@.len() as int) =~= old(dst)@);
        }
        i += 1;
    }
    proof {
        lemma_term_seq_view_len(dst@);
        lemma_term_seq_view_len(old(dst)@);
        assert forall|j: int| 0 <= j < dst@.len() implies term_seq_view(dst@)[j] == (term_seq_view(
            old(dst)@,
        ) + term_seq_view(src@))[j] by {
            lemma_term_seq_view_index(dst@, j);
            if j < old(dst)@.len() {
                lemma_term_seq_view_index(old(dst)@, j);
                assert(dst@[j] == old(dst)@[j]);
            }
        };
        assert(term_seq_view(dst@) =~= term_seq_view(old(dst)@) + term_seq_view(src@));
    }
}

} // verus!

verus! {

/// Two variables always unify, binding the greater name to the smaller.
pub proof fn lemma_mgu_rec_vars(va: Seq<char>, vb: Seq<char>, fuel: nat)
    requires
        fuel >= 1,
    ensures
        mgu_rec(seq![TermV::Var(va)], seq![TermV::Var(vb)], Seq::empty(), fuel)
            == MguOutcome::Done(seq![var_var_binding(va, vb)]),
{
    let al = seq![TermV::Var(va)];
    let bl = seq![TermV::Var(vb)];
    let u2 = Seq::<SubV>::empty().push(var_var_binding(va, vb));
    assert(u2 =~= seq![var_var_binding(va, vb)]);
    assert(subst_list_each(u2, al.drop_first()).len() == 0);
    assert(mgu_rec(
        subst_list_each(u2, al.drop_first()),
        subst_list_each(u2, bl.drop_first()),
        u2,
        (fuel - 1) as nat,
    ) == MguOutcome::Done(u2));
}

/// Atoms unify exactly when their names agree, with the empty substitution.
pub proof fn lemma_mgu_rec_atoms(na: Seq<char>, nb: Seq<char>, fuel: nat)
    requires
        fuel >= 1,
    ensures
        na == nb ==> mgu_rec(seq![TermV::Atom(na)], seq![TermV::Atom(nb)], Seq::empty(), fuel)
            == MguOutcome::Done(Seq::<SubV>::empty()),
        na != nb ==> mgu_rec(seq![TermV::Atom(na)], seq![TermV::Atom(nb)], Seq::empty(), fuel)
            == MguOutcome::Fail,
{
    let al = seq![TermV::Atom(na)];
    let bl = seq![TermV::Atom(nb)];
    if na == nb {
        assert(al.drop_first().len() == 0);
        assert(mgu_rec(al.drop_first(), bl.drop_first(), Seq::empty(), (fuel - 1) as nat)
            == MguOutcome::Done(Seq::<SubV>::empty()));
    }
}

/// Compounds whose heads or arities disagree never unify.
pub proof fn lemma_mgu_rec_cmp_mismatch(
    ha: Seq<char>,
    aas: Seq<TermV>,
    hb: Seq<char>,
    bas: Seq<TermV>,
    fuel: nat,
)
    requires
        fuel >= 1,
        ha != hb || aas.len() != bas.len(),
    ensures
        mgu_rec(
            seq![TermV::Cmp { head: ha, args: aas }],
            seq![TermV::Cmp { head: hb, args: bas }],
            Seq::empty(),
            fuel,
        ) == MguOutcome::Fail,
{
}

/// Computes a most-general unifier of `a` and `b`, or reports that none
/// exists, within the given step budget.  `None` means the budget ran out
/// before the walk settled; without an occurs-check the walk has no
/// termination guarantee, so a budget is the price of a total function.
pub fn mgu(a: &Term, b: &Term, fuel: usize) -> (res: Option<Result<Vec<Sub>, ()>>)
    ensures
        (match res {
            Option::Some(Result::Ok(s)) => mgu_rec(seq![a@], seq![b@], Seq::empty(), fuel as nat)
                == MguOutcome::Done(sub_seq_view(s@)),
            Option::Some(Result::Err(_)) => mgu_rec(seq![a@], seq![b@], Seq::empty(), fuel as nat)
                == MguOutcome::Fail,
            Option::None => mgu_rec(seq![a@], seq![b@], Seq::empty(), fuel as nat)
                == MguOutcome::Pending,
        }),
        (match res {
            Option::Some(Result::Ok(s)) => mgu_spec(a@, b@) == MguOutcome::Done(sub_seq_view(s@))
                && (no_self_occurrence(sub_seq_view(s@)) ==> subst_list(sub_seq_view(s@), a@)
                == subst_list(sub_seq_view(s@), b@)),
            Option::Some(Result::Err(_)) => mgu_spec(a@, b@) == MguOutcome::Fail,
            Option::None => true,
        }),
        (match (a@, b@) {
            (TermV::Var(va), TermV::Var(vb)) => fuel >= 1 ==> (match res {
                Option::Some(Result::Ok(s)) => sub_seq_view(s@) == seq![var_var_binding(va, vb)],
                _ => false,
            }),
            (TermV::Atom(na), TermV::Atom(nb)) => fuel >= 1 ==> (match res {
                Option::Some(Result::Ok(s)) => na == nb && sub_seq_view(s@)
                    == Seq::<SubV>::empty(),
                Option::Some(Result::Err(_)) => na != nb,
                Option::None => false,
            }),
            (TermV::Cmp { head: ha, args: aas }, TermV::Cmp { head: hb, args: bas }) => (fuel >= 1
                && (ha != hb || aas.len() != bas.len())) ==> (res matches Option::Some(r) && r
                matches Result::Err(_)),
            _ => true,
        }),
{
    let res = mgu_walk(a, b, fuel);
    proof {
        if fuel >= 1 {
            match (a@, b@) {
                (TermV::Var(va), TermV::Var(vb)) => {
                    lemma_mgu_rec_vars(va, vb, fuel as nat);
                },
                (TermV::Atom(na), TermV::Atom(nb)) => {
                    lemma_mgu_rec_atoms(na, nb, fuel as nat);
                },
                (TermV::Cmp { head: ha, args: aas }, TermV::Cmp { head: hb, args: bas }) => {
                    if ha != hb || aas.len() != bas.len() {
                        lemma_mgu_rec_cmp_mismatch(ha, aas, hb, bas, fuel as nat);
                    }
                },
                _ => {},
            }
        }
        match &res {
            Option::Some(Result::Ok(s)) => {
                lemma_mgu_spec_of_witness(a@, b@, fuel as nat);
                if no_self_occurrence(sub_seq_view(s@)) {
                    lemma_mgu_sound(a@, b@, fuel as nat, sub_seq_view(s@));
                }
            },
            Option::Some(Result::Err(_)) => {
                lemma_mgu_spec_of_witness(a@, b@, fuel as nat);
            },
            Option::None => {},
        }
    }
    res
}

/// The worklist walk itself, exactly one model step per iteration.
#[verifier::loop_isolation(false)]
fn mgu_walk(a: &Term, b: &Term, fuel: usize) -> (res: Option<Result<Vec<Sub>, ()>>)
    ensures
        (match res {
            Option::Some(Result::Ok(s)) => mgu_rec(seq![a@], seq![b@], Seq::empty(), fuel as nat)
                == MguOutcome::Done(sub_seq_view(s@)),
            Option::Some(Result::Err(_)) => mgu_rec(seq![a@], seq![b@], Seq::empty(), fuel as nat)
                == MguOutcome::Fail,
            Option::None => mgu_rec(seq![a@], seq![b@], Seq::empty(), fuel as nat)
                == MguOutcome::Pending,
        }),
{
    let ghost a0 = seq![a@];
    let ghost b0 = seq![b@];
    let mut unifier: Vec<Sub> = Vec::new();
    let mut a_list: Vec<Term> = Vec::new();
    a_list.push(a.clone());
    let mut b_list: Vec<Term> = Vec::new();
    b_list.push(b.clone());
    let mut fuel_left: usize = fuel;
    proof {
        lemma_term_seq_view_len(a_list@);
        lemma_term_seq_view_index(a_list@, 0);
        lemma_term_seq_view_len(b_list@);
        lemma_term_seq_view_index(b_list@, 0);
        assert(term_seq_view(a_list@) =~= a0);
        assert(term_seq_view(b_list@) =~= b0);
        assert(sub_seq_view(unifier@) =~= Seq::<SubV>::empty());
    }
    while a_list.len() != 0 && b_list.len() != 0
        invariant
            a_list@.len() == b_list@.len(),
            mgu_rec(a0, b0, Seq::empty(), fuel as nat) == mgu_rec(
                term_seq_view(a_list@),
                term_seq_view(b_list@),
                sub_seq_view(unifier@),
                fuel_left as nat,
            ),
        decreases fuel_left,
    {
        proof {
            lemma_term_seq_view_len(a_list@);
            lemma_term_seq_view_len(b_list@);
        }
        if fuel_left == 0 {
            return None;
        }
        let ghost fl_prev = fuel_left as nat;
        fuel_left -= 1;
        let ghost pa = a_list@;
        let ghost pb = b_list@;
        let ghost ua = term_seq_view(a_list@);
        let ghost ub = term_seq_view(b_list@);
        let ghost uu = sub_seq_view(unifier@);
        let x = a_list.remove(0);
        let y = b_list.remove(0);
        let ghost xv = x@;
        let ghost yv = y@;
        proof {
            assert(pa.remove(0) =~= pa.drop_first());
            assert(pb.remove(0) =~= pb.drop_first());
            crate::terms::lemma_term_seq_view_drop_first(pa);
            crate::terms::lemma_term_seq_view_drop_first(pb);
            lemma_term_seq_view_index(pa, 0);
            lemma_term_seq_view_index(pb, 0);
            assert(ua[0] == xv);
            assert(ub[0] == yv);
            assert(term_seq_view(a_list@) == ua.drop_first());
            assert(term_seq_view(b_list@) == ub.drop_first());
        }
        match (x, y) {
            (Term::Var(var_a), Term::Var(var_b)) => {
                let new_sub = if name_gt_exec(var_a.as_str(), var_b.as_str()) {
                    Sub { input_variable: var_a, output_term: Term::Var(var_b) }
                } else {
                    Sub { input_variable: var_b, output_term: Term::Var(var_a) }
                };
                proof {
                    assert(new_sub@ == var_var_binding(xv->Var_0, yv->Var_0));
                }
                unifier.push(new_sub);
                proof {
                    assert(sub_seq_view(unifier@) =~= uu.push(new_sub@));
                }
                let na2 = apply_subs_each(&unifier, &a_list);
                a_list = na2;
                let nb2 = apply_subs_each(&unifier, &b_list);
                b_list = nb2;
                proof {
                    lemma_term_seq_view_len(a_list@);
                    lemma_term_seq_view_len(b_list@);
                    assert(mgu_rec(ua, ub, uu, fl_prev) == mgu_rec(
                        term_seq_view(a_list@),
                        term_seq_view(b_list@),
                        sub_seq_view(unifier@),
                        (fl_prev - 1) as nat,
                    ));
                }
            },
            (other_a, Term::Var(input_variable)) => {
                let new_sub = Sub { input_variable, output_term: other_a };
                unifier.push(new_sub);
                proof {
                    assert(sub_seq_view(unifier@) =~= uu.push(new_sub@));
                }
                let na2 = apply_subs_each(&unifier, &a_list);
                a_list = na2;
                let nb2 = apply_subs_each(&unifier, &b_list);
                b_list = nb2;
                proof {
                    lemma_term_seq_view_len(a_list@);
                    lemma_term_seq_view_len(b_list@);
                    assert(mgu_rec(ua, ub, uu, fl_prev) == mgu_rec(
                        term_seq_view(a_list@),
                        term_seq_view(b_list@),
                        sub_seq_view(unifier@),
                        (fl_prev - 1) as nat,
                    ));
                }
            },
            (Term::Var(input_variable), other_b) => {
                let new_sub = Sub { input_variable, output_term: other_b };
                unifier.push(new_sub);
                proof {
                    assert(sub_seq_view(unifier@) =~= uu.push(new_sub@));
                }
                let na2 = apply_subs_each(&unifier, &a_list);
                a_list = na2;
                let nb2 = apply_subs_each(&unifier, &b_list);
                b_list = nb2;
                proof {
                    lemma_term_seq_view_len(a_list@);
                    lemma_term_seq_view_len(b_list@);
                    assert(mgu_rec(ua, ub, uu, fl_prev) == mgu_rec(
                        term_seq_view(a_list@),
                        term_seq_view(b_list@),
                        sub_seq_view(unifier@),
                        (fl_prev - 1) as nat,
                    ));
                }
            },
            (Term::Atom(name_a), Term::Atom(name_b)) => {
                if !(name_a == name_b) {
                    return Some(Err(()));
                }
                proof {
                    lemma_term_seq_view_len(a_list@);
                    lemma_term_seq_view_len(b_list@);
                    assert(mgu_rec(ua, ub, uu, fl_prev) == mgu_rec(
                        term_seq_view(a_list@),
                        term_seq_view(b_list@),
                        sub_seq_view(unifier@),
                        (fl_prev - 1) as nat,
                    ));
                }
            },
            (
                Term::Compound { head_atom: head_a, termlist: list_a },
                Term::Compound { head_atom: head_b, termlist: list_b },
            ) => {
                proof {
                    lemma_term_seq_view_len(list_a@);
                    lemma_term_seq_view_len(list_b@);
                    assert(xv == (TermV::Cmp { head: head_a@, args: term_seq_view(list_a@) }));
                    assert(yv == (TermV::Cmp { head: head_b@, args: term_seq_view(list_b@) }));
                }
                if !(head_a == head_b) || list_a.len() != list_b.len() {
                    return Some(Err(()));
                }
                push_all(&mut a_list, &list_a);
                push_all(&mut b_list, &list_b);
                proof {
                    lemma_term_seq_view_len(a_list@);
                    lemma_term_seq_view_len(b_list@);
                    assert(mgu_rec(ua, ub, uu, fl_prev) == mgu_rec(
                        term_seq_view(a_list@),
                        term_seq_view(b_list@),
                        sub_seq_view(unifier@),
                        (fl_prev - 1) as nat,
                    ));
                }
            },
            _ => {
                return Some(Err(()));
            },
        }
    }
    proof {
        lemma_term_seq_view_len(a_list@);
        lemma_term_seq_view_len(b_list@);
    }
    Some(Ok(unifier))
}

} // verus!

verus! {

proof fn lemma_general_var_step(
    al: Seq<TermV>,
    bl: Seq<TermV>,
    u: Seq<SubV>,
    fuel: nat,
    s: Seq<SubV>,
    snew: SubV,
    e: Seq<SubV>,
)
    requires
        al.len() == bl.len(),
        al.len() > 0,
        fuel > 0,
        mgu_rec(
            subst_list_each(u.push(snew), al.drop_first()),
            subst_list_each(u.push(snew), bl.drop_first()),
            u.push(snew),
            (fuel - 1) as nat,
        ) == MguOutcome::Done(s),
        no_self_occurrence(s),
        worklist_clean(u, al),
        worklist_clean(u, bl),
        s.len() > u.len(),
        s[u.len() as int] == snew,
        sub_ident(snew) || !occurs(snew.var, snew.val),
        forall|k: int|
            0 <= k < u.len() && !sub_ident(u[k]) ==> !occurs(u[k].var, snew.val),
        forall|i: int| 0 <= i < al.len() ==> subst_list(e, al[i]) == subst_list(e, bl[i]),
        subst_list(e, TermV::Var(snew.var)) == subst_list(e, snew.val),
    ensures
        forall|t: TermV| #![all_triggers]
            subst_list(s.skip(u.len() as int) + e, t) == subst_list(e, t),
    decreases fuel, 0nat,
{
    let d = u.len() as int;
    let u2 = u.push(snew);
    let resta = al.drop_first();
    let restb = bl.drop_first();
    let al2 = subst_list_each(u2, resta);
    let bl2 = subst_list_each(u2, restb);

    assert(u2 =~= u + seq![snew]);

    assert forall|i: int| 0 <= i < resta.len() implies al2[i] == subst_one(
        snew.var,
        snew.val,
        resta[i],
    ) && bl2[i] == subst_one(snew.var, snew.val, restb[i]) by {
        lemma_subst_list_append(u, seq![snew], resta[i]);
        lemma_subst_list_no_residue(u, resta[i]);
        lemma_subst_list_one(snew, resta[i]);
        lemma_subst_list_append(u, seq![snew], restb[i]);
        lemma_subst_list_no_residue(u, restb[i]);
        lemma_subst_list_one(snew, restb[i]);
    };

    assert forall|k: int, i: int|
        0 <= k < u2.len() && 0 <= i < al2.len() && !sub_ident(u2[k]) implies !occurs(
        u2[k].var,
        al2[i],
    ) by {
        if k < u.len() {
            lemma_occurs_subst_one(u[k].var, snew.var, snew.val, resta[i]);
        } else {
            lemma_subst_one_removes(snew.var, snew.val, resta[i]);
        }
    };
    assert forall|k: int, i: int|
        0 <= k < u2.len() && 0 <= i < bl2.len() && !sub_ident(u2[k]) implies !occurs(
        u2[k].var,
        bl2[i],
    ) by {
        if k < u.len() {
            lemma_occurs_subst_one(u[k].var, snew.var, snew.val, restb[i]);
        } else {
            lemma_subst_one_removes(snew.var, snew.val, restb[i]);
        }
    };

    assert forall|i: int| 0 <= i < al2.len() implies subst_list(e, al2[i]) == subst_list(
        e,
        bl2[i],
    ) by {
        lemma_subst_list_absorbs_one(e, snew.var, snew.val, resta[i]);
        lemma_subst_list_absorbs_one(e, snew.var, snew.val, restb[i]);
    };

    lemma_mgu_rec_general(al2, bl2, u2, (fuel - 1) as nat, s, e);

    assert(s.skip(d) =~= seq![snew] + s.skip(d + 1));
    assert forall|t: TermV| #![all_triggers]
        subst_list(s.skip(d) + e, t) == subst_list(e, t) by {
        assert(s.skip(d) + e =~= seq![snew] + (s.skip(d + 1) + e));
        lemma_subst_list_append(seq![snew], s.skip(d + 1) + e, t);
        lemma_subst_list_one(snew, t);
        lemma_subst_list_absorbs_one(e, snew.var, snew.val, t);
        assert(subst_list(s.skip(d + 1) + e, subst_one(snew.var, snew.val, t)) == subst_list(
            e,
            subst_one(snew.var, snew.val, t),
        ));
    };
}

/// Law (most-generality, generalized over the walk): a substitution that
/// equalizes every queued pair is unchanged by first applying the bindings
/// the walk appends.
pub proof fn lemma_mgu_rec_general(
    al: Seq<TermV>,
    bl: Seq<TermV>,
    u: Seq<SubV>,
    fuel: nat,
    s: Seq<SubV>,
    e: Seq<SubV>,
)
    requires
        al.len() == bl.len(),
        mgu_rec(al, bl, u, fuel) == MguOutcome::Done(s),
        no_self_occurrence(s),
        worklist_clean(u, al),
        worklist_clean(u, bl),
        forall|i: int| 0 <= i < al.len() ==> subst_list(e, al[i]) == subst_list(e, bl[i]),
    ensures
        forall|t: TermV| #![all_triggers]
            subst_list(s.skip(u.len() as int) + e, t) == subst_list(e, t),
    decreases fuel, 1nat,
{
    let d = u.len() as int;
    if al.len() == 0 || bl.len() == 0 {
        assert(s.skip(d) =~= Seq::<SubV>::empty());
        assert forall|t: TermV| #![all_triggers]
            subst_list(s.skip(d) + e, t) == subst_list(e, t) by {
            assert(s.skip(d) + e =~= e);
        };
    } else {
        match (al[0], bl[0]) {
            (TermV::Var(va), TermV::Var(vb)) => {
                let snew = var_var_binding(va, vb);
                let u2 = u.push(snew);
                lemma_mgu_rec_extends(
                    subst_list_each(u2, al.drop_first()),
                    subst_list_each(u2, bl.drop_first()),
                    u2,
                    (fuel - 1) as nat,
                );
                assert(s.take(u2.len() as int)[d] == s[d]);
                assert(s[d] == snew);
                assert forall|k: int|
                    0 <= k < u.len() && !sub_ident(u[k]) implies !occurs(u[k].var, snew.val) by {
                    assert(!occurs(u[k].var, al[0]));
                    assert(!occurs(u[k].var, bl[0]));
                };
                assert(subst_list(e, TermV::Var(snew.var)) == subst_list(e, snew.val));
                lemma_general_var_step(al, bl, u, fuel, s, snew, e);
            },
            (x, TermV::Var(vb)) => {
                let snew = SubV { var: vb, val: x };
                let u2 = u.push(snew);
                lemma_mgu_rec_extends(
                    subst_list_each(u2, al.drop_first()),
                    subst_list_each(u2, bl.drop_first()),
                    u2,
                    (fuel - 1) as nat,
                );
                assert(s.take(u2.len() as int)[d] == s[d]);
                assert(s[d] == snew);
                assert forall|k: int|
                    0 <= k < u.len() && !sub_ident(u[k]) implies !occurs(u[k].var, snew.val) by {
                    assert(!occurs(u[k].var, al[0]));
                };
                lemma_general_var_step(al, bl, u, fuel, s, snew, e);
            },
            (TermV::Var(va), y) => {
                let snew = SubV { var: va, val: y };
                let u2 = u.push(snew);
                lemma_mgu_rec_extends(
                    subst_list_each(u2, al.drop_first()),
                    subst_list_each(u2, bl.drop_first()),
                    u2,
                    (fuel - 1) as nat,
                );
                assert(s.take(u2.len() as int)[d] == s[d]);
                assert(s[d] == snew);
                assert forall|k: int|
                    0 <= k < u.len() && !sub_ident(u[k]) implies !occurs(u[k].var, snew.val) by {
                    assert(!occurs(u[k].var, bl[0]));
                };
                lemma_general_var_step(al, bl, u, fuel, s, snew, e);
            },
            (TermV::Atom(na), TermV::Atom(nb)) => {
                assert forall|k: int, i: int|
                    0 <= k < u.len() && 0 <= i < al.drop_first().len() && !sub_ident(u[k])
                    implies !occurs(u[k].var, al.drop_first()[i]) && !occurs(
                    u[k].var,
                    bl.drop_first()[i],
                ) by {
                    assert(al.drop_first()[i] == al[i + 1]);
                    assert(bl.drop_first()[i] == bl[i + 1]);
                };
                assert forall|i: int| 0 <= i < al.drop_first().len() implies subst_list(
                    e,
                    al.drop_first()[i],
                ) == subst_list(e, bl.drop_first()[i]) by {
                    assert(al.drop_first()[i] == al[i + 1]);
                    assert(bl.drop_first()[i] == bl[i + 1]);
                };
                lemma_mgu_rec_general(al.drop_first(), bl.drop_first(), u, (fuel - 1) as nat, s, e);
            },
            (TermV::Cmp { head: ha, args: aas }, TermV::Cmp { head: hb, args: bas }) => {
                let al2 = al.drop_first() + aas;
                let bl2 = bl.drop_first() + bas;
                assert forall|k: int, i: int|
                    0 <= k < u.len() && 0 <= i < al2.len() && !sub_ident(u[k]) implies !occurs(
                    u[k].var,
                    al2[i],
                ) && !occurs(u[k].var, bl2[i]) by {
                    if i < al.drop_first().len() {
                        assert(al2[i] == al[i + 1]);
                        assert(bl2[i] == bl[i + 1]);
                    } else {
                        let j = i - al.drop_first().len();
                        assert(al2[i] == aas[j]);
                        assert(bl2[i] == bas[j]);
                        assert(!occurs(u[k].var, al[0]));
                        assert(!occurs(u[k].var, bl[0]));
                        lemma_occurs_in_seq_index(u[k].var, aas);
                        lemma_occurs_in_seq_index(u[k].var, bas);
                    }
                };
                lemma_subst_list_cmp(e, ha, aas);
                lemma_subst_list_cmp(e, hb, bas);
                assert(subst_list_each(e, aas) == subst_list_each(e, bas));
                assert forall|i: int| 0 <= i < al2.len() implies subst_list(e, al2[i])
                    == subst_list(e, bl2[i]) by {
                    if i < al.drop_first().len() {
                        assert(al2[i] == al[i + 1]);
                        assert(bl2[i] == bl[i + 1]);
                    } else {
                        let j = i - al.drop_first().len();
                        assert(al2[i] == aas[j]);
                        assert(bl2[i] == bas[j]);
                        assert(subst_list_each(e, aas)[j] == subst_list_each(e, bas)[j]);
                    }
                };
                lemma_mgu_rec_general(al2, bl2, u, (fuel - 1) as nat, s, e);
            },
            _ => {},
        }
    }
}

/// Law (most-generality): any substitution `e` that equalizes `a` and `b`
/// factors through a successful unification's substitution `s`: applying
/// `s` first and then `e` rewrites every term exactly as `e` alone does, so
/// every unifier of the pair refines `s`.  As with soundness, the
/// self-occurrence proviso is forced by the absent occurs-check.
pub proof fn lemma_mgu_most_general(a: TermV, b: TermV, fuel: nat, s: Seq<SubV>, e: Seq<SubV>)
    requires
        mgu_rec(seq![a], seq![b], Seq::empty(), fuel) == MguOutcome::Done(s),
        no_self_occurrence(s),
        subst_list(e, a) == subst_list(e, b),
    ensures
        forall|t: TermV| #![all_triggers] subst_list(s + e, t) == subst_list(e, t),
{
    let al = seq![a];
    let bl = seq![b];
    assert(al[0] == a);
    assert(bl[0] == b);
    lemma_mgu_rec_general(al, bl, Seq::empty(), fuel, s, e);
    assert(s.skip(0) =~= s);
}

} // verus!

verus! {

/// The most-generality law at the limit: every unifier of the pair refines
/// the settled substitution.
pub proof fn lemma_mgu_spec_most_general(a: TermV, b: TermV, s: Seq<SubV>, e: Seq<SubV>)
    requires
        mgu_spec(a, b) == MguOutcome::Done(s),
        no_self_occurrence(s),
        subst_list(e, a) == subst_list(e, b),
    ensures
        forall|t: TermV| #![all_triggers] subst_list(s + e, t) == subst_list(e, t),
{
    let f = choose|f: nat| mgu_rec(seq![a], seq![b], Seq::empty(), f) != MguOutcome::Pending;
    lemma_mgu_most_general(a, b, f, s, e);
}

} // verus!
