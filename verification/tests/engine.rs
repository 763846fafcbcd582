use prolog::Clause;
use prolog::Sub;
use prolog::Term;
use prolog::apply_subs;
use prolog::mgu;
use prolog::solve;

const FUEL: usize = 1_000_000;

fn var(name: &str) -> Term {
    Term::Var(name.to_string())
}

fn atom(name: &str) -> Term {
    Term::Atom(name.to_string())
}

fn app(head: &str, args: Vec<Term>) -> Term {
    Term::Compound { head_atom: head.to_string(), termlist: args }
}

fn unify(a: &Term, b: &Term) -> Result<Vec<Sub>, ()> {
    mgu(a, b, FUEL).expect("unification budget exhausted")
}

#[test]
fn atom_mismatch_fails() {
    assert!(unify(&atom("a"), &atom("b")).is_err());
}

#[test]
fn atom_match_gives_empty_substitution() {
    let subs = unify(&atom("a"), &atom("a")).expect("equal atoms must unify");
    assert_eq!(subs.len(), 0);
}

#[test]
fn arity_mismatch_fails() {
    let left = app("f", vec![var("X")]);
    let right = app("f", vec![var("X"), var("Y")]);
    assert!(unify(&left, &right).is_err());
}

#[test]
fn functor_mismatch_fails() {
    let left = app("f", vec![var("X")]);
    let right = app("g", vec![var("X")]);
    assert!(unify(&left, &right).is_err());
}

#[test]
fn atom_against_compound_fails() {
    assert!(unify(&atom("f"), &app("f", vec![atom("a")])).is_err());
}

#[test]
fn variable_binding_is_deterministic() {
    let one = unify(&var("Y"), &var("X")).expect("variables must unify");
    let two = unify(&var("X"), &var("Y")).expect("variables must unify");
    for subs in [&one, &two] {
        assert_eq!(subs.len(), 1);
        assert_eq!(subs[0].input_variable, "Y");
        assert_eq!(subs[0].output_term, var("X"));
    }
}

#[test]
fn unifier_is_sound_on_compounds() {
    let left = app("f", vec![var("X"), atom("a")]);
    let right = app("f", vec![atom("b"), var("Y")]);
    let subs = unify(&left, &right).expect("these compounds unify");
    let left_rewritten = apply_subs(&subs, left);
    let right_rewritten = apply_subs(&subs, right);
    assert_eq!(left_rewritten, right_rewritten);
    assert_eq!(left_rewritten, app("f", vec![atom("b"), atom("a")]));
}

#[test]
fn success_agrees_under_swapped_arguments() {
    let pairs = vec![
        (atom("a"), atom("b")),
        (atom("a"), atom("a")),
        (app("f", vec![var("X")]), app("g", vec![var("X")])),
        (app("f", vec![var("X"), atom("c")]), app("f", vec![atom("d"), var("Y")])),
        (var("X"), app("f", vec![atom("a")])),
    ];
    for (a, b) in pairs {
        assert_eq!(unify(&a, &b).is_ok(), unify(&b, &a).is_ok());
    }
}

#[test]
fn sequential_application_resolves_earlier_bindings_first() {
    let subs = vec![
        Sub { input_variable: "X".to_string(), output_term: var("Y") },
        Sub { input_variable: "Y".to_string(), output_term: atom("a") },
    ];
    let rewritten = apply_subs(&subs, app("f", vec![var("X")]));
    assert_eq!(rewritten, app("f", vec![atom("a")]));
}

#[test]
fn reapplying_a_settled_substitution_is_a_no_op() {
    let subs = vec![
        Sub { input_variable: "X".to_string(), output_term: atom("a") },
        Sub { input_variable: "Y".to_string(), output_term: app("g", vec![atom("b")]) },
    ];
    let once = apply_subs(&subs, app("f", vec![var("X"), var("Y"), atom("c")]));
    let twice = apply_subs(&subs, once.clone());
    assert_eq!(once, twice);
}

#[test]
fn fact_only_proof_yields_one_solution() {
    let fact = app("likes", vec![atom("mary"), atom("wine")]);
    let program = vec![Clause::Fact(fact.clone())];
    let sols = solve(&program, &vec![fact.clone()], &fact, FUEL).expect("search budget exhausted");
    assert_eq!(sols.len(), 1);
    assert_eq!(sols[0].display_string(), "likes(mary,wine)");
}

#[test]
fn rule_expansion_finds_the_grandparent() {
    let program = vec![
        Clause::Fact(app("parent", vec![atom("tom"), atom("bob")])),
        Clause::Fact(app("parent", vec![atom("bob"), atom("ann")])),
        Clause::Rule(
            app("grandparent", vec![var("X"), var("Z")]),
            vec![
                app("parent", vec![var("X"), var("Y")]),
                app("parent", vec![var("Y"), var("Z")]),
            ],
        ),
    ];
    let query = app("grandparent", vec![atom("tom"), atom("ann")]);
    let sols = solve(&program, &vec![query.clone()], &query, FUEL).expect("budget exhausted");
    assert_eq!(sols.len(), 1);
    assert_eq!(sols[0].display_string(), "grandparent(tom,ann)");
}

#[test]
fn no_match_yields_zero_solutions() {
    let program = vec![Clause::Fact(atom("a"))];
    let query = atom("b");
    let sols = solve(&program, &vec![query.clone()], &query, FUEL).expect("budget exhausted");
    assert_eq!(sols.len(), 0);
}

#[test]
fn multiple_solutions_keep_database_order() {
    let program = vec![
        Clause::Fact(app("color", vec![atom("red")])),
        Clause::Fact(app("color", vec![atom("blue")])),
    ];
    let query = app("color", vec![var("X")]);
    let sols = solve(&program, &vec![query.clone()], &query, FUEL).expect("budget exhausted");
    assert_eq!(sols.len(), 2);
    assert_eq!(sols[0].display_string(), "color(red)");
    assert_eq!(sols[1].display_string(), "color(blue)");
}

#[test]
fn empty_goal_list_emits_the_query_itself() {
    let program = vec![Clause::Fact(atom("a"))];
    let query = app("anything", vec![var("Q")]);
    let sols = solve(&program, &vec![], &query, FUEL).expect("budget exhausted");
    assert_eq!(sols, vec![query]);
}

#[test]
fn exhausted_budget_is_reported_not_mistaken_for_failure() {
    // An unguarded left-recursive rule never empties the goal list.
    let program = vec![Clause::Rule(app("p", vec![var("X")]), vec![app("p", vec![var("X")])])];
    let query = app("p", vec![atom("a")]);
    assert!(solve(&program, &vec![query.clone()], &query, 50).is_none());
}

#[test]
fn self_occurrent_binding_is_still_produced() {
    // No occurs-check: X unifies with f(X), binding X to f(X).
    let subs = unify(&var("X"), &app("f", vec![var("X")])).expect("must succeed without occurs-check");
    assert_eq!(subs.len(), 1);
    assert_eq!(subs[0].input_variable, "X");
    assert_eq!(subs[0].output_term, app("f", vec![var("X")]));
}
