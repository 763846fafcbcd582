use prolog::Clause;
use prolog::Term;
use prolog::Token;
use prolog::parse_clause;
use prolog::parse_query;
use prolog::tokenize;

fn var(name: &str) -> Term {
    Term::Var(name.to_string())
}

fn atom(name: &str) -> Term {
    Term::Atom(name.to_string())
}

fn app(head: &str, args: Vec<Term>) -> Term {
    Term::Compound { head_atom: head.to_string(), termlist: args }
}

#[test]
fn tokenize_a_fact() {
    let tokens = tokenize("likes(mary, wine).").expect("valid input");
    assert_eq!(
        tokens,
        vec![
            Token::Atom("likes".to_string()),
            Token::LeftParen,
            Token::Atom("mary".to_string()),
            Token::Comma,
            Token::Atom("wine".to_string()),
            Token::RightParen,
            Token::Period,
        ]
    );
}

#[test]
fn tokenize_a_rule_with_variables() {
    let tokens = tokenize("gp(X, Z) :- p(X, Y).").expect("valid input");
    assert_eq!(
        tokens,
        vec![
            Token::Atom("gp".to_string()),
            Token::LeftParen,
            Token::Var("X".to_string()),
            Token::Comma,
            Token::Var("Z".to_string()),
            Token::RightParen,
            Token::ColonHyphen,
            Token::Atom("p".to_string()),
            Token::LeftParen,
            Token::Var("X".to_string()),
            Token::Comma,
            Token::Var("Y".to_string()),
            Token::RightParen,
            Token::Period,
        ]
    );
}

#[test]
fn tokenize_underscore_starts_a_variable() {
    let tokens = tokenize("_foo bar_9").expect("valid input");
    assert_eq!(
        tokens,
        vec![Token::Var("_foo".to_string()), Token::Atom("bar_9".to_string())]
    );
}

#[test]
fn tokenize_rejects_an_unexpected_character() {
    let err = tokenize("likes?").expect_err("question mark is not a token");
    assert_eq!(err, "unexpected character: '?'");
}

#[test]
fn tokenize_rejects_a_lone_colon() {
    let err = tokenize("a : b").expect_err("a colon must be followed by a hyphen");
    assert_eq!(err, "unexpected character: ':'");
}

#[test]
fn parse_a_fact() {
    let tokens = tokenize("parent(tom,bob).").expect("valid input");
    match parse_clause(&tokens).expect("valid clause") {
        Clause::Fact(head) => {
            assert_eq!(head, app("parent", vec![atom("tom"), atom("bob")]));
        }
        Clause::Rule(_, _) => panic!("expected a fact"),
    }
}

#[test]
fn parse_a_rule() {
    let tokens = tokenize("gp(X,Z) :- p(X,Y), p(Y,Z).").expect("valid input");
    match parse_clause(&tokens).expect("valid clause") {
        Clause::Rule(head, body) => {
            assert_eq!(head, app("gp", vec![var("X"), var("Z")]));
            assert_eq!(
                body,
                vec![
                    app("p", vec![var("X"), var("Y")]),
                    app("p", vec![var("Y"), var("Z")]),
                ]
            );
        }
        Clause::Fact(_) => panic!("expected a rule"),
    }
}

#[test]
fn parse_query_returns_the_term() {
    let tokens = tokenize("color(X).").expect("valid input");
    let query = parse_query(&tokens).expect("valid query");
    assert_eq!(query, app("color", vec![var("X")]));
}

#[test]
fn parse_clause_rejects_trailing_input() {
    let tokens = tokenize("a. b.").expect("valid input");
    let err = parse_clause(&tokens).expect_err("two clauses are one too many");
    assert_eq!(err, "Expected to find end of input");
}

#[test]
fn parse_clause_rejects_a_missing_period() {
    let tokens = tokenize("a :- b").expect("valid input");
    assert!(parse_clause(&tokens).is_err());
}

#[test]
fn parse_term_reports_the_unexpected_token() {
    let tokens = tokenize("(a).").expect("valid input");
    let err = parse_query(&tokens).expect_err("a term cannot start with a parenthesis");
    assert_eq!(err, "Unexpected token in term: (");
}

#[test]
fn closed_list_renders_with_brackets() {
    let term = app("cons", vec![atom("1"), app("cons", vec![atom("2"), atom("nil")])]);
    assert_eq!(term.display_string(), "[1,2]");
}

#[test]
fn open_list_renders_with_a_bar() {
    let term = app("cons", vec![atom("1"), var("X")]);
    assert_eq!(term.display_string(), "[1|X]");
}

#[test]
fn plain_compound_renders_with_parentheses() {
    let term = app("likes", vec![atom("mary"), atom("wine")]);
    assert_eq!(term.display_string(), "likes(mary,wine)");
}

#[test]
fn ternary_cons_is_not_list_sugar() {
    let term = app("cons", vec![atom("a"), atom("b"), atom("c")]);
    assert_eq!(term.display_string(), "cons(a,b,c)");
}

#[test]
fn fact_clause_renders_with_a_period() {
    let clause = Clause::Fact(app("p", vec![atom("a")]));
    assert_eq!(clause.display_string(), "p(a).\n");
}

#[test]
fn rule_clause_renders_with_neck_and_separators() {
    let clause = Clause::Rule(
        app("gp", vec![var("X")]),
        vec![app("p", vec![var("X")]), app("q", vec![var("X")])],
    );
    assert_eq!(clause.display_string(), "gp(X) :- p(X), q(X).\n");
}

#[test]
fn token_rendering_matches_source_forms() {
    assert_eq!(Token::Var("X".to_string()).display_string(), "X");
    assert_eq!(Token::Atom("foo".to_string()).display_string(), "foo");
    assert_eq!(Token::LeftParen.display_string(), "(");
    assert_eq!(Token::RightParen.display_string(), ")");
    assert_eq!(Token::Period.display_string(), ".");
    assert_eq!(Token::Comma.display_string(), ",");
    assert_eq!(Token::ColonHyphen.display_string(), ":-");
}

#[test]
fn whitespace_only_input_yields_no_tokens() {
    let tokens = tokenize(" \t\n ").expect("whitespace is skipped");
    assert!(tokens.is_empty());
}

#[test]
fn render_then_parse_returns_the_same_clause() {
    let clause = Clause::Rule(
        app("gp", vec![var("X"), var("Z")]),
        vec![app("p", vec![var("X"), var("Y")]), app("p", vec![var("Y"), var("Z")])],
    );
    let text = clause.display_string();
    let tokens = tokenize(text.trim()).expect("rendered clauses tokenize");
    match parse_clause(&tokens).expect("rendered clauses parse") {
        Clause::Rule(head, body) => {
            assert_eq!(head, app("gp", vec![var("X"), var("Z")]));
            assert_eq!(
                body,
                vec![
                    app("p", vec![var("X"), var("Y")]),
                    app("p", vec![var("Y"), var("Z")]),
                ]
            );
        }
        Clause::Fact(_) => panic!("expected a rule"),
    }
}

#[test]
fn render_then_parse_returns_the_same_query() {
    let term = app("likes", vec![atom("mary"), var("Who")]);
    let mut text = term.display_string();
    text.push('.');
    let tokens = tokenize(&text).expect("rendered terms tokenize");
    assert_eq!(parse_query(&tokens).expect("rendered terms parse"), term);
}

#[test]
fn inserted_blanks_do_not_change_the_tokens() {
    let plain = tokenize("gp(X,Z):-p(X,Y).").expect("valid input");
    let spaced = tokenize("gp( X ,\tZ ) :-  p( X , Y ) .").expect("valid input");
    assert_eq!(plain, spaced);
}

#[test]
fn empty_input_yields_no_tokens() {
    let tokens = tokenize("").expect("empty input is fine");
    assert!(tokens.is_empty());
}
