use prolog::app::App;
use prolog::expr::{Constant, Query, Rule, Term};
use prolog::parser::{parse_file_content, parse_query};
use prolog::unifier::Subst;

fn atom(name: &str) -> Term {
    Term::Const(Constant::Name(name.to_string()))
}

fn var(name: &str) -> Term {
    Term::Var(name.to_string())
}

fn comp(functor: &str, args: Vec<Term>) -> Term {
    Term::Combined { functor: functor.to_string(), args }
}

fn load(app: &mut App, text: &str) {
    let rules = parse_file_content(text, 0).expect("clause text parses");
    app.add_rules(rules);
}

fn peano_db() -> App {
    let mut app = App::new();
    load(&mut app, "add(z,Y,Y).add(s(X),Y,s(Z)):-add(X,Y,Z).");
    app
}

#[test]
fn ground_fact_succeeds_with_empty_binding() {
    let mut app = App::new();
    load(&mut app, "parent(tom,bob).");
    let st = app.solve(vec![comp("parent", vec![atom("tom"), atom("bob")])]);
    assert!(st.done);
    assert_eq!(st.var_to_term, Vec::new());
}

#[test]
fn variable_goal_reports_binding() {
    let mut app = App::new();
    load(&mut app, "parent(tom,bob).");
    let st = app.solve(vec![comp("parent", vec![atom("tom"), var("X")])]);
    assert!(st.done);
    assert_eq!(
        st.var_to_term,
        vec![Subst { var: "X".to_string(), term: atom("bob") }]
    );
}

#[test]
fn peano_addition_computes_two() {
    let mut app = peano_db();
    let s_z = comp("s", vec![atom("z")]);
    let st = app.solve(vec![comp("add", vec![s_z.clone(), s_z.clone(), var("R")])]);
    assert!(st.done);
    assert_eq!(
        st.var_to_term,
        vec![Subst {
            var: "R".to_string(),
            term: comp("s", vec![comp("s", vec![atom("z")])]),
        }]
    );
}

#[test]
fn transitive_ancestor_succeeds() {
    let mut app = App::new();
    load(
        &mut app,
        "parent(a,b).parent(b,c).ancestor(X,Y):-parent(X,Y).ancestor(X,Y):-parent(X,Z),ancestor(Z,Y).",
    );
    let st = app.solve(vec![comp("ancestor", vec![atom("a"), atom("c")])]);
    assert!(st.done);
    assert_eq!(st.var_to_term, Vec::new());
}

#[test]
fn failed_goal_reports_false() {
    let mut app = peano_db();
    let s_z = comp("s", vec![atom("z")]);
    let st = app.solve(vec![comp("add", vec![s_z.clone(), s_z.clone(), atom("z")])]);
    assert!(!st.done);
    assert_eq!(st.var_to_term, Vec::new());
}

#[test]
fn database_only_appends_on_load() {
    let mut app = App::new();
    load(&mut app, "parent(tom,bob).");
    assert_eq!(app.rules.len(), 1);
    let first_head = app.rules[0].lhs.clone();
    load(&mut app, "parent(bob,ann).male(bob).");
    assert_eq!(app.rules.len(), 3);
    assert_eq!(app.rules[0].lhs, first_head);
    // A query changes the database not at all.
    let st = app.solve(vec![comp("male", vec![atom("bob")])]);
    assert!(st.done);
    assert_eq!(app.rules.len(), 3);
    assert_eq!(app.rules[0].lhs, first_head);
}

#[test]
fn conjunctive_query_binds_through_both_goals() {
    let mut app = App::new();
    load(&mut app, "parent(tom,bob).male(bob).");
    let st = app.solve(vec![
        comp("parent", vec![atom("tom"), var("X")]),
        comp("male", vec![var("X")]),
    ]);
    assert!(st.done);
    assert_eq!(
        st.var_to_term,
        vec![Subst { var: "X".to_string(), term: atom("bob") }]
    );
}

#[test]
fn instantiate_renames_with_fresh_counter_names() {
    let rules = parse_file_content("add(s(X),Y,s(Z)):-add(X,Y,Z).", 0).expect("parses");
    let rule = &rules[0];
    let mut counter: i32 = 0;
    let inst1 = rule.instantiate(&mut counter);
    assert_eq!(counter, 3);
    assert_eq!(
        inst1.lhs,
        comp(
            "add",
            vec![comp("s", vec![var("1")]), var("2"), comp("s", vec![var("3")])],
        )
    );
    assert_eq!(
        inst1.rhs,
        vec![comp("add", vec![var("1"), var("2"), var("3")])]
    );
    // A later instantiation of the same clause shares no variable with the
    // earlier one or with any parsed query variable.
    let inst2 = rule.instantiate(&mut counter);
    assert_eq!(counter, 6);
    let vars1 = inst1.lhs.free_vars();
    let vars2 = inst2.lhs.free_vars();
    for v in vars2.iter() {
        assert!(!vars1.contains(v));
        assert!(v.chars().next().unwrap().is_ascii_digit());
    }
}

#[test]
fn parse_query_reads_goals_and_file_forms() {
    match parse_query("parent(tom,X).") {
        Ok(Query::Terms(ts)) => {
            assert_eq!(ts, vec![comp("parent", vec![atom("tom"), var("X")])]);
        }
        other => panic!("unexpected parse: {:?}", other),
    }
    match parse_query("a,b(C),\"s\",7.") {
        Ok(Query::Terms(ts)) => {
            assert_eq!(
                ts,
                vec![
                    atom("a"),
                    comp("b", vec![var("C")]),
                    Term::Const(Constant::Str("s".to_string())),
                    Term::Const(Constant::Int(7)),
                ]
            );
        }
        other => panic!("unexpected parse: {:?}", other),
    }
    match parse_query("['db/family.pl'].") {
        Ok(Query::File(f)) => assert_eq!(f, "db/family.pl".to_string()),
        other => panic!("unexpected parse: {:?}", other),
    }
}

#[test]
fn parse_query_accepts_the_largest_integer_only() {
    match parse_query("f(2147483647).") {
        Ok(Query::Terms(ts)) => {
            assert_eq!(ts, vec![comp("f", vec![Term::Const(Constant::Int(2147483647))])]);
        }
        other => panic!("unexpected parse: {:?}", other),
    }
    assert!(parse_query("f(2147483648).").is_err());
    match parse_query("f(007).") {
        Ok(Query::Terms(ts)) => {
            assert_eq!(ts, vec![comp("f", vec![Term::Const(Constant::Int(7))])]);
        }
        other => panic!("unexpected parse: {:?}", other),
    }
}

#[test]
fn parse_query_accepts_digits_in_functors_and_atoms() {
    match parse_query("add2(x1,Y).") {
        Ok(Query::Terms(ts)) => {
            assert_eq!(ts, vec![comp("add2", vec![atom("x1"), var("Y")])]);
        }
        other => panic!("unexpected parse: {:?}", other),
    }
}

#[test]
fn parse_query_rejects_malformed_lines() {
    assert!(parse_query("").is_err());
    assert!(parse_query("parent(tom,bob)").is_err());
    assert!(parse_query("Parent(tom).").is_err());
    assert!(parse_query("f().").is_err());
    assert!(parse_query("['db.pl']").is_err());
    assert!(parse_query("99999999999.").is_err());
    assert!(parse_query("\"\".").is_err());
}

#[test]
fn parse_file_content_reads_facts_and_rules() {
    let rules = parse_file_content("parent(tom,bob).ancestor(X,Y):-parent(X,Y).", 0)
        .expect("parses");
    assert_eq!(rules.len(), 2);
    assert_eq!(rules[0].lhs, comp("parent", vec![atom("tom"), atom("bob")]));
    assert_eq!(rules[0].rhs, Vec::new());
    assert_eq!(rules[1].lhs, comp("ancestor", vec![var("X"), var("Y")]));
    assert_eq!(rules[1].rhs, vec![comp("parent", vec![var("X"), var("Y")])]);
    assert!(parse_file_content("parent(tom,bob)", 0).is_none());
    assert!(parse_file_content("parent(tom,bob).junk", 0).is_none());
    let empty: Vec<Rule> = parse_file_content("", 0).expect("empty file parses");
    assert_eq!(empty.len(), 0);
}
