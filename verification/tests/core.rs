use prolog::expr::{Constant, Term};
use prolog::unifier::{compose, search, unify, Subst};
use prolog::util::{first_char, is_string_alphanumeric};

fn atom(name: &str) -> Term {
    Term::Const(Constant::Name(name.to_string()))
}

fn var(name: &str) -> Term {
    Term::Var(name.to_string())
}

fn comp(functor: &str, args: Vec<Term>) -> Term {
    Term::Combined { functor: functor.to_string(), args }
}

#[test]
fn test_var_to_term_map() {
    // rule: add(s(X), Y, s(Z)) :- add(X, Y, Z). query: add(s(z), s(z), X).
    let const_z = Term::Const(Constant::Name("z".to_string()));
    let s_z = Term::Combined {
        functor: "s".to_string(),
        args: vec![const_z.clone()],
    };
    let rule_lhs = Term::Combined {
        functor: "add".to_string(),
        args: vec![
            Term::Combined {
                functor: "s".to_string(),
                args: vec![Term::Var("X".to_string())],
            },
            Term::Var("Y".to_string()),
            Term::Combined {
                functor: "s".to_string(),
                args: vec![Term::Var("Z".to_string())],
            },
        ],
    };
    let query = Term::Combined {
        functor: "add".to_string(),
        args: vec![s_z.clone(), s_z.clone(), Term::Var("X".to_string())],
    };
    let expected = vec![
        Subst {
            var: "X".to_string(),
            term: const_z.clone(),
        },
        Subst {
            var: "Y".to_string(),
            term: Term::Combined {
                functor: "s".to_string(),
                args: vec![const_z.clone()],
            },
        },
    ];
    assert_eq!(rule_lhs.var_to_term_map(&query), Some(expected));

    // rule: add(z, Y, Y). query: add(z, X, s(z)).
    let fact = Term::Combined {
        functor: "add".to_string(),
        args: vec![
            const_z.clone(),
            Term::Var("Y".to_string()),
            Term::Var("Y".to_string()),
        ],
    };
    let query = Term::Combined {
        functor: "add".to_string(),
        args: vec![const_z.clone(), Term::Var("X".to_string()), s_z.clone()],
    };
    let expected = vec![Subst {
        var: "Y".to_string(),
        term: Term::Combined {
            functor: "s".to_string(),
            args: vec![const_z.clone()],
        },
    }];
    assert_eq!(fact.var_to_term_map(&query), Some(expected));
}

#[test]
fn test_unify() {
    let const_z = Term::Const(Constant::Name("z".to_string()));
    let s_z = Term::Combined {
        functor: "s".to_string(),
        args: vec![const_z.clone()],
    };

    let mut constraints = vec![
        (
            s_z.clone(),
            Term::Combined {
                functor: "s".to_string(),
                args: vec![Term::Var("rule_X".to_string())],
            },
        ),
        (s_z.clone(), Term::Var("rule_Y".to_string())),
        (
            Term::Var("X".to_string()),
            Term::Combined {
                functor: "s".to_string(),
                args: vec![Term::Var("Z".to_string())],
            },
        ),
    ];
    assert_eq!(
        unify(&mut constraints),
        Some(vec![
            Subst {
                var: "X".to_string(),
                term: Term::Combined {
                    functor: "s".to_string(),
                    args: vec![Term::Var("Z".to_string())],
                },
            },
            Subst {
                var: "rule_Y".to_string(),
                term: s_z.clone(),
            },
            Subst {
                var: "rule_X".to_string(),
                term: const_z.clone(),
            },
        ]),
    );
}

#[test]
fn unify_functor_mismatch_fails() {
    // unify({ f(a) = f(a,b) }) and unify({ f(a) = g(a) }) both fail.
    let mut arity = vec![(
        comp("f", vec![atom("a")]),
        comp("f", vec![atom("a"), atom("b")]),
    )];
    assert_eq!(unify(&mut arity), None);

    let mut functor = vec![(comp("f", vec![atom("a")]), comp("g", vec![atom("a")]))];
    assert_eq!(unify(&mut functor), None);
}

#[test]
fn unify_variable_chain_searches_to_root() {
    // unify({ X = Y, Y = s(z) }), then search(X) reaches s(z).
    let s_z = comp("s", vec![atom("z")]);
    let mut constraints = vec![(var("X"), var("Y")), (var("Y"), s_z.clone())];
    let subs = unify(&mut constraints).expect("unifiable");
    assert_eq!(search(&var("X"), &subs), Some(s_z));
}

#[test]
fn unify_constant_clash_fails() {
    let mut cs = vec![(atom("a"), atom("b"))];
    assert_eq!(unify(&mut cs), None);
    let mut cs = vec![(Term::Const(Constant::Int(1)), Term::Const(Constant::Int(2)))];
    assert_eq!(unify(&mut cs), None);
    let mut cs = vec![(atom("a"), comp("f", vec![atom("a")]))];
    assert_eq!(unify(&mut cs), None);
}

#[test]
fn unify_equal_sides_give_empty_unifier() {
    let t = comp("f", vec![atom("a"), Term::Const(Constant::Int(3))]);
    let mut cs = vec![(t.clone(), t)];
    assert_eq!(unify(&mut cs), Some(Vec::new()));
}

#[test]
fn unify_occurs_check_rejects_cyclic_binding() {
    // The occurs-check is on: X never unifies with f(X).
    let mut cs = vec![(var("X"), comp("f", vec![var("X")]))];
    assert_eq!(unify(&mut cs), None);
}

#[test]
fn subst_replaces_one_binding_one_pass() {
    let b = Subst {
        var: "X".to_string(),
        term: comp("s", vec![var("Y")]),
    };
    let t = comp("f", vec![var("X"), var("Y"), atom("a")]);
    assert_eq!(
        t.subst(&b),
        comp(
            "f",
            vec![comp("s", vec![var("Y")]), var("Y"), atom("a")],
        )
    );
}

#[test]
fn subst_all_applies_in_order() {
    let subs = vec![
        Subst {
            var: "X".to_string(),
            term: comp("s", vec![var("Z")]),
        },
        Subst {
            var: "Z".to_string(),
            term: atom("a"),
        },
    ];
    assert_eq!(var("X").subst_all(&subs), comp("s", vec![atom("a")]));
}

#[test]
fn subst_map_is_simultaneous() {
    // A one-pass simultaneous substitution does not chase images.
    let subs = vec![
        Subst {
            var: "A".to_string(),
            term: var("B"),
        },
        Subst {
            var: "B".to_string(),
            term: atom("z"),
        },
    ];
    assert_eq!(var("A").subst_map(&subs), var("B"));
    assert_eq!(var("B").subst_map(&subs), atom("z"));
}

#[test]
fn apply_iterated_reaches_a_fixed_point() {
    let subs = vec![
        Subst {
            var: "X".to_string(),
            term: comp("s", vec![var("Z")]),
        },
        Subst {
            var: "Z".to_string(),
            term: atom("a"),
        },
    ];
    let r = var("X").apply_iterated(&subs);
    assert_eq!(r, comp("s", vec![atom("a")]));
    assert_eq!(r.subst_all(&subs), r);
}

#[test]
fn compose_applies_left_then_right() {
    let s1 = vec![Subst {
        var: "X".to_string(),
        term: comp("s", vec![var("Y")]),
    }];
    let s2 = vec![Subst {
        var: "Y".to_string(),
        term: atom("z"),
    }];
    let both = compose(&s1, &s2);
    let t = comp("f", vec![var("X"), var("Y")]);
    assert_eq!(t.subst_all(&both), t.subst_all(&s1).subst_all(&s2));
    assert_eq!(
        t.subst_all(&both),
        comp("f", vec![comp("s", vec![atom("z")]), atom("z")])
    );
}

#[test]
fn search_leaves_unbound_variables_standing() {
    let subs = vec![Subst {
        var: "X".to_string(),
        term: comp("s", vec![var("Q")]),
    }];
    let r = search(&var("X"), &subs).expect("within budget");
    assert_eq!(r, comp("s", vec![var("Q")]));
    assert!(r.has_free_var());
}

#[test]
fn free_vars_depth_first_with_multiplicity() {
    let t = comp(
        "f",
        vec![var("X"), comp("g", vec![var("Y"), var("X")]), atom("a")],
    );
    assert_eq!(
        t.free_vars(),
        vec!["X".to_string(), "Y".to_string(), "X".to_string()]
    );
    assert!(t.has_free_var());
    assert!(!atom("a").has_free_var());
    assert_eq!(
        Term::free_vars_sum(&vec![var("A"), atom("b"), var("C")]),
        vec!["A".to_string(), "C".to_string()]
    );
}

#[test]
fn to_string_renders_canonical_source_form() {
    let t = comp(
        "add",
        vec![
            comp("s", vec![atom("z")]),
            Term::Const(Constant::Int(42)),
            Term::Const(Constant::Str("hi".to_string())),
            var("X"),
        ],
    );
    assert_eq!(t.to_string(), "add(s(z), 42, \"hi\", X)");
    assert_eq!(Term::Const(Constant::Int(-7)).to_string(), "-7");
    assert_eq!(Term::Const(Constant::Int(0)).to_string(), "0");
}

#[test]
fn util_first_char_and_alphanumeric() {
    assert_eq!(first_char("abc"), 'a');
    assert_eq!(first_char("Zed"), 'Z');
    assert!(is_string_alphanumeric("ab1"));
    assert!(is_string_alphanumeric(""));
    assert!(!is_string_alphanumeric("ab!"));
    assert!(!is_string_alphanumeric("a b"));
}
