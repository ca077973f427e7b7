use lambda_man_engine::Expr;

#[test]
fn shift_adds_to_free_indices_only() {
    // under one binder, index 0 is bound and stays; higher indices move
    let mut expr = Expr::Group(vec![
        Expr::Relative(0),
        Expr::Relative(1),
        Expr::Relative(2),
    ]);
    expr.update(1, 5);
    assert_eq!(
        expr,
        Expr::Group(vec![
            Expr::Relative(0),
            Expr::Relative(6),
            Expr::Relative(7),
        ])
    );
}

#[test]
fn shift_counts_binders_crossed() {
    let mut expr = Expr::Def(Box::new(Expr::Group(vec![
        Expr::Relative(0),
        Expr::Relative(1),
    ])));
    expr.update(0, 3);
    assert_eq!(
        expr,
        Expr::Def(Box::new(Expr::Group(vec![
            Expr::Relative(0),
            Expr::Relative(4),
        ])))
    );
}

#[test]
fn shift_by_zero_is_identity() {
    let cases = ["a:a", "a:b:(a (a b))", "('X a:(a a))"];
    for text in cases {
        for cutoff in [0u32, 1, 2, 100] {
            let original = Expr::parse(text).unwrap();
            let mut shifted = original.clone();
            shifted.update(cutoff, 0);
            assert_eq!(shifted, original, "{text} at cutoff {cutoff}");
        }
    }
}

#[test]
fn substitution_replaces_decrements_and_keeps() {
    let mut expr = Expr::Group(vec![
        Expr::Relative(0),
        Expr::Relative(1),
        Expr::Relative(2),
    ]);
    expr.replace_relative(1, Expr::Label("V".into()));
    assert_eq!(
        expr,
        Expr::Group(vec![
            Expr::Relative(0),
            Expr::Label("V".into()),
            Expr::Relative(1),
        ])
    );
}

#[test]
fn substitution_shifts_the_copy_under_binders() {
    // substituting a free reference under a binder bumps its index
    let mut expr = Expr::Def(Box::new(Expr::Relative(1)));
    expr.replace_relative(0, Expr::Relative(3));
    assert_eq!(expr, Expr::Def(Box::new(Expr::Relative(4))));
}

#[test]
fn simplify_collapses_nested_singleton_groups() {
    let mut expr = Expr::Group(vec![Expr::Group(vec![Expr::Group(vec![
        Expr::Relative(0),
        Expr::Relative(1),
    ])])]);
    expr.simplify();
    assert_eq!(
        expr,
        Expr::Group(vec![Expr::Relative(0), Expr::Relative(1)])
    );
}

#[test]
fn simplify_collapses_every_singleton_group() {
    let mut expr = Expr::Group(vec![Expr::Def(Box::new(Expr::Relative(0)))]);
    expr.simplify();
    assert_eq!(expr, Expr::Def(Box::new(Expr::Relative(0))));

    let mut atom = Expr::Group(vec![Expr::Label("X".into())]);
    atom.simplify();
    assert_eq!(atom, Expr::Label("X".into()));

    let mut empty = Expr::Group(vec![]);
    empty.simplify();
    assert_eq!(empty, Expr::Group(vec![]));
}

#[test]
fn simplify_is_idempotent() {
    let cases = [
        Expr::Group(vec![Expr::Group(vec![Expr::Group(vec![
            Expr::Relative(0),
        ])])]),
        Expr::parse("a:b:(a (a b))").unwrap(),
        Expr::Group(vec![Expr::Def(Box::new(Expr::Group(vec![Expr::Group(
            vec![Expr::Relative(0), Expr::Relative(0)],
        )])))]),
    ];
    for expr in cases {
        let mut once = expr.clone();
        once.simplify();
        let mut twice = once.clone();
        twice.simplify();
        assert_eq!(twice, once);
    }
}

#[test]
fn containment_bounds_free_indices() {
    assert!(Expr::Relative(0).is_contained(1));
    assert!(!Expr::Relative(1).is_contained(1));
    assert!(!Expr::Relative(0).is_contained(0));
    // a binder absorbs one level
    assert!(Expr::Def(Box::new(Expr::Relative(1))).is_contained(1));
    assert!(!Expr::Def(Box::new(Expr::Relative(2))).is_contained(1));
    // atoms are always closed
    assert!(Expr::Label("X".into()).is_contained(0));
    assert!(Expr::Group(vec![]).is_contained(0));
}

#[test]
fn containment_is_monotonic_in_the_cutoff() {
    let expr = Expr::Group(vec![
        Expr::Relative(2),
        Expr::Def(Box::new(Expr::Relative(3))),
    ]);
    let mut seen_true = false;
    for c in 0u32..6 {
        let now = expr.is_contained(c);
        if seen_true {
            assert!(now, "containment lost at larger cutoff {c}");
        }
        seen_true = seen_true || now;
    }
    assert!(seen_true);
}

#[test]
fn number_constructor_matches_parsed_numerals() {
    assert_eq!(
        Expr::from_number(0),
        Expr::Group(vec![Expr::parse("f:x:(x)").unwrap()])
    );
    assert_eq!(
        Expr::from_number(1),
        Expr::Group(vec![Expr::parse("f:x:(f x)").unwrap()])
    );
    assert_eq!(
        Expr::from_number(2),
        Expr::Group(vec![Expr::parse("f:x:(f(f x))").unwrap()])
    );
    assert_eq!(
        Expr::from_number(4),
        Expr::Group(vec![Expr::parse("f:x:(f(f(f(f x))))").unwrap()])
    );
}

#[test]
fn number_constructor_yields_normal_forms() {
    for n in 0..6 {
        let expr = Expr::from_number(n);
        assert!(
            expr.find_beta_reductions().is_empty(),
            "the numeral for {n} should hold no redex"
        );
    }
}
