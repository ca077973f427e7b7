use lambda_man_engine::Expr;

#[test]
fn boolean() {
    println!("true function");
    let mut expr = Expr::Group(vec![
        Expr::Def(Box::new(Expr::Def(Box::new(Expr::Relative(1))))),
        Expr::Label("TRUE".into()),
        Expr::Label("FALSE".into()),
    ]);

    println!("{}", expr.format(0).unwrap());
    println!("{:?}", expr.find_beta_reductions());

    expr.beta_reduction_at(&[0]);

    println!("{}", expr.format(0).unwrap());
    println!("{:?}", expr.find_beta_reductions());

    expr.beta_reduction_at(&[0]);

    println!("{}", expr.format(0).unwrap());
    println!("{:?}", expr.find_beta_reductions());

    assert_eq!(expr, Expr::parse("('TRUE)").unwrap());

    println!("false function");
    let mut expr = Expr::Group(vec![
        Expr::Def(Box::new(Expr::Def(Box::new(Expr::Relative(0))))),
        Expr::Label("TRUE".into()),
        Expr::Label("FALSE".into()),
    ]);

    println!("{}", expr.format(0).unwrap());
    println!("{:?}", expr.find_beta_reductions());

    expr.beta_reduction_at(&[0]);

    println!("{}", expr.format(0).unwrap());
    println!("{:?}", expr.find_beta_reductions());

    expr.beta_reduction_at(&[0]);

    println!("{}", expr.format(0).unwrap());
    println!("{:?}", expr.find_beta_reductions());

    assert_eq!(expr, Expr::parse("('FALSE)").unwrap());
}

#[test]
fn succ() {
    // n:f:x:f (n f x) is the successor function
    let succ = Expr::Def(Box::new(Expr::Def(Box::new(Expr::Def(Box::new(
        Expr::Group(vec![
            Expr::Relative(1),
            Expr::Group(vec![
                Expr::Relative(2),
                Expr::Relative(1),
                Expr::Relative(0),
            ]),
        ]),
    ))))));
    let mut expr = Expr::Group(vec![Expr::Group(vec![succ.clone()]), Expr::from_number(1)]);

    loop {
        println!("{}", expr.format(0).unwrap());

        let betas = expr.find_beta_reductions();
        println!("{betas:?}");

        if betas.is_empty() {
            break;
        }

        let mut max_i = 0;
        let mut last_score = 0;
        for (i, (score, _)) in betas.iter().enumerate() {
            if *score > last_score {
                last_score = *score;
                max_i = i;
            }
        }

        expr.beta_reduction_at(&betas[max_i].1);
    }

    expr.simplify();

    let mut expected = Expr::from_number(2);
    expected.simplify();
    assert_eq!(expr, expected)
}

#[test]
fn add() {
    // n:f:x:f (n f x) is the successor function
    // m:n:(m(n:f:x:(f(nfx))))n is addition

    let succ = Expr::Def(Box::new(Expr::Def(Box::new(Expr::Def(Box::new(
        Expr::Group(vec![
            Expr::Relative(1),
            Expr::Group(vec![
                Expr::Relative(2),
                Expr::Relative(1),
                Expr::Relative(0),
            ]),
        ]),
    ))))));

    let add = Expr::Def(Box::new(Expr::Def(Box::new(Expr::Group(vec![
        Expr::Group(vec![Expr::Relative(1), Expr::Group(vec![succ.clone()])]),
        Expr::Relative(0),
    ])))));

    let mut expr = Expr::Group(vec![
        Expr::Group(vec![add.clone()]),
        Expr::from_number(2),
        Expr::from_number(2),
    ]);

    loop {
        println!("{}", expr.format(0).unwrap());

        let betas = expr.find_beta_reductions();
        println!("{betas:?}");

        if betas.is_empty() {
            break;
        }

        let mut max_i = 0;
        let mut last_score = 0;
        for (i, (score, _)) in betas.iter().enumerate() {
            if *score > last_score {
                last_score = *score;
                max_i = i;
            }
        }

        expr.beta_reduction_at(&betas[max_i].1);
    }

    expr.simplify();

    println!("F: {}", expr.format(0).unwrap());

    let mut expected = Expr::parse("(f:x:(f(f(f(f x)))))").unwrap();
    expected.simplify();
    assert_eq!(expr, expected)
}

#[test]
fn discovery_scores_boolean_selector() {
    let expr = Expr::Group(vec![
        Expr::Def(Box::new(Expr::Def(Box::new(Expr::Relative(1))))),
        Expr::Label("TRUE".into()),
        Expr::Label("FALSE".into()),
    ]);
    let betas = expr.find_beta_reductions();
    // the selector abstraction sits under no binder: priority 0
    assert_eq!(betas, vec![(0, vec![0])]);
}

#[test]
fn discovery_scores_by_binder_depth() {
    // an abstraction applied under one binder carries priority 1
    let expr = Expr::parse("a:((b:b) 'X)").unwrap();
    assert_eq!(expr.find_beta_reductions(), vec![(1, vec![0, 0])]);
}

#[test]
fn discovery_sees_through_wrappers() {
    // the abstraction heads the application through two singleton wrappings
    let mut expr = Expr::parse("(((a:a)) a:a)").unwrap();
    let betas = expr.find_beta_reductions();
    assert_eq!(betas, vec![(0, vec![0, 0, 0])]);
    assert!(expr.beta_reduction_at(&betas[0].1));
}

#[test]
fn discovery_finds_the_head_redex() {
    let succ = Expr::Def(Box::new(Expr::Def(Box::new(Expr::Def(Box::new(
        Expr::Group(vec![
            Expr::Relative(1),
            Expr::Group(vec![
                Expr::Relative(2),
                Expr::Relative(1),
                Expr::Relative(0),
            ]),
        ]),
    ))))));
    let expr = Expr::Group(vec![Expr::Group(vec![succ]), Expr::from_number(1)]);
    let betas = expr.find_beta_reductions();
    assert_eq!(betas, vec![(0, vec![0, 0])]);
}

#[test]
fn every_discovered_path_applies() {
    let add = Expr::parse("a:b:((a c:d:e:(d(c d e))) b)").unwrap();
    let mut expr = Expr::Group(vec![
        Expr::Group(vec![add]),
        Expr::from_number(2),
        Expr::from_number(2),
    ]);
    for _ in 0..64 {
        let betas = expr.find_beta_reductions();
        if betas.is_empty() {
            break;
        }
        for (_, path) in betas.iter() {
            let mut probe = expr.clone();
            assert!(probe.beta_reduction_at(path), "discovered path failed to apply");
        }
        expr.beta_reduction_at(&betas[0].1);
    }
}

#[test]
fn apply_fails_without_argument() {
    let mut expr = Expr::Group(vec![Expr::Def(Box::new(Expr::Relative(0)))]);
    // no argument slot exists, though the path does point at an abstraction
    assert!(!expr.beta_reduction_at(&[0]));
    assert_eq!(expr, Expr::Group(vec![Expr::Def(Box::new(Expr::Relative(0)))]));
    // and discovery accordingly offers nothing
    assert!(expr.find_beta_reductions().is_empty());
}

#[test]
fn apply_fails_on_non_abstraction() {
    let mut expr = Expr::Group(vec![
        Expr::Label("A".into()),
        Expr::Label("B".into()),
    ]);
    assert!(!expr.beta_reduction_at(&[0]));
    assert!(!expr.beta_reduction_at(&[5]));
}

#[test]
fn argument_is_dropped_when_unused() {
    let mut expr = Expr::Group(vec![
        Expr::Def(Box::new(Expr::Label("K".into()))),
        Expr::Label("ARG".into()),
    ]);
    assert!(expr.beta_reduction_at(&[0]));
    assert_eq!(expr, Expr::Group(vec![Expr::Label("K".into())]));
}

#[test]
fn argument_is_duplicated_per_occurrence() {
    // (a:(a a)) 'X reduces to ('X 'X)
    let mut expr = Expr::Group(vec![
        Expr::Def(Box::new(Expr::Group(vec![
            Expr::Relative(0),
            Expr::Relative(0),
        ]))),
        Expr::Label("X".into()),
    ]);
    assert!(expr.beta_reduction_at(&[0]));
    expr.simplify();
    assert_eq!(
        expr,
        Expr::Group(vec![
            Expr::Label("X".into()),
            Expr::Label("X".into()),
        ])
    );
}
