use lambda_man_engine::Expr;

#[test]
fn parses_identity() {
    assert_eq!(
        Expr::parse("a:a").unwrap(),
        Expr::Def(Box::new(Expr::Relative(0)))
    );
}

#[test]
fn parses_nested_binders_with_shadowing() {
    // the inner binder with the same name wins
    assert_eq!(
        Expr::parse("x:x:x").unwrap(),
        Expr::Def(Box::new(Expr::Def(Box::new(Expr::Relative(0)))))
    );
}

#[test]
fn parses_de_bruijn_indices() {
    assert_eq!(
        Expr::parse("x:y:x").unwrap(),
        Expr::Def(Box::new(Expr::Def(Box::new(Expr::Relative(1)))))
    );
    assert_eq!(
        Expr::parse("x:y:y").unwrap(),
        Expr::Def(Box::new(Expr::Def(Box::new(Expr::Relative(0)))))
    );
}

#[test]
fn parses_application_group() {
    assert_eq!(
        Expr::parse("f:x:(f(f x))").unwrap(),
        Expr::Def(Box::new(Expr::Def(Box::new(Expr::Group(vec![
            Expr::Relative(1),
            Expr::Group(vec![Expr::Relative(1), Expr::Relative(0)]),
        ])))))
    );
}

#[test]
fn parses_atom_literal() {
    assert_eq!(
        Expr::parse("('TRUE)").unwrap(),
        Expr::Group(vec![Expr::Label("TRUE".into())])
    );
    // atom names run until whitespace or a parenthesis
    assert_eq!(
        Expr::parse("('a1:b x:x)").unwrap(),
        Expr::Group(vec![
            Expr::Label("a1:b".into()),
            Expr::Def(Box::new(Expr::Relative(0))),
        ])
    );
}

#[test]
fn leading_whitespace_is_skipped() {
    assert_eq!(
        Expr::parse("   a:a").unwrap(),
        Expr::Def(Box::new(Expr::Relative(0)))
    );
}

#[test]
fn unbound_name_fails_at_top_level() {
    assert!(Expr::parse("x").is_none());
}

#[test]
fn unbound_name_fails_under_binders() {
    assert!(Expr::parse("a:b").is_none());
    assert!(Expr::parse("a:b:c:(a b zz)").is_none());
    assert!(Expr::parse("a:(a (b:b) c)").is_none());
}

#[test]
fn shadowed_name_is_gone_outside_its_binder() {
    // y is bound only inside the inner abstraction
    assert!(Expr::parse("x:((y:y) y)").is_none());
}

#[test]
fn empty_and_malformed_inputs_fail() {
    assert!(Expr::parse("").is_none());
    assert!(Expr::parse("   ").is_none());
    assert!(Expr::parse(")").is_none());
    assert!(Expr::parse("5").is_none());
    assert!(Expr::parse("x:").is_none());
}

#[test]
fn unterminated_group_fails() {
    assert!(Expr::parse("(x:x").is_none());
    assert!(Expr::parse("(x:x (y:y)").is_none());
}

#[test]
fn empty_group_parses() {
    assert_eq!(Expr::parse("()").unwrap(), Expr::Group(vec![]));
}

#[test]
fn text_after_first_term_is_ignored() {
    assert_eq!(
        Expr::parse("(x:x) y:y").unwrap(),
        Expr::Group(vec![Expr::Def(Box::new(Expr::Relative(0)))])
    );
}

#[test]
fn digits_inside_names_are_skipped() {
    // non-alphabetic characters are consumed but do not join the name
    assert_eq!(
        Expr::parse("ab1c:ab1c").unwrap(),
        Expr::parse("abc:abc").unwrap()
    );
}

#[test]
fn parse_failures_carry_the_offending_position() {
    // an unbound name is reported at its first character
    assert_eq!(Expr::parse_located("x"), Err(0));
    assert_eq!(Expr::parse_located("a:b"), Err(2));
    assert_eq!(Expr::parse_located("a:b:c:(a b zz)"), Err(11));
    // an unusable character is reported where it stands
    assert_eq!(Expr::parse_located("5"), Err(0));
    assert_eq!(Expr::parse_located(")"), Err(0));
    // input ending too early points just past its end
    assert_eq!(Expr::parse_located(""), Err(0));
    assert_eq!(Expr::parse_located("x:"), Err(2));
    assert_eq!(Expr::parse_located("(x:x"), Err(4));
    // and a parse that succeeds reports nothing
    assert_eq!(Expr::parse_located("a:a"), Ok(Expr::Def(Box::new(Expr::Relative(0)))));
}

#[test]
fn round_trip_through_printer() {
    let cases = ["a:a", "a:b:a", "a:b:(a (a b))", "('X a:a)"];
    for text in cases {
        let expr = Expr::parse(text).unwrap();
        let printed = expr.format(0).unwrap();
        let reparsed = Expr::parse(&printed).unwrap();
        assert_eq!(expr, reparsed, "{text} -> {printed}");
    }
}
