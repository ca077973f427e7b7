use lambda_man_engine::Expr;

#[test]
fn formats_letters_by_depth() {
    assert_eq!(Expr::parse("a:a").unwrap().format(0).unwrap(), "a:a");
    assert_eq!(Expr::parse("x:y:x").unwrap().format(0).unwrap(), "a:b:a");
    assert_eq!(
        Expr::parse("f:x:(f(f x))").unwrap().format(0).unwrap(),
        "a:b:(a (a b))"
    );
}

#[test]
fn formats_starting_at_a_deeper_letter() {
    assert_eq!(Expr::parse("a:a").unwrap().format(2).unwrap(), "c:c");
}

#[test]
fn formats_atoms_and_groups() {
    assert_eq!(
        Expr::parse("('TRUE 'FALSE)").unwrap().format(0).unwrap(),
        "('TRUE 'FALSE)"
    );
    assert_eq!(Expr::parse("()").unwrap().format(0).unwrap(), "()");
}

#[test]
fn dangling_reference_prints_a_sentinel() {
    assert_eq!(Expr::Relative(0).format(0).unwrap(), "!0!");
    assert_eq!(Expr::Relative(5).format(0).unwrap(), "!5!");
    assert_eq!(Expr::Relative(12345).format(0).unwrap(), "!12345!");
    // a bound reference one level in still prints as a letter
    assert_eq!(Expr::Relative(0).format(1).unwrap(), "a");
}

#[test]
fn alphabet_exhaustion_is_a_failure() {
    let mut expr = Expr::Relative(0);
    for _ in 0..27 {
        expr = Expr::Def(Box::new(expr));
    }
    assert_eq!(expr.format(0), None);

    let mut ok = Expr::Relative(0);
    for _ in 0..26 {
        ok = Expr::Def(Box::new(ok));
    }
    assert!(ok.format(0).is_some());
    assert_eq!(ok.format(1), None);
}

#[test]
fn highlight_wraps_only_the_target() {
    let expr = Expr::parse("(a:a 'X)").unwrap();
    // an abstraction target is wrapped twice: its body shares its path
    assert_eq!(
        expr.format_highlightd(0, &[0], "31").unwrap(),
        "(\u{1b}[31ma:\u{1b}[31ma\u{1b}[39m\u{1b}[49m\u{1b}[39m\u{1b}[49m 'X)"
    );
    assert_eq!(
        expr.format_highlightd(0, &[1], "31").unwrap(),
        "(a:a \u{1b}[31m'X\u{1b}[39m\u{1b}[49m)"
    );
    // an empty path highlights the whole term
    assert_eq!(
        expr.format_highlightd(0, &[], "32").unwrap(),
        "\u{1b}[32m(a:a 'X)\u{1b}[39m\u{1b}[49m"
    );
    // a path that matches nothing highlights nothing
    assert_eq!(
        expr.format_highlightd(0, &[7], "31").unwrap(),
        "(a:a 'X)"
    );
}

#[test]
fn highlight_descends_through_abstractions_without_a_step() {
    // the path names application slots only; abstraction bodies are free
    let expr = Expr::parse("a:(a 'X)").unwrap();
    assert_eq!(
        expr.format_highlightd(0, &[1], "31").unwrap(),
        "a:(a \u{1b}[31m'X\u{1b}[39m\u{1b}[49m)"
    );
}
