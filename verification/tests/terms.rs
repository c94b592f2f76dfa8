use icfp::errors::TokenError;
use icfp::expr;
use icfp::{get_expr_from_toks, parse_expr, parse_toks, Expr, Tok};

#[test]
fn test_display_expr() {
    assert_eq!(expr::litstr("Hello World!").render(), "SB%,,/}Q/2,$_".to_string());
    assert_eq!(expr::add(expr::litnum(2), expr::litnum(3)).render(), "B+ I# I$".to_string());
}

#[test]
fn render_each_token_kind() {
    assert_eq!(expr::litbool(true).render(), "T".to_string());
    assert_eq!(expr::litbool(false).render(), "F".to_string());
    assert_eq!(expr::litnum(0).render(), "I!".to_string());
    assert_eq!(Expr::Unop('-', Box::new(Expr::Int(3))).render(), "U- I$".to_string());
    assert_eq!(
        expr::cond(expr::litbool(true), expr::litnum(1), expr::litnum(2)).render(),
        "? T I\" I#".to_string()
    );
    assert_eq!(Expr::Lam(0, Box::new(Expr::Var(0))).render(), "L! v!".to_string());
}

#[test]
fn render_binary_operators() {
    let two = || expr::litnum(2);
    let three = || expr::litnum(3);
    assert_eq!(expr::mul(two(), three()).render(), "B* I# I$".to_string());
    assert_eq!(expr::sub(three(), two()).render(), "B- I$ I#".to_string());
    assert_eq!(expr::div(three(), two()).render(), "B/ I$ I#".to_string());
    assert_eq!(expr::modulus(three(), two()).render(), "B% I$ I#".to_string());
    assert_eq!(expr::concat(two(), three()).render(), "B. I# I$".to_string());
    assert_eq!(expr::equ(two(), three()).render(), "B= I# I$".to_string());
    assert_eq!(expr::app(two(), three()).render(), "B$ I# I$".to_string());
}

#[test]
fn parse_rebuilds_rendered_term() {
    let original = expr::add(expr::litnum(2), expr::litnum(3));
    let text = original.render();
    assert_eq!(text, "B+ I# I$".to_string());
    let back = parse_expr(&text).unwrap();
    assert_eq!(back, original);
}

#[test]
fn parse_round_trips_nested_terms() {
    let t = expr::cond(
        expr::equ(expr::vuse("n"), expr::litnum(1)),
        expr::litstr("yes"),
        expr::app(expr::ycomb(), expr::litstr("no")),
    );
    let text = t.render();
    let back = parse_expr(&text).unwrap();
    assert_eq!(back, t);
}

#[test]
fn parse_binop_missing_operand_fails() {
    let toks = parse_toks("B+ I#").unwrap();
    assert_eq!(
        get_expr_from_toks(&toks, 0).unwrap_err(),
        TokenError::UnexpectedEndOfStream(2)
    );
    assert_eq!(parse_expr("B+ I#").unwrap_err(), TokenError::UnexpectedEndOfStream(2));
}

#[test]
fn parse_empty_stream_fails() {
    let toks: Vec<Tok> = vec![];
    assert_eq!(
        get_expr_from_toks(&toks, 0).unwrap_err(),
        TokenError::UnexpectedEndOfStream(0)
    );
}

#[test]
fn parse_ignores_trailing_tokens() {
    let e = parse_expr("I/6 T F").unwrap();
    assert_eq!(e, Expr::Int(1337));
}

#[test]
fn parse_reports_first_bad_token() {
    assert_eq!(parse_expr("B+ Z I$").unwrap_err(), TokenError::UnknownTokenTag(b'Z'));
}

#[test]
fn name_ids_read_as_base94() {
    assert_eq!(expr::name_to_id("f"), 69);
    assert_eq!(expr::name_to_id("x"), 87);
    assert_eq!(expr::name_to_id("/6"), 1337);
}

#[test]
fn single_letter_names_render_as_themselves() {
    assert_eq!(expr::vuse("f").render(), "vf".to_string());
    assert_eq!(expr::lam("x", expr::vuse("x")).render(), "Lx vx".to_string());
}

#[test]
fn ycomb_renders_as_literal_structure() {
    assert_eq!(
        expr::ycomb().render(),
        "Lf B$ Lx B$ vf B$ vx vx Lx B$ vf B$ vx vx".to_string()
    );
}

#[test]
fn rec_wraps_body_under_the_fixed_point() {
    let t = expr::rec("r", expr::vuse("r"));
    assert_eq!(
        t.render(),
        "B$ Lf B$ Lx B$ vf B$ vx vx Lx B$ vf B$ vx vx Lr vr".to_string()
    );
}

#[test]
fn app_spine_applies_left_to_right() {
    let t = expr::app_spine(
        expr::vuse("f"),
        vec![expr::litnum(1), expr::litnum(2), expr::litnum(3)],
    );
    assert_eq!(t.render(), "B$ B$ B$ vf I\" I# I$".to_string());
}

#[test]
fn let1_is_an_applied_abstraction() {
    let t = expr::let1("x", expr::litnum(7), expr::vuse("x"));
    assert_eq!(t.render(), "B$ Lx vx I(".to_string());
}

#[test]
fn let_bind_nests_outer_to_inner() {
    let t = expr::let_bind(
        vec![("x", expr::litnum(1)), ("y", expr::litnum(2))],
        expr::add(expr::vuse("x"), expr::vuse("y")),
    );
    assert_eq!(t.render(), "B$ Lx B$ Ly B+ vx vy I# I\"".to_string());
    let empty = expr::let_bind(vec![], expr::litnum(5));
    assert_eq!(empty, Expr::Int(5));
}

#[test]
fn flattened_token_count_matches_tree_shape() {
    // Each node of the tree emits exactly one token, so the flattened form
    // of a term is as long as its tree has nodes.
    let mut toks: Vec<Tok> = Vec::new();
    expr::ycomb().to_toks(&mut toks);
    assert_eq!(toks.len(), 14);

    let mut toks: Vec<Tok> = Vec::new();
    expr::repeat().to_toks(&mut toks);
    assert_eq!(toks.len(), 32);

    let mut toks: Vec<Tok> = Vec::new();
    expr::let_bind(
        vec![("a", expr::litnum(1))],
        expr::app_spine(expr::vuse("a"), vec![expr::litnum(2), expr::litnum(3)]),
    )
    .to_toks(&mut toks);
    // Node by node: B$ La B$ B$ va I# I$ I" has one token per tree node.
    assert_eq!(toks.len(), 8);
}

#[test]
fn repeat_renders_to_the_expected_stream() {
    let text = expr::repeat().render();
    assert_eq!(
        text,
        "B$ Lf B$ Lx B$ vf B$ vx vx Lx B$ vf B$ vx vx Lr Ls Ln ? B= vn I\" vs B. vs B$ B$ vr vs B- vn I\""
            .to_string()
    );
    let back = parse_expr(&text).unwrap();
    assert_eq!(back, expr::repeat());
}

#[test]
fn to_toks_appends_after_existing_tokens() {
    let mut toks = vec![Tok::If];
    expr::litnum(2).to_toks(&mut toks);
    assert_eq!(toks, vec![Tok::If, Tok::Int(2)]);
}
