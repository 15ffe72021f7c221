use depcheck::ast;
use depcheck::driver::{type_check_all, type_check_function, SUMMARY};
use depcheck::error::TypeError;
use depcheck::globals::Globals;
use depcheck::subst::{deepen, subst};
use depcheck::term::{Expr, Ident};

fn alg(head: &str, tail: Vec<ast::Expr>) -> ast::Expr {
    ast::Expr::Alg(ast::AlgExpr { head: head.to_string(), tail })
}

fn name(head: &str) -> ast::Expr {
    alg(head, vec![])
}

fn arrow(params: Vec<(Option<&str>, ast::Expr)>, output: ast::Expr) -> ast::Expr {
    ast::Expr::Arrow(ast::ArrowExpr {
        params: params.into_iter().map(|(n, t)| (n.map(|s| s.to_string()), t)).collect(),
        output: Box::new(output),
    })
}

fn annotation(n: &str, typ: ast::Expr) -> ast::Annotation {
    ast::Annotation { is_post: false, name: n.to_string(), typ }
}

fn function(n: &str, vars: &[&str], body: ast::Expr) -> ast::Function {
    ast::Function {
        fname: n.to_string(),
        vars: vars.iter().map(|s| s.to_string()).collect(),
        body,
    }
}

fn item(a: Option<ast::Annotation>, d: Option<ast::Function>) -> ast::Item {
    ast::Item { annotation: a, definition: d, associated: vec![] }
}

fn id_type() -> ast::Expr {
    arrow(vec![(Some("A"), name("U0")), (None, name("A"))], name("A"))
}

fn local(i: usize) -> Expr {
    Expr { arrow_params: vec![], head: Ident::Local(i), tail: vec![] }
}

#[test]
fn deepen_by_zero_is_identity() {
    let e = Expr {
        arrow_params: vec![Expr::universe(0)],
        head: Ident::Local(3),
        tail: vec![local(0)],
    };
    let r = deepen(&e, 1, 0).unwrap();
    assert!(r.equals(&e));
}

#[test]
fn deepen_moves_locals_at_or_above_the_context() {
    let e = Expr { arrow_params: vec![local(1)], head: Ident::Local(2), tail: vec![local(5)] };
    let r = deepen(&e, 2, 3).unwrap();
    let want = Expr { arrow_params: vec![local(1)], head: Ident::Local(5), tail: vec![local(8)] };
    assert!(r.equals(&want));
}

#[test]
fn subst_of_nothing_keeps_a_closed_term() {
    let e = Expr { arrow_params: vec![local(0)], head: Ident::Local(1), tail: vec![local(0)] };
    let r = subst(&e, 2, 0, &[], 7).unwrap();
    assert!(r.equals(&e));
}

#[test]
fn subst_replaces_the_window_and_reseats_the_rest() {
    let e = Expr { arrow_params: vec![], head: Ident::Local(0), tail: vec![local(1), local(2)] };
    let args = vec![Expr { arrow_params: vec![], head: Ident::Global(4), tail: vec![local(9)] }];
    let r = subst(&e, 1, 0, &args, 5).unwrap();
    let want = Expr {
        arrow_params: vec![],
        head: Ident::Local(0),
        tail: vec![
            Expr { arrow_params: vec![], head: Ident::Global(4), tail: vec![local(9)] },
            local(5),
        ],
    };
    assert!(r.equals(&want));
}

#[test]
fn opaque_identity_is_accepted() {
    let mut globals = Globals::new();
    let report =
        type_check_all(&mut globals, vec![item(Some(annotation("id", id_type())), None)], 100);
    assert!(report.failure.is_none());
    assert_eq!(report.lines, vec!["id: U0 -> x0 -> x0".to_string()]);
    assert_eq!(globals.names, vec!["id".to_string()]);
    assert!(globals.defs[0].def.is_none());
}

#[test]
fn identity_with_definition_is_accepted() {
    let mut globals = Globals::new();
    let program = vec![item(
        Some(annotation("id", id_type())),
        Some(function("id", &["A", "x"], name("x"))),
    )];
    let report = type_check_all(&mut globals, program, 100);
    assert!(report.failure.is_none(), "{:?}", report.failure);
    assert_eq!(report.lines, vec!["id: U0 -> x0 -> x0".to_string()]);
    let (arity, body) = globals.defs[0].def.as_ref().unwrap();
    assert_eq!(*arity, 2);
    assert!(body.equals(&local(1)));
    assert_eq!(SUMMARY, "Successfully type-checked all items!");
}

#[test]
fn constant_combinator_is_accepted() {
    let mut globals = Globals::new();
    let ty = arrow(
        vec![
            (Some("A"), name("U0")),
            (Some("B"), name("U0")),
            (None, name("A")),
            (None, name("B")),
        ],
        name("A"),
    );
    let program = vec![item(
        Some(annotation("k", ty)),
        Some(function("k", &["A", "B", "x", "y"], name("x"))),
    )];
    let report = type_check_all(&mut globals, program, 100);
    assert!(report.failure.is_none(), "{:?}", report.failure);
    assert_eq!(report.lines, vec!["k: U0 -> U0 -> x0 -> x1 -> x0".to_string()]);
}

#[test]
fn body_of_the_wrong_type_is_a_mismatch() {
    let mut globals = Globals::new();
    let ty = arrow(vec![(None, name("U0"))], name("U1"));
    let program =
        vec![item(Some(annotation("bad", ty)), Some(function("bad", &["x"], name("x"))))];
    let report = type_check_all(&mut globals, program, 100);
    match report.failure {
        Some(TypeError::TypeMismatch { expr, actual, expected }) => {
            assert!(expr.equals(&local(0)));
            assert!(actual.equals(&Expr::universe(0)));
            assert!(expected.equals(&Expr::universe(1)));
        }
        other => panic!("{:?}", other),
    }
    assert!(report.lines.is_empty());
    assert!(globals.names.is_empty());
}

#[test]
fn definition_under_another_name_is_refused() {
    let globals = Globals::new();
    let it = item(
        Some(annotation("f", id_type())),
        Some(function("g", &["A", "x"], name("x"))),
    );
    match type_check_function(&globals, &it, 100) {
        Err(TypeError::NameMismatch { annotation, definition }) => {
            assert_eq!(annotation, "f");
            assert_eq!(definition, "g");
        }
        other => panic!("{:?}", other.map(|p| p.0)),
    }
}

#[test]
fn unbound_head_is_an_unknown_identifier() {
    let globals = Globals::new();
    let it = item(Some(annotation("t", alg("q", vec![name("U0")]))), None);
    match type_check_function(&globals, &it, 100) {
        Err(TypeError::UnknownIdentifier { name }) => assert_eq!(name, "q"),
        other => panic!("{:?}", other.map(|p| p.0)),
    }
}

#[test]
fn insert_splices_binders_head_and_arguments() {
    let mut this = Expr { arrow_params: vec![local(0)], head: Ident::Local(9), tail: vec![local(1)] };
    let other = Expr { arrow_params: vec![], head: Ident::Global(2), tail: vec![local(3)] };
    this.insert(other).unwrap();
    let want = Expr {
        arrow_params: vec![local(0)],
        head: Ident::Global(2),
        tail: vec![local(3), local(1)],
    };
    assert!(this.equals(&want));
}

#[test]
fn insert_refuses_arrows_and_universes_in_front_of_arguments() {
    let mut this = Expr { arrow_params: vec![], head: Ident::Local(0), tail: vec![local(1)] };
    let before = this.clone();
    let arrow = Expr { arrow_params: vec![local(0)], head: Ident::Local(1), tail: vec![] };
    assert!(matches!(this.insert(arrow), Err(TypeError::ArrowInHead)));
    assert!(this.equals(&before));
    assert!(matches!(this.insert(Expr::universe(0)), Err(TypeError::ArrowInHead)));
    assert!(this.equals(&before));
    let mut bare = Expr { arrow_params: vec![], head: Ident::Local(0), tail: vec![] };
    bare.insert(Expr::universe(4)).unwrap();
    assert!(bare.equals(&Expr::universe(4)));
}

#[test]
fn subst_of_an_arrow_into_an_applied_head_fails() {
    let base = Expr { arrow_params: vec![], head: Ident::Local(0), tail: vec![local(1)] };
    let arrow = Expr { arrow_params: vec![Expr::universe(0)], head: Ident::Universe(0), tail: vec![] };
    assert!(matches!(subst(&base, 0, 0, &[arrow, local(0)], 0), Err(TypeError::ArrowInHead)));
}

#[test]
fn subst_weakens_arguments_under_the_binders_it_passes() {
    let base = Expr { arrow_params: vec![local(0)], head: Ident::Local(0), tail: vec![] };
    let arg = local(3);
    let r = subst(&base, 0, 0, &[arg], 2).unwrap();
    let want = Expr { arrow_params: vec![local(3)], head: Ident::Local(4), tail: vec![] };
    assert!(r.equals(&want));
}

#[test]
fn indices_that_leave_the_range_are_refused() {
    let e = local(usize::MAX);
    assert!(matches!(deepen(&e, 0, 1), Err(TypeError::IndexOverflow)));
    assert!(deepen(&e, 0, 0).unwrap().equals(&e));
    let r = subst(&local(5), 0, 0, &[], usize::MAX);
    assert!(matches!(r, Err(TypeError::IndexOverflow)));
}

#[test]
fn equality_is_structural() {
    let a = Expr { arrow_params: vec![local(0)], head: Ident::Local(1), tail: vec![local(2)] };
    let b = a.clone();
    assert!(a.equals(&b));
    let c = Expr { arrow_params: vec![local(0)], head: Ident::Local(1), tail: vec![local(3)] };
    assert!(!a.equals(&c));
    let d = Expr { arrow_params: vec![], head: Ident::Local(1), tail: vec![local(2)] };
    assert!(!a.equals(&d));
    assert!(!leaf_global(1).equals(&local(1)));
    assert_eq!(Expr::universe(3).universe_level(), Some(3));
    assert_eq!(a.universe_level(), None);
    assert_eq!(local(0).universe_level(), None);
}

fn leaf_global(i: usize) -> Expr {
    Expr { arrow_params: vec![], head: Ident::Global(i), tail: vec![] }
}

#[test]
fn insert_puts_the_binders_of_the_other_term_in_front() {
    let mut this = Expr { arrow_params: vec![local(0), local(1)], head: Ident::Local(9), tail: vec![] };
    let other = Expr { arrow_params: vec![local(5)], head: Ident::Global(2), tail: vec![local(3)] };
    this.insert(other).unwrap();
    let want = Expr {
        arrow_params: vec![local(5), local(0), local(1)],
        head: Ident::Global(2),
        tail: vec![local(3)],
    };
    assert!(this.equals(&want));
}

#[test]
fn subst_of_an_arrow_puts_its_binders_in_front() {
    let base = Expr { arrow_params: vec![Expr::universe(0)], head: Ident::Local(0), tail: vec![] };
    let arg = Expr { arrow_params: vec![Expr::universe(1)], head: Ident::Universe(2), tail: vec![] };
    let r = subst(&base, 0, 0, &[arg], 0).unwrap();
    let want = Expr {
        arrow_params: vec![Expr::universe(1), Expr::universe(0)],
        head: Ident::Universe(2),
        tail: vec![],
    };
    assert!(r.equals(&want));
}

#[test]
fn a_closed_term_is_kept_whatever_the_counts() {
    let e = Expr { arrow_params: vec![local(0)], head: Ident::Local(1), tail: vec![local(0)] };
    let r = subst(&e, 2, usize::MAX, &[local(7)], usize::MAX).unwrap();
    assert!(r.equals(&e));
}
