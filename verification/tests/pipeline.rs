use depcheck::context::{get_index, Context};
use depcheck::decimal::parse_decimal;
use depcheck::elaborate::{convert_expr, universe_level_of};
use depcheck::error::TypeError;
use depcheck::eval::{eval, eval_value};
use depcheck::globals::Item;
use depcheck::term::{Expr, Ident};
use depcheck::{ast, type_check_all, Globals, ProgramParser};

fn run(text: &str) -> (Vec<String>, Option<TypeError>, Globals) {
    let items = ProgramParser::new().parse(text).unwrap();
    let mut globals = Globals::new();
    let report = type_check_all(&mut globals, items, 1000);
    (report.lines, report.failure, globals)
}

fn leaf(head: Ident) -> Expr {
    Expr { arrow_params: vec![], head, tail: vec![] }
}

fn app(head: Ident, tail: Vec<Expr>) -> Expr {
    Expr { arrow_params: vec![], head, tail }
}

#[test]
fn scenario_opaque_identity() {
    let (lines, failure, globals) = run("id : (A: U0) -> A -> A");
    assert!(failure.is_none(), "{:?}", failure);
    assert_eq!(lines, vec!["id: U0 -> x0 -> x0"]);
    assert!(globals.defs[0].def.is_none());
}

#[test]
fn scenario_identity_with_definition() {
    let (lines, failure, globals) = run("id : (A: U0) -> A -> A\nid A x = x");
    assert!(failure.is_none(), "{:?}", failure);
    assert_eq!(lines, vec!["id: U0 -> x0 -> x0"]);
    assert_eq!(globals.names, vec!["id"]);
}

#[test]
fn scenario_constant_combinator() {
    let (lines, failure, _) = run("k : (A: U0) -> (B: U0) -> A -> B -> A\nk A B x y = x");
    assert!(failure.is_none(), "{:?}", failure);
    assert_eq!(lines, vec!["k: U0 -> U0 -> x0 -> x1 -> x0"]);
}

#[test]
fn scenario_type_mismatch() {
    let (lines, failure, _) = run("bad : U0 -> U1\nbad x = x");
    assert!(lines.is_empty());
    match failure {
        Some(TypeError::TypeMismatch { expr, actual, expected }) => {
            assert_eq!(expr.to_string(), "x0");
            assert_eq!(actual.to_string(), "U0");
            assert_eq!(expected.to_string(), "U1");
        }
        other => panic!("{:?}", other),
    }
}

#[test]
fn scenario_name_mismatch() {
    let (_, failure, _) = run("f : (A: U0) -> A -> A\ng A x = x");
    match failure {
        Some(TypeError::NameMismatch { annotation, definition }) => {
            assert_eq!(annotation, "f");
            assert_eq!(definition, "g");
        }
        other => panic!("{:?}", other),
    }
}

#[test]
fn scenario_unknown_identifier() {
    let (_, failure, _) = run("t : q U0");
    match failure {
        Some(TypeError::UnknownIdentifier { name }) => assert_eq!(name, "q"),
        other => panic!("{:?}", other),
    }
}

#[test]
fn the_run_stops_at_the_first_failure_and_keeps_what_passed() {
    let (lines, failure, globals) = run("a : U0\nb : a\nc : b\nd : U0");
    assert_eq!(lines, vec!["a: U0", "b: g0"]);
    assert!(matches!(failure, Some(TypeError::ExpectedUniverse)));
    assert_eq!(globals.names, vec!["a", "b"]);
}

#[test]
fn declared_types_are_evaluated() {
    let text = "id : (A: U2) -> A -> A\nid A x = x\nt : id U1 U0\n";
    let (lines, failure, globals) = run(text);
    assert!(failure.is_none(), "{:?}", failure);
    assert_eq!(lines, vec!["id: U2 -> x0 -> x0", "t: U0"]);
    assert!(globals.defs[1].ty.equals(&Expr::universe(0)));
}

#[test]
fn dependent_application_instantiates_later_binders() {
    let text = "\
id : (A: U0) -> A -> A
id A x = x
N : U0
z : N
one : N
one = id N z
";
    let (lines, failure, _) = run(text);
    assert!(failure.is_none(), "{:?}", failure);
    assert_eq!(lines, vec!["id: U0 -> x0 -> x0", "N: U0", "z: g1", "one: g1"]);
}

#[test]
fn function_types_as_arguments_are_grouped_in_the_text() {
    let text = "\
N : U0
F : (N -> N) -> U0
s : N -> N
G : F s -> U0
";
    let (lines, failure, _) = run(text);
    assert!(failure.is_none(), "{:?}", failure);
    assert_eq!(lines[1], "F: (g0 -> g0) -> U0");
    assert_eq!(lines[3], "G: g1 g2 -> U0");
}

#[test]
fn applied_arguments_are_grouped_in_the_text() {
    let e = app(
        Ident::Global(3),
        vec![app(Ident::Local(1), vec![leaf(Ident::Universe(12))]), leaf(Ident::Local(0))],
    );
    assert_eq!(e.to_string(), "g3 (x1 U12) x0");
    let arrow = Expr {
        arrow_params: vec![app(Ident::Global(0), vec![leaf(Ident::Local(0))])],
        head: Ident::Universe(0),
        tail: vec![],
    };
    assert_eq!(arrow.to_string(), "g0 x0 -> U0");
}

#[test]
fn too_many_arguments_cannot_be_applied() {
    let (_, failure, _) = run("N : U0\nz : N\nt : z z");
    match failure {
        Some(TypeError::NotAFunction { ty }) => assert_eq!(ty.to_string(), "g0"),
        other => panic!("{:?}", other),
    }
}

#[test]
fn a_universe_takes_no_arguments() {
    let (_, failure, _) = run("t : U0 U0");
    assert!(matches!(failure, Some(TypeError::UniverseApplied)));
}

#[test]
fn the_result_of_a_function_type_must_be_a_type() {
    let (_, failure, _) = run("N : U0\nz : N\nt : N -> z");
    assert!(matches!(failure, Some(TypeError::ExpectedUniverseResult)));
}

#[test]
fn a_binder_domain_must_be_a_type() {
    let (_, failure, _) = run("N : U0\nz : N\nt : z -> N");
    assert!(matches!(failure, Some(TypeError::ExpectedUniverse)));
}

#[test]
fn items_that_the_kernel_refuses_by_their_shape() {
    let (_, failure, _) = run("f x = x");
    assert!(matches!(failure, Some(TypeError::MissingAnnotation)));
    let (_, failure, _) = run("f = U0");
    assert!(matches!(failure, Some(TypeError::NotImplemented)));
    let (_, failure, _) = run("f : U1\nf = U0\n  g : U0");
    assert!(matches!(failure, Some(TypeError::NotImplemented)));
    let (_, failure, _) = run("f : U1\nf x = U0");
    assert!(matches!(failure, Some(TypeError::TooManyParameters)));
    let mut globals = Globals::new();
    let empty = ast::Item { annotation: None, definition: None, associated: vec![] };
    let report = type_check_all(&mut globals, vec![empty], 10);
    assert!(matches!(report.failure, Some(TypeError::EmptyItem)));
}

#[test]
fn an_annotation_marked_post_exempts_the_body() {
    let mut items = ProgramParser::new().parse("bad : U0 -> U1\nbad x = x").unwrap();
    items[0].annotation.as_mut().unwrap().is_post = true;
    let mut globals = Globals::new();
    let report = type_check_all(&mut globals, items, 100);
    assert!(report.failure.is_none());
    assert_eq!(report.lines, vec!["bad: U0 -> U1"]);
    assert!(globals.defs[0].def.is_some());
}

#[test]
fn unfolding_without_end_runs_out_of_fuel() {
    let looping = Item { ty: Expr::universe(0), def: Some((0, leaf(Ident::Global(0)))) };
    let globals = vec![looping];
    let r = eval_value(&globals, &leaf(Ident::Global(0)), 0, 50);
    assert!(matches!(r, Err(TypeError::OutOfFuel)));
    let mut e = leaf(Ident::Global(0));
    assert!(eval(&globals, &mut e, 0, 3).is_err());
    assert!(e.equals(&leaf(Ident::Global(0))));
}

#[test]
fn evaluation_is_idempotent_on_an_example() {
    let id = Item {
        ty: Expr {
            arrow_params: vec![Expr::universe(2), leaf(Ident::Local(0))],
            head: Ident::Local(0),
            tail: vec![],
        },
        def: Some((2, leaf(Ident::Local(1)))),
    };
    let globals = vec![id];
    let e = app(
        Ident::Global(0),
        vec![
            Expr::universe(1),
            app(Ident::Global(0), vec![Expr::universe(1), Expr::universe(0)]),
        ],
    );
    let once = eval_value(&globals, &e, 0, 10).unwrap();
    assert!(once.equals(&Expr::universe(0)));
    let twice = eval_value(&globals, &once, 0, 10).unwrap();
    assert!(twice.equals(&once));
}

#[test]
fn a_global_that_is_not_in_the_table_is_unbound() {
    let globals: Vec<Item> = vec![];
    let r = eval_value(&globals, &leaf(Ident::Global(7)), 0, 5);
    assert!(matches!(r, Err(TypeError::UnboundGlobal { index: 7 })));
}

#[test]
fn names_resolve_to_the_innermost_binder() {
    let names = vec!["x".to_string(), "y".to_string(), "x".to_string()];
    assert_eq!(get_index(&names, &"x".to_string()), Some(2));
    assert_eq!(get_index(&names, &"y".to_string()), Some(1));
    assert_eq!(get_index(&names, &"z".to_string()), None);
    let outer = Context::new(&names[..2]);
    let inner = outer.push(&names[2..]);
    assert_eq!(inner.size(), 3);
    assert_eq!(inner.index_from_value(&"x".to_string()), Some(2));
    assert_eq!(inner.index_from_value(&"y".to_string()), Some(1));
    assert_eq!(inner.index_from_value(&"q".to_string()), None);
    assert_eq!(inner.value_from_index(1), "y");
    assert_eq!(inner.value_from_index(2), "x");
}

#[test]
fn a_shadowing_frame_hides_the_indices_above_its_start() {
    let below = vec![10u32, 11, 12];
    let above = vec![20u32];
    let outer = Context::new(&below[..]);
    let inner = outer.push_shadowed(&above[..], 1);
    assert_eq!(inner.size(), 2);
    assert_eq!(*inner.value_from_index(0), 10);
    assert_eq!(*inner.value_from_index(1), 20);
}

#[test]
fn universe_names() {
    assert_eq!(universe_level_of(&"U0".to_string()), Some(0));
    assert_eq!(universe_level_of(&"U007".to_string()), Some(7));
    assert_eq!(universe_level_of(&"U12".to_string()), Some(12));
    assert_eq!(universe_level_of(&"U".to_string()), None);
    assert_eq!(universe_level_of(&"U+1".to_string()), None);
    assert_eq!(universe_level_of(&"U1a".to_string()), None);
    assert_eq!(universe_level_of(&"V1".to_string()), None);
    assert_eq!(universe_level_of(&"".to_string()), None);
    assert_eq!(universe_level_of(&"U99999999999999999999999999".to_string()), None);
    assert_eq!(parse_decimal("x18446744073709551615", 1), Some(18446744073709551615));
    assert_eq!(parse_decimal("18446744073709551616", 0), None);
}

#[test]
fn no_written_name_refers_to_an_unnamed_binder() {
    let globals: Vec<String> = vec![];
    let none: Vec<String> = vec![];
    let typ = ast::Expr::Arrow(ast::ArrowExpr {
        params: vec![(
            None,
            ast::Expr::Alg(ast::AlgExpr { head: "U0".to_string(), tail: vec![] }),
        )],
        output: Box::new(ast::Expr::Alg(ast::AlgExpr { head: "_".to_string(), tail: vec![] })),
    });
    match convert_expr(&globals, &Context::new(&none[..]), &typ) {
        Err(TypeError::UnknownIdentifier { name }) => assert_eq!(name, "_"),
        other => panic!("{:?}", other),
    }
    let (_, failure, _) = run("t : U0 -> _");
    match failure {
        Some(TypeError::UnknownIdentifier { name }) => assert_eq!(name, "_"),
        other => panic!("{:?}", other),
    }
}

#[test]
fn a_binder_written_with_an_underscore_can_be_referred_to() {
    let (lines, failure, _) = run("t : (_: U0) -> _");
    assert!(failure.is_none(), "{:?}", failure);
    assert_eq!(lines, vec!["t: U0 -> x0"]);
    let (lines, failure, globals) = run("id : (A: U0) -> A -> A\nid A _ = _");
    assert!(failure.is_none(), "{:?}", failure);
    assert_eq!(lines, vec!["id: U0 -> x0 -> x0"]);
    let (_, body) = globals.defs[0].def.as_ref().unwrap();
    assert!(body.equals(&leaf(Ident::Local(1))));
}

#[test]
fn locals_shadow_globals_and_globals_shadow_universes() {
    let globals = vec!["A".to_string(), "U1".to_string()];
    let locals = vec!["A".to_string()];
    let e = ast::Expr::Alg(ast::AlgExpr {
        head: "A".to_string(),
        tail: vec![
            ast::Expr::Alg(ast::AlgExpr { head: "U1".to_string(), tail: vec![] }),
            ast::Expr::Alg(ast::AlgExpr { head: "U2".to_string(), tail: vec![] }),
        ],
    });
    let r = convert_expr(&globals, &Context::new(&locals[..]), &e).unwrap();
    assert!(r.equals(&app(
        Ident::Local(0),
        vec![leaf(Ident::Global(1)), leaf(Ident::Universe(2))]
    )));
}

#[test]
fn a_local_outside_the_context_is_unbound() {
    let globals: Vec<Item> = vec![];
    let none: Vec<Expr> = vec![];
    let r = depcheck::check::calculate_type(&globals, &Context::new(&none[..]), &leaf(Ident::Local(5)), 5);
    assert!(matches!(r, Err(TypeError::UnboundLocal { index: 5 })));
    let r = depcheck::check::calculate_type(&globals, &Context::new(&none[..]), &leaf(Ident::Global(5)), 5);
    assert!(matches!(r, Err(TypeError::UnboundGlobal { index: 5 })));
    let top = leaf(Ident::Universe(usize::MAX));
    let r = depcheck::check::calculate_type(&globals, &Context::new(&none[..]), &top, 5);
    assert!(matches!(r, Err(TypeError::IndexOverflow)));
    let r = depcheck::check::sort_check_expr(&globals, &Context::new(&none[..]), &Expr::universe(4), 5);
    assert_eq!(r.unwrap(), 5);
}

#[test]
fn a_checked_body_has_the_type_left_after_the_parameters() {
    let (_, failure, globals) = run("k : (A: U0) -> (B: U0) -> A -> B -> A\nk A B x y = x");
    assert!(failure.is_none(), "{:?}", failure);
    let item = &globals.defs[0];
    let (arity, body) = item.def.as_ref().unwrap();
    assert_eq!(*arity, 4);
    let bindings: Vec<Expr> = item.ty.arrow_params[..*arity].to_vec();
    let rest = Expr {
        arrow_params: item.ty.arrow_params[*arity..].to_vec(),
        head: item.ty.head,
        tail: item.ty.tail.clone(),
    };
    let no_globals: Vec<Item> = vec![];
    let found =
        depcheck::check::calculate_type(&no_globals, &Context::new(&bindings[..]), body, 10)
            .unwrap();
    assert!(found.equals(&rest));
    assert_eq!(found.to_string(), "x0");
}

#[test]
fn the_table_only_grows() {
    let mut globals = Globals::new();
    let first = ProgramParser::new().parse("a : U0").unwrap();
    assert!(type_check_all(&mut globals, first, 10).failure.is_none());
    let second = ProgramParser::new().parse("b : a\nc : q").unwrap();
    let report = type_check_all(&mut globals, second, 10);
    assert!(report.failure.is_some());
    assert_eq!(globals.names, vec!["a", "b"]);
    assert_eq!(globals.defs.len(), 2);
    assert!(globals.defs[1].ty.equals(&leaf(Ident::Global(0))));
}

#[test]
fn unfolding_puts_the_binders_of_the_body_in_front() {
    let arrow = |domain: Expr, result: Ident| Expr {
        arrow_params: vec![domain],
        head: result,
        tail: vec![],
    };
    let family = Item {
        ty: Expr::universe(1),
        def: Some((0, arrow(Expr::universe(5), Ident::Universe(0)))),
    };
    let globals = vec![family];
    let e = arrow(Expr::universe(6), Ident::Global(0));
    let r = eval_value(&globals, &e, 0, 5).unwrap();
    let want = Expr {
        arrow_params: vec![Expr::universe(5), Expr::universe(6)],
        head: Ident::Universe(0),
        tail: vec![],
    };
    assert!(r.equals(&want), "{}", r.to_string());
    let again = eval_value(&globals, &r, 3, 1).unwrap();
    assert!(again.equals(&r));
}
