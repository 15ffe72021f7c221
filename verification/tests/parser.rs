use depcheck::ast;
use depcheck::indent_parser::{
    concat_lines, count_indent, find_line, split_indenting, split_lines, strip_comment,
};
use depcheck::lexer::{lex, LineError, Token};
use depcheck::line_parser::parse_line;
use depcheck::ProgramParser;

fn strings(xs: &[&str]) -> Vec<String> {
    xs.iter().map(|s| s.to_string()).collect()
}

fn show(e: &ast::Expr) -> String {
    match e {
        ast::Expr::Alg(a) => {
            let mut s = a.head.clone();
            for t in &a.tail {
                s.push(' ');
                s.push_str(&format!("[{}]", show(t)));
            }
            s
        }
        ast::Expr::Arrow(a) => {
            let mut s = String::new();
            for (n, t) in &a.params {
                match n {
                    Some(n) => s.push_str(&format!("({}: {}) -> ", n, show(t))),
                    None => s.push_str(&format!("<{}> -> ", show(t))),
                }
            }
            s.push_str(&show(&a.output));
            s
        }
    }
}

#[test]
fn lexer_splits_names_and_symbols() {
    let ts = lex("f : (x1: A') -> B_2").unwrap();
    let shown: Vec<String> = ts
        .iter()
        .map(|t| match t {
            Token::Ident(s) => s.clone(),
            Token::Colon => ":".to_string(),
            Token::Arrow => "->".to_string(),
            Token::Equals => "=".to_string(),
            Token::Open => "(".to_string(),
            Token::Close => ")".to_string(),
        })
        .collect();
    assert_eq!(shown, strings(&["f", ":", "(", "x1", ":", "A'", ")", "->", "B_2"]));
}

#[test]
fn lexer_refuses_a_lone_dash_and_strange_characters() {
    assert_eq!(lex("a - b").unwrap_err(), LineError::UnexpectedChar { at: 2 });
    assert_eq!(lex("a -").unwrap_err(), LineError::UnexpectedChar { at: 2 });
    assert_eq!(lex("x = y + z").unwrap_err(), LineError::UnexpectedChar { at: 6 });
    assert!(lex("").unwrap().is_empty());
    assert!(lex(" \t ").unwrap().is_empty());
}

#[test]
fn annotation_line_with_named_and_unnamed_binders() {
    match parse_line("f : (x1: A) -> B x1 -> C").unwrap() {
        ast::Line::Annotation(a) => {
            assert_eq!(a.name, "f");
            assert!(!a.is_post);
            assert_eq!(show(&a.typ), "(x1: A) -> <B [x1]> -> C");
        }
        other => panic!("{:?}", other),
    }
}

#[test]
fn definition_line_with_nested_applications() {
    match parse_line("f x1 x2 x3 = a (b c (d e) f) g h").unwrap() {
        ast::Line::Function(d) => {
            assert_eq!(d.fname, "f");
            assert_eq!(d.vars, strings(&["x1", "x2", "x3"]));
            assert_eq!(show(&d.body), "a [b [c] [d [e]] [f]] [g] [h]");
        }
        other => panic!("{:?}", other),
    }
}

#[test]
fn definition_without_parameters() {
    match parse_line("two = succ one").unwrap() {
        ast::Line::Function(d) => {
            assert_eq!(d.fname, "two");
            assert!(d.vars.is_empty());
            assert_eq!(show(&d.body), "succ [one]");
        }
        other => panic!("{:?}", other),
    }
}

#[test]
fn parenthesised_arrows_nest() {
    match parse_line("t : (A -> B) -> (C -> D)").unwrap() {
        ast::Line::Annotation(a) => {
            assert_eq!(show(&a.typ), "<<A> -> B> -> <C> -> D");
            match a.typ {
                ast::Expr::Arrow(outer) => {
                    assert_eq!(outer.params.len(), 1);
                    assert!(matches!(*outer.output, ast::Expr::Arrow(_)));
                }
                other => panic!("{:?}", other),
            }
        }
        other => panic!("{:?}", other),
    }
}

#[test]
fn parentheses_around_a_name_are_dropped() {
    match parse_line("t : (A)").unwrap() {
        ast::Line::Annotation(a) => assert_eq!(show(&a.typ), "A"),
        other => panic!("{:?}", other),
    }
}

#[test]
fn line_errors() {
    assert_eq!(parse_line("").unwrap_err(), LineError::UnexpectedEnd);
    assert_eq!(parse_line(": A").unwrap_err(), LineError::UnexpectedToken { at: 0 });
    assert_eq!(parse_line("f").unwrap_err(), LineError::UnexpectedEnd);
    assert_eq!(parse_line("f x").unwrap_err(), LineError::UnexpectedEnd);
    assert_eq!(parse_line("f :").unwrap_err(), LineError::UnexpectedEnd);
    assert_eq!(parse_line("f : A ->").unwrap_err(), LineError::UnexpectedEnd);
    assert_eq!(parse_line("f : (A").unwrap_err(), LineError::UnexpectedEnd);
    assert_eq!(parse_line("f : A )").unwrap_err(), LineError::UnexpectedToken { at: 3 });
    assert_eq!(parse_line("f : (x: A)").unwrap_err(), LineError::BinderWithoutArrow { at: 2 });
    assert_eq!(parse_line("f x ( = y").unwrap_err(), LineError::UnexpectedToken { at: 2 });
    assert_eq!(parse_line("f : (g x) y").unwrap_err(), LineError::UnexpectedToken { at: 6 });
    assert_eq!(parse_line("f : g (x: A)").unwrap_err(), LineError::UnexpectedToken { at: 5 });
}

#[test]
fn indentation_counts_leading_spaces_only() {
    assert_eq!(count_indent(""), 0);
    assert_eq!(count_indent("abc"), 0);
    assert_eq!(count_indent("   abc  "), 3);
    assert_eq!(count_indent("    "), 4);
    assert_eq!(count_indent(" \tx"), 1);
}

#[test]
fn comments_are_cut_at_the_first_double_dash() {
    assert_eq!(strip_comment("a b -- c -- d"), "a b ");
    assert_eq!(strip_comment("a - b"), "a - b");
    assert_eq!(strip_comment("-- only"), "");
    assert_eq!(strip_comment("a -> b"), "a -> b");
    assert_eq!(strip_comment("x-"), "x-");
}

#[test]
fn text_is_split_at_newlines() {
    assert_eq!(split_lines(""), strings(&[""]));
    assert_eq!(split_lines("a"), strings(&["a"]));
    assert_eq!(split_lines("a\n"), strings(&["a", ""]));
    assert_eq!(split_lines("a -- x\n\n  b"), strings(&["a ", "", "  b"]));
}

#[test]
fn blank_lines_are_skipped() {
    let lines = strings(&["", "   ", "  x", "y"]);
    assert_eq!(find_line(&lines, 0), (Some(2), 2));
    assert_eq!(find_line(&lines, 2), (Some(2), 2));
    assert_eq!(find_line(&lines, 3), (Some(0), 3));
    assert_eq!(find_line(&lines, 4), (None, 4));
    let blank = strings(&["", " "]);
    assert_eq!(find_line(&blank, 0), (None, 2));
}

#[test]
fn backslash_joins_lines() {
    let lines = strings(&["f : A ->\\", "", "  B", "g"]);
    assert_eq!(concat_lines(&lines, 0), ("f : A ->  B".to_string(), 3));
    assert_eq!(concat_lines(&lines, 3), ("g".to_string(), 4));
    assert_eq!(concat_lines(&lines, 4), (String::new(), 4));
    let open = strings(&["a\\"]);
    assert_eq!(concat_lines(&open, 0), ("a".to_string(), 1));
}

#[test]
fn blocks_follow_indentation() {
    let lines = strings(&["a", "  b", "  c", "    d", "e"]);
    let blocks = split_indenting(&lines);
    assert_eq!(blocks.len(), 2);
    assert_eq!(blocks[0].line, "a");
    assert_eq!(blocks[0].sublines.len(), 2);
    assert_eq!(blocks[0].sublines[0].line, "  b");
    assert!(blocks[0].sublines[0].sublines.is_empty());
    assert_eq!(blocks[0].sublines[1].line, "  c");
    assert_eq!(blocks[0].sublines[1].sublines.len(), 1);
    assert_eq!(blocks[0].sublines[1].sublines[0].line, "    d");
    assert_eq!(blocks[1].line, "e");
    assert!(blocks[1].sublines.is_empty());
}

#[test]
fn a_line_between_two_levels_ends_the_blocks() {
    let lines = strings(&["a", "    b", "  c", "d"]);
    let blocks = split_indenting(&lines);
    assert_eq!(blocks.len(), 1);
    assert_eq!(blocks[0].line, "a");
    assert_eq!(blocks[0].sublines.len(), 1);
    assert_eq!(blocks[0].sublines[0].line, "    b");
}

#[test]
fn annotation_and_definition_make_one_item() {
    let items = ProgramParser::new()
        .parse("-- the identity\nid : (A: U0) -> A -> A\nid A x = x\n")
        .unwrap();
    assert_eq!(items.len(), 1);
    let a = items[0].annotation.as_ref().unwrap();
    let d = items[0].definition.as_ref().unwrap();
    assert_eq!(a.name, "id");
    assert_eq!(show(&a.typ), "(A: U0) -> <A> -> A");
    assert_eq!(d.fname, "id");
    assert_eq!(d.vars, strings(&["A", "x"]));
    assert_eq!(show(&d.body), "x");
    assert!(items[0].associated.is_empty());
}

#[test]
fn annotations_without_definitions_are_items_of_their_own() {
    let items = ProgramParser::new().parse("a : U0\nb : U0\nc : U0\nc = a").unwrap();
    assert_eq!(items.len(), 3);
    assert_eq!(items[0].annotation.as_ref().unwrap().name, "a");
    assert!(items[0].definition.is_none());
    assert_eq!(items[1].annotation.as_ref().unwrap().name, "b");
    assert!(items[1].definition.is_none());
    assert_eq!(items[2].annotation.as_ref().unwrap().name, "c");
    assert_eq!(items[2].definition.as_ref().unwrap().fname, "c");
    let last = ProgramParser::new().parse("a : U0").unwrap();
    assert_eq!(last.len(), 1);
    assert!(last[0].definition.is_none());
}

#[test]
fn definition_without_annotation_and_nested_items() {
    let items = ProgramParser::new().parse("f x = x\n  g : U0\n  g = f\nh = f").unwrap();
    assert_eq!(items.len(), 2);
    assert!(items[0].annotation.is_none());
    assert_eq!(items[0].associated.len(), 1);
    assert_eq!(items[0].associated[0].annotation.as_ref().unwrap().name, "g");
    assert_eq!(items[0].associated[0].definition.as_ref().unwrap().fname, "g");
    assert!(items[1].annotation.is_none());
    assert_eq!(items[1].definition.as_ref().unwrap().fname, "h");
}

#[test]
fn the_block_under_an_annotation_is_not_read() {
    let items = ProgramParser::new().parse("a : U0\n  ) not a line (\nb : U0").unwrap();
    assert_eq!(items.len(), 2);
}

#[test]
fn a_bad_line_is_reported_with_its_text() {
    let err = ProgramParser::new().parse("a : U0\nb : U0 ->\n").unwrap_err();
    assert_eq!(err.line, "b : U0 ->");
    assert_eq!(err.error, LineError::UnexpectedEnd);
    let err = ProgramParser::new().parse("f x = y\n  g ! h\n").unwrap_err();
    assert_eq!(err.line, "  g ! h");
    assert_eq!(err.error, LineError::UnexpectedChar { at: 4 });
}

#[test]
fn empty_text_has_no_items() {
    assert!(ProgramParser::new().parse("").unwrap().is_empty());
    assert!(ProgramParser::new().parse("\n  \n-- nothing\n").unwrap().is_empty());
}
