use swl::ast::Node;
use swl::error::SWLError;
use swl::parser::{Parser, ParserError};

fn parse_and_compare(input: &str, expected: &str) {
    let mut parser = Parser::new(input);
    let ast = parser.parse().unwrap();
    assert_eq!(&ast.to_string(), expected)
}

fn parse_ok(input: &str) -> Node {
    Parser::new(input).parse().unwrap()
}

#[test]
fn minimal() {
    let input = r#"(module)"#;
    let expected = r#"(module)"#;
    parse_and_compare(input, expected);
}

#[test]
fn parser_simple() {
    let input = r#"
            (  module )
        "#;
    let expected = r#"(module)"#;
    parse_and_compare(input, expected);
}

#[test]
fn subdirectives() {
    let input = r#"
            (i32.const 0)
        "#;
    let expected = r#"(i32.const 0)"#;
    parse_and_compare(input, expected);
}

#[test]
fn attributes() {
    let input = r#"
            (module
                (func $add
                    (import "./file" "lol")
                    (param i32)     (param    i64)
                    (return i32 ) ) )
        "#;
    let expected = r#"
            (module (func $add (import "./file" "lol") (param i32) (param i64) (return i32)))
        "#
    .trim();
    parse_and_compare(input, expected);
}

#[test]
fn string_attributes() {
    let input = r#"
            (import "string   with   space"    but     these spaces    will   be  normalized)
        "#;
    let expected = r#"
            (import "string   with   space" but these spaces will be normalized)
        "#
    .trim();
    parse_and_compare(input, expected);
}

#[test]
fn comments() {
    let input = r#"
            ;; Comment
            (module ;; Comment
                (func)
                (func (; block comment ;) )
                (; block comment ;)
            ) ;; Comment
        "#;
    let expected = r#"
            (module (func) (func))
        "#
    .trim();
    parse_and_compare(input, expected);
}

#[test]
fn depth_test() {
    let input = r#"
            (module
                (func
                    $add (import "./file" "lol")
                    (param i32)     (param2    i64)
                    (return i32 ) ) )
        "#;

    let expected_depths = [0, 1, 2, 2, 2, 2];
    let mut parser = Parser::new(input);
    let ast = parser.parse().unwrap();
    for (i, node) in ast.node_iter().into_iter().enumerate() {
        assert_eq!(node.depth, expected_depths[i]);
    }
}

#[test]
fn stray_data() {
    let input = r#"
            (module)
                (func))
        "#;

    let mut parser = Parser::new(input);
    match parser.parse() {
        Err(SWLError::ParserError(ParserError::StrayData(_))) => {}
        _ => panic!(),
    }
}

#[test]
fn stray_data_holds_the_remainder() {
    match Parser::new("(module) (func) ").parse() {
        Err(SWLError::ParserError(ParserError::StrayData(rest))) => assert_eq!(rest, "(func) "),
        _ => panic!(),
    }
}

#[test]
fn unexpected_eof_inside_a_form() {
    for input in ["(module", "(module (func)", "(a \"open", "(a b", "(a \"x\\"] {
        match Parser::new(input).parse() {
            Err(SWLError::ParserError(ParserError::UnexpectedEOF)) => {}
            _ => panic!(),
        }
    }
}

#[test]
fn unexpected_token_where_no_form_begins() {
    match Parser::new("  module)").parse() {
        Err(SWLError::ParserError(ParserError::UnexpectedToken { expected, got })) => {
            assert_eq!(expected, "(");
            assert_eq!(got, "m");
        }
        _ => panic!(),
    }
    match Parser::new(" ;; nothing").parse() {
        Err(SWLError::ParserError(ParserError::UnexpectedToken { expected, got })) => {
            assert_eq!(expected, "(");
            assert_eq!(got, "");
        }
        _ => panic!(),
    }
}

#[test]
fn a_second_parse_finds_nothing() {
    let mut parser = Parser::new("(module)");
    assert!(parser.parse().is_ok());
    match parser.parse() {
        Err(SWLError::ParserError(ParserError::UnexpectedToken { expected, got })) => {
            assert_eq!(expected, "(");
            assert_eq!(got, "");
        }
        _ => panic!(),
    }
}

#[test]
fn strings_keep_quotes_and_escapes() {
    let ast = parse_ok(r#"(data "a\"b ) ;; (; \\" x)"#);
    assert_eq!(ast.items.len(), 2);
    assert_eq!(ast.immediate_attribute_iter(), vec![r#""a\"b ) ;; (; \\""#, "x"]);
}

#[test]
fn tokens_end_before_comments() {
    let ast = parse_ok("(a b;;c\n d(;e;)f)");
    assert_eq!(ast.immediate_attribute_iter(), vec!["b", "d", "f"]);
}

#[test]
fn tokens_run_through_their_own_parentheses() {
    let ast = parse_ok("(i32.load offset=(i32.const 4) (i32.const 4))");
    assert_eq!(ast.items.len(), 2);
    assert_eq!(ast.immediate_attribute_iter(), vec!["offset=(i32.const 4)"]);
    assert_eq!(ast.to_string(), "(i32.load offset=(i32.const 4) (i32.const 4))");
}

#[test]
fn block_comments_do_not_nest() {
    let ast = parse_ok("(a (; x (; y ;) b)");
    assert_eq!(ast.to_string(), "(a b)");
}

#[test]
fn an_unfinished_block_comment_runs_to_the_end() {
    match Parser::new("(a) (; never closed").parse() {
        Ok(ast) => assert_eq!(ast.to_string(), "(a)"),
        _ => panic!(),
    }
}

#[test]
fn names_take_letters_digits_and_three_marks() {
    let ast = parse_ok("(i32.const_x-1$y)");
    assert_eq!(ast.name, "i32.const_x-1");
    assert_eq!(ast.immediate_attribute_iter(), vec!["$y"]);
    let unicode = parse_ok("(\u{e9}t\u{e9}\u{a0}x)");
    assert_eq!(unicode.name, "\u{e9}t\u{e9}");
    assert_eq!(unicode.immediate_attribute_iter(), vec!["x"]);
}

#[test]
fn reparsing_the_canonical_text_changes_nothing() {
    for input in [
        "(module)",
        "( module (func $a (param i32)) \"str ing\" x=(y z) ( (b)) ;; c\n)",
        "(a (; c ;) b \"\\\"\" (c (d (e f))))",
        "(m offset=(i32.constexpr (i32.add (i32.const 8) (i32.const 4))))",
    ] {
        let once = parse_ok(input).to_string();
        let twice = parse_ok(&once).to_string();
        assert_eq!(once, twice);
        assert_eq!(parse_ok(&once), parse_ok(&twice));
    }
}
