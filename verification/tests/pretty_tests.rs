use swl::error::SWLError;
use swl::parser::ParserError;
use swl::pretty::{pretty_print, PrettyPrinter, Token, Tokenizer};


fn unindent<T: AsRef<str>>(v: T) -> String {
    let mut lines: Vec<&str> = v.as_ref().split('\n').collect();
    if lines[0].trim().is_empty() {
        lines.remove(0);
    }
    if lines.last().unwrap_or(&"x").trim().is_empty() {
        lines.remove(lines.len() - 1);
    }
    let crop = lines[0].chars().take_while(|c| c.is_whitespace()).count();

    lines
        .into_iter()
        .map(|str| {
            if str.trim().is_empty() {
                ""
            } else {
                &str[crop..]
            }
        })
        .collect::<Vec<&str>>()
        .join("\n")
}

#[test]
fn pretty_simple() {
    let input = r#"
        (a b c)
    "#;
    let expected = unindent(
        "
            (a
            \tb
            \tc)
        ",
    );
    assert_eq!(pretty_print(input).unwrap(), expected);
}

#[test]
fn nested() {
    let input = r#"
        (a (b c))
    "#;
    let expected = unindent(
        "
            (a
            \t(b c))
        ",
    );
    assert_eq!(pretty_print(input).unwrap(), expected);
}

#[test]
fn more_nested() {
    let input = r#"
        (a b (c d e) (f g (h)))
    "#;
    let expected = unindent(
        "
            (a
            \tb
            \t(c
            \t\td
            \t\te)
            \t(f
            \t\tg
            \t\t(h)))
        ",
    );
    assert_eq!(pretty_print(input).unwrap(), expected);
}

#[test]
fn function() {
    let input = r#"
        (module
            (func $name (param $a i32) (param $b i32) (result i32) (local $tmp i32)
                (i32.add (local.get $a) (local.get $b))))
    "#;
    let expected = unindent(
        "
            (module
            \t(func $name
            \t\t(param $a i32)
            \t\t(param $b i32)
            \t\t(result i32)
            \t\t(local $tmp i32)
            \t\t(i32.add
            \t\t\t(local.get $a)
            \t\t\t(local.get $b))))
        ",
    );
    assert_eq!(pretty_print(input).unwrap(), expected);
}

#[test]
fn function_spacing() {
    let input = r#"
        (module
            (func $f1 (i32.const 1))
            (func $f2 (i32.const 2))
        )
    "#;
    let expected = unindent(
        "
            (module
            \t(func $f1
            \t\t(i32.const 1))

            \t(func $f2
            \t\t(i32.const 2)))
        ",
    );
    assert_eq!(pretty_print(input).unwrap(), expected);
}

#[test]
fn function_spacing2() {
    let input = r#"
        (module
            (memory $mem 1)

            (func $f1 (i32.const 1))
            (func $f2 (i32.const 2))
        )
    "#;
    let expected = unindent(
        "
            (module
            \t(memory $mem 1)
        
            \t(func $f1
            \t\t(i32.const 1))

            \t(func $f2
            \t\t(i32.const 2)))
        ",
    );
    assert_eq!(pretty_print(input).unwrap(), expected);
}

#[test]
fn function_without_header() {
    let input = r#"
        (module
            (func $name
                (i32.add (local.get $a) (local.get $b))))
    "#;
    let expected = unindent(
        "
            (module
            \t(func $name
            \t\t(i32.add
            \t\t\t(local.get $a)
            \t\t\t(local.get $b))))
        ",
    );
    assert_eq!(pretty_print(input).unwrap(), expected);
}

#[test]
fn function_with_locals() {
    let input = r#"
        (module
            (func $name (result i32) (local $tmp i32) (local $tmp2 i32)
                (i32.const 4)))
    "#;
    let expected = unindent(
        "
            (module
            \t(func $name
            \t\t(result i32)
            \t\t(local $tmp i32)
            \t\t(local $tmp2 i32)
            \t\t(i32.const 4)))
        ",
    );
    assert_eq!(pretty_print(input).unwrap(), expected);
}

#[test]
fn exported_function() {
    let input = r#"
        (module
            (func
                $main
                   (export     "main")

                   (param   $a    i32)  (local $tmp i32)
                (something $a b c)))
    "#;
    let expected = unindent(
        "
            (module
            \t(func $main (export \"main\")
            \t\t(param $a i32)
            \t\t(local $tmp i32)
            \t\t(something $a
            \t\t\tb
            \t\t\tc)))
        ",
    );
    assert_eq!(pretty_print(input).unwrap(), expected);
}

#[test]
fn line_comments() {
    let input = r#"
        (module
        ;; comment 1
                ;; comment 2
            (func $lol (import "env" "lol") (param i32) (result i32))
        )
    "#;
    let expected = unindent(
        "
            (module
            \t;; comment 1
            \t;; comment 2
            \t(func $lol (import \"env\" \"lol\")
            \t\t(param i32)
            \t\t(result i32)))
        ",
    );
    assert_eq!(pretty_print(input).unwrap(), expected);
}

#[test]
fn block_comments() {
    let input = r#"
        (module
    (; comment 1
                comment 2 ;)
            (func)
        )
    "#;
    let expected = unindent(
        "
            (module
            \t(;
            \t\tcomment 1
            \t\tcomment 2
            \t;)
            \t(func))
        ",
    );
    assert_eq!(pretty_print(input).unwrap(), expected);
}

#[test]
fn block_comments2() {
    let input = r#"
        (module
            (func
                (; 0 ;)
                $name)
        )
    "#;
    let expected = unindent(
        "
            (module
            \t(func (; 0 ;) $name))
        ",
    );
    assert_eq!(pretty_print(input).unwrap(), expected);
}

#[test]
fn paren_attribute() {
    let input = r#"
        (i32.load offset=(i32.const 4) (i32.const 4))
    "#;
    let expected = unindent(
        "
            (i32.load
            \toffset=(i32.const 4)
            \t(i32.const 4))
        ",
    );
    assert_eq!(pretty_print(input).unwrap(), expected);
}

#[test]
fn call() {
    let input = r#"
        (module
            (func $x (import "env" "lol") (param i32))
            (func $main
                (call $x (i32.const 4))
            )
        )
    "#;
    let expected = unindent(
        "
            (module
            \t(func $x (import \"env\" \"lol\")
            \t\t(param i32))

            \t(func $main
            \t\t(call $x
            \t\t\t(i32.const 4))))
        ",
    );
    assert_eq!(pretty_print(input).unwrap(), expected);
}

#[test]
fn block() {
    let input = r#"
        (module
            (block $lol (i32.const 0)))
    "#;
    let expected = unindent(
        "
            (module
            \t(block $lol
            \t\t(i32.const 0)))
        ",
    );
    assert_eq!(pretty_print(input).unwrap(), expected);
}

#[test]
fn if_expr() {
    let input = r#"
        (if
            (i32.eqz (i32.const 0))
            (i32.const 4))
    "#;
    let expected = unindent(
        "
            (if
            \t(i32.eqz
            \t\t(i32.const 0))
            \t(i32.const 4))
        ",
    );
    assert_eq!(pretty_print(input).unwrap(), expected);
}

#[test]
fn import() {
    let input = r#"
        (import
            "env"
            "lol"
            (func $lol
                (param i32)
                (result i32)))
    "#;
    let expected = unindent(
        "
            (import \"env\" \"lol\" (func $lol (param i32) (result i32)))
        ",
    );
    assert_eq!(pretty_print(input).unwrap(), expected);
}

#[test]
fn multiple_singleline_comments() {
    let input = r#"
        ;; 123
        ;;
        ;; 123
    "#;
    let expected = unindent(
        "
            ;; 123
            ;;
            ;; 123
        ",
    );
    assert_eq!(pretty_print(input).unwrap(), expected);
}

#[test]
fn local_set() {
    let input = r#"
        (local.set $lol (i32.const 123))
    "#;
    let expected = unindent(
        "
            (local.set $lol
            \t(i32.const 123))
        ",
    );
    assert_eq!(pretty_print(input).unwrap(), expected);
}

#[test]
fn string() {
    let input = r#"
        (data (i32.const 0) "lol 123")
    "#;
    let expected = unindent(
        "
            (data
            \t(i32.const 0)
            \t\"lol 123\")
        ",
    );
    assert_eq!(pretty_print(input).unwrap(), expected);
}

#[test]
fn escaped_string() {
    let input = r#"
        (data (i32.const 0) "lol \" 123")
    "#;
    let expected = unindent(
        "
            (data
            \t(i32.const 0)
            \t\"lol \\\" 123\")
        ",
    );
    assert_eq!(pretty_print(input).unwrap(), expected);
}

#[test]
fn branch() {
    let input = r#"
        (block $done
            (loop $continue
                (br_if
                    $done
                    (i32.eqz (i32.load (i32.const 0))))
                (br $continue)
            )
        )
    "#;
    let expected = unindent(
        "
            (block $done
            \t(loop $continue
            \t\t(br_if $done
            \t\t\t(i32.eqz
            \t\t\t\t(i32.load
            \t\t\t\t\t(i32.const 0))))
            \t\t(br $continue)))
        ",
    );
    assert_eq!(pretty_print(input).unwrap(), expected);
}

#[test]
fn block_comment() {
    let input = "
            (module
            \t(global $HEAP_BASE i32 (i32.const 8192))
            \t(;
            \t\tlol
            \t\tmore
            \t;)
            \t(data))
    ";
    let expected = unindent(
        "
            (module
            \t(global $HEAP_BASE i32 (i32.const 8192))
            \t(;
            \t\tlol
            \t\tmore
            \t;)
            \t(data))
        ",
    );
    assert_eq!(pretty_print(input).unwrap(), expected);
}
#[test]
fn component() {
    let input = r#"
            (component
                (core module $MEM
                    (func (export "lol"))
                )

            	(core 
                    instance 
                    $m
            		(instantiate $MEM
            			(with "env"
            				(instance)
                        )
                    )
                )

                (func $run (result s32)
            		(canon lift
            			(core func $m
            				"run")
                    )
                )
            )
    "#;
    let expected = unindent(
        "
            (component
            \t(core module $MEM
            \t\t(func (export \"lol\")))

            \t(core instance $m
            \t\t(instantiate $MEM
            \t\t\t(with \"env\"
            \t\t\t\t(instance))))

            \t(func $run
            \t\t(result s32)
            \t\t(canon lift
            \t\t\t(core func $m \"run\"))))
        ",
    );
    assert_eq!(pretty_print(input).unwrap(), expected);
}

fn print_twice(input: &str) -> String {
    let once = pretty_print(input).unwrap();
    let twice = pretty_print(&once).unwrap();
    assert_eq!(once, twice);
    once
}

#[test]
fn printing_printed_text_changes_nothing() {
    for input in [
        "(a b c)",
        "(a (b c))",
        "(module (func $name (param $a i32) (param $b i32) (result i32) (local $tmp i32) (i32.add (local.get $a) (local.get $b))))",
        "(module (memory $mem 1) (func $f1 (i32.const 1)) (func $f2 (i32.const 2)))",
        "(module (; comment 1\n comment 2 ;) (func))",
        "(module\n;; comment 1\n (func $lol (import \"env\" \"lol\") (param i32) (result i32)))",
        "(data (i32.const 0) \"lol \\\" 123\")",
        "(i32.load offset=(i32.const 4) (i32.const 4))",
        "(component (core module $MEM (func (export \"lol\"))) (core instance $m (instantiate $MEM (with \"env\" (instance)))) (func $run (result s32) (canon lift (core func $m \"run\"))))",
        "(block $done (loop $continue (br_if $done (i32.eqz (i32.load (i32.const 0)))) (br $continue)))",
        ";; 123\n;;\n;; 123\n",
        "()",
        "",
    ] {
        print_twice(input);
    }
}

#[test]
fn a_function_with_one_param() {
    assert_eq!(
        pretty_print("(func $f (param i32) (i32.const 1))").unwrap(),
        "(func $f\n\t(param i32)\n\t(i32.const 1))"
    );
}

#[test]
fn small_forms_stay_on_one_line() {
    assert_eq!(pretty_print("(  a   b )").unwrap(), "(a b)");
    assert_eq!(pretty_print("(a)").unwrap(), "(a)");
    assert_eq!(pretty_print("()").unwrap(), "()");
    assert_eq!(pretty_print("( )").unwrap(), "()");
    assert_eq!(pretty_print("").unwrap(), "");
    assert_eq!(pretty_print("(a \"s\")").unwrap(), "(a \"s\")");
    assert_eq!(pretty_print("(a) (b)").unwrap(), "(a)\n(b)");
    assert_eq!(pretty_print("(global $g (mut i32) (i32.const 0))").unwrap(), "(global $g (mut i32) (i32.const 0))");
    assert_eq!(pretty_print("(memory (; a\nb ;) 1)").unwrap(), "(memory (; a,b ;) 1)");
    assert_eq!(pretty_print("(a b) ) (c)").unwrap(), "(a b)");
}

#[test]
fn block_comments_keep_their_text() {
    assert_eq!(pretty_print("(;x;)").unwrap(), "(; x ;)");
    assert_eq!(pretty_print("(;;)").unwrap(), "(;  ;)");
    assert_eq!(pretty_print("(; \n\n ;)").unwrap(), "(;  ;)");
    assert_eq!(pretty_print("(;\n a \n\n  b\n;)").unwrap(), "(;\n\ta\n\t\n\tb\n;)");
    assert_eq!(pretty_print("(m x (;\n a \n  b\n;))").unwrap(), "(m\n\tx\n\t(;\n\t\ta\n\t\tb\n\t;))");
}

#[test]
fn line_comments_lose_one_leading_space() {
    assert_eq!(pretty_print(";;a").unwrap(), ";; a");
    assert_eq!(pretty_print(";;  a ").unwrap(), ";;  a ");
    assert_eq!(pretty_print(";;   \n").unwrap(), ";;");
    assert_eq!(pretty_print(";;\u{a0}x").unwrap(), ";; x");
}

#[test]
fn what_is_left_open_fails() {
    match pretty_print("(a (b c") {
        Err(SWLError::ParserError(ParserError::UnexpectedToken { expected, got })) => {
            assert_eq!(expected, ")");
            assert_eq!(got, "");
        }
        _ => panic!(),
    }
    for input in ["(a \"b", "(a \"b\\", "(a (; b", "(;"] {
        match pretty_print(input) {
            Err(SWLError::ParserError(ParserError::UnexpectedEOF)) => {}
            _ => panic!(),
        }
    }
}

#[test]
fn tokens_of_a_text() {
    let tokens = Tokenizer::new("a (b \"c d\" (; e ;)) ;; f\n g(h i)j").parse().unwrap();
    assert_eq!(
        tokens,
        vec![
            Token::Ident("a".to_string()),
            Token::Parens(vec![
                Token::Ident("b".to_string()),
                Token::StringLiteral("c d".to_string()),
                Token::BlockComment(" e ".to_string()),
            ]),
            Token::LineComment(" f".to_string()),
            Token::Ident("g(h i)j".to_string()),
        ]
    );
}

#[test]
fn a_printer_starts_empty() {
    let mut printer = PrettyPrinter::new();
    assert_eq!(printer.finalize(), "");
    assert_eq!(PrettyPrinter::pretty_print("(a b c)").unwrap(), "(a\n\tb\n\tc)");
}

#[test]
fn a_line_comment_at_the_end_of_a_form_takes_the_parenthesis_along() {
    let once = pretty_print("(module\n;; c\n)").unwrap();
    assert_eq!(once, "(module\n\t;; c)");
    assert!(pretty_print(&once).is_err());
    let first = pretty_print("( ;x)").unwrap();
    assert_eq!(first, "(;x)");
    assert!(pretty_print(&first).is_err());
}

#[test]
fn tokens_by_kind() {
    let tokens = Tokenizer::new("(a) \"s\" b (; c ;) ;; d").parse().unwrap();
    assert_eq!(tokens[0].as_parens().unwrap().len(), 1);
    assert_eq!(tokens[1].as_string_lit(), Some("s"));
    assert_eq!(tokens[2].as_literal(), Some("b"));
    assert_eq!(tokens[3].as_block_comment(), Some(" c "));
    assert_eq!(tokens[4].as_line_comment(), Some(" d"));
    assert!(tokens[0].as_literal().is_none());
    assert!(tokens[1].as_parens().is_none());
    assert!(tokens[2].as_string_lit().is_none());
    assert!(tokens[3].as_line_comment().is_none());
    assert!(tokens[4].as_block_comment().is_none());
}

#[test]
fn printing_block_comments_again_changes_nothing() {
    for code in [
        "(a (; c ;) b)",
        "(a (;c;) b)",
        "(module (; one\n two ;) (func $f (; in ;) (param i32)))",
        "(module\n(;\n\tfirst\n\n\tsecond\n;)\n(memory 1))",
        "(; top ;) (module)",
        "(module (;;) (a b c))",
    ] {
        let once = pretty_print(code).unwrap();
        assert_eq!(pretty_print(&once).unwrap(), once, "{:?}", code);
    }
}

#[test]
fn printing_a_line_comment_before_a_closing_parenthesis_does_not_read_back() {
    let once = pretty_print("(module\n;; c\n)").unwrap();
    assert_eq!(once, "(module\n\t;; c)");
    assert!(pretty_print(&once).is_err());
}
