use swl::error::{FeatureError, SWLError};
use swl::parser::{Parser, ParserError};
use swl::ast::Item;
use swl::utils::{
    find_child_node_item_mut, find_id_attribute, interpreted_string_length, is_module, is_string_literal,
    parse_number_literal,
};

#[test]
fn interpreted_string_length_test() {
    let table = [(r#"1234"#, 4), (r#"123\00"#, 4), (r#"\01\02\03\04"#, 4)];
    for (input, expected) in table {
        assert_eq!(interpreted_string_length(input).unwrap(), expected);
    }
}

#[test]
fn interpreted_string_length_of_escapes() {
    let table = [
        ("", 0),
        (r#"\n"#, 1),
        (r#"\"\\"#, 2),
        (r#"\ff\Fa\0g"#, 3),
        (r#"\t0"#, 2),
        (r#"a\nb"#, 3),
        (r#"\u{1}"#, 4),
        (r#"\fz"#, 2),
        (r#"ab\f"#, 3),
        (r#"x\f"#, 2),
        (r#"\a0\0a"#, 2),
        (r#"\az"#, 2),
    ];
    for (input, expected) in table {
        assert_eq!(interpreted_string_length(input).unwrap(), expected);
    }
    for input in [r#"\"#, r#"ab\"#, r#"\0"#, r#"x\9"#] {
        match interpreted_string_length(input) {
            Err(SWLError::ParserError(ParserError::InvalidEscapeSequence)) => {}
            _ => panic!(),
        }
    }
}

#[test]
fn is_module_wants_the_name_and_the_depth() {
    let module = Parser::new("(module (module))").parse().unwrap();
    assert!(is_module(&module));
    assert!(!is_module(module.items[0].as_node().unwrap()));
    assert!(!is_module(&Parser::new("(modul)").parse().unwrap()));
}

#[test]
fn string_literals_have_something_between_their_quotes() {
    for yes in [r#""a""#, r#""ab c""#, r#"""""#, "\"\u{e9}\""] {
        assert!(is_string_literal(yes));
    }
    for no in ["", "\"", r#""""#, r#"a""#, r#""a"#, "abc", r#" "a""#] {
        assert!(!is_string_literal(no));
    }
}

#[test]
fn id_attributes() {
    let table = [
        ("(start $a)", Some("$a")),
        ("(start 1 $a $b)", Some("$a")),
        ("(start x 12 13)", Some("12")),
        ("(start x +7)", Some("+7")),
        ("(start x -7 \"$q\" (n $z))", None),
        ("(start)", None),
        ("(start $)", Some("$")),
        ("(start 99999999999999999999999999 5)", Some("5")),
    ];
    for (input, expected) in table {
        let node = Parser::new(input).parse().unwrap();
        assert_eq!(find_id_attribute(&node), expected);
    }
}

#[test]
fn number_literals() {
    let table = [("0x10", 16), ("0x-f", -15), ("017", 15), ("0+7", 7), ("42", 42), ("-42", -42), ("+1", 1), ("00", 0)];
    for (input, expected) in table {
        assert_eq!(parse_number_literal(input).unwrap(), expected);
    }
    for input in ["", "0", "0x", "08", "0xg", "4 2", "-", "9223372036854775808", "0b1"] {
        match parse_number_literal(input) {
            Err(SWLError::Other(FeatureError::InvalidInteger(text))) => assert_eq!(text, input),
            _ => panic!(),
        }
    }
    assert_eq!(parse_number_literal("-9223372036854775808").unwrap(), isize::MIN);
    assert_eq!(parse_number_literal("0x7fffffffffffffff").unwrap(), isize::MAX);
}

#[test]
fn the_first_child_node_that_matches() {
    let mut node = Parser::new("(a b (c) (d 1) (d 2) d)").parse().unwrap();
    let mut asked = Vec::new();
    {
        let found = find_child_node_item_mut(&mut node, |n| n.name == "d").unwrap();
        assert_eq!(found.to_string(), "(d 1)");
        *found = Item::Attribute("e".to_string());
    }
    assert_eq!(node.to_string(), "(a b (c) e (d 2) d)");
    let asked_cell = std::cell::RefCell::new(&mut asked);
    assert!(find_child_node_item_mut(&mut node, |n| {
        asked_cell.borrow_mut().push(n.name.clone());
        n.name == "x"
    })
    .is_none());
    assert_eq!(asked, vec!["c", "d"]);
    assert_eq!(node.to_string(), "(a b (c) e (d 2) d)");
}
