use swl::ast::Node;
use swl::error::{FeatureError, SWLError};
use swl::eval::NoEvaluator;
use swl::features::import::ImportError;
use swl::features::numerals::NumeralsError;
use swl::features::size_adjust::SizeAdjustError;
use swl::features::sort::{frontload_imports, has_import_node, SortError};
use swl::features::start_merge::StartMergeError;
use swl::features::Feature;
use swl::linker::Linker;
use swl::loader::MockLoader;
use swl::parser::{Parser, ParserError};

fn loader_of(inputs: &[&[u8]]) -> MockLoader {
    let mut loader = MockLoader::new();
    for (idx, input) in inputs.iter().enumerate() {
        loader.insert(&format!("{}", idx), input.to_vec());
    }
    loader
}

fn link_with(feature: Feature, inputs: &[&[u8]]) -> Result<Node, SWLError> {
    let mut linker = Linker::new(loader_of(inputs), NoEvaluator);
    linker.features.push(feature);
    linker.link_file("0")
}

fn run_feature(feature: Feature, inputs: &[&str], expected: &str) {
    let bytes: Vec<&[u8]> = inputs.iter().map(|s| s.as_bytes()).collect();
    let module = link_with(feature, &bytes).unwrap();
    assert_eq!(module.to_string(), expected.trim());
}

fn fail_feature(feature: Feature, input: &str) -> SWLError {
    match link_with(feature, &[input.as_bytes()]) {
        Err(e) => e,
        Ok(_) => panic!(),
    }
}

#[test]
fn import_simple_import() {
    run_feature(
        Feature::Import,
        &[
            r#"
                    (module
                        (import "1" (file))
                        (func $a)
                        (func $b))
                "#,
            r#"
                    (module
                        (func $c)
                        (func $d))
                "#,
        ],
        r#"
                (module (func $a) (func $b) (func $c) (func $d))
            "#,
    );
}

#[test]
fn import_dedupe_imports() {
    run_feature(
        Feature::Import,
        &[
            r#"
                    (module
                        (import "1" (file))
                        (import "1" (file))
                        (func $a)
                        (func $b))
                "#,
            r#"
                    (module
                        (func $c)
                        (func $d))
                "#,
        ],
        r#"
                (module (func $a) (func $b) (func $c) (func $d))
            "#,
    );
}

#[test]
fn cascade_imports() {
    run_feature(
        Feature::Import,
        &[
            r#"
                    (module
                        (import "1" (file))
                        (func $a)
                        (func $b))
                "#,
            r#"
                    (module
                        (import "2" (file))
                        (func $c)
                        (func $d))
                "#,
            r#"
                    (module
                        (func $e))
                "#,
        ],
        r#"
                (module (func $a) (func $b) (func $c) (func $d) (func $e))
            "#,
    );
}

#[test]
fn import_dedup_first_import_wins() {
    run_feature(
        Feature::Import,
        &[
            r#"(module (import "1" (file)) (import "1" (file)) (func $a))"#,
            r#"(module (func $c) (func $d))"#,
        ],
        "(module (func $a) (func $c) (func $d))",
    );
}

#[test]
fn imports_of_an_import_come_before_the_next_import() {
    run_feature(
        Feature::Import,
        &[
            r#"(module (import "1" (file)) (import "2" (file)) (a))"#,
            r#"(module (import "3" (file)) (c))"#,
            r#"(module (y))"#,
            r#"(module (x))"#,
        ],
        "(module (a) (c) (x) (y))",
    );
}

#[test]
fn a_module_that_imports_itself_adds_nothing() {
    run_feature(Feature::Import, &[r#"(module (import "0" (file)) (a))"#], "(module (a))");
    run_feature(
        Feature::Import,
        &[r#"(module (import "1" (file)) (a))"#, r#"(module (import "0" (file)) (b))"#],
        "(module (a) (b))",
    );
}

#[test]
fn imports_that_are_none_stay() {
    run_feature(
        Feature::Import,
        &[r#"(module (import "1" "x") (func (import "1" (file))) (import "1" (file) z) (import (file) (file)))"#],
        r#"(module (import "1" "x") (func (import "1" (file))) (import "1" (file) z) (import (file) (file)))"#,
    );
}

#[test]
fn import_errors() {
    match fail_feature(Feature::Import, "(func)") {
        SWLError::Other(FeatureError::Import(ImportError::NotAModule)) => {}
        _ => panic!(),
    }
    match fail_feature(Feature::Import, "(module (import path (file)))") {
        SWLError::Other(FeatureError::Import(ImportError::InvalidImport)) => {}
        _ => panic!(),
    }
    match fail_feature(Feature::Import, r#"(module (import "" (file)))"#) {
        SWLError::Other(FeatureError::Import(ImportError::InvalidImport)) => {}
        _ => panic!(),
    }
    match fail_feature(Feature::Import, r#"(module (import "9" (file)))"#) {
        SWLError::Simple(message) => assert_eq!(message, "Unknown file 9"),
        _ => panic!(),
    }
    match link_with(Feature::Import, &[br#"(module (import "1" (file)))"#, b"(func)"]) {
        Err(SWLError::Other(FeatureError::Import(ImportError::NotAModule))) => {}
        _ => panic!(),
    }
    match link_with(Feature::Import, &[br#"(module (import "1" (file)))"#, b"(module"]) {
        Err(SWLError::ParserError(ParserError::UnexpectedEOF)) => {}
        _ => panic!(),
    }
    match link_with(Feature::Import, &[br#"(module (import "1" (file)))"#, b"(module \xff)"]) {
        Err(SWLError::Other(FeatureError::InvalidUtf8)) => {}
        _ => panic!(),
    }
}

#[test]
fn data_import_simple_import() {
    let module = link_with(
        Feature::DataImport,
        &[
            br#"
                    (module
                        (data (i32.const 0) (import "1" (raw)))
                    )
                "#,
            b"\x41\x42",
        ],
    )
    .unwrap();
    assert_eq!(module.to_string(), r#"(module (data (i32.const 0) "\41\42"))"#);
}

#[test]
fn data_import_writes_lower_case_hex_for_every_byte() {
    let module = link_with(
        Feature::DataImport,
        &[br#"(module (data (import "1" (raw)) (import "1" (raw))) (x (import "1" (raw))) (data))"#, b"\x00\xff\x0a\xbc"],
    )
    .unwrap();
    assert_eq!(
        module.to_string(),
        r#"(module (data "\00\ff\0a\bc" (import "1" (raw))) (x (import "1" (raw))) (data))"#
    );
    let empty = link_with(Feature::DataImport, &[br#"(module (data (import "1" (raw))))"#, b""]).unwrap();
    assert_eq!(empty.to_string(), r#"(module (data ""))"#);
}

#[test]
fn data_import_errors() {
    match fail_feature(Feature::DataImport, "(data)") {
        SWLError::Other(FeatureError::Import(ImportError::NotAModule)) => {}
        _ => panic!(),
    }
    match fail_feature(Feature::DataImport, "(module (data (import x (raw))))") {
        SWLError::Other(FeatureError::Import(ImportError::InvalidImport)) => {}
        _ => panic!(),
    }
    match fail_feature(Feature::DataImport, r#"(module (data (import "q" (raw))))"#) {
        SWLError::Simple(message) => assert_eq!(message, "Unknown file q"),
        _ => panic!(),
    }
}

#[test]
fn hexadecimal() {
    run_feature(
        Feature::Numerals,
        &[r#"
                (module
                    (data (i32.const 0x1_0) "lol")
                )
            "#],
        r#"
                (module (data (i32.const 16) "lol"))
            "#,
    );
}

#[test]
fn binary() {
    run_feature(
        Feature::Numerals,
        &[r#"
                (module
                    (data (i32.const 0b1000_0001) "lol")
                )
            "#],
        r#"
                (module (data (i32.const 129) "lol"))
            "#,
    );
}

#[test]
fn numerals_at_the_edges() {
    run_feature(
        Feature::Numerals,
        &["(m 0x7fffffffffffffff 0x-8000000000000000 0x+ff 0xFF 0b0 0x_0_ 0b-1_1 0X10 x0x10 0 0x0000000000000000001)"],
        "(m 9223372036854775807 -9223372036854775808 255 255 0 0 -3 0X10 x0x10 0 1)",
    );
}

#[test]
fn numerals_that_cannot_be_read() {
    for bad in ["0x", "0b", "0x8000000000000000", "0b2", "0xg", "0x-", "0x1.5", "0b__", "0x-8000000000000001"] {
        match fail_feature(Feature::Numerals, &format!("(m (n ok 0x1 {}))", bad)) {
            SWLError::Other(FeatureError::Numerals(NumeralsError::InvalidNumericLiteral(text))) => assert_eq!(text, bad),
            _ => panic!(),
        }
    }
    match fail_feature(Feature::Numerals, "(m (n 0xq) 0xr)") {
        SWLError::Other(FeatureError::Numerals(NumeralsError::InvalidNumericLiteral(text))) => assert_eq!(text, "0xr"),
        _ => panic!(),
    }
}

fn string_of_length(num_pages: usize, extra_bytes: usize) -> String {
    "x".repeat(num_pages * 64 * 1024) + &"y".repeat(extra_bytes)
}

fn size_adjust_to(input: &str, expected_memory_size: usize) {
    let mut linker = Linker::new(MockLoader::new(), NoEvaluator);
    linker.features.push(Feature::SizeAdjust);
    let got = linker.link_raw(input).unwrap();
    let nodes = got.immediate_node_iter();
    let memory_node = nodes.into_iter().find(|node| node.name == "memory").unwrap();
    let memory_size = memory_node
        .immediate_attribute_iter()
        .into_iter()
        .find(|attr| attr.parse::<usize>().is_ok())
        .unwrap()
        .parse::<usize>()
        .unwrap();
    assert_eq!(memory_size, expected_memory_size);
}

#[test]
fn simple_test() {
    let input = r#"
            (module
                (memory $x)
            )
        "#;
    size_adjust_to(input, 1);
}

#[test]
fn big_data_test() {
    let input = format!(
        r#"
            (module
                (memory $x)
                (data $my_data (memory $x) "{}")
            )
        "#,
        string_of_length(1, 1)
    );
    size_adjust_to(&input, 2);
}

#[test]
fn offset_data_test() {
    let input = format!(
        r#"
            (module
                (memory $x)
                (data (memory $x) (offset (i32.const 65534)) "123")
            )
        "#
    );
    size_adjust_to(&input, 2);
}

#[test]
fn implicit_offset_data_test() {
    let input = format!(
        r#"
            (module
                (memory $x)
                (data (memory $x) (i32.const 65534) "123")
            )
        "#
    );
    size_adjust_to(&input, 2);
}

#[test]
fn passive_memory_data_test() {
    let input = format!(
        r#"
            (module
                (memory $x)
                (data "{}")
            )
        "#,
        string_of_length(4, 1)
    );
    size_adjust_to(&input, 1);
}

#[test]
fn implicit_memory_data_test() {
    let input = format!(
        r#"
            (module
                (memory $x)
                (data (i32.const 65536) "1")
            )
        "#
    );
    size_adjust_to(&input, 2);
}

fn size_adjusted(input: &str) -> String {
    let mut linker = Linker::new(MockLoader::new(), NoEvaluator);
    linker.features.push(Feature::SizeAdjust);
    linker.link_raw(input).unwrap().to_string()
}

#[test]
fn size_adjust_writes_the_page_count() {
    assert_eq!(size_adjusted("(module (memory $x))"), "(module (memory $x 1))");
    assert_eq!(size_adjusted("(module (memory $x 7 9))"), "(module (memory $x 1 9))");
    assert_eq!(size_adjusted("(module (func))"), "(module (func))");
    assert_eq!(
        size_adjusted(r#"(module (memory 1) (memory 1) (data (i32.const 65536) "123"))"#),
        r#"(module (memory 2) (memory 1) (data (i32.const 65536) "123"))"#
    );
    assert_eq!(
        size_adjusted(r#"(module (memory) (data (i32.const 65533) "123"))"#),
        r#"(module (memory 1) (data (i32.const 65533) "123"))"#
    );
    assert_eq!(
        size_adjusted(r#"(module (memory) (data (i32.const 131071) "\00" "\ff"))"#),
        r#"(module (memory 3) (data (i32.const 131071) "\00" "\ff"))"#
    );
    assert_eq!(
        size_adjusted(r#"(module (memory) (data (offset (i32.const 16777216)) "ab") (data (memory 0) "x"))"#),
        r#"(module (memory 257) (data (offset (i32.const 16777216)) "ab") (data (memory 0) "x"))"#
    );
    assert_eq!(
        size_adjusted(r#"(module (memory) (data (i32.const (x)) "\n\"\\ab"))"#),
        r#"(module (memory 1) (data (i32.const (x)) "\n\"\\ab"))"#
    );
}

fn size_adjust_error(input: &str) -> SWLError {
    let mut linker = Linker::new(MockLoader::new(), NoEvaluator);
    linker.features.push(Feature::SizeAdjust);
    match linker.link_raw(input) {
        Err(e) => e,
        Ok(_) => panic!(),
    }
}

#[test]
fn size_adjust_errors() {
    match size_adjust_error("(memory)") {
        SWLError::Other(FeatureError::SizeAdjust(SizeAdjustError::NotAModule)) => {}
        _ => panic!(),
    }
    for input in [
        "(module (data (offset x)))",
        "(module (data (offset)))",
        "(module (data (offset (i64.const 1))))",
        "(module (data (i32.const)))",
        "(module (data (offset (i32.const))))",
        r#"(module (data (i32.const 18446744073709551615) "ab"))"#,
    ] {
        match size_adjust_error(input) {
            SWLError::Other(FeatureError::SizeAdjust(SizeAdjustError::InvalidOffset)) => {}
            _ => panic!(),
        }
    }
    match size_adjust_error("(module (data (i32.const -1)))") {
        SWLError::Other(FeatureError::InvalidInteger(text)) => assert_eq!(text, "-1"),
        _ => panic!(),
    }
    match size_adjust_error(r#"(module (data (i32.const 1) "a\0"))"#) {
        SWLError::ParserError(ParserError::InvalidEscapeSequence) => {}
        _ => panic!(),
    }
}

fn sort_and_compare(input: &str, expected: &str) {
    let mut parser = Parser::new(input);
    let mut ast = parser.parse().unwrap();
    frontload_imports(&mut ast).unwrap();
    let got = ast.to_string();
    assert_eq!(&got, expected)
}

#[test]
fn sort_simple() {
    sort_and_compare(
        r#"
                (module
                    (func $1)
                    (func (import "a"))
                    (import "b"))
            "#,
        r#"
                (module (func (import "a")) (import "b") (func $1))
            "#
        .trim(),
    );
}

#[test]
fn globals() {
    sort_and_compare(
        r#"
                (module
                    (global i32 (i32.const 3))
                    (import "b"))
            "#,
        r#"
                (module (import "b") (global i32 (i32.const 3)))
            "#
        .trim(),
    );
}

#[test]
fn sort_is_stable_and_idempotent() {
    let input = "(module x (a) (import 1) y (b (c (import 2))) (d) (import 3) z)";
    let expected = "(module (import 1) (b (c (import 2))) (import 3) x (a) y (d) z)";
    let mut ast = Parser::new(input).parse().unwrap();
    frontload_imports(&mut ast).unwrap();
    assert_eq!(ast.to_string(), expected);
    frontload_imports(&mut ast).unwrap();
    assert_eq!(ast.to_string(), expected);
    let flags: Vec<bool> = ast.immediate_node_iter().into_iter().map(has_import_node).collect();
    assert_eq!(flags, vec![true, true, true, false, false]);
    run_feature(Feature::Sort, &[input], expected);
}

#[test]
fn sort_errors() {
    let mut ast = Parser::new("(func (import))").parse().unwrap();
    match frontload_imports(&mut ast) {
        Err(SWLError::Other(FeatureError::Sort(SortError::NotAModule))) => {}
        _ => panic!(),
    }
    assert_eq!(ast.to_string(), "(func (import))");
    let mut inner = Parser::new("(a (module x (import)))").parse().unwrap();
    let nested = inner.items[0].as_node_mut().unwrap();
    assert!(frontload_imports(nested).is_err());
}

#[test]
fn simple_merge() {
    let loader = loader_of(&[
        br#"
                        ;; Input
                        (module
                            (func $t1)
                            (start $t1)
                            (func $t2)
                            (start $t2)
                        )
                    "#,
        br#"
                            ;; Expected output
                            (module
                                (func $t1)
                                (func $t2)
                                (func $_swl_start_merger
                                    (call $t1)
                                    (call $t2)
                                )
                                (start $_swl_start_merger)
                            )
                        "#,
    ]);
    let mut linker = Linker::new(loader, NoEvaluator);
    linker.features.push(Feature::StartMerge);
    let got = linker.link_file("0").unwrap();
    let expected = linker.link_file("1").unwrap();
    assert_eq!(got.to_string(), expected.to_string());
    assert_eq!(
        got.to_string(),
        "(module (func $t1) (func $t2) (func $_swl_start_merger (call $t1) (call $t2)) (start $_swl_start_merger))"
    );
    let depths: Vec<usize> = got.node_iter().into_iter().map(|n| n.depth).collect();
    assert_eq!(depths, vec![0, 1, 1, 1, 2, 2, 1]);
}

#[test]
fn start_merge_leaves_none_or_one() {
    run_feature(Feature::StartMerge, &["(module (func $a))"], "(module (func $a))");
    run_feature(Feature::StartMerge, &["(module (func $a) (start $a))"], "(module (func $a) (start $a))");
    run_feature(Feature::StartMerge, &["(module (start) (func $a))"], "(module (func $a) (start))");
    run_feature(Feature::StartMerge, &["(module (f (start $a) (start $b)))"], "(module (f (start $a) (start $b)))");
}

#[test]
fn start_merge_prefers_names_to_numbers() {
    run_feature(
        Feature::StartMerge,
        &["(module (start 3 $x) (start x 7 8) (start +2) (a))"],
        "(module (a) (func $_swl_start_merger (call $x) (call 7) (call +2)) (start $_swl_start_merger))",
    );
}

#[test]
fn start_merge_errors() {
    match fail_feature(Feature::StartMerge, "(start $a)") {
        SWLError::Other(FeatureError::StartMerge(StartMergeError::NotAModule)) => {}
        _ => panic!(),
    }
    for input in ["(module (start $a) (start))", "(module (start x) (start $a))", "(module (start -1) (start 1))"] {
        match fail_feature(Feature::StartMerge, input) {
            SWLError::Other(FeatureError::StartMerge(StartMergeError::InvalidStartDirective)) => {}
            _ => panic!(),
        }
    }
}

#[test]
fn features_run_in_order_and_stop_at_the_first_failure() {
    let mut linker = Linker::new(
        loader_of(&[br#"(module (import "1" (file)) (start $a) (m 0x10))"#, b"(module (start $b) (memory))"]),
        NoEvaluator,
    );
    for feature in [Feature::Import, Feature::Numerals, Feature::SizeAdjust, Feature::StartMerge, Feature::Sort] {
        linker.features.push(feature);
    }
    assert_eq!(
        linker.link_file("0").unwrap().to_string(),
        "(module (m 16) (memory 1) (func $_swl_start_merger (call $a) (call $b)) (start $_swl_start_merger))"
    );
    let mut failing = Linker::new(MockLoader::new(), NoEvaluator);
    failing.features.push(Feature::Numerals);
    failing.features.push(Feature::Sort);
    match failing.link_raw("(func 0x)") {
        Err(SWLError::Other(FeatureError::Numerals(_))) => {}
        _ => panic!(),
    }
    match failing.link_raw("(func 0x1)") {
        Err(SWLError::Other(FeatureError::Sort(SortError::NotAModule))) => {}
        _ => panic!(),
    }
    match failing.link_raw("(func") {
        Err(SWLError::ParserError(ParserError::UnexpectedEOF)) => {}
        _ => panic!(),
    }
    let mut idle = Linker::new(MockLoader::new(), NoEvaluator);
    assert_eq!(idle.link_raw("(anything 0x1)").unwrap().to_string(), "(anything 0x1)");
}

#[test]
fn a_file_that_was_linked_is_not_imported_again() {
    let mut linker = Linker::new(loader_of(&[b"(module (a))", br#"(module (import "0" (file)) (b))"#]), NoEvaluator);
    linker.features.push(Feature::Import);
    assert_eq!(linker.link_file("0").unwrap().to_string(), "(module (a))");
    assert_eq!(linker.link_file("1").unwrap().to_string(), "(module (b))");
    assert_eq!(linker.link_file("1").unwrap().to_string(), "(module)");
    assert_eq!(linker.loaded_count(), 2);
}
