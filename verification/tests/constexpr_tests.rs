use swl::ast::Node;
use swl::error::{FeatureError, SWLError};
use swl::eval::{eval_expr, evaluation_source, Evaluator, NoEvaluator, ValueType, WasmTypeName};
use swl::features::constexpr::{
    fold, get_memarg, has_constexprs, is_constexpr_node, is_memop, prelude, read_offset_expression, read_value_kind,
    set_offset, ConstExprError,
};
use swl::features::Feature;
use swl::linker::Linker;
use swl::loader::MockLoader;
use swl::parser::{Parser, ParserError};

/// An engine that answers from a list and keeps what it was asked.
struct Engine {
    answers: Vec<&'static str>,
    asked: Vec<ValueType>,
}

impl Evaluator for Engine {
    fn execute(&mut self, kind: ValueType, binary: Vec<u8>) -> Result<String, SWLError> {
        assert!(binary.starts_with(b"\0asm"));
        assert!(binary.windows(4).any(|w| w == b"main"));
        self.asked.push(kind);
        if self.answers.is_empty() {
            return Err(SWLError::Simple("trap".to_string()));
        }
        Ok(self.answers.remove(0).to_string())
    }
}

fn fold_with(answers: &[&'static str], inputs: &[&str]) -> (Result<Node, SWLError>, Vec<ValueType>) {
    let mut loader = MockLoader::new();
    for (idx, input) in inputs.iter().enumerate() {
        loader.insert(&format!("{idx}"), input.to_string().into_bytes());
    }
    let engine = Engine { answers: answers.to_vec(), asked: vec![] };
    let mut linker = Linker::new(loader, engine);
    linker.features.push(Feature::Constexpr);
    let module = linker.link_file("0");
    (module, linker.evaluator.asked)
}

fn run_constexpr(answers: &[&'static str], kinds: &[ValueType], inputs: &[&str], expected: &str) {
    let (module, asked) = fold_with(answers, inputs);
    assert_eq!(module.unwrap().to_string(), expected.trim());
    assert_eq!(asked, kinds);
}

#[test]
fn simple_constexpr_i64() {
    run_constexpr(
        &["12"],
        &[ValueType::I64],
        &[r#"
                (module
                    (data
                        (i64.constexpr
                            (i64.add
                                (i64.const 8)
                                (i64.const 4)))
                        "lol")
                )
            "#],
        r#"
                (module (data (i64.const 12) "lol"))
            "#,
    );
}

#[test]
fn simple_constexpr_f32() {
    run_constexpr(
        &["12.5"],
        &[ValueType::F32],
        &[r#"
                (module
                    (f32.constexpr
                        (f32.add
                            (f32.const 8.2)
                            (f32.const 4.3)))
                )
            "#],
        r#"
                (module (f32.const 12.5))
            "#,
    );
}

#[test]
fn simple_constexpr_f64() {
    run_constexpr(
        &["12.5"],
        &[ValueType::F64],
        &[r#"
                (module
                    (f64.constexpr
                        (f64.add
                            (f64.const 8.2)
                            (f64.const 4.3)))
                )
            "#],
        r#"
                (module (f64.const 12.5))
            "#,
    );
}

#[test]
fn simple_constexpr_i32() {
    run_constexpr(
        &["12"],
        &[ValueType::I32],
        &[r#"
                (module
                    (data
                        (i32.constexpr
                            (i32.add
                                (i32.const 8)
                                (i32.const 4)))
                        "lol")
                )
            "#],
        r#"
                (module (data (i32.const 12) "lol"))
            "#,
    );
}

#[test]
fn constexpr_with_global() {
    run_constexpr(
        &["7", "12"],
        &[ValueType::I32, ValueType::I32],
        &[r#"
                (module
                    (global $OTHER i32 (i32.constexpr (i32.const 7)))
                    (global $DATA i32 (i32.const 8))
                    (data
                        (i32.constexpr
                            (i32.add
                                (global.get $DATA)
                                (i32.const 4)))
                        "lol")
                )
            "#],
        r#"
                (module (global $OTHER i32 (i32.const 7)) (global $DATA i32 (i32.const 8)) (data (i32.const 12) "lol"))
            "#,
    );
}

#[test]
fn constexpr_offset() {
    run_constexpr(
        &["12"],
        &[ValueType::I32],
        &[r#"
                (module
                    (i32.store
                        offset=(i32.constexpr
                                (i32.add
                                    (i32.const 8)
                                    (i32.const 4)))
                        (i32.const 4))
                )
            "#],
        r#"
                (module (i32.store offset=12 (i32.const 4)))
            "#,
    );
}

#[test]
fn constexprs_fold_before_offsets_and_outermost_first() {
    run_constexpr(
        &["1", "2", "3", "4"],
        &[ValueType::I64, ValueType::I32, ValueType::I64, ValueType::I32],
        &["(module (x.load offset=(i64.constexpr (i64.const 4)) offset=(i32.const 9)) (i64.constexpr (i64.const 1) (i32.constexpr (i32.const 0))) (f (i32.constexpr (i32.const 2))) (i32.store8 a offset=(i32.constexpr (i32.const 3))=x))"],
        "(module (x.load offset=3 offset=(i32.const 9)) (i64.const 1) (f (i32.const 2)) (i32.store8 a offset=4))",
    );
}

#[test]
fn nothing_to_fold_asks_nothing() {
    run_constexpr(
        &[],
        &[],
        &["(module (i32.load offset=4 (i32.const 0)) (i32.store align=(x)) (call offset=(i32.const 1)) (i32.constexp (a)))"],
        "(module (i32.load offset=4 (i32.const 0)) (i32.store align=(x)) (call offset=(i32.const 1)) (i32.constexp (a)))",
    );
}

#[test]
fn constexpr_errors() {
    match fold_with(&[], &["(func (i32.constexpr (i32.const 1)))"]).0 {
        Err(SWLError::Other(FeatureError::ConstExpr(ConstExprError::NotAModule))) => {}
        _ => panic!(),
    }
    match fold_with(&["1"], &["(module (i16.constexpr (i32.const 1)))"]).0 {
        Err(SWLError::Other(FeatureError::ConstExpr(ConstExprError::UnknownType(t)))) => assert_eq!(t, "i16"),
        _ => panic!(),
    }
    match fold_with(&["1"], &["(module (.constexpr (i32.const 1)))"]).0 {
        Err(SWLError::Other(FeatureError::ConstExpr(ConstExprError::UnknownType(t)))) => assert_eq!(t, ""),
        _ => panic!(),
    }
    match fold_with(&["1"], &["(module (i32.constexpr))"]).0 {
        Err(SWLError::Other(FeatureError::ConstExpr(ConstExprError::ExpressionMissing))) => {}
        _ => panic!(),
    }
    match fold_with(&["1"], &["(module (i32.load offset=(i64.constexpr)))"]).0 {
        Err(SWLError::Other(FeatureError::ConstExpr(ConstExprError::ExpressionMissing))) => {}
        _ => panic!(),
    }
    match evaluation_source(&Parser::new("(i32.constexpr)").parse().unwrap(), "", "i32") {
        Err(SWLError::Simple(message)) => assert_eq!(message, "Constexpr is missing expression"),
        _ => panic!(),
    }
    match fold_with(&["1"], &["(module (i32.constexpr (i32.bogus)))"]) {
        (Err(SWLError::Other(FeatureError::Foreign(message))), asked) => {
            assert!(!message.is_empty());
            assert!(asked.is_empty());
        }
        _ => panic!(),
    }
    match fold_with(&[], &["(module (i32.constexpr (i32.const 1)))"]).0 {
        Err(SWLError::Simple(message)) => assert_eq!(message, "trap"),
        _ => panic!(),
    }
    match fold_with(&["1"], &["(module (i32.load offset=(i32.constexpr=(i32.const 1))))"]).0 {
        Err(SWLError::ParserError(ParserError::UnexpectedEOF)) => {}
        _ => panic!(),
    }
    match fold_with(&["1"], &["(module (i32.load offset=(i32.const 1)))"]).0 {
        Err(SWLError::Other(FeatureError::Foreign(_))) => {}
        _ => panic!(),
    }
}

#[test]
fn the_prelude_holds_the_globals_without_constexprs() {
    let module = Parser::new(
        "(module (global $a i32 (i32.const 1)) (f (global $n i32 (i32.const 0))) (global $b i32 (x (i32.constexpr (i32.const 2)))) global (global $c (mut i64) (i64.const 3)))",
    )
    .parse()
    .unwrap();
    assert_eq!(prelude(&module), "(global $a i32 (i32.const 1))\n(global $c (mut i64) (i64.const 3))");
    assert_eq!(prelude(&Parser::new("(module (func))").parse().unwrap()), "");
    assert!(has_constexprs(&module));
    assert!(!has_constexprs(module.items[0].as_node().unwrap()));
    assert!(is_constexpr_node(&Parser::new("(f64.constexpr)").parse().unwrap()));
    assert!(!is_constexpr_node(&Parser::new("(constexpr)").parse().unwrap()));
    assert!(is_memop(&Parser::new("(i64.load8_u)").parse().unwrap()));
    assert!(is_memop(&Parser::new("(v128.store)").parse().unwrap()));
    assert!(!is_memop(&Parser::new("(load)").parse().unwrap()));
}

#[test]
fn the_evaluation_module_has_the_prelude_and_one_function() {
    let node = Parser::new("(i32.constexpr (i32.add (i32.const 8) (i32.const 4)) ignored)").parse().unwrap();
    let text = evaluation_source(&node, "(global $g i32 (i32.const 1))", "i32").unwrap();
    assert_eq!(
        text,
        "\n\t\t\t\t\t(module\n\t\t\t\t\t\t\t(global $g i32 (i32.const 1))\n\t\t\t\t\t\t\t(func (export \"main\") (result i32)\n\t\t\t\t\t\t\t\t\t(i32.add (i32.const 8) (i32.const 4))\n\t\t\t\t\t\t\t)\n\t\t\t\t\t)\n\t\t\t"
    );
    let mut engine = Engine { answers: vec!["12"], asked: vec![] };
    assert_eq!(eval_expr(&mut engine, ValueType::I32, &node, "").unwrap(), "12");
    assert!(eval_expr(&mut NoEvaluator, ValueType::I32, &node, "").is_err());
    assert_eq!(read_value_kind("f64.constexpr").unwrap(), ValueType::F64);
    assert_eq!(read_value_kind("i64").unwrap(), ValueType::I64);
    assert_eq!(ValueType::F32.name(), "f32");
    assert_eq!(<i32 as WasmTypeName>::wasm_type_name(), "i32");
    assert_eq!(<i64 as WasmTypeName>::wasm_type_name(), "i64");
}

#[test]
fn folding_by_hand() {
    let mut node = Parser::new("(f32.constexpr (f32.const 1) x)").parse().unwrap();
    fold(&mut node, "1.5".to_string());
    assert_eq!(node.to_string(), "(f32.const 1.5)");
    let mut access = Parser::new("(i32.load a offset=(x) offset=(y))").parse().unwrap();
    assert_eq!(get_memarg(&access), 1);
    assert_eq!(get_memarg(&Parser::new("(i32.load (offset=1) align=1)").parse().unwrap()), 2);
    set_offset(&mut access, 1, "8");
    assert_eq!(access.to_string(), "(i32.load a offset=8 offset=(y))");
    assert_eq!(read_offset_expression("offset=(a b)=c"), Some("(a b)".to_string()));
    assert_eq!(read_offset_expression("offset=(a"), Some("(a".to_string()));
    assert_eq!(read_offset_expression("offset=4"), None);
    assert_eq!(read_offset_expression("offset="), None);
    assert_eq!(read_offset_expression("offset==(a)"), None);
}
