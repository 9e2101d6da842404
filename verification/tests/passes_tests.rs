use swl::error::SWLError;
use swl::eval::NoEvaluator;
use swl::linker::Linker;
use swl::loader::MockLoader;
use swl::parser::Parser;
use swl::passes::importer::importer;
use swl::passes::sorter::{frontload_imports, sorter};

fn run_importer(inputs: &[&str], expected: &str) {
    let mut loader = MockLoader::new();
    for (idx, input) in inputs.iter().enumerate() {
        loader.insert(&format!("{}", idx), input.to_string().into_bytes());
    }
    let mut linker = Linker::new(loader, NoEvaluator);
    let mut module = linker.link_file("0").unwrap();
    importer(&mut module, &mut linker).unwrap();
    assert_eq!(module.to_string(), expected.trim());
}

#[test]
fn importer_simple_import() {
    run_importer(
        &[
            r#"
                    (module
                        (import "1" (file))
                        (func $a)
                        (func $b))
                "#,
            r#"
                    (module
                        (func $c)
                        (func $d))
                "#,
        ],
        r#"
                (module (func $a) (func $b) (func $c) (func $d))
            "#,
    );
}

#[test]
fn importer_dedupe_imports() {
    run_importer(
        &[
            r#"
                    (module
                        (import "1" (file))
                        (import "1" (file))
                        (func $a)
                        (func $b))
                "#,
            r#"
                    (module
                        (func $c)
                        (func $d))
                "#,
        ],
        r#"
                (module (func $a) (func $b) (func $c) (func $d))
            "#,
    );
}

#[test]
fn table_test() {
    let table = [(
        r#"
                (module
                    (func $1)
                    (func (import "a"))
                    (import "b"))
            "#,
        r#"
                (module (func (import "a")) (import "b") (func $1))
            "#
        .trim(),
    )];
    for (input, expected) in table {
        let mut parser = Parser::new(input);
        let mut ast = parser.parse().unwrap();
        frontload_imports(&mut ast).unwrap();
        let got = ast.to_string();
        assert_eq!(&got, expected)
    }
}

#[test]
fn passes_fail_with_messages() {
    let mut linker = Linker::new(MockLoader::new(), NoEvaluator);
    let mut func = Parser::new("(func)").parse().unwrap();
    match importer(&mut func, &mut linker) {
        Err(SWLError::Simple(message)) => {
            assert_eq!(message, "Importer pass can only be applied to top-level `module` sexpr.")
        }
        _ => panic!(),
    }
    match sorter(&mut func, &mut linker) {
        Err(SWLError::Simple(message)) => assert_eq!(message, "Can only sort modules"),
        _ => panic!(),
    }
    let mut module = Parser::new("(module (import x (file)))").parse().unwrap();
    match importer(&mut module, &mut linker) {
        Err(SWLError::Simple(message)) => assert_eq!(message, "Import directive expects a string"),
        _ => panic!(),
    }
    let mut sortable = Parser::new("(module (a) (import))").parse().unwrap();
    sorter(&mut sortable, &mut linker).unwrap();
    assert_eq!(sortable.to_string(), "(module (import) (a))");
}
