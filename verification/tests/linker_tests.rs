use swl::error::{FeatureError, SWLError};
use swl::eval::NoEvaluator;
use swl::features::{apply, Feature};
use swl::linker::Linker;
use swl::loader::{copy_bytes, module_from_bytes, Loader, MockLoader};
use swl::parser::{Parser, ParserError};

#[test]
fn a_mock_loader_hands_out_what_was_put_in() {
    let mut loader = MockLoader::new();
    loader.insert("a", b"(module (x))".to_vec());
    loader.insert("b", vec![0xff]);
    loader.insert("a", b"(module (y))".to_vec());
    assert_eq!(loader.canonicalize("a").unwrap(), "a");
    assert_eq!(loader.canonicalize("./a").unwrap(), "./a");
    assert_eq!(loader.load_raw("a").unwrap(), b"(module (y))");
    assert_eq!(loader.load_module("a").unwrap().to_string(), "(module (y))");
    match loader.load_raw("c") {
        Err(SWLError::Simple(message)) => assert_eq!(message, "Unknown file c"),
        _ => panic!(),
    }
    match loader.load_module("b") {
        Err(SWLError::Other(FeatureError::InvalidUtf8)) => {}
        _ => panic!(),
    }
    assert_eq!(copy_bytes(&vec![1, 2, 3]), vec![1, 2, 3]);
}

#[test]
fn modules_from_bytes() {
    assert_eq!(module_from_bytes("(m \u{e9})".as_bytes().to_vec()).unwrap().to_string(), "(m \u{e9})");
    match module_from_bytes(vec![b'(', b'm', 0xc3, b')']) {
        Err(SWLError::Other(FeatureError::InvalidUtf8)) => {}
        _ => panic!(),
    }
    match module_from_bytes(b"(m".to_vec()) {
        Err(SWLError::ParserError(ParserError::UnexpectedEOF)) => {}
        _ => panic!(),
    }
    match module_from_bytes(Vec::new()) {
        Err(SWLError::ParserError(ParserError::UnexpectedToken { expected, got })) => {
            assert_eq!(expected, "(");
            assert_eq!(got, "");
        }
        _ => panic!(),
    }
}

#[test]
fn the_linker_loads_each_file_once() {
    let mut loader = MockLoader::new();
    loader.insert("a", b"(module (x))".to_vec());
    loader.insert("bad", b"(module".to_vec());
    let mut linker = Linker::new(loader, NoEvaluator);
    assert_eq!(linker.loaded_count(), 0);
    assert_eq!(linker.load_module("a").unwrap().to_string(), "(module (x))");
    assert_eq!(linker.loaded_count(), 1);
    let again = linker.load_module("a").unwrap();
    assert_eq!(again.to_string(), "(module)");
    assert_eq!(again.depth, 0);
    assert!(again.items.is_empty());
    assert_eq!(linker.loaded_count(), 1);
    assert!(linker.load_module("missing").is_err());
    assert_eq!(linker.loaded_count(), 1);
    assert!(linker.load_module("bad").is_err());
    assert_eq!(linker.loaded_count(), 2);
    assert_eq!(linker.load_module("bad").unwrap().to_string(), "(module)");
    assert_eq!(linker.load_raw("a").unwrap(), b"(module (x))");
    assert_eq!(linker.canonicalize("a").unwrap(), "a");
    assert_eq!(linker.loaded_count(), 2);
}

#[test]
fn one_feature_at_a_time() {
    let mut linker = Linker::new(MockLoader::new(), NoEvaluator);
    let mut module = Parser::new("(module (a 0x2) (import))").parse().unwrap();
    apply(Feature::Sort, &mut module, &mut linker).unwrap();
    assert_eq!(module.to_string(), "(module (import) (a 0x2))");
    apply(Feature::Numerals, &mut module, &mut linker).unwrap();
    assert_eq!(module.to_string(), "(module (import) (a 2))");
    for feature in [Feature::Import, Feature::DataImport, Feature::Constexpr, Feature::SizeAdjust, Feature::StartMerge] {
        apply(feature, &mut module, &mut linker).unwrap();
        assert_eq!(module.to_string(), "(module (import) (a 2))");
    }
    assert_eq!(linker.link_module(module).unwrap().to_string(), "(module (import) (a 2))");
}

#[test]
fn the_ledger_by_hand() {
    let mut linker = Linker::new(MockLoader::new(), NoEvaluator);
    assert!(!linker.is_loaded("a"));
    linker.record("a".to_string());
    linker.record("a".to_string());
    assert!(linker.is_loaded("a"));
    assert!(!linker.is_loaded("b"));
    assert_eq!(linker.loaded_count(), 1);
    let placeholder = Linker::<MockLoader, NoEvaluator>::placeholder();
    assert_eq!(placeholder.to_string(), "(module)");
    assert_eq!(placeholder.depth, 0);
}

#[test]
fn a_plain_loader_parses_a_file_each_time_it_is_asked() {
    let mut loader = MockLoader::new();
    loader.insert("a", b"(module (x))".to_vec());
    assert_eq!(loader.load_module("a").unwrap().to_string(), "(module (x))");
    assert_eq!(loader.load_module("a").unwrap().to_string(), "(module (x))");
    match loader.load_module("missing") {
        Err(SWLError::Simple(message)) => assert_eq!(message, "Unknown file missing"),
        _ => panic!(),
    }
}

#[test]
fn linking_a_missing_file_fails_and_leaves_the_ledger() {
    let mut linker = Linker::new(MockLoader::new(), NoEvaluator);
    match linker.link_file("missing") {
        Err(SWLError::Simple(message)) => assert_eq!(message, "Unknown file missing"),
        _ => panic!(),
    }
    assert_eq!(linker.loaded_count(), 0);
    match linker.load_module("missing") {
        Err(SWLError::Simple(message)) => assert_eq!(message, "Unknown file missing"),
        _ => panic!(),
    }
    assert_eq!(linker.loaded_count(), 0);
}
