use swl::ast::{Item, Node};
use swl::parser::Parser;

fn tree(input: &str) -> Node {
    Parser::new(input).parse().unwrap()
}

#[test]
fn node_iter() {
    let table = [(
        r#"
                (module
                    (func (a))
                    (func (b) (c))
                    (func))
            "#,
        &["module", "func", "a", "func", "b", "c", "func"],
    )];
    for (input, expected) in table {
        let mut parser = Parser::new(input);
        let ast = parser.parse().unwrap();
        let nodes: Vec<String> = ast.node_iter().into_iter().map(|node| node.name.clone()).collect();
        assert_eq!(&nodes, expected)
    }
}

#[test]
fn node_iter_mut() {
    let input = r#"
            (module $u
                (func $v)
                (func (b $w) $x (c $y))
                (func $z))
        "#;
    let expected = r#"(module $u0 (func $v0) (func (b $w0) $x0 (c $y0)) (func $z0))"#;
    let mut parser = Parser::new(input);
    let mut ast = parser.parse().unwrap();
    let mut walker = ast.node_iter_mut();
    let mut visited = 0;
    while let Some(path) = walker.next(&ast) {
        let node = ast.node_at_mut(&path).unwrap();
        for place in node.immediate_attribute_iter_mut() {
            if let Some(attr) = node.items[place].as_attribute_mut() {
                *attr += "0";
            }
        }
        visited += 1;
    }
    assert_eq!(visited, 6);
    assert_eq!(&ast.to_string(), expected)
}

#[test]
fn the_walker_visits_in_preorder() {
    let ast = tree("(a (b (c) x (d)) y (e))");
    let mut walker = ast.node_iter_mut();
    let mut names = Vec::new();
    let mut paths = Vec::new();
    while let Some(path) = walker.next(&ast) {
        names.push(ast.node_at(&path).unwrap().name.clone());
        paths.push(path);
    }
    assert_eq!(names, vec!["a", "b", "c", "d", "e"]);
    assert_eq!(paths, vec![vec![], vec![0], vec![0, 0], vec![0, 2], vec![2]]);
    assert!(ast.node_at(&vec![1]).is_none());
    assert!(ast.node_at(&vec![7]).is_none());
}

#[test]
fn immediate_children_by_kind() {
    let mut ast = tree("(a x (b) y (c (d)) \"z\")");
    ast.items[0] = Item::Nothing;
    let names: Vec<&str> = ast.immediate_node_iter().into_iter().map(|n| n.name.as_str()).collect();
    assert_eq!(names, vec!["b", "c"]);
    assert_eq!(ast.immediate_attribute_iter(), vec!["y", "\"z\""]);
    assert_eq!(ast.immediate_node_iter_mut(), vec![1, 3]);
    assert_eq!(ast.immediate_attribute_iter_mut(), vec![2, 4]);
}

#[test]
fn tombstones_are_not_written() {
    let mut ast = tree("(a x (b) y)");
    ast.items[1] = Item::Nothing;
    assert_eq!(ast.to_string(), "(a x y)");
    ast.items[0] = Item::Nothing;
    ast.items[2] = Item::Nothing;
    assert_eq!(ast.to_string(), "(a)");
    assert_eq!(Item::Nothing.to_string(), "");
    assert_eq!(Item::Attribute("q".to_string()).to_string(), "q");
    assert_eq!(Item::Node(tree("(n m)")).to_string(), "(n m)");
}

#[test]
fn item_accessors() {
    let mut node = Item::Node(tree("(n)"));
    let mut attr = Item::Attribute("a".to_string());
    let mut nothing = Item::Nothing;
    assert_eq!(node.as_node().unwrap().name, "n");
    assert!(attr.as_node().is_none());
    assert!(nothing.as_node().is_none());
    assert_eq!(attr.as_attribute(), Some("a"));
    assert!(node.as_attribute().is_none());
    assert!(nothing.is_nothing());
    assert!(!node.is_nothing());
    assert!(!attr.is_nothing());
    node.as_node_mut().unwrap().name.push('x');
    attr.as_attribute_mut().unwrap().push('b');
    assert!(nothing.as_node_mut().is_none());
    assert!(nothing.as_attribute_mut().is_none());
    assert_eq!(attr.as_attribute(), Some("ab"));
    assert_eq!(node.into_node().name, "nx");
}

#[test]
fn append_node_adds_the_depth_of_the_parent() {
    let mut root = tree("(a (b))");
    let inner = root.items[0].as_node_mut().unwrap();
    let addition = Node {
        name: "c".to_string(),
        depth: 1,
        items: vec![Item::Node(Node { name: "d".to_string(), depth: 2, items: vec![] }), Item::Attribute("e".to_string())],
    };
    inner.append_node(addition);
    assert_eq!(root.to_string(), "(a (b (c (d) e)))");
    let depths: Vec<usize> = root.node_iter().into_iter().map(|n| n.depth).collect();
    assert_eq!(depths, vec![0, 1, 2, 3]);
}

struct Renamer {
    nodes: usize,
    attributes: usize,
}

impl swl::ast::Visitor for Renamer {
    fn visit_node(&mut self, node: &mut Node) {
        self.nodes += 1;
        node.name.push_str(&self.nodes.to_string());
    }

    fn visit_attribute(&mut self, attr: &mut String) {
        self.attributes += 1;
        attr.push('!');
    }
}

struct Idle;

impl swl::ast::Visitor for Idle {
    fn visit_node(&mut self, _node: &mut Node) {}

    fn visit_attribute(&mut self, _attr: &mut String) {}
}

#[test]
fn walk_mut_calls_each_hook_once() {
    let mut ast = tree("(a x (b y (c)) z (d))");
    let mut renamer = Renamer { nodes: 0, attributes: 0 };
    ast.walk_mut(&mut renamer);
    assert_eq!(renamer.nodes, 4);
    assert_eq!(renamer.attributes, 3);
    assert_eq!(ast.to_string(), "(a1 x! (b2 y! (c3)) z! (d4))");
    let before = ast.to_string();
    ast.walk_mut(&mut Idle);
    assert_eq!(ast.to_string(), before);
}

#[test]
fn a_clone_is_equal_and_apart() {
    let ast = tree("(a x (b \"y\" (c)) z)");
    let mut copy = ast.clone();
    assert_eq!(copy, ast);
    copy.items[1].as_node_mut().unwrap().name.push('!');
    assert_eq!(ast.to_string(), "(a x (b \"y\" (c)) z)");
    assert_eq!(copy.to_string(), "(a x (b! \"y\" (c)) z)");
    assert_eq!(Item::Nothing.clone(), Item::Nothing);
    assert_eq!(ast.items[0].clone(), Item::Attribute("x".to_string()));
}

struct Recorder {
    calls: Vec<String>,
}

impl swl::ast::Visitor for Recorder {
    fn visit_node(&mut self, node: &mut Node) {
        self.calls.push(format!("node {}", node.name));
    }

    fn visit_attribute(&mut self, attr: &mut String) {
        self.calls.push(format!("attribute {}", attr));
    }
}

#[test]
fn walk_mut_calls_the_hooks_in_preorder() {
    let mut ast = tree("(a x (b y) z)");
    let mut recorder = Recorder { calls: Vec::new() };
    ast.walk_mut(&mut recorder);
    assert_eq!(recorder.calls, vec!["node a", "attribute x", "node b", "attribute y", "attribute z"]);
    assert_eq!(ast.to_string(), "(a x (b y) z)");
}

#[test]
fn an_idle_walk_leaves_the_tree() {
    let mut ast = tree("(a x (b y (c)) z (d))");
    ast.walk_mut(&mut swl::hooks::Idle);
    assert_eq!(ast.to_string(), "(a x (b y (c)) z (d))");
}
