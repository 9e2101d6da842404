use swl::features::sort::{frontload_imports, has_import_node};
use swl::parser::Parser;
use swl::pretty::pretty_print;

/// A small generator of numbers that gives the same run each time.
struct Numbers(u64);

impl Numbers {
    fn next(&mut self, below: usize) -> usize {
        self.0 = self.0.wrapping_mul(6364136223846793005).wrapping_add(1442695040888963407);
        ((self.0 >> 33) as usize) % below
    }
}

const NAMES: [&str; 8] = ["module", "func", "import", "i32.const", "param", "data", "a-b", "x_1"];
const WORDS: [&str; 10] = ["$a", "1", "0x10", "i32", "\"s t\"", "\"\\\"\"", "offset=(i32.const 4)", "a.b", "=", "\u{e9}"];
const BLANKS: [&str; 6] = [" ", "\n", "\t ", " ;; c\n", " (; d ;) ", "  "];

fn form(numbers: &mut Numbers, depth: usize, blanks: &[&str], out: &mut String) {
    out.push('(');
    out.push_str(BLANKS[numbers.next(3)].trim_start_matches(' '));
    out.push_str(NAMES[numbers.next(NAMES.len())]);
    let items = numbers.next(5);
    for _ in 0..items {
        out.push_str(blanks[numbers.next(blanks.len())]);
        if depth < 4 && numbers.next(3) == 0 {
            form(numbers, depth + 1, blanks, out);
        } else {
            out.push_str(WORDS[numbers.next(WORDS.len())]);
        }
    }
    if numbers.next(2) == 0 {
        out.push_str(blanks[numbers.next(blanks.len())]);
    }
    out.push(')');
}

#[test]
fn random_documents_round_trip() {
    let mut numbers = Numbers(7);
    for _ in 0..300 {
        let mut text = String::new();
        form(&mut numbers, 0, &BLANKS, &mut text);
        let tree = Parser::new(&text).parse().unwrap();
        let once = tree.to_string();
        let again = Parser::new(&once).parse().unwrap();
        assert_eq!(again, tree);
        assert_eq!(again.to_string(), once);
        let depths_fit = tree.node_iter().into_iter().all(|n| n.depth <= 4);
        assert!(depths_fit);
        assert_eq!(tree.clone(), tree);
    }
}

#[test]
fn random_modules_sort_into_two_runs() {
    let mut numbers = Numbers(11);
    for _ in 0..300 {
        let mut text = String::from("(module");
        for _ in 0..numbers.next(8) {
            text.push(' ');
            if numbers.next(4) == 0 {
                text.push_str(WORDS[numbers.next(WORDS.len())]);
            } else {
                form(&mut numbers, 1, &BLANKS[..3], &mut text);
            }
        }
        text.push(')');
        let before = Parser::new(&text).parse().unwrap();
        let mut sorted = before.clone();
        frontload_imports(&mut sorted).unwrap();
        let fronts: Vec<bool> =
            sorted.items.iter().map(|item| item.as_node().map(has_import_node).unwrap_or(false)).collect();
        let first_back = fronts.iter().position(|front| !front).unwrap_or(fronts.len());
        assert!(fronts[first_back..].iter().all(|front| !front));
        let kept_front: Vec<_> =
            before.items.iter().filter(|item| item.as_node().map(has_import_node).unwrap_or(false)).collect();
        let kept_back: Vec<_> =
            before.items.iter().filter(|item| !item.as_node().map(has_import_node).unwrap_or(false)).collect();
        assert_eq!(sorted.items[..first_back].iter().collect::<Vec<_>>(), kept_front);
        assert_eq!(sorted.items[first_back..].iter().collect::<Vec<_>>(), kept_back);
        let once = sorted.to_string();
        frontload_imports(&mut sorted).unwrap();
        assert_eq!(sorted.to_string(), once);
    }
}

#[test]
fn random_texts_without_comments_print_to_fixed_points() {
    let mut numbers = Numbers(13);
    for _ in 0..300 {
        let mut text = String::new();
        for _ in 0..1 + numbers.next(3) {
            form(&mut numbers, 0, &BLANKS[..3], &mut text);
            text.push_str(BLANKS[numbers.next(3)]);
        }
        let once = pretty_print(&text).unwrap();
        let twice = pretty_print(&once).unwrap();
        assert_eq!(once, twice);
        let tree = Parser::new(&format!("(all {})", text)).parse().unwrap();
        let printed = Parser::new(&format!("(all {})", once)).parse().unwrap();
        assert_eq!(printed, tree);
    }
}
