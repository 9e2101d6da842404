//! Embeds files into data segments: an import of raw bytes gives way to a string literal.
use crate::ast::{
    first_index, item_view, lemma_first_index, lemma_first_index_is, lemma_items_view,
    lemma_items_view_update, nested_at, Item, ItemView, Node, NodeView,
};
use crate::error::{fails_with, ErrorView, FeatureError, SWLError};
use crate::eval::Evaluator;
use crate::features::import::{import_path, is_import_node, is_import_of, read_import_path, ImportError};
use crate::linker::Linker;
use crate::loader::{lasting, lemma_lasting_on, Loader};
use crate::text::{digit_char, digit_to_char, text_eq};
use crate::utils::{is_module, is_module_view, is_quoted, unquoted};
use vstd::prelude::*;

verus! {

/// Whether the item is an import of raw bytes: `(import "<path>" (raw))`.
pub open spec fn is_raw_import(item: ItemView) -> bool {
    is_import_of(item, "raw"@)
}

/// The place of the first import of raw bytes among the items of a node.
pub open spec fn raw_import_index(n: NodeView) -> int {
    first_index(n.items, |item: ItemView| is_raw_import(item))
}

/// Whether the item is a data segment that imports raw bytes.
pub open spec fn is_importing_data(item: ItemView) -> bool {
    item matches ItemView::Node(n) && n.name == "data"@ && raw_import_index(n) < n.items.len()
}

/// The bytes as escapes: for each byte a backslash and two hexadecimal digits in lower case.
pub open spec fn escapes(bytes: Seq<u8>) -> Seq<char>
    decreases bytes.len(),
{
    if bytes.len() == 0 {
        Seq::empty()
    } else {
        escapes(bytes.drop_last()) + seq![
            '\\',
            digit_char((bytes.last() / 16) as nat),
            digit_char((bytes.last() % 16) as nat),
        ]
    }
}

/// The string literal that stands for the bytes.
pub open spec fn escaped(bytes: Seq<u8>) -> Seq<char> {
    seq!['"'] + escapes(bytes) + seq!['"']
}

/// The data segment with the literal for `bytes` in place of its first import of raw bytes.
pub open spec fn embedded(data: NodeView, bytes: Seq<u8>) -> NodeView {
    NodeView { items: data.items.update(raw_import_index(data), ItemView::Attribute(escaped(bytes))), ..data }
}

/// Whether `after` has the shape of what embedding makes of the item `before`: the item
/// itself, or, for a data segment that imports raw bytes, the segment with some bytes
/// embedded. Which bytes, this does not say: it holds of whatever a loader finds, and
/// [`embedding`] says what comes of what a given loader finds.
pub open spec fn is_embedding(before: ItemView, after: ItemView) -> bool {
    if is_importing_data(before) {
        exists|bytes: Seq<u8>| after == ItemView::Node(#[trigger] embedded(before.node(), bytes))
    } else {
        after == before
    }
}

/// The path of the first import of raw bytes of a data segment, as it is written.
pub open spec fn raw_path(data: NodeView) -> Seq<char> {
    import_path(data.items[raw_import_index(data)])
}

/// What embedding makes of the item with the loader, where the loader decides it: the
/// item itself, unless it is a data segment that imports raw bytes; for such a segment
/// the failure of a path that is no string literal, the loader's failure to find the
/// bytes, or the segment with the bytes embedded.
pub open spec fn embedding<L: Loader>(loader: &L, item: ItemView) -> Option<Result<ItemView, ErrorView>> {
    if !is_importing_data(item) {
        Some(Ok(item))
    } else if !is_quoted(raw_path(item.node())) {
        Some(Err(ErrorView::Import(ImportError::InvalidImport)))
    } else {
        match loader.contents(unquoted(raw_path(item.node()))) {
            None => None,
            Some(Err(e)) => Some(Err(e)),
            Some(Ok(bytes)) => Some(Ok(ItemView::Node(embedded(item.node(), bytes)))),
        }
    }
}

/// What embedding makes of the items, one after the other, where the loader decides it:
/// the first failure, or each item with its bytes embedded.
pub open spec fn embedded_items<L: Loader>(loader: &L, items: Seq<ItemView>) -> Option<
    Result<Seq<ItemView>, ErrorView>,
>
    decreases items.len(),
{
    if items.len() == 0 {
        Some(Ok(items))
    } else {
        match embedded_items(loader, items.drop_last()) {
            None => None,
            Some(Err(e)) => Some(Err(e)),
            Some(Ok(done)) => match embedding(loader, items.last()) {
                None => None,
                Some(Err(e)) => Some(Err(e)),
                Some(Ok(item)) => Some(Ok(done.push(item))),
            },
        }
    }
}

/// Where the whole is decided, each part at its front is: a failure there is the
/// failure of the whole.
pub proof fn lemma_embedded_front<L: Loader>(loader: &L, items: Seq<ItemView>, upto: int)
    requires
        0 <= upto <= items.len(),
        embedded_items(loader, items) is Some,
    ensures
        embedded_items(loader, items.take(upto)) is Some,
        embedded_items(loader, items.take(upto)) matches Some(Err(e)) ==> embedded_items(loader, items) == Some(
            Err::<Seq<ItemView>, ErrorView>(e),
        ),
    decreases items.len() - upto,
{
    if upto == items.len() {
        assert(items.take(upto) == items);
    } else {
        lemma_embedded_front(loader, items, upto + 1);
        assert(items.take(upto + 1).drop_last() == items.take(upto));
    }
}

/// What the feature makes of a module with the loader, where the loader decides it.
pub open spec fn data_imported<L: Loader>(loader: &L, m: NodeView) -> Option<Result<NodeView, ErrorView>> {
    if !is_module_view(m) {
        Some(Err(ErrorView::Import(ImportError::NotAModule)))
    } else {
        match embedded_items(loader, m.items) {
            None => None,
            Some(Err(e)) => Some(Err(e)),
            Some(Ok(items)) => Some(Ok(NodeView { items, ..m })),
        }
    }
}

/// What is decided of the embedding with one loader is decided alike with a loader in
/// which all that the first decides lasts.
pub proof fn lemma_embedded_lasts<L: Loader>(before: &L, after: &L, items: Seq<ItemView>)
    requires
        lasting(before, after),
        embedded_items(before, items) is Some,
    ensures
        embedded_items(after, items) == embedded_items(before, items),
    decreases items.len(),
{
    if items.len() > 0 {
        lemma_embedded_lasts(before, after, items.drop_last());
        if embedded_items(before, items.drop_last()) matches Some(Ok(_)) {
            let item = items.last();
            if is_importing_data(item) && is_quoted(raw_path(item.node())) {
                assert(after.contents(unquoted(raw_path(item.node()))) == before.contents(
                    unquoted(raw_path(item.node())),
                ));
            }
        }
    }
}

/// Embedding keeps the depths of an item true.
pub proof fn embedding_keeps_depths(before: ItemView, after: ItemView, depth: nat)
    requires
        is_embedding(before, after),
        before matches ItemView::Node(c) ==> nested_at(c, depth),
    ensures
        after matches ItemView::Node(d) ==> nested_at(d, depth),
{
    if is_importing_data(before) {
        let data = before.node();
        let bytes = choose|bytes: Seq<u8>| after == ItemView::Node(#[trigger] embedded(data, bytes));
        let d = embedded(data, bytes);
        lemma_first_index(data.items, |item: ItemView| is_raw_import(item));
        assert forall|i: int| 0 <= i < d.items.len() implies (#[trigger] d.items[i] matches ItemView::Node(c) ==> nested_at(
            c,
            depth + 1,
        )) by {
            if i != raw_import_index(data) {
                assert(d.items[i] == data.items[i]);
            }
        }
    }
}

/// Writes the string literal that stands for the bytes.
pub fn escaped_literal(bytes: &Vec<u8>) -> (literal: String)
    ensures
        literal@ == escaped(bytes@),
{
    let mut literal = String::new();
    literal.push('"');
    let mut i: usize = 0;
    while i < bytes.len()
        invariant
            i <= bytes.len(),
            literal@ == seq!['"'] + escapes(bytes@.take(i as int)),
        decreases bytes.len() - i,
    {
        proof {
            assert(bytes@.take(i + 1).drop_last() == bytes@.take(i as int));
            assert(bytes@.take(i + 1).last() == bytes@[i as int]);
        }
        let b = bytes[i];
        literal.push('\\');
        literal.push(digit_to_char(b / 16));
        literal.push(digit_to_char(b % 16));
        assert(literal@ =~= seq!['"'] + escapes(bytes@.take(i + 1)));
        i += 1;
    }
    assert(bytes@.take(bytes@.len() as int) == bytes@);
    literal.push('"');
    assert(literal@ =~= escaped(bytes@));
    literal
}

/// The place of the first import of raw bytes among the items of a node.
pub fn find_raw_import(node: &Node) -> (k: usize)
    ensures
        k == raw_import_index(node@),
        k <= node.items.len(),
        k < node.items.len() ==> node.items@[k as int] is Node,
{
    let ghost views = node@.items;
    let ghost p = |item: ItemView| is_raw_import(item);
    proof {
        lemma_items_view(node.items@);
    }
    let mut i: usize = 0;
    while i < node.items.len()
        invariant
            i <= node.items.len(),
            views == node@.items,
            views.len() == node.items.len(),
            p == |item: ItemView| is_raw_import(item),
            forall|j: int| 0 <= j < node.items.len() ==> #[trigger] views[j] == item_view(node.items@[j]),
            forall|j: int| 0 <= j < i ==> !p(#[trigger] views[j]),
        decreases node.items.len() - i,
    {
        if let Item::Node(child) = &node.items[i] {
            if is_import_node(child, "raw") {
                proof {
                    lemma_first_index_is(views, p, i as int);
                }
                return i;
            }
        }
        i += 1;
    }
    proof {
        lemma_first_index_is(views, p, views.len() as int);
    }
    i
}

/// Puts the string literal for `bytes` in place of the first import of raw bytes of a
/// data segment.
pub fn embed(data: &mut Node, bytes: &Vec<u8>)
    requires
        raw_import_index(old(data)@) < old(data)@.items.len(),
    ensures
        final(data)@ == embedded(old(data)@, bytes@),
{
    let k = find_raw_import(data);
    let literal = Item::Attribute(escaped_literal(bytes));
    proof {
        lemma_items_view(data.items@);
        lemma_items_view_update(data.items@, k as int, literal);
    }
    data.items[k] = literal;
}

/// The path that a data segment imports raw bytes from, where the item is such a segment.
pub fn raw_import_path(item: &Item) -> (r: Option<Result<String, SWLError>>)
    ensures
        r is Some == is_importing_data(item@),
        r matches Some(found) ==> {
            let written = import_path(item@.node().items[raw_import_index(item@.node())]);
            match found {
                Ok(path) => is_quoted(written) && path@ == crate::utils::unquoted(written),
                Err(e) => !is_quoted(written) && e@ == ErrorView::Import(ImportError::InvalidImport),
            }
        },
{
    match item {
        Item::Node(data) => {
            proof {
                lemma_items_view(data.items@);
                lemma_first_index(data@.items, |item: ItemView| is_raw_import(item));
            }
            if !text_eq(data.name.as_str(), "data") {
                return None;
            }
            let at = find_raw_import(data);
            if at >= data.items.len() {
                return None;
            }
            match &data.items[at] {
                Item::Node(directive) => Some(read_import_path(directive)),
                _ => None,
            }
        },
        _ => None,
    }
}

/// Embeds the files that the data segments of a module import.
///
/// In each item `data` of the module, the first item `(import "<path>" (raw))` gives way
/// to a string literal that holds the bytes of the file at the path, each as a backslash
/// and two hexadecimal digits. The bytes come from the linker's loader as they are.
///
/// Where the loader decides what it finds at each path, the outcome is what
/// [`data_imported`] says: every segment with the bytes of its file, or the first
/// failure. Whatever the loader says: a node that is not the root of a module fails at
/// once, a module without such imports stays as it is, and so does one whose first such
/// import has a path that is no string literal, which fails.
pub fn data_import<L: Loader, E: Evaluator>(module: &mut Node, linker: &mut Linker<L, E>) -> (r: Result<
    (),
    SWLError,
>)
    ensures
        final(linker).loaded() == old(linker).loaded(),
        final(linker).features == old(linker).features,
        final(module)@.name == old(module)@.name,
        final(module)@.depth == old(module)@.depth,
        final(module)@.items.len() == old(module)@.items.len(),
        !is_module_view(old(module)@) ==> fails_with(r, ErrorView::Import(ImportError::NotAModule)) && final(module)@
            == old(module)@,
        is_module_view(old(module)@) ==> {
            let k = first_index(old(module)@.items, |item: ItemView| is_importing_data(item));
            &&& k >= old(module)@.items.len() ==> r is Ok && final(module)@ == old(module)@
            &&& k < old(module)@.items.len() && !is_quoted(
                import_path(old(module)@.items[k].node().items[raw_import_index(old(module)@.items[k].node())]),
            ) ==> fails_with(r, ErrorView::Import(ImportError::InvalidImport)) && final(module)@ == old(module)@
        },
        r is Ok ==> forall|i: int|
            0 <= i < old(module)@.items.len() ==> is_embedding(old(module)@.items[i], #[trigger] final(module)@.items[i]),
        r is Ok ==> forall|i: int|
            0 <= i < old(module)@.items.len() ==> (embedding(&old(linker).loader, old(module)@.items[i]) matches Some(
                Ok(item),
            ) ==> #[trigger] final(module)@.items[i] == item),
        data_imported(&old(linker).loader, old(module)@) matches Some(outcome) ==> match outcome {
            Ok(m) => r is Ok && final(module)@ == m,
            Err(e) => fails_with(r, e),
        },
        lasting(&old(linker).loader, &final(linker).loader),
        final(linker).evaluator == old(linker).evaluator,
        r is Ok && nested_at(old(module)@, 0) ==> nested_at(final(module)@, 0),
{
    if !is_module(module) {
        return Err(SWLError::Other(FeatureError::Import(ImportError::NotAModule)));
    }
    let ghost views = module@.items;
    let ghost p = |item: ItemView| is_importing_data(item);
    let ghost k = first_index(views, p);
    proof {
        lemma_items_view(module.items@);
        lemma_first_index(views, p);
    }
    let n = module.items.len();
    let mut i: usize = 0;
    while i < n
        invariant
            i <= n,
            n == views.len(),
            n == module.items.len(),
            views == old(module)@.items,
            p == |item: ItemView| is_importing_data(item),
            k == first_index(views, p),
            0 <= k <= n,
            is_module_view(old(module)@),
            module@.name == old(module)@.name,
            module@.depth == old(module)@.depth,
            linker.loaded() == old(linker).loaded(),
            linker.features == old(linker).features,
            forall|j: int| i <= j < n ==> #[trigger] item_view(module.items@[j]) == views[j],
            forall|j: int| 0 <= j < i ==> is_embedding(views[j], #[trigger] item_view(module.items@[j])),
            lasting(&old(linker).loader, &linker.loader),
            linker.evaluator == old(linker).evaluator,
            forall|j: int|
                0 <= j < i ==> (embedding(&old(linker).loader, views[j]) matches Some(Ok(item)) ==> #[trigger] item_view(
                    module.items@[j],
                ) == item),
            embedded_items(&old(linker).loader, views.take(i as int)) matches Some(outcome) ==> outcome == Ok::<
                Seq<ItemView>,
                ErrorView,
            >(module@.items.take(i as int)),
            i <= k ==> module@ == old(module)@,
            i > k ==> is_quoted(import_path(views[k].node().items[raw_import_index(views[k].node())])),
        decreases n - i,
    {
        proof {
            lemma_first_index(views, p);
            assert(item_view(module.items@[i as int]) == views[i as int]);
        }
        let found = raw_import_path(&module.items[i]);
        let ghost front = module@.items.take(i as int);
        let ghost prior = linker.loader;
        proof {
            lemma_items_view(module.items@);
            if found is Some && i <= k {
                assert(k == i);
            }
            if found.is_none() {
                assert(k != i);
            }
            assert(views.take(i + 1).drop_last() == views.take(i as int));
            assert(views.take(i + 1).last() == views[i as int]);
            if embedded_items(&old(linker).loader, views) is Some {
                lemma_embedded_front(&old(linker).loader, views, i + 1);
                lemma_embedded_front(&old(linker).loader, views, i as int);
            }
        }
        match found {
            None => {},
            Some(Err(e)) => {
                return Err(e);
            },
            Some(Ok(path)) => {
                let bytes = match linker.load_raw(path.as_str()) {
                    Ok(bytes) => bytes,
                    Err(e) => {
                        return Err(e);
                    },
                };
                proof {
                    lemma_lasting_on(&old(linker).loader, &prior, &linker.loader);
                }
                match &mut module.items[i] {
                    Item::Node(data) => {
                        embed(data, &bytes);
                    },
                    _ => {},
                }
                proof {
                    assert(item_view(module.items@[i as int]) == ItemView::Node(embedded(views[i as int].node(), bytes@)));
                }
            },
        }
        proof {
            lemma_items_view(module.items@);
            assert(module@.items.take(i as int) =~= front);
            assert(module@.items.take(i + 1) =~= front.push(module@.items[i as int]));
        }
        i += 1;
    }
    proof {
        lemma_items_view(module.items@);
        assert(views.take(n as int) == views);
        assert(module@.items.take(n as int) == module@.items);
        if k >= n {
            assert forall|j: int| 0 <= j < n implies #[trigger] module@.items[j] == views[j] by {
                assert(!p(views[j]));
                assert(is_embedding(views[j], item_view(module.items@[j])));
            }
            assert(module@.items =~= views);
        }
        if nested_at(old(module)@, 0) {
            assert forall|j: int| 0 <= j < n implies (#[trigger] module@.items[j] matches ItemView::Node(c) ==> nested_at(
                c,
                1,
            )) by {
                assert(is_embedding(views[j], item_view(module.items@[j])));
                embedding_keeps_depths(views[j], module@.items[j], 1);
            }
        }
    }
    Ok(())
}

} // verus!
