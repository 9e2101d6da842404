//! Resolves file imports: puts the items of the imported modules behind the items of
//! the module that imports them.
use crate::ast::{
    first_index, is_node_named, item_view, lemma_first_index, lemma_items_view, lemma_items_view_update,
    nested_at, Item, ItemView, Node, NodeView,
};
use crate::error::{fails_with, ErrorView, FeatureError, SWLError};
use crate::eval::Evaluator;
use crate::linker::{found_at, ledger_behind, Linker};
use crate::loader::{lasting, lemma_lasting_on, Loader};
use crate::text::{string_of_range, text_eq, to_chars};
use crate::utils::{is_module, is_module_view, is_quoted, is_string_literal, unquoted};
use vstd::prelude::*;

verus! {

/// Why an import cannot be resolved.
#[derive(Debug, Clone, Copy, PartialEq, Eq, Structural)]
pub enum ImportError {
    /// The node is not the root of a module.
    NotAModule,
    /// The path of an import is no string literal.
    InvalidImport,
}

/// Whether the item is an import directive of the given kind: a node `import` with two
/// items, an attribute and a node named `kind`.
pub open spec fn is_import_of(item: ItemView, kind: Seq<char>) -> bool {
    item matches ItemView::Node(n) && n.name == "import"@ && n.items.len() == 2 && n.items[0] is Attribute
        && is_node_named(n.items[1], kind)
}

/// Whether the item is a file import: `(import "<path>" (file))`.
pub open spec fn is_file_import(item: ItemView) -> bool {
    is_import_of(item, "file"@)
}

/// The path of an import directive, as it is written.
pub open spec fn import_path(item: ItemView) -> Seq<char> {
    item.node().items[0].text()
}

/// The items with a tombstone in place of each file import among the first `upto`.
pub open spec fn without_imports(items: Seq<ItemView>, upto: int) -> Seq<ItemView> {
    Seq::new(
        items.len(),
        |i: int|
            if i < upto && is_file_import(items[i]) {
                ItemView::Nothing
            } else {
                items[i]
            },
    )
}

/// What resolving the file imports among the items from place `from` up to place `n`
/// makes of the items and of the ledger, where the loader decides what it finds at each
/// path: the first failure, or the items and the ledger behind the last import.
///
/// A file import gives way to a tombstone. The module at its path is found as a linker
/// with this loader and this ledger finds it; where the file is new to the ledger, its
/// own file imports are resolved first; then its items are put behind all others. The
/// ledger only grows, and nothing is decided once it would outgrow the machine's numbers.
pub open spec fn resolved<L: Loader>(
    loader: &L,
    ledger: Set<Seq<char>>,
    items: Seq<ItemView>,
    n: int,
    from: int,
) -> Option<Result<(Seq<ItemView>, Set<Seq<char>>), ErrorView>>
    decreases usize::MAX - ledger.len(), n - from,
{
    if from < 0 || from >= n || n > items.len() {
        Some(Ok((items, ledger)))
    } else if !is_file_import(items[from]) {
        resolved(loader, ledger, items, n, from + 1)
    } else if !is_quoted(import_path(items[from])) {
        Some(Err(ErrorView::Import(ImportError::InvalidImport)))
    } else {
        let path = unquoted(import_path(items[from]));
        match found_at(loader, ledger, path) {
            None => None,
            Some(Err(e)) => Some(Err(e)),
            Some(Ok(found)) => {
                let grown = ledger_behind(loader, ledger, path);
                let inner = if grown.len() <= ledger.len() {
                    Some(Ok((found.items, grown)))
                } else if grown.len() > usize::MAX {
                    None
                } else if !is_module_view(found) {
                    Some(Err(ErrorView::Import(ImportError::NotAModule)))
                } else {
                    resolved(loader, grown, found.items, found.items.len() as int, 0)
                };
                match inner {
                    None => None,
                    Some(Err(e)) => Some(Err(e)),
                    Some(Ok((added, after))) => if ledger.len() <= after.len() <= usize::MAX {
                        resolved(loader, after, items.update(from, ItemView::Nothing) + added, n, from + 1)
                    } else {
                        None
                    },
                }
            },
        }
    }
}

/// What resolving its file imports makes of a module and of the ledger, where the loader
/// decides it.
pub open spec fn imported<L: Loader>(loader: &L, ledger: Set<Seq<char>>, module: NodeView) -> Option<
    Result<(NodeView, Set<Seq<char>>), ErrorView>,
> {
    if !is_module_view(module) {
        Some(Err(ErrorView::Import(ImportError::NotAModule)))
    } else {
        match resolved(loader, ledger, module.items, module.items.len() as int, 0) {
            None => None,
            Some(Err(e)) => Some(Err(e)),
            Some(Ok((items, after))) => Some(Ok((NodeView { items, ..module }, after))),
        }
    }
}

/// What is decided of the imports of a module with one loader is decided alike with a
/// loader in which all that the first decides lasts.
pub proof fn lemma_imported_lasts<L: Loader>(before: &L, after: &L, ledger: Set<Seq<char>>, module: NodeView)
    requires
        lasting(before, after),
        imported(before, ledger, module) is Some,
    ensures
        imported(after, ledger, module) == imported(before, ledger, module),
{
    if is_module_view(module) {
        lemma_resolved_lasts(before, after, ledger, module.items, module.items.len() as int, 0);
    }
}

/// An import of a file that the ledger holds leaves a tombstone and adds nothing: the
/// items and the ledger behind it are those of the items without the directive.
pub proof fn a_loaded_file_adds_nothing<L: Loader>(
    loader: &L,
    ledger: Set<Seq<char>>,
    items: Seq<ItemView>,
    n: int,
    from: int,
)
    requires
        0 <= from < n <= items.len(),
        ledger.finite(),
        ledger.len() <= usize::MAX,
        is_file_import(items[from]),
        is_quoted(import_path(items[from])),
        loader.identity(unquoted(import_path(items[from]))) matches Some(Ok(id)) && ledger.contains(id),
    ensures
        resolved(loader, ledger, items, n, from) == resolved(
            loader,
            ledger,
            items.update(from, ItemView::Nothing),
            n,
            from + 1,
        ),
{
    let path = unquoted(import_path(items[from]));
    let id = loader.identity(path)->0->Ok_0;
    assert(ledger.insert(id) =~= ledger);
    assert(ledger_behind(loader, ledger, path) == ledger);
    assert(found_at(loader, ledger, path) == Some(Ok::<NodeView, ErrorView>(crate::linker::empty_module())));
    assert(items.update(from, ItemView::Nothing) + crate::linker::empty_module().items =~= items.update(
        from,
        ItemView::Nothing,
    ));
}

/// What a loader decides of a path, a loader in which all of that lasts decides alike.
pub proof fn lemma_found_lasts<L: Loader>(before: &L, after: &L, ledger: Set<Seq<char>>, path: Seq<char>)
    requires
        lasting(before, after),
        found_at(before, ledger, path) is Some,
    ensures
        found_at(after, ledger, path) == found_at(before, ledger, path),
        found_at(before, ledger, path) matches Some(Ok(_)) ==> ledger_behind(after, ledger, path) == ledger_behind(
            before,
            ledger,
            path,
        ),
{
    assert(after.identity(path) == before.identity(path));
    match before.identity(path) {
        Some(Ok(id)) => {
            if ledger.contains(id) {
                assert(ledger.insert(id) =~= ledger);
            } else {
                assert(after.contents(path) == before.contents(path));
            }
        },
        _ => {},
    }
}

/// What is decided of the imports with one loader is decided alike with a loader in
/// which all that the first decides lasts.
pub proof fn lemma_resolved_lasts<L: Loader>(
    before: &L,
    after: &L,
    ledger: Set<Seq<char>>,
    items: Seq<ItemView>,
    n: int,
    from: int,
)
    requires
        lasting(before, after),
        resolved(before, ledger, items, n, from) is Some,
    ensures
        resolved(after, ledger, items, n, from) == resolved(before, ledger, items, n, from),
    decreases usize::MAX - ledger.len(), n - from,
{
    if from < 0 || from >= n || n > items.len() {
    } else if !is_file_import(items[from]) {
        lemma_resolved_lasts(before, after, ledger, items, n, from + 1);
    } else if !is_quoted(import_path(items[from])) {
    } else {
        let path = unquoted(import_path(items[from]));
        lemma_found_lasts(before, after, ledger, path);
        if found_at(before, ledger, path) matches Some(Ok(_)) {
            let found = found_at(before, ledger, path).unwrap()->Ok_0;
            let grown = ledger_behind(before, ledger, path);
            if grown.len() > ledger.len() && grown.len() <= usize::MAX && is_module_view(found) {
                lemma_resolved_lasts(before, after, grown, found.items, found.items.len() as int, 0);
            }
            let inner = if grown.len() <= ledger.len() {
                Some(Ok::<(Seq<ItemView>, Set<Seq<char>>), ErrorView>((found.items, grown)))
            } else if grown.len() > usize::MAX {
                None
            } else if !is_module_view(found) {
                Some(Err(ErrorView::Import(ImportError::NotAModule)))
            } else {
                resolved(before, grown, found.items, found.items.len() as int, 0)
            };
            if inner matches Some(Ok(_)) {
                let (added, behind) = inner.unwrap()->Ok_0;
                if ledger.len() <= behind.len() <= usize::MAX {
                    lemma_resolved_lasts(
                        before,
                        after,
                        behind,
                        items.update(from, ItemView::Nothing) + added,
                        n,
                        from + 1,
                    );
                }
            }
        }
    }
}

/// Whether the node is an import directive of the given kind.
pub fn is_import_node(node: &Node, kind: &str) -> (r: bool)
    ensures
        r == is_import_of(ItemView::Node(node@), kind@),
{
    proof {
        lemma_items_view(node.items@);
    }
    if !text_eq(node.name.as_str(), "import") || node.items.len() != 2 {
        return false;
    }
    let first_is_attribute = match &node.items[0] {
        Item::Attribute(_) => true,
        _ => false,
    };
    let second_is_kind = match &node.items[1] {
        Item::Node(inner) => text_eq(inner.name.as_str(), kind),
        _ => false,
    };
    first_is_attribute && second_is_kind
}

/// Whether the node is a file import.
pub fn is_file_import_node(node: &Node) -> (r: bool)
    ensures
        r == is_file_import(ItemView::Node(node@)),
{
    is_import_node(node, "file")
}

/// The path that an import directive names, without its quotes. Fails where the path
/// is no string literal.
pub fn read_import_path(node: &Node) -> (r: Result<String, SWLError>)
    requires
        node@.items.len() == 2,
        node@.items[0] is Attribute,
    ensures
        match r {
            Ok(path) => is_quoted(node@.items[0].text()) && path@ == unquoted(node@.items[0].text()),
            Err(e) => !is_quoted(node@.items[0].text()) && e@ == ErrorView::Import(ImportError::InvalidImport),
        },
{
    proof {
        lemma_items_view(node.items@);
    }
    match &node.items[0] {
        Item::Attribute(path) => {
            if !is_string_literal(path.as_str()) {
                return Err(SWLError::Other(FeatureError::Import(ImportError::InvalidImport)));
            }
            let chars = to_chars(path.as_str());
            Ok(string_of_range(&chars, 1, chars.len() - 1))
        },
        _ => Err(SWLError::Other(FeatureError::Import(ImportError::InvalidImport))),
    }
}

/// Puts a tombstone in place of the item at `at` and the items of `imported` behind the
/// items of `module`.
pub fn splice_import(module: &mut Node, at: usize, imported: Node)
    requires
        at < old(module).items.len(),
    ensures
        final(module)@ == (NodeView {
            items: old(module)@.items.update(at as int, ItemView::Nothing) + imported@.items,
            ..old(module)@
        }),
{
    proof {
        lemma_items_view(module.items@);
        lemma_items_view_update(module.items@, at as int, Item::Nothing);
    }
    module.items[at] = Item::Nothing;
    let ghost base = module.items@;
    let mut imported = imported;
    let ghost added = imported.items@;
    proof {
        crate::features::sort::lemma_items_view_concat(base, added);
    }
    module.items.append(&mut imported.items);
}

/// Resolves the file imports of a module.
///
/// Each item `(import "<path>" (file))` of the module, in the order of the items, gives
/// way to a tombstone. The module at the path is loaded through the linker, its own file
/// imports are resolved in the same way, and its items are put behind the items of the
/// importing module. A file that the linker has loaded before adds nothing.
///
/// Where the loader decides what it finds at each path, the outcome is what [`imported`]
/// says. Whatever the loader says: a node that is not the root of a module fails at
/// once, a module without file imports stays as it is, and so does one whose first file
/// import has a path that is no string literal, which fails.
pub fn import<L: Loader, E: Evaluator>(module: &mut Node, linker: &mut Linker<L, E>) -> (r: Result<(), SWLError>)
    requires
        old(linker).wf(),
    ensures
        final(linker).wf(),
        final(linker).features == old(linker).features,
        final(linker).loaded().len() >= old(linker).loaded().len(),
        old(linker).loaded().subset_of(final(linker).loaded()),
        !is_module_view(old(module)@) ==> fails_with(r, ErrorView::Import(ImportError::NotAModule)) && final(module)@ == old(module)@ && final(linker).loaded() == old(linker).loaded(),
        is_module_view(old(module)@) ==> {
            let k = first_index(old(module)@.items, |item: ItemView| is_file_import(item));
            &&& k >= old(module)@.items.len() ==> r is Ok && final(module)@ == old(module)@ && final(linker).loaded() == old(linker).loaded()
            &&& k < old(module)@.items.len() && !is_quoted(import_path(old(module)@.items[k])) ==> fails_with(
                r,
                ErrorView::Import(ImportError::InvalidImport),
            ) && final(module)@ == old(module)@ && final(linker).loaded() == old(linker).loaded()
        },
        imported(&old(linker).loader, old(linker).loaded(), old(module)@) matches Some(outcome) ==> match outcome {
            Ok((linked, ledger)) => r is Ok && final(module)@ == linked && final(linker).loaded() == ledger,
            Err(e) => fails_with(r, e),
        },
        lasting(&old(linker).loader, &final(linker).loader),
        final(linker).evaluator == old(linker).evaluator,
        final(module)@.name == old(module)@.name,
        final(module)@.depth == old(module)@.depth,
        r is Ok ==> {
            &&& final(module)@.items.len() >= old(module)@.items.len()
            &&& final(module)@.items.take(old(module)@.items.len() as int) == without_imports(
                old(module)@.items,
                old(module)@.items.len() as int,
            )
            &&& nested_at(old(module)@, 0) ==> nested_at(final(module)@, 0)
        },
    decreases usize::MAX - old(linker).loaded().len(),
{
    let entry_count = linker.loaded_count();
    if !is_module(module) {
        return Err(SWLError::Other(FeatureError::Import(ImportError::NotAModule)));
    }
    let ghost views = module@.items;
    let ghost p = |item: ItemView| is_file_import(item);
    let ghost k = first_index(views, p);
    proof {
        lemma_items_view(module.items@);
        lemma_first_index(views, p);
        assert(module@.items.take(views.len() as int) == views);
        assert(views =~= without_imports(views, 0));
    }
    let n = module.items.len();
    let ghost goal = resolved(&linker.loader, linker.loaded(), views, n as int, 0);
    let mut i: usize = 0;
    while i < n
        invariant
            i <= n,
            n == views.len(),
            n <= module.items.len(),
            views == old(module)@.items,
            p == |item: ItemView| is_file_import(item),
            k == first_index(views, p),
            0 <= k <= n,
            is_module_view(old(module)@),
            module@.name == old(module)@.name,
            module@.depth == old(module)@.depth,
            linker.wf(),
            linker.features == old(linker).features,
            entry_count == old(linker).loaded().len(),
            linker.loaded().len() >= entry_count,
            old(linker).loaded().subset_of(linker.loaded()),
            module@.items.take(n as int) == without_imports(views, i as int),
            nested_at(old(module)@, 0) ==> nested_at(module@, 0),
            i <= k ==> module@ == old(module)@ && linker.loaded() == old(linker).loaded(),
            i > k ==> is_quoted(import_path(views[k])),
            lasting(&old(linker).loader, &linker.loader),
            linker.evaluator == old(linker).evaluator,
            goal == resolved(&old(linker).loader, old(linker).loaded(), views, n as int, 0),
            goal is Some ==> resolved(&old(linker).loader, linker.loaded(), module@.items, n as int, i as int) == goal,
        decreases n - i,
    {
        proof {
            lemma_items_view(module.items@);
            lemma_first_index(views, p);
            assert(module@.items.take(n as int)[i as int] == module@.items[i as int]);
            assert(item_view(module.items@[i as int]) == views[i as int]);
        }
        let found = match &module.items[i] {
            Item::Node(node) => {
                if is_file_import_node(node) {
                    Some(read_import_path(node))
                } else {
                    None
                }
            },
            _ => None,
        };
        proof {
            assert(found is Some == p(views[i as int]));
            if found is Some && i <= k {
                assert(k == i);
            }
            if found.is_none() {
                assert(k != i);
            }
        }
        let ghost before = module@;
        match found {
            None => {},
            Some(Err(e)) => {
                return Err(e);
            },
            Some(Ok(path)) => {
                let loaded_before = linker.loaded_count();
                let ghost ledger = linker.loaded();
                let ghost first = linker.loader;
                proof {
                    if goal is Some {
                        lemma_found_lasts(&old(linker).loader, &first, ledger, path@);
                    }
                }
                let mut imported = match linker.load_module(path.as_str()) {
                    Ok(imported) => imported,
                    Err(e) => {
                        return Err(e);
                    },
                };
                let ghost found = imported@;
                let ghost grown = linker.loaded();
                let ghost second = linker.loader;
                proof {
                    lemma_lasting_on(&old(linker).loader, &first, &second);
                }
                if linker.loaded_count() > loaded_before {
                    proof {
                        if goal is Some && is_module_view(found) {
                            lemma_resolved_lasts(
                                &old(linker).loader,
                                &second,
                                grown,
                                found.items,
                                found.items.len() as int,
                                0,
                            );
                        }
                    }
                    match import(&mut imported, linker) {
                        Ok(()) => {},
                        Err(e) => {
                            return Err(e);
                        },
                    }
                    proof {
                        lemma_lasting_on(&old(linker).loader, &second, &linker.loader);
                    }
                }
                let ghost added = imported@.items;
                splice_import(module, i, imported);
                proof {
                    let now = module@.items;
                    assert(now.take(n as int) =~= before.items.take(n as int).update(i as int, ItemView::Nothing));
                    if nested_at(old(module)@, 0) {
                        assert forall|j: int| 0 <= j < now.len() implies (#[trigger] now[j] matches ItemView::Node(
                            c,
                        ) ==> nested_at(c, 1)) by {
                            if j < before.items.len() {
                                if j != i {
                                    assert(now[j] == before.items[j]);
                                }
                            } else {
                                assert(now[j] == added[j - before.items.len()]);
                            }
                        }
                    }
                }
            },
        }
        proof {
            lemma_items_view(module.items@);
            assert(module@.items.take(n as int) =~= without_imports(views, i + 1));
        }
        i += 1;
    }
    proof {
        lemma_items_view(module.items@);
    }
    Ok(())
}

} // verus!
