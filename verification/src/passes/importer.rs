//! The import feature as a pass.
use crate::ast::{first_index, nested_at, ItemView, Node};
use crate::error::{fails_with, ErrorView, FeatureError, SWLError};
use crate::eval::Evaluator;
use crate::features::import::{import, import_path, imported, is_file_import, without_imports, ImportError};
use crate::linker::Linker;
use crate::loader::{lasting, Loader};
use crate::text::push_text;
use crate::utils::{is_module_view, is_quoted};
use vstd::prelude::*;

verus! {

/// The message of the pass for a node that is no module.
pub open spec fn not_a_module_message() -> Seq<char> {
    "Importer pass can only be applied to top-level `module` sexpr."@
}

/// The message of the pass for a path that is no string literal.
pub open spec fn invalid_import_message() -> Seq<char> {
    "Import directive expects a string"@
}

/// The failure of the feature as the pass reports it: its own two failures as messages,
/// every other as it is.
pub open spec fn reported(e: ErrorView) -> ErrorView {
    match e {
        ErrorView::Import(ImportError::NotAModule) => ErrorView::Simple(not_a_module_message()),
        ErrorView::Import(ImportError::InvalidImport) => ErrorView::Simple(invalid_import_message()),
        other => other,
    }
}

/// Resolves the file imports of a module, as [`import`] does. The two failures of the
/// feature itself come as messages. What the loader reports is handed on as it is.
pub fn importer<L: Loader, E: Evaluator>(node: &mut Node, linker: &mut Linker<L, E>) -> (r: Result<(), SWLError>)
    requires
        old(linker).wf(),
    ensures
        final(linker).wf(),
        final(linker).features == old(linker).features,
        imported(&old(linker).loader, old(linker).loaded(), old(node)@) matches Some(outcome) ==> match outcome {
            Ok((linked, ledger)) => r is Ok && final(node)@ == linked && final(linker).loaded() == ledger,
            Err(e) => fails_with(r, reported(e)),
        },
        lasting(&old(linker).loader, &final(linker).loader),
        final(linker).evaluator == old(linker).evaluator,
        old(linker).loaded().subset_of(final(linker).loaded()),
        !is_module_view(old(node)@) ==> fails_with(r, ErrorView::Simple(not_a_module_message())) && final(node)@
            == old(node)@,
        is_module_view(old(node)@) ==> {
            let k = first_index(old(node)@.items, |item: ItemView| is_file_import(item));
            &&& k >= old(node)@.items.len() ==> r is Ok && final(node)@ == old(node)@
            &&& k < old(node)@.items.len() && !is_quoted(import_path(old(node)@.items[k])) ==> fails_with(
                r,
                ErrorView::Simple(invalid_import_message()),
            ) && final(node)@ == old(node)@
        },
        r is Ok ==> {
            &&& final(node)@.items.len() >= old(node)@.items.len()
            &&& final(node)@.items.take(old(node)@.items.len() as int) == without_imports(
                old(node)@.items,
                old(node)@.items.len() as int,
            )
            &&& nested_at(old(node)@, 0) ==> nested_at(final(node)@, 0)
        },
{
    match import(node, linker) {
        Ok(()) => Ok(()),
        Err(SWLError::Other(FeatureError::Import(ImportError::NotAModule))) => {
            let mut message = String::new();
            push_text(&mut message, "Importer pass can only be applied to top-level `module` sexpr.");
            Err(SWLError::Simple(message))
        },
        Err(SWLError::Other(FeatureError::Import(ImportError::InvalidImport))) => {
            let mut message = String::new();
            push_text(&mut message, "Import directive expects a string");
            Err(SWLError::Simple(message))
        },
        Err(e) => Err(e),
    }
}

} // verus!
