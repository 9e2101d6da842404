//! The sort feature as a pass.
use crate::ast::Node;
use crate::error::{fails_with, ErrorView, SWLError};
use crate::eval::Evaluator;
use crate::features::sort;
use crate::features::sort::{has_import, sorted};
use crate::linker::Linker;
use crate::loader::Loader;
use crate::text::push_text;
use vstd::prelude::*;

verus! {

/// The message of the pass for a node that is no module.
pub open spec fn not_a_module_message() -> Seq<char> {
    "Can only sort modules"@
}

/// Whether the node is an import or holds one.
pub fn has_import_node(ast: &Node) -> (r: bool)
    ensures
        r == has_import(ast@),
{
    sort::has_import_node(ast)
}

/// Moves the items of a module that hold imports to the front, as
/// [`sort::frontload_imports`] does. A node that is no module fails with a message.
pub fn frontload_imports(module: &mut Node) -> (r: Result<(), SWLError>)
    ensures
        match sorted(old(module)@) {
            Ok(m) => r is Ok && final(module)@ == m,
            Err(_) => fails_with(r, ErrorView::Simple(not_a_module_message())) && final(module)@ == old(module)@,
        },
{
    match sort::frontload_imports(module) {
        Ok(()) => Ok(()),
        Err(_) => {
            let mut message = String::new();
            push_text(&mut message, "Can only sort modules");
            Err(SWLError::Simple(message))
        },
    }
}

/// Moves the items of a module that hold imports to the front.
pub fn sorter<L: Loader, E: Evaluator>(module: &mut Node, _linker: &mut Linker<L, E>) -> (r: Result<(), SWLError>)
    ensures
        match sorted(old(module)@) {
            Ok(m) => r is Ok && final(module)@ == m,
            Err(_) => fails_with(r, ErrorView::Simple(not_a_module_message())) && final(module)@ == old(module)@,
        },
        *final(_linker) == *old(_linker),
{
    frontload_imports(module)
}

} // verus!
