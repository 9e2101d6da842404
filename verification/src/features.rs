//! The features: each one rewrites a module in place, or fails.
//!
//! The features are a closed list. A linker holds the ones to run by name, so that its
//! contract can say of each what it makes of a module, which it could not say of a
//! function that a caller hands in. A pass of the caller's own takes the module and the
//! linker as a feature does, and runs on the module before or behind the linker's run:
//! the passes under [`crate::passes`] are written so.
use crate::ast::{nested_at, Node, NodeView};
use crate::error::{fails_with, ErrorView, SWLError};
use crate::eval::{persisting, Evaluator};
use crate::linker::Linker;
use crate::loader::{lasting, Loader};
use crate::utils::is_module_view;
use vstd::prelude::*;

pub mod constexpr;
pub mod data_import;
pub mod import;
pub mod numerals;
pub mod size_adjust;
pub mod sort;
pub mod start_merge;

verus! {

/// The features that a linker can run.
#[derive(Debug, Clone, Copy, PartialEq, Eq, Structural)]
pub enum Feature {
    /// Resolves file imports.
    Import,
    /// Moves the items that hold imports to the front.
    Sort,
    /// Sizes the memory.
    SizeAdjust,
    /// Merges the start directives.
    StartMerge,
    /// Embeds the files that data segments import.
    DataImport,
    /// Folds constant expressions.
    Constexpr,
    /// Rewrites numerals as decimal.
    Numerals,
}

/// A module with the ledger unchanged, or the failure.
pub open spec fn beside(outcome: Result<NodeView, ErrorView>, ledger: Set<Seq<char>>) -> Result<
    (NodeView, Set<Seq<char>>),
    ErrorView,
> {
    match outcome {
        Ok(m) => Ok((m, ledger)),
        Err(e) => Err(e),
    }
}

/// What a feature makes of a module and of the ledger, where the loader and the engine
/// decide what they are asked. `None` where they do not.
pub open spec fn determined<L: Loader, E: Evaluator>(
    feature: Feature,
    loader: &L,
    evaluator: &E,
    ledger: Set<Seq<char>>,
    m: NodeView,
) -> Option<Result<(NodeView, Set<Seq<char>>), ErrorView>> {
    match feature {
        Feature::Sort => Some(beside(sort::sorted(m), ledger)),
        Feature::SizeAdjust => Some(beside(size_adjust::size_adjusted(m), ledger)),
        Feature::StartMerge => Some(beside(start_merge::start_merged(m), ledger)),
        Feature::Numerals => Some(beside(numerals::normalized_node(m), ledger)),
        Feature::Import => import::imported(loader, ledger, m),
        Feature::DataImport => match data_import::data_imported(loader, m) {
            None => None,
            Some(outcome) => Some(beside(outcome, ledger)),
        },
        Feature::Constexpr => match constexpr::all_folded(evaluator, m) {
            None => None,
            Some(outcome) => Some(beside(outcome, ledger)),
        },
    }
}

/// What a list of features makes of a module and of the ledger, run in order up to the
/// first failure, where the loader and the engine decide what they are asked.
pub open spec fn pipeline<L: Loader, E: Evaluator>(
    features: Seq<Feature>,
    loader: &L,
    evaluator: &E,
    ledger: Set<Seq<char>>,
    m: NodeView,
) -> Option<Result<(NodeView, Set<Seq<char>>), ErrorView>>
    decreases features.len(),
{
    if features.len() == 0 {
        Some(Ok((m, ledger)))
    } else {
        match determined(features[0], loader, evaluator, ledger, m) {
            None => None,
            Some(Err(e)) => Some(Err(e)),
            Some(Ok(next)) => pipeline(features.drop_first(), loader, evaluator, next.1, next.0),
        }
    }
}

/// What is decided of a feature with a loader and an engine is decided alike with a
/// loader and an engine in which all that the first two decide lasts.
pub proof fn lemma_determined_lasts<L: Loader, E: Evaluator>(
    feature: Feature,
    loader: &L,
    evaluator: &E,
    later_loader: &L,
    later_evaluator: &E,
    ledger: Set<Seq<char>>,
    m: NodeView,
)
    requires
        lasting(loader, later_loader),
        persisting(evaluator, later_evaluator),
        determined(feature, loader, evaluator, ledger, m) is Some,
    ensures
        determined(feature, later_loader, later_evaluator, ledger, m) == determined(
            feature,
            loader,
            evaluator,
            ledger,
            m,
        ),
{
    match feature {
        Feature::Import => {
            import::lemma_imported_lasts(loader, later_loader, ledger, m);
        },
        Feature::DataImport => {
            if is_module_view(m) {
                data_import::lemma_embedded_lasts(loader, later_loader, m.items);
            }
        },
        Feature::Constexpr => {
            constexpr::lemma_all_folded_persists(evaluator, later_evaluator, m);
        },
        _ => {},
    }
}

/// What is decided of a list of features with a loader and an engine is decided alike
/// with a loader and an engine in which all that the first two decide lasts.
pub proof fn lemma_pipeline_lasts<L: Loader, E: Evaluator>(
    features: Seq<Feature>,
    loader: &L,
    evaluator: &E,
    later_loader: &L,
    later_evaluator: &E,
    ledger: Set<Seq<char>>,
    m: NodeView,
)
    requires
        lasting(loader, later_loader),
        persisting(evaluator, later_evaluator),
        pipeline(features, loader, evaluator, ledger, m) is Some,
    ensures
        pipeline(features, later_loader, later_evaluator, ledger, m) == pipeline(
            features,
            loader,
            evaluator,
            ledger,
            m,
        ),
    decreases features.len(),
{
    if features.len() > 0 {
        lemma_determined_lasts(features[0], loader, evaluator, later_loader, later_evaluator, ledger, m);
        match determined(features[0], loader, evaluator, ledger, m) {
            Some(Ok(next)) => {
                lemma_pipeline_lasts(
                    features.drop_first(),
                    loader,
                    evaluator,
                    later_loader,
                    later_evaluator,
                    next.1,
                    next.0,
                );
            },
            _ => {},
        }
    }
}

/// Runs one feature over a module.
pub fn apply<L: Loader, E: Evaluator>(feature: Feature, module: &mut Node, linker: &mut Linker<L, E>) -> (r: Result<
    (),
    SWLError,
>)
    requires
        old(linker).wf(),
    ensures
        final(linker).wf(),
        final(linker).features == old(linker).features,
        old(linker).loaded().subset_of(final(linker).loaded()),
        lasting(&old(linker).loader, &final(linker).loader),
        persisting(&old(linker).evaluator, &final(linker).evaluator),
        determined(feature, &old(linker).loader, &old(linker).evaluator, old(linker).loaded(), old(module)@) matches Some(
            outcome,
        ) ==> match outcome {
            Ok(next) => r is Ok && final(module)@ == next.0 && final(linker).loaded() == next.1,
            Err(e) => fails_with(r, e),
        },
        r is Ok && nested_at(old(module)@, 0) ==> nested_at(final(module)@, 0),
{
    proof {
        if nested_at(module@, 0) {
            if sort::sorted(module@) is Ok {
                sort::sorting_keeps_depths(module@);
            }
            if size_adjust::size_adjusted(module@) is Ok {
                size_adjust::sizing_keeps_depths(module@);
            }
            if start_merge::start_merged(module@) is Ok {
                start_merge::merging_keeps_depths(module@);
            }
            if numerals::normalized_node(module@) is Ok {
                numerals::normalizing_keeps_depths(module@, 0);
            }
        }
    }
    match feature {
        Feature::Import => import::import(module, linker),
        Feature::Sort => sort::sort(module, linker),
        Feature::SizeAdjust => size_adjust::size_adjust(module, linker),
        Feature::StartMerge => start_merge::start_merge(module, linker),
        Feature::DataImport => data_import::data_import(module, linker),
        Feature::Constexpr => constexpr::constexpr(module, linker),
        Feature::Numerals => numerals::numerals(module, linker),
    }
}

} // verus!
