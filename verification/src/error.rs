//! The errors that linking can end in.
use crate::ast::{Node, NodeView};
use crate::features::constexpr::ConstExprError;
use crate::features::import::ImportError;
use crate::features::numerals::NumeralsError;
use crate::features::size_adjust::SizeAdjustError;
use crate::features::sort::SortError;
use crate::features::start_merge::StartMergeError;
use crate::parser::{ParseErrorView, ParserError};
use vstd::prelude::*;

verus! {

/// Why a link failed.
#[derive(Debug)]
pub enum SWLError {
    /// The text of a module could not be parsed.
    ParserError(ParserError),
    /// A failure that is described by its message alone.
    Simple(String),
    /// A failure of one feature, or one that a collaborator reported.
    Other(FeatureError),
}

/// The failures that [`SWLError::Other`] carries.
#[derive(Debug)]
pub enum FeatureError {
    Sort(SortError),
    StartMerge(StartMergeError),
    Import(ImportError),
    ConstExpr(ConstExprError),
    Numerals(NumeralsError),
    SizeAdjust(SizeAdjustError),
    /// A text that should have been an unsigned decimal number and is not.
    InvalidInteger(String),
    /// Bytes that should have been UTF-8 and are not.
    InvalidUtf8,
    /// A failure reported by a loader, a compiler or an execution engine, by its message.
    Foreign(String),
}

/// The mathematical value of an [`SWLError`]: which failure it is, with the texts it carries.
pub enum ErrorView {
    Parser(ParseErrorView),
    Simple(Seq<char>),
    Sort(SortError),
    StartMerge(StartMergeError),
    Import(ImportError),
    SizeAdjust(SizeAdjustError),
    ConstExprNotAModule,
    ConstExprExpressionMissing,
    ConstExprUnknownType(Seq<char>),
    InvalidNumericLiteral(Seq<char>),
    InvalidInteger(Seq<char>),
    InvalidUtf8,
    Foreign(Seq<char>),
}

impl View for FeatureError {
    type V = ErrorView;

    open spec fn view(&self) -> ErrorView {
        match self {
            FeatureError::Sort(e) => ErrorView::Sort(*e),
            FeatureError::StartMerge(e) => ErrorView::StartMerge(*e),
            FeatureError::Import(e) => ErrorView::Import(*e),
            FeatureError::SizeAdjust(e) => ErrorView::SizeAdjust(*e),
            FeatureError::ConstExpr(ConstExprError::NotAModule) => ErrorView::ConstExprNotAModule,
            FeatureError::ConstExpr(ConstExprError::ExpressionMissing) => ErrorView::ConstExprExpressionMissing,
            FeatureError::ConstExpr(ConstExprError::UnknownType(t)) => ErrorView::ConstExprUnknownType(t@),
            FeatureError::Numerals(NumeralsError::InvalidNumericLiteral(t)) => ErrorView::InvalidNumericLiteral(t@),
            FeatureError::InvalidInteger(t) => ErrorView::InvalidInteger(t@),
            FeatureError::InvalidUtf8 => ErrorView::InvalidUtf8,
            FeatureError::Foreign(t) => ErrorView::Foreign(t@),
        }
    }
}

impl View for SWLError {
    type V = ErrorView;

    open spec fn view(&self) -> ErrorView {
        match self {
            SWLError::ParserError(e) => ErrorView::Parser(e@),
            SWLError::Simple(message) => ErrorView::Simple(message@),
            SWLError::Other(e) => e@,
        }
    }
}

/// Whether `r` is the outcome `expected`, by the values of what it holds.
pub open spec fn agrees(r: Result<Node, SWLError>, expected: Result<NodeView, ErrorView>) -> bool {
    match expected {
        Ok(n) => r matches Ok(node) && node@ == n,
        Err(e) => r matches Err(found) && found@ == e,
    }
}

/// Whether a feature that rewrites a module in place ended as `expected` says: with the
/// module that it names, or with its failure and the module as it was.
pub open spec fn settles(r: Result<(), SWLError>, before: NodeView, after: NodeView, expected: Result<
    NodeView,
    ErrorView,
>) -> bool {
    match expected {
        Ok(m) => r is Ok && after == m,
        Err(e) => r matches Err(found) && found@ == e && after == before,
    }
}

/// Whether `r` is the failure `e`.
pub open spec fn fails_with<T>(r: Result<T, SWLError>, e: ErrorView) -> bool {
    r matches Err(found) && found@ == e
}

/// Whether `r` is the text or the failure that `expected` names.
pub open spec fn gives_text(r: Result<String, SWLError>, expected: Result<Seq<char>, ErrorView>) -> bool {
    match expected {
        Ok(text) => r matches Ok(found) && found@ == text,
        Err(e) => r matches Err(found) && found@ == e,
    }
}

/// Whether `r` is the bytes or the failure that `expected` names.
pub open spec fn gives_bytes(r: Result<Vec<u8>, SWLError>, expected: Result<Seq<u8>, ErrorView>) -> bool {
    match expected {
        Ok(bytes) => r matches Ok(found) && found@ == bytes,
        Err(e) => r matches Err(found) && found@ == e,
    }
}

} // verus!
