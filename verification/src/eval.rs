//! Evaluation of constant expressions: the module text that is handed to the compiler,
//! and the engine that runs what the compiler made of it.
use crate::ast::{item_text, lemma_items_view, Node, NodeView};
use crate::error::{gives_text, ErrorView, FeatureError, SWLError};
use crate::text::push_text;
use vstd::prelude::*;

verus! {

/// The four value types that a constant expression can have.
#[derive(Debug, Clone, Copy, PartialEq, Eq, Structural)]
pub enum ValueType {
    I32,
    I64,
    F32,
    F64,
}

impl ValueType {
    /// The name of the type in module text.
    pub open spec fn name_view(self) -> Seq<char> {
        match self {
            ValueType::I32 => "i32"@,
            ValueType::I64 => "i64"@,
            ValueType::F32 => "f32"@,
            ValueType::F64 => "f64"@,
        }
    }

    /// The name of the type in module text.
    pub fn name(self) -> (r: &'static str)
        ensures
            r@ == self.name_view(),
    {
        match self {
            ValueType::I32 => "i32",
            ValueType::I64 => "i64",
            ValueType::F32 => "f32",
            ValueType::F64 => "f64",
        }
    }
}

/// The name that a value type of the host language has in module text.
pub trait WasmTypeName {
    /// The name in module text.
    spec fn wasm_name_view() -> Seq<char>;

    /// The name in module text.
    fn wasm_type_name() -> (r: &'static str)
        ensures
            r@ == Self::wasm_name_view(),
    ;
}

impl WasmTypeName for i32 {
    open spec fn wasm_name_view() -> Seq<char> {
        "i32"@
    }

    fn wasm_type_name() -> (r: &'static str) {
        "i32"
    }
}

impl WasmTypeName for i64 {
    open spec fn wasm_name_view() -> Seq<char> {
        "i64"@
    }

    fn wasm_type_name() -> (r: &'static str) {
        "i64"
    }
}

/// An engine that runs compiled modules.
///
/// An engine may say in `answer` what it gives for a binary module. Where it says `Some`,
/// the engine as it stands decides the answer, and `execute` gives it. Where it says
/// `None`, as every engine does that says nothing else, something else decides. What an
/// engine has said stays so through every call.
pub trait Evaluator {
    /// The value as text that `execute` gives for the binary module, or its failure,
    /// where the engine as it stands decides it.
    open spec fn answer(&self, kind: ValueType, binary: Seq<u8>) -> Option<Result<Seq<char>, ErrorView>> {
        None
    }

    /// Runs the function that `binary` exports as `main`, which takes nothing and returns
    /// one value of type `kind`, and gives the value as text.
    fn execute(&mut self, kind: ValueType, binary: Vec<u8>) -> (r: Result<String, SWLError>)
        ensures
            old(self).answer(kind, binary@) matches Some(known) ==> gives_text(r, known),
            forall|other: ValueType, module: Seq<u8>|
                #![trigger old(self).answer(other, module)]
                #![trigger final(self).answer(other, module)]
                old(self).answer(other, module) is Some ==> final(self).answer(other, module) == old(self).answer(
                    other,
                    module,
                ),
    ;
}

/// Whether all that the engine `before` decides, the engine `after` decides alike.
pub open spec fn persisting<E: Evaluator>(before: &E, after: &E) -> bool {
    forall|kind: ValueType, binary: Seq<u8>|
        #![trigger before.answer(kind, binary)]
        #![trigger after.answer(kind, binary)]
        before.answer(kind, binary) is Some ==> after.answer(kind, binary) == before.answer(kind, binary)
}

/// What persists from a first engine to a second, and from the second to a third,
/// persists from the first to the third.
pub proof fn lemma_persisting_on<E: Evaluator>(first: &E, second: &E, third: &E)
    requires
        persisting(first, second),
        persisting(second, third),
    ensures
        persisting(first, third),
{
    assert forall|kind: ValueType, binary: Seq<u8>| first.answer(kind, binary) is Some implies #[trigger] third.answer(
        kind,
        binary,
    ) == first.answer(kind, binary) by {
        assert(second.answer(kind, binary) == first.answer(kind, binary));
    }
}

/// An engine that runs nothing: every request fails.
pub struct NoEvaluator;

impl Evaluator for NoEvaluator {
    /// Every request fails.
    open spec fn answer(&self, kind: ValueType, binary: Seq<u8>) -> Option<Result<Seq<char>, ErrorView>> {
        Some(Err(ErrorView::Simple("No execution engine"@)))
    }

    fn execute(&mut self, kind: ValueType, binary: Vec<u8>) -> (r: Result<String, SWLError>)
        ensures
            r matches Err(e) && e@ == ErrorView::Simple("No execution engine"@),
    {
        let mut message = String::new();
        push_text(&mut message, "No execution engine");
        Err(SWLError::Simple(message))
    }
}

/// The binary module that `wat::parse_str` makes of a module text, where it accepts the text.
pub uninterp spec fn wat_encoding(text: Seq<char>) -> Option<Seq<u8>>;

/// The error of the `wat` crate.
#[verifier::external_type_specification]
#[verifier::external_body]
pub struct ExWatError(wat::Error);

/// `wat::parse_str`: parses module text and encodes it as a binary module. The result
/// depends on the text alone and is named by [`wat_encoding`].
#[verifier::external_body]
fn compile_wat(text: &str) -> (r: Result<Vec<u8>, wat::Error>)
    ensures
        match r {
            Ok(binary) => wat_encoding(text@) == Some(binary@),
            Err(_) => wat_encoding(text@).is_none(),
        },
{
    wat::parse_str(text)
}

/// The message of an error of the `wat` crate, as its `Display` writes it.
#[verifier::external_body]
fn wat_error_message(error: &wat::Error) -> String {
    error.to_string()
}

/// The module text in which a constant expression is evaluated: the prelude and one
/// function, exported as `main`, that returns the value of the expression.
pub open spec fn evaluation_text(expr: Seq<char>, prelude: Seq<char>, kind_name: Seq<char>) -> Seq<char> {
    "\n\t\t\t\t\t(module\n\t\t\t\t\t\t\t"@ + prelude + "\n\t\t\t\t\t\t\t(func (export \"main\") (result "@
        + kind_name + ")\n\t\t\t\t\t\t\t\t\t"@ + expr + "\n\t\t\t\t\t\t\t)\n\t\t\t\t\t)\n\t\t\t"@
}

/// The module text in which the first item of `n` is evaluated.
pub open spec fn evaluation_module(n: NodeView, prelude: Seq<char>, kind_name: Seq<char>) -> Result<
    Seq<char>,
    ErrorView,
> {
    if n.items.len() == 0 {
        Err(ErrorView::Simple("Constexpr is missing expression"@))
    } else {
        Ok(evaluation_text(item_text(n.items[0]), prelude, kind_name))
    }
}

/// Writes the module text in which the first item of `node` is evaluated.
pub fn evaluation_source(node: &Node, prelude: &str, kind_name: &str) -> (r: Result<String, SWLError>)
    ensures
        match evaluation_module(node@, prelude@, kind_name@) {
            Ok(text) => r matches Ok(found) && found@ == text,
            Err(e) => r matches Err(found) && found@ == e,
        },
{
    proof {
        lemma_items_view(node.items@);
    }
    if node.items.len() == 0 {
        let mut message = String::new();
        push_text(&mut message, "Constexpr is missing expression");
        return Err(SWLError::Simple(message));
    }
    let expr = node.items[0].to_string();
    let mut text = String::new();
    push_text(&mut text, "\n\t\t\t\t\t(module\n\t\t\t\t\t\t\t");
    push_text(&mut text, prelude);
    push_text(&mut text, "\n\t\t\t\t\t\t\t(func (export \"main\") (result ");
    push_text(&mut text, kind_name);
    push_text(&mut text, ")\n\t\t\t\t\t\t\t\t\t");
    push_text(&mut text, expr.as_str());
    push_text(&mut text, "\n\t\t\t\t\t\t\t)\n\t\t\t\t\t)\n\t\t\t");
    assert(text@ == evaluation_text(item_text(node@.items[0]), prelude@, kind_name@));
    Ok(text)
}

/// What evaluating the first item of `n` as an expression of type `kind` gives, where
/// the engine decides it: the failure of a node without an item, and else what the
/// engine answers for the binary module that the compiler makes of the module text.
/// Nothing is decided where the compiler refuses the text: its message is its own.
pub open spec fn evaluated<E: Evaluator>(evaluator: &E, kind: ValueType, n: NodeView, prelude: Seq<char>) -> Option<
    Result<Seq<char>, ErrorView>,
> {
    match evaluation_module(n, prelude, kind.name_view()) {
        Err(e) => Some(Err(e)),
        Ok(text) => match wat_encoding(text) {
            None => None,
            Some(binary) => evaluator.answer(kind, binary),
        },
    }
}

/// Evaluates the first item of `node` as an expression of type `kind`: writes the module
/// text around it, compiles the text and hands the binary module to the engine.
///
/// Fails where the node has no item, where the compiler refuses the text, and where the
/// engine fails. What the engine answers is handed on as it is.
pub fn eval_expr<E: Evaluator>(evaluator: &mut E, kind: ValueType, node: &Node, prelude: &str) -> (r: Result<
    String,
    SWLError,
>)
    ensures
        evaluated(old(evaluator), kind, node@, prelude@) matches Some(known) ==> gives_text(r, known),
        match evaluation_module(node@, prelude@, kind.name_view()) {
            Err(e) => r matches Err(found) && found@ == e,
            Ok(text) => wat_encoding(text).is_none() ==> r matches Err(SWLError::Other(FeatureError::Foreign(_))),
        },
        persisting(old(evaluator), final(evaluator)),
{
    let text = evaluation_source(node, prelude, kind.name())?;
    let binary = match compile_wat(text.as_str()) {
        Ok(binary) => binary,
        Err(e) => {
            return Err(SWLError::Other(FeatureError::Foreign(wat_error_message(&e))));
        },
    };
    evaluator.execute(kind, binary)
}

} // verus!
