//! Folds constant expressions: a node `<type>.constexpr` gives way to the constant that
//! its expression evaluates to, and so does a parenthesised `offset=` of a memory access.
use crate::ast::{
    first_index, item_view, items_view, lemma_first_index, lemma_first_index_is, lemma_items_view,
    lemma_items_view_update, nested_at, serialize, Item, ItemView, Node, NodeView,
};
use crate::error::{fails_with, gives_text, ErrorView, FeatureError, SWLError};
use crate::eval::{eval_expr, evaluated, lemma_persisting_on, persisting, Evaluator, ValueType};
use crate::linker::Linker;
use crate::loader::Loader;
use crate::parser::{parse_text, Parser};
use crate::text::{
    contains, ends_with, has_at, index_of, occurs_in, push_text, string_of_range, text_eq, to_chars,
};
use crate::utils::{is_module, is_module_view};
use vstd::prelude::*;

verus! {

/// Why a constant expression cannot be folded.
#[derive(Debug)]
pub enum ConstExprError {
    /// The node is not the root of a module.
    NotAModule,
    /// A constant expression holds no expression.
    ExpressionMissing,
    /// The type of a constant expression is none of `i32`, `i64`, `f32` and `f64`.
    UnknownType(String),
}

/// Whether the node is a constant expression: its name ends in `.constexpr`.
pub open spec fn is_constexpr(n: NodeView) -> bool {
    has_at(n.name, n.name.len() - ".constexpr"@.len(), ".constexpr"@)
}

/// Whether `n` or a node below it is a constant expression.
pub open spec fn holds_constexpr(n: NodeView) -> bool
    decreases n,
{
    is_constexpr(n) || exists|i: int|
        0 <= i < n.items.len() && (#[trigger] n.items[i] matches ItemView::Node(c) && holds_constexpr(c))
}

/// What stands before the first `.` of a name: the type of an instruction.
pub open spec fn type_prefix(name: Seq<char>) -> Seq<char> {
    name.subrange(0, index_of(name, '.', 0))
}

/// The value type that a name begins with.
pub open spec fn value_kind(name: Seq<char>) -> Result<ValueType, ErrorView> {
    let prefix = type_prefix(name);
    if prefix == "i32"@ {
        Ok(ValueType::I32)
    } else if prefix == "i64"@ {
        Ok(ValueType::I64)
    } else if prefix == "f32"@ {
        Ok(ValueType::F32)
    } else if prefix == "f64"@ {
        Ok(ValueType::F64)
    } else {
        Err(ErrorView::ConstExprUnknownType(prefix))
    }
}

/// The name of the constant that a constant expression folds to: the name without its
/// last four characters, `expr`.
pub open spec fn const_name(name: Seq<char>) -> Seq<char> {
    name.subrange(0, name.len() - 4)
}

/// The node that a constant expression folds to, given its value.
pub open spec fn folded_node(n: NodeView, value: Seq<char>) -> NodeView {
    NodeView { name: const_name(n.name), depth: n.depth, items: seq![ItemView::Attribute(value)] }
}

/// Whether `after` has the shape of `before` with its constant expressions folded: each
/// outermost constant expression has given way to a constant with some value. Which
/// value, this does not say: it holds of whatever an engine answers, and [`folded`] says
/// what comes of the answers of a given engine.
pub open spec fn is_folded(before: NodeView, after: NodeView) -> bool
    decreases before,
{
    if is_constexpr(before) {
        exists|value: Seq<char>| after == #[trigger] folded_node(before, value)
    } else {
        &&& after.name == before.name
        &&& after.depth == before.depth
        &&& after.items.len() == before.items.len()
        &&& forall|i: int|
            0 <= i < before.items.len() ==> match #[trigger] before.items[i] {
                ItemView::Node(c) => after.items[i] matches ItemView::Node(d) && is_folded(c, d),
                other => after.items[i] == other,
            }
    }
}

/// The first constant expression that a walk from `n` meets, if there is one.
pub open spec fn first_constexpr(n: NodeView) -> Option<NodeView>
    decreases n,
{
    if is_constexpr(n) {
        Some(n)
    } else {
        first_constexpr_of(n.items)
    }
}

/// The first constant expression that a walk of the trees among `items` meets.
pub open spec fn first_constexpr_of(items: Seq<ItemView>) -> Option<NodeView>
    decreases items,
{
    if items.len() == 0 {
        None
    } else {
        match first_constexpr_of(items.drop_last()) {
            Some(c) => Some(c),
            None => match items.last() {
                ItemView::Node(c) => first_constexpr(c),
                _ => None,
            },
        }
    }
}

/// Why a constant expression cannot be handed to the engine, if it cannot: its type is
/// unknown, or it holds no expression.
pub open spec fn flaw(c: NodeView) -> Option<ErrorView> {
    match value_kind(c.name) {
        Err(e) => Some(e),
        Ok(_) => if c.items.len() == 0 {
            Some(ErrorView::ConstExprExpressionMissing)
        } else {
            None
        },
    }
}

/// The flaw of the first constant expression that a walk from `n` meets.
pub open spec fn first_flaw(n: NodeView) -> Option<ErrorView> {
    match first_constexpr(n) {
        Some(c) => flaw(c),
        None => None,
    }
}

/// The first constant expression among items is the first one among a prefix that holds one.
pub proof fn lemma_first_constexpr_of(items: Seq<ItemView>, k: int)
    requires
        0 <= k <= items.len(),
        first_constexpr_of(items.take(k)) is Some,
    ensures
        first_constexpr_of(items) == first_constexpr_of(items.take(k)),
    decreases items.len(),
{
    if k < items.len() {
        assert(items.drop_last().take(k) == items.take(k));
        lemma_first_constexpr_of(items.drop_last(), k);
    } else {
        assert(items.take(k) == items);
    }
}

/// Whether the node is a memory access: its name holds `.store` or `.load`.
pub open spec fn is_memory_access(n: NodeView) -> bool {
    occurs_in(n.name, ".store"@) || occurs_in(n.name, ".load"@)
}

/// Whether the item is an attribute that begins with `offset=`.
pub open spec fn is_memarg(item: ItemView) -> bool {
    item matches ItemView::Attribute(a) && has_at(a, 0, "offset="@)
}

/// What stands behind `offset=`, up to the next `=`.
pub open spec fn offset_expression(a: Seq<char>) -> Seq<char> {
    a.subrange(7, index_of(a, '=', 7))
}

/// The place of the attribute of a memory access that has a parenthesised offset to
/// fold, or the number of its items where it has none.
pub open spec fn pending_offset(n: NodeView) -> int {
    let k = first_index(n.items, |item: ItemView| is_memarg(item));
    if is_memory_access(n) && k < n.items.len() && offset_expression(n.items[k].text()).len() > 0 && offset_expression(
        n.items[k].text(),
    )[0] == '(' {
        k
    } else {
        n.items.len() as int
    }
}

/// Whether `n` or a node below it has an offset to fold.
pub open spec fn holds_pending_offset(n: NodeView) -> bool
    decreases n,
{
    pending_offset(n) < n.items.len() || exists|i: int|
        0 <= i < n.items.len() && (#[trigger] n.items[i] matches ItemView::Node(c) && holds_pending_offset(c))
}

/// The attribute `offset=` with `value` behind it.
pub open spec fn offset_attribute(value: Seq<char>) -> Seq<char> {
    "offset="@ + value
}

/// Whether `after` has the shape of `before` with its offsets folded: all is as in
/// `before`, but that `offset=` and some text stands where an offset was to fold. Which
/// text, this does not say: it holds of whatever an engine answers, and [`offset_folded`]
/// says what comes of the answers of a given engine.
pub open spec fn is_offset_folded(before: NodeView, after: NodeView) -> bool
    decreases before,
{
    &&& after.name == before.name
    &&& after.depth == before.depth
    &&& after.items.len() == before.items.len()
    &&& forall|i: int|
        0 <= i < before.items.len() ==> match #[trigger] before.items[i] {
            ItemView::Node(c) => after.items[i] matches ItemView::Node(d) && is_offset_folded(c, d),
            other => if i == pending_offset(before) {
                exists|value: Seq<char>| after.items[i] == ItemView::Attribute(#[trigger] offset_attribute(value))
            } else {
                after.items[i] == other
            },
        }
}

/// Folding constant expressions keeps the depths of a tree true.
pub proof fn folding_keeps_depths(before: NodeView, after: NodeView, depth: nat)
    requires
        is_folded(before, after),
        nested_at(before, depth),
    ensures
        nested_at(after, depth),
    decreases before,
{
    if is_constexpr(before) {
        let value = choose|value: Seq<char>| after == #[trigger] folded_node(before, value);
        assert(after.items[0] is Attribute);
    } else {
        assert forall|i: int| 0 <= i < after.items.len() implies (#[trigger] after.items[i] matches ItemView::Node(d)
            ==> nested_at(d, depth + 1)) by {
            match before.items[i] {
                ItemView::Node(c) => {
                    folding_keeps_depths(c, after.items[i].node(), depth + 1);
                },
                _ => {},
            }
        }
    }
}

/// Folding offsets keeps the depths of a tree true.
pub proof fn offset_folding_keeps_depths(before: NodeView, after: NodeView, depth: nat)
    requires
        is_offset_folded(before, after),
        nested_at(before, depth),
    ensures
        nested_at(after, depth),
    decreases before,
{
    assert forall|i: int| 0 <= i < after.items.len() implies (#[trigger] after.items[i] matches ItemView::Node(d)
        ==> nested_at(d, depth + 1)) by {
        match before.items[i] {
            ItemView::Node(c) => {
                offset_folding_keeps_depths(c, after.items[i].node(), depth + 1);
            },
            _ => {
                assert(!(after.items[i] is Node));
            },
        }
    }
}

/// What folding makes of a tree, where the engine decides it: each outermost constant
/// expression, in the order in which a walk from the root meets them, gives way to the
/// constant with the value that the engine answers; the first failure ends the walk.
pub open spec fn folded<E: Evaluator>(evaluator: &E, prelude: Seq<char>, n: NodeView) -> Option<
    Result<NodeView, ErrorView>,
>
    decreases n,
{
    if is_constexpr(n) {
        match value_kind(n.name) {
            Err(e) => Some(Err(e)),
            Ok(kind) => if n.items.len() == 0 {
                Some(Err(ErrorView::ConstExprExpressionMissing))
            } else {
                match evaluated(evaluator, kind, n, prelude) {
                    None => None,
                    Some(Err(e)) => Some(Err(e)),
                    Some(Ok(value)) => Some(Ok(folded_node(n, value))),
                }
            },
        }
    } else {
        match folded_items(evaluator, prelude, n.items) {
            None => None,
            Some(Err(e)) => Some(Err(e)),
            Some(Ok(items)) => Some(Ok(NodeView { items, ..n })),
        }
    }
}

/// What folding makes of the trees among the items, one after the other.
pub open spec fn folded_items<E: Evaluator>(evaluator: &E, prelude: Seq<char>, items: Seq<ItemView>) -> Option<
    Result<Seq<ItemView>, ErrorView>,
>
    decreases items,
{
    if items.len() == 0 {
        Some(Ok(items))
    } else {
        match folded_items(evaluator, prelude, items.drop_last()) {
            None => None,
            Some(Err(e)) => Some(Err(e)),
            Some(Ok(done)) => match items.last() {
                ItemView::Node(c) => match folded(evaluator, prelude, c) {
                    None => None,
                    Some(Err(e)) => Some(Err(e)),
                    Some(Ok(d)) => Some(Ok(done.push(ItemView::Node(d)))),
                },
                other => Some(Ok(done.push(other))),
            },
        }
    }
}

/// What the offset expression evaluates to, where the engine decides it: the text is
/// parsed as a form, whose first item is evaluated with the type that the name of the
/// form begins with.
pub open spec fn offset_value<E: Evaluator>(evaluator: &E, prelude: Seq<char>, expr: Seq<char>) -> Option<
    Result<Seq<char>, ErrorView>,
> {
    match parse_text(expr) {
        Err(e) => Some(Err(ErrorView::Parser(e))),
        Ok(form) => match value_kind(form.name) {
            Err(e) => Some(Err(e)),
            Ok(kind) => if form.items.len() == 0 {
                Some(Err(ErrorView::ConstExprExpressionMissing))
            } else {
                evaluated(evaluator, kind, form, prelude)
            },
        },
    }
}

/// What folding the offsets makes of a tree, where the engine decides it: in each
/// memory access, met on a walk from the root, the offset that is to fold gives way to
/// `offset=` and the value; the first failure ends the walk.
pub open spec fn offset_folded<E: Evaluator>(evaluator: &E, prelude: Seq<char>, n: NodeView) -> Option<
    Result<NodeView, ErrorView>,
>
    decreases n,
{
    let k = pending_offset(n);
    if 0 <= k < n.items.len() {
        match offset_value(evaluator, prelude, offset_expression(n.items[k].text())) {
            None => None,
            Some(Err(e)) => Some(Err(e)),
            Some(Ok(value)) => match offset_folded_items(evaluator, prelude, n.items) {
                None => None,
                Some(Err(e)) => Some(Err(e)),
                Some(Ok(items)) => Some(
                    Ok(NodeView { items: items.update(k, ItemView::Attribute(offset_attribute(value))), ..n }),
                ),
            },
        }
    } else {
        match offset_folded_items(evaluator, prelude, n.items) {
            None => None,
            Some(Err(e)) => Some(Err(e)),
            Some(Ok(items)) => Some(Ok(NodeView { items, ..n })),
        }
    }
}

/// What folding the offsets makes of the trees among the items, one after the other.
pub open spec fn offset_folded_items<E: Evaluator>(evaluator: &E, prelude: Seq<char>, items: Seq<ItemView>) -> Option<
    Result<Seq<ItemView>, ErrorView>,
>
    decreases items,
{
    if items.len() == 0 {
        Some(Ok(items))
    } else {
        match offset_folded_items(evaluator, prelude, items.drop_last()) {
            None => None,
            Some(Err(e)) => Some(Err(e)),
            Some(Ok(done)) => match items.last() {
                ItemView::Node(c) => match offset_folded(evaluator, prelude, c) {
                    None => None,
                    Some(Err(e)) => Some(Err(e)),
                    Some(Ok(d)) => Some(Ok(done.push(ItemView::Node(d)))),
                },
                other => Some(Ok(done.push(other))),
            },
        }
    }
}

/// What the feature makes of a module, where the engine decides it: the constant
/// expressions are folded first, then the offsets of what came of that, both with the
/// prelude of the module as it came.
pub open spec fn all_folded<E: Evaluator>(evaluator: &E, m: NodeView) -> Option<Result<NodeView, ErrorView>> {
    if !is_module_view(m) {
        Some(Err(ErrorView::ConstExprNotAModule))
    } else {
        match folded(evaluator, prelude_of(m), m) {
            None => None,
            Some(Err(e)) => Some(Err(e)),
            Some(Ok(mid)) => offset_folded(evaluator, prelude_of(m), mid),
        }
    }
}

/// Where folding is decided for the items, it is for each part at their front, and a
/// failure there is the failure of the whole.
pub proof fn lemma_folded_front<E: Evaluator>(evaluator: &E, prelude: Seq<char>, items: Seq<ItemView>, upto: int)
    requires
        0 <= upto <= items.len(),
        folded_items(evaluator, prelude, items) is Some,
    ensures
        folded_items(evaluator, prelude, items.take(upto)) is Some,
        folded_items(evaluator, prelude, items.take(upto)) matches Some(Err(e)) ==> folded_items(
            evaluator,
            prelude,
            items,
        ) == Some(Err::<Seq<ItemView>, ErrorView>(e)),
    decreases items.len() - upto,
{
    if upto == items.len() {
        assert(items.take(upto) == items);
    } else {
        lemma_folded_front(evaluator, prelude, items, upto + 1);
        assert(items.take(upto + 1).drop_last() == items.take(upto));
    }
}

/// Where folding the offsets is decided for the items, it is for each part at their
/// front, and a failure there is the failure of the whole.
pub proof fn lemma_offset_folded_front<E: Evaluator>(
    evaluator: &E,
    prelude: Seq<char>,
    items: Seq<ItemView>,
    upto: int,
)
    requires
        0 <= upto <= items.len(),
        offset_folded_items(evaluator, prelude, items) is Some,
    ensures
        offset_folded_items(evaluator, prelude, items.take(upto)) is Some,
        offset_folded_items(evaluator, prelude, items.take(upto)) matches Some(Err(e)) ==> offset_folded_items(
            evaluator,
            prelude,
            items,
        ) == Some(Err::<Seq<ItemView>, ErrorView>(e)),
    decreases items.len() - upto,
{
    if upto == items.len() {
        assert(items.take(upto) == items);
    } else {
        lemma_offset_folded_front(evaluator, prelude, items, upto + 1);
        assert(items.take(upto + 1).drop_last() == items.take(upto));
    }
}

/// What is decided of the folding with one engine is decided alike with an engine in
/// which all that the first decides persists.
pub proof fn lemma_folded_persists<E: Evaluator>(before: &E, after: &E, prelude: Seq<char>, n: NodeView)
    requires
        persisting(before, after),
        folded(before, prelude, n) is Some,
    ensures
        folded(after, prelude, n) == folded(before, prelude, n),
    decreases n,
{
    if !is_constexpr(n) {
        lemma_folded_items_persist(before, after, prelude, n.items);
    }
}

/// What is decided of the folding of items with one engine is decided alike with an
/// engine in which all that the first decides persists.
pub proof fn lemma_folded_items_persist<E: Evaluator>(before: &E, after: &E, prelude: Seq<char>, items: Seq<ItemView>)
    requires
        persisting(before, after),
        folded_items(before, prelude, items) is Some,
    ensures
        folded_items(after, prelude, items) == folded_items(before, prelude, items),
    decreases items,
{
    if items.len() > 0 {
        lemma_folded_items_persist(before, after, prelude, items.drop_last());
        if folded_items(before, prelude, items.drop_last()) matches Some(Ok(_)) {
            match items.last() {
                ItemView::Node(c) => {
                    lemma_folded_persists(before, after, prelude, c);
                },
                _ => {},
            }
        }
    }
}

/// What is decided of the folding of offsets with one engine is decided alike with an
/// engine in which all that the first decides persists.
pub proof fn lemma_offset_folded_persists<E: Evaluator>(before: &E, after: &E, prelude: Seq<char>, n: NodeView)
    requires
        persisting(before, after),
        offset_folded(before, prelude, n) is Some,
    ensures
        offset_folded(after, prelude, n) == offset_folded(before, prelude, n),
    decreases n,
{
    let k = pending_offset(n);
    if 0 <= k < n.items.len() {
        if offset_value(before, prelude, offset_expression(n.items[k].text())) matches Some(Ok(_)) {
            lemma_offset_folded_items_persist(before, after, prelude, n.items);
        }
    } else {
        lemma_offset_folded_items_persist(before, after, prelude, n.items);
    }
}

/// What is decided of the folding of offsets among items with one engine is decided
/// alike with an engine in which all that the first decides persists.
pub proof fn lemma_offset_folded_items_persist<E: Evaluator>(
    before: &E,
    after: &E,
    prelude: Seq<char>,
    items: Seq<ItemView>,
)
    requires
        persisting(before, after),
        offset_folded_items(before, prelude, items) is Some,
    ensures
        offset_folded_items(after, prelude, items) == offset_folded_items(before, prelude, items),
    decreases items,
{
    if items.len() > 0 {
        lemma_offset_folded_items_persist(before, after, prelude, items.drop_last());
        if offset_folded_items(before, prelude, items.drop_last()) matches Some(Ok(_)) {
            match items.last() {
                ItemView::Node(c) => {
                    lemma_offset_folded_persists(before, after, prelude, c);
                },
                _ => {},
            }
        }
    }
}

/// What is decided of the feature with one engine is decided alike with an engine in
/// which all that the first decides persists.
pub proof fn lemma_all_folded_persists<E: Evaluator>(before: &E, after: &E, m: NodeView)
    requires
        persisting(before, after),
        all_folded(before, m) is Some,
    ensures
        all_folded(after, m) == all_folded(before, m),
{
    if is_module_view(m) {
        lemma_folded_persists(before, after, prelude_of(m), m);
        match folded(before, prelude_of(m), m) {
            Some(Ok(mid)) => {
                lemma_offset_folded_persists(before, after, prelude_of(m), mid);
            },
            _ => {},
        }
    }
}

/// The texts of the `global` items that hold no constant expression.
pub open spec fn prelude_parts(items: Seq<ItemView>) -> Seq<Seq<char>>
    decreases items.len(),
{
    if items.len() == 0 {
        Seq::empty()
    } else {
        let rest = prelude_parts(items.drop_last());
        match items.last() {
            ItemView::Node(n) => if n.name == "global"@ && !holds_constexpr(n) {
                rest.push(serialize(n))
            } else {
                rest
            },
            _ => rest,
        }
    }
}

/// The texts, one per line.
pub open spec fn lines(parts: Seq<Seq<char>>) -> Seq<char>
    decreases parts.len(),
{
    if parts.len() == 0 {
        Seq::empty()
    } else if parts.len() == 1 {
        parts[0]
    } else {
        lines(parts.drop_last()) + seq!['\n'] + parts.last()
    }
}

/// The prelude of a module: the globals that constant expressions may read, which are
/// those whose own value is no constant expression.
pub open spec fn prelude_of(m: NodeView) -> Seq<char> {
    lines(prelude_parts(m.items))
}

/// Whether the node is a constant expression.
pub fn is_constexpr_node(node: &Node) -> (r: bool)
    ensures
        r == is_constexpr(node@),
{
    ends_with(node.name.as_str(), ".constexpr")
}

/// Whether the node or a node below it is a constant expression.
pub fn has_constexprs(node: &Node) -> (r: bool)
    ensures
        r == holds_constexpr(node@),
    decreases node,
{
    if is_constexpr_node(node) {
        return true;
    }
    let ghost views = node@.items;
    proof {
        lemma_items_view(node.items@);
    }
    let mut i: usize = 0;
    while i < node.items.len()
        invariant
            i <= node.items.len(),
            views == node@.items,
            views.len() == node.items.len(),
            forall|j: int| 0 <= j < node.items.len() ==> #[trigger] views[j] == item_view(node.items@[j]),
            forall|j: int| 0 <= j < i ==> !(#[trigger] views[j] matches ItemView::Node(c) && holds_constexpr(c)),
        decreases node.items.len() - i,
    {
        if let Item::Node(child) = &node.items[i] {
            if has_constexprs(child) {
                assert(views[i as int] matches ItemView::Node(c) && holds_constexpr(c));
                return true;
            }
        }
        i += 1;
    }
    false
}

/// Whether the node is a memory access.
pub fn is_memop(node: &Node) -> (r: bool)
    ensures
        r == is_memory_access(node@),
{
    contains(node.name.as_str(), ".store") || contains(node.name.as_str(), ".load")
}

/// Writes the prelude of a module.
pub fn prelude(module: &Node) -> (text: String)
    ensures
        text@ == prelude_of(module@),
{
    let ghost views = module@.items;
    proof {
        lemma_items_view(module.items@);
        assert(views.take(0) == Seq::<ItemView>::empty());
    }
    let mut text = String::new();
    let mut count: usize = 0;
    let mut i: usize = 0;
    while i < module.items.len()
        invariant
            i <= module.items.len(),
            count <= i,
            views == module@.items,
            views.len() == module.items.len(),
            forall|j: int| 0 <= j < module.items.len() ==> #[trigger] views[j] == item_view(module.items@[j]),
            count == prelude_parts(views.take(i as int)).len(),
            text@ == lines(prelude_parts(views.take(i as int))),
        decreases module.items.len() - i,
    {
        proof {
            assert(views.take(i + 1).drop_last() == views.take(i as int));
            assert(views.take(i + 1).last() == views[i as int]);
        }
        if let Item::Node(node) = &module.items[i] {
            if text_eq(node.name.as_str(), "global") && !has_constexprs(node) {
                let ghost parts = prelude_parts(views.take(i as int));
                if count > 0 {
                    text.push('\n');
                }
                node.write_to(&mut text);
                proof {
                    assert(parts.push(serialize(node@)).drop_last() == parts);
                    if count == 0 {
                        assert(parts =~= Seq::<Seq<char>>::empty());
                        assert(text@ =~= serialize(node@));
                    } else {
                        assert(text@ =~= lines(parts) + seq!['\n'] + serialize(node@));
                    }
                }
                count += 1;
            }
        }
        i += 1;
    }
    proof {
        assert(views.take(views.len() as int) == views);
    }
    text
}

/// Reads the value type that a name begins with.
pub fn read_value_kind(name: &str) -> (r: Result<ValueType, SWLError>)
    ensures
        match value_kind(name@) {
            Ok(kind) => r == Ok::<ValueType, SWLError>(kind),
            Err(e) => r matches Err(found) && found@ == e,
        },
{
    let chars = to_chars(name);
    let mut end: usize = 0;
    while end < chars.len() && chars[end] != '.'
        invariant
            end <= chars.len(),
            index_of(chars@, '.', 0) == index_of(chars@, '.', end as int),
        decreases chars.len() - end,
    {
        end += 1;
    }
    let prefix = string_of_range(&chars, 0, end);
    if text_eq(prefix.as_str(), "i32") {
        Ok(ValueType::I32)
    } else if text_eq(prefix.as_str(), "i64") {
        Ok(ValueType::I64)
    } else if text_eq(prefix.as_str(), "f32") {
        Ok(ValueType::F32)
    } else if text_eq(prefix.as_str(), "f64") {
        Ok(ValueType::F64)
    } else {
        Err(SWLError::Other(FeatureError::ConstExpr(ConstExprError::UnknownType(prefix))))
    }
}

/// Puts the constant `value` in place of a constant expression.
pub fn fold(node: &mut Node, value: String)
    requires
        is_constexpr(old(node)@),
    ensures
        final(node)@ == folded_node(old(node)@, value@),
{
    let chars = to_chars(node.name.as_str());
    proof {
        reveal_strlit(".constexpr");
    }
    node.name = string_of_range(&chars, 0, chars.len() - 4);
    let mut items: Vec<Item> = Vec::new();
    items.push(Item::Attribute(value));
    proof {
        lemma_items_view(items@);
        assert(items_view(items@) =~= seq![ItemView::Attribute(value@)]);
    }
    node.items = items;
}

/// Folds the constant expressions of a tree, the outermost ones, in the order in which
/// a walk from the root meets them.
fn process_constexpr<E: Evaluator>(node: &mut Node, prelude: &str, evaluator: &mut E) -> (r: Result<(), SWLError>)
    ensures
        folded(old(evaluator), prelude@, old(node)@) matches Some(outcome) ==> match outcome {
            Ok(n) => r is Ok && final(node)@ == n,
            Err(e) => fails_with(r, e),
        },
        persisting(old(evaluator), final(evaluator)),
        r is Ok ==> is_folded(old(node)@, final(node)@),
        !holds_constexpr(old(node)@) ==> r is Ok && final(node)@ == old(node)@,
        first_flaw(old(node)@) matches Some(e) ==> fails_with(r, e),
        first_constexpr(old(node)@).is_none() ==> r is Ok,
    decreases *old(node),
{
    if is_constexpr_node(node) {
        proof {
            lemma_items_view(node.items@);
        }
        let kind = read_value_kind(node.name.as_str())?;
        if node.items.len() == 0 {
            return Err(SWLError::Other(FeatureError::ConstExpr(ConstExprError::ExpressionMissing)));
        }
        let value = eval_expr(evaluator, kind, node, prelude)?;
        fold(node, value);
        return Ok(());
    }
    let ghost views = node@.items;
    proof {
        lemma_items_view(node.items@);
    }
    let n = node.items.len();
    let mut i: usize = 0;
    while i < n
        invariant
            i <= n,
            n == node.items.len(),
            n == old(node).items.len(),
            node.name == old(node).name,
            node.depth == old(node).depth,
            !is_constexpr(old(node)@),
            views == old(node)@.items,
            views.len() == n,
            forall|j: int| 0 <= j < n ==> #[trigger] views[j] == item_view(old(node).items@[j]),
            forall|j: int| i <= j < n ==> node.items@[j] == old(node).items@[j],
            forall|j: int|
                0 <= j < i ==> match #[trigger] views[j] {
                    ItemView::Node(c) => item_view(node.items@[j]) matches ItemView::Node(d) && is_folded(c, d) && (
                    !holds_constexpr(c) ==> d == c),
                    other => item_view(node.items@[j]) == other,
                },
            first_constexpr_of(views.take(i as int)) matches Some(c) ==> flaw(c).is_none(),
            persisting(old(evaluator), evaluator),
            folded_items(old(evaluator), prelude@, views.take(i as int)) matches Some(outcome) ==> outcome == Ok::<
                Seq<ItemView>,
                ErrorView,
            >(items_view(node.items@).take(i as int)),
        decreases n - i,
    {
        let ghost front = items_view(node.items@).take(i as int);
        let ghost engine = *evaluator;
        proof {
            lemma_items_view(node.items@);
            assert(views[i as int] == item_view(old(node).items@[i as int]));
            assert(views.take(i + 1).drop_last() == views.take(i as int));
            assert(views.take(i + 1).last() == views[i as int]);
            if folded_items(old(evaluator), prelude@, views) is Some {
                lemma_folded_front(old(evaluator), prelude@, views, i + 1);
                lemma_folded_front(old(evaluator), prelude@, views, i as int);
            }
            match views[i as int] {
                ItemView::Node(c) => {
                    if folded(old(evaluator), prelude@, c) is Some {
                        lemma_folded_persists(old(evaluator), &engine, prelude@, c);
                    }
                },
                _ => {},
            }
        }
        match &mut node.items[i] {
            Item::Node(child) => {
                match process_constexpr(child, prelude, evaluator) {
                    Ok(()) => {
                        proof {
                            lemma_persisting_on(old(evaluator), &engine, evaluator);
                        }
                    },
                    Err(e) => {
                        proof {
                            assert(holds_constexpr(old(node)@));
                            if first_constexpr_of(views.take(i + 1)) is Some {
                                lemma_first_constexpr_of(views, i + 1);
                            }
                            if first_constexpr_of(views.take(i as int)) is Some {
                                lemma_first_constexpr_of(views, i as int);
                            }
                        }
                        return Err(e);
                    },
                }
            },
            _ => {},
        }
        proof {
            lemma_items_view(node.items@);
            assert(items_view(node.items@).take(i as int) =~= front);
            assert(items_view(node.items@).take(i + 1) =~= front.push(item_view(node.items@[i as int])));
        }
        i += 1;
    }
    proof {
        assert(views.take(n as int) == views);
        lemma_items_view(node.items@);
        assert(items_view(node.items@).take(n as int) == items_view(node.items@));
    }
    proof {
        lemma_items_view(node.items@);
        assert forall|j: int| 0 <= j < n implies match #[trigger] views[j] {
            ItemView::Node(c) => node@.items[j] matches ItemView::Node(d) && is_folded(c, d),
            other => node@.items[j] == other,
        } by {
            assert(node@.items[j] == item_view(node.items@[j]));
        }
        if !holds_constexpr(old(node)@) {
            assert forall|j: int| 0 <= j < n implies node@.items[j] == views[j] by {
                assert(node@.items[j] == item_view(node.items@[j]));
                match views[j] {
                    ItemView::Node(c) => {
                        assert(!holds_constexpr(c));
                    },
                    _ => {},
                }
            }
            assert(node@.items =~= views);
        }
    }
    Ok(())
}

/// The place of the first attribute of a node that begins with `offset=`.
pub fn get_memarg(node: &Node) -> (k: usize)
    ensures
        k == first_index(node@.items, |item: ItemView| is_memarg(item)),
        k <= node.items.len(),
        k < node.items.len() ==> node.items@[k as int] is Attribute,
{
    let ghost views = node@.items;
    let ghost p = |item: ItemView| is_memarg(item);
    proof {
        lemma_items_view(node.items@);
    }
    let mut i: usize = 0;
    while i < node.items.len()
        invariant
            i <= node.items.len(),
            views == node@.items,
            views.len() == node.items.len(),
            p == |item: ItemView| is_memarg(item),
            forall|j: int| 0 <= j < node.items.len() ==> #[trigger] views[j] == item_view(node.items@[j]),
            forall|j: int| 0 <= j < i ==> !p(#[trigger] views[j]),
        decreases node.items.len() - i,
    {
        if let Item::Attribute(a) = &node.items[i] {
            if crate::text::starts_with(a.as_str(), "offset=") {
                proof {
                    lemma_first_index_is(views, p, i as int);
                }
                return i;
            }
        }
        i += 1;
    }
    proof {
        lemma_first_index_is(views, p, views.len() as int);
    }
    i
}

/// The expression behind `offset=` in the attribute of a memory access, where it is
/// parenthesised.
pub fn read_offset_expression(attr: &str) -> (r: Option<String>)
    requires
        has_at(attr@, 0, "offset="@),
    ensures
        match r {
            Some(expr) => expr@ == offset_expression(attr@) && expr@.len() > 0 && expr@[0] == '(',
            None => !(offset_expression(attr@).len() > 0 && offset_expression(attr@)[0] == '('),
        },
{
    proof {
        reveal_strlit("offset=");
    }
    let chars = to_chars(attr);
    let mut end: usize = 7;
    while end < chars.len() && chars[end] != '='
        invariant
            7 <= end <= chars.len(),
            index_of(chars@, '=', 7) == index_of(chars@, '=', end as int),
        decreases chars.len() - end,
    {
        end += 1;
    }
    if end > 7 && chars[7] == '(' {
        Some(string_of_range(&chars, 7, end))
    } else {
        None
    }
}

/// Puts `offset=` with `value` behind it in place of the item at place `k`.
pub fn set_offset(node: &mut Node, k: usize, value: &str)
    requires
        k < old(node).items.len(),
    ensures
        final(node)@ == (NodeView {
            items: old(node)@.items.update(k as int, ItemView::Attribute(offset_attribute(value@))),
            ..old(node)@
        }),
        final(node).name == old(node).name,
        final(node).depth == old(node).depth,
        final(node).items@.len() == old(node).items@.len(),
        forall|j: int| 0 <= j < old(node).items@.len() && j != k ==> final(node).items@[j] == old(node).items@[j],
        item_view(final(node).items@[k as int]) == ItemView::Attribute(offset_attribute(value@)),
{
    let mut attr = String::new();
    push_text(&mut attr, "offset=");
    push_text(&mut attr, value);
    proof {
        lemma_items_view(node.items@);
        lemma_items_view_update(node.items@, k as int, Item::Attribute(attr));
    }
    node.items[k] = Item::Attribute(attr);
}

/// Evaluates the offset expression of a memory access: the text is parsed as a form, and
/// the first item of the form is evaluated with the type that the name of the form
/// begins with.
fn evaluate_offset<E: Evaluator>(expr: &str, prelude: &str, evaluator: &mut E) -> (r: Result<String, SWLError>)
    ensures
        offset_value(old(evaluator), prelude@, expr@) matches Some(known) ==> gives_text(r, known),
        parse_text(expr@) matches Err(e) ==> fails_with(r, ErrorView::Parser(e)),
        persisting(old(evaluator), final(evaluator)),
{
    let mut parser = Parser::new(expr);
    let expr_node = parser.parse()?;
    let kind = read_value_kind(expr_node.name.as_str())?;
    if expr_node.items.len() == 0 {
        return Err(SWLError::Other(FeatureError::ConstExpr(ConstExprError::ExpressionMissing)));
    }
    eval_expr(evaluator, kind, &expr_node, prelude)
}

/// The items with `item` at place `k`, where there is such a place.
pub open spec fn with_item(items: Seq<ItemView>, k: int, item: ItemView) -> Seq<ItemView> {
    if 0 <= k < items.len() {
        items.update(k, item)
    } else {
        items
    }
}

/// Folds the parenthesised offsets of the memory accesses of a tree.
fn process_offset_constexpr<E: Evaluator>(node: &mut Node, prelude: &str, evaluator: &mut E) -> (r: Result<
    (),
    SWLError,
>)
    ensures
        offset_folded(old(evaluator), prelude@, old(node)@) matches Some(outcome) ==> match outcome {
            Ok(n) => r is Ok && final(node)@ == n,
            Err(e) => fails_with(r, e),
        },
        persisting(old(evaluator), final(evaluator)),
        r is Ok ==> is_offset_folded(old(node)@, final(node)@),
        !holds_pending_offset(old(node)@) ==> r is Ok && final(node)@ == old(node)@,
    decreases *old(node),
{
    let ghost views = node@.items;
    let ghost pending = pending_offset(node@);
    let ghost own = if 0 <= pending < views.len() {
        offset_value(old(evaluator), prelude@, offset_expression(views[pending].text()))
    } else {
        None
    };
    proof {
        lemma_items_view(node.items@);
        lemma_first_index(views, |item: ItemView| is_memarg(item));
    }
    let n = node.items.len();
    let mut folded_at: usize = n;
    if is_memop(node) {
        let k = get_memarg(node);
        if k < n {
            let expr = match &node.items[k] {
                Item::Attribute(a) => read_offset_expression(a.as_str()),
                _ => None,
            };
            if let Some(expr) = expr {
                let value = evaluate_offset(expr.as_str(), prelude, evaluator)?;
                set_offset(node, k, value.as_str());
                folded_at = k;
            }
        }
    }
    assert(folded_at == pending);
    let ghost mid = node.items@;
    let ghost kept = if 0 <= pending < views.len() {
        views[pending]
    } else {
        ItemView::Nothing
    };
    proof {
        lemma_items_view(mid);
        assert(views.take(0) =~= Seq::<ItemView>::empty());
        assert(items_view(mid).take(0) =~= Seq::<ItemView>::empty());
    }
    let mut i: usize = 0;
    while i < n
        invariant
            i <= n,
            n == node.items.len(),
            n == old(node).items.len(),
            node.name == old(node).name,
            node.depth == old(node).depth,
            views == old(node)@.items,
            views.len() == n,
            mid.len() == n,
            pending == pending_offset(old(node)@),
            folded_at == pending,
            forall|j: int| 0 <= j < n ==> #[trigger] views[j] == item_view(old(node).items@[j]),
            forall|j: int| 0 <= j < n && j != pending ==> mid[j] == old(node).items@[j],
            pending < n ==> views[pending] is Attribute && exists|value: Seq<char>|
                item_view(mid[pending]) == ItemView::Attribute(#[trigger] offset_attribute(value)),
            forall|j: int| i <= j < n ==> node.items@[j] == mid[j],
            forall|j: int|
                0 <= j < i ==> match #[trigger] views[j] {
                    ItemView::Node(c) => item_view(node.items@[j]) matches ItemView::Node(d) && is_offset_folded(c, d)
                        && (!holds_pending_offset(c) ==> d == c),
                    other => item_view(node.items@[j]) == item_view(mid[j]),
                },
            persisting(old(evaluator), evaluator),
            kept == if 0 <= pending < views.len() {
                views[pending]
            } else {
                ItemView::Nothing
            },
            pending < n ==> (own matches Some(known) ==> known matches Ok(value) && item_view(mid[pending])
                == ItemView::Attribute(offset_attribute(value))),
            own == if 0 <= pending < views.len() {
                offset_value(old(evaluator), prelude@, offset_expression(views[pending].text()))
            } else {
                None
            },
            offset_folded_items(old(evaluator), prelude@, views.take(i as int)) matches Some(outcome) ==> outcome
                == Ok::<Seq<ItemView>, ErrorView>(with_item(items_view(node.items@).take(i as int), pending, kept)),
        decreases n - i,
    {
        let ghost front = items_view(node.items@).take(i as int);
        let ghost engine = *evaluator;
        proof {
            lemma_items_view(node.items@);
            assert(views[i as int] == item_view(old(node).items@[i as int]));
            assert(views.take(i + 1).drop_last() == views.take(i as int));
            assert(views.take(i + 1).last() == views[i as int]);
            if offset_folded_items(old(evaluator), prelude@, views) is Some {
                lemma_offset_folded_front(old(evaluator), prelude@, views, i + 1);
                lemma_offset_folded_front(old(evaluator), prelude@, views, i as int);
            }
            match views[i as int] {
                ItemView::Node(c) => {
                    if offset_folded(old(evaluator), prelude@, c) is Some {
                        lemma_offset_folded_persists(old(evaluator), &engine, prelude@, c);
                    }
                },
                _ => {},
            }
        }
        match &mut node.items[i] {
            Item::Node(child) => {
                match process_offset_constexpr(child, prelude, evaluator) {
                    Ok(()) => {
                        proof {
                            lemma_persisting_on(old(evaluator), &engine, evaluator);
                        }
                    },
                    Err(e) => {
                        proof {
                            assert(holds_pending_offset(old(node)@));
                        }
                        return Err(e);
                    },
                }
            },
            _ => {},
        }
        proof {
            lemma_items_view(node.items@);
            assert(items_view(node.items@).take(i as int) =~= front);
            assert(items_view(node.items@).take(i + 1) =~= front.push(item_view(node.items@[i as int])));
            if i == pending {
                assert(with_item(front.push(item_view(node.items@[i as int])), pending, kept) =~= with_item(
                    front,
                    pending,
                    kept,
                ).push(views[i as int]));
            } else {
                assert(with_item(front.push(item_view(node.items@[i as int])), pending, kept) =~= with_item(
                    front,
                    pending,
                    kept,
                ).push(item_view(node.items@[i as int])));
            }
        }
        i += 1;
    }
    proof {
        lemma_items_view(node.items@);
        assert(views.take(n as int) == views);
        assert(items_view(node.items@).take(n as int) == items_view(node.items@));
        if pending < n {
            assert(with_item(node@.items, pending, kept).update(pending, node@.items[pending]) =~= node@.items);
        }
        assert forall|j: int| 0 <= j < n implies match #[trigger] views[j] {
            ItemView::Node(c) => node@.items[j] matches ItemView::Node(d) && is_offset_folded(c, d),
            other => if j == pending {
                exists|value: Seq<char>| node@.items[j] == ItemView::Attribute(#[trigger] offset_attribute(value))
            } else {
                node@.items[j] == other
            },
        } by {
            assert(node@.items[j] == item_view(node.items@[j]));
        }
        if !holds_pending_offset(old(node)@) {
            assert forall|j: int| 0 <= j < n implies node@.items[j] == views[j] by {
                assert(node@.items[j] == item_view(node.items@[j]));
                match views[j] {
                    ItemView::Node(c) => {
                        assert(!holds_pending_offset(c));
                    },
                    _ => {},
                }
            }
            assert(node@.items =~= views);
        }
    }
    Ok(())
}

/// Folds the constant expressions of a module.
///
/// First each node `<type>.constexpr`, met on a walk from the root, is evaluated and
/// gives way to `(<type>.const <value>)`. Then each memory access whose first `offset=`
/// attribute holds a parenthesised expression gets `offset=<value>` in its place. An
/// expression is evaluated in a module of its own, which holds the prelude, that is the
/// globals of the module whose own value is no constant expression, and one function
/// that returns the expression.
///
/// A constant expression whose type is none of `i32`, `i64`, `f32` and `f64` fails the
/// feature, and so does one of such a type that holds no expression.
///
/// Where the engine decides what each expression evaluates to, the outcome is what
/// [`all_folded`] says. Whatever the engine says: a node that is not the root of a module
/// fails at once, and a module with nothing to fold stays as it is.
pub fn constexpr<L: Loader, E: Evaluator>(module: &mut Node, linker: &mut Linker<L, E>) -> (r: Result<(), SWLError>)
    ensures
        final(linker).loaded() == old(linker).loaded(),
        final(linker).features == old(linker).features,
        final(linker).loader == old(linker).loader,
        all_folded(&old(linker).evaluator, old(module)@) matches Some(outcome) ==> match outcome {
            Ok(m) => r is Ok && final(module)@ == m,
            Err(e) => fails_with(r, e),
        },
        persisting(&old(linker).evaluator, &final(linker).evaluator),
        !is_module_view(old(module)@) ==> fails_with(r, ErrorView::ConstExprNotAModule) && final(module)@ == old(module)@,
        is_module_view(old(module)@) && !holds_constexpr(old(module)@) && !holds_pending_offset(old(module)@) ==> r is Ok
            && final(module)@ == old(module)@,
        is_module_view(old(module)@) ==> (first_flaw(old(module)@) matches Some(e) ==> fails_with(r, e)),
        r is Ok ==> exists|mid: NodeView| #[trigger] is_folded(old(module)@, mid) && is_offset_folded(mid, final(module)@),
        r is Ok && nested_at(old(module)@, 0) ==> nested_at(final(module)@, 0),
{
    if !is_module(module) {
        return Err(SWLError::Other(FeatureError::ConstExpr(ConstExprError::NotAModule)));
    }
    let text = prelude(module);
    process_constexpr(module, text.as_str(), &mut linker.evaluator)?;
    let ghost mid = module@;
    let ghost engine = linker.evaluator;
    proof {
        if offset_folded(&old(linker).evaluator, text@, mid) is Some {
            lemma_offset_folded_persists(&old(linker).evaluator, &engine, text@, mid);
        }
    }
    process_offset_constexpr(module, text.as_str(), &mut linker.evaluator)?;
    proof {
        lemma_persisting_on(&old(linker).evaluator, &engine, &linker.evaluator);
    }
    assert(is_folded(old(module)@, mid) && is_offset_folded(mid, module@));
    proof {
        if nested_at(old(module)@, 0) {
            folding_keeps_depths(old(module)@, mid, 0);
            offset_folding_keeps_depths(mid, module@, 0);
        }
    }
    Ok(())
}

} // verus!
