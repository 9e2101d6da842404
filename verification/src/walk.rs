//! The walk of a [`Walker`](crate::ast::Walker) over a tree that stays as it is visits
//! the nodes of the tree in the order of [`preorder`].
use crate::ast::{
    child_paths_from, item_view, lemma_items_view, preorder, preorder_of, resolve, step, Item, ItemView, Node,
    NodeView,
};
use vstd::prelude::*;

verus! {

/// The paths that `k` steps of the walk visit, and the paths that wait behind them.
pub open spec fn steps(root: NodeView, waiting: Seq<Seq<usize>>, k: nat) -> (Seq<Seq<usize>>, Seq<Seq<usize>>)
    decreases k,
{
    if k == 0 {
        (Seq::empty(), waiting)
    } else {
        let (next, rest) = step(root, waiting);
        match next {
            Some(path) => {
                let (more, left) = steps(root, rest, (k - 1) as nat);
                (seq![path] + more, left)
            },
            None => (Seq::empty(), rest),
        }
    }
}

/// The paths to the nodes of the tree `n`, which lies at `path`, each node before the
/// nodes below it.
pub open spec fn paths_below(n: NodeView, path: Seq<usize>) -> Seq<Seq<usize>>
    decreases n, 0int,
{
    seq![path] + paths_between(n.items, path, 0, n.items.len() as int)
}

/// The paths to the nodes of the trees among the items from place `from` up to place
/// `upto` of the node at `path`.
pub open spec fn paths_between(items: Seq<ItemView>, path: Seq<usize>, from: int, upto: int) -> Seq<Seq<usize>>
    decreases items, upto - from + 1,
{
    if from < 0 || from >= upto || upto > items.len() {
        Seq::empty()
    } else {
        paths_between(items, path, from, upto - 1) + paths_at(items, path, upto - 1)
    }
}

/// The paths to the nodes of the tree at place `i` of the node at `path`, if a tree
/// stands there.
pub open spec fn paths_at(items: Seq<ItemView>, path: Seq<usize>, i: int) -> Seq<Seq<usize>>
    decreases items, 0int,
{
    if 0 <= i < items.len() {
        match items[i] {
            ItemView::Node(c) => paths_below(c, path.push(i as usize)),
            _ => Seq::empty(),
        }
    } else {
        Seq::empty()
    }
}

/// Whether no node of the tree has more items than can be counted.
pub open spec fn is_indexable(n: NodeView) -> bool
    decreases n,
{
    &&& n.items.len() <= usize::MAX
    &&& forall|i: int| 0 <= i < n.items.len() ==> (#[trigger] n.items[i] matches ItemView::Node(c) ==> is_indexable(c))
}

/// A tree that is held in memory is indexable.
pub proof fn lemma_indexable(n: Node)
    ensures
        is_indexable(n@),
    decreases n,
{
    lemma_items_view(n.items@);
    assert(n@.items.len() == n.items.len());
    assert forall|i: int| 0 <= i < n@.items.len() implies (#[trigger] n@.items[i] matches ItemView::Node(c)
        ==> is_indexable(c)) by {
        assert(n@.items[i] == item_view(n.items@[i]));
        match n.items@[i] {
            Item::Node(c) => {
                lemma_indexable(c);
            },
            _ => {},
        }
    }
}

/// A path that leads to a node leads on to each node among its items.
pub proof fn lemma_resolve_push(root: NodeView, path: Seq<usize>, n: NodeView, i: int)
    requires
        resolve(root, path) == Some(n),
        0 <= i < n.items.len(),
        i <= usize::MAX,
        n.items[i] is Node,
    ensures
        resolve(root, path.push(i as usize)) == Some(n.items[i].node()),
    decreases path.len(),
{
    let longer = path.push(i as usize);
    if path.len() == 0 {
        assert(longer.drop_first() =~= Seq::<usize>::empty());
        assert(longer[0] == i as usize);
        assert(resolve(n.items[i].node(), Seq::<usize>::empty()) == Some(n.items[i].node()));
    } else {
        assert(longer[0] == path[0]);
        assert(longer.drop_first() =~= path.drop_first().push(i as usize));
        lemma_resolve_push(root.items[path[0] as int].node(), path.drop_first(), n, i);
    }
}

/// Steps can be taken in two runs.
pub proof fn lemma_steps_add(root: NodeView, waiting: Seq<Seq<usize>>, a: nat, b: nat)
    ensures
        steps(root, waiting, a).0.len() == a ==> steps(root, waiting, a + b) == (
            steps(root, waiting, a).0 + steps(root, steps(root, waiting, a).1, b).0,
            steps(root, steps(root, waiting, a).1, b).1,
        ),
    decreases a,
{
    if a == 0 {
        assert(Seq::<Seq<usize>>::empty() + steps(root, waiting, b).0 =~= steps(root, waiting, b).0);
    } else {
        let (next, rest) = step(root, waiting);
        match next {
            Some(path) => {
                lemma_steps_add(root, rest, (a - 1) as nat, b);
                let first = steps(root, rest, (a - 1) as nat);
                if steps(root, waiting, a).0.len() == a {
                    assert(first.0.len() == a - 1);
                    assert(seq![path] + (first.0 + steps(root, first.1, b).0) =~= (seq![path] + first.0) + steps(
                        root,
                        first.1,
                        b,
                    ).0);
                }
            },
            None => {},
        }
    }
}

/// The paths between two places are the paths at the first place and the paths between
/// the next place and the second.
pub proof fn lemma_paths_first(items: Seq<ItemView>, path: Seq<usize>, from: int, upto: int)
    requires
        0 <= from < upto <= items.len(),
    ensures
        paths_between(items, path, from, upto) == paths_at(items, path, from) + paths_between(
            items,
            path,
            from + 1,
            upto,
        ),
    decreases upto - from,
{
    if from + 1 == upto {
        assert(paths_between(items, path, from, from) =~= Seq::<Seq<usize>>::empty());
        assert(paths_between(items, path, from + 1, upto) =~= Seq::<Seq<usize>>::empty());
        assert(paths_between(items, path, from, upto) =~= paths_at(items, path, from) + paths_between(
            items,
            path,
            from + 1,
            upto,
        ));
    } else {
        lemma_paths_first(items, path, from, upto - 1);
        assert(paths_between(items, path, from, upto) =~= paths_at(items, path, from) + paths_between(
            items,
            path,
            from + 1,
            upto,
        ));
    }
}

/// The walk from a path that leads to a node visits the nodes of the tree there, each
/// node before the nodes below it, and leaves the paths that waited below.
pub proof fn lemma_walk_node(root: NodeView, n: NodeView, path: Seq<usize>, below: Seq<Seq<usize>>)
    requires
        resolve(root, path) == Some(n),
        is_indexable(n),
    ensures
        steps(root, below.push(path), paths_below(n, path).len()) == (paths_below(n, path), below),
    decreases n, 1nat, 0nat,
{
    let waiting = below.push(path);
    assert(waiting.last() == path);
    assert(waiting.drop_last() =~= below);
    let children = paths_between(n.items, path, 0, n.items.len() as int);
    assert(n.items.skip(0) =~= n.items);
    lemma_walk_items(root, n, path, below, 0);
    assert(paths_below(n, path).len() == children.len() + 1);
}

/// The walk from the paths to the nodes among the items of a node, from place `from`
/// on, visits the nodes of the trees there, tree by tree.
pub proof fn lemma_walk_items(root: NodeView, n: NodeView, path: Seq<usize>, below: Seq<Seq<usize>>, from: int)
    requires
        resolve(root, path) == Some(n),
        is_indexable(n),
        0 <= from <= n.items.len(),
    ensures
        steps(
            root,
            below + child_paths_from(path, n.items.skip(from), from as nat),
            paths_between(n.items, path, from, n.items.len() as int).len(),
        ) == (paths_between(n.items, path, from, n.items.len() as int), below),
    decreases n, 0nat, n.items.len() - from,
{
    let items = n.items;
    let len = items.len() as int;
    let suffix = items.skip(from);
    if from == len {
        assert(suffix =~= Seq::<ItemView>::empty());
        assert(below + child_paths_from(path, suffix, from as nat) =~= below);
    } else {
        assert(suffix.first() == items[from]);
        assert(suffix.drop_first() =~= items.skip(from + 1));
        let later = child_paths_from(path, items.skip(from + 1), (from + 1) as nat);
        lemma_paths_first(items, path, from, len);
        lemma_walk_items(root, n, path, below, from + 1);
        match items[from] {
            ItemView::Node(c) => {
                let here = path.push(from as usize);
                lemma_resolve_push(root, path, n, from);
                assert(below + later.push(here) =~= (below + later).push(here));
                lemma_walk_node(root, c, here, below + later);
                lemma_steps_add(
                    root,
                    (below + later).push(here),
                    paths_below(c, here).len(),
                    paths_between(items, path, from + 1, len).len(),
                );
            },
            _ => {
                assert(paths_at(items, path, from) =~= Seq::<Seq<usize>>::empty());
                assert(paths_between(items, path, from, len) =~= paths_between(items, path, from + 1, len));
            },
        }
    }
}

/// The paths to the nodes of a tree lead to its nodes in the order of [`preorder`].
pub proof fn lemma_paths_lead(root: NodeView, n: NodeView, path: Seq<usize>)
    requires
        resolve(root, path) == Some(n),
        is_indexable(n),
    ensures
        paths_below(n, path).len() == preorder(n).len(),
        forall|i: int|
            0 <= i < preorder(n).len() ==> resolve(root, #[trigger] paths_below(n, path)[i]) == Some(preorder(n)[i]),
    decreases n, 1nat, 0nat,
{
    lemma_paths_lead_among(root, n, path, n.items.len() as int);
    assert(n.items.take(n.items.len() as int) =~= n.items);
    let among = paths_between(n.items, path, 0, n.items.len() as int);
    assert forall|i: int| 0 <= i < preorder(n).len() implies resolve(root, #[trigger] paths_below(n, path)[i]) == Some(
        preorder(n)[i],
    ) by {
        if i > 0 {
            assert(paths_below(n, path)[i] == among[i - 1]);
            assert(preorder(n)[i] == preorder_of(n.items)[i - 1]);
        }
    }
}

/// The paths to the nodes among the first `upto` items of a node lead to those nodes in
/// the order of [`preorder_of`].
pub proof fn lemma_paths_lead_among(root: NodeView, n: NodeView, path: Seq<usize>, upto: int)
    requires
        resolve(root, path) == Some(n),
        is_indexable(n),
        0 <= upto <= n.items.len(),
    ensures
        paths_between(n.items, path, 0, upto).len() == preorder_of(n.items.take(upto)).len(),
        forall|i: int|
            0 <= i < preorder_of(n.items.take(upto)).len() ==> resolve(
                root,
                #[trigger] paths_between(n.items, path, 0, upto)[i],
            ) == Some(preorder_of(n.items.take(upto))[i]),
    decreases n, 0nat, upto,
{
    if upto > 0 {
        let before = paths_between(n.items, path, 0, upto - 1);
        let nodes_before = preorder_of(n.items.take(upto - 1));
        lemma_paths_lead_among(root, n, path, upto - 1);
        assert(n.items.take(upto).drop_last() =~= n.items.take(upto - 1));
        assert(n.items.take(upto).last() == n.items[upto - 1]);
        match n.items[upto - 1] {
            ItemView::Node(c) => {
                let here = path.push((upto - 1) as usize);
                lemma_resolve_push(root, path, n, upto - 1);
                lemma_paths_lead(root, c, here);
                let all = paths_between(n.items, path, 0, upto);
                let nodes = preorder_of(n.items.take(upto));
                assert(paths_at(n.items, path, upto - 1) == paths_below(c, here));
                assert(all == before + paths_at(n.items, path, upto - 1));
                assert(nodes == nodes_before + preorder(c));
                assert forall|i: int| 0 <= i < nodes.len() implies resolve(root, #[trigger] all[i]) == Some(nodes[i]) by {
                    if i < before.len() {
                        assert(all[i] == before[i]);
                    } else {
                        assert(all[i] == paths_below(c, here)[i - before.len()]);
                    }
                }
            },
            _ => {
                assert(paths_at(n.items, path, upto - 1) =~= Seq::<Seq<usize>>::empty());
                assert(paths_between(n.items, path, 0, upto) =~= before);
            },
        }
    } else {
        assert(n.items.take(0) =~= Seq::<ItemView>::empty());
    }
}

/// The walk over a tree that stays as it is visits each node of the tree once, in the
/// order of [`preorder`], and ends with nothing left to visit.
pub proof fn walking_visits_in_preorder(root: NodeView)
    requires
        is_indexable(root),
    ensures
        steps(root, seq![Seq::<usize>::empty()], preorder(root).len()).0.len() == preorder(root).len(),
        forall|i: int|
            0 <= i < preorder(root).len() ==> resolve(
                root,
                #[trigger] steps(root, seq![Seq::<usize>::empty()], preorder(root).len()).0[i],
            ) == Some(preorder(root)[i]),
        steps(root, seq![Seq::<usize>::empty()], preorder(root).len()).1 == Seq::<Seq<usize>>::empty(),
        step(root, Seq::<Seq<usize>>::empty()).0.is_none(),
{
    let start = Seq::<usize>::empty();
    lemma_paths_lead(root, root, start);
    lemma_walk_node(root, root, start, Seq::empty());
    assert(Seq::<Seq<usize>>::empty().push(start) =~= seq![start]);
}

} // verus!
