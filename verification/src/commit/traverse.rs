use crate::ast::{fields_view, items_view, lemma_fields_view, lemma_items_view, Node, NodeView};
use crate::commit::generator::{EntryView, PrimitiveEntry};
use crate::path::{extend_path, path_view, PathStep, StepView};
use std::collections::VecDeque;
use vstd::prelude::*;

verus! {

/// A node of a document with the path that leads to it.
pub struct Located {
    pub node: NodeView,
    pub path: Seq<StepView>,
}

/// Whether no later field of an object has the key of field `i`: of
/// fields with one key, the last one counts.
pub open spec fn is_last_of_key(fields: Seq<(Seq<char>, NodeView)>, i: int) -> bool {
    forall|j: int| i < j < fields.len() ==> (#[trigger] fields[j]).0 != fields[i].0
}

/// The child of an object at field `i`.
pub open spec fn field_child(fields: Seq<(Seq<char>, NodeView)>, path: Seq<StepView>, i: int)
    -> Located {
    Located { node: fields[i].1, path: path.push(StepView::Key(fields[i].0)) }
}

/// The child of an array at index `i`.
pub open spec fn item_child(items: Seq<NodeView>, path: Seq<StepView>, i: int) -> Located {
    Located { node: items[i], path: path.push(StepView::Index(i as nat)) }
}

/// The children of an object among its first `n` fields, in the order
/// of the fields.
pub open spec fn object_children(fields: Seq<(Seq<char>, NodeView)>, path: Seq<StepView>, n: nat)
    -> Seq<Located>
    decreases n,
{
    if n == 0 {
        Seq::empty()
    } else if is_last_of_key(fields, n - 1) {
        object_children(fields, path, (n - 1) as nat).push(field_child(fields, path, n - 1))
    } else {
        object_children(fields, path, (n - 1) as nat)
    }
}

/// The children of an array among its first `n` items, in order.
pub open spec fn array_children(items: Seq<NodeView>, path: Seq<StepView>, n: nat) -> Seq<Located>
    decreases n,
{
    if n == 0 {
        Seq::empty()
    } else {
        array_children(items, path, (n - 1) as nat).push(item_child(items, path, n - 1))
    }
}

/// The children of a node, each with its path. A leaf has none.
pub open spec fn children(at: Located) -> Seq<Located> {
    match at.node {
        NodeView::Object(fields) => object_children(fields, at.path, fields.len()),
        NodeView::Array(items) => array_children(items, at.path, items.len()),
        NodeView::Primitive(_) => Seq::empty(),
    }
}

/// The entry of a node that is a leaf.
pub open spec fn leaf_of(at: Located) -> Seq<EntryView> {
    match at.node {
        NodeView::Primitive(value) => seq![EntryView { path: at.path, value }],
        _ => Seq::empty(),
    }
}

/// The entries of the leaves among some nodes, in order.
pub open spec fn level_leaves(level: Seq<Located>) -> Seq<EntryView>
    decreases level.len(),
{
    if level.len() == 0 {
        Seq::empty()
    } else {
        level_leaves(level.drop_last()) + leaf_of(level.last())
    }
}

/// The children of some nodes, in order.
pub open spec fn level_children(level: Seq<Located>) -> Seq<Located>
    decreases level.len(),
{
    if level.len() == 0 {
        Seq::empty()
    } else {
        level_children(level.drop_last()) + children(level.last())
    }
}

/// The number of nodes of a document.
pub open spec fn size(node: NodeView) -> nat
    decreases node, 0nat,
{
    match node {
        NodeView::Object(fields) => 1 + fields_size(fields, fields.len()),
        NodeView::Array(items) => 1 + items_size(items, items.len()),
        NodeView::Primitive(_) => 1,
    }
}

/// The number of nodes under the first `n` fields of an object.
pub open spec fn fields_size(fields: Seq<(Seq<char>, NodeView)>, n: nat) -> nat
    decreases fields, n,
{
    if n == 0 || n > fields.len() {
        0
    } else {
        fields_size(fields, (n - 1) as nat) + size(fields[n - 1].1)
    }
}

/// The number of nodes under the first `n` items of an array.
pub open spec fn items_size(items: Seq<NodeView>, n: nat) -> nat
    decreases items, n,
{
    if n == 0 || n > items.len() {
        0
    } else {
        items_size(items, (n - 1) as nat) + size(items[n - 1])
    }
}

/// The number of nodes of some documents together.
pub open spec fn forest_size(level: Seq<Located>) -> nat
    decreases level.len(),
{
    if level.len() == 0 {
        0
    } else {
        forest_size(level.drop_last()) + size(level.last().node)
    }
}

pub proof fn lemma_level_leaves_concat(a: Seq<Located>, b: Seq<Located>)
    ensures
        level_leaves(a + b) == level_leaves(a) + level_leaves(b),
    decreases b.len(),
{
    if b.len() == 0 {
        assert(a + b =~= a);
        assert(level_leaves(a) + level_leaves(b) =~= level_leaves(a));
    } else {
        assert((a + b).drop_last() =~= a + b.drop_last());
        lemma_level_leaves_concat(a, b.drop_last());
        assert(level_leaves(a + b) =~= level_leaves(a) + level_leaves(b));
    }
}

pub proof fn lemma_level_children_concat(a: Seq<Located>, b: Seq<Located>)
    ensures
        level_children(a + b) == level_children(a) + level_children(b),
    decreases b.len(),
{
    if b.len() == 0 {
        assert(a + b =~= a);
        assert(level_children(a) + level_children(b) =~= level_children(a));
    } else {
        assert((a + b).drop_last() =~= a + b.drop_last());
        lemma_level_children_concat(a, b.drop_last());
        assert(level_children(a + b) =~= level_children(a) + level_children(b));
    }
}

pub proof fn lemma_forest_size_concat(a: Seq<Located>, b: Seq<Located>)
    ensures
        forest_size(a + b) == forest_size(a) + forest_size(b),
    decreases b.len(),
{
    if b.len() == 0 {
        assert(a + b =~= a);
    } else {
        assert((a + b).drop_last() =~= a + b.drop_last());
        lemma_forest_size_concat(a, b.drop_last());
    }
}

proof fn lemma_object_children_size(fields: Seq<(Seq<char>, NodeView)>, path: Seq<StepView>, n: nat)
    requires
        n <= fields.len(),
    ensures
        forest_size(object_children(fields, path, n)) <= fields_size(fields, n),
    decreases n,
{
    if n > 0 {
        lemma_object_children_size(fields, path, (n - 1) as nat);
        let before = object_children(fields, path, (n - 1) as nat);
        if is_last_of_key(fields, n - 1) {
            assert(before.push(field_child(fields, path, n - 1)).drop_last() =~= before);
        }
    }
}

proof fn lemma_array_children_size(items: Seq<NodeView>, path: Seq<StepView>, n: nat)
    requires
        n <= items.len(),
    ensures
        forest_size(array_children(items, path, n)) == items_size(items, n),
    decreases n,
{
    if n > 0 {
        lemma_array_children_size(items, path, (n - 1) as nat);
        let before = array_children(items, path, (n - 1) as nat);
        assert(before.push(item_child(items, path, n - 1)).drop_last() =~= before);
    }
}

/// A node has more nodes than its children have together.
pub proof fn lemma_children_size(at: Located)
    ensures
        forest_size(children(at)) < size(at.node),
{
    match at.node {
        NodeView::Object(fields) => {
            lemma_object_children_size(fields, at.path, fields.len());
        },
        NodeView::Array(items) => {
            lemma_array_children_size(items, at.path, items.len());
        },
        NodeView::Primitive(_) => {},
    }
}

/// Some nodes have at least as many nodes more than their children as
/// they are.
pub proof fn lemma_level_children_size(level: Seq<Located>)
    ensures
        forest_size(level_children(level)) + level.len() <= forest_size(level),
    decreases level.len(),
{
    if level.len() > 0 {
        lemma_level_children_size(level.drop_last());
        lemma_children_size(level.last());
        lemma_forest_size_concat(level_children(level.drop_last()), children(level.last()));
    }
}

/// The leaves of some documents in breadth-first order: the leaves
/// among the documents themselves, then those among their children, and
/// so on down.
pub open spec fn bfs(level: Seq<Located>) -> Seq<EntryView>
    decreases forest_size(level),
    via bfs_decreases
{
    if level.len() == 0 {
        Seq::empty()
    } else {
        level_leaves(level) + bfs(level_children(level))
    }
}

#[via_fn]
proof fn bfs_decreases(level: Seq<Located>) {
    lemma_level_children_size(level);
}

/// A document at the empty path.
pub open spec fn at_root(node: NodeView) -> Seq<Located> {
    seq![Located { node, path: Seq::empty() }]
}

/// The entries that a sequence of leaves stands for.
pub open spec fn entries_view(entries: Seq<PrimitiveEntry>) -> Seq<EntryView> {
    entries.map_values(|e: PrimitiveEntry| e@)
}

/// What is still to come out of a traversal that has given `out`, has
/// `queue` to visit, and has reached the end of a level `split` nodes
/// from the front of the queue.
pub open spec fn outcome(out: Seq<EntryView>, queue: Seq<Located>, split: int) -> Seq<EntryView> {
    out + level_leaves(queue.take(split)) + bfs(
        queue.skip(split) + level_children(queue.take(split)),
    )
}

proof fn lemma_outcome_done(out: Seq<EntryView>)
    ensures
        outcome(out, Seq::empty(), 0) == out,
{
    let none = Seq::<Located>::empty();
    assert(none.take(0) =~= none);
    assert(none.skip(0) + level_children(none) =~= none);
    assert(out + level_leaves(none) + bfs(none) =~= out);
}

proof fn lemma_outcome_next_level(out: Seq<EntryView>, queue: Seq<Located>)
    requires
        queue.len() > 0,
    ensures
        outcome(out, queue, 0) == outcome(out, queue, queue.len() as int),
{
    let none = Seq::<Located>::empty();
    let n = queue.len() as int;
    assert(queue.take(0) =~= none);
    assert(queue.skip(0) + level_children(none) =~= queue);
    assert(queue.take(n) =~= queue);
    assert(queue.skip(n) + level_children(queue) =~= level_children(queue));
    assert(out + level_leaves(none) + bfs(queue) =~= out + level_leaves(queue) + bfs(
        level_children(queue),
    ));
}

proof fn lemma_outcome_visit(out: Seq<EntryView>, queue: Seq<Located>, split: int)
    requires
        1 <= split <= queue.len(),
    ensures
        outcome(out, queue, split) == outcome(
            out + leaf_of(queue[0]),
            queue.skip(1) + children(queue[0]),
            split - 1,
        ),
{
    let first = seq![queue[0]];
    let none = Seq::<Located>::empty();
    let next = queue.skip(1) + children(queue[0]);
    let level = queue.take(split);
    let rest = next.take(split - 1);
    assert(rest =~= queue.subrange(1, split));
    assert(level =~= first + rest);
    assert(first.drop_last() =~= none);
    assert(level_leaves(none) =~= Seq::<EntryView>::empty());
    assert(level_children(none) =~= none);
    assert(level_leaves(first) =~= level_leaves(first.drop_last()) + leaf_of(first.last()));
    assert(level_children(first) =~= level_children(first.drop_last()) + children(first.last()));
    assert(level_leaves(first) =~= leaf_of(queue[0]));
    assert(level_children(first) =~= children(queue[0]));
    lemma_level_leaves_concat(first, rest);
    lemma_level_children_concat(first, rest);
    assert(next.skip(split - 1) =~= queue.skip(split) + children(queue[0]));
    assert(queue.skip(split) + level_children(level) =~= next.skip(split - 1) + level_children(
        rest,
    ));
    assert(out + level_leaves(level) =~= out + leaf_of(queue[0]) + level_leaves(rest));
}

proof fn lemma_visit_decreases(queue: Seq<Located>)
    requires
        queue.len() > 0,
    ensures
        forest_size(queue.skip(1) + children(queue[0])) < forest_size(queue),
{
    let first = seq![queue[0]];
    assert(queue =~= first + queue.skip(1));
    lemma_forest_size_concat(first, queue.skip(1));
    lemma_forest_size_concat(queue.skip(1), children(queue[0]));
    lemma_children_size(queue[0]);
    assert(first.drop_last() =~= Seq::<Located>::empty());
    assert(forest_size(first.drop_last()) == 0);
    assert(forest_size(first) == forest_size(first.drop_last()) + size(first.last().node));
}

/// What a node still to be visited stands for.
pub open spec fn pending_view(item: (&Node, Vec<PathStep>)) -> Located {
    Located { node: item.0@, path: path_view(item.1@) }
}

/// What a queue of nodes still to be visited stands for.
pub open spec fn queue_view(queue: Seq<(&Node, Vec<PathStep>)>) -> Seq<Located> {
    queue.map_values(|item: (&Node, Vec<PathStep>)| pending_view(item))
}

/// Whether no later field has the key of field `i`.
pub fn is_last_field(fields: &Vec<(String, Node)>, i: usize) -> (r: bool)
    requires
        i < fields.len(),
    ensures
        r == is_last_of_key(fields_view(fields@, fields@.len()), i as int),
{
    let ghost view = fields_view(fields@, fields@.len());
    proof {
        lemma_fields_view(fields@, fields@.len());
    }
    let mut j: usize = i + 1;
    while j < fields.len()
        invariant
            i < j <= fields.len(),
            view == fields_view(fields@, fields@.len()),
            view.len() == fields@.len(),
            forall|k: int|
                0 <= k < view.len() ==> #[trigger] view[k] == (fields@[k].0@, fields@[k].1@),
            forall|k: int| i < k < j ==> (#[trigger] view[k]).0 != view[i as int].0,
        decreases fields.len() - j,
    {
        if fields[j].0 == fields[i].0 {
            assert(view[j as int].0 == view[i as int].0);
            return false;
        }
        j = j + 1;
    }
    true
}

/// Puts the children of a node at the back of the queue.
fn enqueue_children<'a>(
    queue: &mut VecDeque<(&'a Node, Vec<PathStep>)>,
    node: &'a Node,
    path: &Vec<PathStep>,
)
    ensures
        queue_view(final(queue)@) == queue_view(old(queue)@) + children(
            Located { node: node@, path: path_view(path@) },
        ),
{
    let ghost before = queue_view(queue@);
    let ghost here = path_view(path@);
    match node {
        Node::Object(fields) => {
            let ghost view = fields_view(fields@, fields@.len());
            proof {
                lemma_fields_view(fields@, fields@.len());
            }
            let mut i: usize = 0;
            while i < fields.len()
                invariant
                    i <= fields.len(),
                    view == fields_view(fields@, fields@.len()),
                    view.len() == fields@.len(),
                    forall|k: int|
                        0 <= k < view.len() ==> #[trigger] view[k] == (
                            fields@[k].0@,
                            fields@[k].1@,
                        ),
                    here == path_view(path@),
                    queue_view(queue@) == before + object_children(view, here, i as nat),
                decreases fields.len() - i,
            {
                if is_last_field(fields, i) {
                    let child_path = extend_path(path, PathStep::Key(fields[i].0.clone()));
                    let ghost item = (&fields[i as int].1, child_path);
                    assert(path_view(child_path@) =~= here.push(StepView::Key(fields[i as int].0@)));
                    assert(pending_view(item) == field_child(view, here, i as int));
                    assert(queue_view(queue@.push(item)) =~= queue_view(queue@).push(
                        pending_view(item),
                    ));
                    queue.push_back((&fields[i].1, child_path));
                    assert(queue_view(queue@) =~= before + object_children(
                        view,
                        here,
                        (i + 1) as nat,
                    ));
                }
                i = i + 1;
            }
        },
        Node::Array(items) => {
            let ghost view = items_view(items@, items@.len());
            proof {
                lemma_items_view(items@, items@.len());
            }
            let mut i: usize = 0;
            while i < items.len()
                invariant
                    i <= items.len(),
                    view.len() == items@.len(),
                    forall|k: int| 0 <= k < view.len() ==> #[trigger] view[k] == items@[k]@,
                    here == path_view(path@),
                    queue_view(queue@) == before + array_children(view, here, i as nat),
                decreases items.len() - i,
            {
                let child_path = extend_path(path, PathStep::Index(i));
                let ghost item = (&items[i as int], child_path);
                assert(path_view(child_path@) =~= here.push(StepView::Index(i as nat)));
                assert(pending_view(item) == item_child(view, here, i as int));
                assert(queue_view(queue@.push(item)) =~= queue_view(queue@).push(
                    pending_view(item),
                ));
                queue.push_back((&items[i], child_path));
                assert(queue_view(queue@) =~= before + array_children(view, here, (i + 1) as nat));
                i = i + 1;
            }
        },
        Node::Primitive(_) => {
            assert(queue_view(queue@) =~= before + Seq::<Located>::empty());
        },
    }
}

/// The leaves of a document, each with its path, in breadth-first order.
/// Where an object has several fields with one key, the last of them
/// counts and the others are passed over. An empty object or array
/// gives no entry.
pub fn traverse(root: &Node) -> (entries: Vec<PrimitiveEntry>)
    ensures
        entries_view(entries@) == bfs(at_root(root@)),
{
    let mut out: Vec<PrimitiveEntry> = Vec::new();
    let mut queue: VecDeque<(&Node, Vec<PathStep>)> = VecDeque::new();
    queue.push_back((root, Vec::new()));
    let ghost target = bfs(at_root(root@));
    let ghost mut split: int = 0;
    proof {
        let none = Seq::<Located>::empty();
        let start = queue_view(queue@);
        assert(path_view(Seq::<PathStep>::empty()) =~= Seq::<StepView>::empty());
        assert(start.len() == 1);
        assert(start[0] == pending_view(queue@[0]));
        assert(start =~= at_root(root@));
        assert(start.take(0) =~= none);
        assert(start.skip(0) + level_children(none) =~= start);
        assert(entries_view(out@) =~= Seq::<EntryView>::empty());
        assert(entries_view(out@) + level_leaves(none) + bfs(start) =~= bfs(start));
    }
    while queue.len() > 0
        invariant
            0 <= split <= queue@.len(),
            outcome(entries_view(out@), queue_view(queue@), split) == target,
        decreases forest_size(queue_view(queue@)),
    {
        let ghost before = queue_view(queue@);
        let ghost given = entries_view(out@);
        proof {
            if split == 0 {
                lemma_outcome_next_level(given, before);
                split = before.len() as int;
            }
            lemma_outcome_visit(given, before, split);
            lemma_visit_decreases(before);
        }
        let ghost whole = queue@;
        let (node, path) = queue.pop_front().unwrap();
        assert(queue_view(queue@) =~= before.skip(1));
        assert(before[0] == pending_view(whole[0]));
        match node {
            Node::Primitive(value) => {
                let entry = PrimitiveEntry { path, value: value.clone() };
                assert(seq![entry@] =~= leaf_of(before[0]));
                assert(entries_view(out@.push(entry)) =~= given + leaf_of(before[0]));
                out.push(entry);
                assert(queue_view(queue@) =~= before.skip(1) + children(before[0]));
            },
            _ => {
                enqueue_children(&mut queue, node, &path);
                assert(given =~= given + leaf_of(before[0]));
            },
        }
        proof {
            split = split - 1;
        }
    }
    proof {
        assert(queue_view(queue@) =~= Seq::<Located>::empty());
        lemma_outcome_done(entries_view(out@));
    }
    out
}

} // verus!
