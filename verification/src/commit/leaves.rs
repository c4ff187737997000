use crate::ast::{fields_view, items_view, lemma_fields_view, lemma_items_view, Node, NodeView};
use crate::commit::bag::{
    gather, has_partner, is_partner, lemma_gather_concat, lemma_gather_partners,
};
use crate::commit::generator::EntryView;
use crate::commit::traverse::{
    array_children, bfs, children, field_child, forest_size, is_last_field, is_last_of_key,
    item_child, leaf_of, lemma_level_children_size, level_children, level_leaves,
    object_children, Located,
};
use crate::path::StepView;
use vstd::multiset::Multiset;
use vstd::prelude::*;
use vstd::seq_lib::lemma_multiset_commutative;

verus! {

/// The leaves of a document that lies at a path, each with its own
/// path, in no order.
pub open spec fn leaves(node: NodeView, path: Seq<StepView>) -> Multiset<EntryView>
    decreases node, 0nat,
{
    match node {
        NodeView::Object(fields) => fields_leaves(fields, path, fields.len()),
        NodeView::Array(items) => items_leaves(items, path, items.len()),
        NodeView::Primitive(value) => Multiset::singleton(EntryView { path, value }),
    }
}

/// The leaves under the first `n` fields of an object at a path; of
/// fields with one key, only the last counts.
pub open spec fn fields_leaves(fields: Seq<(Seq<char>, NodeView)>, path: Seq<StepView>, n: nat)
    -> Multiset<EntryView>
    decreases fields, n,
{
    if n == 0 || n > fields.len() {
        Multiset::empty()
    } else if is_last_of_key(fields, n - 1) {
        fields_leaves(fields, path, (n - 1) as nat).add(
            leaves(fields[n - 1].1, path.push(StepView::Key(fields[n - 1].0))),
        )
    } else {
        fields_leaves(fields, path, (n - 1) as nat)
    }
}

/// The leaves under the first `n` items of an array at a path.
pub open spec fn items_leaves(items: Seq<NodeView>, path: Seq<StepView>, n: nat) -> Multiset<
    EntryView,
>
    decreases items, n,
{
    if n == 0 || n > items.len() {
        Multiset::empty()
    } else {
        items_leaves(items, path, (n - 1) as nat).add(
            leaves(items[n - 1], path.push(StepView::Index((n - 1) as nat))),
        )
    }
}

/// The leaves of some documents, each at its path.
pub open spec fn forest_leaves(level: Seq<Located>) -> Multiset<EntryView>
    decreases level.len(),
{
    if level.len() == 0 {
        Multiset::empty()
    } else {
        forest_leaves(level.drop_last()).add(leaves(level.last().node, level.last().path))
    }
}

proof fn lemma_forest_leaves_concat(a: Seq<Located>, b: Seq<Located>)
    ensures
        forest_leaves(a + b) == forest_leaves(a).add(forest_leaves(b)),
    decreases b.len(),
{
    if b.len() == 0 {
        assert(a + b =~= a);
        assert(forest_leaves(a).add(forest_leaves(b)) =~= forest_leaves(a));
    } else {
        assert((a + b).drop_last() =~= a + b.drop_last());
        lemma_forest_leaves_concat(a, b.drop_last());
        assert(forest_leaves(a + b) =~= forest_leaves(a).add(forest_leaves(b)));
    }
}

proof fn lemma_object_children_leaves(
    fields: Seq<(Seq<char>, NodeView)>,
    path: Seq<StepView>,
    n: nat,
)
    requires
        n <= fields.len(),
    ensures
        forest_leaves(object_children(fields, path, n)) == fields_leaves(fields, path, n),
    decreases n,
{
    if n > 0 {
        lemma_object_children_leaves(fields, path, (n - 1) as nat);
        let before = object_children(fields, path, (n - 1) as nat);
        if is_last_of_key(fields, n - 1) {
            assert(before.push(field_child(fields, path, n - 1)).drop_last() =~= before);
        }
    }
}

proof fn lemma_array_children_leaves(items: Seq<NodeView>, path: Seq<StepView>, n: nat)
    requires
        n <= items.len(),
    ensures
        forest_leaves(array_children(items, path, n)) == items_leaves(items, path, n),
    decreases n,
{
    if n > 0 {
        lemma_array_children_leaves(items, path, (n - 1) as nat);
        let before = array_children(items, path, (n - 1) as nat);
        assert(before.push(item_child(items, path, n - 1)).drop_last() =~= before);
    }
}

/// The leaves of a document are itself, if it is a leaf, and the leaves
/// of its children.
proof fn lemma_children_leaves(at: Located)
    ensures
        leaves(at.node, at.path) == leaf_of(at).to_multiset().add(forest_leaves(children(at))),
{
    let none = Seq::<EntryView>::empty();
    none.to_multiset_ensures();
    vstd::multiset::lemma_multiset_empty_len(none.to_multiset());
    match at.node {
        NodeView::Object(fields) => {
            lemma_object_children_leaves(fields, at.path, fields.len());
            assert(leaves(at.node, at.path) =~= leaf_of(at).to_multiset().add(
                forest_leaves(children(at)),
            ));
        },
        NodeView::Array(items) => {
            lemma_array_children_leaves(items, at.path, items.len());
            assert(leaves(at.node, at.path) =~= leaf_of(at).to_multiset().add(
                forest_leaves(children(at)),
            ));
        },
        NodeView::Primitive(value) => {
            let entry = EntryView { path: at.path, value };
            assert(leaf_of(at) =~= none.push(entry));
            assert(leaves(at.node, at.path) =~= leaf_of(at).to_multiset().add(
                forest_leaves(children(at)),
            ));
        },
    }
}

proof fn lemma_level_leaves_bag(level: Seq<Located>)
    ensures
        forest_leaves(level) == level_leaves(level).to_multiset().add(
            forest_leaves(level_children(level)),
        ),
    decreases level.len(),
{
    let none = Seq::<EntryView>::empty();
    none.to_multiset_ensures();
    vstd::multiset::lemma_multiset_empty_len(none.to_multiset());
    if level.len() == 0 {
        assert(forest_leaves(level) =~= level_leaves(level).to_multiset().add(
            forest_leaves(level_children(level)),
        ));
    } else {
        let shorter = level.drop_last();
        let last = level.last();
        lemma_level_leaves_bag(shorter);
        lemma_children_leaves(last);
        lemma_forest_leaves_concat(level_children(shorter), children(last));
        lemma_multiset_commutative(level_leaves(shorter), leaf_of(last));
        assert(forest_leaves(level) =~= level_leaves(level).to_multiset().add(
            forest_leaves(level_children(level)),
        ));
    }
}

/// The traversal gives the leaves of the documents, each once.
pub proof fn lemma_bfs_leaves(level: Seq<Located>)
    ensures
        bfs(level).to_multiset() == forest_leaves(level),
    decreases forest_size(level),
{
    let none = Seq::<EntryView>::empty();
    none.to_multiset_ensures();
    vstd::multiset::lemma_multiset_empty_len(none.to_multiset());
    if level.len() == 0 {
        assert(bfs(level).to_multiset() =~= forest_leaves(level));
    } else {
        lemma_level_children_size(level);
        lemma_bfs_leaves(level_children(level));
        lemma_level_leaves_bag(level);
        lemma_multiset_commutative(level_leaves(level), bfs(level_children(level)));
    }
}

/// Whether no object of a document, at any depth, has two fields with
/// one key.
pub open spec fn keys_distinct(node: NodeView) -> bool
    decreases node,
{
    match node {
        NodeView::Object(fields) => {
            &&& forall|i: int, j: int|
                0 <= i < j < fields.len() ==> (#[trigger] fields[i]).0 != (#[trigger] fields[j]).0
            &&& forall|i: int| 0 <= i < fields.len() ==> keys_distinct((#[trigger] fields[i]).1)
        },
        NodeView::Array(items) => forall|i: int|
            0 <= i < items.len() ==> keys_distinct(#[trigger] items[i]),
        NodeView::Primitive(_) => true,
    }
}

proof fn lemma_object_keys_recur(fields: Seq<(Seq<char>, NodeView)>, i: int, j: int)
    requires
        0 <= i < j < fields.len(),
        fields[i].0 == fields[j].0,
    ensures
        !keys_distinct(NodeView::Object(fields)),
{
    let node = NodeView::Object(fields);
    if keys_distinct(node) {
        assert(node->Object_0 == fields);
        assert(fields[i].0 != fields[j].0);
    }
}

proof fn lemma_object_child_recurs(fields: Seq<(Seq<char>, NodeView)>, i: int)
    requires
        0 <= i < fields.len(),
        !keys_distinct(fields[i].1),
    ensures
        !keys_distinct(NodeView::Object(fields)),
{
    let node = NodeView::Object(fields);
    if keys_distinct(node) {
        assert(node->Object_0 == fields);
        assert(keys_distinct(fields[i].1));
    }
}

proof fn lemma_array_item_recurs(items: Seq<NodeView>, i: int)
    requires
        0 <= i < items.len(),
        !keys_distinct(items[i]),
    ensures
        !keys_distinct(NodeView::Array(items)),
{
    let node = NodeView::Array(items);
    if keys_distinct(node) {
        assert(node->Array_0 == items);
        assert(keys_distinct(items[i]));
    }
}

/// Whether no object of the document, at any depth, has two fields
/// with one key.
pub fn has_distinct_keys(node: &Node) -> (r: bool)
    ensures
        r == keys_distinct(node@),
    decreases node,
{
    match node {
        Node::Object(fields) => {
            let ghost view = fields_view(fields@, fields@.len());
            proof {
                lemma_fields_view(fields@, fields@.len());
            }
            let mut i: usize = 0;
            while i < fields.len()
                invariant
                    i <= fields.len(),
                    *node == Node::Object(*fields),
                    node@ == NodeView::Object(view),
                    view == fields_view(fields@, fields@.len()),
                    view.len() == fields@.len(),
                    forall|k: int|
                        0 <= k < view.len() ==> #[trigger] view[k] == (
                            fields@[k].0@,
                            fields@[k].1@,
                        ),
                    forall|k: int| 0 <= k < i ==> is_last_of_key(view, k),
                    forall|k: int| 0 <= k < i ==> keys_distinct((#[trigger] view[k]).1),
                decreases fields.len() - i,
            {
                if !is_last_field(fields, i) {
                    proof {
                        let j = choose|j: int|
                            i < j < view.len() && (#[trigger] view[j]).0 == view[i as int].0;
                        lemma_object_keys_recur(view, i as int, j);
                    }
                    return false;
                }
                proof {
                    vstd::std_specs::vec::axiom_vec_index_decreases(*fields, i as int);
                }
                if !has_distinct_keys(&fields[i].1) {
                    proof {
                        lemma_object_child_recurs(view, i as int);
                    }
                    return false;
                }
                i = i + 1;
            }
            proof {
                assert forall|a: int, b: int| 0 <= a < b < view.len() implies (#[trigger] view[a]).0
                    != (#[trigger] view[b]).0 by {
                    assert(is_last_of_key(view, a));
                }
            }
            true
        },
        Node::Array(items) => {
            let ghost view = items_view(items@, items@.len());
            proof {
                lemma_items_view(items@, items@.len());
            }
            let mut i: usize = 0;
            while i < items.len()
                invariant
                    i <= items.len(),
                    *node == Node::Array(*items),
                    node@ == NodeView::Array(view),
                    view == items_view(items@, items@.len()),
                    view.len() == items@.len(),
                    forall|k: int| 0 <= k < view.len() ==> #[trigger] view[k] == items@[k]@,
                    forall|k: int| 0 <= k < i ==> keys_distinct(#[trigger] view[k]),
                decreases items.len() - i,
            {
                proof {
                    vstd::std_specs::vec::axiom_vec_index_decreases(*items, i as int);
                }
                if !has_distinct_keys(&items[i]) {
                    proof {
                        lemma_array_item_recurs(view, i as int);
                    }
                    return false;
                }
                i = i + 1;
            }
            true
        },
        Node::Primitive(_) => true,
    }
}

/// Whether two documents are the same but for the order of the fields
/// of their objects, at any depth: each field of an object of the one
/// has its key on a field of the other that holds the same document but
/// for order.
pub open spec fn same_but_for_order(a: NodeView, b: NodeView) -> bool
    decreases a,
{
    match a {
        NodeView::Object(fields) => {
            &&& b is Object
            &&& b->Object_0.len() == fields.len()
            &&& forall|i: int|
                0 <= i < fields.len() ==> exists|j: int|
                    0 <= j < b->Object_0.len() && (#[trigger] b->Object_0[j]).0 == (
                    #[trigger] fields[i]).0 && same_but_for_order(fields[i].1, b->Object_0[j].1)
        },
        NodeView::Array(items) => {
            &&& b is Array
            &&& b->Array_0.len() == items.len()
            &&& forall|i: int|
                0 <= i < items.len() ==> same_but_for_order(#[trigger] items[i], b->Array_0[i])
        },
        NodeView::Primitive(_) => b == a,
    }
}

/// The leaves under a field of an object at a path.
pub open spec fn field_leaves(path: Seq<StepView>) -> spec_fn((Seq<char>, NodeView)) -> Multiset<
    EntryView,
> {
    |field: (Seq<char>, NodeView)| leaves(field.1, path.push(StepView::Key(field.0)))
}

pub proof fn lemma_fields_leaves_gather(fields: Seq<(Seq<char>, NodeView)>, path: Seq<StepView>, n: nat)
    requires
        n <= fields.len(),
        forall|i: int, j: int|
            0 <= i < j < fields.len() ==> (#[trigger] fields[i]).0 != (#[trigger] fields[j]).0,
    ensures
        fields_leaves(fields, path, n) == gather(fields.take(n as int), field_leaves(path)),
    decreases n,
{
    if n > 0 {
        lemma_fields_leaves_gather(fields, path, (n - 1) as nat);
        assert(fields.take(n as int).drop_last() =~= fields.take(n - 1));
        assert(fields.take(n as int).last() == fields[n - 1]);
        assert(is_last_of_key(fields, n - 1));
    }
}

proof fn lemma_items_leaves_same(
    a: Seq<NodeView>,
    b: Seq<NodeView>,
    path: Seq<StepView>,
    n: nat,
)
    requires
        n <= a.len(),
        a.len() == b.len(),
        forall|i: int| 0 <= i < a.len() ==> keys_distinct(#[trigger] a[i]),
        forall|i: int| 0 <= i < b.len() ==> keys_distinct(#[trigger] b[i]),
        forall|i: int| 0 <= i < a.len() ==> same_but_for_order(#[trigger] a[i], b[i]),
    ensures
        items_leaves(a, path, n) == items_leaves(b, path, n),
    decreases a, n,
{
    if n > 0 {
        lemma_items_leaves_same(a, b, path, (n - 1) as nat);
        lemma_leaves_same(a[n - 1], b[n - 1], path.push(StepView::Index((n - 1) as nat)));
    }
}

/// Documents that are the same but for the order of fields have the
/// same leaves at the same paths.
pub proof fn lemma_leaves_same(a: NodeView, b: NodeView, path: Seq<StepView>)
    requires
        keys_distinct(a),
        keys_distinct(b),
        same_but_for_order(a, b),
    ensures
        leaves(a, path) == leaves(b, path),
    decreases a, 0nat,
{
    match a {
        NodeView::Object(fields) => {
            let others = b->Object_0;
            let key = |field: (Seq<char>, NodeView)| field.0;
            let give = field_leaves(path);
            lemma_fields_leaves_gather(fields, path, fields.len());
            lemma_fields_leaves_gather(others, path, others.len());
            assert(fields.take(fields.len() as int) =~= fields);
            assert(others.take(others.len() as int) =~= others);
            assert forall|i: int| 0 <= i < fields.len() implies #[trigger] has_partner(
                fields[i],
                others,
                key,
                give,
                give,
            ) by {
                let field = fields[i];
                let j = choose|j: int|
                    0 <= j < others.len() && (#[trigger] others[j]).0 == field.0
                        && same_but_for_order(field.1, others[j].1);
                assert(keys_distinct(others[j].1));
                lemma_leaves_same(fields[i].1, others[j].1, path.push(StepView::Key(fields[i].0)));
                assert(is_partner(fields[i], others, j, key, give, give));
            }
            lemma_gather_partners(fields, others, key, give, give);
        },
        NodeView::Array(items) => {
            lemma_items_leaves_same(items, b->Array_0, path, items.len());
        },
        NodeView::Primitive(_) => {},
    }
}

/// What it is for an object to have distinct keys at any depth.
pub open spec fn fields_distinct(fields: Seq<(Seq<char>, NodeView)>) -> bool {
    &&& forall|i: int, j: int|
        0 <= i < j < fields.len() ==> (#[trigger] fields[i]).0 != (#[trigger] fields[j]).0
    &&& forall|i: int| 0 <= i < fields.len() ==> keys_distinct((#[trigger] fields[i]).1)
}

pub proof fn lemma_keys_distinct_object(fields: Seq<(Seq<char>, NodeView)>)
    ensures
        keys_distinct(NodeView::Object(fields)) == fields_distinct(fields),
{
    let node = NodeView::Object(fields);
    assert(node->Object_0 == fields);
    if keys_distinct(node) {
        assert(fields_distinct(fields));
    }
    if fields_distinct(fields) {
        assert(keys_distinct(node));
    }
}

/// The leaves of an object that holds the fields of two objects are
/// the leaves of the two, where no key is there twice.
pub proof fn lemma_leaves_of_union(
    first: Seq<(Seq<char>, NodeView)>,
    second: Seq<(Seq<char>, NodeView)>,
    path: Seq<StepView>,
)
    requires
        keys_distinct(NodeView::Object(first + second)),
    ensures
        keys_distinct(NodeView::Object(first)),
        keys_distinct(NodeView::Object(second)),
        leaves(NodeView::Object(first + second), path) == leaves(
            NodeView::Object(first),
            path,
        ).add(leaves(NodeView::Object(second), path)),
{
    let both = first + second;
    lemma_keys_distinct_object(both);
    lemma_keys_distinct_object(first);
    lemma_keys_distinct_object(second);
    assert forall|i: int, j: int| 0 <= i < j < first.len() implies (#[trigger] first[i]).0 != (
    #[trigger] first[j]).0 by {
        assert(both[i] == first[i]);
        assert(both[j] == first[j]);
    }
    assert forall|i: int| 0 <= i < first.len() implies keys_distinct((#[trigger] first[i]).1) by {
        assert(both[i] == first[i]);
    }
    assert forall|i: int, j: int| 0 <= i < j < second.len() implies (#[trigger] second[i]).0 != (
    #[trigger] second[j]).0 by {
        assert(both[first.len() + i] == second[i]);
        assert(both[first.len() + j] == second[j]);
    }
    assert forall|i: int| 0 <= i < second.len() implies keys_distinct((#[trigger] second[i]).1) by {
        assert(both[first.len() + i] == second[i]);
    }
    lemma_fields_leaves_gather(both, path, both.len());
    lemma_fields_leaves_gather(first, path, first.len());
    lemma_fields_leaves_gather(second, path, second.len());
    assert(both.take(both.len() as int) =~= both);
    assert(first.take(first.len() as int) =~= first);
    assert(second.take(second.len() as int) =~= second);
    lemma_gather_concat(first, second, field_leaves(path));
}

} // verus!
