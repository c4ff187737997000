use crate::ast::NodeView;
use crate::commit::generator::EntryView;
use crate::commit::leaves::{fields_leaves, forest_leaves, items_leaves, leaves, lemma_bfs_leaves};
use crate::commit::traverse::{at_root, bfs, is_last_of_key, Located};
use crate::path::StepView;
use vstd::multiset::Multiset;
use vstd::prelude::*;

verus! {

/// Whether a path begins with the steps of another.
pub open spec fn extends(path: Seq<StepView>, prefix: Seq<StepView>) -> bool {
    prefix.len() <= path.len() && path.take(prefix.len() as int) == prefix
}

/// Whether no two of some leaves have one path, and none is there twice.
pub open spec fn paths_unique(entries: Multiset<EntryView>) -> bool {
    &&& forall|e: EntryView| entries.count(e) <= 1
    &&& forall|a: EntryView, b: EntryView|
        #![trigger entries.contains(a), entries.contains(b)]
        entries.contains(a) && entries.contains(b) && a.path == b.path ==> a == b
}

/// Whether the paths of some leaves all begin with `prefix`.
pub open spec fn all_under(entries: Multiset<EntryView>, prefix: Seq<StepView>) -> bool {
    forall|e: EntryView| #[trigger] entries.contains(e) ==> extends(e.path, prefix)
}

/// Whether a path goes, after `prefix`, through a step that is not
/// `step`.
pub open spec fn turns_off(path: Seq<StepView>, prefix: Seq<StepView>, step: StepView) -> bool {
    extends(path, prefix) && path.len() > prefix.len() && path[prefix.len() as int] != step
}

proof fn lemma_extends_step(path: Seq<StepView>, prefix: Seq<StepView>, step: StepView)
    requires
        extends(path, prefix.push(step)),
    ensures
        extends(path, prefix),
        path.len() > prefix.len(),
        path[prefix.len() as int] == step,
{
    let longer = prefix.push(step);
    assert(path.take(longer.len() as int)[prefix.len() as int] == step);
    assert(path.take(prefix.len() as int) =~= path.take(longer.len() as int).take(
        prefix.len() as int,
    ));
    assert(longer.take(prefix.len() as int) =~= prefix);
}

/// Leaves with unique paths that all turn off a step, and leaves with
/// unique paths under that step, have unique paths together.
proof fn lemma_unique_sum(
    before: Multiset<EntryView>,
    under: Multiset<EntryView>,
    prefix: Seq<StepView>,
    step: StepView,
)
    requires
        paths_unique(before),
        paths_unique(under),
        forall|e: EntryView| #[trigger] before.contains(e) ==> turns_off(e.path, prefix, step),
        all_under(under, prefix.push(step)),
    ensures
        paths_unique(before.add(under)),
        all_under(before.add(under), prefix),
{
    let sum = before.add(under);
    assert forall|e: EntryView| #[trigger] under.contains(e) implies extends(e.path, prefix)
        && e.path.len() > prefix.len() && e.path[prefix.len() as int] == step by {
        lemma_extends_step(e.path, prefix, step);
    }
    assert forall|e: EntryView| sum.count(e) <= 1 by {
        if under.contains(e) && before.contains(e) {
            assert(turns_off(e.path, prefix, step));
        }
    }
    assert forall|a: EntryView, b: EntryView|
        #![trigger sum.contains(a), sum.contains(b)]
        sum.contains(a) && sum.contains(b) && a.path == b.path implies a == b by {
        assert(sum.count(a) == before.count(a) + under.count(a));
        assert(sum.count(b) == before.count(b) + under.count(b));
        assert(before.contains(a) || under.contains(a));
        assert(before.contains(b) || under.contains(b));
        if before.contains(a) {
            assert(turns_off(a.path, prefix, step));
        }
        if before.contains(b) {
            assert(turns_off(b.path, prefix, step));
        }
        if under.contains(a) {
            assert(a.path[prefix.len() as int] == step);
        }
        if under.contains(b) {
            assert(b.path[prefix.len() as int] == step);
        }
    }
    assert forall|e: EntryView| #[trigger] sum.contains(e) implies extends(e.path, prefix) by {
        assert(sum.count(e) == before.count(e) + under.count(e));
        assert(before.contains(e) || under.contains(e));
        if before.contains(e) {
            assert(turns_off(e.path, prefix, step));
        }
    }
}

/// Whether the paths of some leaves go, after `prefix`, into one of the
/// first `n` fields that are the last of their key.
pub open spec fn under_fields(
    entries: Multiset<EntryView>,
    fields: Seq<(Seq<char>, NodeView)>,
    prefix: Seq<StepView>,
    n: nat,
) -> bool {
    forall|e: EntryView| #[trigger]
        entries.contains(e) ==> extends(e.path, prefix) && e.path.len() > prefix.len() && exists|
            i: int,
        |
            0 <= i < n && is_last_of_key(fields, i) && e.path[prefix.len() as int]
                == StepView::Key((#[trigger] fields[i]).0)
}

/// Whether the paths of some leaves go, after `prefix`, into one of the
/// first `n` items.
pub open spec fn under_items(entries: Multiset<EntryView>, prefix: Seq<StepView>, n: nat) -> bool {
    forall|e: EntryView| #[trigger]
        entries.contains(e) ==> extends(e.path, prefix) && e.path.len() > prefix.len() && (
        e.path[prefix.len() as int] matches StepView::Index(i) && i < n)
}

proof fn lemma_fields_unique(fields: Seq<(Seq<char>, NodeView)>, prefix: Seq<StepView>, n: nat)
    requires
        n <= fields.len(),
    ensures
        paths_unique(fields_leaves(fields, prefix, n)),
        under_fields(fields_leaves(fields, prefix, n), fields, prefix, n),
    decreases fields, n,
{
    if n > 0 {
        let before = fields_leaves(fields, prefix, (n - 1) as nat);
        lemma_fields_unique(fields, prefix, (n - 1) as nat);
        if is_last_of_key(fields, n - 1) {
            let step = StepView::Key(fields[n - 1].0);
            let under = leaves(fields[n - 1].1, prefix.push(step));
            lemma_leaves_unique(fields[n - 1].1, prefix.push(step));
            assert forall|e: EntryView| #[trigger] before.contains(e) implies turns_off(
                e.path,
                prefix,
                step,
            ) by {
                let i = choose|i: int|
                    0 <= i < n - 1 && is_last_of_key(fields, i) && e.path[prefix.len() as int]
                        == StepView::Key((#[trigger] fields[i]).0);
                assert(fields[n - 1].0 != fields[i].0);
            }
            lemma_unique_sum(before, under, prefix, step);
            let sum = before.add(under);
            assert forall|e: EntryView| #[trigger] sum.contains(e) implies extends(e.path, prefix)
                && e.path.len() > prefix.len() && exists|i: int|
                0 <= i < n && is_last_of_key(fields, i) && e.path[prefix.len() as int]
                    == StepView::Key((#[trigger] fields[i]).0) by {
                if under.contains(e) {
                    lemma_extends_step(e.path, prefix, step);
                    assert(e.path[prefix.len() as int] == StepView::Key(fields[n - 1].0));
                } else {
                    assert(before.contains(e));
                    let i = choose|i: int|
                        0 <= i < n - 1 && is_last_of_key(fields, i) && e.path[prefix.len() as int]
                            == StepView::Key((#[trigger] fields[i]).0);
                    assert(e.path[prefix.len() as int] == StepView::Key(fields[i].0));
                }
            }
        } else {
            let whole = fields_leaves(fields, prefix, n);
            assert forall|e: EntryView| #[trigger] whole.contains(e) implies extends(
                e.path,
                prefix,
            ) && e.path.len() > prefix.len() && exists|i: int|
                0 <= i < n && is_last_of_key(fields, i) && e.path[prefix.len() as int]
                    == StepView::Key((#[trigger] fields[i]).0) by {
                let i = choose|i: int|
                    0 <= i < n - 1 && is_last_of_key(fields, i) && e.path[prefix.len() as int]
                        == StepView::Key((#[trigger] fields[i]).0);
                assert(e.path[prefix.len() as int] == StepView::Key(fields[i].0));
            }
        }
    }
}

proof fn lemma_items_unique(items: Seq<NodeView>, prefix: Seq<StepView>, n: nat)
    requires
        n <= items.len(),
    ensures
        paths_unique(items_leaves(items, prefix, n)),
        under_items(items_leaves(items, prefix, n), prefix, n),
    decreases items, n,
{
    if n > 0 {
        let before = items_leaves(items, prefix, (n - 1) as nat);
        lemma_items_unique(items, prefix, (n - 1) as nat);
        let step = StepView::Index((n - 1) as nat);
        let under = leaves(items[n - 1], prefix.push(step));
        lemma_leaves_unique(items[n - 1], prefix.push(step));
        assert forall|e: EntryView| #[trigger] before.contains(e) implies turns_off(
            e.path,
            prefix,
            step,
        ) by {
            assert(e.path[prefix.len() as int] != step);
        }
        lemma_unique_sum(before, under, prefix, step);
        let sum = before.add(under);
        assert forall|e: EntryView| #[trigger] sum.contains(e) implies extends(e.path, prefix)
            && e.path.len() > prefix.len() && (e.path[prefix.len() as int] matches StepView::Index(
            i,
        ) && i < n) by {
            if under.contains(e) {
                lemma_extends_step(e.path, prefix, step);
            } else {
                assert(before.contains(e));
            }
        }
    }
}

/// The leaves of a document have paths that begin with the path of the
/// document, and no two of them have one path.
pub proof fn lemma_leaves_unique(node: NodeView, prefix: Seq<StepView>)
    ensures
        paths_unique(leaves(node, prefix)),
        all_under(leaves(node, prefix), prefix),
    decreases node, 0nat,
{
    match node {
        NodeView::Object(fields) => {
            lemma_fields_unique(fields, prefix, fields.len());
        },
        NodeView::Array(items) => {
            lemma_items_unique(items, prefix, items.len());
        },
        NodeView::Primitive(value) => {
            assert(prefix.take(prefix.len() as int) =~= prefix);
        },
    }
}

/// A path is the address of one leaf: no two leaves that the traversal
/// of a document gives have one path.
pub proof fn lemma_paths_are_unique(node: NodeView, i: int, j: int)
    requires
        0 <= i < j < bfs(at_root(node)).len(),
    ensures
        bfs(at_root(node))[i].path != bfs(at_root(node))[j].path,
{
    let entries = bfs(at_root(node));
    let none = Seq::<StepView>::empty();
    lemma_bfs_leaves(at_root(node));
    lemma_leaves_unique(node, none);
    assert(at_root(node).drop_last() =~= Seq::<Located>::empty());
    assert(forest_leaves(at_root(node).drop_last()) =~= Multiset::empty());
    assert(forest_leaves(at_root(node)) =~= leaves(node, none));
    entries.to_multiset_ensures();
    let bag = entries.to_multiset();
    assert(entries.contains(entries[i]));
    assert(entries.contains(entries[j]));
    assert(bag.contains(entries[i]));
    assert(bag.contains(entries[j]));
    assert forall|x: EntryView| bag.contains(x) implies bag.count(x) == 1 by {}
    entries.lemma_multiset_has_no_duplicates_conv();
}

} // verus!
