use crate::ast::{NodeView, PrimitiveView};
use crate::commit::bag::{gather, lemma_gather_permutation};
use crate::commit::batch_commit::{
    aggregate_value, failure_of, failures_of, term_bag, term_of,
};
use crate::commit::generator::EntryView;
use crate::commit::leaves::{
    forest_leaves, keys_distinct, leaves, lemma_bfs_leaves, lemma_leaves_of_union,
    lemma_leaves_same, same_but_for_order,
};
use crate::commit::single_commit::{leaf_commitment, value_number, value_scalar};
use crate::commit::traverse::{at_root, bfs, Located};
use crate::encoding::{lemma_be_bytes_injective, lemma_be_nat_bound, lemma_pow256_8};
use crate::errors::FailureView;
use crate::path::{encode_path, lemma_encode_path_injective, path_encodable, StepView};
use crate::scalar::{lemma_order_large, order, order_bytes};
use vstd::multiset::Multiset;
use vstd::prelude::*;
use vstd::seq_lib::lemma_multiset_commutative;

verus! {

proof fn lemma_term_bag_gathers(entries: Seq<EntryView>)
    ensures
        term_bag(entries) == gather(entries, |e: EntryView| term_of(e)),
    decreases entries.len(),
{
    if entries.len() > 0 {
        lemma_term_bag_gathers(entries.drop_last());
    }
}

proof fn lemma_failures_gather(entries: Seq<EntryView>)
    ensures
        failures_of(entries).to_multiset() == gather(
            entries,
            |e: EntryView| failure_of(e).to_multiset(),
        ),
    decreases entries.len(),
{
    let none = Seq::<FailureView>::empty();
    none.to_multiset_ensures();
    vstd::multiset::lemma_multiset_empty_len(none.to_multiset());
    if entries.len() > 0 {
        lemma_failures_gather(entries.drop_last());
        lemma_multiset_commutative(failures_of(entries.drop_last()), failure_of(entries.last()));
    }
}

/// The commitment to leaves does not depend on their order: the same
/// leaves in another order have the same commitment, and the same
/// leaves fail.
pub proof fn lemma_aggregate_of_permutation(
    a: Seq<EntryView>,
    b: Seq<EntryView>,
    blinding: Option<Seq<u8>>,
)
    requires
        a.to_multiset() == b.to_multiset(),
    ensures
        aggregate_value(a, blinding) == aggregate_value(b, blinding),
        failures_of(a).to_multiset() == failures_of(b).to_multiset(),
        failures_of(a).len() == failures_of(b).len(),
{
    lemma_term_bag_gathers(a);
    lemma_term_bag_gathers(b);
    lemma_gather_permutation(a, b, |e: EntryView| term_of(e));
    lemma_failures_gather(a);
    lemma_failures_gather(b);
    lemma_gather_permutation(a, b, |e: EntryView| failure_of(e).to_multiset());
    failures_of(a).to_multiset_ensures();
    failures_of(b).to_multiset_ensures();
}

/// The traversal of a document gives its leaves.
pub proof fn lemma_traversal_gives_leaves(node: NodeView)
    ensures
        bfs(at_root(node)).to_multiset() == leaves(node, Seq::empty()),
{
    lemma_bfs_leaves(at_root(node));
    assert(at_root(node).drop_last() =~= Seq::<Located>::empty());
    assert(forest_leaves(at_root(node).drop_last()) =~= Multiset::empty());
    assert(forest_leaves(at_root(node)) =~= leaves(node, Seq::empty()));
}

/// The commitment to an object that holds the fields of two objects,
/// no key twice, is the commitment to the leaves of the one followed by
/// those of the other.
pub proof fn lemma_commitment_of_union(
    first: Seq<(Seq<char>, NodeView)>,
    second: Seq<(Seq<char>, NodeView)>,
)
    requires
        keys_distinct(NodeView::Object(first + second)),
    ensures
        aggregate_value(bfs(at_root(NodeView::Object(first + second))), None) == aggregate_value(
            bfs(at_root(NodeView::Object(first))) + bfs(at_root(NodeView::Object(second))),
            None,
        ),
{
    let a = bfs(at_root(NodeView::Object(first)));
    let b = bfs(at_root(NodeView::Object(second)));
    let both = bfs(at_root(NodeView::Object(first + second)));
    lemma_traversal_gives_leaves(NodeView::Object(first));
    lemma_traversal_gives_leaves(NodeView::Object(second));
    lemma_traversal_gives_leaves(NodeView::Object(first + second));
    lemma_leaves_of_union(first, second, Seq::empty());
    lemma_multiset_commutative(a, b);
    lemma_aggregate_of_permutation(both, a + b, None);
}

/// The leaves that a traversal gives for documents that are the same
/// but for the order of the fields of their objects are the same
/// leaves, in whatever order.
pub proof fn lemma_traversal_of_reordered(a: NodeView, b: NodeView)
    requires
        keys_distinct(a),
        keys_distinct(b),
        same_but_for_order(a, b),
    ensures
        bfs(at_root(a)).to_multiset() == bfs(at_root(b)).to_multiset(),
{
    lemma_traversal_gives_leaves(a);
    lemma_traversal_gives_leaves(b);
    lemma_leaves_same(a, b, Seq::empty());
}

/// The commitment to a document does not depend on the order in which
/// its objects hold their fields: documents that are the same but for
/// that order have the same commitment, and the one has a commitment
/// if, and only if, the other has.
pub proof fn lemma_order_independence(a: NodeView, b: NodeView, blinding: Option<Seq<u8>>)
    requires
        keys_distinct(a),
        keys_distinct(b),
        same_but_for_order(a, b),
    ensures
        aggregate_value(bfs(at_root(a)), blinding) == aggregate_value(bfs(at_root(b)), blinding),
        failures_of(bfs(at_root(a))).len() == failures_of(bfs(at_root(b))).len(),
{
    lemma_traversal_of_reordered(a, b);
    lemma_aggregate_of_permutation(bfs(at_root(a)), bfs(at_root(b)), blinding);
}

/// Different paths are hashed from different bytes, so that only a
/// collision of the hash gives two paths one generator.
pub proof fn lemma_distinct_paths_distinct_messages(p: Seq<StepView>, q: Seq<StepView>)
    requires
        path_encodable(p),
        path_encodable(q),
        p != q,
    ensures
        encode_path(p) != encode_path(q),
{
    if encode_path(p) == encode_path(q) {
        lemma_encode_path_injective(p, q);
    }
}

/// A leaf that has no commitment is among the failures, with its path
/// and the reason.
pub proof fn lemma_failure_is_reported(entries: Seq<EntryView>, at: int)
    requires
        0 <= at < entries.len(),
        leaf_commitment(entries[at], None) is Err,
    ensures
        failures_of(entries).contains(
            FailureView {
                path: entries[at].path,
                error: leaf_commitment(entries[at], None)->Err_0,
            },
        ),
        failures_of(entries).len() > 0,
    decreases entries.len(),
{
    let failure = FailureView {
        path: entries[at].path,
        error: leaf_commitment(entries[at], None)->Err_0,
    };
    let before = failures_of(entries.drop_last());
    let whole = failures_of(entries);
    if at == entries.len() - 1 {
        assert(failure_of(entries.last()) =~= seq![failure]);
        assert(whole[before.len() as int] == failure);
    } else {
        assert(entries.drop_last()[at] == entries[at]);
        lemma_failure_is_reported(entries.drop_last(), at);
        let i = choose|i: int| 0 <= i < before.len() && before[i] == failure;
        assert(whole[i] == failure);
    }
}

/// Whether a value has a number of its own: it is `null`, a truth
/// value, or an integer below `2^64` in magnitude.
pub open spec fn has_number(value: PrimitiveView) -> bool {
    value_number(value) is Some
}

/// Values with numbers of their own have different scalars unless they
/// are the same value.
pub proof fn lemma_value_scalar_injective(a: PrimitiveView, b: PrimitiveView)
    requires
        has_number(a),
        has_number(b),
        value_scalar(a) == value_scalar(b),
    ensures
        a == b,
{
    let x = value_number(a)->Some_0;
    let y = value_number(b)->Some_0;
    lemma_order_large();
    lemma_pow256_8();
    lemma_be_nat_bound(order_bytes());
    assert(x < order());
    assert(y < order());
    lemma_be_bytes_injective(x, y, 32);
}

} // verus!
