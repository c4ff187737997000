use crate::ast::{Node, NodeView};
use crate::commit::laws::lemma_commitment_of_union;
use crate::commit::leaves::keys_distinct;
use crate::commit::generator::{EntryView, PrimitiveEntry};
use crate::commit::single_commit::{
    blind, blinding_term, leaf_commitment, scalar_view, SingleCommit,
};
use crate::commit::traverse::{at_root, bfs, entries_view, traverse};
use crate::errors::{CommitError, FailureView, JcError, LeafFailure};
use crate::group::{
    all_points, ec_sum, encodings, is_encoding, sums_of, union_all, GroupElement,
};
use crate::path::clone_path;
use crate::scalar::Scalar;
use vstd::multiset::Multiset;
use vstd::prelude::*;

verus! {

/// The term that a leaf adds to the commitment to its document: its
/// commitment, or nothing where it has none.
pub open spec fn term_of(entry: EntryView) -> Multiset<Seq<u8>> {
    match leaf_commitment(entry, None) {
        Ok(term) => Multiset::singleton(term),
        Err(_) => Multiset::empty(),
    }
}

/// The terms of some leaves.
pub open spec fn term_bag(entries: Seq<EntryView>) -> Multiset<Seq<u8>>
    decreases entries.len(),
{
    if entries.len() == 0 {
        Multiset::empty()
    } else {
        term_bag(entries.drop_last()).add(term_of(entries.last()))
    }
}

/// The failure of a leaf that has no commitment.
pub open spec fn failure_of(entry: EntryView) -> Seq<FailureView> {
    match leaf_commitment(entry, None) {
        Ok(_) => Seq::empty(),
        Err(error) => seq![FailureView { path: entry.path, error }],
    }
}

/// The leaves that have no commitment, in order, each with the reason.
pub open spec fn failures_of(entries: Seq<EntryView>) -> Seq<FailureView>
    decreases entries.len(),
{
    if entries.len() == 0 {
        Seq::empty()
    } else {
        failures_of(entries.drop_last()) + failure_of(entries.last())
    }
}

/// The terms together with the blinding term of the document, where
/// there is one.
pub open spec fn with_blinding(terms: Multiset<Seq<u8>>, blinding: Option<Seq<u8>>) -> Multiset<
    Seq<u8>,
> {
    match blinding {
        Some(scalar) => terms.insert(blinding_term(scalar)),
        None => terms,
    }
}

/// The commitment to a document with these leaves: the sum of their
/// terms and of the blinding term.
pub open spec fn aggregate_value(entries: Seq<EntryView>, blinding: Option<Seq<u8>>) -> Seq<u8> {
    ec_sum(with_blinding(term_bag(entries), blinding))
}

/// Whether every leaf has a commitment that encodes a point.
pub open spec fn committed(entries: Seq<EntryView>) -> bool {
    failures_of(entries).len() == 0 && all_points(term_bag(entries))
}

/// Whether two commitments are those to two objects whose fields,
/// taken together, have no key twice, every leaf of either having a
/// commitment.
pub open spec fn commit_to(
    left: Seq<u8>,
    right: Seq<u8>,
    first: Seq<(Seq<char>, NodeView)>,
    second: Seq<(Seq<char>, NodeView)>,
) -> bool {
    &&& keys_distinct(NodeView::Object(first + second))
    &&& committed(bfs(at_root(NodeView::Object(first))))
    &&& committed(bfs(at_root(NodeView::Object(second))))
    &&& left == aggregate_value(bfs(at_root(NodeView::Object(first))), None)
    &&& right == aggregate_value(bfs(at_root(NodeView::Object(second))), None)
}

/// The failures that a sequence of failures stands for.
pub open spec fn failures_view(failures: Seq<LeafFailure>) -> Seq<FailureView> {
    failures.map_values(|f: LeafFailure| f@)
}

/// The commitment to a whole document: one element of the group.
#[derive(Debug, PartialEq, Eq)]
pub struct AggregateCommitment {
    point: GroupElement,
}

impl View for AggregateCommitment {
    type V = Seq<u8>;

    closed spec fn view(&self) -> Seq<u8> {
        self.point@
    }
}

impl AggregateCommitment {
    /// The commitment as an element of the group.
    pub fn point(&self) -> (r: &GroupElement)
        ensures
            r@ == self@,
    {
        &self.point
    }

    /// The encoding of the commitment.
    pub fn to_bytes(&self) -> (r: Vec<u8>)
        ensures
            r@ == self@,
            is_encoding(r@),
    {
        self.point.to_bytes()
    }

    /// The commitment with this encoding, if it is one of a point.
    pub fn from_bytes(bytes: &Vec<u8>) -> (r: Option<AggregateCommitment>)
        ensures
            r is Some <==> is_encoding(bytes@),
            r matches Some(c) ==> c@ == bytes@,
    {
        match GroupElement::from_bytes(bytes) {
            Some(point) => Some(AggregateCommitment { point }),
            None => None,
        }
    }

    /// The sum of two commitments. Where they are the commitments to two
    /// runs of leaves, it is the commitment to the one run followed by
    /// the other; where they are the commitments to two objects with no
    /// key in common, it is the commitment to the object that holds the
    /// fields of both.
    pub fn combine(&self, other: &AggregateCommitment) -> (r: AggregateCommitment)
        ensures
            r@ == ec_sum(Multiset::empty().insert(self@).insert(other@)),
            forall|a: Multiset<Seq<u8>>, b: Multiset<Seq<u8>>|
                all_points(a) && all_points(b) && self@ == ec_sum(a) && other@ == #[trigger] ec_sum(
                    b,
                ) ==> r@ == #[trigger] ec_sum(a.add(b)),
            forall|a: Seq<EntryView>, b: Seq<EntryView>|
                committed(a) && committed(b) && self@ == aggregate_value(a, None) && other@
                    == aggregate_value(b, None) ==> r@ == #[trigger] aggregate_value(a + b, None),
            forall|first: Seq<(Seq<char>, NodeView)>, second: Seq<(Seq<char>, NodeView)>| #[trigger]
                commit_to(self@, other@, first, second) ==> r@ == aggregate_value(
                    bfs(at_root(NodeView::Object(first + second))),
                    None,
                ),
    {
        let mut both: Vec<GroupElement> = Vec::new();
        both.push(self.point.clone());
        both.push(other.point.clone());
        let point = GroupElement::sum(&both);
        proof {
            let views = encodings(both@);
            assert(views =~= Seq::<Seq<u8>>::empty().push(self@).push(other@));
            lemma_bag_of_two(self@, other@);
            assert forall|a: Multiset<Seq<u8>>, b: Multiset<Seq<u8>>|
                all_points(a) && all_points(b) && self@ == ec_sum(a) && other@ == #[trigger] ec_sum(
                    b,
                ) implies point@ == #[trigger] ec_sum(a.add(b)) by {
                let parts = Seq::<Multiset<Seq<u8>>>::empty().push(a).push(b);
                assert(parts.drop_last() =~= Seq::<Multiset<Seq<u8>>>::empty().push(a));
                assert(parts.drop_last().drop_last() =~= Seq::<Multiset<Seq<u8>>>::empty());
                assert(union_all(parts.drop_last().drop_last()) =~= Multiset::empty());
                assert(union_all(parts.drop_last()) =~= a);
                assert(union_all(parts) =~= a.add(b));
                assert(sums_of(both@, parts));
            }
            assert forall|a: Seq<EntryView>, b: Seq<EntryView>|
                committed(a) && committed(b) && self@ == aggregate_value(a, None) && other@
                    == aggregate_value(b, None) implies point@ == #[trigger] aggregate_value(
                a + b,
                None,
            ) by {
                lemma_term_bag_concat(a, b);
                assert(point@ == ec_sum(term_bag(a).add(term_bag(b))));
            }
            assert forall|
                first: Seq<(Seq<char>, NodeView)>,
                second: Seq<(Seq<char>, NodeView)>,
            | #[trigger] commit_to(self@, other@, first, second) implies point@ == aggregate_value(
                bfs(at_root(NodeView::Object(first + second))),
                None,
            ) by {
                lemma_commitment_of_union(first, second);
                let a = bfs(at_root(NodeView::Object(first)));
                let b = bfs(at_root(NodeView::Object(second)));
                assert(point@ == aggregate_value(a + b, None));
            }
        }
        AggregateCommitment { point }
    }
}

proof fn lemma_bag_of_two(first: Seq<u8>, second: Seq<u8>)
    ensures
        Seq::<Seq<u8>>::empty().push(first).push(second).to_multiset() == Multiset::<
            Seq<u8>,
        >::empty().insert(first).insert(second),
{
    let none = Seq::<Seq<u8>>::empty();
    none.to_multiset_ensures();
    none.push(first).to_multiset_ensures();
    vstd::multiset::lemma_multiset_empty_len(none.to_multiset());
    assert(none.push(first).push(second).to_multiset() =~= Multiset::<Seq<u8>>::empty().insert(
        first,
    ).insert(second));
}

/// The terms of two runs of leaves are those of the one run after the
/// other.
pub proof fn lemma_term_bag_concat(a: Seq<EntryView>, b: Seq<EntryView>)
    ensures
        term_bag(a + b) == term_bag(a).add(term_bag(b)),
    decreases b.len(),
{
    if b.len() == 0 {
        assert(a + b =~= a);
        assert(term_bag(a).add(term_bag(b)) =~= term_bag(a));
    } else {
        assert((a + b).drop_last() =~= a + b.drop_last());
        lemma_term_bag_concat(a, b.drop_last());
        assert(term_bag(a + b) =~= term_bag(a).add(term_bag(b)));
    }
}

/// Ends an aggregation: with the failures, if any leaf failed; else
/// with the sum of the terms and of the blinding term.
pub fn conclude(terms: Vec<GroupElement>, failures: Vec<LeafFailure>, blinding: Option<&Scalar>)
    -> (r: Result<AggregateCommitment, JcError>)
    ensures
        failures@.len() > 0 ==> (r matches Err(JcError::Commit(e)) && e@ == failures_view(
            failures@,
        )),
        failures@.len() == 0 ==> (r matches Ok(c) && c@ == ec_sum(
            with_blinding(encodings(terms@).to_multiset(), scalar_view(blinding)),
        )),
{
    if failures.len() > 0 {
        return Err(JcError::Commit(CommitError { failures }));
    }
    let mut terms = terms;
    let ghost given = encodings(terms@);
    match blinding {
        None => {},
        Some(scalar) => match blind(scalar) {
            None => {
                return Err(JcError::Crypto("no base for the blinding term".to_owned()));
            },
            Some(term) => {
                let ghost term_view = term@;
                terms.push(term);
                proof {
                    assert(encodings(terms@) =~= given.push(term_view));
                    given.to_multiset_ensures();
                }
            },
        },
    }
    let point = GroupElement::sum(&terms);
    Ok(AggregateCommitment { point })
}

/// The aggregator of commitments: the document pipeline from a tree to
/// one element of the group.
pub struct BatchCommit;

impl BatchCommit {
    /// The leaves of a document, in breadth-first order.
    pub fn entries(node: &Node) -> (r: Vec<PrimitiveEntry>)
        ensures
            entries_view(r@) == bfs(at_root(node@)),
    {
        traverse(node)
    }

    /// Commits to the leaves and adds the commitments up, with the
    /// blinding term of the document where `blinding` has a scalar. If
    /// any leaf has no commitment, no commitment comes back, but every
    /// such leaf with its path and the reason.
    pub fn aggregate(entries: &Vec<PrimitiveEntry>, blinding: Option<&Scalar>) -> (r: Result<
        AggregateCommitment,
        JcError,
    >)
        ensures
            failures_of(entries_view(entries@)).len() > 0 ==> (r matches Err(JcError::Commit(e))
                && e@ == failures_of(entries_view(entries@))),
            failures_of(entries_view(entries@)).len() == 0 ==> (r matches Ok(c) && c@
                == aggregate_value(entries_view(entries@), scalar_view(blinding))),
            r is Ok ==> committed(entries_view(entries@)),
    {
        let ghost all = entries_view(entries@);
        let mut terms: Vec<GroupElement> = Vec::new();
        let mut failures: Vec<LeafFailure> = Vec::new();
        let mut i: usize = 0;
        proof {
            encodings(terms@).to_multiset_ensures();
            vstd::multiset::lemma_multiset_empty_len(encodings(terms@).to_multiset());
            assert(all.take(0) =~= Seq::<EntryView>::empty());
            assert(failures_view(failures@) =~= Seq::<FailureView>::empty());
        }
        while i < entries.len()
            invariant
                i <= entries.len(),
                all == entries_view(entries@),
                encodings(terms@).to_multiset() == term_bag(all.take(i as int)),
                all_points(term_bag(all.take(i as int))),
                failures_view(failures@) == failures_of(all.take(i as int)),
            decreases entries.len() - i,
        {
            let ghost before = all.take(i as int);
            let ghost given = encodings(terms@);
            proof {
                assert(all.take(i + 1).drop_last() =~= before);
                assert(all.take(i + 1).last() == entries@[i as int]@);
            }
            match SingleCommit::commit_leaf(&entries[i], None) {
                Ok(single) => {
                    let term = single.into_commitment();
                    let ghost term_view = term@;
                    terms.push(term);
                    proof {
                        assert(encodings(terms@) =~= given.push(term_view));
                        given.to_multiset_ensures();
                        assert(term_bag(all.take(i + 1)) =~= term_bag(before).insert(term_view));
                        assert(failures_of(all.take(i + 1)) =~= failures_of(before));
                    }
                },
                Err(error) => {
                    let path = clone_path(&entries[i].path);
                    let failure = LeafFailure { path, error };
                    proof {
                        assert(failures_view(failures@.push(failure)) =~= failures_view(
                            failures@,
                        ).push(failure@));
                        assert(term_bag(all.take(i + 1)) =~= term_bag(before));
                    }
                    failures.push(failure);
                },
            }
            i = i + 1;
        }
        proof {
            assert(all.take(i as int) =~= all);
        }
        conclude(terms, failures, blinding)
    }

    /// Commits to a document: to its leaves, each bound to its path.
    pub fn commit(node: &Node, blinding: Option<&Scalar>) -> (r: Result<
        AggregateCommitment,
        JcError,
    >)
        ensures
            failures_of(bfs(at_root(node@))).len() > 0 ==> (r matches Err(JcError::Commit(e))
                && e@ == failures_of(bfs(at_root(node@)))),
            failures_of(bfs(at_root(node@))).len() == 0 ==> (r matches Ok(c) && c@
                == aggregate_value(bfs(at_root(node@)), scalar_view(blinding))),
            r is Ok ==> committed(bfs(at_root(node@))),
    {
        let entries = traverse(node);
        BatchCommit::aggregate(&entries, blinding)
    }
}

} // verus!
