use vstd::multiset::Multiset;
use vstd::prelude::*;

verus! {

/// What the items of a sequence give together, each item giving a
/// multiset.
pub open spec fn gather<A, B>(items: Seq<A>, give: spec_fn(A) -> Multiset<B>) -> Multiset<B>
    decreases items.len(),
{
    if items.len() == 0 {
        Multiset::empty()
    } else {
        gather(items.drop_last(), give).add(give(items.last()))
    }
}

pub proof fn lemma_gather_concat<A, B>(a: Seq<A>, b: Seq<A>, give: spec_fn(A) -> Multiset<B>)
    ensures
        gather(a + b, give) == gather(a, give).add(gather(b, give)),
    decreases b.len(),
{
    if b.len() == 0 {
        assert(a + b =~= a);
        assert(gather(a, give).add(gather(b, give)) =~= gather(a, give));
    } else {
        assert((a + b).drop_last() =~= a + b.drop_last());
        lemma_gather_concat(a, b.drop_last(), give);
        assert(gather(a + b, give) =~= gather(a, give).add(gather(b, give)));
    }
}

/// What a sequence gives is what it gives without one item, and what
/// that item gives.
pub proof fn lemma_gather_remove<A, B>(items: Seq<A>, at: int, give: spec_fn(A) -> Multiset<B>)
    requires
        0 <= at < items.len(),
    ensures
        gather(items, give) == gather(items.remove(at), give).add(give(items[at])),
{
    let front = items.take(at);
    let one = seq![items[at]];
    let back = items.skip(at + 1);
    assert(items =~= front + one + back);
    assert(items.remove(at) =~= front + back);
    lemma_gather_concat(front + one, back, give);
    lemma_gather_concat(front, one, give);
    lemma_gather_concat(front, back, give);
    assert(one.drop_last() =~= Seq::<A>::empty());
    assert(gather(one.drop_last(), give) =~= Multiset::<B>::empty());
    assert(gather(one, give) =~= give(items[at]));
    assert(gather(items, give) =~= gather(items.remove(at), give).add(give(items[at])));
}

/// What a sequence gives does not depend on the order of its items.
pub proof fn lemma_gather_permutation<A, B>(a: Seq<A>, b: Seq<A>, give: spec_fn(A) -> Multiset<B>)
    requires
        a.to_multiset() == b.to_multiset(),
    ensures
        gather(a, give) == gather(b, give),
    decreases a.len(),
{
    a.to_multiset_ensures();
    b.to_multiset_ensures();
    if a.len() == 0 {
        assert(b.len() == 0);
    } else {
        let last = a.last();
        let shorter = a.drop_last();
        assert(a.contains(last));
        assert(b.to_multiset().count(last) > 0);
        assert(b.contains(last));
        let at = choose|i: int| 0 <= i < b.len() && b[i] == last;
        shorter.to_multiset_ensures();
        assert(shorter.push(last) =~= a);
        assert(shorter.to_multiset() =~= a.to_multiset().remove(last));
        assert(b.remove(at).to_multiset() =~= b.to_multiset().remove(last));
        lemma_gather_permutation(shorter, b.remove(at), give);
        lemma_gather_remove(b, at, give);
    }
}

/// Whether the item of `b` at `at` is a partner of `item`: it has the
/// same key and gives the same.
pub open spec fn is_partner<A, B, K>(
    item: A,
    b: Seq<A>,
    at: int,
    key: spec_fn(A) -> K,
    give_a: spec_fn(A) -> Multiset<B>,
    give_b: spec_fn(A) -> Multiset<B>,
) -> bool {
    0 <= at < b.len() && key(b[at]) == key(item) && give_b(b[at]) == give_a(item)
}

/// Whether `item` has a partner in `b`.
pub open spec fn has_partner<A, B, K>(
    item: A,
    b: Seq<A>,
    key: spec_fn(A) -> K,
    give_a: spec_fn(A) -> Multiset<B>,
    give_b: spec_fn(A) -> Multiset<B>,
) -> bool {
    exists|at: int| is_partner(item, b, at, key, give_a, give_b)
}

/// What two sequences give is the same where each item of the first
/// has a partner in the second, the sequences being of one length and
/// the keys of the first all different.
pub proof fn lemma_gather_partners<A, B, K>(
    a: Seq<A>,
    b: Seq<A>,
    key: spec_fn(A) -> K,
    give_a: spec_fn(A) -> Multiset<B>,
    give_b: spec_fn(A) -> Multiset<B>,
)
    requires
        a.len() == b.len(),
        forall|i: int, j: int| 0 <= i < j < a.len() ==> key(a[i]) != key(a[j]),
        forall|i: int| 0 <= i < a.len() ==> #[trigger] has_partner(a[i], b, key, give_a, give_b),
    ensures
        gather(a, give_a) == gather(b, give_b),
    decreases a.len(),
{
    if a.len() > 0 {
        let n = a.len() - 1;
        let last = a[n];
        assert(has_partner(a[n], b, key, give_a, give_b));
        let at = choose|j: int| is_partner(last, b, j, key, give_a, give_b);
        let shorter = a.drop_last();
        let rest = b.remove(at);
        assert forall|i: int| 0 <= i < shorter.len() implies #[trigger] has_partner(
            shorter[i],
            rest,
            key,
            give_a,
            give_b,
        ) by {
            assert(shorter[i] == a[i]);
            assert(has_partner(a[i], b, key, give_a, give_b));
            let partner = choose|j: int| is_partner(a[i], b, j, key, give_a, give_b);
            assert(key(a[i]) != key(a[n]));
            assert(partner != at);
            if partner < at {
                assert(rest[partner] == b[partner]);
                assert(is_partner(shorter[i], rest, partner, key, give_a, give_b));
            } else {
                assert(rest[partner - 1] == b[partner]);
                assert(is_partner(shorter[i], rest, partner - 1, key, give_a, give_b));
            }
        }
        lemma_gather_partners(shorter, rest, key, give_a, give_b);
        lemma_gather_remove(b, at, give_b);
    }
}

} // verus!
