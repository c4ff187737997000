use crate::scalar::{is_scalar, Scalar};
use elliptic_curve::generic_array::GenericArray;
use elliptic_curve::group::GroupEncoding;
use elliptic_curve::hash2curve::{ExpandMsgXmd, GroupDigest};
use elliptic_curve::PrimeField;
use p256::{NistP256, ProjectivePoint};
use sha2::Sha256;
use vstd::multiset::Multiset;
use vstd::prelude::*;

verus! {

/// The compressed encoding of the point that 33 bytes decode to, 33 zero
/// bytes standing for the point at infinity; `None` where they decode to
/// no point of the curve.
pub uninterp spec fn decoded_point(bytes: Seq<u8>) -> Option<Seq<u8>>;

/// The encoded point that a message is hashed to under a domain
/// separation tag.
pub uninterp spec fn hash_to_point(message: Seq<u8>, tag: Seq<u8>) -> Seq<u8>;

/// The bytes of the scalar that a message is hashed to under a domain
/// separation tag.
pub uninterp spec fn hash_to_number(message: Seq<u8>, tag: Seq<u8>) -> Seq<u8>;

/// The encoded product of an encoded point and the bytes of a scalar.
pub uninterp spec fn ec_mul(point: Seq<u8>, scalar: Seq<u8>) -> Seq<u8>;

/// The encoded sum of encoded points. A multiset has no order: the sum
/// of points does not depend on the order in which they are added.
pub uninterp spec fn ec_sum(points: Multiset<Seq<u8>>) -> Seq<u8>;

/// Whether bytes are the compressed encoding of a point: 33 bytes that
/// decode to a point whose compressed encoding they are. A point has one
/// such encoding.
pub open spec fn is_encoding(bytes: Seq<u8>) -> bool {
    bytes.len() == 33 && decoded_point(bytes) == Some(bytes)
}

/// Whether every member of a multiset encodes a point.
pub open spec fn all_points(points: Multiset<Seq<u8>>) -> bool {
    forall|p: Seq<u8>| points.contains(p) ==> is_encoding(p)
}

/// All the members of all the parts.
pub open spec fn union_all(parts: Seq<Multiset<Seq<u8>>>) -> Multiset<Seq<u8>>
    decreases parts.len(),
{
    if parts.len() == 0 {
        Multiset::empty()
    } else {
        union_all(parts.drop_last()).add(parts.last())
    }
}

/// An element of the group: a point of the curve P-256, held as its
/// 33-byte compressed encoding.
#[derive(Debug, PartialEq, Eq)]
pub struct GroupElement {
    pub(crate) bytes: Vec<u8>,
}

impl View for GroupElement {
    type V = Seq<u8>;

    closed spec fn view(&self) -> Seq<u8> {
        self.bytes@
    }
}

/// The encodings of a sequence of elements.
pub open spec fn encodings(points: Seq<GroupElement>) -> Seq<Seq<u8>> {
    points.map_values(|p: GroupElement| p@)
}

impl GroupElement {
    #[verifier::type_invariant]
    spec fn well_formed(self) -> bool {
        is_encoding(self.bytes@)
    }

    /// The element with this encoding, if it is one.
    pub fn from_bytes(bytes: &Vec<u8>) -> (r: Option<GroupElement>)
        ensures
            r is Some <==> is_encoding(bytes@),
            r matches Some(g) ==> g@ == bytes@,
    {
        if bytes.len() != 33 {
            return None;
        }
        match decode(bytes) {
            Some(canonical) => if same_bytes(&canonical, bytes) {
                Some(GroupElement { bytes: canonical })
            } else {
                None
            },
            None => None,
        }
    }

    /// The encoding of the element.
    pub fn to_bytes(&self) -> (r: Vec<u8>)
        ensures
            r@ == self@,
            is_encoding(r@),
    {
        proof {
            use_type_invariant(self);
        }
        self.bytes.clone()
    }

    /// The element that a message is hashed to under a tag. With a tag
    /// that is not empty there always is one.
    pub fn hash(message: &Vec<u8>, tag: &Vec<u8>) -> (r: Option<GroupElement>)
        ensures
            tag@.len() > 0 ==> r is Some,
            r matches Some(g) ==> g@ == hash_to_point(message@, tag@) && is_encoding(g@),
    {
        hash_to_curve(message, tag)
    }

    /// The element times a scalar.
    pub fn multiply(&self, scalar: &Scalar) -> (r: GroupElement)
        ensures
            r@ == ec_mul(self@, scalar@),
            is_encoding(r@),
    {
        proof {
            use_type_invariant(self);
        }
        scalar.recall();
        scalar_mul(self, scalar)
    }

    /// The sum of the elements; of none, the neutral element.
    pub fn sum(points: &Vec<GroupElement>) -> (r: GroupElement)
        ensures
            r@ == ec_sum(encodings(points@).to_multiset()),
            forall|parts: Seq<Multiset<Seq<u8>>>| #[trigger]
                sums_of(points@, parts) ==> r@ == ec_sum(union_all(parts)),
            is_encoding(r@),
    {
        let mut i: usize = 0;
        while i < points.len()
            invariant
                i <= points.len(),
                forall|j: int| 0 <= j < i ==> is_encoding(#[trigger] points@[j]@),
            decreases points.len() - i,
        {
            let point = &points[i];
            proof {
                use_type_invariant(point);
            }
            i = i + 1;
        }
        sum_points(points)
    }

    /// The neutral element: the sum of no elements.
    pub fn identity() -> (r: GroupElement)
        ensures
            r@ == ec_sum(Multiset::empty()),
            is_encoding(r@),
    {
        let none: Vec<GroupElement> = Vec::new();
        let r = sum_points(&none);
        proof {
            encodings(none@).to_multiset_ensures();
            vstd::multiset::lemma_multiset_empty_len(encodings(none@).to_multiset());
        }
        r
    }
}

impl Clone for GroupElement {
    fn clone(&self) -> (r: Self)
        ensures
            r@ == self@,
            is_encoding(r@),
    {
        proof {
            use_type_invariant(self);
        }
        GroupElement { bytes: self.bytes.clone() }
    }
}

/// Whether each element is the sum of the part of that index, the parts
/// holding encoded points only.
pub open spec fn sums_of(points: Seq<GroupElement>, parts: Seq<Multiset<Seq<u8>>>) -> bool {
    &&& parts.len() == points.len()
    &&& forall|i: int|
        0 <= i < parts.len() ==> all_points(#[trigger] parts[i]) && points[i]@ == ec_sum(parts[i])
}

/// Whether two byte strings are the same.
pub fn same_bytes(a: &Vec<u8>, b: &Vec<u8>) -> (r: bool)
    ensures
        r == (a@ == b@),
{
    if a.len() != b.len() {
        return false;
    }
    let mut i: usize = 0;
    while i < a.len()
        invariant
            i <= a@.len(),
            a@.len() == b@.len(),
            a@.take(i as int) == b@.take(i as int),
        decreases a@.len() - i,
    {
        if a[i] != b[i] {
            return false;
        }
        assert(a@.take(i + 1) =~= a@.take(i as int).push(a@[i as int]));
        assert(b@.take(i + 1) =~= b@.take(i as int).push(b@[i as int]));
        i = i + 1;
    }
    assert(a@.take(i as int) =~= a@);
    assert(b@.take(i as int) =~= b@);
    true
}

/// `GroupEncoding::from_bytes` of `p256::ProjectivePoint`, then
/// `GroupEncoding::to_bytes` of the point: the compressed encoding of
/// the point that the 33 bytes decode to, if they decode to one.
#[verifier::external_body]
fn decode(bytes: &Vec<u8>) -> (r: Option<Vec<u8>>)
    requires
        bytes@.len() == 33,
    ensures
        r is Some <==> decoded_point(bytes@) is Some,
        r matches Some(canonical) ==> decoded_point(bytes@) == Some(canonical@),
{
    let point: Option<ProjectivePoint> = ProjectivePoint::from_bytes(
        GenericArray::from_slice(bytes.as_slice()),
    ).into();
    point.map(|p| p.to_bytes().to_vec())
}

/// `GroupDigest::hash_from_bytes` of `p256::NistP256`, with SHA-256 to
/// expand the message, then `GroupEncoding::to_bytes` of the point: the
/// compressed encoding of the point is a function of the message and
/// the tag. The outside function reports an error only where it is
/// given no tag, or asked for no output or for too much; it is asked for
/// 96 bytes, so with a tag that is not empty it gives a point. `None`
/// stands for its error.
#[verifier::external_body]
fn hash_to_curve(message: &Vec<u8>, tag: &Vec<u8>) -> (r: Option<GroupElement>)
    ensures
        tag@.len() > 0 ==> r is Some,
        r matches Some(g) ==> g@ == hash_to_point(message@, tag@) && is_encoding(g@),
{
    let hashed = NistP256::hash_from_bytes::<ExpandMsgXmd<Sha256>>(
        &[message.as_slice()],
        &[tag.as_slice()],
    );
    match hashed {
        Ok(point) => Some(GroupElement { bytes: point.to_bytes().to_vec() }),
        Err(_) => None,
    }
}

/// `GroupDigest::hash_to_scalar` of `p256::NistP256`, with SHA-256 to
/// expand the message, then `PrimeField::to_repr` of the scalar: its 32
/// bytes, which spell a number below the order, are a function of the
/// message and the tag. The outside function reports an error only
/// where it is given no tag, or asked for no output or for too much; it
/// is asked for 48 bytes, so with a tag that is not empty it gives a
/// scalar. `None` stands for its error.
#[verifier::external_body]
pub(crate) fn hash_to_scalar(message: &Vec<u8>, tag: &Vec<u8>) -> (r: Option<Scalar>)
    ensures
        tag@.len() > 0 ==> r is Some,
        r matches Some(s) ==> s@ == hash_to_number(message@, tag@) && is_scalar(s@),
{
    let hashed = NistP256::hash_to_scalar::<ExpandMsgXmd<Sha256>>(
        &[message.as_slice()],
        &[tag.as_slice()],
    );
    match hashed {
        Ok(scalar) => Some(Scalar { bytes: scalar.to_repr().to_vec() }),
        Err(_) => None,
    }
}

/// `Mul` of `p256::ProjectivePoint` by `p256::Scalar`, between
/// `GroupEncoding::from_bytes`, `PrimeField::from_repr` and
/// `GroupEncoding::to_bytes`: the compressed encoding of the product is
/// a function of the encoding of the point and the bytes of the scalar.
/// The encoding of a point and the bytes of a scalar decode.
#[verifier::external_body]
fn scalar_mul(point: &GroupElement, scalar: &Scalar) -> (r: GroupElement)
    requires
        is_encoding(point@),
        is_scalar(scalar@),
    ensures
        r@ == ec_mul(point@, scalar@),
        is_encoding(r@),
{
    let p = ProjectivePoint::from_bytes(GenericArray::from_slice(point.bytes.as_slice())).unwrap();
    let k = p256::Scalar::from_repr(*GenericArray::from_slice(scalar.bytes.as_slice())).unwrap();
    GroupElement { bytes: (p * k).to_bytes().to_vec() }
}

/// `Sum::sum` of `p256::ProjectivePoint`, which adds the points to the
/// neutral element one after another, between
/// `GroupEncoding::from_bytes` and `GroupEncoding::to_bytes`. The
/// addition of points is commutative and associative, so the compressed
/// encoding of the sum is a function of the multiset of the encodings
/// of the points; and where each point is itself the sum of some
/// points, the sum is the sum of all of those. The encodings of points
/// decode.
#[verifier::external_body]
fn sum_points(points: &Vec<GroupElement>) -> (r: GroupElement)
    requires
        forall|i: int| 0 <= i < points@.len() ==> is_encoding(#[trigger] points@[i]@),
    ensures
        r@ == ec_sum(encodings(points@).to_multiset()),
        forall|parts: Seq<Multiset<Seq<u8>>>| #[trigger]
            sums_of(points@, parts) ==> r@ == ec_sum(union_all(parts)),
        is_encoding(r@),
{
    let total: ProjectivePoint = points.iter().map(
        |p| ProjectivePoint::from_bytes(GenericArray::from_slice(p.bytes.as_slice())).unwrap(),
    ).sum();
    GroupElement { bytes: total.to_bytes().to_vec() }
}

} // verus!
