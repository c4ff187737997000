use crate::ast::{Primitive, PrimitiveView};
use crate::commit::generator::{
    derive_generator, generator_of, tag_bytes, EntryView, PrimitiveEntry,
};
use crate::encoding::{be_bytes, pow256};
use crate::errors::{reports, EncodingError, JcError, LeafError};
use crate::group::{
    ec_mul, ec_sum, hash_to_number, hash_to_point, hash_to_scalar, is_encoding, GroupElement,
};
use crate::scalar::{order, Scalar};
use vstd::multiset::Multiset;
use vstd::prelude::*;
use vstd::string::StrSliceExecFns;
use vstd::utf8::encode_utf8;

verus! {

/// The domain separation tag under which texts are hashed to scalars.
pub open spec fn text_tag() -> Seq<u8> {
    encode_utf8("JSON-COMMIT-V01-TEXT-P256_XMD:SHA-256_RO_"@)
}

/// The domain separation tag of the base of blinding terms.
pub open spec fn blinding_tag() -> Seq<u8> {
    encode_utf8("JSON-COMMIT-V01-BLINDING-P256_XMD:SHA-256_SSWU_RO_"@)
}

/// What is added to `2^64` for the scalar of `null`.
pub const NULL_MARK: u8 = 0;

/// What is added to `2^64` for the scalar of `false`.
pub const FALSE_MARK: u8 = 1;

/// What is added to `2^64` for the scalar of `true`.
pub const TRUE_MARK: u8 = 2;

/// The number that stands for a value, modulo the order: an integer
/// below `2^64` in magnitude stands for itself; `null`, `false` and
/// `true` are `2^64`, `2^64 + 1` and `2^64 + 2`. A text and any other
/// number have none.
pub open spec fn value_number(value: PrimitiveView) -> Option<nat> {
    match value {
        PrimitiveView::Null => Some(pow256(8) + NULL_MARK as nat),
        PrimitiveView::Bool(b) => Some(
            pow256(8) + (if b {
                TRUE_MARK
            } else {
                FALSE_MARK
            }) as nat,
        ),
        PrimitiveView::Integer(n) => if 0 <= n < pow256(8) {
            Some(n as nat)
        } else if -pow256(8) < n < 0 {
            Some((order() + n) as nat)
        } else {
            None
        },
        PrimitiveView::Real(_) => None,
        PrimitiveView::Text(_) => None,
    }
}

/// The bytes of the scalar of a value: a text is hashed, a value with a
/// number has the 32 bytes of its number, most significant first. A
/// number that is not integral, or is `2^64` or more in magnitude, has
/// no scalar.
pub open spec fn value_scalar(value: PrimitiveView) -> Result<Seq<u8>, LeafError> {
    match value {
        PrimitiveView::Text(s) => Ok(hash_to_number(encode_utf8(s), text_tag())),
        PrimitiveView::Real(_) => Err(LeafError::Encoding(EncodingError::NotIntegral)),
        _ => match value_number(value) {
            Some(n) => Ok(be_bytes(n, 32)),
            None => Err(LeafError::Encoding(EncodingError::OutOfRange)),
        },
    }
}

/// The scalar of a value.
pub fn encode_value(value: &Primitive) -> (r: Result<Scalar, LeafError>)
    ensures
        r matches Ok(s) ==> value_scalar(value@) == Ok::<Seq<u8>, LeafError>(s@),
        r matches Err(e) ==> value_scalar(value@) == Err::<Seq<u8>, LeafError>(e),
{
    proof {
        crate::encoding::lemma_pow256_8();
    }
    match value {
        Primitive::Null => Ok(Scalar::reserved(NULL_MARK)),
        Primitive::Bool(b) => Ok(Scalar::reserved(if *b { TRUE_MARK } else { FALSE_MARK })),
        Primitive::Integer(n) => {
            let n: i128 = *n;
            if 0 <= n && n <= u64::MAX as i128 {
                Ok(Scalar::from_u64(n as u64))
            } else if n < 0 && n >= -(u64::MAX as i128) {
                Ok(Scalar::from_negated_u64((-n) as u64))
            } else {
                Err(LeafError::Encoding(EncodingError::OutOfRange))
            }
        },
        Primitive::Real(_) => Err(LeafError::Encoding(EncodingError::NotIntegral)),
        Primitive::Text(s) => {
            let message = s.as_str().as_bytes_vec();
            proof {
                reveal_strlit("JSON-COMMIT-V01-TEXT-P256_XMD:SHA-256_RO_");
            }
            let tag = tag_bytes("JSON-COMMIT-V01-TEXT-P256_XMD:SHA-256_RO_");
            match hash_to_scalar(&message, &tag) {
                Some(scalar) => Ok(scalar),
                None => Err(LeafError::Hash),
            }
        },
    }
}

/// The base of blinding terms: the point that the empty message is
/// hashed to under a tag of its own.
pub open spec fn blinding_base() -> Seq<u8> {
    hash_to_point(Seq::empty(), blinding_tag())
}

/// The blinding term of a scalar: the base times the scalar.
pub open spec fn blinding_term(scalar: Seq<u8>) -> Seq<u8> {
    ec_mul(blinding_base(), scalar)
}

/// The blinding term of a scalar. Every scalar has one.
pub fn blind(scalar: &Scalar) -> (r: Option<GroupElement>)
    ensures
        r matches Some(t) && t@ == blinding_term(scalar@) && is_encoding(t@),
{
    let message: Vec<u8> = Vec::new();
    proof {
        reveal_strlit("JSON-COMMIT-V01-BLINDING-P256_XMD:SHA-256_SSWU_RO_");
    }
    let tag = tag_bytes("JSON-COMMIT-V01-BLINDING-P256_XMD:SHA-256_SSWU_RO_");
    match GroupElement::hash(&message, &tag) {
        Some(base) => Some(base.multiply(scalar)),
        None => None,
    }
}

/// The commitment to a leaf: its generator times the scalar of its
/// value, plus the blinding term where there is a blinding scalar. A
/// leaf whose value has no scalar has none.
pub open spec fn leaf_commitment(entry: EntryView, blinding: Option<Seq<u8>>) -> Result<
    Seq<u8>,
    LeafError,
> {
    match value_scalar(entry.value) {
        Err(e) => Err(e),
        Ok(scalar) => {
            let bound = ec_mul(generator_of(entry.path), scalar);
            match blinding {
                None => Ok(bound),
                Some(r) => Ok(ec_sum(Multiset::empty().insert(bound).insert(blinding_term(r)))),
            }
        },
    }
}

/// The view of an optional scalar.
pub open spec fn scalar_view(scalar: Option<&Scalar>) -> Option<Seq<u8>> {
    match scalar {
        Some(s) => Some(s@),
        None => None,
    }
}

/// The commitment to one leaf, with the generator of its path.
#[derive(Debug, PartialEq, Eq)]
pub struct SingleCommit {
    generator: GroupElement,
    commit: GroupElement,
}

impl SingleCommit {
    /// The generator of the leaf's path.
    pub closed spec fn generator_view(&self) -> Seq<u8> {
        self.generator@
    }

    /// The commitment to the leaf.
    pub closed spec fn commit_view(&self) -> Seq<u8> {
        self.commit@
    }

    /// The generator of the leaf's path.
    pub fn generator(&self) -> (r: &GroupElement)
        ensures
            r@ == self.generator_view(),
    {
        &self.generator
    }

    /// The commitment to the leaf, taken out.
    pub fn into_commitment(self) -> (r: GroupElement)
        ensures
            r@ == self.commit_view(),
    {
        self.commit
    }

    /// The commitment to the leaf.
    pub fn commitment(&self) -> (r: &GroupElement)
        ensures
            r@ == self.commit_view(),
    {
        &self.commit
    }

    /// Commits to a leaf, or says why the leaf has no commitment.
    pub fn commit_leaf(entry: &PrimitiveEntry, blinding: Option<&Scalar>) -> (r: Result<
        SingleCommit,
        LeafError,
    >)
        ensures
            r matches Ok(c) ==> leaf_commitment(entry@, scalar_view(blinding)) == Ok::<
                Seq<u8>,
                LeafError,
            >(c.commit_view()) && c.generator_view() == generator_of(entry@.path) && is_encoding(
                c.commit_view(),
            ),
            r matches Err(e) ==> leaf_commitment(entry@, scalar_view(blinding)) == Err::<
                Seq<u8>,
                LeafError,
            >(e),
    {
        let scalar = match encode_value(&entry.value) {
            Ok(s) => s,
            Err(e) => {
                return Err(e);
            },
        };
        let generator = match derive_generator(&entry.path) {
            Some(g) => g,
            None => {
                return Err(LeafError::Hash);
            },
        };
        let bound = generator.multiply(&scalar);
        match blinding {
            None => Ok(SingleCommit { generator, commit: bound }),
            Some(r) => match blind(r) {
                None => Err(LeafError::Hash),
                Some(term) => {
                    let mut terms: Vec<GroupElement> = Vec::new();
                    let ghost bound_view = bound@;
                    let ghost term_view = term@;
                    terms.push(bound);
                    terms.push(term);
                    let commit = GroupElement::sum(&terms);
                    proof {
                        let views = crate::group::encodings(terms@);
                        assert(views =~= Seq::<Seq<u8>>::empty().push(bound_view).push(term_view));
                        Seq::<Seq<u8>>::empty().to_multiset_ensures();
                        Seq::<Seq<u8>>::empty().push(bound_view).to_multiset_ensures();
                        vstd::multiset::lemma_multiset_empty_len(
                            Seq::<Seq<u8>>::empty().to_multiset(),
                        );
                    }
                    Ok(SingleCommit { generator, commit })
                },
            },
        }
    }

    /// Commits to a leaf.
    pub fn commit(entry: &PrimitiveEntry, blinding: Option<&Scalar>) -> (r: Result<
        SingleCommit,
        JcError,
    >)
        ensures
            r matches Ok(c) ==> leaf_commitment(entry@, scalar_view(blinding)) == Ok::<
                Seq<u8>,
                LeafError,
            >(c.commit_view()) && c.generator_view() == generator_of(entry@.path) && is_encoding(
                c.commit_view(),
            ),
            r matches Err(e) ==> leaf_commitment(entry@, scalar_view(blinding)) is Err && reports(
                e,
                leaf_commitment(entry@, scalar_view(blinding))->Err_0,
            ),
    {
        match SingleCommit::commit_leaf(entry, blinding) {
            Ok(c) => Ok(c),
            Err(e) => Err(JcError::from_leaf(e)),
        }
    }
}

} // verus!
