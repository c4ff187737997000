use crate::ast::{Primitive, PrimitiveView};
use crate::errors::JcError;
use crate::group::{hash_to_point, is_encoding, GroupElement};
use crate::path::{clone_path, encode_path, encode_path_bytes, path_view, PathStep, StepView};
use vstd::prelude::*;
use vstd::string::StrSliceExecFns;
use vstd::utf8::encode_utf8;

verus! {

/// A leaf of a document: the path that leads to it, and its value.
#[derive(Debug, PartialEq, Eq)]
pub struct PrimitiveEntry {
    pub path: Vec<PathStep>,
    pub value: Primitive,
}

/// What a `PrimitiveEntry` stands for.
pub struct EntryView {
    pub path: Seq<StepView>,
    pub value: PrimitiveView,
}

impl View for PrimitiveEntry {
    type V = EntryView;

    open spec fn view(&self) -> EntryView {
        EntryView { path: path_view(self.path@), value: self.value@ }
    }
}

/// The domain separation tag under which paths are hashed to generators.
pub open spec fn generator_tag() -> Seq<u8> {
    encode_utf8("JSON-COMMIT-V01-GENERATOR-P256_XMD:SHA-256_SSWU_RO_"@)
}

/// The generator of a path: the point that its encoding is hashed to.
pub open spec fn generator_of(path: Seq<StepView>) -> Seq<u8> {
    hash_to_point(encode_path(path), generator_tag())
}

/// The bytes of a tag.
pub fn tag_bytes(text: &str) -> (r: Vec<u8>)
    requires
        text@.len() > 0,
    ensures
        r@ == encode_utf8(text@),
        r@.len() > 0,
{
    text.as_bytes_vec()
}

/// The generator of a path. Every path has one.
pub fn derive_generator(path: &Vec<PathStep>) -> (r: Option<GroupElement>)
    ensures
        r matches Some(g) && g@ == generator_of(path_view(path@)) && is_encoding(g@),
{
    let message = encode_path_bytes(path);
    proof {
        reveal_strlit("JSON-COMMIT-V01-GENERATOR-P256_XMD:SHA-256_SSWU_RO_");
    }
    let tag = tag_bytes("JSON-COMMIT-V01-GENERATOR-P256_XMD:SHA-256_SSWU_RO_");
    GroupElement::hash(&message, &tag)
}

impl PrimitiveEntry {
    /// The generator of the leaf's path.
    pub fn to_generator(&self) -> (r: Result<GroupElement, JcError>)
        ensures
            r matches Ok(g) && g@ == generator_of(self@.path),
    {
        match derive_generator(&self.path) {
            Some(g) => Ok(g),
            None => Err(JcError::Crypto("no generator for the path".to_owned())),
        }
    }
}

impl Clone for PrimitiveEntry {
    fn clone(&self) -> (r: Self)
        ensures
            r@ == self@,
    {
        let path = clone_path(&self.path);
        PrimitiveEntry { path, value: self.value.clone() }
    }
}

} // verus!
