use crate::encoding::{
    be_bytes, lemma_be_bytes_injective, lemma_be_bytes_len, lemma_pow256_8, pow256, u64_be_bytes,
};
use vstd::prelude::*;
use vstd::string::StrSliceExecFns;
use vstd::utf8::{encode_utf8, encode_utf8_decode_utf8};

verus! {

/// One step from a node of a document to one of its children.
#[derive(Debug, PartialEq, Eq)]
pub enum PathStep {
    /// Into the field of an object with this key.
    Key(String),
    /// Into the element of an array at this index.
    Index(usize),
}

/// What a `PathStep` stands for.
pub enum StepView {
    Key(Seq<char>),
    Index(nat),
}

impl View for PathStep {
    type V = StepView;

    open spec fn view(&self) -> StepView {
        match self {
            PathStep::Key(k) => StepView::Key(k@),
            PathStep::Index(i) => StepView::Index(*i as nat),
        }
    }
}

impl Clone for PathStep {
    fn clone(&self) -> (r: Self)
        ensures
            r == *self,
    {
        match self {
            PathStep::Key(k) => PathStep::Key(k.clone()),
            PathStep::Index(i) => PathStep::Index(*i),
        }
    }
}

/// The path that a sequence of steps stands for.
pub open spec fn path_view(steps: Seq<PathStep>) -> Seq<StepView> {
    steps.map_values(|s: PathStep| s@)
}

/// A copy of a path.
pub fn clone_path(path: &Vec<PathStep>) -> (r: Vec<PathStep>)
    ensures
        r@ == path@,
{
    let mut r: Vec<PathStep> = Vec::new();
    let mut i: usize = 0;
    while i < path.len()
        invariant
            i <= path.len(),
            r@ == path@.take(i as int),
        decreases path.len() - i,
    {
        r.push(path[i].clone());
        assert(r@ =~= path@.take(i + 1));
        i = i + 1;
    }
    assert(path@.take(i as int) =~= path@);
    r
}

/// The path with one more step.
pub fn extend_path(path: &Vec<PathStep>, step: PathStep) -> (r: Vec<PathStep>)
    ensures
        r@ == path@.push(step),
{
    let mut r = clone_path(path);
    r.push(step);
    r
}

/// The byte that opens the encoding of a step into an object.
pub const KEY_TAG: u8 = 1;

/// The byte that opens the encoding of a step into an array.
pub const INDEX_TAG: u8 = 2;

/// A step whose encoding has room for it: an index, or the length of a
/// key in UTF-8, below `2^64`. Every step held in memory is one.
pub open spec fn step_encodable(step: StepView) -> bool {
    match step {
        StepView::Key(k) => encode_utf8(k).len() < pow256(8),
        StepView::Index(i) => i < pow256(8),
    }
}

pub open spec fn path_encodable(path: Seq<StepView>) -> bool {
    forall|i: int| 0 <= i < path.len() ==> step_encodable(#[trigger] path[i])
}

/// The bytes of one step: a tag, then eight bytes, most significant
/// first, that hold the index, or the length of the key in UTF-8 followed
/// by the key in UTF-8.
pub open spec fn encode_step(step: StepView) -> Seq<u8> {
    match step {
        StepView::Key(k) => seq![KEY_TAG] + be_bytes(encode_utf8(k).len(), 8) + encode_utf8(k),
        StepView::Index(i) => seq![INDEX_TAG] + be_bytes(i, 8),
    }
}

/// The bytes of a path: those of its steps, in order.
pub open spec fn encode_path(path: Seq<StepView>) -> Seq<u8>
    decreases path.len(),
{
    if path.len() == 0 {
        Seq::empty()
    } else {
        encode_step(path[0]) + encode_path(path.skip(1))
    }
}

pub proof fn lemma_encode_path_push(path: Seq<StepView>, step: StepView)
    ensures
        encode_path(path.push(step)) == encode_path(path) + encode_step(step),
    decreases path.len(),
{
    let longer = path.push(step);
    if path.len() == 0 {
        assert(longer.skip(1) =~= Seq::<StepView>::empty());
        assert(encode_path(longer.skip(1)) =~= Seq::<u8>::empty());
        assert(encode_path(longer) =~= encode_path(path) + encode_step(step));
    } else {
        assert(longer.skip(1) =~= path.skip(1).push(step));
        lemma_encode_path_push(path.skip(1), step);
        assert(encode_path(longer) =~= encode_path(path) + encode_step(step));
    }
}

/// A step can be read off the front of any byte string that begins with
/// its encoding: two encodable steps followed by anything give the same
/// bytes only if the steps are the same and what follows is the same.
pub proof fn lemma_encode_step_prefix_free(a: StepView, rest_a: Seq<u8>, b: StepView, rest_b: Seq<u8>)
    requires
        step_encodable(a),
        step_encodable(b),
        encode_step(a) + rest_a == encode_step(b) + rest_b,
    ensures
        a == b,
        rest_a == rest_b,
{
    let left = encode_step(a) + rest_a;
    let right = encode_step(b) + rest_b;
    assert(left[0] == right[0]);
    match (a, b) {
        (StepView::Key(ka), StepView::Key(kb)) => {
            let ua = encode_utf8(ka);
            let ub = encode_utf8(kb);
            lemma_be_bytes_len(ua.len(), 8);
            lemma_be_bytes_len(ub.len(), 8);
            assert(left.subrange(1, 9) =~= be_bytes(ua.len(), 8));
            assert(right.subrange(1, 9) =~= be_bytes(ub.len(), 8));
            lemma_be_bytes_injective(ua.len(), ub.len(), 8);
            assert(left.subrange(9, 9 + ua.len() as int) =~= ua);
            assert(right.subrange(9, 9 + ub.len() as int) =~= ub);
            encode_utf8_decode_utf8(ka);
            encode_utf8_decode_utf8(kb);
            assert(ka == kb);
            assert(left.subrange(9 + ua.len() as int, left.len() as int) =~= rest_a);
            assert(right.subrange(9 + ub.len() as int, right.len() as int) =~= rest_b);
        },
        (StepView::Index(ia), StepView::Index(ib)) => {
            lemma_be_bytes_len(ia, 8);
            lemma_be_bytes_len(ib, 8);
            assert(left.subrange(1, 9) =~= be_bytes(ia, 8));
            assert(right.subrange(1, 9) =~= be_bytes(ib, 8));
            lemma_be_bytes_injective(ia, ib, 8);
            assert(left.subrange(9, left.len() as int) =~= rest_a);
            assert(right.subrange(9, right.len() as int) =~= rest_b);
        },
        (StepView::Key(ka), StepView::Index(ib)) => {
            assert(left[0] == KEY_TAG);
            assert(right[0] == INDEX_TAG);
        },
        (StepView::Index(ia), StepView::Key(kb)) => {
            assert(left[0] == INDEX_TAG);
            assert(right[0] == KEY_TAG);
        },
    }
}

/// The encoding of paths is unambiguous: encodable paths with the same
/// bytes are the same path. So a key `"0"` and an index `0` never meet,
/// and no key can pose as several steps.
pub proof fn lemma_encode_path_injective(p: Seq<StepView>, q: Seq<StepView>)
    requires
        path_encodable(p),
        path_encodable(q),
        encode_path(p) == encode_path(q),
    ensures
        p == q,
    decreases p.len(),
{
    if p.len() == 0 {
        if q.len() > 0 {
            lemma_encode_step_nonempty(q[0]);
        }
        assert(p =~= q);
    } else if q.len() == 0 {
        lemma_encode_step_nonempty(p[0]);
    } else {
        lemma_encode_step_prefix_free(p[0], encode_path(p.skip(1)), q[0], encode_path(q.skip(1)));
        assert forall|i: int| 0 <= i < p.skip(1).len() implies step_encodable(
            #[trigger] p.skip(1)[i],
        ) by {
            assert(p.skip(1)[i] == p[i + 1]);
        }
        assert forall|i: int| 0 <= i < q.skip(1).len() implies step_encodable(
            #[trigger] q.skip(1)[i],
        ) by {
            assert(q.skip(1)[i] == q[i + 1]);
        }
        lemma_encode_path_injective(p.skip(1), q.skip(1));
        assert(p =~= seq![p[0]] + p.skip(1));
        assert(q =~= seq![q[0]] + q.skip(1));
    }
}

pub proof fn lemma_encode_step_nonempty(step: StepView)
    ensures
        encode_step(step).len() > 0,
{
}

/// Encodes one step.
pub fn encode_step_bytes(step: &PathStep) -> (r: Vec<u8>)
    ensures
        r@ == encode_step(step@),
        step_encodable(step@),
{
    proof {
        lemma_pow256_8();
    }
    match step {
        PathStep::Key(k) => {
            let mut text = k.as_str().as_bytes_vec();
            let mut r: Vec<u8> = Vec::new();
            r.push(KEY_TAG);
            let mut width = u64_be_bytes(text.len() as u64);
            r.append(&mut width);
            r.append(&mut text);
            assert(r@ =~= encode_step(step@));
            r
        },
        PathStep::Index(i) => {
            let mut r: Vec<u8> = Vec::new();
            r.push(INDEX_TAG);
            let mut index = u64_be_bytes(*i as u64);
            r.append(&mut index);
            assert(r@ =~= encode_step(step@));
            r
        },
    }
}

/// Encodes a path, for hashing.
pub fn encode_path_bytes(path: &Vec<PathStep>) -> (r: Vec<u8>)
    ensures
        r@ == encode_path(path_view(path@)),
        path_encodable(path_view(path@)),
{
    let mut r: Vec<u8> = Vec::new();
    let mut i: usize = 0;
    let ghost whole = path_view(path@);
    while i < path.len()
        invariant
            i <= path.len(),
            whole == path_view(path@),
            r@ == encode_path(whole.take(i as int)),
            forall|j: int| 0 <= j < i ==> step_encodable(#[trigger] whole[j]),
        decreases path.len() - i,
    {
        let mut step = encode_step_bytes(&path[i]);
        proof {
            assert(whole[i as int] == path@[i as int]@);
            assert(whole.take(i + 1) =~= whole.take(i as int).push(whole[i as int]));
            lemma_encode_path_push(whole.take(i as int), whole[i as int]);
        }
        r.append(&mut step);
        i = i + 1;
    }
    assert(whole.take(i as int) =~= whole);
    r
}

} // verus!
