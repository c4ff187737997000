use vstd::prelude::*;

verus! {

/// A scalar value at a leaf of a document.
#[derive(Debug, PartialEq, Eq)]
pub enum Primitive {
    Null,
    Bool(bool),
    /// An integral number.
    Integer(i128),
    /// A number that is not integral, or too large to be held as an
    /// integer: the bit pattern of its binary64 form.
    Real(u64),
    Text(String),
}

/// What a `Primitive` stands for.
pub enum PrimitiveView {
    Null,
    Bool(bool),
    Integer(int),
    Real(u64),
    Text(Seq<char>),
}

impl View for Primitive {
    type V = PrimitiveView;

    open spec fn view(&self) -> PrimitiveView {
        match self {
            Primitive::Null => PrimitiveView::Null,
            Primitive::Bool(b) => PrimitiveView::Bool(*b),
            Primitive::Integer(n) => PrimitiveView::Integer(*n as int),
            Primitive::Real(bits) => PrimitiveView::Real(*bits),
            Primitive::Text(s) => PrimitiveView::Text(s@),
        }
    }
}

impl Clone for Primitive {
    fn clone(&self) -> (r: Self)
        ensures
            r == *self,
    {
        match self {
            Primitive::Null => Primitive::Null,
            Primitive::Bool(b) => Primitive::Bool(*b),
            Primitive::Integer(n) => Primitive::Integer(*n),
            Primitive::Real(bits) => Primitive::Real(*bits),
            Primitive::Text(s) => Primitive::Text(s.clone()),
        }
    }
}

/// A document: an object, an array or a leaf.
#[derive(Debug, PartialEq, Eq)]
pub enum Node {
    Object(Vec<(String, Node)>),
    Array(Vec<Node>),
    Primitive(Primitive),
}

/// What a `Node` stands for.
pub enum NodeView {
    Object(Seq<(Seq<char>, NodeView)>),
    Array(Seq<NodeView>),
    Primitive(PrimitiveView),
}

impl View for Node {
    type V = NodeView;

    open spec fn view(&self) -> NodeView {
        node_view(*self)
    }
}

/// What a document stands for.
pub open spec fn node_view(node: Node) -> NodeView
    decreases node, 0nat,
{
    match node {
        Node::Object(fields) => NodeView::Object(fields_view(fields@, fields@.len())),
        Node::Array(items) => NodeView::Array(items_view(items@, items@.len())),
        Node::Primitive(p) => NodeView::Primitive(p@),
    }
}

/// What the first `n` fields of an object stand for.
pub open spec fn fields_view(fields: Seq<(String, Node)>, n: nat) -> Seq<(Seq<char>, NodeView)>
    decreases fields, n,
{
    if n == 0 || n > fields.len() {
        Seq::empty()
    } else {
        fields_view(fields, (n - 1) as nat).push((fields[n - 1].0@, node_view(fields[n - 1].1)))
    }
}

/// What the first `n` items of an array stand for.
pub open spec fn items_view(items: Seq<Node>, n: nat) -> Seq<NodeView>
    decreases items, n,
{
    if n == 0 || n > items.len() {
        Seq::empty()
    } else {
        items_view(items, (n - 1) as nat).push(node_view(items[n - 1]))
    }
}

/// The view of fields holds, field by field, the key and the view of
/// the document under it.
pub proof fn lemma_fields_view(fields: Seq<(String, Node)>, n: nat)
    requires
        n <= fields.len(),
    ensures
        fields_view(fields, n).len() == n,
        forall|i: int|
            0 <= i < n ==> #[trigger] fields_view(fields, n)[i] == (fields[i].0@, fields[i].1@),
    decreases n,
{
    if n > 0 {
        lemma_fields_view(fields, (n - 1) as nat);
    }
}

/// The view of items holds, item by item, the view of the document.
pub proof fn lemma_items_view(items: Seq<Node>, n: nat)
    requires
        n <= items.len(),
    ensures
        items_view(items, n).len() == n,
        forall|i: int| 0 <= i < n ==> #[trigger] items_view(items, n)[i] == items[i]@,
    decreases n,
{
    if n > 0 {
        lemma_items_view(items, (n - 1) as nat);
    }
}

/// Where a field lies in a serialized document.
#[derive(Debug, Clone)]
pub struct FieldMeta {
    /// The key of an object field; `None` for an array element or a leaf.
    pub name: Option<String>,
    pub offset: usize,
    pub len: usize,
}

} // verus!
