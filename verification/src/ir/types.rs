//! Identifier, shape and operation-kind primitives.

use vstd::prelude::*;

verus! {

/// Identifier of a node, unique within one graph.
#[derive(Debug, Clone, Copy, PartialEq, Eq, Hash, Structural)]
pub struct NodeID(u32);

impl View for NodeID {
    type V = u32;

    closed spec fn view(&self) -> u32 {
        self.0
    }
}

impl NodeID {
    pub fn new(id: u32) -> (r: Self)
        ensures
            r@ == id,
    {
        NodeID(id)
    }

    pub fn id(&self) -> (r: u32)
        ensures
            r == self@,
    {
        self.0
    }

    /// Two identifiers with the same number are the same identifier.
    pub broadcast proof fn lemma_view_injective(a: NodeID, b: NodeID)
        ensures
            #[trigger] a@ == #[trigger] b@ ==> a == b,
    {
    }
}

/// The numbers of a sequence of identifiers, in order.
pub open spec fn id_numbers(ids: Seq<NodeID>) -> Seq<u32> {
    Seq::new(ids.len(), |i: int| ids[i]@)
}

/// Product of the extents of a shape; the empty product is 1.
pub open spec fn extent_product(dims: Seq<usize>) -> nat
    decreases dims.len(),
{
    if dims.len() == 0 {
        1
    } else {
        extent_product(dims.drop_last()) * (dims.last() as nat)
    }
}

/// A shape with a zero extent has no elements.
pub proof fn lemma_zero_extent(dims: Seq<usize>, k: int)
    requires
        0 <= k < dims.len(),
        dims[k] == 0,
    ensures
        extent_product(dims) == 0,
    decreases dims.len(),
{
    if k < dims.len() - 1 {
        lemma_zero_extent(dims.drop_last(), k);
        assert(extent_product(dims.drop_last()) * (dims.last() as nat) == 0) by (nonlinear_arith)
            requires
                extent_product(dims.drop_last()) == 0,
        ;
    } else {
        assert(extent_product(dims.drop_last()) * (dims.last() as nat) == 0) by (nonlinear_arith)
            requires
                dims.last() == 0,
        ;
    }
}

/// With no zero extent, the product over a prefix never exceeds the
/// product over the whole shape.
pub proof fn lemma_prefix_product(dims: Seq<usize>, n: int)
    requires
        0 <= n <= dims.len(),
        forall|j: int| 0 <= j < dims.len() ==> dims[j] != 0,
    ensures
        1 <= extent_product(dims.take(n)) <= extent_product(dims),
    decreases dims.len(),
{
    if dims.len() > 0 {
        let rest = dims.drop_last();
        let last = dims.last() as nat;
        if n == dims.len() {
            assert(dims.take(n) =~= dims);
            lemma_prefix_product(rest, n - 1);
        } else {
            lemma_prefix_product(rest, n);
            assert(rest.take(n) =~= dims.take(n));
        }
        assert(1 <= extent_product(rest) <= extent_product(rest) * last) by (nonlinear_arith)
            requires
                last >= 1,
                extent_product(rest) >= 1,
        ;
    } else {
        assert(dims.take(n) =~= dims);
    }
}

/// Shape of a tensor: its extents, outermost first.
#[derive(Debug, Clone, PartialEq, Eq, Hash)]
pub struct TensorShape(Vec<usize>);

impl View for TensorShape {
    type V = Seq<usize>;

    closed spec fn view(&self) -> Seq<usize> {
        self.0@
    }
}

impl TensorShape {
    pub fn new(dims: Vec<usize>) -> (r: Self)
        ensures
            r@ == dims@,
    {
        TensorShape(dims)
    }

    /// Number of dimensions; 0 for a scalar.
    pub fn rank(&self) -> (r: usize)
        ensures
            r == self@.len(),
    {
        self.0.len()
    }

    /// Number of elements: the product of the extents.
    pub fn size(&self) -> (r: usize)
        requires
            extent_product(self@) <= usize::MAX,
        ensures
            r == extent_product(self@),
    {
        let n = self.0.len();
        let mut i: usize = 0;
        while i < n
            invariant
                n == self.0@.len(),
                i <= n,
                forall|j: int| 0 <= j < i ==> self.0@[j] != 0,
            decreases n - i,
        {
            if self.0[i] == 0 {
                proof {
                    lemma_zero_extent(self.0@, i as int);
                }
                return 0;
            }
            i += 1;
        }
        let mut acc: usize = 1;
        i = 0;
        while i < n
            invariant
                n == self.0@.len(),
                i <= n,
                forall|j: int| 0 <= j < n ==> self.0@[j] != 0,
                extent_product(self.0@) <= usize::MAX,
                acc == extent_product(self.0@.take(i as int)),
            decreases n - i,
        {
            proof {
                lemma_prefix_product(self.0@, i + 1);
                assert(self.0@.take(i + 1).drop_last() =~= self.0@.take(i as int));
            }
            acc = acc * self.0[i];
            i += 1;
        }
        proof {
            assert(self.0@.take(n as int) =~= self.0@);
        }
        acc
    }

    /// Whether the shape has no dimensions. `[1]` is not a scalar.
    pub fn is_scalar(&self) -> (r: bool)
        ensures
            r == (self@.len() == 0),
    {
        self.0.len() == 0
    }
}

/// Mathematical model of an operation kind.
pub enum OpKindView {
    MatMul,
    Add,
    Gelu,
    Dropout,
    Softmax,
    LayerNorm,
    Custom(Seq<char>),
}

/// Number of inputs that an operation kind takes, where it is fixed.
/// A custom operation has no fixed arity.
pub open spec fn arity_of(op: OpKindView) -> Option<usize> {
    match op {
        OpKindView::MatMul => Some(2usize),
        OpKindView::Add => Some(2usize),
        OpKindView::Gelu => Some(1usize),
        OpKindView::Dropout => Some(1usize),
        OpKindView::Softmax => Some(1usize),
        OpKindView::LayerNorm => Some(1usize),
        OpKindView::Custom(_) => None,
    }
}

/// Name under which an operation kind appears in diagnostics.
pub open spec fn name_of(op: OpKindView) -> Seq<char> {
    match op {
        OpKindView::MatMul => "MatMul"@,
        OpKindView::Add => "Add"@,
        OpKindView::Gelu => "Gelu"@,
        OpKindView::Dropout => "Dropout"@,
        OpKindView::Softmax => "Softmax"@,
        OpKindView::LayerNorm => "LayerNorm"@,
        OpKindView::Custom(name) => name,
    }
}

/// Kind of operation that a node performs.
pub enum OpKind {
    MatMul,
    Add,
    Gelu,
    Dropout,
    Softmax,
    LayerNorm,
    Custom(String),
}

impl View for OpKind {
    type V = OpKindView;

    open spec fn view(&self) -> OpKindView {
        match self {
            OpKind::MatMul => OpKindView::MatMul,
            OpKind::Add => OpKindView::Add,
            OpKind::Gelu => OpKindView::Gelu,
            OpKind::Dropout => OpKindView::Dropout,
            OpKind::Softmax => OpKindView::Softmax,
            OpKind::LayerNorm => OpKindView::LayerNorm,
            OpKind::Custom(name) => OpKindView::Custom(name@),
        }
    }
}

impl OpKind {
    /// The fixed input count of a well-known kind; `None` for a custom one.
    pub fn arity(&self) -> (r: Option<usize>)
        ensures
            r == arity_of(self@),
    {
        match self {
            OpKind::MatMul => Some(2),
            OpKind::Add => Some(2),
            OpKind::Gelu => Some(1),
            OpKind::Dropout => Some(1),
            OpKind::Softmax => Some(1),
            OpKind::LayerNorm => Some(1),
            OpKind::Custom(_) => None,
        }
    }

    /// The kind's name as diagnostics show it.
    pub fn name(&self) -> (r: String)
        ensures
            r@ == name_of(self@),
    {
        match self {
            OpKind::MatMul => "MatMul".to_owned(),
            OpKind::Add => "Add".to_owned(),
            OpKind::Gelu => "Gelu".to_owned(),
            OpKind::Dropout => "Dropout".to_owned(),
            OpKind::Softmax => "Softmax".to_owned(),
            OpKind::LayerNorm => "LayerNorm".to_owned(),
            OpKind::Custom(name) => name.clone(),
        }
    }
}

} // verus!
