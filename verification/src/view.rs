//! What an array holds, for use in contracts.
//!
//! The numbers in a tensor are floating-point numbers whose last digits depend on
//! the machine. A contract therefore describes an element by the formula that it was
//! computed by ([`Scalar`]), not by its digits, and an array by its shape and the
//! formula at each position ([`ArrayView`]). The functions whose names end in `_of`
//! say what each operation on arrays makes of its operands, and refuse (`None`)
//! operands that do not go together.

use vstd::prelude::*;
use crate::shape::{
    addressable, common_shape, expands_to, in_bounds, numel, offset, project, unravel,
};

verus! {

/// The type of the elements of an array.
#[derive(Clone, Copy, Debug, PartialEq, Eq, Structural)]
pub enum ElementKind {
    U8,
    U32,
    I64,
    BF16,
    F16,
    F32,
    F64,
}

impl ElementKind {
    /// Whether the elements are integers.
    pub open spec fn is_integer(self) -> bool {
        self == ElementKind::U8 || self == ElementKind::U32 || self == ElementKind::I64
    }

    /// Whether the elements are floating-point numbers.
    pub open spec fn is_float(self) -> bool {
        self == ElementKind::BF16 || self == ElementKind::F16 || self == ElementKind::F32 || self
            == ElementKind::F64
    }

    /// Whether matrices of such elements can be multiplied on the CPU.
    pub open spec fn multiplies(self) -> bool {
        self == ElementKind::F16 || self == ElementKind::F32 || self == ElementKind::F64
    }
}

/// The formula that an element of an array was computed by.
pub enum Scalar {
    /// The single-precision number with these bits.
    Bits(u32),
    /// An integer.
    Index(int),
    /// The operand, converted to another kind of element.
    Cast(ElementKind, Box<Scalar>),
    /// The operand with the other sign.
    Neg(Box<Scalar>),
    /// The cosine of the operand.
    Cos(Box<Scalar>),
    /// The sine of the operand.
    Sin(Box<Scalar>),
    /// `x / (1 + exp(-x))` of the operand `x`.
    Silu(Box<Scalar>),
    /// The operand times the double-precision number with these bits, brought to the kind of
    /// the operand.
    Scaled(Box<Scalar>, u64),
    /// The sum of two operands.
    Add(Box<Scalar>, Box<Scalar>),
    /// The product of two operands.
    Mul(Box<Scalar>, Box<Scalar>),
    /// The sum of the products of corresponding operands.
    Dot(Seq<Scalar>, Seq<Scalar>),
    /// The exponential of one of the operands, divided by the sum of all their
    /// exponentials.
    Softmax(Seq<Scalar>, int),
    /// One of the operands in `row` after the row was brought to mean zero and
    /// variance one, with `eps` (bits of a double) added to the variance, then
    /// multiplied by `gain` and shifted by `bias`.
    Normalized { row: Seq<Scalar>, index: int, gain: Box<Scalar>, bias: Box<Scalar>, eps: u64 },
    /// The entry of a column that the second operand, an integer, selects.
    Entry(Seq<Scalar>, Box<Scalar>),
}

/// The content of an array.
#[verifier::ext_equal]
pub struct ArrayView {
    /// The size along each axis.
    pub shape: Seq<usize>,
    /// The type of the elements.
    pub kind: ElementKind,
    /// Whether the elements lie in the memory of the CPU.
    pub cpu: bool,
    /// The element at each position.
    pub elems: Map<Seq<int>, Scalar>,
}

impl ArrayView {
    /// The element at position `i`.
    pub open spec fn at(self, i: Seq<int>) -> Scalar {
        self.elems[i]
    }

    /// The element at a position of an array with four axes.
    pub open spec fn at4(self, i: int, j: int, k: int, l: int) -> Scalar {
        self.at(seq![i, j, k, l])
    }

    /// The number of axes.
    pub open spec fn rank(self) -> nat {
        self.shape.len()
    }

    /// The number of elements.
    pub open spec fn count(self) -> nat {
        numel(self.shape)
    }
}

/// The array of shape `shape` with element `f(i)` at each position `i`.
pub open spec fn tabulate(
    shape: Seq<usize>,
    kind: ElementKind,
    cpu: bool,
    f: spec_fn(Seq<int>) -> Scalar,
) -> ArrayView {
    ArrayView { shape, kind, cpu, elems: Map::new(|i: Seq<int>| in_bounds(shape, i), f) }
}

/// `s` with the entries at `a` and `b` exchanged.
pub open spec fn swapped<T>(s: Seq<T>, a: int, b: int) -> Seq<T> {
    s.update(a, s[b]).update(b, s[a])
}

/// The `len` positions from `start` on along axis `dim`.
pub open spec fn narrow_of(a: ArrayView, dim: int, start: int, len: usize) -> Option<ArrayView> {
    if 0 <= dim < a.rank() && 0 <= start && start + len <= a.shape[dim] {
        Some(
            tabulate(
                a.shape.update(dim, len),
                a.kind,
                a.cpu,
                |i: Seq<int>| a.at(i.update(dim, i[dim] + start)),
            ),
        )
    } else {
        None
    }
}

/// `a` with two axes exchanged.
pub open spec fn transpose_of(a: ArrayView, d1: int, d2: int) -> Option<ArrayView> {
    if 0 <= d1 < a.rank() && 0 <= d2 < a.rank() {
        Some(
            tabulate(
                swapped(a.shape, d1, d2),
                a.kind,
                a.cpu,
                |i: Seq<int>| a.at(swapped(i, d1, d2)),
            ),
        )
    } else {
        None
    }
}

/// `a` with an axis of size one inserted before axis `dim`.
pub open spec fn unsqueeze_of(a: ArrayView, dim: int) -> Option<ArrayView> {
    if 0 <= dim <= a.rank() {
        Some(
            tabulate(
                a.shape.insert(dim, 1),
                a.kind,
                a.cpu,
                |i: Seq<int>| a.at(i.remove(dim)),
            ),
        )
    } else {
        None
    }
}

/// `a` repeated along its axes of size one, and along new leading axes, to shape
/// `shape`.
pub open spec fn expand_of(a: ArrayView, shape: Seq<usize>) -> Option<ArrayView> {
    if expands_to(a.shape, shape) && addressable(shape) {
        Some(tabulate(shape, a.kind, a.cpu, |i: Seq<int>| a.at(project(a.shape, i))))
    } else {
        None
    }
}

/// The elements of `a`, in row-major order, as an array of shape `shape`.
pub open spec fn reshape_of(a: ArrayView, shape: Seq<usize>) -> Option<ArrayView> {
    if numel(shape) == a.count() && addressable(shape) {
        Some(
            tabulate(
                shape,
                a.kind,
                a.cpu,
                |i: Seq<int>| a.at(unravel(a.shape, offset(shape, i))),
            ),
        )
    } else {
        None
    }
}

/// Whether `a` and `b` have the same size along every axis but `dim`.
pub open spec fn same_but(a: Seq<usize>, b: Seq<usize>, dim: int) -> bool {
    &&& a.len() == b.len()
    &&& forall|d: int| 0 <= d < a.len() && d != dim ==> #[trigger] a[d] == b[d]
}

/// `a` followed by `b` along axis `dim`. Both are in the same place.
pub open spec fn cat_of(a: ArrayView, b: ArrayView, dim: int) -> Option<ArrayView> {
    if 0 <= dim < a.rank() && same_but(a.shape, b.shape, dim) && a.kind == b.kind && a.cpu
        == b.cpu && a.shape[dim] + b.shape[dim] <= usize::MAX && addressable(
        a.shape.update(dim, (a.shape[dim] + b.shape[dim]) as usize),
    ) {
        Some(
            tabulate(
                a.shape.update(dim, (a.shape[dim] + b.shape[dim]) as usize),
                a.kind,
                a.cpu,
                |i: Seq<int>|
                    if i[dim] < a.shape[dim] {
                        a.at(i)
                    } else {
                        b.at(i.update(dim, i[dim] - a.shape[dim]))
                    },
            ),
        )
    } else {
        None
    }
}

/// `f` of each element of `a`. There is no such operation on integers.
pub open spec fn each_of(a: ArrayView, f: spec_fn(Scalar) -> Scalar) -> Option<ArrayView> {
    if a.kind.is_float() || a.count() == 0 {
        Some(tabulate(a.shape, a.kind, a.cpu, |i: Seq<int>| f(a.at(i))))
    } else {
        None
    }
}

/// The negatives of the elements of `a`.
pub open spec fn neg_of(a: ArrayView) -> Option<ArrayView> {
    each_of(a, |x: Scalar| Scalar::Neg(Box::new(x)))
}

/// The cosines of the elements of `a`.
pub open spec fn cos_of(a: ArrayView) -> Option<ArrayView> {
    each_of(a, |x: Scalar| Scalar::Cos(Box::new(x)))
}

/// The sines of the elements of `a`.
pub open spec fn sin_of(a: ArrayView) -> Option<ArrayView> {
    each_of(a, |x: Scalar| Scalar::Sin(Box::new(x)))
}

/// The sigmoid linear units of the elements of `a`.
pub open spec fn silu_of(a: ArrayView) -> Option<ArrayView> {
    each_of(a, |x: Scalar| Scalar::Silu(Box::new(x)))
}

/// The elements of `a`, each times the double with bits `factor`.
pub open spec fn scaled_of(a: ArrayView, factor: u64) -> Option<ArrayView> {
    each_of(a, |x: Scalar| Scalar::Scaled(Box::new(x), factor))
}

/// The elements of `a`, converted to `kind`.
pub open spec fn cast_of(a: ArrayView, kind: ElementKind) -> ArrayView {
    if a.kind == kind {
        a
    } else {
        tabulate(
            a.shape,
            kind,
            a.cpu,
            |i: Seq<int>| Scalar::Cast(kind, Box::new(a.at(i))),
        )
    }
}

/// The elements of `a` in single precision. What is empty is made anew, and must be
/// addressable for that.
pub open spec fn single_of(a: ArrayView) -> Option<ArrayView> {
    if a.kind != ElementKind::F32 && a.count() == 0 && !addressable(a.shape) {
        None
    } else {
        Some(cast_of(a, ElementKind::F32))
    }
}

/// `f` of the corresponding elements of two arrays of the same shape and kind. There is no
/// such operation on integers.
pub open spec fn pairs_of(
    a: ArrayView,
    b: ArrayView,
    f: spec_fn(Scalar, Scalar) -> Scalar,
) -> Option<ArrayView> {
    if a.shape == b.shape && ((a.kind == b.kind && a.kind.is_float()) || a.count() == 0) {
        Some(tabulate(a.shape, a.kind, a.cpu, |i: Seq<int>| f(a.at(i), b.at(i))))
    } else {
        None
    }
}

/// The sums of the corresponding elements of `a` and `b`.
pub open spec fn sum_of(a: ArrayView, b: ArrayView) -> Option<ArrayView> {
    pairs_of(a, b, |x: Scalar, y: Scalar| Scalar::Add(Box::new(x), Box::new(y)))
}

/// The products of the corresponding elements of `a` and `b`.
pub open spec fn product_of(a: ArrayView, b: ArrayView) -> Option<ArrayView> {
    pairs_of(a, b, |x: Scalar, y: Scalar| Scalar::Mul(Box::new(x), Box::new(y)))
}

/// `f` of the corresponding elements of `a` and `b`, both repeated to their common
/// shape. There is no such operation on integers.
pub open spec fn broadcast_of(
    a: ArrayView,
    b: ArrayView,
    f: spec_fn(Scalar, Scalar) -> Scalar,
) -> Option<ArrayView> {
    match common_shape(a.shape, b.shape) {
        None => None,
        Some(shape) => if addressable(shape) && ((a.kind == b.kind && a.kind.is_float()) || numel(
            shape,
        ) == 0) {
            Some(
                tabulate(
                    shape,
                    a.kind,
                    a.cpu,
                    |i: Seq<int>| f(a.at(project(a.shape, i)), b.at(project(b.shape, i))),
                ),
            )
        } else {
            None
        },
    }
}

/// The sums of the elements of `a` and `b`, repeated to their common shape.
pub open spec fn broadcast_sum_of(a: ArrayView, b: ArrayView) -> Option<ArrayView> {
    broadcast_of(a, b, |x: Scalar, y: Scalar| Scalar::Add(Box::new(x), Box::new(y)))
}

/// The products of the elements of `a` and `b`, repeated to their common shape.
pub open spec fn broadcast_product_of(a: ArrayView, b: ArrayView) -> Option<ArrayView> {
    broadcast_of(a, b, |x: Scalar, y: Scalar| Scalar::Mul(Box::new(x), Box::new(y)))
}

/// The axes of `s` ahead of the last two.
pub open spec fn batch(s: Seq<usize>) -> Seq<usize> {
    s.subrange(0, s.len() - 2)
}

/// The shape of the products of the matrices in an array of shape `a` with those in
/// one of shape `b`.
pub open spec fn matmul_shape(a: Seq<usize>, b: Seq<usize>) -> Seq<usize> {
    a.update(a.len() - 1, b[b.len() - 1])
}

/// The position of the batch axes `b` with the row-major rank that `i` has in the
/// batch axes `a`.
pub open spec fn same_rank(a: Seq<usize>, b: Seq<usize>, i: Seq<int>) -> Seq<int> {
    unravel(b, offset(a, i))
}

/// Whether the matrices in arrays of these shapes can be multiplied pairwise. Where
/// there is nothing to add up, the sizes are not compared.
pub open spec fn matmul_fits(a: Seq<usize>, b: Seq<usize>) -> bool {
    &&& a.len() >= 2
    &&& a.len() == b.len()
    &&& addressable(matmul_shape(a, b))
    &&& (numel(matmul_shape(a, b)) == 0 || a.last() == 0 || (a.last() == b[b.len() - 2] && numel(
        batch(a),
    ) == numel(batch(b))))
}

/// The products of the matrices in `a`, which its last two axes span, with those in
/// `b` of the same rank.
pub open spec fn matmul_of(a: ArrayView, b: ArrayView) -> Option<ArrayView> {
    let n = a.rank() - 2;
    let inner = a.shape.last() as nat;
    if matmul_fits(a.shape, b.shape) && (a.kind == b.kind || a.shape.last() == 0 || numel(
        matmul_shape(a.shape, b.shape),
    ) == 0) {
        Some(
            tabulate(
                matmul_shape(a.shape, b.shape),
                a.kind,
                a.cpu,
                |i: Seq<int>|
                    Scalar::Dot(
                        Seq::new(inner, |c: int| a.at(i.update(n + 1, c))),
                        Seq::new(
                            inner,
                            |c: int|
                                b.at(
                                    same_rank(
                                        batch(a.shape),
                                        batch(b.shape),
                                        i.subrange(0, n),
                                    ).push(c).push(i[n + 1]),
                                ),
                        ),
                    ),
            ),
        )
    } else {
        None
    }
}

/// The softmax of each row along the last axis.
pub open spec fn softmax_of(a: ArrayView) -> Option<ArrayView> {
    let last = a.rank() - 1;
    if a.rank() >= 1 && (a.kind.is_float() || a.count() == 0) {
        Some(
            tabulate(
                a.shape,
                a.kind,
                a.cpu,
                |i: Seq<int>|
                    Scalar::Softmax(
                        Seq::new(a.shape[last] as nat, |c: int| a.at(i.update(last, c))),
                        i[last],
                    ),
            ),
        )
    } else {
        None
    }
}

/// The factors of a product of matrices that is not empty are not empty.
pub proof fn lemma_matmul_factor(a: ArrayView, b: ArrayView)
    requires
        matmul_of(a, b) is Some,
        a.count() > 0,
        numel(matmul_shape(a.shape, b.shape)) > 0,
    ensures
        b.count() > 0,
{
    let c = matmul_shape(a.shape, b.shape);
    lemma_numel_batch(a.shape);
    lemma_numel_batch(b.shape);
    lemma_numel_batch(c);
    assert(batch(a.shape) =~= batch(c));
    let n = a.rank() as int;
    let (p, m, k, q, w) = (
        numel(batch(a.shape)) as int,
        a.shape[n - 2] as int,
        a.shape[n - 1] as int,
        numel(batch(b.shape)) as int,
        b.shape[n - 1] as int,
    );
    assert(k > 0 && w > 0 && p > 0) by (nonlinear_arith)
        requires
            p * m * k > 0,
            p * m * w > 0,
            p >= 0,
            m >= 0,
            k >= 0,
            w >= 0,
    ;
    assert(q * k * w > 0) by (nonlinear_arith)
        requires
            q == p,
            p > 0,
            k > 0,
            w > 0,
    ;
}

proof fn lemma_numel_batch(s: Seq<usize>)
    requires
        s.len() >= 2,
    ensures
        numel(s) == numel(batch(s)) * s[s.len() - 2] * s[s.len() - 1],
{
    assert(s.drop_last().drop_last() =~= batch(s));
    assert(numel(s) == numel(s.drop_last()) * (s.last() as nat));
    assert(numel(s.drop_last()) == numel(s.drop_last().drop_last()) * (s.drop_last().last() as nat));
}

} // verus!
