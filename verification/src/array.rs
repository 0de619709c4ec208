//! Arrays: tensors of the tensor library, with contracts.

use vstd::prelude::*;
use candle_core::{DType, Device, Tensor};
use crate::error::ModelError;
use crate::shape::{
    addressable, broadcast_dims, common_shape, even, fits, in_bounds, is_empty,
    lemma_no_position, lemma_numel_axes, lemma_offset_unravel, lemma_unravel_offset, numel, offset,
    packed, unravel,
};
use crate::view::{
    broadcast_product_of, broadcast_sum_of, cast_of, cat_of, cos_of, expand_of, matmul_of,
    matmul_shape, narrow_of, neg_of, product_of, reshape_of, same_but, scaled_of, silu_of, sin_of,
    single_of, softmax_of, sum_of, swapped, tabulate, transpose_of, unsqueeze_of, ArrayView,
    ElementKind, Scalar,
};

verus! {

/// A tensor of the tensor library: an immutable, shared array of numbers.
#[verifier::external_type_specification]
#[verifier::external_body]
pub struct ExTensor(candle_core::Tensor);

/// An error of the tensor library.
#[verifier::external_type_specification]
#[verifier::external_body]
pub struct ExTensorError(candle_core::Error);

/// What a tensor holds: its shape, the kind and place of its elements, and the
/// formula of the element at each position.
pub uninterp spec fn tensor_content(t: candle_core::Tensor) -> ArrayView;

/// How far apart in memory the elements of a tensor lie along each axis
/// (`Tensor::stride`).
pub uninterp spec fn tensor_strides(t: candle_core::Tensor) -> Seq<usize>;

/// The bits of the elements of a tensor of single-precision numbers, in row-major order.
pub uninterp spec fn tensor_bits(t: candle_core::Tensor) -> Seq<u32>;

/// Whether the elements of a tensor lie side by side in row-major order.
pub open spec fn tensor_packed(t: candle_core::Tensor) -> bool {
    packed(tensor_content(t).shape, tensor_strides(t))
}

/// What a call of the tensor library came to: a success has made the array `f`, and
/// where the call is `sure` to succeed on operands that go together, it fails only
/// on those that do not.
pub open spec fn came_to(
    r: Result<Tensor, candle_core::Error>,
    f: Option<ArrayView>,
    sure: bool,
) -> bool {
    match r {
        Ok(x) => f == Some(tensor_content(x)),
        Err(_) => f is None || !sure,
    }
}

/// `Tensor::dims`: the size along each axis.
#[verifier::external_body]
fn tensor_dims(t: &Tensor) -> (r: Vec<usize>)
    ensures
        r@ == tensor_content(*t).shape,
{
    t.dims().to_vec()
}

/// `Tensor::dtype`: the type of the elements.
#[verifier::external_body]
fn tensor_kind(t: &Tensor) -> (r: ElementKind)
    ensures
        r == tensor_content(*t).kind,
{
    match t.dtype() {
        DType::U8 => ElementKind::U8,
        DType::U32 => ElementKind::U32,
        DType::I64 => ElementKind::I64,
        DType::BF16 => ElementKind::BF16,
        DType::F16 => ElementKind::F16,
        DType::F32 => ElementKind::F32,
        DType::F64 => ElementKind::F64,
    }
}

/// `Tensor::clone`: another handle on the same tensor.
pub assume_specification[ <candle_core::Tensor as Clone>::clone ](t: &candle_core::Tensor) -> (r:
    candle_core::Tensor)
    ensures
        r == *t,
;

/// `Device::is_cpu` of `Tensor::device`: whether the elements lie in the memory of the CPU.
#[verifier::external_body]
fn tensor_on_cpu(t: &Tensor) -> (r: bool)
    ensures
        r == tensor_content(*t).cpu,
{
    t.device().is_cpu()
}

/// `Tensor::is_contiguous`: whether the elements lie side by side in row-major order.
#[verifier::external_body]
fn tensor_is_packed(t: &Tensor) -> (r: bool)
    ensures
        r == tensor_packed(*t),
{
    t.is_contiguous()
}

/// `Tensor::narrow`: a view on a range of one axis. It fails where the axis does not
/// exist or the range leaves it, and only there.
#[verifier::external_body]
fn tensor_narrow(t: &Tensor, dim: usize, start: usize, len: usize) -> (r: Result<
    Tensor,
    candle_core::Error,
>)
    requires
        start + len <= usize::MAX,
    ensures
        came_to(r, narrow_of(tensor_content(*t), dim as int, start as int, len), true),
{
    t.narrow(dim, start, len)
}

/// `Tensor::transpose`: a view with two axes, and the distances along them, exchanged.
/// It fails where one of them does not exist, and only there.
#[verifier::external_body]
fn tensor_transpose(t: &Tensor, d1: usize, d2: usize) -> (r: Result<Tensor, candle_core::Error>)
    ensures
        came_to(r, transpose_of(tensor_content(*t), d1 as int, d2 as int), true),
        r matches Ok(x) ==> tensor_strides(x) == swapped(
            tensor_strides(*t),
            d1 as int,
            d2 as int,
        ),
{
    t.transpose(d1, d2)
}

/// `Tensor::unsqueeze`: a view with one more axis, of size one. It fails where the
/// place of the new axis lies beyond the last axis, and only there.
#[verifier::external_body]
fn tensor_unsqueeze(t: &Tensor, dim: usize) -> (r: Result<Tensor, candle_core::Error>)
    ensures
        came_to(r, unsqueeze_of(tensor_content(*t), dim as int), true),
{
    t.unsqueeze(dim)
}

/// `Tensor::broadcast_as`, also known as `expand`: a view that repeats the tensor. It
/// fails where an axis that differs from the target is not of size one, and only
/// there.
#[verifier::external_body]
fn tensor_expand(t: &Tensor, shape: &Vec<usize>) -> (r: Result<Tensor, candle_core::Error>)
    requires
        addressable(shape@),
    ensures
        came_to(r, expand_of(tensor_content(*t), shape@), true),
{
    t.broadcast_as(shape.as_slice())
}

/// `Tensor::reshape`: the same elements in row-major order under another shape, side by
/// side in memory. It fails where the number of elements differs, and on the CPU only
/// there.
#[verifier::external_body]
fn tensor_reshape(t: &Tensor, shape: &Vec<usize>) -> (r: Result<Tensor, candle_core::Error>)
    requires
        addressable(shape@),
    ensures
        came_to(r, reshape_of(tensor_content(*t), shape@), tensor_content(*t).cpu),
        r matches Ok(x) ==> tensor_packed(x),
{
    t.reshape(shape.as_slice())
}

/// `Tensor::flatten_all`: the elements in row-major order along a single axis. On the
/// CPU it does not fail.
#[verifier::external_body]
fn tensor_flatten(t: &Tensor) -> (r: Result<Tensor, candle_core::Error>)
    requires
        addressable(tensor_content(*t).shape),
    ensures
        came_to(
            r,
            reshape_of(tensor_content(*t), seq![tensor_content(*t).count() as usize]),
            tensor_content(*t).cpu,
        ),
{
    t.flatten_all()
}

/// `Tensor::cat` of two tensors that are not empty, or do not go together. It fails where
/// the sizes differ along another axis or the kinds or places of the elements differ, and on
/// the CPU only there. What it makes of packed tensors is packed.
#[verifier::external_body]
fn tensor_cat(a: &Tensor, b: &Tensor, dim: usize) -> (r: Result<Tensor, candle_core::Error>)
    requires
        ({
            let x = tensor_content(*a).shape;
            let y = tensor_content(*b).shape;
            dim < x.len() && same_but(x, y, dim as int) ==> x[dim as int] + y[dim as int]
                <= usize::MAX && addressable(
                x.update(dim as int, (x[dim as int] + y[dim as int]) as usize),
            )
        }),
        (tensor_content(*a).count() > 0 && tensor_content(*b).count() > 0) || cat_of(
            tensor_content(*a),
            tensor_content(*b),
            dim as int,
        ) is None,
    ensures
        came_to(
            r,
            cat_of(tensor_content(*a), tensor_content(*b), dim as int),
            tensor_content(*a).cpu && tensor_content(*b).cpu,
        ),
        r matches Ok(x) ==> (tensor_packed(*a) && tensor_packed(*b) ==> tensor_packed(x)),
{
    Tensor::cat(&[a, b], dim)
}

/// `Tensor::neg`: the negatives of floating-point elements.
#[verifier::external_body]
fn tensor_neg(t: &Tensor) -> (r: Result<Tensor, candle_core::Error>)
    requires
        neg_of(tensor_content(*t)) is Some,
    ensures
        came_to(r, neg_of(tensor_content(*t)), tensor_content(*t).cpu),
{
    t.neg()
}

/// `Tensor::cos`: the cosines of floating-point elements.
#[verifier::external_body]
fn tensor_cos(t: &Tensor) -> (r: Result<Tensor, candle_core::Error>)
    requires
        cos_of(tensor_content(*t)) is Some,
    ensures
        came_to(r, cos_of(tensor_content(*t)), tensor_content(*t).cpu),
{
    t.cos()
}

/// `Tensor::sin`: the sines of floating-point elements.
#[verifier::external_body]
fn tensor_sin(t: &Tensor) -> (r: Result<Tensor, candle_core::Error>)
    requires
        sin_of(tensor_content(*t)) is Some,
    ensures
        came_to(r, sin_of(tensor_content(*t)), tensor_content(*t).cpu),
{
    t.sin()
}

/// `candle_nn::ops::silu`: the sigmoid linear units of floating-point elements.
#[verifier::external_body]
fn tensor_silu(t: &Tensor) -> (r: Result<Tensor, candle_core::Error>)
    requires
        silu_of(tensor_content(*t)) is Some,
    ensures
        came_to(r, silu_of(tensor_content(*t)), tensor_content(*t).cpu),
{
    candle_nn::ops::silu(t)
}

/// `Tensor::affine`, as the product of a tensor and a number: every floating-point element
/// times the double whose bits are `factor`, with nothing added.
#[verifier::external_body]
fn tensor_scale(t: &Tensor, factor: u64) -> (r: Result<Tensor, candle_core::Error>)
    requires
        scaled_of(tensor_content(*t), factor) is Some,
    ensures
        came_to(r, scaled_of(tensor_content(*t), factor), tensor_content(*t).cpu),
{
    let bytes = factor.to_ne_bytes();
    let factor = Tensor::from_raw_buffer(&bytes, DType::F64, &[], &Device::Cpu)?;
    t.affine(factor.to_scalar()?, factor.zeros_like()?.to_scalar()?)
}

/// `Tensor::to_dtype`, to single precision, of a tensor that is not empty.
#[verifier::external_body]
fn tensor_to_single(t: &Tensor) -> (r: Result<Tensor, candle_core::Error>)
    requires
        tensor_content(*t).count() > 0,
    ensures
        came_to(
            r,
            Some(cast_of(tensor_content(*t), ElementKind::F32)),
            tensor_content(*t).cpu,
        ),
{
    t.to_dtype(DType::F32)
}

/// `Tensor::add`: the sums of corresponding floating-point elements, packed unless there is
/// none, and then as the first operand lies. It fails where the shapes or the kinds of elements
/// differ, and on the CPU only there.
#[verifier::external_body]
fn tensor_add(a: &Tensor, b: &Tensor) -> (r: Result<Tensor, candle_core::Error>)
    requires
        tensor_content(*a).kind.is_float() || tensor_content(*a).count() == 0,
    ensures
        came_to(
            r,
            sum_of(tensor_content(*a), tensor_content(*b)),
            tensor_content(*a).cpu && tensor_content(*b).cpu,
        ),
        r matches Ok(x) ==> (tensor_content(x).count() > 0 || tensor_packed(*a) ==> tensor_packed(
            x,
        )),
{
    a + b
}

/// `Tensor::mul`: the products of corresponding floating-point elements. It fails where the
/// shapes or the kinds of elements differ, and on the CPU only there.
#[verifier::external_body]
fn tensor_mul(a: &Tensor, b: &Tensor) -> (r: Result<Tensor, candle_core::Error>)
    requires
        tensor_content(*a).kind.is_float() || tensor_content(*a).count() == 0,
    ensures
        came_to(
            r,
            product_of(tensor_content(*a), tensor_content(*b)),
            tensor_content(*a).cpu && tensor_content(*b).cpu,
        ),
{
    a * b
}

/// `Tensor::broadcast_add`: the sums of floating-point elements, both tensors repeated to
/// their common shape. It fails where there is no such shape or the kinds of elements
/// differ, and on the CPU only there.
#[verifier::external_body]
fn tensor_broadcast_add(a: &Tensor, b: &Tensor) -> (r: Result<Tensor, candle_core::Error>)
    requires
        common_shape(tensor_content(*a).shape, tensor_content(*b).shape) matches Some(s)
            ==> addressable(s) && (tensor_content(*a).kind.is_float() || numel(s) == 0),
    ensures
        came_to(
            r,
            broadcast_sum_of(tensor_content(*a), tensor_content(*b)),
            tensor_content(*a).cpu && tensor_content(*b).cpu,
        ),
{
    a.broadcast_add(b)
}

/// `Tensor::broadcast_mul`: the products of floating-point elements, both tensors repeated
/// to their common shape. It fails where there is no such shape or the kinds of elements
/// differ, and on the CPU only there.
#[verifier::external_body]
fn tensor_broadcast_mul(a: &Tensor, b: &Tensor) -> (r: Result<Tensor, candle_core::Error>)
    requires
        common_shape(tensor_content(*a).shape, tensor_content(*b).shape) matches Some(s)
            ==> addressable(s) && (tensor_content(*a).kind.is_float() || numel(s) == 0),
    ensures
        came_to(
            r,
            broadcast_product_of(tensor_content(*a), tensor_content(*b)),
            tensor_content(*a).cpu && tensor_content(*b).cpu,
        ),
{
    a.broadcast_mul(b)
}

/// `Tensor::matmul`: the products of the matrices that the last two axes span. It
/// fails where the sizes or the kinds of elements do not go together. On the CPU it
/// fails only there where the first operand or the product is empty, for at most three
/// axes, and for four axes where the matrices of each operand lie at equal distances; the
/// contract leaves other ways to lie in memory open.
#[verifier::external_body]
fn tensor_matmul(a: &Tensor, b: &Tensor) -> (r: Result<Tensor, candle_core::Error>)
    requires
        tensor_content(*a).rank() >= 2 && tensor_content(*a).rank() == tensor_content(*b).rank()
            ==> addressable(matmul_shape(tensor_content(*a).shape, tensor_content(*b).shape)),
    ensures
        came_to(
            r,
            matmul_of(tensor_content(*a), tensor_content(*b)),
            tensor_content(*a).cpu && tensor_content(*b).cpu && tensor_content(
                *a,
            ).kind.multiplies() && (tensor_content(*a).rank() <= 3 || tensor_content(*a).count()
                == 0 || numel(matmul_shape(tensor_content(*a).shape, tensor_content(*b).shape))
                == 0 || (even(tensor_content(*a).shape, tensor_strides(*a)) && even(
                tensor_content(*b).shape,
                tensor_strides(*b),
            ))),
        ),
{
    a.matmul(b)
}

/// `candle_nn::ops::softmax` along the last axis, of floating-point elements, packed
/// unless there is none. It fails where there is no axis, and on the CPU also where there
/// is no element.
#[verifier::external_body]
fn tensor_softmax(t: &Tensor) -> (r: Result<Tensor, candle_core::Error>)
    requires
        tensor_content(*t).kind.is_float() || tensor_content(*t).count() == 0,
    ensures
        came_to(
            r,
            softmax_of(tensor_content(*t)),
            tensor_content(*t).cpu && tensor_content(*t).count() > 0,
        ),
        r matches Ok(x) ==> (tensor_content(x).count() > 0 ==> tensor_packed(x)),
{
    candle_nn::ops::softmax(t, candle_core::D::Minus1)
}

/// `Tensor::from_raw_buffer` of single-precision numbers, on the device of `like`.
#[verifier::external_body]
fn tensor_from_bits(bits: &Vec<u32>, shape: &Vec<usize>, like: &Tensor) -> (r: Result<
    Tensor,
    candle_core::Error,
>)
    requires
        numel(shape@) == bits@.len(),
        addressable(shape@),
    ensures
        came_to(
            r,
            Some(single_array(bits@, shape@, tensor_content(*like).cpu)),
            tensor_content(*like).cpu,
        ),
{
    let bytes: Vec<u8> = bits.iter().flat_map(|b| b.to_ne_bytes()).collect();
    Tensor::from_raw_buffer(&bytes, DType::F32, shape, like.device())
}

/// `Tensor::write_bytes` of single-precision numbers, of which there are some: the bits of
/// the elements in row-major order. A number that was given by its bits comes back with
/// these bits; those of a computed number depend on the machine and are a function of the
/// tensor alone (`tensor_bits`).
#[verifier::external_body]
fn tensor_to_bits(t: &Tensor) -> (r: Result<Vec<u32>, candle_core::Error>)
    requires
        tensor_content(*t).kind == ElementKind::F32,
        addressable(tensor_content(*t).shape),
        tensor_content(*t).count() > 0,
    ensures
        tensor_content(*t).cpu ==> r is Ok,
        r matches Ok(bits) ==> shows(tensor_content(*t), bits@) && bits@ == tensor_bits(*t),
{
    let mut bytes: Vec<u8> = Vec::new();
    t.write_bytes(&mut bytes)?;
    Ok(bytes.chunks_exact(4).map(|c| u32::from_le_bytes([c[0], c[1], c[2], c[3]])).collect())
}

/// `Tensor::new` of a vector of integers, on the device of `like`. It refuses an empty
/// vector, and on the CPU nothing else.
#[verifier::external_body]
fn tensor_from_ids(ids: &Vec<i64>, like: &Tensor) -> (r: Result<Tensor, candle_core::Error>)
    ensures
        came_to(
            r,
            if ids@.len() == 0 {
                None
            } else {
                Some(integer_array(ids@, tensor_content(*like).cpu))
            },
            tensor_content(*like).cpu,
        ),
{
    Tensor::new(ids.clone(), like.device())
}

/// `Tensor::arange` from zero on the CPU: the integers below `n`. It does not fail.
#[verifier::external_body]
fn tensor_arange(n: u32) -> (r: Result<Tensor, candle_core::Error>)
    ensures
        came_to(r, Some(counting_array(n)), true),
{
    Tensor::arange(0u32, n, &Device::Cpu)
}

/// The array of shape `shape` of the single-precision numbers with the bits `bits`, in
/// row-major order.
pub open spec fn single_array(bits: Seq<u32>, shape: Seq<usize>, cpu: bool) -> ArrayView {
    tabulate(
        shape,
        ElementKind::F32,
        cpu,
        |i: Seq<int>| Scalar::Bits(bits[offset(shape, i)]),
    )
}

/// The integers `ids` along a single axis.
pub open spec fn integer_array(ids: Seq<i64>, cpu: bool) -> ArrayView {
    tabulate(
        seq![ids.len() as usize],
        ElementKind::I64,
        cpu,
        |i: Seq<int>| Scalar::Index(ids[i[0]] as int),
    )
}

/// The integers below `n` along a single axis.
pub open spec fn counting_array(n: u32) -> ArrayView {
    tabulate(seq![n as usize], ElementKind::U32, true, |i: Seq<int>| Scalar::Index(i[0]))
}

/// Whether `bits` can be what an array of single-precision numbers shows: one pattern
/// per element, and the given one where the element was given by its bits.
pub open spec fn shows(a: ArrayView, bits: Seq<u32>) -> bool {
    &&& bits.len() == a.count()
    &&& forall|i: Seq<int>|
        in_bounds(a.shape, i) ==> (#[trigger] a.at(i) matches Scalar::Bits(b) ==> bits[offset(
            a.shape,
            i,
        )] == b)
}

/// An array of numbers.
#[derive(Debug)]
pub struct Array {
    tensor: Tensor,
}

impl View for Array {
    type V = ArrayView;

    closed spec fn view(&self) -> ArrayView {
        tensor_content(self.tensor)
    }
}

/// What an operation on arrays came to: a success has made the array `f`, and where
/// the operation is `sure` to succeed on operands that go together, it fails only on
/// those that do not.
pub open spec fn yields(r: Result<Array, ModelError>, f: Option<ArrayView>, sure: bool) -> bool {
    match r {
        Ok(x) => f == Some(x@),
        Err(_) => f is None || !sure,
    }
}

/// Why an operation fails: for the reason `why` where there is one, and otherwise, if at
/// all, because the tensor library refused.
pub open spec fn refuses<T>(r: Result<T, ModelError>, why: Option<ModelError>) -> bool {
    match (r, why) {
        (Ok(_), None) => true,
        (Ok(_), Some(_)) => false,
        (Err(e), None) => e is Tensor,
        (Err(e), Some(w)) => e == w,
    }
}

/// The reason to refuse what cannot be addressed.
pub open spec fn unless_addressable(shape: Seq<usize>) -> Option<ModelError> {
    if addressable(shape) {
        None
    } else {
        Some(ModelError::TooLarge)
    }
}

/// The reason to refuse integers where only floating-point numbers will do.
pub open spec fn unless_float(a: ArrayView) -> Option<ModelError> {
    if a.kind.is_float() || a.count() == 0 {
        None
    } else {
        Some(ModelError::Kind)
    }
}

/// The reason to refuse arrays with another number of axes than `rank`.
pub open spec fn unless_rank(a: ArrayView, rank: nat) -> Option<ModelError> {
    if a.rank() == rank {
        None
    } else {
        Some(ModelError::Rank)
    }
}

/// The reason to refuse to combine the elements of two arrays, repeated to their common
/// shape: that it cannot be addressed, or that they are integers.
pub open spec fn unless_meeting(a: ArrayView, b: ArrayView) -> Option<ModelError> {
    match common_shape(a.shape, b.shape) {
        None => None,
        Some(shape) => if !addressable(shape) {
            Some(ModelError::TooLarge)
        } else if a.kind.is_float() || numel(shape) == 0 {
            None
        } else {
            Some(ModelError::Kind)
        },
    }
}

/// The reason to refuse the range of `len` positions from `start` on.
pub open spec fn narrow_why(start: usize, len: usize) -> Option<ModelError> {
    if start + len > usize::MAX {
        Some(ModelError::TooLarge)
    } else {
        None
    }
}

/// The reason to refuse to exchange the last two axes.
pub open spec fn turn_why(a: ArrayView) -> Option<ModelError> {
    if a.rank() < 2 {
        Some(ModelError::Rank)
    } else {
        None
    }
}

/// The reason to refuse to put `b` behind `a` along axis `dim`.
pub open spec fn cat_why(a: ArrayView, b: ArrayView, dim: int) -> Option<ModelError> {
    if dim < a.rank() && a.rank() == b.rank() {
        let total = a.shape[dim] + b.shape[dim];
        if total <= usize::MAX {
            unless_addressable(a.shape.update(dim, total as usize))
        } else {
            Some(ModelError::TooLarge)
        }
    } else {
        None
    }
}

/// The reason to refuse to multiply the matrices in `a` and `b`.
pub open spec fn matmul_why(a: ArrayView, b: ArrayView) -> Option<ModelError> {
    if a.rank() >= 2 && a.rank() == b.rank() {
        unless_addressable(matmul_shape(a.shape, b.shape))
    } else {
        None
    }
}

/// The reason to refuse a sequence of steps: that of the first step, or that of what follows
/// on what it made.
pub open spec fn first_why(
    why: Option<ModelError>,
    made: Option<ArrayView>,
    next: spec_fn(ArrayView) -> Option<ModelError>,
) -> Option<ModelError> {
    match (why, made) {
        (Some(e), _) => Some(e),
        (None, Some(x)) => next(x),
        (None, None) => None,
    }
}

/// Why a sequence of steps fails: for the reason `why`, or because the tensor library refused
/// one of them.
pub open spec fn blames<T>(r: Result<T, ModelError>, why: Option<ModelError>) -> bool {
    match r {
        Ok(_) => why is None,
        Err(e) => e is Tensor || why == Some(e),
    }
}

/// The array that a call of the tensor library made, or its error.
pub(crate) fn wrap(r: Result<Tensor, candle_core::Error>) -> (out: Result<Array, ModelError>)
    ensures
        forall|f: Option<ArrayView>, sure: bool| came_to(r, f, sure) ==> yields(out, f, sure),
        match r {
            Ok(x) => out matches Ok(a) && a@ == tensor_content(x) && a.strides() == tensor_strides(
                x,
            ),
            Err(_) => out is Err,
        },
        refuses(out, None),
{
    match r {
        Ok(tensor) => Ok(Array { tensor }),
        Err(error) => Err(ModelError::Tensor(error)),
    }
}

impl Array {
    /// How far apart in memory the elements lie along each axis.
    pub closed spec fn strides(&self) -> Seq<usize> {
        tensor_strides(self.tensor)
    }

    /// The bits of the elements of an array of single-precision numbers, in row-major order.
    pub closed spec fn bits(&self) -> Seq<u32> {
        if self@.count() == 0 {
            Seq::empty()
        } else {
            tensor_bits(self.tensor)
        }
    }

    /// Whether the elements lie side by side in row-major order.
    pub open spec fn packed(&self) -> bool {
        packed(self@.shape, self.strides())
    }

    /// Whether the array is packed or empty.
    pub open spec fn neat(&self) -> bool {
        self@.count() == 0 || self.packed()
    }

    /// Whether the matrices of an array with four axes lie at equal distances.
    pub open spec fn even(&self) -> bool {
        even(self@.shape, self.strides())
    }

    /// Whether the matrices of two arrays can be multiplied on the CPU if their sizes and
    /// kinds go together.
    pub open spec fn multiplies(&self, other: &Array) -> bool {
        &&& self@.cpu && other@.cpu
        &&& self@.kind.multiplies()
        &&& self@.rank() <= 3 || self@.count() == 0 || numel(
            matmul_shape(self@.shape, other@.shape),
        ) == 0 || (self.even() && other.even())
    }

    /// The array that a tensor is.
    pub fn from_tensor(tensor: Tensor) -> (r: Array)
        ensures
            r@ == tensor_content(tensor),
            r.strides() == tensor_strides(tensor),
    {
        Array { tensor }
    }

    /// The tensor of an array.
    pub fn tensor(&self) -> (r: &Tensor)
        ensures
            tensor_content(*r) == self@,
            tensor_strides(*r) == self.strides(),
    {
        &self.tensor
    }

    /// Another handle on the same array.
    pub fn share(&self) -> (r: Array)
        ensures
            r@ == self@,
            r.strides() == self.strides(),
            r.bits() == self.bits(),
    {
        Array { tensor: self.tensor.clone() }
    }

    /// The size along each axis.
    pub fn dims(&self) -> (r: Vec<usize>)
        ensures
            r@ == self@.shape,
    {
        tensor_dims(&self.tensor)
    }

    /// The type of the elements.
    pub fn kind(&self) -> (r: ElementKind)
        ensures
            r == self@.kind,
    {
        tensor_kind(&self.tensor)
    }

    /// Whether the elements lie side by side in row-major order.
    pub fn is_packed(&self) -> (r: bool)
        ensures
            r == self.packed(),
    {
        tensor_is_packed(&self.tensor)
    }

    /// The sizes of an array with two axes.
    pub fn dims2(&self) -> (r: Result<(usize, usize), ModelError>)
        ensures
            r is Ok <==> self@.rank() == 2,
            refuses(r, unless_rank(self@, 2)),
            r matches Ok(d) ==> self@.shape == seq![d.0, d.1],
    {
        let d = self.dims();
        if d.len() != 2 {
            return Err(ModelError::Rank);
        }
        proof {
            assert(d@ =~= seq![d@[0], d@[1]]);
        }
        Ok((d[0], d[1]))
    }

    /// The sizes of an array with three axes.
    pub fn dims3(&self) -> (r: Result<(usize, usize, usize), ModelError>)
        ensures
            r is Ok <==> self@.rank() == 3,
            refuses(r, unless_rank(self@, 3)),
            r matches Ok(d) ==> self@.shape == seq![d.0, d.1, d.2],
    {
        let d = self.dims();
        if d.len() != 3 {
            return Err(ModelError::Rank);
        }
        proof {
            assert(d@ =~= seq![d@[0], d@[1], d@[2]]);
        }
        Ok((d[0], d[1], d[2]))
    }

    /// The sizes of an array with four axes.
    pub fn dims4(&self) -> (r: Result<(usize, usize, usize, usize), ModelError>)
        ensures
            r is Ok <==> self@.rank() == 4,
            refuses(r, unless_rank(self@, 4)),
            r matches Ok(d) ==> self@.shape == seq![d.0, d.1, d.2, d.3],
    {
        let d = self.dims();
        if d.len() != 4 {
            return Err(ModelError::Rank);
        }
        proof {
            assert(d@ =~= seq![d@[0], d@[1], d@[2], d@[3]]);
        }
        Ok((d[0], d[1], d[2], d[3]))
    }

    /// The `len` positions from `start` on along axis `dim`.
    pub fn narrow(&self, dim: usize, start: usize, len: usize) -> (r: Result<Array, ModelError>)
        ensures
            yields(r, narrow_of(self@, dim as int, start as int, len), true),
            refuses(r, narrow_why(start, len)),
    {
        if start > usize::MAX - len {
            return Err(ModelError::TooLarge);
        }
        wrap(tensor_narrow(&self.tensor, dim, start, len))
    }

    /// The array with two axes exchanged.
    pub fn transpose(&self, d1: usize, d2: usize) -> (r: Result<Array, ModelError>)
        ensures
            yields(r, transpose_of(self@, d1 as int, d2 as int), true),
            refuses(r, None),
            r matches Ok(x) ==> x.strides() == swapped(self.strides(), d1 as int, d2 as int),
    {
        wrap(tensor_transpose(&self.tensor, d1, d2))
    }

    /// The array with its last two axes exchanged.
    pub fn t(&self) -> (r: Result<Array, ModelError>)
        ensures
            yields(r, transpose_of(self@, self@.rank() - 2, self@.rank() - 1), true),
            refuses(r, turn_why(self@)),
            r matches Ok(x) ==> (self.even() ==> x.even()),
    {
        let rank: usize = self.dims().len();
        if rank < 2 {
            return Err(ModelError::Rank);
        }
        self.transpose(rank - 2, rank - 1)
    }

    /// The array with an axis of size one inserted before axis `dim`.
    pub fn unsqueeze(&self, dim: usize) -> (r: Result<Array, ModelError>)
        ensures
            yields(r, unsqueeze_of(self@, dim as int), true),
            refuses(r, None),
    {
        wrap(tensor_unsqueeze(&self.tensor, dim))
    }

    /// The array repeated to shape `shape`.
    pub fn expand(&self, shape: &Vec<usize>) -> (r: Result<Array, ModelError>)
        ensures
            yields(r, expand_of(self@, shape@), true),
            refuses(r, unless_addressable(shape@)),
    {
        if !fits(shape) {
            return Err(ModelError::TooLarge);
        }
        wrap(tensor_expand(&self.tensor, shape))
    }

    /// The elements in row-major order as an array of shape `shape`.
    pub fn reshape(&self, shape: &Vec<usize>) -> (r: Result<Array, ModelError>)
        ensures
            yields(r, reshape_of(self@, shape@), self@.cpu),
            refuses(r, unless_addressable(shape@)),
            r matches Ok(x) ==> x.packed(),
    {
        if !fits(shape) {
            return Err(ModelError::TooLarge);
        }
        wrap(tensor_reshape(&self.tensor, shape))
    }

    /// The elements in row-major order along a single axis.
    pub fn flatten_all(&self) -> (r: Result<Array, ModelError>)
        ensures
            yields(
                r,
                if addressable(self@.shape) {
                    reshape_of(self@, seq![self@.count() as usize])
                } else {
                    None
                },
                self@.cpu,
            ),
            refuses(r, unless_addressable(self@.shape)),
    {
        if !fits(&self.dims()) {
            return Err(ModelError::TooLarge);
        }
        wrap(tensor_flatten(&self.tensor))
    }

    /// Whether the elements lie in the memory of the CPU.
    pub fn on_cpu(&self) -> (r: bool)
        ensures
            r == self@.cpu,
    {
        tensor_on_cpu(&self.tensor)
    }

    /// Whether the elements are integers.
    pub(crate) fn is_integer(&self) -> (r: bool)
        ensures
            r == self@.kind.is_integer(),
    {
        match self.kind() {
            ElementKind::U8 | ElementKind::U32 | ElementKind::I64 => true,
            _ => false,
        }
    }

    /// Whether there is no element.
    pub fn is_vacant(&self) -> (r: bool)
        ensures
            r == (self@.count() == 0),
    {
        is_empty(&self.dims())
    }

    /// Whether the arrays agree in kind, place, and size along every axis but `dim`.
    fn goes_with(&self, other: &Array, dim: usize) -> (r: bool)
        ensures
            r == (same_but(self@.shape, other@.shape, dim as int) && self@.kind == other@.kind
                && self@.cpu == other@.cpu),
    {
        let d = self.dims();
        let e = other.dims();
        if d.len() != e.len() || self.kind() != other.kind() || tensor_on_cpu(&self.tensor)
            != tensor_on_cpu(&other.tensor) {
            return false;
        }
        for i in 0..d.len()
            invariant
                d@ == self@.shape,
                e@ == other@.shape,
                d@.len() == e@.len(),
                forall|j: int| 0 <= j < i && j != dim ==> #[trigger] d@[j] == e@[j],
        {
            if i != dim && d[i] != e[i] {
                assert(d@[i as int] != e@[i as int]);
                return false;
            }
        }
        true
    }

    /// The array followed by `other` along axis `dim`, to shape `shape`, where one of the two
    /// is empty.
    fn cat_vacant(&self, other: &Array, dim: usize, shape: &Vec<usize>) -> (r: Result<
        Array,
        ModelError,
    >)
        requires
            cat_of(self@, other@, dim as int) is Some,
            self@.count() == 0 || other@.count() == 0,
            shape@ == cat_of(self@, other@, dim as int)->Some_0.shape,
        ensures
            yields(r, cat_of(self@, other@, dim as int), self@.cpu && other@.cpu),
            refuses(r, None),
            r matches Ok(x) ==> x.packed(),
    {
        let ghost a = self@;
        let ghost b = other@;
        let ghost c = cat_of(a, b, dim as int)->Some_0;
        proof {
            lemma_numel_axes(a.shape);
            lemma_numel_axes(b.shape);
            lemma_numel_axes(c.shape);
        }
        if is_empty(shape) {
            proof {
                if a.count() > 0 {
                    assert forall|d: int| 0 <= d < c.shape.len() implies #[trigger] c.shape[d]
                        > 0 by {
                        assert(a.shape[d] > 0);
                    }
                }
                lemma_no_position(c.shape);
                assert(reshape_of(a, c.shape)->Some_0.elems =~= c.elems);
            }
            return self.reshape(shape);
        }
        if self.is_vacant() {
            proof {
                assert(a.shape[dim as int] == 0) by {
                    if a.shape[dim as int] > 0 {
                        assert forall|d: int| 0 <= d < a.shape.len() implies #[trigger] a.shape[d]
                            > 0 by {
                            assert(c.shape[d] > 0);
                        }
                    }
                }
                assert(c.shape =~= b.shape);
                assert forall|i: Seq<int>| in_bounds(b.shape, i) implies #[trigger] c.elems[i]
                    == reshape_of(b, b.shape)->Some_0.elems[i] by {
                    lemma_unravel_offset(b.shape, i);
                    assert(0 <= i[dim as int]);
                    assert(i.update(dim as int, i[dim as int] - 0) =~= i);
                }
                assert(c.elems =~= reshape_of(b, b.shape)->Some_0.elems);
            }
            return other.reshape(shape);
        }
        proof {
            assert(b.shape[dim as int] == 0) by {
                if b.shape[dim as int] > 0 {
                    assert forall|d: int| 0 <= d < b.shape.len() implies #[trigger] b.shape[d]
                        > 0 by {
                        assert(c.shape[d] > 0);
                        assert(a.shape[d] > 0);
                    }
                }
            }
            assert(c.shape =~= a.shape);
            assert forall|i: Seq<int>| in_bounds(a.shape, i) implies #[trigger] c.elems[i]
                == reshape_of(a, a.shape)->Some_0.elems[i] by {
                lemma_unravel_offset(a.shape, i);
                assert(i[dim as int] < a.shape[dim as int]);
            }
            assert(c.elems =~= reshape_of(a, a.shape)->Some_0.elems);
        }
        self.reshape(shape)
    }

    /// The array followed by `other` along axis `dim`.
    pub fn cat(&self, other: &Array, dim: usize) -> (r: Result<Array, ModelError>)
        ensures
            yields(r, cat_of(self@, other@, dim as int), self@.cpu && other@.cpu),
            refuses(r, cat_why(self@, other@, dim as int)),
            r matches Ok(x) ==> (self.neat() && other.neat() ==> x.packed()),
    {
        let mut d = self.dims();
        let e = other.dims();
        if dim < d.len() && d.len() == e.len() {
            match d[dim].checked_add(e[dim]) {
                None => {
                    return Err(ModelError::TooLarge);
                },
                Some(total) => {
                    d.set(dim, total);
                    if !fits(&d) {
                        return Err(ModelError::TooLarge);
                    }
                    if (self.is_vacant() || other.is_vacant()) && self.goes_with(other, dim) {
                        return self.cat_vacant(other, dim, &d);
                    }
                },
            }
        }
        wrap(tensor_cat(&self.tensor, &other.tensor, dim))
    }

    /// Whether the elements are floating-point numbers.
    fn is_float(&self) -> (r: bool)
        ensures
            r == self@.kind.is_float(),
    {
        match self.kind() {
            ElementKind::BF16 | ElementKind::F16 | ElementKind::F32 | ElementKind::F64 => true,
            _ => false,
        }
    }

    /// Whether the elements are floating-point numbers, or there is none.
    pub(crate) fn float_or_empty(&self) -> (r: bool)
        ensures
            r == (self@.kind.is_float() || self@.count() == 0),
    {
        self.is_float() || is_empty(&self.dims())
    }

    /// The negatives of the elements.
    pub fn neg(&self) -> (r: Result<Array, ModelError>)
        ensures
            yields(r, neg_of(self@), self@.cpu),
            refuses(r, unless_float(self@)),
    {
        if !self.float_or_empty() {
            return Err(ModelError::Kind);
        }
        wrap(tensor_neg(&self.tensor))
    }

    /// The cosines of the elements.
    pub fn cos(&self) -> (r: Result<Array, ModelError>)
        ensures
            yields(r, cos_of(self@), self@.cpu),
            refuses(r, unless_float(self@)),
    {
        if !self.float_or_empty() {
            return Err(ModelError::Kind);
        }
        wrap(tensor_cos(&self.tensor))
    }

    /// The sines of the elements.
    pub fn sin(&self) -> (r: Result<Array, ModelError>)
        ensures
            yields(r, sin_of(self@), self@.cpu),
            refuses(r, unless_float(self@)),
    {
        if !self.float_or_empty() {
            return Err(ModelError::Kind);
        }
        wrap(tensor_sin(&self.tensor))
    }

    /// The sigmoid linear units of the elements.
    pub fn silu(&self) -> (r: Result<Array, ModelError>)
        ensures
            yields(r, silu_of(self@), self@.cpu),
            refuses(r, unless_float(self@)),
    {
        if !self.float_or_empty() {
            return Err(ModelError::Kind);
        }
        wrap(tensor_silu(&self.tensor))
    }

    /// The elements times the double with bits `factor`.
    pub fn scale(&self, factor: u64) -> (r: Result<Array, ModelError>)
        ensures
            yields(r, scaled_of(self@, factor), self@.cpu),
            refuses(r, unless_float(self@)),
    {
        if !self.float_or_empty() {
            return Err(ModelError::Kind);
        }
        wrap(tensor_scale(&self.tensor, factor))
    }

    /// The elements in single precision.
    pub fn to_single(&self) -> (r: Result<Array, ModelError>)
        ensures
            yields(r, single_of(self@), self@.cpu),
            refuses(
                r,
                if self@.kind != ElementKind::F32 && self@.count() == 0 {
                    unless_addressable(self@.shape)
                } else {
                    None
                },
            ),
    {
        if self.is_vacant() {
            if self.kind() == ElementKind::F32 {
                return Ok(self.share());
            }
            let bits: Vec<u32> = Vec::new();
            proof {
                lemma_no_position(self@.shape);
                assert(single_array(bits@, self@.shape, self@.cpu).elems =~= cast_of(
                    self@,
                    ElementKind::F32,
                ).elems);
            }
            return Array::from_bits(&bits, &self.dims(), self);
        }
        wrap(tensor_to_single(&self.tensor))
    }

    /// The sums of corresponding elements.
    pub fn plus(&self, other: &Array) -> (r: Result<Array, ModelError>)
        ensures
            yields(r, sum_of(self@, other@), self@.cpu && other@.cpu),
            refuses(r, unless_float(self@)),
            r matches Ok(x) ==> (x@.count() > 0 || self.packed() ==> x.packed()),
    {
        if !self.float_or_empty() {
            return Err(ModelError::Kind);
        }
        wrap(tensor_add(&self.tensor, &other.tensor))
    }

    /// The products of corresponding elements.
    pub fn times(&self, other: &Array) -> (r: Result<Array, ModelError>)
        ensures
            yields(r, product_of(self@, other@), self@.cpu && other@.cpu),
            refuses(r, unless_float(self@)),
    {
        if !self.float_or_empty() {
            return Err(ModelError::Kind);
        }
        wrap(tensor_mul(&self.tensor, &other.tensor))
    }

    /// The reason to refuse to combine the elements of two arrays, if there is one.
    fn clash(&self, other: &Array) -> (r: Option<ModelError>)
        ensures
            r == unless_meeting(self@, other@),
    {
        match broadcast_dims(&self.dims(), &other.dims()) {
            None => None,
            Some(shape) => {
                if !fits(&shape) {
                    Some(ModelError::TooLarge)
                } else if is_empty(&shape) || self.is_float() {
                    None
                } else {
                    Some(ModelError::Kind)
                }
            },
        }
    }

    /// The sums of elements, both arrays repeated to their common shape.
    pub fn broadcast_add(&self, other: &Array) -> (r: Result<Array, ModelError>)
        ensures
            yields(r, broadcast_sum_of(self@, other@), self@.cpu && other@.cpu),
            refuses(r, unless_meeting(self@, other@)),
    {
        match self.clash(other) {
            Some(error) => Err(error),
            None => wrap(tensor_broadcast_add(&self.tensor, &other.tensor)),
        }
    }

    /// The products of elements, both arrays repeated to their common shape.
    pub fn broadcast_mul(&self, other: &Array) -> (r: Result<Array, ModelError>)
        ensures
            yields(r, broadcast_product_of(self@, other@), self@.cpu && other@.cpu),
            refuses(r, unless_meeting(self@, other@)),
    {
        match self.clash(other) {
            Some(error) => Err(error),
            None => wrap(tensor_broadcast_mul(&self.tensor, &other.tensor)),
        }
    }

    /// The products of the matrices in the two arrays.
    pub fn matmul(&self, other: &Array) -> (r: Result<Array, ModelError>)
        ensures
            yields(r, matmul_of(self@, other@), self.multiplies(other)),
            refuses(r, matmul_why(self@, other@)),
    {
        let mut d = self.dims();
        let e = other.dims();
        if d.len() >= 2 && d.len() == e.len() {
            let last: usize = d.len() - 1;
            d.set(last, e[last]);
            if !fits(&d) {
                return Err(ModelError::TooLarge);
            }
        }
        wrap(tensor_matmul(&self.tensor, &other.tensor))
    }

    /// The softmax along the last axis.
    pub fn softmax(&self) -> (r: Result<Array, ModelError>)
        ensures
            yields(r, softmax_of(self@), self@.cpu && self@.count() > 0),
            refuses(r, unless_float(self@)),
            r matches Ok(x) ==> (x@.count() > 0 ==> x.packed()),
    {
        if !self.float_or_empty() {
            return Err(ModelError::Kind);
        }
        wrap(tensor_softmax(&self.tensor))
    }

    /// The single-precision numbers with the bits `bits`, in row-major order, as an
    /// array of shape `shape` on the device of `like`.
    pub fn from_bits(bits: &Vec<u32>, shape: &Vec<usize>, like: &Array) -> (r: Result<
        Array,
        ModelError,
    >)
        requires
            numel(shape@) == bits@.len(),
        ensures
            yields(
                r,
                if addressable(shape@) {
                    Some(single_array(bits@, shape@, like@.cpu))
                } else {
                    None
                },
                like@.cpu,
            ),
            refuses(r, unless_addressable(shape@)),
    {
        if !fits(shape) {
            return Err(ModelError::TooLarge);
        }
        wrap(tensor_from_bits(bits, shape, &like.tensor))
    }

    /// The bits of the elements of an array of single-precision numbers, in row-major
    /// order.
    pub fn to_bits(&self) -> (r: Result<Vec<u32>, ModelError>)
        ensures
            r matches Ok(bits) ==> bits@ == self.bits() && shows(self@, bits@) && self@.kind
                == ElementKind::F32 && addressable(self@.shape),
            self@.kind == ElementKind::F32 && self@.cpu && addressable(self@.shape) ==> r is Ok,
            refuses(
                r,
                if self@.kind == ElementKind::F32 {
                    unless_addressable(self@.shape)
                } else {
                    Some(ModelError::Kind)
                },
            ),
    {
        match self.kind() {
            ElementKind::F32 => {},
            _ => {
                return Err(ModelError::Kind);
            },
        }
        if !fits(&self.dims()) {
            return Err(ModelError::TooLarge);
        }
        if self.is_vacant() {
            proof {
                lemma_no_position(self@.shape);
            }
            return Ok(Vec::new());
        }
        match tensor_to_bits(&self.tensor) {
            Ok(bits) => Ok(bits),
            Err(error) => Err(ModelError::Tensor(error)),
        }
    }

    /// The integers `ids` along a single axis, on the device of `like`.
    pub fn from_ids(ids: &Vec<i64>, like: &Array) -> (r: Result<Array, ModelError>)
        ensures
            yields(
                r,
                if ids@.len() == 0 {
                    None
                } else {
                    Some(integer_array(ids@, like@.cpu))
                },
                like@.cpu,
            ),
            refuses(r, None),
    {
        wrap(tensor_from_ids(ids, &like.tensor))
    }

    /// The integers below `n` along a single axis, on the CPU.
    pub fn arange(n: u32) -> (r: Result<Array, ModelError>)
        ensures
            yields(r, Some(counting_array(n)), true),
            refuses(r, None),
    {
        wrap(tensor_arange(n))
    }
}

/// What is written as bits is read back as the same bits.
pub proof fn law_bits_read_back(bits: Seq<u32>, shape: Seq<usize>, cpu: bool, read: Seq<u32>)
    requires
        numel(shape) == bits.len(),
        shows(single_array(bits, shape, cpu), read),
    ensures
        read == bits,
{
    let a = single_array(bits, shape, cpu);
    assert forall|o: int| 0 <= o < bits.len() implies read[o] == bits[o] by {
        lemma_offset_unravel(shape, o);
        let i = unravel(shape, o);
        assert(a.at(i) == Scalar::Bits(bits[o]));
    }
    assert(read =~= bits);
}

} // verus!
