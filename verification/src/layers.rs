//! The layers of a network whose parameters come from a store: linear maps, lookup
//! tables and normalizations.

use vstd::prelude::*;
use candle_core::{DType, Device, Tensor};
use candle_nn::Module;
use crate::array::{
    came_to, refuses, tensor_content, tensor_packed, unless_addressable, unless_float, wrap, yields,
    Array,
};
use crate::error::ModelError;
use crate::shape::{
    addressable, aligned, broadcast_dims, common_shape, fits, in_bounds, lemma_no_position,
    lemma_numel_axes, numel,
};
use crate::view::{expand_of, narrow_of, reshape_of, tabulate, ArrayView, ElementKind, Scalar};

verus! {

/// Named parameters, as seen from a place in their hierarchy of names. The tensor
/// library looks a parameter up under the names on the path and its own name.
#[verifier::external_body]
pub struct Weights<'a>(pub candle_nn::VarBuilder<'a>);

/// A linear layer of the tensor library.
#[verifier::external_type_specification]
#[verifier::external_body]
pub struct ExLinear(candle_nn::Linear);

/// A lookup table of the tensor library.
#[verifier::external_type_specification]
#[verifier::external_body]
pub struct ExEmbedding(candle_nn::Embedding);

/// A normalization layer of the tensor library.
#[verifier::external_type_specification]
#[verifier::external_body]
pub struct ExLayerNorm(candle_nn::LayerNorm);

/// A device of the tensor library.
#[verifier::external_type_specification]
#[verifier::external_body]
pub struct ExDevice(candle_core::Device);

/// `Linear::clone`: the same parameters.
pub assume_specification[ <candle_nn::Linear as Clone>::clone ](l: &candle_nn::Linear) -> (r:
    candle_nn::Linear)
    ensures
        r == *l,
;

/// `Embedding::clone`: the same table.
pub assume_specification[ <candle_nn::Embedding as Clone>::clone ](
    e: &candle_nn::Embedding,
) -> (r: candle_nn::Embedding)
    ensures
        r == *e,
;

/// `LayerNorm::clone`: the same parameters.
pub assume_specification[ <candle_nn::LayerNorm as Clone>::clone ](
    n: &candle_nn::LayerNorm,
) -> (r: candle_nn::LayerNorm)
    ensures
        r == *n,
;

/// `Device::clone`: the same device.
pub assume_specification[ <candle_core::Device as Clone>::clone ](d: &candle_core::Device) -> (r:
    candle_core::Device)
    ensures
        r == *d,
;

/// A place in a store of parameters.
#[verifier::ext_equal]
pub struct WeightsView {
    /// Which store it is, and the type of element that it hands out.
    pub store: int,
    /// The names on the way from its root.
    pub path: Seq<Seq<char>>,
}

impl WeightsView {
    /// The place below this one that `name` leads to.
    pub open spec fn below(self, name: Seq<char>) -> WeightsView {
        WeightsView { store: self.store, path: self.path.push(name) }
    }
}

/// The place in its store that `w` stands for.
pub uninterp spec fn weights_content(w: Weights<'_>) -> WeightsView;

/// The device on which the parameters at `w` are placed.
pub uninterp spec fn weights_device(w: Weights<'_>) -> candle_core::Device;

/// The parameters of a linear layer.
pub struct DenseView {
    pub weight: ArrayView,
    pub bias: Option<ArrayView>,
}

/// The parameters of a lookup table.
pub struct LookupView {
    pub table: ArrayView,
    pub width: usize,
    /// Whether the table lies side by side in row-major order.
    pub packed: bool,
}

/// The parameters of a normalization layer. `eps` holds the bits of a double.
pub struct NormView {
    pub weight: ArrayView,
    pub bias: Option<ArrayView>,
    pub eps: u64,
    /// Whether the mean of a row is brought to zero.
    pub remove_mean: bool,
    /// Whether the weight lies side by side in memory.
    pub weight_packed: bool,
    /// Whether the bias, if there is one, lies side by side in memory.
    pub bias_packed: bool,
}

/// The parameters of a linear layer of the tensor library.
pub uninterp spec fn linear_content(l: candle_nn::Linear) -> DenseView;

/// The table of a lookup table of the tensor library, and the length of the rows that
/// it hands out.
pub uninterp spec fn embedding_content(e: candle_nn::Embedding) -> LookupView;

/// The parameters of a normalization layer of the tensor library.
pub uninterp spec fn layer_norm_content(n: candle_nn::LayerNorm) -> NormView;

/// Whether `r` can be what `candle_nn::linear` comes to with the parameters at `w`: a layer,
/// or the refusal of the store.
pub uninterp spec fn linear_outcome(
    r: Result<candle_nn::Linear, candle_core::Error>,
    in_dim: usize,
    out_dim: usize,
    w: WeightsView,
) -> bool;

/// Whether `r` can be what `candle_nn::embedding` comes to with the parameters at `w`: a
/// table, or the refusal of the store.
pub uninterp spec fn embedding_outcome(
    r: Result<candle_nn::Embedding, candle_core::Error>,
    size: usize,
    width: usize,
    w: WeightsView,
) -> bool;

/// Whether `r` can be what `candle_nn::layer_norm` comes to with the parameters at `w`: a
/// layer, or the refusal of the store.
pub uninterp spec fn layer_norm_outcome(
    r: Result<candle_nn::LayerNorm, candle_core::Error>,
    size: usize,
    eps: u64,
    w: WeightsView,
) -> bool;

impl<'a> View for Weights<'a> {
    type V = WeightsView;

    open spec fn view(&self) -> WeightsView {
        weights_content(*self)
    }
}

impl<'a> Weights<'a> {
    /// `VarBuilder::pp`: the place that `name` leads to.
    #[verifier::external_body]
    pub(crate) fn below(&self, name: &str) -> (r: Weights<'a>)
        ensures
            weights_content(r) == weights_content(*self).below(name@),
    {
        Weights(self.0.pp(name))
    }

    /// `VarBuilder::device`: the device on which the parameters are placed.
    #[verifier::external_body]
    pub(crate) fn device(&self) -> (r: Device)
        ensures
            r == weights_device(*self),
    {
        self.0.device().clone()
    }
}

/// `candle_nn::linear`: a layer with the stored weight and bias, or the refusal of the store
/// (`linear_outcome`). Whether the store has them, and of which shape what it hands out is,
/// is left to the store.
#[verifier::external_body]
fn linear_make(in_dim: usize, out_dim: usize, w: &Weights<'_>) -> (r: Result<
    candle_nn::Linear,
    candle_core::Error,
>)
    ensures
        linear_outcome(r, in_dim, out_dim, weights_content(*w)),
        r matches Ok(l) ==> linear_content(l).bias is Some,
{
    candle_nn::linear(in_dim, out_dim, w.0.clone())
}

/// `Linear::weight`.
#[verifier::external_body]
fn linear_weight(l: &candle_nn::Linear) -> (r: Tensor)
    ensures
        tensor_content(r) == linear_content(*l).weight,
{
    l.weight().clone()
}

/// `Linear::bias`.
#[verifier::external_body]
fn linear_bias(l: &candle_nn::Linear) -> (r: Option<Tensor>)
    ensures
        match r {
            Some(b) => linear_content(*l).bias == Some(tensor_content(b)),
            None => linear_content(*l).bias is None,
        },
{
    l.bias().cloned()
}

/// `Linear::forward` of a layer with a bias: each row times the weight, plus the bias. It
/// fails where there are less than two or more than four axes, or the lengths of the rows or
/// the kinds of elements differ. On the CPU, for the kinds that can be multiplied there and
/// at most three axes, it fails only there. What it makes lies side by side in memory.
#[verifier::external_body]
fn linear_forward(l: &candle_nn::Linear, x: &Tensor) -> (r: Result<Tensor, candle_core::Error>)
    requires
        dense_shaped(linear_content(*l)),
        dense_why(linear_content(*l), tensor_content(*x)) is None,
    ensures
        came_to(
            r,
            dense_of(linear_content(*l), tensor_content(*x)),
            dense_sure(linear_content(*l), tensor_content(*x)),
        ),
        r matches Ok(y) ==> tensor_packed(y),
{
    l.forward(x)
}

/// `candle_nn::embedding`: a lookup in the stored table that hands out rows of `width` numbers,
/// or the refusal of the store (`embedding_outcome`). Whether the store has it, and of which
/// shape what it hands out is, is left to the store.
#[verifier::external_body]
fn embedding_make(size: usize, width: usize, w: &Weights<'_>) -> (r: Result<
    candle_nn::Embedding,
    candle_core::Error,
>)
    ensures
        embedding_outcome(r, size, width, weights_content(*w)),
        r matches Ok(e) ==> embedding_content(e).width == width,
{
    candle_nn::embedding(size, width, w.0.clone())
}

/// `Embedding::embeddings`.
#[verifier::external_body]
fn embedding_table(e: &candle_nn::Embedding) -> (r: Tensor)
    ensures
        tensor_content(r) == embedding_content(*e).table,
        tensor_packed(r) == embedding_content(*e).packed,
{
    e.embeddings().clone()
}

/// `Embedding::hidden_size`: the length of the rows that are handed out.
#[verifier::external_body]
fn embedding_width(e: &candle_nn::Embedding) -> (r: usize)
    ensures
        r == embedding_content(*e).width,
{
    e.hidden_size()
}

/// `Embedding::forward` with a table that is not empty: for each integer the row of the table
/// that it selects, side by side in memory. It refuses what are no integers and operands in
/// different places. On the CPU it fails for integers that lie outside the table and with a
/// table that is not packed, and only there; where else it fails the contract leaves open.
#[verifier::external_body]
fn embedding_forward(e: &candle_nn::Embedding, ids: &Tensor) -> (r: Result<
    Tensor,
    candle_core::Error,
>)
    requires
        embedding_content(*e).table.rank() == 2,
        embedding_content(*e).table.shape[1] == embedding_content(*e).width,
        embedding_content(*e).table.count() > 0,
        addressable(tensor_content(*ids).shape.push(embedding_content(*e).width)),
    ensures
        came_to(
            r,
            lookup_of(embedding_content(*e), tensor_content(*ids)),
            lookup_sure(embedding_content(*e), tensor_content(*ids)),
        ),
        r matches Ok(x) ==> tensor_packed(x),
{
    e.forward(ids)
}

/// `candle_nn::layer_norm` with the bits of a double as its `eps`: a layer with the stored
/// weight and bias, or the refusal of the store (`layer_norm_outcome`). Whether the store has
/// them, and of which shape what it hands out is, is left to the store.
#[verifier::external_body]
fn layer_norm_make(size: usize, eps: u64, w: &Weights<'_>) -> (r: Result<
    candle_nn::LayerNorm,
    candle_core::Error,
>)
    ensures
        layer_norm_outcome(r, size, eps, weights_content(*w)),
        r matches Ok(n) ==> layer_norm_content(n).bias is Some && layer_norm_content(n).eps == eps
            && layer_norm_content(n).remove_mean,
{
    let bytes = eps.to_ne_bytes();
    let eps = Tensor::from_raw_buffer(&bytes, DType::F64, &[], &Device::Cpu)?.to_scalar()?;
    let config = candle_nn::LayerNormConfig { eps, remove_mean: true, affine: true };
    candle_nn::layer_norm(size, config, w.0.clone())
}

/// `LayerNorm::weight`.
#[verifier::external_body]
fn layer_norm_weight(n: &candle_nn::LayerNorm) -> (r: Tensor)
    ensures
        tensor_content(r) == layer_norm_content(*n).weight,
        tensor_packed(r) == layer_norm_content(*n).weight_packed,
{
    n.weight().clone()
}

/// `LayerNorm::bias`.
#[verifier::external_body]
fn layer_norm_bias(n: &candle_nn::LayerNorm) -> (r: Option<Tensor>)
    ensures
        match r {
            Some(b) => layer_norm_content(*n).bias == Some(tensor_content(b)) && tensor_packed(b)
                == layer_norm_content(*n).bias_packed,
            None => layer_norm_content(*n).bias is None,
        },
{
    n.bias().cloned()
}

/// `LayerNorm::forward`, of a layer that removes the mean, on floating-point rows of which
/// there are some. Packed rows have the length that the layer takes; rows that are not packed,
/// and the parameters, are repeated to their common length. It fails where the kinds or places
/// of the elements differ, and on the CPU, for packed rows, in double precision and where the
/// parameters are not packed. On the CPU it does not fail for rows of the kind of the
/// parameters that are not in double precision, where the parameters are packed; where else it
/// fails the contract leaves open.
#[verifier::external_body]
fn layer_norm_forward(n: &candle_nn::LayerNorm, x: &Tensor) -> (r: Result<
    Tensor,
    candle_core::Error,
>)
    requires
        norm_shaped(layer_norm_content(*n)),
        norm_why(layer_norm_content(*n), tensor_content(*x), tensor_packed(*x)) is None,
        tensor_content(*x).count() > 0,
    ensures
        came_to(
            r,
            norm_of(layer_norm_content(*n), tensor_content(*x), tensor_packed(*x)),
            norm_sure(layer_norm_content(*n), tensor_content(*x)),
        ),
{
    n.forward(x)
}

/// Whether the parameters are those of a linear map from `in_dim` to `out_dim` numbers.
pub open spec fn dense_maps(d: DenseView, in_dim: usize, out_dim: usize) -> bool {
    &&& d.weight.shape == seq![out_dim, in_dim]
    &&& d.bias matches Some(b) && b.shape == seq![out_dim]
}

/// Whether there is a reason to refuse a linear layer with the parameters at `w` by `e`: the
/// store refused.
pub open spec fn dense_refused(
    e: ModelError,
    in_dim: usize,
    out_dim: usize,
    w: WeightsView,
) -> bool {
    e matches ModelError::Tensor(t) && linear_outcome(Err(t), in_dim, out_dim, w)
}

/// Whether the parameters are those of some linear map.
pub open spec fn dense_shaped(d: DenseView) -> bool {
    d.weight.rank() == 2 && dense_maps(d, d.weight.shape[1], d.weight.shape[0])
}

/// The shape of the image of `x`.
pub open spec fn dense_shape(d: DenseView, x: ArrayView) -> Seq<usize> {
    x.shape.update(x.rank() - 1, d.weight.shape[0])
}

/// The reason to refuse to apply a linear layer to `x`.
pub open spec fn dense_why(d: DenseView, x: ArrayView) -> Option<ModelError> {
    if 2 <= x.rank() <= 4 {
        unless_addressable(dense_shape(d, x))
    } else {
        None
    }
}

/// The image of the rows of `x`: entry `o` is the sum of the products of the row with
/// row `o` of the weight, plus entry `o` of the bias. Where nothing is to be added up, the
/// lengths of the rows are not compared.
pub open spec fn dense_of(d: DenseView, x: ArrayView) -> Option<ArrayView> {
    let shape = dense_shape(d, x);
    let last = x.rank() - 1;
    let inner = x.shape[last] as nat;
    let bias = d.bias->Some_0;
    if 2 <= x.rank() <= 4 && addressable(shape) && (numel(shape) == 0 || (x.kind == bias.kind && (
    inner == 0 || (inner == d.weight.shape[1] && x.kind == d.weight.kind)))) {
        Some(
            tabulate(
                shape,
                x.kind,
                x.cpu,
                |i: Seq<int>|
                    Scalar::Add(
                        Box::new(
                            Scalar::Dot(
                                Seq::new(inner, |c: int| x.at(i.update(last, c))),
                                Seq::new(inner, |c: int| d.weight.at(seq![i[last], c])),
                            ),
                        ),
                        Box::new(bias.at(seq![i[last]])),
                    ),
            ),
        )
    } else {
        None
    }
}

/// Whether the application of a linear layer cannot fail for reasons of its own.
pub open spec fn dense_sure(d: DenseView, x: ArrayView) -> bool {
    x.cpu && d.weight.cpu && d.bias->Some_0.cpu && x.kind.multiplies() && x.rank() <= 3
}

/// Whether it is a table of `size` rows of `width` numbers.
pub open spec fn lookup_in(t: LookupView, size: usize, width: usize) -> bool {
    t.table.shape == seq![size, width] && t.width == width
}

/// Whether it is a table of rows of the length that is handed out.
pub open spec fn lookup_shaped(t: LookupView) -> bool {
    t.table.rank() == 2 && t.table.shape[1] == t.width
}

/// Whether there is a reason to refuse a lookup table at `w` by `e`: the store refused.
pub open spec fn lookup_refused(e: ModelError, size: usize, width: usize, w: WeightsView) -> bool {
    e matches ModelError::Tensor(t) && embedding_outcome(Err(t), size, width, w)
}

/// Whether an integer in `ids` lies outside a table of `size` rows.
pub open spec fn strays(ids: ArrayView, size: usize) -> bool {
    exists|i: Seq<int>| #[trigger]
        in_bounds(ids.shape, i) && (ids.at(i) matches Scalar::Index(v) && !(0 <= v < size))
}

/// The reason to refuse to look up `ids`: there would be too many numbers, they are no
/// integers, or the table is empty and there is something to look up, or it cannot be used.
pub open spec fn lookup_why(t: LookupView, ids: ArrayView) -> Option<ModelError> {
    if !addressable(ids.shape.push(t.width)) {
        Some(ModelError::TooLarge)
    } else if !ids.kind.is_integer() {
        Some(ModelError::Kind)
    } else if t.table.count() > 0 {
        None
    } else if ids.count() > 0 {
        Some(ModelError::EmptyArray)
    } else if ids.cpu != t.table.cpu {
        Some(ModelError::Place)
    } else if ids.cpu && !t.packed {
        Some(ModelError::Scattered)
    } else {
        None
    }
}

/// For each integer in `ids` the row of the table that it selects. On the CPU the table must be
/// packed.
pub open spec fn lookup_of(t: LookupView, ids: ArrayView) -> Option<ArrayView> {
    let table = t.table;
    let shape = ids.shape.push(t.width);
    if lookup_why(t, ids) is None && ids.cpu == table.cpu && (ids.cpu ==> t.packed && !strays(
        ids,
        table.shape[0],
    )) {
        Some(
            tabulate(
                shape,
                table.kind,
                table.cpu,
                |i: Seq<int>|
                    Scalar::Entry(
                        Seq::new(table.shape[0] as nat, |v: int| table.at(seq![v, i.last()])),
                        Box::new(ids.at(i.drop_last())),
                    ),
            ),
        )
    } else {
        None
    }
}

/// Whether the lookup cannot fail: all is on the CPU, the table is packed, and each of
/// the integers selects a row.
pub open spec fn lookup_sure(t: LookupView, ids: ArrayView) -> bool {
    &&& t.packed && t.table.cpu && ids.cpu
    &&& ids.kind == ElementKind::U8 || ids.kind == ElementKind::U32 || ids.kind == ElementKind::I64
    &&& forall|i: Seq<int>| #[trigger]
        in_bounds(ids.shape, i) ==> (ids.at(i) matches Scalar::Index(v) && 0 <= v
            < t.table.shape[0])
}

/// Whether a normalization layer is for rows of `size` numbers.
pub open spec fn norm_for(n: NormView, size: usize) -> bool {
    &&& n.weight.shape == seq![size]
    &&& n.bias matches Some(b) && b.shape == seq![size]
    &&& n.remove_mean
}

/// Whether there is a reason to refuse a normalization with the parameters at `w` by `e`: the
/// store refused.
pub open spec fn norm_refused(e: ModelError, size: usize, eps: u64, w: WeightsView) -> bool {
    e matches ModelError::Tensor(t) && layer_norm_outcome(Err(t), size, eps, w)
}

/// Whether a normalization layer is for rows of some length.
pub open spec fn norm_vectors(n: NormView) -> bool {
    n.weight.rank() == 1 && norm_for(n, n.weight.shape[0])
}

/// Whether a normalization layer is for rows of some length, and not for empty ones.
pub open spec fn norm_shaped(n: NormView) -> bool {
    norm_vectors(n) && n.weight.shape[0] > 0
}

/// Whether rows of the kind of `x` can be normalized on the CPU where they are packed: all is
/// of one kind short of double precision.
pub open spec fn norm_kinds(n: NormView, x: ArrayView) -> bool {
    &&& x.kind == n.weight.kind && x.kind == n.bias->Some_0.kind
    &&& x.kind.is_float() && x.kind != ElementKind::F64
}

/// The shape of the normalized rows of `x`. Where the rows are not packed, rows and parameters
/// are repeated to their common length.
pub open spec fn norm_shape(n: NormView, x: ArrayView, packed: bool) -> Option<Seq<usize>> {
    if x.rank() == 0 {
        None
    } else if packed {
        if x.shape.last() == n.weight.shape[0] {
            Some(x.shape)
        } else {
            None
        }
    } else {
        common_shape(x.shape, n.weight.shape)
    }
}

/// The reason to refuse to normalize the rows of `x`, which are `packed` or not.
pub open spec fn norm_why(n: NormView, x: ArrayView, packed: bool) -> Option<ModelError> {
    if x.rank() == 0 {
        Some(ModelError::Rank)
    } else {
        match norm_shape(n, x, packed) {
            None => Some(ModelError::Width),
            Some(shape) => if !packed && !addressable(shape) {
                Some(ModelError::TooLarge)
            } else if x.count() > 0 {
                unless_float(x)
            } else if !packed {
                None
            } else if x.cpu != n.weight.cpu || x.cpu != n.bias->Some_0.cpu {
                Some(ModelError::Place)
            } else if x.cpu && !norm_kinds(n, x) {
                Some(ModelError::Kind)
            } else if x.cpu && !(n.weight_packed && n.bias_packed) {
                Some(ModelError::Scattered)
            } else {
                None
            },
        }
    }
}

/// Whether rows and parameters go together: all is in the same place and of one kind, which on
/// the CPU is short of double precision where the rows are packed, as the parameters then must
/// be. Where there is nothing to normalize and the rows are not packed, all goes together.
pub open spec fn norm_meets(n: NormView, x: ArrayView, packed: bool) -> bool {
    let bias = n.bias->Some_0;
    if x.count() == 0 && !packed {
        true
    } else {
        &&& x.cpu == n.weight.cpu && x.cpu == bias.cpu
        &&& x.count() > 0 ==> x.kind == n.weight.kind && x.kind == bias.kind
        &&& x.cpu && packed ==> norm_kinds(n, x) && n.weight_packed && n.bias_packed
    }
}

/// Position `c` along an axis of size `size`, which is repeated where it is one.
pub open spec fn repeated(size: usize, c: int) -> int {
    if size == 1 {
        0
    } else {
        c
    }
}

/// The rows of `x` along the last axis, which are `packed` or not, normalized.
pub open spec fn norm_of(n: NormView, x: ArrayView, packed: bool) -> Option<ArrayView> {
    let last = x.rank() - 1;
    let (width, size) = (x.shape[last], n.weight.shape[0]);
    match norm_shape(n, x, packed) {
        None => None,
        Some(shape) => if norm_why(n, x, packed) is None && norm_meets(n, x, packed) {
            Some(
                tabulate(
                    shape,
                    x.kind,
                    x.cpu,
                    |i: Seq<int>|
                        Scalar::Normalized {
                            row: Seq::new(width as nat, |c: int| x.at(i.update(last, c))),
                            index: repeated(width, i[last]),
                            gain: Box::new(n.weight.at(seq![repeated(size, i[last])])),
                            bias: Box::new(n.bias->Some_0.at(seq![repeated(size, i[last])])),
                            eps: n.eps,
                        },
                ),
            )
        } else {
            None
        },
    }
}

/// Whether the normalization of `x` cannot fail: all is on the CPU and of one kind short
/// of double precision, the parameters are packed, and there is something to normalize.
pub open spec fn norm_sure(n: NormView, x: ArrayView) -> bool {
    let bias = n.bias->Some_0;
    &&& n.weight_packed && n.bias_packed
    &&& n.weight.cpu && bias.cpu && x.cpu
    &&& norm_kinds(n, x)
    &&& x.count() > 0
}

/// A linear layer with bias.
#[derive(Debug)]
pub struct Dense {
    inner: candle_nn::Linear,
}

impl View for Dense {
    type V = DenseView;

    closed spec fn view(&self) -> DenseView {
        linear_content(self.inner)
    }
}

impl Clone for Dense {
    fn clone(&self) -> (r: Self)
        ensures
            r == *self,
    {
        Dense { inner: self.inner.clone() }
    }
}

impl Dense {
    /// Whether the layer has the parameters at `w`.
    pub closed spec fn stored(&self, in_dim: usize, out_dim: usize, w: WeightsView) -> bool {
        linear_outcome(Ok(self.inner), in_dim, out_dim, w)
    }

    /// What has the parameters at `w` is what the tensor library makes of them.
    pub(crate) proof fn lemma_kept(&self, in_dim: usize, out_dim: usize, w: WeightsView)
        requires
            self.stored(in_dim, out_dim, w),
        ensures
            exists|p: candle_nn::Linear|
                #[trigger] linear_outcome(Ok(p), in_dim, out_dim, w) && self@ == linear_content(p),
    {
    }

    /// The linear layer with the parameters at `w`, which is asked for one from `in_dim` to
    /// `out_dim` numbers.
    pub fn new(in_dim: usize, out_dim: usize, w: &Weights<'_>) -> (r: Result<Dense, ModelError>)
        ensures
            match r {
                Ok(d) => d.stored(in_dim, out_dim, w@) && d@.bias is Some,
                Err(e) => dense_refused(e, in_dim, out_dim, w@),
            },
            r matches Ok(d) ==> exists|l: candle_nn::Linear| #[trigger]
                linear_outcome(Ok(l), in_dim, out_dim, w@) && d@ == linear_content(l),
    {
        match linear_make(in_dim, out_dim, w) {
            Err(error) => Err(ModelError::Tensor(error)),
            Ok(inner) => Ok(Dense::from_linear(inner)),
        }
    }

    /// The linear layer `inner`.
    pub fn from_linear(inner: candle_nn::Linear) -> (r: Dense)
        ensures
            r@ == linear_content(inner),
            forall|i: usize, o: usize, w: WeightsView| #[trigger]
                r.stored(i, o, w) == linear_outcome(Ok(inner), i, o, w),
    {
        Dense { inner }
    }

    /// Whether the parameters are those of some linear map.
    pub fn is_shaped(&self) -> (r: bool)
        ensures
            r == dense_shaped(self@),
    {
        let weight = Array::from_tensor(linear_weight(&self.inner)).dims();
        if weight.len() != 2 {
            return false;
        }
        match linear_bias(&self.inner) {
            None => false,
            Some(bias) => {
                let bias = Array::from_tensor(bias).dims();
                proof {
                    assert(weight@ =~= seq![weight@[0], weight@[1]]);
                    if bias@.len() == 1 && bias@[0] == weight@[0] {
                        assert(bias@ =~= seq![weight@[0]]);
                    }
                }
                bias.len() == 1 && bias[0] == weight[0]
            },
        }
    }

    /// The image of the rows of `x`.
    pub fn forward(&self, x: &Array) -> (r: Result<Array, ModelError>)
        requires
            dense_shaped(self@),
        ensures
            yields(r, dense_of(self@, x@), dense_sure(self@, x@)),
            refuses(r, dense_why(self@, x@)),
            r matches Ok(y) ==> y.packed(),
    {
        let mut shape = x.dims();
        let rank: usize = shape.len();
        if 2 <= rank && rank <= 4 {
            let weight = Array::from_tensor(linear_weight(&self.inner)).dims();
            shape.set(rank - 1, weight[0]);
            if !fits(&shape) {
                return Err(ModelError::TooLarge);
            }
        }
        wrap(linear_forward(&self.inner, x.tensor()))
    }
}

/// A lookup table.
#[derive(Debug)]
pub struct Lookup {
    inner: candle_nn::Embedding,
}

impl View for Lookup {
    type V = LookupView;

    closed spec fn view(&self) -> LookupView {
        embedding_content(self.inner)
    }
}

impl Clone for Lookup {
    fn clone(&self) -> (r: Self)
        ensures
            r == *self,
    {
        Lookup { inner: self.inner.clone() }
    }
}

impl Lookup {
    /// Whether the table is the one at `w`.
    pub closed spec fn stored(&self, size: usize, width: usize, w: WeightsView) -> bool {
        embedding_outcome(Ok(self.inner), size, width, w)
    }

    /// What has the parameters at `w` is what the tensor library makes of them.
    pub(crate) proof fn lemma_kept(&self, size: usize, width: usize, w: WeightsView)
        requires
            self.stored(size, width, w),
        ensures
            exists|p: candle_nn::Embedding|
                #[trigger] embedding_outcome(Ok(p), size, width, w) && self@ == embedding_content(
                    p,
                ),
    {
    }

    /// The lookup in the table at `w`, which is asked for one of `size` rows of `width`
    /// numbers.
    pub fn new(size: usize, width: usize, w: &Weights<'_>) -> (r: Result<Lookup, ModelError>)
        ensures
            match r {
                Ok(t) => t.stored(size, width, w@) && t@.width == width,
                Err(e) => lookup_refused(e, size, width, w@),
            },
            r matches Ok(t) ==> exists|e: candle_nn::Embedding| #[trigger]
                embedding_outcome(Ok(e), size, width, w@) && t@ == embedding_content(e),
    {
        match embedding_make(size, width, w) {
            Err(error) => Err(ModelError::Tensor(error)),
            Ok(inner) => Ok(Lookup::from_embedding(inner)),
        }
    }

    /// The lookup table `inner`.
    pub fn from_embedding(inner: candle_nn::Embedding) -> (r: Lookup)
        ensures
            r@ == embedding_content(inner),
            forall|s: usize, d: usize, w: WeightsView| #[trigger]
                r.stored(s, d, w) == embedding_outcome(Ok(inner), s, d, w),
    {
        Lookup { inner }
    }

    /// Whether it is a table of rows of the length that is handed out.
    pub fn is_shaped(&self) -> (r: bool)
        ensures
            r == lookup_shaped(self@),
    {
        let table = Array::from_tensor(embedding_table(&self.inner)).dims();
        table.len() == 2 && table[1] == embedding_width(&self.inner)
    }

    /// The length of the rows.
    pub fn width(&self) -> (r: usize)
        ensures
            r == self@.width,
    {
        embedding_width(&self.inner)
    }

    /// For each integer in `ids` the row that it selects.
    pub fn forward(&self, ids: &Array) -> (r: Result<Array, ModelError>)
        requires
            lookup_shaped(self@),
        ensures
            yields(r, lookup_of(self@, ids@), lookup_sure(self@, ids@)),
            refuses(r, lookup_why(self@, ids@)),
            r matches Ok(x) ==> x.packed(),
    {
        let mut shape = ids.dims();
        shape.push(embedding_width(&self.inner));
        if !fits(&shape) {
            return Err(ModelError::TooLarge);
        }
        if !ids.is_integer() {
            return Err(ModelError::Kind);
        }
        let table = Array::from_tensor(embedding_table(&self.inner));
        if table.is_vacant() {
            if !ids.is_vacant() {
                return Err(ModelError::EmptyArray);
            }
            if ids.on_cpu() != table.on_cpu() {
                return Err(ModelError::Place);
            }
            if ids.on_cpu() && !table.is_packed() {
                return Err(ModelError::Scattered);
            }
            proof {
                assert(shape@.drop_last() =~= ids@.shape);
                assert(0 * (self@.width as nat) == 0);
                lemma_no_position(ids@.shape);
                lemma_no_position(shape@);
                assert(reshape_of(table@, shape@)->Some_0.elems =~= lookup_of(
                    self@,
                    ids@,
                )->Some_0.elems);
            }
            return table.reshape(&shape);
        }
        wrap(embedding_forward(&self.inner, ids.tensor()))
    }
}

/// A normalization of rows.
#[derive(Debug)]
pub struct Norm {
    inner: candle_nn::LayerNorm,
}

impl View for Norm {
    type V = NormView;

    closed spec fn view(&self) -> NormView {
        layer_norm_content(self.inner)
    }
}

impl Clone for Norm {
    fn clone(&self) -> (r: Self)
        ensures
            r == *self,
    {
        Norm { inner: self.inner.clone() }
    }
}

impl Norm {
    /// Whether the layer has the parameters at `w`.
    pub closed spec fn stored(&self, size: usize, eps: u64, w: WeightsView) -> bool {
        layer_norm_outcome(Ok(self.inner), size, eps, w)
    }

    /// What has the parameters at `w` is what the tensor library makes of them.
    pub(crate) proof fn lemma_kept(&self, size: usize, eps: u64, w: WeightsView)
        requires
            self.stored(size, eps, w),
        ensures
            exists|p: candle_nn::LayerNorm|
                #[trigger] layer_norm_outcome(Ok(p), size, eps, w) && self@ == layer_norm_content(
                    p,
                ),
    {
    }

    /// The normalization with the parameters at `w`, which is asked for one of rows of `size`
    /// numbers, and the double with bits `eps`.
    pub fn new(size: usize, eps: u64, w: &Weights<'_>) -> (r: Result<Norm, ModelError>)
        ensures
            match r {
                Ok(n) => n.stored(size, eps, w@) && n@.eps == eps && n@.remove_mean && n@.bias
                    is Some,
                Err(e) => norm_refused(e, size, eps, w@),
            },
            r matches Ok(n) ==> exists|l: candle_nn::LayerNorm| #[trigger]
                layer_norm_outcome(Ok(l), size, eps, w@) && n@ == layer_norm_content(l),
    {
        match layer_norm_make(size, eps, w) {
            Err(error) => Err(ModelError::Tensor(error)),
            Ok(inner) => Ok(Norm { inner }),
        }
    }

    /// Whether a layer that removes the mean is for rows of some length.
    pub fn is_shaped(&self) -> (r: bool)
        requires
            self@.remove_mean,
        ensures
            r == norm_vectors(self@),
    {
        let weight = Array::from_tensor(layer_norm_weight(&self.inner)).dims();
        if weight.len() != 1 {
            return false;
        }
        match layer_norm_bias(&self.inner) {
            None => false,
            Some(bias) => {
                let bias = Array::from_tensor(bias).dims();
                proof {
                    assert(weight@ =~= seq![weight@[0]]);
                    if bias@.len() == 1 && bias@[0] == weight@[0] {
                        assert(bias@ =~= seq![weight@[0]]);
                    }
                }
                bias.len() == 1 && bias[0] == weight[0]
            },
        }
    }

    /// The length of the rows that the layer is for.
    pub fn size(&self) -> (r: usize)
        requires
            norm_vectors(self@),
        ensures
            r == self@.weight.shape[0],
    {
        Array::from_tensor(layer_norm_weight(&self.inner)).dims()[0]
    }

    /// The bias.
    fn bias(&self) -> (r: Array)
        requires
            self@.bias is Some,
        ensures
            self@.bias == Some(r@),
            self@.bias_packed == r.packed(),
    {
        match layer_norm_bias(&self.inner) {
            Some(bias) => Array::from_tensor(bias),
            None => Array::from_tensor(layer_norm_weight(&self.inner)),
        }
    }

    /// The rows of `x`, normalized.
    pub fn forward(&self, x: &Array) -> (r: Result<Array, ModelError>)
        requires
            norm_shaped(self@),
        ensures
            yields(r, norm_of(self@, x@, x.packed()), norm_sure(self@, x@)),
            refuses(r, norm_why(self@, x@, x.packed())),
    {
        let d = x.dims();
        let rank: usize = d.len();
        if rank == 0 {
            return Err(ModelError::Rank);
        }
        let weight = Array::from_tensor(layer_norm_weight(&self.inner));
        let packed = x.is_packed();
        let shape: Vec<usize> = if packed {
            if d[rank - 1] != weight.dims()[0] {
                return Err(ModelError::Width);
            }
            d
        } else {
            match broadcast_dims(&d, &weight.dims()) {
                None => {
                    return Err(ModelError::Width);
                },
                Some(shape) => {
                    if !fits(&shape) {
                        return Err(ModelError::TooLarge);
                    }
                    shape
                },
            }
        };
        if x.is_vacant() {
            return self.forward_vacant(x, packed, &shape);
        }
        if !x.float_or_empty() {
            return Err(ModelError::Kind);
        }
        wrap(layer_norm_forward(&self.inner, x.tensor()))
    }

    /// What normalization makes of an array `x` without elements: another one, of shape
    /// `shape`, if the tensor library takes rows of the kind of `x`.
    fn forward_vacant(&self, x: &Array, packed: bool, shape: &Vec<usize>) -> (r: Result<
        Array,
        ModelError,
    >)
        requires
            norm_shaped(self@),
            x@.rank() > 0,
            x@.count() == 0,
            packed == x.packed(),
            norm_shape(self@, x@, packed) == Some(shape@),
            packed || addressable(shape@),
        ensures
            yields(r, norm_of(self@, x@, packed), false),
            refuses(r, norm_why(self@, x@, packed)),
    {
        if packed {
            let weight = Array::from_tensor(layer_norm_weight(&self.inner));
            let bias = self.bias();
            let cpu = x.on_cpu();
            if cpu != weight.on_cpu() || cpu != bias.on_cpu() {
                return Err(ModelError::Place);
            }
            if cpu {
                let kind = x.kind();
                let halves = match kind {
                    ElementKind::BF16 => true,
                    ElementKind::F16 => true,
                    ElementKind::F32 => true,
                    _ => false,
                };
                if !halves || kind != weight.kind() || kind != bias.kind() {
                    return Err(ModelError::Kind);
                }
                if !(weight.is_packed() && bias.is_packed()) {
                    return Err(ModelError::Scattered);
                }
            }
            let rank: usize = shape.len();
            proof {
                lemma_no_position(x@.shape);
                let y = narrow_of(x@, rank - 1, 0, shape@[rank - 1])->Some_0;
                assert(y.shape =~= x@.shape);
                assert(y.elems =~= norm_of(self@, x@, true)->Some_0.elems);
            }
            x.narrow(rank - 1, 0, shape[rank - 1])
        } else {
            proof {
                lemma_numel_axes(x@.shape);
                lemma_numel_axes(shape@);
                let d = choose|d: int| 0 <= d < x@.rank() && #[trigger] x@.shape[d] == 0;
                assert(aligned(x@.shape, x@.rank(), d) == 0);
                assert(shape@[d] == 0);
                lemma_no_position(shape@);
                let y = expand_of(x@, shape@)->Some_0;
                assert(y.elems =~= norm_of(self@, x@, false)->Some_0.elems);
            }
            x.expand(shape)
        }
    }
}

} // verus!
