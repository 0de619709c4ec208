//! A layer of the decoder: attention and a gated feed-forward network, each behind a
//! normalization and beside a residual connection.

use vstd::prelude::*;
use crate::array::{blames, first_why, unless_float, yields, Array};
use crate::attention::{
    attention_of, attention_refused, attention_sure, attention_why, cache_after, cache_sure,
    cache_why, content, Attention, AttentionView,
};
use crate::config::Config;
use crate::error::ModelError;
use crate::layers::{
    dense_maps, dense_of, dense_refused, dense_shape, dense_shaped, dense_sure, dense_why,
    layer_norm_content, layer_norm_outcome, linear_content, linear_outcome, norm_for, norm_of,
    norm_refused, norm_sure, norm_vectors, norm_why, Dense, DenseView, Norm, NormView, Weights,
    WeightsView,
};
use crate::view::{product_of, silu_of, sum_of, ArrayView};

verus! {

/// The parameters of a gated feed-forward network.
pub struct FeedForwardView {
    pub gate: DenseView,
    pub up: DenseView,
    pub down: DenseView,
}

impl FeedForwardView {
    /// Whether the network is for rows of `hidden` numbers.
    pub open spec fn is_for(self, hidden: usize) -> bool {
        let inner = self.gate.weight.shape[0];
        &&& dense_maps(self.gate, hidden, inner)
        &&& dense_maps(self.up, hidden, inner)
        &&& dense_maps(self.down, inner, hidden)
    }

    /// The length of the rows that the network is for.
    pub open spec fn hidden(self) -> usize {
        self.gate.weight.shape[1]
    }

    /// Whether the parameters are those of linear maps.
    pub open spec fn shaped(self) -> bool {
        dense_shaped(self.gate) && dense_shaped(self.up) && dense_shaped(self.down)
    }
}

/// What the network makes of the rows of `x`: the sigmoid linear units of one image
/// times another image, mapped back.
pub open spec fn feed_forward_of(f: FeedForwardView, x: ArrayView) -> Option<ArrayView> {
    match (dense_of(f.gate, x), dense_of(f.up, x)) {
        (Some(gate), Some(up)) => match silu_of(gate) {
            None => None,
            Some(gate) => match product_of(gate, up) {
                None => None,
                Some(y) => dense_of(f.down, y),
            },
        },
        _ => None,
    }
}

/// The reason to refuse to apply the network to the rows of `x`.
pub open spec fn feed_forward_why(f: FeedForwardView, x: ArrayView) -> Option<ModelError> {
    first_why(
        dense_why(f.gate, x),
        dense_of(f.gate, x),
        |gate: ArrayView|
            first_why(
                dense_why(f.up, x),
                dense_of(f.up, x),
                |up: ArrayView|
                    first_why(
                        unless_float(gate),
                        silu_of(gate),
                        |gate: ArrayView|
                            first_why(
                                unless_float(gate),
                                product_of(gate, up),
                                |y: ArrayView| dense_why(f.down, y),
                            ),
                    ),
            ),
    )
}

/// Whether the network cannot fail on operands that go together: all is on the CPU, of a
/// kind that can be multiplied there.
pub open spec fn feed_forward_sure(f: FeedForwardView, x: ArrayView) -> bool {
    dense_sure(f.gate, x) && dense_sure(f.up, x) && dense_sure(f.down, x)
}

/// The parameters and the cache of a layer.
pub struct LayerView {
    pub self_attn: AttentionView,
    pub mlp: FeedForwardView,
    pub input_layernorm: NormView,
    pub post_attention_layernorm: NormView,
}

impl LayerView {
    /// Whether the layer is for rows of `hidden` numbers.
    pub open spec fn is_for(self, hidden: usize) -> bool {
        &&& self.self_attn.consistent()
        &&& self.self_attn.hidden == hidden
        &&& self.mlp.is_for(hidden)
        &&& norm_for(self.input_layernorm, hidden)
        &&& norm_for(self.post_attention_layernorm, hidden)
    }

    /// Whether the layer is for rows of the width of its attention, these are not empty, and
    /// there is a key head.
    pub open spec fn applies(self) -> bool {
        &&& self.is_for(self.self_attn.hidden)
        &&& self.self_attn.hidden > 0
        &&& self.self_attn.kv_heads > 0
    }

    /// Whether the parameters are those of linear maps and normalizations.
    pub open spec fn shaped(self) -> bool {
        &&& self.self_attn.shaped()
        &&& self.mlp.shaped()
        &&& norm_vectors(self.input_layernorm)
        &&& norm_vectors(self.post_attention_layernorm)
    }

    /// Whether rows are not empty and there is a key head.
    pub open spec fn proper(self) -> bool {
        &&& self.input_layernorm.weight.shape[0] > 0
        &&& self.post_attention_layernorm.weight.shape[0] > 0
        &&& self.self_attn.kv_heads > 0
    }

    /// The same layer with another cache.
    pub open spec fn with_cache(self, cache: Option<(ArrayView, ArrayView)>) -> LayerView {
        LayerView { self_attn: self.self_attn.with_cache(cache), ..self }
    }
}

/// The cache of the layer after the rows of `x`, which are `packed` or not, were seen.
#[verifier::opaque]
pub open spec fn layer_cache_after(
    l: LayerView,
    x: ArrayView,
    packed: bool,
    pos: ArrayView,
) -> Option<(ArrayView, ArrayView)> {
    match norm_of(l.input_layernorm, x, packed) {
        None => None,
        Some(y) => cache_after(l.self_attn, y, pos),
    }
}

/// The rows of `x` with what attention makes of them added.
pub open spec fn attended_rows_of(
    l: LayerView,
    x: ArrayView,
    packed: bool,
    pos: ArrayView,
    mask: Option<ArrayView>,
) -> Option<ArrayView> {
    match norm_of(l.input_layernorm, x, packed) {
        None => None,
        Some(y) => match attention_of(l.self_attn, y, pos, mask) {
            None => None,
            Some(y) => sum_of(y, x),
        },
    }
}

/// The rows of `x` with what the feed-forward network makes of them added.
pub open spec fn fed_rows_of(l: LayerView, x: ArrayView) -> Option<ArrayView> {
    match norm_of(l.post_attention_layernorm, x, true) {
        None => None,
        Some(y) => match feed_forward_of(l.mlp, y) {
            None => None,
            Some(y) => sum_of(y, x),
        },
    }
}

/// What the layer makes of the rows of `x`, which are `packed` or not.
#[verifier::opaque]
pub open spec fn layer_of(
    l: LayerView,
    x: ArrayView,
    packed: bool,
    pos: ArrayView,
    mask: Option<ArrayView>,
) -> Option<ArrayView> {
    match attended_rows_of(l, x, packed, pos, mask) {
        None => None,
        Some(y) => fed_rows_of(l, y),
    }
}

/// Whether the layer cannot fail on operands that go together. `cached_packed` tells whether
/// what its cache holds is packed.
#[verifier::opaque]
pub open spec fn layer_sure(
    l: LayerView,
    x: ArrayView,
    packed: bool,
    pos: ArrayView,
    mask: Option<ArrayView>,
    cached_packed: bool,
) -> bool {
    &&& norm_sure(l.input_layernorm, x)
    &&& norm_sure(l.post_attention_layernorm, x)
    &&& feed_forward_sure(l.mlp, x)
    &&& norm_of(l.input_layernorm, x, packed) matches Some(y) ==> attention_sure(
        l.self_attn,
        y,
        pos,
        mask,
        cached_packed,
    )
}

/// A layer that is sure to succeed is so with a packed cache.
pub(crate) proof fn lemma_sure_packed(
    l: LayerView,
    x: ArrayView,
    packed: bool,
    pos: ArrayView,
    mask: Option<ArrayView>,
    cached_packed: bool,
)
    requires
        layer_sure(l, x, packed, pos, mask, cached_packed),
    ensures
        layer_sure(l, x, packed, pos, mask, true),
{
    reveal(layer_sure);
}

/// Whether the keys and values of the rows of `x` cannot fail to be added to the cache if they
/// go together.
#[verifier::opaque]
pub open spec fn layer_cache_sure(
    l: LayerView,
    x: ArrayView,
    packed: bool,
    pos: ArrayView,
) -> bool {
    &&& norm_sure(l.input_layernorm, x)
    &&& norm_of(l.input_layernorm, x, packed) matches Some(y) ==> cache_sure(l.self_attn, y, pos)
}

/// The reason to refuse to add the keys and values of the rows of `x` to the cache.
pub open spec fn layer_cache_why(
    l: LayerView,
    x: ArrayView,
    packed: bool,
    pos: ArrayView,
) -> Option<ModelError> {
    first_why(
        norm_why(l.input_layernorm, x, packed),
        norm_of(l.input_layernorm, x, packed),
        |y: ArrayView| cache_why(l.self_attn, y, pos),
    )
}

/// The reason to refuse to add what attention makes of the rows of `x` to them.
pub open spec fn attended_rows_why(
    l: LayerView,
    x: ArrayView,
    packed: bool,
    pos: ArrayView,
    mask: Option<ArrayView>,
) -> Option<ModelError> {
    first_why(
        norm_why(l.input_layernorm, x, packed),
        norm_of(l.input_layernorm, x, packed),
        |y: ArrayView|
            first_why(
                attention_why(l.self_attn, y, pos, mask),
                attention_of(l.self_attn, y, pos, mask),
                |y: ArrayView| unless_float(y),
            ),
    )
}

/// The reason to refuse to add what the feed-forward network makes of the rows of `x` to them.
pub open spec fn fed_rows_why(l: LayerView, x: ArrayView) -> Option<ModelError> {
    first_why(
        norm_why(l.post_attention_layernorm, x, true),
        norm_of(l.post_attention_layernorm, x, true),
        |y: ArrayView|
            first_why(
                feed_forward_why(l.mlp, y),
                feed_forward_of(l.mlp, y),
                |y: ArrayView| unless_float(y),
            ),
    )
}

/// The reason to refuse to apply the layer to the rows of `x`.
#[verifier::opaque]
pub open spec fn layer_why(
    l: LayerView,
    x: ArrayView,
    packed: bool,
    pos: ArrayView,
    mask: Option<ArrayView>,
) -> Option<ModelError> {
    first_why(
        attended_rows_why(l, x, packed, pos, mask),
        attended_rows_of(l, x, packed, pos, mask),
        |y: ArrayView| fed_rows_why(l, y),
    )
}

/// Whether there is a reason to refuse a network with the parameters at `w` by `e`: one of
/// its maps is refused.
pub open spec fn feed_forward_refused(e: ModelError, cfg: Config, w: WeightsView) -> bool {
    let (hidden, inner) = (cfg.hidden_size, cfg.intermediate_size);
    ||| dense_refused(e, hidden, inner, w.below("gate"@))
    ||| dense_refused(e, hidden, inner, w.below("up"@))
    ||| dense_refused(e, inner, hidden, w.below("down"@))
}

/// Whether there is a reason to refuse a layer with the parameters at `w` by `e`: one of its
/// parts is refused. Where the attention is too wide, that comes first.
pub open spec fn layer_refused(e: ModelError, cfg: Config, w: WeightsView) -> bool {
    let (hidden, eps) = (cfg.hidden_size, cfg.rms_norm_eps);
    if cfg.qkv_width() > usize::MAX {
        e == ModelError::TooLarge
    } else {
        ||| attention_refused(e, cfg, w.below("self_attn"@))
        ||| feed_forward_refused(e, cfg, w.below("mlp"@))
        ||| norm_refused(e, hidden, eps, w.below("input_layernorm"@))
        ||| norm_refused(e, hidden, eps, w.below("post_attention_layernorm"@))
    }
}

/// Whether the parameters of the layer are those that the tensor library makes of what is stored
/// at `w`.
pub open spec fn layer_kept_at(l: LayerView, cfg: Config, w: WeightsView) -> bool {
    &&& exists|p: candle_nn::Linear|
        #[trigger] linear_outcome(
            Ok(p),
            cfg.hidden_size,
            (cfg.hidden_size + 2 * (cfg.num_key_value_heads * cfg.head_dim)) as usize,
            w.below("self_attn"@).below("qkv"@),
        ) && l.self_attn.qkv == linear_content(p)
    &&& exists|p: candle_nn::Linear|
        #[trigger] linear_outcome(
            Ok(p),
            cfg.hidden_size,
            cfg.hidden_size,
            w.below("self_attn"@).below("o"@),
        ) && l.self_attn.o == linear_content(p)
    &&& exists|p: candle_nn::Linear|
        #[trigger] linear_outcome(
            Ok(p),
            cfg.hidden_size,
            cfg.intermediate_size,
            w.below("mlp"@).below("gate"@),
        ) && l.mlp.gate == linear_content(p)
    &&& exists|p: candle_nn::Linear|
        #[trigger] linear_outcome(
            Ok(p),
            cfg.hidden_size,
            cfg.intermediate_size,
            w.below("mlp"@).below("up"@),
        ) && l.mlp.up == linear_content(p)
    &&& exists|p: candle_nn::Linear|
        #[trigger] linear_outcome(
            Ok(p),
            cfg.intermediate_size,
            cfg.hidden_size,
            w.below("mlp"@).below("down"@),
        ) && l.mlp.down == linear_content(p)
    &&& exists|p: candle_nn::LayerNorm|
        #[trigger] layer_norm_outcome(
            Ok(p),
            cfg.hidden_size,
            cfg.rms_norm_eps,
            w.below("input_layernorm"@),
        ) && l.input_layernorm == layer_norm_content(p)
    &&& exists|p: candle_nn::LayerNorm|
        #[trigger] layer_norm_outcome(
            Ok(p),
            cfg.hidden_size,
            cfg.rms_norm_eps,
            w.below("post_attention_layernorm"@),
        ) && l.post_attention_layernorm == layer_norm_content(p)
}

/// A gated feed-forward network.
#[derive(Debug)]
pub struct FeedForward {
    gate: Dense,
    up: Dense,
    down: Dense,
}

impl View for FeedForward {
    type V = FeedForwardView;

    closed spec fn view(&self) -> FeedForwardView {
        FeedForwardView { gate: self.gate@, up: self.up@, down: self.down@ }
    }
}

impl Clone for FeedForward {
    fn clone(&self) -> (r: Self)
        ensures
            r == *self,
    {
        FeedForward { gate: self.gate.clone(), up: self.up.clone(), down: self.down.clone() }
    }
}

impl FeedForward {
    /// Whether the network has the parameters at `w`.
    pub closed spec fn stored(&self, cfg: Config, w: WeightsView) -> bool {
        &&& self.gate.stored(cfg.hidden_size, cfg.intermediate_size, w.below("gate"@))
        &&& self.up.stored(cfg.hidden_size, cfg.intermediate_size, w.below("up"@))
        &&& self.down.stored(cfg.intermediate_size, cfg.hidden_size, w.below("down"@))
    }

    /// The network with the parameters at `w`.
    pub fn new(w: &Weights<'_>, cfg: &Config) -> (r: Result<Self, ModelError>)
        ensures
            r matches Ok(f) ==> f.stored(*cfg, w@),
            r matches Ok(f) ==> exists|p: candle_nn::Linear|
                #[trigger] linear_outcome(
                    Ok(p),
                    cfg.hidden_size,
                    cfg.intermediate_size,
                    w@.below("gate"@),
                ) && f@.gate == linear_content(p),
            r matches Ok(f) ==> exists|p: candle_nn::Linear|
                #[trigger] linear_outcome(
                    Ok(p),
                    cfg.hidden_size,
                    cfg.intermediate_size,
                    w@.below("up"@),
                ) && f@.up == linear_content(p),
            r matches Ok(f) ==> exists|p: candle_nn::Linear|
                #[trigger] linear_outcome(
                    Ok(p),
                    cfg.intermediate_size,
                    cfg.hidden_size,
                    w@.below("down"@),
                ) && f@.down == linear_content(p),
            r matches Err(e) ==> feed_forward_refused(e, *cfg, w@),
    {
        let hidden_sz: usize = cfg.hidden_size;
        let intermediate_sz: usize = cfg.intermediate_size;
        let gate = Dense::new(hidden_sz, intermediate_sz, &w.below("gate"))?;
        let up = Dense::new(hidden_sz, intermediate_sz, &w.below("up"))?;
        let down = Dense::new(intermediate_sz, hidden_sz, &w.below("down"))?;
        proof {
            gate.lemma_kept(hidden_sz, intermediate_sz, w@.below("gate"@));
            up.lemma_kept(hidden_sz, intermediate_sz, w@.below("up"@));
            down.lemma_kept(intermediate_sz, hidden_sz, w@.below("down"@));
        }
        Ok(FeedForward { gate, up, down })
    }

    /// Whether the parameters are those of linear maps.
    pub fn is_shaped(&self) -> (r: bool)
        ensures
            r == self@.shaped(),
    {
        self.gate.is_shaped() && self.up.is_shaped() && self.down.is_shaped()
    }

    /// What the network makes of the rows of `xs`.
    pub fn forward(&self, xs: &Array) -> (r: Result<Array, ModelError>)
        requires
            self@.shaped(),
        ensures
            yields(r, feed_forward_of(self@, xs@), feed_forward_sure(self@, xs@)),
            blames(r, feed_forward_why(self@, xs@)),
            r matches Ok(y) ==> y.packed() && y@.shape == xs@.shape.update(
                xs@.rank() - 1,
                self@.down.weight.shape[0],
            ),
    {
        let xs_gate = self.gate.forward(xs)?;
        let xs_up = self.up.forward(xs)?;
        let ys = xs_gate.silu()?.times(&xs_up)?;
        proof {
            assert(dense_shape(self@.down, ys@) =~= xs@.shape.update(
                xs@.rank() - 1,
                self@.down.weight.shape[0],
            ));
        }
        self.down.forward(&ys)
    }
}

/// A layer of the decoder.
#[derive(Debug)]
pub struct DecoderLayer {
    self_attn: Attention,
    mlp: FeedForward,
    input_layernorm: Norm,
    post_attention_layernorm: Norm,
}

impl View for DecoderLayer {
    type V = LayerView;

    closed spec fn view(&self) -> LayerView {
        LayerView {
            self_attn: self.self_attn@,
            mlp: self.mlp@,
            input_layernorm: self.input_layernorm@,
            post_attention_layernorm: self.post_attention_layernorm@,
        }
    }
}

impl Clone for DecoderLayer {
    fn clone(&self) -> (r: Self)
        ensures
            r@ == self@,
            r.cached_packed() == self.cached_packed(),
            forall|c: Config, w: WeightsView| #[trigger] r.stored(c, w) == self.stored(c, w),
    {
        DecoderLayer {
            self_attn: self.self_attn.clone(),
            mlp: self.mlp.clone(),
            input_layernorm: self.input_layernorm.clone(),
            post_attention_layernorm: self.post_attention_layernorm.clone(),
        }
    }
}

impl DecoderLayer {
    /// Whether the layer has the parameters at `w`.
    pub closed spec fn stored(&self, cfg: Config, w: WeightsView) -> bool {
        let (hidden, eps) = (cfg.hidden_size, cfg.rms_norm_eps);
        &&& self.self_attn.stored(cfg, w.below("self_attn"@))
        &&& self.mlp.stored(cfg, w.below("mlp"@))
        &&& self.input_layernorm.stored(hidden, eps, w.below("input_layernorm"@))
        &&& self.post_attention_layernorm.stored(hidden, eps, w.below("post_attention_layernorm"@))
    }

    /// The layer with the parameters at `w` and an empty cache. `scale` holds the bits of
    /// the double that products of queries and keys are scaled by.
    pub fn new(w: &Weights<'_>, cfg: &Config, scale: u64) -> (r: Result<Self, ModelError>)
        ensures
            cfg.qkv_width() > usize::MAX <==> r == Err::<DecoderLayer, _>(ModelError::TooLarge),
            r matches Err(e) ==> layer_refused(e, *cfg, w@),
            r matches Ok(l) ==> {
                &&& l.stored(*cfg, w@)
                &&& l@.self_attn.hidden == cfg.hidden_size
                &&& l@.input_layernorm.remove_mean && l@.post_attention_layernorm.remove_mean
                &&& l@.self_attn.heads == cfg.num_attention_heads
                &&& l@.self_attn.kv_heads == cfg.num_key_value_heads
                &&& l@.self_attn.head_dim == cfg.head_dim
                &&& l@.self_attn.scale == scale
                &&& l@.self_attn.cache is None && l.cached_packed()
                &&& l@.input_layernorm.eps == cfg.rms_norm_eps
                &&& l@.post_attention_layernorm.eps == cfg.rms_norm_eps
            },
            r matches Ok(l) ==> exists|p: candle_nn::Linear|
                #[trigger] linear_outcome(
                    Ok(p),
                    cfg.hidden_size,
                    (cfg.hidden_size + 2 * (cfg.num_key_value_heads * cfg.head_dim)) as usize,
                    w@.below("self_attn"@).below("qkv"@),
                ) && l@.self_attn.qkv == linear_content(p),
            r matches Ok(l) ==> exists|p: candle_nn::Linear|
                #[trigger] linear_outcome(
                    Ok(p),
                    cfg.hidden_size,
                    cfg.hidden_size,
                    w@.below("self_attn"@).below("o"@),
                ) && l@.self_attn.o == linear_content(p),
            r matches Ok(l) ==> exists|p: candle_nn::Linear|
                #[trigger] linear_outcome(
                    Ok(p),
                    cfg.hidden_size,
                    cfg.intermediate_size,
                    w@.below("mlp"@).below("gate"@),
                ) && l@.mlp.gate == linear_content(p),
            r matches Ok(l) ==> exists|p: candle_nn::Linear|
                #[trigger] linear_outcome(
                    Ok(p),
                    cfg.hidden_size,
                    cfg.intermediate_size,
                    w@.below("mlp"@).below("up"@),
                ) && l@.mlp.up == linear_content(p),
            r matches Ok(l) ==> exists|p: candle_nn::Linear|
                #[trigger] linear_outcome(
                    Ok(p),
                    cfg.intermediate_size,
                    cfg.hidden_size,
                    w@.below("mlp"@).below("down"@),
                ) && l@.mlp.down == linear_content(p),
            r matches Ok(l) ==> exists|p: candle_nn::LayerNorm|
                #[trigger] layer_norm_outcome(
                    Ok(p),
                    cfg.hidden_size,
                    cfg.rms_norm_eps,
                    w@.below("input_layernorm"@),
                ) && l@.input_layernorm == layer_norm_content(p),
            r matches Ok(l) ==> exists|p: candle_nn::LayerNorm|
                #[trigger] layer_norm_outcome(
                    Ok(p),
                    cfg.hidden_size,
                    cfg.rms_norm_eps,
                    w@.below("post_attention_layernorm"@),
                ) && l@.post_attention_layernorm == layer_norm_content(p),
    {
        let self_attn = Attention::new(&w.below("self_attn"), cfg, scale)?;
        let mlp = FeedForward::new(&w.below("mlp"), cfg)?;
        let input_layernorm = Norm::new(
            cfg.hidden_size,
            cfg.rms_norm_eps,
            &w.below("input_layernorm"),
        )?;
        let post_attention_layernorm = Norm::new(
            cfg.hidden_size,
            cfg.rms_norm_eps,
            &w.below("post_attention_layernorm"),
        )?;
        Ok(DecoderLayer { self_attn, mlp, input_layernorm, post_attention_layernorm })
    }

    /// Whether the parameters of a layer whose normalizations remove the mean are those of
    /// linear maps and normalizations.
    pub fn is_shaped(&self) -> (r: bool)
        requires
            self@.input_layernorm.remove_mean,
            self@.post_attention_layernorm.remove_mean,
        ensures
            r == self@.shaped(),
    {
        self.self_attn.is_shaped() && self.mlp.is_shaped() && self.input_layernorm.is_shaped()
            && self.post_attention_layernorm.is_shaped()
    }

    /// Whether the rows that the layer takes are not empty.
    pub fn takes_rows(&self) -> (r: bool)
        requires
            self@.shaped(),
        ensures
            r == (self@.input_layernorm.weight.shape[0] > 0),
    {
        self.input_layernorm.size() > 0
    }

    /// Whether rows are not empty and there is a key head.
    pub fn is_proper(&self) -> (r: bool)
        requires
            self@.shaped(),
        ensures
            r == self@.proper(),
    {
        self.input_layernorm.size() > 0 && self.post_attention_layernorm.size() > 0
            && self.self_attn.key_heads() > 0
    }

    /// What the cache holds once the keys and values of the rows of `xs` are added to it.
    pub fn prepare(&self, xs: &Array, pos: &Array) -> (r: Result<(Array, Array), ModelError>)
        requires
            self@.shaped(),
            self@.input_layernorm.weight.shape[0] > 0,
        ensures
            blames(r, layer_cache_why(self@, xs@, xs.packed(), pos@)),
            match r {
                Ok((k, v)) => layer_cache_after(self@, xs@, xs.packed(), pos@) == Some((k@, v@)),
                Err(_) => layer_cache_after(self@, xs@, xs.packed(), pos@) is None
                    || !layer_cache_sure(self@, xs@, xs.packed(), pos@),
            },
    {
        proof {
            reveal(layer_cache_after);
            reveal(layer_cache_sure);
        }
        let ys = self.input_layernorm.forward(xs)?;
        let (_, k, v) = self.self_attn.prepare(&ys, pos)?;
        Ok((k, v))
    }

    /// What the layer makes of the rows of `xs`. The keys and values of the rows are
    /// added to the cache, and stay there even where a later step fails.
    pub fn forward(&mut self, xs: &Array, pos: &Array, attention_mask: Option<&Array>) -> (r: Result<
        Array,
        ModelError,
    >)
        requires
            old(self)@.shaped(),
            old(self)@.proper(),
        ensures
            ({
                let l = old(self)@;
                let mask = content(attention_mask);
                let after = layer_cache_after(l, xs@, xs.packed(), pos@);
                let sure = layer_sure(
                    l,
                    xs@,
                    xs.packed(),
                    pos@,
                    mask,
                    old(self).cached_packed(),
                );
                &&& blames(r, layer_why(l, xs@, xs.packed(), pos@, mask))
                &&& match r {
                    Ok(y) => {
                        &&& layer_of(l, xs@, xs.packed(), pos@, mask) == Some(y@)
                        &&& y@.shape == xs@.shape && y.packed()
                        &&& after is Some
                        &&& final(self)@ == l.with_cache(after)
                    },
                    Err(_) => {
                        &&& layer_of(l, xs@, xs.packed(), pos@, mask) is None || !sure
                        &&& final(self)@ == l || (after is Some && final(self)@ == l.with_cache(
                            after,
                        ))
                        &&& after is Some && layer_cache_sure(l, xs@, xs.packed(), pos@)
                            ==> final(self)@ == l.with_cache(after)
                    },
                }
            }),
            old(self).cached_packed() && xs@.rank() == 3 && xs@.shape[1] == 1 ==> final(
                self
            ).cached_packed(),
            forall|c: Config, w: WeightsView| #[trigger]
                final(self).stored(c, w) == old(self).stored(c, w),
    {
        proof {
            reveal(layer_cache_after);
            reveal(layer_of);
            reveal(layer_sure);
            reveal(layer_why);
            reveal(layer_cache_sure);
        }
        let ys = self.input_layernorm.forward(xs)?;
        let ys = self.self_attn.forward(&ys, pos, attention_mask)?;
        let ys = ys.plus(xs)?;
        let zs = self.post_attention_layernorm.forward(&ys)?;
        let zs = self.mlp.forward(&zs)?;
        zs.plus(&ys)
    }

    /// Whether what the cache holds is packed.
    pub closed spec fn cached_packed(&self) -> bool {
        self.self_attn.cached_packed()
    }

    /// Forgets the keys and values of the positions seen so far.
    pub fn clear_kv_cache(&mut self)
        ensures
            final(self)@ == old(self)@.with_cache(None),
            final(self).cached_packed(),
            forall|c: Config, w: WeightsView| #[trigger]
                final(self).stored(c, w) == old(self).stored(c, w),
    {
        self.self_attn.clear_kv_cache();
    }
}

} // verus!
