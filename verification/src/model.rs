//! The decoder-only model: an embedding of tokens, a stack of layers and a head that
//! scores the next token.

use vstd::prelude::*;
use candle_core::Device;
use crate::array::{blames, first_why, unless_addressable, Array};
use crate::attention::content;
use crate::config::Config;
use crate::decoder::{
    layer_cache_after, layer_cache_sure, layer_cache_why, layer_kept_at, layer_of, layer_refused,
    layer_sure, layer_why, lemma_sure_packed, DecoderLayer, LayerView,
};
use crate::error::ModelError;
use crate::heads::{causal_mask, mask_of};
use crate::layers::{
    dense_maps, dense_of, dense_refused, dense_shaped, dense_sure, dense_why, embedding_content,
    embedding_outcome, layer_norm_content, layer_norm_outcome, linear_content, linear_outcome,
    lookup_in, lookup_of, lookup_refused, lookup_shaped, lookup_sure, lookup_why, norm_for,
    norm_of, norm_refused, norm_sure, norm_vectors, norm_why, weights_device, Dense, DenseView,
    Lookup, LookupView, Norm, NormView, Weights, WeightsView,
};
use crate::names::{decimal_of, layer_name, layer_name_of};
use crate::rotary::{build_rotary_emb, rotary_table_of, table_refused};
use crate::view::{ArrayView, ElementKind};

verus! {

/// The parameters and the caches of a model.
pub struct ModelView {
    pub embed_tokens: LookupView,
    pub layers: Seq<LayerView>,
    pub norm: NormView,
    pub lm_head: DenseView,
    /// The table of rotations that generation goes by.
    pub pos_emb: ArrayView,
    /// Where the parameters are placed.
    pub device: Device,
}

impl ModelView {
    /// The width of the rows between the layers.
    pub open spec fn hidden(self) -> usize {
        self.embed_tokens.width
    }

    /// The number of tokens.
    pub open spec fn vocab(self) -> usize {
        self.embed_tokens.table.shape[0]
    }

    /// The kind of the elements of the table.
    pub open spec fn kind(self) -> ElementKind {
        self.embed_tokens.table.kind
    }

    /// Whether the parameters have sizes that go together.
    pub open spec fn consistent(self) -> bool {
        &&& lookup_in(self.embed_tokens, self.vocab(), self.hidden())
        &&& forall|i: int|
            0 <= i < self.layers.len() ==> (#[trigger] self.layers[i]).is_for(self.hidden())
        &&& norm_for(self.norm, self.hidden())
        &&& dense_maps(self.lm_head, self.hidden(), self.vocab())
    }

    /// Whether all normalizations remove the mean.
    pub open spec fn centers(self) -> bool {
        &&& self.norm.remove_mean
        &&& forall|i: int|
            0 <= i < self.layers.len() ==> (#[trigger] self.layers[i]).input_layernorm.remove_mean
                && self.layers[i].post_attention_layernorm.remove_mean
    }

    /// Whether the parameters are those of a table, linear maps and normalizations.
    pub open spec fn shaped(self) -> bool {
        &&& lookup_shaped(self.embed_tokens)
        &&& forall|i: int| 0 <= i < self.layers.len() ==> (#[trigger] self.layers[i]).shaped()
        &&& norm_vectors(self.norm)
        &&& dense_shaped(self.lm_head)
    }

    /// Whether rows are not empty and each layer has a key head.
    pub open spec fn proper(self) -> bool {
        &&& self.norm.weight.shape[0] > 0
        &&& forall|i: int| 0 <= i < self.layers.len() ==> (#[trigger] self.layers[i]).proper()
    }

    /// Whether there is a layer, and the first takes rows that are not empty.
    pub open spec fn begins(self) -> bool {
        self.layers.len() > 0 && self.layers[0].input_layernorm.weight.shape[0] > 0
    }

    /// The same model with empty caches.
    pub open spec fn cleared(self) -> ModelView {
        self.with_layers(self.layers.map_values(|l: LayerView| l.with_cache(None)))
    }

    /// The same model with other layers.
    pub open spec fn with_layers(self, layers: Seq<LayerView>) -> ModelView {
        ModelView { layers, ..self }
    }
}

/// The mask for `ids`, an array of sequences of tokens: none for a single token.
pub open spec fn mask_for(ids: ArrayView) -> Option<Option<ArrayView>> {
    if ids.shape[1] <= 1 {
        Some(None)
    } else {
        match mask_of(ids.shape[1], ids.cpu) {
            None => None,
            Some(m) => Some(Some(m)),
        }
    }
}

/// Whether `ids` are sequences of tokens for which there are a mask and rows in the table.
pub open spec fn embeds(m: ModelView, ids: ArrayView) -> bool {
    &&& ids.rank() == 2
    &&& mask_for(ids) is Some
    &&& lookup_of(m.embed_tokens, ids) is Some
}

/// The reason to refuse to look up the rows of `ids`.
pub open spec fn embed_why(m: ModelView, ids: ArrayView) -> Option<ModelError> {
    let n = ids.shape[1];
    if ids.rank() != 2 {
        Some(ModelError::Rank)
    } else if n > 1 && unless_addressable(seq![n, n]) is Some {
        unless_addressable(seq![n, n])
    } else {
        lookup_why(m.embed_tokens, ids)
    }
}

/// The reason to refuse the first steps of a pass.
pub open spec fn prepare_why(m: ModelView, ids: ArrayView, pos: ArrayView) -> Option<ModelError> {
    if embed_why(m, ids) is None && embeds(m, ids) && m.begins() {
        layer_cache_why(m.layers[0], lookup_of(m.embed_tokens, ids)->Some_0, true, pos)
    } else {
        embed_why(m, ids)
    }
}

/// What the first `n` of the layers make of the rows of `x`.
pub open spec fn stack_of(
    layers: Seq<LayerView>,
    n: nat,
    x: ArrayView,
    pos: ArrayView,
    mask: Option<ArrayView>,
) -> Option<ArrayView>
    decreases n,
{
    if n == 0 {
        Some(x)
    } else {
        match stack_of(layers, (n - 1) as nat, x, pos, mask) {
            None => None,
            Some(y) => layer_of(layers[n - 1], y, true, pos, mask),
        }
    }
}

/// The reason to refuse to apply the first `n` of the layers to the rows of `x`.
pub open spec fn stack_why(
    layers: Seq<LayerView>,
    n: nat,
    x: ArrayView,
    pos: ArrayView,
    mask: Option<ArrayView>,
) -> Option<ModelError>
    decreases n,
{
    if n == 0 {
        None
    } else {
        first_why(
            stack_why(layers, (n - 1) as nat, x, pos, mask),
            stack_of(layers, (n - 1) as nat, x, pos, mask),
            |y: ArrayView| layer_why(layers[n - 1], y, true, pos, mask),
        )
    }
}

/// The cache of layer `i` after the stack was applied to the rows of `x`.
pub open spec fn stack_cache_after(
    layers: Seq<LayerView>,
    i: int,
    x: ArrayView,
    pos: ArrayView,
    mask: Option<ArrayView>,
) -> Option<(ArrayView, ArrayView)> {
    match stack_of(layers, i as nat, x, pos, mask) {
        None => None,
        Some(y) => layer_cache_after(layers[i], y, true, pos),
    }
}

/// The layers after the stack was applied to the rows of `x`: each has the keys and
/// values of its rows in its cache.
pub open spec fn layers_after(
    layers: Seq<LayerView>,
    x: ArrayView,
    pos: ArrayView,
    mask: Option<ArrayView>,
) -> Seq<LayerView> {
    Seq::new(
        layers.len(),
        |i: int| layers[i].with_cache(stack_cache_after(layers, i, x, pos, mask)),
    )
}

/// Whether the layers before layer `k` are as they are after the stack was applied to the rows
/// of `x`, those behind it are as before, and layer `k` is one or the other.
pub open spec fn stopped_at(
    layers: Seq<LayerView>,
    during: Seq<LayerView>,
    k: int,
    x: ArrayView,
    pos: ArrayView,
    mask: Option<ArrayView>,
) -> bool {
    forall|i: int|
        0 <= i < layers.len() ==> (i >= k && #[trigger] during[i] == layers[i]) || (i <= k
            && stack_cache_after(layers, i, x, pos, mask) is Some && during[i]
            == layers[i].with_cache(stack_cache_after(layers, i, x, pos, mask)))
}

/// Whether the layers are as they are while the stack is applied to the rows of `x`: it has
/// stopped at one of them, or behind the last.
pub open spec fn layers_during(
    layers: Seq<LayerView>,
    during: Seq<LayerView>,
    x: ArrayView,
    pos: ArrayView,
    mask: Option<ArrayView>,
) -> bool {
    &&& during.len() == layers.len()
    &&& exists|k: int|
        0 <= k <= layers.len() && #[trigger] stopped_at(layers, during, k, x, pos, mask)
}

/// Whether the first `n` layers cannot fail on operands that go together.
pub open spec fn stack_sure(
    layers: Seq<LayerView>,
    n: nat,
    x: ArrayView,
    pos: ArrayView,
    mask: Option<ArrayView>,
    cached_packed: bool,
) -> bool {
    forall|i: int|
        0 <= i < n ==> (#[trigger] stack_of(layers, i as nat, x, pos, mask) matches Some(y)
            ==> layer_sure(layers[i], y, true, pos, mask, cached_packed))
}

/// Whether the keys and values of the rows that reach layer `i` are sure to be added to its
/// cache: the layers before it are sure to succeed, and the keys and values go with the cache.
pub open spec fn cache_owed(
    layers: Seq<LayerView>,
    i: int,
    x: ArrayView,
    pos: ArrayView,
    mask: Option<ArrayView>,
    cached_packed: bool,
) -> bool {
    &&& stack_sure(layers, i as nat, x, pos, mask, cached_packed)
    &&& stack_of(layers, i as nat, x, pos, mask) matches Some(y)
    &&& layer_cache_after(layers[i], y, true, pos) is Some
    &&& layer_cache_sure(layers[i], y, true, pos)
}

/// Whether each layer to which keys and values are sure to be added has them in its cache.
pub open spec fn caches_kept(
    layers: Seq<LayerView>,
    during: Seq<LayerView>,
    x: ArrayView,
    pos: ArrayView,
    mask: Option<ArrayView>,
    cached_packed: bool,
) -> bool {
    forall|i: int|
        0 <= i < layers.len() && cache_owed(layers, i, x, pos, mask, cached_packed)
            ==> #[trigger] during[i] == layers[i].with_cache(
            stack_cache_after(layers, i, x, pos, mask),
        )
}

/// The scores of the tokens that may follow each position, from the rows of the last
/// layer.
pub open spec fn head_of(m: ModelView, x: ArrayView) -> Option<ArrayView> {
    match norm_of(m.norm, x, true) {
        None => None,
        Some(y) => dense_of(m.lm_head, y),
    }
}

/// The reason to refuse to score the rows of the last layer.
pub open spec fn head_why(m: ModelView, x: ArrayView) -> Option<ModelError> {
    first_why(
        norm_why(m.norm, x, true),
        norm_of(m.norm, x, true),
        |y: ArrayView| dense_why(m.lm_head, y),
    )
}

/// The scores of the tokens that may follow each position of the sequences `ids`.
pub open spec fn forward_of(m: ModelView, ids: ArrayView, pos: ArrayView) -> Option<ArrayView> {
    if !embeds(m, ids) {
        None
    } else {
        let x = lookup_of(m.embed_tokens, ids)->Some_0;
        match stack_of(m.layers, m.layers.len(), x, pos, mask_for(ids)->Some_0) {
            None => None,
            Some(y) => head_of(m, y),
        }
    }
}

/// The reason to refuse to score the tokens that may follow the sequences `ids`.
pub open spec fn forward_why(m: ModelView, ids: ArrayView, pos: ArrayView) -> Option<ModelError> {
    if embed_why(m, ids) is Some || !embeds(m, ids) {
        embed_why(m, ids)
    } else {
        let x = lookup_of(m.embed_tokens, ids)->Some_0;
        let mask = mask_for(ids)->Some_0;
        first_why(
            stack_why(m.layers, m.layers.len(), x, pos, mask),
            stack_of(m.layers, m.layers.len(), x, pos, mask),
            |y: ArrayView| head_why(m, y),
        )
    }
}

/// The model after it was applied to the sequences `ids`.
pub open spec fn model_after(m: ModelView, ids: ArrayView, pos: ArrayView) -> ModelView {
    m.with_layers(
        layers_after(
            m.layers,
            lookup_of(m.embed_tokens, ids)->Some_0,
            pos,
            mask_for(ids)->Some_0,
        ),
    )
}

/// Whether `during` is the model, or the model as it is while it is applied to the sequences
/// `ids`.
pub open spec fn model_during(
    m: ModelView,
    during: ModelView,
    ids: ArrayView,
    pos: ArrayView,
) -> bool {
    during == m || {
        &&& during == m.with_layers(during.layers)
        &&& layers_during(
            m.layers,
            during.layers,
            lookup_of(m.embed_tokens, ids)->Some_0,
            pos,
            mask_for(ids)->Some_0,
        )
    }
}

/// Whether each layer to which the keys and values of the sequences `ids` are sure to be added
/// has them in its cache.
pub open spec fn model_keeps(
    m: ModelView,
    during: ModelView,
    ids: ArrayView,
    pos: ArrayView,
    cached_packed: bool,
) -> bool {
    embeds(m, ids) && lookup_sure(m.embed_tokens, ids) ==> caches_kept(
        m.layers,
        during.layers,
        lookup_of(m.embed_tokens, ids)->Some_0,
        pos,
        mask_for(ids)->Some_0,
        cached_packed,
    )
}

/// Whether the model cannot fail on operands that go together. `cached_packed` tells whether
/// what its caches hold is packed.
pub open spec fn forward_sure(
    m: ModelView,
    ids: ArrayView,
    pos: ArrayView,
    cached_packed: bool,
) -> bool {
    let x = lookup_of(m.embed_tokens, ids)->Some_0;
    let mask = mask_for(ids)->Some_0;
    &&& lookup_sure(m.embed_tokens, ids)
    &&& stack_sure(m.layers, m.layers.len(), x, pos, mask, cached_packed)
    &&& stack_of(m.layers, m.layers.len(), x, pos, mask) matches Some(y) ==> norm_sure(m.norm, y)
        && dense_sure(m.lm_head, y)
}

/// Where a layer fails the stack fails.
proof fn lemma_stack_fails(
    layers: Seq<LayerView>,
    i: int,
    x: ArrayView,
    pos: ArrayView,
    mask: Option<ArrayView>,
    cached_packed: bool,
    n: nat,
)
    requires
        0 <= i < n,
        ({
            &&& stack_of(layers, i as nat, x, pos, mask) matches Some(y)
            &&& layer_of(layers[i], y, true, pos, mask) is None || !layer_sure(
                layers[i],
                y,
                true,
                pos,
                mask,
                cached_packed,
            )
        }),
    ensures
        stack_of(layers, n, x, pos, mask) is None || !stack_sure(
            layers,
            n,
            x,
            pos,
            mask,
            cached_packed,
        ),
{
    let y = stack_of(layers, i as nat, x, pos, mask)->Some_0;
    if layer_of(layers[i], y, true, pos, mask) is None {
        lemma_stack_stays_failed(layers, (i + 1) as nat, n, x, pos, mask);
    }
}

proof fn lemma_stack_stays_failed(
    layers: Seq<LayerView>,
    m: nat,
    n: nat,
    x: ArrayView,
    pos: ArrayView,
    mask: Option<ArrayView>,
)
    requires
        m <= n,
        stack_of(layers, m, x, pos, mask) is None,
    ensures
        stack_of(layers, n, x, pos, mask) is None,
    decreases n,
{
    if m < n {
        lemma_stack_stays_failed(layers, m, (n - 1) as nat, x, pos, mask);
    }
}

/// The reason of a layer is the reason of the stack.
proof fn lemma_stack_blames(
    layers: Seq<LayerView>,
    m: nat,
    n: nat,
    x: ArrayView,
    pos: ArrayView,
    mask: Option<ArrayView>,
)
    requires
        m <= n,
        stack_why(layers, m, x, pos, mask) is Some,
    ensures
        stack_why(layers, n, x, pos, mask) == stack_why(layers, m, x, pos, mask),
    decreases n,
{
    if m < n {
        lemma_stack_blames(layers, m, (n - 1) as nat, x, pos, mask);
    }
}

/// Layers with other caches have the same parameters.
proof fn lemma_other_caches(m: ModelView, layers: Seq<LayerView>)
    requires
        m.shaped(),
        layers.len() == m.layers.len(),
        forall|i: int|
            0 <= i < layers.len() ==> #[trigger] layers[i] == m.layers[i].with_cache(
                layers[i].self_attn.cache,
            ),
    ensures
        m.with_layers(layers).shaped(),
        m.proper() ==> m.with_layers(layers).proper(),
{
    assert forall|i: int| 0 <= i < layers.len() implies (#[trigger] layers[i]).shaped() && (
    m.proper() ==> layers[i].proper()) by {
        assert(m.layers[i].shaped());
        assert(m.proper() ==> m.layers[i].proper());
    }
}

/// The content of an array that may be there.
pub open spec fn held(a: Option<Array>) -> Option<ArrayView> {
    match a {
        None => None,
        Some(a) => Some(a@),
    }
}

/// The views of layers.
pub open spec fn layer_views(layers: Seq<DecoderLayer>) -> Seq<LayerView> {
    layers.map_values(|l: DecoderLayer| l@)
}

/// The model.
#[derive(Debug)]
pub struct ParlerTts {
    embed_tokens: Lookup,
    layers: Vec<DecoderLayer>,
    norm: Norm,
    lm_head: Dense,
    pos_emb: Array,
    device: Device,
}

impl View for ParlerTts {
    type V = ModelView;

    closed spec fn view(&self) -> ModelView {
        ModelView {
            embed_tokens: self.embed_tokens@,
            layers: layer_views(self.layers@),
            norm: self.norm@,
            lm_head: self.lm_head@,
            pos_emb: self.pos_emb@,
            device: self.device,
        }
    }
}

impl Clone for ParlerTts {
    fn clone(&self) -> (r: Self)
        ensures
            r@ == self@,
            r.cached_packed() == self.cached_packed(),
            forall|c: Config, w: WeightsView| #[trigger] r.stored(c, w) == self.stored(c, w),
    {
        let mut layers: Vec<DecoderLayer> = Vec::new();
        for i in 0..self.layers.len()
            invariant
                layers@.len() == i,
                forall|j: int|
                    0 <= j < i ==> (#[trigger] layers@[j])@ == self.layers@[j]@
                        && layers@[j].cached_packed() == self.layers@[j].cached_packed(),
                forall|j: int, c: Config, w: WeightsView|
                    0 <= j < i ==> #[trigger] layers@[j].stored(c, w) == self.layers@[j].stored(
                        c,
                        w,
                    ),
        {
            layers.push(self.layers[i].clone());
        }
        proof {
            assert(layer_views(layers@) =~= layer_views(self.layers@));
        }
        let r = ParlerTts {
            embed_tokens: self.embed_tokens.clone(),
            layers,
            norm: self.norm.clone(),
            lm_head: self.lm_head.clone(),
            pos_emb: self.pos_emb.share(),
            device: self.device.clone(),
        };
        proof {
            lemma_same_parts(r, *self);
            assert(r.cached_packed() == self.cached_packed()) by {
                if r.cached_packed() {
                    assert forall|i: int| 0 <= i < self.layers@.len() implies (
                    #[trigger] self.layers@[i]).cached_packed() by {
                        assert(r.layers@[i].cached_packed());
                    }
                }
            }
        }
        r
    }
}

/// Whether the parts of a model have the parameters at `w`.
pub open spec fn parts_stored(
    embed_tokens: Lookup,
    layers: Seq<DecoderLayer>,
    norm: Norm,
    lm_head: Dense,
    cfg: Config,
    w: WeightsView,
) -> bool {
    let m = w.below("model"@);
    &&& embed_tokens.stored(cfg.vocab_size, cfg.hidden_size, m.below("embed_tokens"@))
    &&& layers.len() == cfg.num_hidden_layers
    &&& forall|i: int|
        0 <= i < layers.len() ==> (#[trigger] layers[i]).stored(
            cfg,
            m.below(layer_name_of(i as nat)),
        )
    &&& norm.stored(cfg.hidden_size, cfg.rms_norm_eps, m.below("norm"@))
    &&& lm_head.stored(cfg.hidden_size, cfg.vocab_size, m.below("lm_head"@))
}

/// Whether there is a reason to refuse a model with the parameters at `w` by `e`: one of its
/// parts is refused.
pub open spec fn model_refused(e: ModelError, cfg: Config, w: WeightsView) -> bool {
    let m = w.below("model"@);
    ||| lookup_refused(e, cfg.vocab_size, cfg.hidden_size, m.below("embed_tokens"@))
    ||| exists|i: nat|
        i < cfg.num_hidden_layers && layer_refused(e, cfg, m.below(#[trigger] layer_name_of(i)))
    ||| norm_refused(e, cfg.hidden_size, cfg.rms_norm_eps, m.below("norm"@))
    ||| dense_refused(e, cfg.hidden_size, cfg.vocab_size, m.below("lm_head"@))
}

/// The real numbers that a model needs besides those in its configuration, by their bits.
#[derive(Debug)]
pub struct Constants {
    /// The double that products of queries and keys are scaled by: one over the square
    /// root of the size of a head.
    pub scale: u64,
    /// The frequencies of the rotations, in single precision.
    pub inv_freq: Vec<u32>,
}

/// Whether two models have parts that were stored alike.
spec fn same_parts(m: ParlerTts, n: ParlerTts) -> bool {
    &&& m.embed_tokens == n.embed_tokens
    &&& m.norm == n.norm
    &&& m.lm_head == n.lm_head
    &&& m.layers@.len() == n.layers@.len()
    &&& forall|j: int, c: Config, w: WeightsView|
        0 <= j < n.layers@.len() ==> #[trigger] m.layers@[j].stored(c, w) == n.layers@[j].stored(
            c,
            w,
        )
}

proof fn lemma_same_parts(m: ParlerTts, n: ParlerTts)
    requires
        same_parts(m, n),
    ensures
        forall|c: Config, w: WeightsView| #[trigger] m.stored(c, w) == n.stored(c, w),
{
    assert forall|c: Config, w: WeightsView| #[trigger] m.stored(c, w) == n.stored(c, w) by {
        let p = w.below("model"@);
        assert forall|i: int| 0 <= i < n.layers@.len() implies m.layers@[i].stored(
            c,
            p.below(layer_name_of(i as nat)),
        ) == (#[trigger] n.layers@[i]).stored(c, p.below(layer_name_of(i as nat))) by {}
        if m.stored(c, w) {
            assert forall|i: int| 0 <= i < n.layers@.len() implies (
            #[trigger] n.layers@[i]).stored(c, p.below(layer_name_of(i as nat))) by {
                assert(m.layers@[i].stored(c, p.below(layer_name_of(i as nat))));
            }
        }
        if n.stored(c, w) {
            assert forall|i: int| 0 <= i < n.layers@.len() implies (
            #[trigger] m.layers@[i]).stored(c, p.below(layer_name_of(i as nat))) by {
                assert(n.layers@[i].stored(c, p.below(layer_name_of(i as nat))));
            }
        }
    }
}

impl ParlerTts {
    /// Whether what the caches hold is packed.
    pub closed spec fn cached_packed(&self) -> bool {
        forall|i: int| 0 <= i < self.layers@.len() ==> (#[trigger] self.layers@[i]).cached_packed()
    }

    /// Whether the model has the parameters at `w`.
    pub closed spec fn stored(&self, cfg: Config, w: WeightsView) -> bool {
        parts_stored(self.embed_tokens, self.layers@, self.norm, self.lm_head, cfg, w)
    }

    /// The model with the parameters at `w` and empty caches.
    pub fn new(w: &Weights<'_>, cfg: &Config, constants: &Constants) -> (r: Result<
        Self,
        ModelError,
    >)
        ensures
            rotary_table_of(
                cfg.max_position_embeddings,
                cfg.head_dim,
                constants.inv_freq@,
            ) is None ==> r is Err,
            cfg.qkv_width() > usize::MAX && cfg.num_hidden_layers > 0 ==> r is Err,
            r matches Err(e) ==> model_refused(e, *cfg, w@) || table_refused(
                e,
                cfg.max_position_embeddings,
                cfg.head_dim,
                constants.inv_freq@,
            ),
            r matches Ok(m) ==> {
                &&& m.stored(*cfg, w@)
                &&& m@.centers()
                &&& m@.hidden() == cfg.hidden_size
                &&& m@.embed_tokens.width == cfg.hidden_size
                &&& m@.layers.len() == cfg.num_hidden_layers
                &&& forall|i: int|
                    0 <= i < cfg.num_hidden_layers ==> layer_configured(
                        #[trigger] m@.layers[i],
                        *cfg,
                        constants.scale,
                    )
                &&& m@.norm.eps == cfg.rms_norm_eps
                &&& rotary_table_of(
                    cfg.max_position_embeddings,
                    cfg.head_dim,
                    constants.inv_freq@,
                ) == Some(m@.pos_emb)
                &&& m@.device == weights_device(*w)
                &&& m.cached_packed()
            },
            r matches Ok(m) ==> exists|p: candle_nn::Embedding|
                #[trigger] embedding_outcome(
                    Ok(p),
                    cfg.vocab_size,
                    cfg.hidden_size,
                    w@.below("model"@).below("embed_tokens"@),
                ) && m@.embed_tokens == embedding_content(p),
            r matches Ok(m) ==> exists|p: candle_nn::LayerNorm|
                #[trigger] layer_norm_outcome(
                    Ok(p),
                    cfg.hidden_size,
                    cfg.rms_norm_eps,
                    w@.below("model"@).below("norm"@),
                ) && m@.norm == layer_norm_content(p),
            r matches Ok(m) ==> exists|p: candle_nn::Linear|
                #[trigger] linear_outcome(
                    Ok(p),
                    cfg.hidden_size,
                    cfg.vocab_size,
                    w@.below("model"@).below("lm_head"@),
                ) && m@.lm_head == linear_content(p),
            r matches Ok(m) ==> forall|i: int|
                0 <= i < cfg.num_hidden_layers ==> {
                    let l = #[trigger] m@.layers[i];
                    &&& l.self_attn.heads == cfg.num_attention_heads
                    &&& l.self_attn.kv_heads == cfg.num_key_value_heads
                    &&& l.self_attn.head_dim == cfg.head_dim
                    &&& l.self_attn.hidden == cfg.hidden_size
                    &&& l.self_attn.scale == constants.scale
                    &&& l.self_attn.cache is None
                    &&& l.input_layernorm.eps == cfg.rms_norm_eps
                    &&& l.post_attention_layernorm.eps == cfg.rms_norm_eps
                },
            r matches Ok(m) ==> forall|i: int|
                0 <= i < cfg.num_hidden_layers ==> layer_kept_at(
                    #[trigger] m@.layers[i],
                    *cfg,
                    w@.below("model"@).below("layers."@ + decimal_of(i as nat)),
                ),
    {
        let w_m = w.below("model");
        let embed_tokens = Lookup::new(
            cfg.vocab_size,
            cfg.hidden_size,
            &w_m.below("embed_tokens"),
        )?;
        let mut layers: Vec<DecoderLayer> = Vec::new();
        let n: usize = cfg.num_hidden_layers;
        let mut i: usize = 0;
        while i < n
            invariant
                i <= n,
                n == cfg.num_hidden_layers,
                w_m@ == w@.below("model"@),
                layers@.len() == i,
                i > 0 ==> cfg.qkv_width() <= usize::MAX,
                forall|j: int|
                    0 <= j < i ==> (#[trigger] layers@[j]).stored(
                        *cfg,
                        w_m@.below(layer_name_of(j as nat)),
                    ) && layers@[j].cached_packed() && layer_configured(
                        layers@[j]@,
                        *cfg,
                        constants.scale,
                    ),
                forall|j: int|
                    0 <= j < i ==> layer_kept_at(
                        (#[trigger] layers@[j])@,
                        *cfg,
                        w_m@.below("layers."@ + decimal_of(j as nat)),
                    ),
            decreases n - i,
        {
            let name = layer_name(i);
            match DecoderLayer::new(&w_m.below(name.as_str()), cfg, constants.scale) {
                Ok(layer) => {
                    layers.push(layer);
                },
                Err(error) => {
                    proof {
                        let place = w_m@.below(layer_name_of(i as nat));
                        assert(layer_refused(error, *cfg, place));
                    }
                    return Err(error);
                },
            }
            i = i + 1;
        }
        let norm = Norm::new(cfg.hidden_size, cfg.rms_norm_eps, &w_m.below("norm"))?;
        let lm_head = Dense::new(cfg.hidden_size, cfg.vocab_size, &w_m.below("lm_head"))?;
        proof {
            embed_tokens.lemma_kept(cfg.vocab_size, cfg.hidden_size, w_m@.below("embed_tokens"@));
            norm.lemma_kept(cfg.hidden_size, cfg.rms_norm_eps, w_m@.below("norm"@));
            lm_head.lemma_kept(cfg.hidden_size, cfg.vocab_size, w_m@.below("lm_head"@));
        }
        let ghost loaded = layers@;
        let r = ParlerTts::assemble(
            embed_tokens,
            layers,
            norm,
            lm_head,
            w.device(),
            cfg,
            constants,
        );
        proof {
            if r is Ok {
                let m = r->Ok_0;
                assert forall|j: int| 0 <= j < n implies layer_kept_at(
                    #[trigger] m@.layers[j],
                    *cfg,
                    w@.below("model"@).below("layers."@ + decimal_of(j as nat)),
                ) by {
                    assert(m@.layers[j] == loaded[j]@);
                }
            }
        }
        r
    }

    /// The model with the given parts and the table of rotations for `cfg`.
    pub fn assemble(
        embed_tokens: Lookup,
        layers: Vec<DecoderLayer>,
        norm: Norm,
        lm_head: Dense,
        device: Device,
        cfg: &Config,
        constants: &Constants,
    ) -> (r: Result<Self, ModelError>)
        ensures
            match (
                r,
                rotary_table_of(
                    cfg.max_position_embeddings,
                    cfg.head_dim,
                    constants.inv_freq@,
                ),
            ) {
                (Ok(m), Some(pos_emb)) => {
                    &&& m@ == (ModelView {
                        embed_tokens: embed_tokens@,
                        layers: layer_views(layers@),
                        norm: norm@,
                        lm_head: lm_head@,
                        pos_emb,
                        device,
                    })
                    &&& (forall|i: int|
                        0 <= i < layers@.len() ==> (#[trigger] layers@[i]).cached_packed())
                        ==> m.cached_packed()
                    &&& forall|c: Config, w: WeightsView| #[trigger]
                        m.stored(c, w) == parts_stored(
                            embed_tokens,
                            layers@,
                            norm,
                            lm_head,
                            c,
                            w,
                        )
                },
                (Err(e), None) => table_refused(
                    e,
                    cfg.max_position_embeddings,
                    cfg.head_dim,
                    constants.inv_freq@,
                ),
                _ => false,
            },
    {
        let pos_emb = build_rotary_emb(
            cfg.max_position_embeddings,
            cfg.head_dim,
            &constants.inv_freq,
        )?;
        Ok(ParlerTts { embed_tokens, layers, norm, lm_head, pos_emb, device })
    }

    /// Whether the parameters of a model whose normalizations remove the mean are those of a
    /// table, linear maps and normalizations.
    pub fn is_shaped(&self) -> (r: bool)
        requires
            self@.centers(),
        ensures
            r == self@.shaped(),
    {
        for i in 0..self.layers.len()
            invariant
                self@.centers(),
                forall|j: int| 0 <= j < i ==> (#[trigger] self@.layers[j]).shaped(),
        {
            assert(self@.layers[i as int].input_layernorm.remove_mean);
            if !self.layers[i].is_shaped() {
                assert(!self@.layers[i as int].shaped());
                return false;
            }
        }
        self.embed_tokens.is_shaped() && self.norm.is_shaped() && self.lm_head.is_shaped()
    }

    /// Whether rows are not empty and each layer has a key head.
    pub fn is_proper(&self) -> (r: bool)
        requires
            self@.shaped(),
        ensures
            r == self@.proper(),
    {
        if self.norm.size() == 0 {
            return false;
        }
        for i in 0..self.layers.len()
            invariant
                self@.shaped(),
                forall|j: int| 0 <= j < i ==> (#[trigger] self@.layers[j]).proper(),
        {
            assert(self@.layers[i as int].shaped());
            if !self.layers[i].is_proper() {
                assert(!self@.layers[i as int].proper());
                return false;
            }
        }
        true
    }

    /// The table of rotations that generation goes by.
    pub fn pos_emb(&self) -> (r: Array)
        ensures
            r@ == self@.pos_emb,
    {
        self.pos_emb.share()
    }

    /// The mask for the sequences `input_ids`, and the rows of their tokens.
    pub fn embed(&self, input_ids: &Array) -> (r: Result<(Option<Array>, Array), ModelError>)
        requires
            self@.shaped(),
        ensures
            blames(r, embed_why(self@, input_ids@)),
            match r {
                Ok((mask, xs)) => {
                    &&& input_ids@.rank() == 2
                    &&& mask_for(input_ids@) == Some(held(mask))
                    &&& lookup_of(self@.embed_tokens, input_ids@) == Some(xs@)
                    &&& xs.packed()
                },
                Err(_) => !embeds(self@, input_ids@) || !lookup_sure(
                    self@.embed_tokens,
                    input_ids@,
                ),
            },
    {
        let (_, seq_len) = input_ids.dims2()?;
        let attention_mask: Option<Array> = if seq_len <= 1 {
            None
        } else {
            Some(causal_mask(seq_len, input_ids)?)
        };
        let xs = self.embed_tokens.forward(input_ids)?;
        Ok((attention_mask, xs))
    }

    /// Carries out the first steps of a pass over the sequences `input_ids`, up to the point
    /// where the query heads of the first layer are shared out, and leaves the model as it is.
    /// A model that is not proper cannot be applied beyond that point.
    pub fn prepare(&self, input_ids: &Array, pos: &Array) -> (r: Result<(), ModelError>)
        requires
            self@.shaped(),
        ensures
            blames(r, prepare_why(self@, input_ids@, pos@)),
            match r {
                Ok(_) => {
                    &&& embeds(self@, input_ids@)
                    &&& self@.begins() ==> stack_cache_after(
                        self@.layers,
                        0,
                        lookup_of(self@.embed_tokens, input_ids@)->Some_0,
                        pos@,
                        mask_for(input_ids@)->Some_0,
                    ) is Some
                },
                Err(_) => {
                    ||| !embeds(self@, input_ids@)
                    ||| !lookup_sure(self@.embed_tokens, input_ids@)
                    ||| self@.begins() && !cache_owed(
                        self@.layers,
                        0,
                        lookup_of(self@.embed_tokens, input_ids@)->Some_0,
                        pos@,
                        mask_for(input_ids@)->Some_0,
                        self.cached_packed(),
                    )
                },
            },
    {
        let (_, xs) = self.embed(input_ids)?;
        if self.layers.len() > 0 {
            assert(self@.layers[0].shaped());
            if self.layers[0].takes_rows() {
                self.layers[0].prepare(&xs, pos)?;
            }
        }
        Ok(())
    }

    /// The scores of the tokens that may follow each position of the sequences
    /// `input_ids`. The keys and values of the positions are added to the caches, and stay
    /// there even where a later step fails. Where the sequences are no matrix, are too long
    /// for a mask, or hold a token that is not in the table, the model stays as it is.
    pub fn forward(&mut self, input_ids: &Array, pos: &Array) -> (r: Result<Array, ModelError>)
        requires
            old(self)@.shaped(),
            embeds(old(self)@, input_ids@) ==> old(self)@.proper(),
        ensures
            !embeds(old(self)@, input_ids@) ==> r is Err && final(self)@ == old(self)@,
            blames(r, forward_why(old(self)@, input_ids@, pos@)),
            match r {
                Ok(y) => {
                    &&& forward_of(old(self)@, input_ids@, pos@) == Some(y@)
                    &&& y@.shape == input_ids@.shape.push(old(self)@.lm_head.weight.shape[0])
                    &&& final(self)@ == model_after(old(self)@, input_ids@, pos@)
                },
                Err(_) => {
                    &&& forward_of(old(self)@, input_ids@, pos@) is None || !forward_sure(
                        old(self)@,
                        input_ids@,
                        pos@,
                        old(self).cached_packed(),
                    )
                    &&& model_during(old(self)@, final(self)@, input_ids@, pos@)
                    &&& model_keeps(
                        old(self)@,
                        final(self)@,
                        input_ids@,
                        pos@,
                        old(self).cached_packed(),
                    )
                },
            },
            final(self)@.shaped(),
            old(self)@.proper() ==> final(self)@.proper(),
            old(self).cached_packed() && input_ids@.rank() == 2 && input_ids@.shape[1] == 1
                ==> final(self).cached_packed(),
            forall|c: Config, w: WeightsView| #[trigger]
                final(self).stored(c, w) == old(self).stored(c, w),
    {
        let (attention_mask, xs) = self.embed(input_ids)?;
        let mask: Option<&Array> = attention_mask.as_ref();
        proof {
            assert(xs@.shape =~= input_ids@.shape.push(self@.hidden()));
            assert(content(mask) == mask_for(input_ids@)->Some_0);
        }
        let xs = self.run_layers(xs, pos, mask);
        proof {
            lemma_other_caches(old(self)@, self@.layers);
        }
        let xs = xs?;
        let xs = self.norm.forward(&xs)?;
        self.lm_head.forward(&xs)
    }

    /// What the layers make of the rows of `xs`.
    fn run_layers(&mut self, xs: Array, pos: &Array, mask: Option<&Array>) -> (r: Result<
        Array,
        ModelError,
    >)
        requires
            old(self)@.shaped(),
            old(self)@.proper(),
            xs@.rank() == 3,
            xs.packed(),
        ensures
            ({
                let layers = old(self)@.layers;
                match r {
                    Ok(y) => {
                        &&& stack_of(layers, layers.len(), xs@, pos@, content(mask)) == Some(y@)
                        &&& y@.shape == xs@.shape && y.packed()
                        &&& final(self)@.layers == layers_after(layers, xs@, pos@, content(mask))
                    },
                    Err(_) => {
                        stack_of(layers, layers.len(), xs@, pos@, content(mask)) is None
                            || !stack_sure(
                            layers,
                            layers.len(),
                            xs@,
                            pos@,
                            content(mask),
                            old(self).cached_packed(),
                        )
                    },
                }
            }),
            blames(
                r,
                stack_why(
                    old(self)@.layers,
                    old(self)@.layers.len(),
                    xs@,
                    pos@,
                    content(mask),
                ),
            ),
            layers_during(old(self)@.layers, final(self)@.layers, xs@, pos@, content(mask)),
            caches_kept(
                old(self)@.layers,
                final(self)@.layers,
                xs@,
                pos@,
                content(mask),
                old(self).cached_packed(),
            ),
            final(self)@ == old(self)@.with_layers(final(self)@.layers),
            old(self).cached_packed() && xs@.shape[1] == 1 ==> final(self).cached_packed(),
            forall|c: Config, w: WeightsView| #[trigger]
                final(self).stored(c, w) == old(self).stored(c, w),
    {
        let n: usize = self.layers.len();
        let mut ys = xs.share();
        let mut i: usize = 0;
        let ghost layers = self@.layers;
        while i < n
            invariant
                i <= n,
                n == layers.len(),
                layers == old(self)@.layers,
                self.layers@.len() == n,
                self@ == old(self)@.with_layers(self@.layers),
                old(self)@.shaped(),
                old(self)@.proper(),
                stack_of(layers, i as nat, xs@, pos@, content(mask)) == Some(ys@),
                stack_why(layers, i as nat, xs@, pos@, content(mask)) is None,
                ys@.shape == xs@.shape,
                ys.packed(),
                same_parts(*self, *old(self)),
                forall|j: int|
                    i <= j < n && old(self).cached_packed() ==> (
                    #[trigger] self.layers@[j]).cached_packed(),
                forall|j: int|
                    0 <= j < i && old(self).cached_packed() && xs@.shape[1] == 1 ==> (
                    #[trigger] self.layers@[j]).cached_packed(),
                xs@.rank() == 3,
                forall|j: int|
                    0 <= j < i ==> #[trigger] self@.layers[j] == layers[j].with_cache(
                        stack_cache_after(layers, j, xs@, pos@, content(mask)),
                    ) && stack_cache_after(layers, j, xs@, pos@, content(mask)) is Some,
                forall|j: int| i <= j < n ==> #[trigger] self@.layers[j] == layers[j],
            decreases n - i,
        {
            let ghost before = self@.layers;
            let ghost parts = *self;
            proof {
                assert(before[i as int] == layers[i as int]);
                assert(layers[i as int].shaped());
                assert(layers[i as int].proper());
            }
            let layer = &mut self.layers[i];
            let zs = layer.forward(&ys, pos, mask);
            proof {
                assert(self@.layers =~= before.update(i as int, self@.layers[i as int]));
                assert(self.layers@ =~= parts.layers@.update(i as int, self.layers@[i as int]));
                assert(same_parts(*self, *old(self))) by {
                    assert forall|j: int, c: Config, w: WeightsView|
                        0 <= j < n implies #[trigger] self.layers@[j].stored(c, w) == old(
                        self
                    ).layers@[j].stored(c, w) by {
                        assert(parts.layers@[j].stored(c, w) == old(self).layers@[j].stored(c, w));
                    }
                }
            }
            match zs {
                Err(error) => {
                    proof {
                        let packed = old(self).cached_packed();
                        if layer_sure(layers[i as int], ys@, true, pos@, content(mask), packed) {
                            lemma_sure_packed(
                                layers[i as int],
                                ys@,
                                true,
                                pos@,
                                content(mask),
                                packed,
                            );
                        }
                        lemma_stack_fails(
                            layers,
                            i as int,
                            xs@,
                            pos@,
                            content(mask),
                            packed,
                            layers.len(),
                        );
                        assert forall|j: int|
                            0 <= j < layers.len() && cache_owed(
                                layers,
                                j,
                                xs@,
                                pos@,
                                content(mask),
                                packed,
                            ) implies #[trigger] self@.layers[j] == layers[j].with_cache(
                            stack_cache_after(layers, j, xs@, pos@, content(mask)),
                        ) by {
                            if j > i {
                                lemma_stack_fails(
                                    layers,
                                    i as int,
                                    xs@,
                                    pos@,
                                    content(mask),
                                    packed,
                                    j as nat,
                                );
                            }
                        }
                        lemma_same_parts(*self, *old(self));
                        if !(error is Tensor) {
                            lemma_stack_blames(
                                layers,
                                (i + 1) as nat,
                                layers.len(),
                                xs@,
                                pos@,
                                content(mask),
                            );
                        }
                    }
                    proof {
                        assert(stopped_at(
                            layers,
                            self@.layers,
                            i as int,
                            xs@,
                            pos@,
                            content(mask),
                        ));
                    }
                    return Err(error);
                },
                Ok(zs) => {
                    ys = zs;
                },
            }
            i = i + 1;
        }
        proof {
            assert(stopped_at(layers, self@.layers, n as int, xs@, pos@, content(mask)));
            lemma_same_parts(*self, *old(self));
        }
        Ok(ys)
    }

    /// Forgets the keys and values of the positions seen so far.
    pub fn clear_kv_cache(&mut self)
        ensures
            final(self)@ == old(self)@.cleared(),
            final(self).cached_packed(),
            forall|c: Config, w: WeightsView| #[trigger]
                final(self).stored(c, w) == old(self).stored(c, w),
    {
        let n: usize = self.layers.len();
        let mut i: usize = 0;
        while i < n
            invariant
                i <= n,
                n == self.layers@.len(),
                n == old(self).layers@.len(),
                self@.embed_tokens == old(self)@.embed_tokens,
                self@.norm == old(self)@.norm,
                self@.lm_head == old(self)@.lm_head,
                self@.pos_emb == old(self)@.pos_emb,
                self@.device == old(self)@.device,
                forall|j: int|
                    0 <= j < i ==> (#[trigger] self.layers@[j])@
                        == old(self).layers@[j]@.with_cache(None),
                forall|j: int|
                    i <= j < n ==> (#[trigger] self.layers@[j])@ == old(self).layers@[j]@,
                forall|j: int| 0 <= j < i ==> (#[trigger] self.layers@[j]).cached_packed(),
                same_parts(*self, *old(self)),
            decreases n - i,
        {
            let ghost parts = *self;
            let layer = &mut self.layers[i];
            layer.clear_kv_cache();
            proof {
                assert(self.layers@ =~= parts.layers@.update(i as int, self.layers@[i as int]));
                assert(same_parts(*self, *old(self))) by {
                    assert forall|j: int, c: Config, w: WeightsView|
                        0 <= j < n implies #[trigger] self.layers@[j].stored(c, w) == old(
                        self
                    ).layers@[j].stored(c, w) by {
                        assert(parts.layers@[j].stored(c, w) == old(self).layers@[j].stored(c, w));
                    }
                }
            }
            i = i + 1;
        }
        proof {
            lemma_same_parts(*self, *old(self));
            assert(self@.layers =~= old(self)@.cleared().layers);
        }
    }
}

/// Whether the layer has the sizes and constants of `cfg`, and an empty cache.
pub open spec fn layer_configured(l: LayerView, cfg: Config, scale: u64) -> bool {
    &&& l.self_attn.heads == cfg.num_attention_heads
    &&& l.self_attn.kv_heads == cfg.num_key_value_heads
    &&& l.self_attn.head_dim == cfg.head_dim
    &&& l.self_attn.scale == scale
    &&& l.self_attn.cache is None
    &&& l.self_attn.hidden == cfg.hidden_size
    &&& l.input_layernorm.remove_mean && l.post_attention_layernorm.remove_mean
    &&& l.input_layernorm.eps == cfg.rms_norm_eps
    &&& l.post_attention_layernorm.eps == cfg.rms_norm_eps
}

} // verus!
