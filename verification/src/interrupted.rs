//! What a pass that fails on the way leaves behind.

use vstd::prelude::*;
use crate::attention::AttentionView;
use crate::decoder::{layer_cache_after, layer_cache_sure, layer_sure, LayerView};
use crate::layers::{lookup_of, lookup_sure};
use crate::model::{
    cache_owed, embeds, forward_of, forward_sure, mask_for, model_during, model_keeps,
    stack_cache_after, stack_of, stack_sure, stopped_at, ModelView,
};
use crate::view::ArrayView;

verus! {

/// A pass that is interrupted leaves a model with the same parameters. It has come to some layer
/// `k`: the layers before it have the keys and values of their rows in their caches, those behind
/// it are as they were, and the layer itself is one or the other.
pub proof fn law_interrupted_pass_written_out(
    m: ModelView,
    d: ModelView,
    ids: ArrayView,
    pos: ArrayView,
) -> (k: int)
    requires
        model_during(m, d, ids, pos),
    ensures
        ({
            let x = lookup_of(m.embed_tokens, ids)->Some_0;
            let mask = mask_for(ids)->Some_0;
            let n = m.layers.len();
            &&& d.embed_tokens == m.embed_tokens
            &&& d.norm == m.norm
            &&& d.lm_head == m.lm_head
            &&& d.pos_emb == m.pos_emb
            &&& d.device == m.device
            &&& d.layers.len() == n
            &&& 0 <= k <= n
            &&& forall|i: int| k < i < n ==> #[trigger] d.layers[i] == m.layers[i]
            &&& forall|i: int|
                0 <= i < n && i <= k ==> {
                    let y = stack_of(m.layers, i as nat, x, pos, mask)->Some_0;
                    let cache = layer_cache_after(m.layers[i], y, true, pos);
                    ||| i == k && #[trigger] d.layers[i] == m.layers[i]
                    ||| {
                        &&& stack_of(m.layers, i as nat, x, pos, mask) is Some
                        &&& cache is Some
                        &&& d.layers[i] == (LayerView {
                            self_attn: AttentionView { cache, ..m.layers[i].self_attn },
                            ..m.layers[i]
                        })
                    }
                }
        }),
{
    let x = lookup_of(m.embed_tokens, ids)->Some_0;
    let mask = mask_for(ids)->Some_0;
    if d == m {
        0
    } else {
        let k = choose|k: int|
            0 <= k <= m.layers.len() && #[trigger] stopped_at(
                m.layers,
                d.layers,
                k,
                x,
                pos,
                mask,
            );
        assert forall|i: int| k < i < m.layers.len() implies #[trigger] d.layers[i]
            == m.layers[i] by {}
        assert forall|i: int| 0 <= i < m.layers.len() && i <= k implies ({
            let y = stack_of(m.layers, i as nat, x, pos, mask)->Some_0;
            let cache = layer_cache_after(m.layers[i], y, true, pos);
            ||| i == k && #[trigger] d.layers[i] == m.layers[i]
            ||| {
                &&& stack_of(m.layers, i as nat, x, pos, mask) is Some
                &&& cache is Some
                &&& d.layers[i] == (LayerView {
                    self_attn: AttentionView { cache, ..m.layers[i].self_attn },
                    ..m.layers[i]
                })
            }
        }) by {
            assert(d.layers[i] == d.layers[i]);
        }
        k
    }
}

/// The first layers make the same of rows whether others follow or not.
proof fn lemma_same_stack(
    layers: Seq<LayerView>,
    k: nat,
    j: nat,
    x: ArrayView,
    pos: ArrayView,
    mask: Option<ArrayView>,
)
    requires
        j <= k <= layers.len(),
    ensures
        stack_of(layers.subrange(0, k as int), j, x, pos, mask) == stack_of(
            layers,
            j,
            x,
            pos,
            mask,
        ),
    decreases j,
{
    if j > 0 {
        lemma_same_stack(layers, k, (j - 1) as nat, x, pos, mask);
    }
}

/// What got into the caches stays there. Where the first `k` layers alone are sure to succeed, and
/// the keys and values of the next layer are sure to get into its cache, the cache of this layer
/// holds them after a pass that fails, at this layer or behind it.
pub proof fn law_caches_survive_failure(
    m: ModelView,
    d: ModelView,
    ids: ArrayView,
    pos: ArrayView,
    cached_packed: bool,
    k: nat,
)
    requires
        model_keeps(m, d, ids, pos, cached_packed),
        k < m.layers.len(),
        forward_of(m.with_layers(m.layers.subrange(0, k as int)), ids, pos) is Some,
        forward_sure(
            m.with_layers(m.layers.subrange(0, k as int)),
            ids,
            pos,
            cached_packed,
        ),
        ({
            let x = lookup_of(m.embed_tokens, ids)->Some_0;
            let y = stack_of(m.layers, k, x, pos, mask_for(ids)->Some_0)->Some_0;
            &&& layer_cache_after(m.layers[k as int], y, true, pos) is Some
            &&& layer_cache_sure(m.layers[k as int], y, true, pos)
        }),
    ensures
        ({
            let x = lookup_of(m.embed_tokens, ids)->Some_0;
            let y = stack_of(m.layers, k, x, pos, mask_for(ids)->Some_0)->Some_0;
            &&& stack_of(m.layers, k, x, pos, mask_for(ids)->Some_0) is Some
            &&& d.layers[k as int] == (LayerView {
                self_attn: AttentionView {
                    cache: layer_cache_after(m.layers[k as int], y, true, pos),
                    ..m.layers[k as int].self_attn
                },
                ..m.layers[k as int]
            })
        }),
{
    let first = m.layers.subrange(0, k as int);
    let x = lookup_of(m.embed_tokens, ids)->Some_0;
    let mask = mask_for(ids)->Some_0;
    lemma_same_stack(m.layers, k, k, x, pos, mask);
    let m1 = m.with_layers(first);
    assert(embeds(m1, ids) && embeds(m, ids));
    assert(lookup_sure(m.embed_tokens, ids));
    assert(stack_sure(m.layers, k, x, pos, mask, cached_packed)) by {
        assert forall|i: int| 0 <= i < k implies (#[trigger] stack_of(
            m.layers,
            i as nat,
            x,
            pos,
            mask,
        ) matches Some(y) ==> layer_sure(m.layers[i], y, true, pos, mask, cached_packed)) by {
            lemma_same_stack(m.layers, k, i as nat, x, pos, mask);
            assert(first[i] == m.layers[i]);
            assert(stack_of(first, i as nat, x, pos, mask) == stack_of(
                m.layers,
                i as nat,
                x,
                pos,
                mask,
            ));
        }
    }
    assert(cache_owed(m.layers, k as int, x, pos, mask, cached_packed));
    assert(d.layers[k as int] == m.layers[k as int].with_cache(
        stack_cache_after(m.layers, k as int, x, pos, mask),
    ));
}

} // verus!
