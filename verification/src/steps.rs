//! Passes over some of the positions, one after the other, and a pass over all of them.

use vstd::prelude::*;
use crate::attention::{attention_of, cache_after, group_of, AttentionView};
use crate::decoder::{
    attended_rows_of, feed_forward_of, layer_cache_after, layer_of, LayerView,
};
use crate::heads::NEG_INFINITY;
use crate::laws::{
    attention_addressable, cached, is_rows, law_attention_defined, law_forward_defined,
    law_layer_defined, law_mask_hides_future, layer_addressable, layer_regular,
    lemma_stack_defined, model_addressable, model_regular,
};
use crate::layers::{lookup_of, norm_of, strays};
use crate::meaning::{
    alike, alike_all, caches_alike, heads_alike, is_meaning, law_sequences_apart,
    lemma_attention_alike, lemma_dense_alike, lemma_feed_forward_alike, lemma_goes_by_parts,
    lemma_norm_alike, lemma_projected_alike, lemma_sum_alike, literally, mask_at, sees,
};
use crate::model::{
    forward_of, head_of, mask_for, model_after, stack_cache_after, stack_of,
    ModelView,
};
use crate::positions::{
    angles_at, attention_ready, feed_forward_row, law_feed_forward_by_row, lemma_cached_at,
    lemma_dense_row, lemma_in3, lemma_norm_row, lemma_sum_row, mask_fits, norm_row, row_of, sum_row,
};
use crate::shape::{in_bounds, lemma_addressable_smaller, lemma_numel_axes};
use crate::view::{narrow_of, ArrayView, ElementKind, Scalar};

verus! {

/// The `len` positions of `x` from `off` on.
pub open spec fn part(x: ArrayView, off: int, len: usize) -> ArrayView {
    narrow_of(x, 1, off, len)->Some_0
}

/// Whether the row of `x1` at `t` means the same as that of `x` at `t` positions behind `off`.
pub open spec fn continues<V>(
    val: spec_fn(Scalar) -> V,
    x1: ArrayView,
    x: ArrayView,
    off: int,
    b: int,
    t: int,
) -> bool {
    alike_all(val, row_of(x1, b, t), row_of(x, b, off + t))
}

/// Whether the rows of `x1` mean the same as those of `x` from `off` on.
pub open spec fn all_continue<V>(
    val: spec_fn(Scalar) -> V,
    x1: ArrayView,
    x: ArrayView,
    off: int,
) -> bool {
    &&& x1.rank() == 3 && x.rank() == 3
    &&& x1.shape[0] == x.shape[0] && x1.shape[2] == x.shape[2]
    &&& 0 <= off && off + x1.shape[1] <= x.shape[1]
    &&& forall|b: int, t: int|
        0 <= b < x1.shape[0] && 0 <= t < x1.shape[1] ==> #[trigger] continues(
            val,
            x1,
            x,
            off,
            b,
            t,
        )
}

/// Whether position `t` of the last `s` of `len` positions sees itself and what comes before it.
pub open spec fn sees_back(mask: Option<ArrayView>, t: int, s: int, len: int) -> bool {
    sees(mask, t, len, len - s + t + 1)
}

/// Whether each of the last `s` of `len` positions sees itself and what comes before it.
pub open spec fn is_causal(mask: Option<ArrayView>, s: int, len: int) -> bool {
    forall|t: int| 0 <= t < s ==> #[trigger] sees_back(mask, t, s, len)
}

/// Whether a layer can be applied to rows of its width.
#[verifier::opaque]
pub open spec fn layer_ready(
    l: LayerView,
    x: ArrayView,
    pos: ArrayView,
    mask: Option<ArrayView>,
) -> bool {
    &&& layer_regular(l, x.shape[0], x.kind, x.cpu)
    &&& l.applies()
    &&& is_rows(x, l.self_attn.hidden)
    &&& x.kind.is_float()
    &&& pos.shape == seq![1usize, x.shape[1], l.self_attn.head_dim]
    &&& pos.kind == x.kind
    &&& layer_addressable(l, x.shape[0], x.shape[1])
    &&& mask_fits(l.self_attn, x, mask)
}

/// A row with what the feed-forward network makes of it added.
pub open spec fn fed_row(l: LayerView, z: Seq<Scalar>) -> Seq<Scalar> {
    sum_row(feed_forward_row(l.mlp, norm_row(l.post_attention_layernorm, z)), z)
}

/// What a layer makes of the row at each position.
proof fn lemma_layer_row(
    l: LayerView,
    x: ArrayView,
    pos: ArrayView,
    mask: Option<ArrayView>,
    b: int,
    t: int,
)
    requires
        layer_ready(l, x, pos, mask),
        0 <= b < x.shape[0],
        0 <= t < x.shape[1],
    ensures
        ({
            let y = attention_of(l.self_attn, norm_of(l.input_layernorm, x, true)->Some_0, pos, mask);
            &&& y is Some
            &&& y->Some_0.shape == x.shape
            &&& row_of(layer_of(l, x, true, pos, mask)->Some_0, b, t) == fed_row(
                l,
                sum_row(row_of(y->Some_0, b, t), row_of(x, b, t)),
            )
        }),
{
    reveal(layer_ready);
    law_layer_defined(l, x, pos, mask);
    reveal(layer_of);
    let n = norm_of(l.input_layernorm, x, true)->Some_0;
    law_attention_defined(l.self_attn, n, pos, mask);
    let y = attention_of(l.self_attn, n, pos, mask)->Some_0;
    let z = attended_rows_of(l, x, true, pos, mask)->Some_0;
    lemma_sum_row(y, x, b, t);
    let u = norm_of(l.post_attention_layernorm, z, true)->Some_0;
    lemma_norm_row(l.post_attention_layernorm, z, b, t);
    let w = feed_forward_of(l.mlp, u)->Some_0;
    law_feed_forward_by_row(l.mlp, u, b, t);
    lemma_sum_row(w, z, b, t);
}

proof fn lemma_fed_alike<V>(
    val: spec_fn(Scalar) -> V,
    l: LayerView,
    r: Seq<Scalar>,
    s: Seq<Scalar>,
)
    requires
        is_meaning(val),
        alike_all(val, r, s),
        l.mlp.is_for(r.len() as usize),
        r.len() <= usize::MAX,
    ensures
        alike_all(val, fed_row(l, r), fed_row(l, s)),
{
    lemma_goes_by_parts(val);
    lemma_norm_alike(val, l.post_attention_layernorm, r, s);
    let (u, w) = (norm_row(l.post_attention_layernorm, r), norm_row(l.post_attention_layernorm, s));
    lemma_feed_forward_alike(val, l.mlp, u, w);
    lemma_sum_alike(val, feed_forward_row(l.mlp, u), r, feed_forward_row(l.mlp, w), s);
}

/// Whether the angles of the positions of `pos1` are those of `pos` from `off` on.
pub open spec fn angles_continue(pos1: ArrayView, pos: ArrayView, off: int) -> bool {
    forall|t: int|
        0 <= t < pos1.shape[1] ==> #[trigger] angles_at(pos1, t) == angles_at(pos, off + t)
}

/// A layer that holds the first positions in its cache and sees the next ones comes to hold
/// all of them.
proof fn lemma_cache_continues<V>(
    val: spec_fn(Scalar) -> V,
    a1: AttentionView,
    x1: ArrayView,
    pos1: ArrayView,
    a: AttentionView,
    x: ArrayView,
    pos: ArrayView,
    b: int,
)
    requires
        is_meaning(val),
        attention_ready(a1, x1, pos1),
        attention_ready(a, x, pos),
        a.cache is None,
        a1 == a.with_cache(a1.cache),
        all_continue(val, x1, x, cached(a1)),
        angles_continue(pos1, pos, cached(a1)),
        0 <= b < x1.shape[0],
        cached(a1) > 0 ==> caches_alike(
            val,
            a,
            a1.cache->Some_0,
            b,
            cache_after(a, x, pos)->Some_0,
            b,
            cached(a1),
        ),
    ensures
        caches_alike(
            val,
            a,
            cache_after(a1, x1, pos1)->Some_0,
            b,
            cache_after(a, x, pos)->Some_0,
            b,
            cached(a1) + x1.shape[1],
        ),
{
    let (k1, v1) = cache_after(a1, x1, pos1)->Some_0;
    let (k, v) = cache_after(a, x, pos)->Some_0;
    let d = a.head_dim as int;
    let g = a.kv_heads as int;
    assert forall|j: int| 0 <= j < cached(a1) + x1.shape[1] implies #[trigger] heads_alike(
        val,
        k1,
        b,
        j,
        k,
        b,
        j,
        g,
        d,
    ) by {
        lemma_entry_continues(val, a1, x1, pos1, a, x, pos, b, j);
    }
    assert forall|j: int| 0 <= j < cached(a1) + x1.shape[1] implies #[trigger] heads_alike(
        val,
        v1,
        b,
        j,
        v,
        b,
        j,
        g,
        d,
    ) by {
        lemma_entry_continues(val, a1, x1, pos1, a, x, pos, b, j);
    }
}

proof fn lemma_entry_continues<V>(
    val: spec_fn(Scalar) -> V,
    a1: AttentionView,
    x1: ArrayView,
    pos1: ArrayView,
    a: AttentionView,
    x: ArrayView,
    pos: ArrayView,
    b: int,
    j: int,
)
    requires
        is_meaning(val),
        attention_ready(a1, x1, pos1),
        attention_ready(a, x, pos),
        a.cache is None,
        a1 == a.with_cache(a1.cache),
        all_continue(val, x1, x, cached(a1)),
        angles_continue(pos1, pos, cached(a1)),
        0 <= b < x1.shape[0],
        0 <= j < cached(a1) + x1.shape[1],
        cached(a1) > 0 ==> caches_alike(
            val,
            a,
            a1.cache->Some_0,
            b,
            cache_after(a, x, pos)->Some_0,
            b,
            cached(a1),
        ),
    ensures
        ({
            let (k1, v1) = cache_after(a1, x1, pos1)->Some_0;
            let (k, v) = cache_after(a, x, pos)->Some_0;
            let d = a.head_dim as int;
            &&& heads_alike(val, k1, b, j, k, b, j, a.kv_heads as int, d)
            &&& heads_alike(val, v1, b, j, v, b, j, a.kv_heads as int, d)
        }),
{
    lemma_goes_by_parts(val);
    let t = j - cached(a1);
    if t >= 0 {
        assert(continues(val, x1, x, cached(a1), b, t));
        assert(angles_at(pos1, t) == angles_at(pos, cached(a1) + t));
        lemma_projected_alike(val, a1, x1, pos1, b, t, a, x, pos, b, j);
    } else {
        let (k1, v1) = cache_after(a1, x1, pos1)->Some_0;
        let (k, v) = cache_after(a, x, pos)->Some_0;
        let (pk, pv) = a1.cache->Some_0;
        let d = a.head_dim as int;
        assert(heads_alike(val, pk, b, j, k, b, j, a.kv_heads as int, d));
        assert(heads_alike(val, pv, b, j, v, b, j, a.kv_heads as int, d));
        lemma_cached_at(a1, x1, pos1, b, j);
        assert forall|h: int, c: int| 0 <= h < a.kv_heads && 0 <= c < d implies alike(
            val,
            #[trigger] k1.at4(b, h, j, c),
            k.at4(b, h, j, c),
        ) by {
            assert(alike(val, pk.at4(b, h, j, c), k.at4(b, h, j, c)));
        }
        assert forall|h: int, c: int| 0 <= h < a.kv_heads && 0 <= c < d implies alike(
            val,
            #[trigger] v1.at4(b, h, j, c),
            v.at4(b, h, j, c),
        ) by {
            assert(alike(val, pv.at4(b, h, j, c), v.at4(b, h, j, c)));
        }
    }
}

/// What a layer makes of the next rows means the same as what it makes of them in one pass.
proof fn lemma_layer_continues<V>(
    val: spec_fn(Scalar) -> V,
    l1: LayerView,
    x1: ArrayView,
    pos1: ArrayView,
    mask1: Option<ArrayView>,
    l: LayerView,
    x: ArrayView,
    pos: ArrayView,
    mask: Option<ArrayView>,
)
    requires
        is_meaning(val),
        layer_ready(l1, x1, pos1, mask1),
        layer_ready(l, x, pos, mask),
        l.self_attn.cache is None,
        l1 == l.with_cache(l1.self_attn.cache),
        all_continue(val, x1, x, cached(l1.self_attn)),
        angles_continue(pos1, pos, cached(l1.self_attn)),
        is_causal(mask1, x1.shape[1] as int, cached(l1.self_attn) + x1.shape[1]),
        is_causal(mask, x.shape[1] as int, x.shape[1] as int),
        forall|b: int|
            0 <= b < x.shape[0] && cached(l1.self_attn) > 0 ==> #[trigger] caches_alike(
                val,
                l.self_attn,
                l1.self_attn.cache->Some_0,
                b,
                layer_cache_after(l, x, true, pos)->Some_0,
                b,
                cached(l1.self_attn),
            ),
    ensures
        all_continue(
            val,
            layer_of(l1, x1, true, pos1, mask1)->Some_0,
            layer_of(l, x, true, pos, mask)->Some_0,
            cached(l1.self_attn),
        ),
        forall|b: int|
            0 <= b < x.shape[0] ==> #[trigger] caches_alike(
                val,
                l.self_attn,
                layer_cache_after(l1, x1, true, pos1)->Some_0,
                b,
                layer_cache_after(l, x, true, pos)->Some_0,
                b,
                cached(l1.self_attn) + x1.shape[1],
            ),
{
    reveal(layer_ready);
    let (a1, a) = (l1.self_attn, l.self_attn);
    let off = cached(a1);
    let y1 = norm_of(l1.input_layernorm, x1, true)->Some_0;
    let y = norm_of(l.input_layernorm, x, true)->Some_0;
    lemma_norm_continues(val, l1, x1, l, x, off);
    assert(layer_cache_after(l1, x1, true, pos1) == cache_after(a1, y1, pos1)) by {
        reveal(layer_cache_after);
    }
    assert(layer_cache_after(l, x, true, pos) == cache_after(a, y, pos)) by {
        reveal(layer_cache_after);
    }
    assert forall|b: int| 0 <= b < x.shape[0] implies #[trigger] caches_alike(
        val,
        a,
        cache_after(a1, y1, pos1)->Some_0,
        b,
        cache_after(a, y, pos)->Some_0,
        b,
        off + x1.shape[1],
    ) by {
        if off > 0 {
            assert(caches_alike(
                val,
                a,
                a1.cache->Some_0,
                b,
                layer_cache_after(l, x, true, pos)->Some_0,
                b,
                off,
            ));
        }
        lemma_cache_continues(val, a1, y1, pos1, a, y, pos, b);
    }
    let z1 = layer_of(l1, x1, true, pos1, mask1)->Some_0;
    let z = layer_of(l, x, true, pos, mask)->Some_0;
    law_layer_defined(l1, x1, pos1, mask1);
    law_layer_defined(l, x, pos, mask);
    assert forall|b: int, t: int|
        0 <= b < z1.shape[0] && 0 <= t < z1.shape[1] implies #[trigger] continues(
        val,
        z1,
        z,
        off,
        b,
        t,
    ) by {
        assert(caches_alike(
            val,
            a,
            cache_after(a1, y1, pos1)->Some_0,
            b,
            cache_after(a, y, pos)->Some_0,
            b,
            off + x1.shape[1],
        ));
        lemma_row_continues(val, l1, x1, pos1, mask1, l, x, pos, mask, b, t);
    }
}

/// Rows that mean the same mean the same after they were normalized.
proof fn lemma_norm_continues<V>(
    val: spec_fn(Scalar) -> V,
    l1: LayerView,
    x1: ArrayView,
    l: LayerView,
    x: ArrayView,
    off: int,
)
    requires
        is_meaning(val),
        all_continue(val, x1, x, off),
        l1.input_layernorm == l.input_layernorm,
        norm_of(l1.input_layernorm, x1, true) is Some,
        norm_of(l.input_layernorm, x, true) is Some,
    ensures
        all_continue(
            val,
            norm_of(l1.input_layernorm, x1, true)->Some_0,
            norm_of(l.input_layernorm, x, true)->Some_0,
            off,
        ),
{
    lemma_goes_by_parts(val);
    let n = l.input_layernorm;
    let y1 = norm_of(n, x1, true)->Some_0;
    let y = norm_of(n, x, true)->Some_0;
    assert forall|b: int, t: int|
        0 <= b < y1.shape[0] && 0 <= t < y1.shape[1] implies #[trigger] continues(
        val,
        y1,
        y,
        off,
        b,
        t,
    ) by {
        assert(continues(val, x1, x, off, b, t));
        lemma_norm_row(n, x1, b, t);
        lemma_norm_row(n, x, b, off + t);
        lemma_norm_alike(val, n, row_of(x1, b, t), row_of(x, b, off + t));
    }
}

/// What a layer makes of the next row means the same as what it makes of it in one pass.
proof fn lemma_row_continues<V>(
    val: spec_fn(Scalar) -> V,
    l1: LayerView,
    x1: ArrayView,
    pos1: ArrayView,
    mask1: Option<ArrayView>,
    l: LayerView,
    x: ArrayView,
    pos: ArrayView,
    mask: Option<ArrayView>,
    b: int,
    t: int,
)
    requires
        is_meaning(val),
        layer_ready(l1, x1, pos1, mask1),
        layer_ready(l, x, pos, mask),
        l.self_attn.cache is None,
        l1 == l.with_cache(l1.self_attn.cache),
        all_continue(val, x1, x, cached(l1.self_attn)),
        angles_continue(pos1, pos, cached(l1.self_attn)),
        is_causal(mask1, x1.shape[1] as int, cached(l1.self_attn) + x1.shape[1]),
        is_causal(mask, x.shape[1] as int, x.shape[1] as int),
        0 <= b < x1.shape[0],
        0 <= t < x1.shape[1],
        caches_alike(
            val,
            l.self_attn,
            cache_after(
                l1.self_attn,
                norm_of(l1.input_layernorm, x1, true)->Some_0,
                pos1,
            )->Some_0,
            b,
            cache_after(l.self_attn, norm_of(l.input_layernorm, x, true)->Some_0, pos)->Some_0,
            b,
            cached(l1.self_attn) + x1.shape[1],
        ),
    ensures
        continues(
            val,
            layer_of(l1, x1, true, pos1, mask1)->Some_0,
            layer_of(l, x, true, pos, mask)->Some_0,
            cached(l1.self_attn),
            b,
            t,
        ),
{
    reveal(layer_ready);
    let (a1, a) = (l1.self_attn, l.self_attn);
    let off = cached(a1);
    let u = off + t;
    let y1 = norm_of(l1.input_layernorm, x1, true)->Some_0;
    let y = norm_of(l.input_layernorm, x, true)->Some_0;
    lemma_norm_continues(val, l1, x1, l, x, off);
    assert(continues(val, y1, y, off, b, t));
    assert(angles_at(pos1, t) == angles_at(pos, off + t));
    assert(sees_back(mask1, t, x1.shape[1] as int, off + x1.shape[1]));
    assert(sees_back(mask, u, x.shape[1] as int, x.shape[1] as int));
    lemma_attention_alike(val, a1, y1, pos1, mask1, b, t, a, y, pos, mask, b, u, u + 1);
    lemma_layer_row(l1, x1, pos1, mask1, b, t);
    lemma_layer_row(l, x, pos, mask, b, u);
    let (r1, r) = (
        row_of(attention_of(a1, y1, pos1, mask1)->Some_0, b, t),
        row_of(attention_of(a, y, pos, mask)->Some_0, b, u),
    );
    let (s1, s) = (row_of(x1, b, t), row_of(x, b, u));
    assert(continues(val, x1, x, off, b, t));
    lemma_goes_by_parts(val);
    lemma_sum_alike(val, r1, s1, r, s);
    lemma_fed_alike(val, l, sum_row(r1, s1), sum_row(r, s));
    assert(fed_row(l1, sum_row(r1, s1)) == fed_row(l, sum_row(r1, s1)));
}

/// Attention can be paid to some positions after the others: a layer that holds the first
/// positions of a sequence in its cache makes of the next rows what it makes of them in one
/// pass over all positions, where each sees itself and what comes before it, and then holds
/// these positions too. This is up to what the formulas mean.
pub proof fn law_attention_continues<V>(
    val: spec_fn(Scalar) -> V,
    a1: AttentionView,
    x1: ArrayView,
    pos1: ArrayView,
    mask1: Option<ArrayView>,
    a: AttentionView,
    x: ArrayView,
    pos: ArrayView,
    mask: Option<ArrayView>,
    b: int,
    t: int,
)
    requires
        is_meaning(val),
        attention_ready(a1, x1, pos1),
        attention_ready(a, x, pos),
        mask_fits(a1, x1, mask1),
        mask_fits(a, x, mask),
        a.cache is None,
        a1 == a.with_cache(a1.cache),
        all_continue(val, x1, x, cached(a1)),
        angles_continue(pos1, pos, cached(a1)),
        is_causal(mask1, x1.shape[1] as int, cached(a1) + x1.shape[1]),
        is_causal(mask, x.shape[1] as int, x.shape[1] as int),
        0 <= b < x1.shape[0],
        0 <= t < x1.shape[1],
        cached(a1) > 0 ==> caches_alike(
            val,
            a,
            a1.cache->Some_0,
            b,
            cache_after(a, x, pos)->Some_0,
            b,
            cached(a1),
        ),
    ensures
        continues(
            val,
            attention_of(a1, x1, pos1, mask1)->Some_0,
            attention_of(a, x, pos, mask)->Some_0,
            cached(a1),
            b,
            t,
        ),
        caches_alike(
            val,
            a,
            cache_after(a1, x1, pos1)->Some_0,
            b,
            cache_after(a, x, pos)->Some_0,
            b,
            cached(a1) + x1.shape[1],
        ),
{
    let off = cached(a1);
    let u = off + t;
    lemma_cache_continues(val, a1, x1, pos1, a, x, pos, b);
    assert(continues(val, x1, x, off, b, t));
    assert(angles_at(pos1, t) == angles_at(pos, off + t));
    assert(sees_back(mask1, t, x1.shape[1] as int, off + x1.shape[1]));
    assert(sees_back(mask, u, x.shape[1] as int, x.shape[1] as int));
    lemma_attention_alike(val, a1, x1, pos1, mask1, b, t, a, x, pos, mask, b, u, u + 1);
}

/// Fewer positions can be addressed too.
pub(crate) proof fn lemma_fewer_addressable(
    a1: AttentionView,
    a: AttentionView,
    b: usize,
    s1: usize,
    t1: int,
    s: usize,
    t: int,
)
    requires
        a1 == a.with_cache(a1.cache),
        attention_addressable(a, b, s, t),
        s1 <= s,
        0 <= t1 <= t,
    ensures
        attention_addressable(a1, b, s1, t1),
{
    let n = group_of(a);
    let (tt1, tt) = (t1 as usize, t as usize);
    let w = (a.hidden + 2 * a.kv_width()) as usize;
    lemma_addressable_smaller(seq![b, s1, a.hidden], seq![b, s, a.hidden]);
    lemma_addressable_smaller(seq![b, s1, w], seq![b, s, w]);
    lemma_addressable_smaller(seq![b, s1, a.heads, a.head_dim], seq![b, s, a.heads, a.head_dim]);
    lemma_addressable_smaller(
        seq![b, s1, a.kv_heads, a.head_dim],
        seq![b, s, a.kv_heads, a.head_dim],
    );
    lemma_addressable_smaller(seq![b, a.heads, s1, a.head_dim], seq![b, a.heads, s, a.head_dim]);
    lemma_addressable_smaller(
        seq![b, a.kv_heads, s1, a.head_dim],
        seq![b, a.kv_heads, s, a.head_dim],
    );
    lemma_addressable_smaller(
        seq![b, a.kv_heads, tt1, a.head_dim],
        seq![b, a.kv_heads, tt, a.head_dim],
    );
    lemma_addressable_smaller(
        seq![b, a.kv_heads, n, tt1, a.head_dim],
        seq![b, a.kv_heads, n, tt, a.head_dim],
    );
    lemma_addressable_smaller(seq![b, a.heads, s1, tt1], seq![b, a.heads, s, tt]);
}

/// Whether a layer is another one with the first `n` positions of a cache in its own, for `nb`
/// sequences.
#[verifier::opaque]
pub open spec fn layer_stands_at<V>(
    val: spec_fn(Scalar) -> V,
    l1: LayerView,
    l: LayerView,
    whole: Option<(ArrayView, ArrayView)>,
    nb: usize,
    kind: ElementKind,
    cpu: bool,
    n: int,
) -> bool {
    let a = l.self_attn;
    &&& l1 == l.with_cache(l1.self_attn.cache)
    &&& match l1.self_attn.cache {
        None => n == 0,
        Some((k, v)) => {
            &&& 0 < n <= usize::MAX
            &&& k.shape == seq![nb, a.kv_heads, n as usize, a.head_dim]
            &&& v.shape == k.shape
            &&& k.kind == kind && v.kind == kind
            &&& k.cpu == cpu && v.cpu == cpu
            &&& whole is Some
            &&& forall|b: int|
                0 <= b < nb ==> #[trigger] caches_alike(val, a, (k, v), b, whole->Some_0, b, n)
        },
    }
}

/// Whether `m1` is the model `m` with the first `n` positions of the sequences `ids` in its
/// caches.
pub open spec fn stands_at<V>(
    val: spec_fn(Scalar) -> V,
    m1: ModelView,
    m: ModelView,
    ids: ArrayView,
    pos: ArrayView,
    n: int,
) -> bool {
    let x = lookup_of(m.embed_tokens, ids)->Some_0;
    let mask = mask_for(ids)->Some_0;
    &&& m1 == m.with_layers(m1.layers)
    &&& m1.layers.len() == m.layers.len()
    &&& forall|i: int|
        0 <= i < m.layers.len() ==> layer_stands_at(
            val,
            #[trigger] m1.layers[i],
            m.layers[i],
            stack_cache_after(m.layers, i, x, pos, mask),
            ids.shape[0],
            m.kind(),
            m.embed_tokens.table.cpu,
            n,
        )
}

/// Whether a model with empty caches can be applied to the sequences `ids`, with a table of
/// rotations that has a row per position.
pub open spec fn model_ready(
    m: ModelView,
    ids: ArrayView,
    pos: ArrayView,
    head_dim: usize,
) -> bool {
    &&& ids.rank() == 2
    &&& lookup_of(m.embed_tokens, ids) is Some
    &&& model_regular(m, ids.shape[0], ids.shape[1], head_dim)
    &&& model_addressable(m, ids.shape[0], ids.shape[1])
    &&& pos.shape == seq![1usize, ids.shape[1], head_dim]
    &&& m.layers.len() > 0 ==> pos.kind == m.kind()
    &&& forall|i: int|
        0 <= i < m.layers.len() ==> (#[trigger] m.layers[i]).self_attn.cache is None
}

/// A model that stands at some position can be applied to the next ones.
proof fn lemma_part_ready<V>(
    val: spec_fn(Scalar) -> V,
    m1: ModelView,
    m: ModelView,
    ids: ArrayView,
    pos: ArrayView,
    head_dim: usize,
    off: int,
    len: usize,
)
    requires
        model_ready(m, ids, pos, head_dim),
        stands_at(val, m1, m, ids, pos, off),
        0 <= off,
        off + len <= ids.shape[1],
        len == 1 || off == 0,
    ensures
        model_regular(m1, ids.shape[0], len, head_dim),
        model_addressable(m1, ids.shape[0], len),
        forall|i: int|
            0 <= i < m1.layers.len() ==> cached((#[trigger] m1.layers[i]).self_attn) == off,
{
    reveal(layer_stands_at);
    let (b, s) = (ids.shape[0], ids.shape[1]);
    assert forall|i: int| 0 <= i < m1.layers.len() implies ({
        &&& (#[trigger] m1.layers[i]).is_for(m.hidden())
        &&& m1.layers[i].self_attn.kv_heads > 0
        &&& layer_regular(m1.layers[i], b, m.kind(), m.embed_tokens.table.cpu)
        &&& m1.layers[i].self_attn.head_dim == head_dim
        &&& cached(m1.layers[i].self_attn) == off
        &&& layer_addressable(m1.layers[i], b, len)
    }) by {
        let (l1, l) = (m1.layers[i], m.layers[i]);
        assert(l.is_for(m.hidden()));
        assert(l.self_attn.kv_heads > 0);
        assert(layer_regular(l, b, m.kind(), m.embed_tokens.table.cpu));
        assert(l.self_attn.cache is None);
        assert(layer_addressable(l, b, s));
        lemma_fewer_addressable(l1.self_attn, l.self_attn, b, len, off + len, s, s as int);
        lemma_addressable_smaller(
            seq![b, len, l.mlp.gate.weight.shape[0]],
            seq![b, s, l.mlp.gate.weight.shape[0]],
        );
    }
    lemma_addressable_smaller(seq![b, len, m.hidden()], seq![b, s, m.hidden()]);
    lemma_addressable_smaller(seq![b, len, m.vocab()], seq![b, s, m.vocab()]);
    if len > 1 {
        lemma_addressable_smaller(seq![len, len], seq![s, s]);
    }
}

/// What the layers make of the next rows means the same as what they make of them in one pass,
/// and they come to stand behind these rows.
#[verifier::rlimit(40)]
#[verifier::spinoff_prover]
proof fn lemma_stack_continues<V>(
    val: spec_fn(Scalar) -> V,
    m1: ModelView,
    x1: ArrayView,
    pos1: ArrayView,
    mask1: Option<ArrayView>,
    m: ModelView,
    x: ArrayView,
    pos: ArrayView,
    mask: Option<ArrayView>,
    head_dim: usize,
    off: int,
    n: nat,
)
    requires
        is_meaning(val),
        n <= m.layers.len(),
        m1.layers.len() == m.layers.len(),
        stack_ready(m1, x1, pos1, mask1, head_dim),
        stack_ready(m, x, pos, mask, head_dim),
        m1.embed_tokens == m.embed_tokens,
        all_continue(val, x1, x, off),
        angles_continue(pos1, pos, off),
        is_causal(mask1, x1.shape[1] as int, off + x1.shape[1]),
        is_causal(mask, x.shape[1] as int, x.shape[1] as int),
        forall|i: int|
            0 <= i < m.layers.len() ==> (#[trigger] m.layers[i]).self_attn.cache is None,
        forall|i: int|
            0 <= i < m.layers.len() ==> layer_stands_at(
                val,
                #[trigger] m1.layers[i],
                m.layers[i],
                stack_cache_after(m.layers, i, x, pos, mask),
                x.shape[0],
                x.kind, x.cpu,
                off,
            ),
    ensures
        all_continue(
            val,
            stack_of(m1.layers, n, x1, pos1, mask1)->Some_0,
            stack_of(m.layers, n, x, pos, mask)->Some_0,
            off,
        ),
        forall|i: int|
            0 <= i < n ==> layer_stands_at(
                val,
                (#[trigger] m1.layers[i]).with_cache(
                    stack_cache_after(m1.layers, i, x1, pos1, mask1),
                ),
                m.layers[i],
                stack_cache_after(m.layers, i, x, pos, mask),
                x.shape[0],
                x.kind, x.cpu,
                off + x1.shape[1],
            ),
    decreases n,
{
    if n > 0 {
        let k = (n - 1) as nat;
        lemma_stack_continues(val, m1, x1, pos1, mask1, m, x, pos, mask, head_dim, off, k);
        lemma_stack_ready(m1, k, x1, pos1, mask1, head_dim);
        lemma_stack_ready(m, k, x, pos, mask, head_dim);
        let (l1, l) = (m1.layers[k as int], m.layers[k as int]);
        let y1 = stack_of(m1.layers, k, x1, pos1, mask1)->Some_0;
        let y = stack_of(m.layers, k, x, pos, mask)->Some_0;
        assert(l.self_attn.cache is None);
        lemma_layer_stands(val, l1, y1, pos1, mask1, l, y, pos, mask, off);
    }
}

/// A layer that stands before some rows comes to stand behind them.
proof fn lemma_layer_stands<V>(
    val: spec_fn(Scalar) -> V,
    l1: LayerView,
    x1: ArrayView,
    pos1: ArrayView,
    mask1: Option<ArrayView>,
    l: LayerView,
    x: ArrayView,
    pos: ArrayView,
    mask: Option<ArrayView>,
    off: int,
)
    requires
        is_meaning(val),
        layer_ready(l1, x1, pos1, mask1),
        layer_ready(l, x, pos, mask),
        x1.kind == x.kind,
        x1.cpu == x.cpu,
        x1.shape[1] > 0,
        l.self_attn.cache is None,
        all_continue(val, x1, x, off),
        angles_continue(pos1, pos, off),
        is_causal(mask1, x1.shape[1] as int, off + x1.shape[1]),
        is_causal(mask, x.shape[1] as int, x.shape[1] as int),
        layer_stands_at(val, l1, l, layer_cache_after(l, x, true, pos), x.shape[0], x.kind, x.cpu, off),
    ensures
        all_continue(
            val,
            layer_of(l1, x1, true, pos1, mask1)->Some_0,
            layer_of(l, x, true, pos, mask)->Some_0,
            off,
        ),
        layer_stands_at(
            val,
            l1.with_cache(layer_cache_after(l1, x1, true, pos1)),
            l,
            layer_cache_after(l, x, true, pos),
            x.shape[0],
            x.kind, x.cpu,
            off + x1.shape[1],
        ),
{
    reveal(layer_ready);
    reveal(layer_stands_at);
    lemma_layer_continues(val, l1, x1, pos1, mask1, l, x, pos, mask);
    lemma_layer_cache(l1, x1, pos1, mask1);
    lemma_layer_cache(l, x, pos, mask);
}

/// Whether the layers of a model can be applied to rows.
#[verifier::opaque]
pub open spec fn stack_ready(
    m: ModelView,
    x: ArrayView,
    pos: ArrayView,
    mask: Option<ArrayView>,
    head_dim: usize,
) -> bool {
    &&& x.rank() == 3
    &&& x.shape[1] > 0
    &&& x.shape[2] == m.hidden()
    &&& x.kind == m.kind()
    &&& x.cpu == m.embed_tokens.table.cpu
    &&& model_regular(m, x.shape[0], x.shape[1], head_dim)
    &&& model_addressable(m, x.shape[0], x.shape[1])
    &&& pos.shape == seq![1usize, x.shape[1], head_dim]
    &&& m.layers.len() > 0 ==> pos.kind == m.kind()
    &&& mask matches Some(m) ==> x.shape[1] > 1 && m.shape == seq![x.shape[1], x.shape[1]]
        && m.kind == ElementKind::F32
}

/// Each layer can be applied to what the layers before it make.
proof fn lemma_stack_ready(
    m: ModelView,
    k: nat,
    x: ArrayView,
    pos: ArrayView,
    mask: Option<ArrayView>,
    head_dim: usize,
)
    requires
        k < m.layers.len(),
        stack_ready(m, x, pos, mask, head_dim),
    ensures
        stack_of(m.layers, k, x, pos, mask) is Some,
        stack_of(m.layers, k, x, pos, mask)->Some_0.shape == x.shape,
        stack_of(m.layers, k, x, pos, mask)->Some_0.cpu == x.cpu,
        stack_of(m.layers, k, x, pos, mask)->Some_0.kind == x.kind,
        x.kind == m.kind(),
        x.cpu == m.embed_tokens.table.cpu,
        x.shape[1] > 0,
        layer_ready(
            m.layers[k as int],
            stack_of(m.layers, k, x, pos, mask)->Some_0,
            pos,
            mask,
        ),
{
    reveal(stack_ready);
    reveal(layer_ready);
    lemma_stack_defined(m, k, x, pos, mask, head_dim);
    let l = m.layers[k as int];
    assert(layer_regular(l, x.shape[0], m.kind(), x.cpu));
    assert(layer_addressable(l, x.shape[0], x.shape[1]));
    assert(l.is_for(m.hidden()));
    assert(l.self_attn.kv_heads > 0);
}

/// The sizes of the cache of a layer after rows were seen.
proof fn lemma_layer_cache(l: LayerView, x: ArrayView, pos: ArrayView, mask: Option<ArrayView>)
    requires
        layer_ready(l, x, pos, mask),
    ensures
        layer_cache_after(l, x, true, pos) matches Some((k, v)) && {
            &&& k.shape == seq![
                x.shape[0],
                l.self_attn.kv_heads,
                (cached(l.self_attn) + x.shape[1]) as usize,
                l.self_attn.head_dim,
            ]
            &&& v.shape == k.shape
            &&& k.kind == x.kind && v.kind == x.kind
            &&& k.cpu == x.cpu && v.cpu == x.cpu
        },
        cached(l.self_attn) + x.shape[1] <= usize::MAX,
{
    reveal(layer_ready);
    reveal(layer_cache_after);
    law_attention_defined(l.self_attn, norm_of(l.input_layernorm, x, true)->Some_0, pos, mask);
}

/// The mask for sequences lets each position see itself and what comes before it.
proof fn lemma_mask_causal(ids: ArrayView, off: int)
    requires
        ids.rank() == 2,
        mask_for(ids) is Some,
        ids.shape[1] <= 1 || off == 0,
        ids.shape[1] > 0,
    ensures
        is_causal(mask_for(ids)->Some_0, ids.shape[1] as int, off + ids.shape[1]),
{
    let n = ids.shape[1];
    let mask = mask_for(ids)->Some_0;
    if n > 1 {
        assert forall|t: int| 0 <= t < n implies #[trigger] sees_back(
            mask,
            t,
            n as int,
            off + n,
        ) by {
            assert forall|j: int| 0 <= j < n implies #[trigger] mask_at(mask, t, j) == Some(
                Scalar::Bits(
                    if j < t + 1 {
                        0
                    } else {
                        NEG_INFINITY
                    },
                ),
            ) by {
                law_mask_hides_future(n, ids.cpu, t, j);
            }
        }
    } else {
        assert forall|t: int| 0 <= t < n implies #[trigger] sees_back(
            mask,
            t,
            n as int,
            off + n,
        ) by {}
    }
}

/// The rows of some of the positions are those of all positions.
proof fn lemma_part_rows(m: ModelView, ids: ArrayView, off: int, len: usize)
    requires
        m.consistent(),
        ids.rank() == 2,
        lookup_of(m.embed_tokens, ids) is Some,
        0 <= off,
        off + len <= ids.shape[1],
    ensures
        ({
            let x = lookup_of(m.embed_tokens, ids)->Some_0;
            let y = lookup_of(m.embed_tokens, part(ids, off, len));
            &&& y is Some
            &&& forall|b: int, t: int|
                0 <= b < ids.shape[0] && 0 <= t < len ==> #[trigger] row_of(y->Some_0, b, t)
                    == row_of(x, b, off + t)
        }),
{
    let p = part(ids, off, len);
    let e = m.embed_tokens;
    let w = m.hidden();
    let (sp, si) = (p.shape.push(w), ids.shape.push(w));
    assert forall|d: int| 0 <= d < sp.len() implies #[trigger] sp[d] <= si[d] by {
        if d == 0 {
        } else if d == 1 {
        } else {
        }
    }
    lemma_addressable_smaller(sp, si);
    lemma_numel_axes(p.shape);
    lemma_numel_axes(ids.shape);
    assert(p.count() > 0 ==> ids.count() > 0) by {
        if p.count() > 0 {
            assert(p.shape[0] > 0 && p.shape[1] > 0);
            assert forall|d: int| 0 <= d < 2 implies #[trigger] ids.shape[d] > 0 by {
                if d == 0 {
                } else {
                }
            }
        }
    }
    if strays(p, e.table.shape[0]) {
        let i = choose|i: Seq<int>| #[trigger]
            in_bounds(p.shape, i) && (p.at(i) matches Scalar::Index(v) && !(0 <= v
                < e.table.shape[0]));
        let j = i.update(1, i[1] + off);
        assert(0 <= i[0] < p.shape[0] && 0 <= i[1] < p.shape[1]);
        assert(in_bounds(ids.shape, j)) by {
            assert forall|d: int| 0 <= d < 2 implies 0 <= #[trigger] j[d] < ids.shape[d] by {
                if d == 0 {
                } else {
                }
            }
        }
        assert(p.at(i) == ids.at(j));
    }
    let x = lookup_of(e, ids)->Some_0;
    let y = lookup_of(e, p)->Some_0;
    assert(lookup_of(e, p) is Some);
    assert forall|b: int, t: int|
        0 <= b < ids.shape[0] && 0 <= t < len implies #[trigger] row_of(y, b, t) == row_of(
        x,
        b,
        off + t,
    ) by {
        let (l, r) = (row_of(y, b, t), row_of(x, b, off + t));
        assert forall|c: int| 0 <= c < l.len() implies l[c] == r[c] by {
            let (i, j) = (seq![b, t, c], seq![b, off + t, c]);
            lemma_in3(sp, b, t, c);
            lemma_in3(si, b, off + t, c);
            let (u, v) = (i.drop_last(), j.drop_last());
            assert(u =~= seq![b, t]);
            assert(v =~= seq![b, off + t]);
            assert(in_bounds(p.shape, u)) by {
                assert forall|d: int| 0 <= d < 2 implies 0 <= #[trigger] u[d] < p.shape[d] by {
                    if d == 0 {
                    } else {
                    }
                }
            }
            assert(u.update(1, u[1] + off) =~= v);
            assert(p.at(u) == ids.at(v));
        }
        assert(l =~= r);
    }
}

/// The angles of some of the positions are those of all positions.
pub(crate) proof fn lemma_part_angles(pos: ArrayView, head_dim: usize, off: int, len: usize)
    requires
        pos.shape == seq![1usize, pos.shape[1], head_dim],
        0 <= off,
        off + len <= pos.shape[1],
    ensures
        part(pos, off, len).shape == seq![1usize, len, head_dim],
        angles_continue(part(pos, off, len), pos, off),
{
    let p = part(pos, off, len);
    assert(p.shape =~= seq![1usize, len, head_dim]);
    assert forall|t: int| 0 <= t < len implies #[trigger] angles_at(p, t) == angles_at(
        pos,
        off + t,
    ) by {
        let (l, r) = (angles_at(p, t), angles_at(pos, off + t));
        assert forall|c: int| 0 <= c < l.len() implies l[c] == r[c] by {
            let i = seq![0, t, c];
            lemma_in3(p.shape, 0, t, c);
            assert(i.update(1, i[1] + off) =~= seq![0, off + t, c]);
        }
        assert(l =~= r);
    }
}

/// The scores of rows that mean the same mean the same.
proof fn lemma_head_continues<V>(
    val: spec_fn(Scalar) -> V,
    m: ModelView,
    x1: ArrayView,
    x: ArrayView,
    off: int,
)
    requires
        is_meaning(val),
        m.consistent(),
        all_continue(val, x1, x, off),
        head_of(m, x1) is Some,
        head_of(m, x) is Some,
    ensures
        all_continue(val, head_of(m, x1)->Some_0, head_of(m, x)->Some_0, off),
{
    lemma_goes_by_parts(val);
    let (y1, y) = (norm_of(m.norm, x1, true)->Some_0, norm_of(m.norm, x, true)->Some_0);
    let (z1, z) = (head_of(m, x1)->Some_0, head_of(m, x)->Some_0);
    assert forall|b: int, t: int|
        0 <= b < z1.shape[0] && 0 <= t < z1.shape[1] implies #[trigger] continues(
        val,
        z1,
        z,
        off,
        b,
        t,
    ) by {
        assert(continues(val, x1, x, off, b, t));
        lemma_norm_row(m.norm, x1, b, t);
        lemma_norm_row(m.norm, x, b, off + t);
        lemma_dense_row(m.lm_head, y1, b, t);
        lemma_dense_row(m.lm_head, y, b, off + t);
        lemma_norm_alike(val, m.norm, row_of(x1, b, t), row_of(x, b, off + t));
        lemma_dense_alike(val, m.lm_head, row_of(y1, b, t), row_of(y, b, off + t));
    }
}

/// A model can be applied to some positions after the others. Where its caches hold the first
/// `off` positions of the sequences, its scores for the next `len` positions, either a single
/// one or the first ones, mean the same as in one pass over all positions, and its caches then
/// hold these positions too.
#[verifier::rlimit(30)]
pub proof fn law_pass_continues<V>(
    val: spec_fn(Scalar) -> V,
    m1: ModelView,
    m: ModelView,
    ids: ArrayView,
    pos: ArrayView,
    head_dim: usize,
    off: int,
    len: usize,
)
    requires
        is_meaning(val),
        model_ready(m, ids, pos, head_dim),
        stands_at(val, m1, m, ids, pos, off),
        0 <= off,
        0 < len,
        off + len <= ids.shape[1],
        len == 1 || off == 0,
    ensures
        forward_of(m, ids, pos) is Some,
        forward_of(m1, part(ids, off, len), part(pos, off, len)) is Some,
        all_continue(
            val,
            forward_of(m1, part(ids, off, len), part(pos, off, len))->Some_0,
            forward_of(m, ids, pos)->Some_0,
            off,
        ),
        stands_at(
            val,
            model_after(m1, part(ids, off, len), part(pos, off, len)),
            m,
            ids,
            pos,
            off + len,
        ),
{
    let (ids1, pos1) = (part(ids, off, len), part(pos, off, len));
    let (b, s) = (ids.shape[0], ids.shape[1]);
    lemma_part_ready(val, m1, m, ids, pos, head_dim, off, len);
    lemma_part_rows(m, ids, off, len);
    lemma_part_angles(pos, head_dim, off, len);
    assert(ids1.shape =~= seq![b, len]);
    law_forward_defined(m, ids, pos, head_dim);
    law_forward_defined(m1, ids1, pos1, head_dim);
    lemma_mask_causal(ids1, off);
    lemma_mask_causal(ids, 0);
    let x1 = lookup_of(m.embed_tokens, ids1)->Some_0;
    let x = lookup_of(m.embed_tokens, ids)->Some_0;
    let (mask1, mask) = (mask_for(ids1)->Some_0, mask_for(ids)->Some_0);
    assert(all_continue(val, x1, x, off)) by {
        assert forall|c: int, t: int|
            0 <= c < x1.shape[0] && 0 <= t < x1.shape[1] implies #[trigger] continues(
            val,
            x1,
            x,
            off,
            c,
            t,
        ) by {
            assert(row_of(x1, c, t) == row_of(x, c, off + t));
        }
    }
    assert(stack_ready(m1, x1, pos1, mask1, head_dim)) by {
        reveal(stack_ready);
    }
    assert(stack_ready(m, x, pos, mask, head_dim)) by {
        reveal(stack_ready);
    }
    let n = m.layers.len();
    lemma_stack_continues(val, m1, x1, pos1, mask1, m, x, pos, mask, head_dim, off, n);
    let y1 = stack_of(m1.layers, n, x1, pos1, mask1)->Some_0;
    let y = stack_of(m.layers, n, x, pos, mask)->Some_0;
    assert(head_of(m1, y1) == head_of(m, y1));
    lemma_head_continues(val, m, y1, y, off);
    let after = model_after(m1, ids1, pos1);
    assert forall|i: int| 0 <= i < n implies layer_stands_at(
        val,
        #[trigger] after.layers[i],
        m.layers[i],
        stack_cache_after(m.layers, i, x, pos, mask),
        b,
        m.kind(),
        m.embed_tokens.table.cpu,
        off + len,
    ) by {
        assert(after.layers[i] == m1.layers[i].with_cache(
            stack_cache_after(m1.layers, i, x1, pos1, mask1),
        ));
    }
}

/// The model `m` after it was applied to the first `n` positions of the sequences `ids`, one
/// at a time.
pub open spec fn stepped(m: ModelView, ids: ArrayView, pos: ArrayView, n: nat) -> ModelView
    decreases n,
{
    if n == 0 {
        m
    } else {
        model_after(
            stepped(m, ids, pos, (n - 1) as nat),
            part(ids, n - 1, 1),
            part(pos, n - 1, 1),
        )
    }
}

/// One token at a time comes to the same as all tokens at once: a model with empty caches that
/// is applied to the positions of sequences one after the other gives each the scores that it
/// gives it in a single pass. This is up to what the formulas mean.
pub proof fn law_one_at_a_time<V>(
    val: spec_fn(Scalar) -> V,
    m: ModelView,
    ids: ArrayView,
    pos: ArrayView,
    head_dim: usize,
    t: nat,
)
    requires
        is_meaning(val),
        model_ready(m, ids, pos, head_dim),
        t < ids.shape[1],
    ensures
        forward_of(m, ids, pos) is Some,
        forward_of(stepped(m, ids, pos, t), part(ids, t as int, 1), part(pos, t as int, 1)) is Some,
        all_continue(
            val,
            forward_of(
                stepped(m, ids, pos, t),
                part(ids, t as int, 1),
                part(pos, t as int, 1),
            )->Some_0,
            forward_of(m, ids, pos)->Some_0,
            t as int,
        ),
{
    lemma_steps_stand(val, m, ids, pos, head_dim, t);
    law_pass_continues(val, stepped(m, ids, pos, t), m, ids, pos, head_dim, t as int, 1);
}

proof fn lemma_steps_stand<V>(
    val: spec_fn(Scalar) -> V,
    m: ModelView,
    ids: ArrayView,
    pos: ArrayView,
    head_dim: usize,
    n: nat,
)
    requires
        is_meaning(val),
        model_ready(m, ids, pos, head_dim),
        n <= ids.shape[1],
    ensures
        stands_at(val, stepped(m, ids, pos, n), m, ids, pos, n as int),
    decreases n,
{
    if n == 0 {
        assert forall|i: int| 0 <= i < m.layers.len() implies layer_stands_at(
            val,
            #[trigger] m.layers[i],
            m.layers[i],
            stack_cache_after(
                m.layers,
                i,
                lookup_of(m.embed_tokens, ids)->Some_0,
                pos,
                mask_for(ids)->Some_0,
            ),
            ids.shape[0],
            m.kind(),
            m.embed_tokens.table.cpu,
            0,
        ) by {
            reveal(layer_stands_at);
            assert(m.layers[i].self_attn.cache is None);
        }
    } else {
        let k = (n - 1) as nat;
        lemma_steps_stand(val, m, ids, pos, head_dim, k);
        law_pass_continues(val, stepped(m, ids, pos, k), m, ids, pos, head_dim, k as int, 1);
    }
}

/// The first positions of sequences are scored.
#[verifier::rlimit(30)]
proof fn lemma_part_scored<V>(
    val: spec_fn(Scalar) -> V,
    m1: ModelView,
    m: ModelView,
    ids: ArrayView,
    pos: ArrayView,
    head_dim: usize,
    n: usize,
)
    requires
        model_ready(m, ids, pos, head_dim),
        stands_at(val, m1, m, ids, pos, 0),
        0 < n <= ids.shape[1],
    ensures
        forward_of(m1, part(ids, 0, n), part(pos, 0, n)) matches Some(y) && y.shape == seq![
            ids.shape[0],
            n,
            m.vocab(),
        ],
{
    let (ids1, pos1) = (part(ids, 0, n), part(pos, 0, n));
    lemma_part_ready(val, m1, m, ids, pos, head_dim, 0, n);
    lemma_part_rows(m, ids, 0, n);
    lemma_part_angles(pos, head_dim, 0, n);
    assert(ids1.shape =~= seq![ids.shape[0], n]);
    law_forward_defined(m1, ids1, pos1, head_dim);
}

/// The first positions of sequences have the scores that they have without the others, where
/// the caches are empty.
#[verifier::rlimit(30)]
proof fn lemma_first_alike<V>(
    val: spec_fn(Scalar) -> V,
    m1: ModelView,
    m: ModelView,
    ids: ArrayView,
    pos: ArrayView,
    head_dim: usize,
    n: usize,
    b: int,
    t: int,
)
    requires
        is_meaning(val),
        model_ready(m, ids, pos, head_dim),
        stands_at(val, m1, m, ids, pos, 0),
        n <= ids.shape[1],
        0 <= b < ids.shape[0],
        0 <= t < n,
    ensures
        alike_all(
            val,
            row_of(forward_of(m1, part(ids, 0, n), part(pos, 0, n))->Some_0, b, t),
            row_of(forward_of(m, ids, pos)->Some_0, b, t),
        ),
{
    let y1 = forward_of(m1, part(ids, 0, n), part(pos, 0, n))->Some_0;
    let y = forward_of(m, ids, pos)->Some_0;
    assert(y1.shape == seq![ids.shape[0], n, m.vocab()]) by {
        lemma_part_scored(val, m1, m, ids, pos, head_dim, n);
    }
    assert(all_continue(val, y1, y, 0)) by {
        law_pass_continues(val, m1, m, ids, pos, head_dim, 0, n);
    }
    assert(continues(val, y1, y, 0, b, t));
}

/// The first positions of sequences have the scores that they have without the others.
pub(crate) proof fn lemma_first_scores<V>(
    val: spec_fn(Scalar) -> V,
    m: ModelView,
    ids: ArrayView,
    pos: ArrayView,
    head_dim: usize,
    n: usize,
    b: int,
    t: int,
)
    requires
        is_meaning(val),
        model_ready(m, ids, pos, head_dim),
        n <= ids.shape[1],
        0 <= b < ids.shape[0],
        0 <= t < n,
    ensures
        alike_all(
            val,
            row_of(forward_of(m, part(ids, 0, n), part(pos, 0, n))->Some_0, b, t),
            row_of(forward_of(m, ids, pos)->Some_0, b, t),
        ),
{
    let m1 = stepped(m, ids, pos, 0);
    lemma_steps_stand(val, m, ids, pos, head_dim, 0);
    lemma_first_alike(val, m1, m, ids, pos, head_dim, n, b, t);
}

/// Whether sequence `b1` of `x1` and sequence `b2` of `x2` have the same rows.
pub open spec fn same_rows(x1: ArrayView, b1: int, x2: ArrayView, b2: int) -> bool {
    &&& x1.shape[1] == x2.shape[1]
    &&& forall|t: int| 0 <= t < x1.shape[1] ==> #[trigger] row_of(x1, b1, t) == row_of(x2, b2, t)
}

/// Whether two layers have the same parameters and the same keys and values of two sequences in
/// their caches.
#[verifier::opaque]
pub open spec fn same_cached(l1: LayerView, b1: int, l2: LayerView, b2: int) -> bool {
    let (a1, a2) = (l1.self_attn, l2.self_attn);
    &&& l2 == l1.with_cache(a2.cache)
    &&& cached(a1) == cached(a2)
    &&& cached(a1) > 0 ==> caches_alike(
        literally(),
        a1,
        a1.cache->Some_0,
        b1,
        a2.cache->Some_0,
        b2,
        cached(a1),
    )
}

/// What a layer makes of a sequence does not depend on the sequences beside it.
proof fn lemma_layer_apart(
    l1: LayerView,
    x1: ArrayView,
    b1: int,
    l2: LayerView,
    x2: ArrayView,
    b2: int,
    pos: ArrayView,
    mask: Option<ArrayView>,
)
    requires
        layer_ready(l1, x1, pos, mask),
        layer_ready(l2, x2, pos, mask),
        same_cached(l1, b1, l2, b2),
        same_rows(x1, b1, x2, b2),
        0 <= b1 < x1.shape[0],
        0 <= b2 < x2.shape[0],
    ensures
        same_rows(
            layer_of(l1, x1, true, pos, mask)->Some_0,
            b1,
            layer_of(l2, x2, true, pos, mask)->Some_0,
            b2,
        ),
{
    reveal(layer_ready);
    reveal(same_cached);
    let n1 = norm_of(l1.input_layernorm, x1, true)->Some_0;
    let n2 = norm_of(l2.input_layernorm, x2, true)->Some_0;
    assert forall|t: int| 0 <= t < n1.shape[1] implies #[trigger] row_of(n1, b1, t) == row_of(
        n2,
        b2,
        t,
    ) by {
        assert(row_of(x1, b1, t) == row_of(x2, b2, t));
        lemma_norm_row(l1.input_layernorm, x1, b1, t);
        lemma_norm_row(l2.input_layernorm, x2, b2, t);
    }
    law_layer_defined(l1, x1, pos, mask);
    law_layer_defined(l2, x2, pos, mask);
    let (z1, z2) = (layer_of(l1, x1, true, pos, mask)->Some_0, layer_of(l2, x2, true, pos, mask)->Some_0);
    assert forall|t: int| 0 <= t < z1.shape[1] implies #[trigger] row_of(z1, b1, t) == row_of(
        z2,
        b2,
        t,
    ) by {
        assert(row_of(x1, b1, t) == row_of(x2, b2, t));
        law_sequences_apart(l1.self_attn, n1, b1, l2.self_attn, n2, b2, pos, mask, t);
        lemma_layer_row(l1, x1, pos, mask, b1, t);
        lemma_layer_row(l2, x2, pos, mask, b2, t);
    }
}

/// What the layers make of a sequence does not depend on the sequences beside it.
proof fn lemma_stack_apart(
    m1: ModelView,
    x1: ArrayView,
    b1: int,
    m2: ModelView,
    x2: ArrayView,
    b2: int,
    pos: ArrayView,
    mask: Option<ArrayView>,
    head_dim: usize,
    n: nat,
)
    requires
        n <= m1.layers.len(),
        m1.layers.len() == m2.layers.len(),
        stack_ready(m1, x1, pos, mask, head_dim),
        stack_ready(m2, x2, pos, mask, head_dim),
        forall|i: int|
            0 <= i < m1.layers.len() ==> same_cached(#[trigger] m1.layers[i], b1, m2.layers[i], b2),
        same_rows(x1, b1, x2, b2),
        0 <= b1 < x1.shape[0],
        0 <= b2 < x2.shape[0],
    ensures
        same_rows(
            stack_of(m1.layers, n, x1, pos, mask)->Some_0,
            b1,
            stack_of(m2.layers, n, x2, pos, mask)->Some_0,
            b2,
        ),
    decreases n,
{
    if n > 0 {
        let k = (n - 1) as nat;
        lemma_stack_apart(m1, x1, b1, m2, x2, b2, pos, mask, head_dim, k);
        lemma_stack_ready(m1, k, x1, pos, mask, head_dim);
        lemma_stack_ready(m2, k, x2, pos, mask, head_dim);
        let y1 = stack_of(m1.layers, k, x1, pos, mask)->Some_0;
        let y2 = stack_of(m2.layers, k, x2, pos, mask)->Some_0;
        lemma_layer_apart(m1.layers[k as int], y1, b1, m2.layers[k as int], y2, b2, pos, mask);
    }
}

/// The token at position `t` of sequence `b`.
pub open spec fn token_at(ids: ArrayView, b: int, t: int) -> Scalar {
    ids.at(seq![b, t])
}

/// Whether a model can be applied to the sequences `ids`, whatever its caches hold.
pub open spec fn model_applies(
    m: ModelView,
    ids: ArrayView,
    pos: ArrayView,
    head_dim: usize,
) -> bool {
    &&& ids.rank() == 2
    &&& ids.shape[1] > 0
    &&& lookup_of(m.embed_tokens, ids) is Some
    &&& model_regular(m, ids.shape[0], ids.shape[1], head_dim)
    &&& model_addressable(m, ids.shape[0], ids.shape[1])
    &&& pos.shape == seq![1usize, ids.shape[1], head_dim]
    &&& m.layers.len() > 0 ==> pos.kind == m.kind()
}

/// The rows of the same tokens are the same.
proof fn lemma_same_tokens(m: ModelView, ids1: ArrayView, b1: int, ids2: ArrayView, b2: int)
    requires
        m.consistent(),
        ids1.rank() == 2,
        ids2.rank() == 2,
        ids1.shape[1] == ids2.shape[1],
        lookup_of(m.embed_tokens, ids1) is Some,
        lookup_of(m.embed_tokens, ids2) is Some,
        0 <= b1 < ids1.shape[0],
        0 <= b2 < ids2.shape[0],
        forall|u: int|
            0 <= u < ids1.shape[1] ==> #[trigger] token_at(ids1, b1, u) == token_at(ids2, b2, u),
    ensures
        same_rows(
            lookup_of(m.embed_tokens, ids1)->Some_0,
            b1,
            lookup_of(m.embed_tokens, ids2)->Some_0,
            b2,
        ),
{
    let x1 = lookup_of(m.embed_tokens, ids1)->Some_0;
    let x2 = lookup_of(m.embed_tokens, ids2)->Some_0;
    assert forall|t: int| 0 <= t < x1.shape[1] implies #[trigger] row_of(x1, b1, t) == row_of(
        x2,
        b2,
        t,
    ) by {
        let (l, r) = (row_of(x1, b1, t), row_of(x2, b2, t));
        assert(token_at(ids1, b1, t) == token_at(ids2, b2, t));
        assert forall|c: int| 0 <= c < l.len() implies l[c] == r[c] by {
            let (i, j) = (seq![b1, t, c], seq![b2, t, c]);
            lemma_in3(x1.shape, b1, t, c);
            lemma_in3(x2.shape, b2, t, c);
            assert(i.drop_last() =~= seq![b1, t]);
            assert(j.drop_last() =~= seq![b2, t]);
        }
        assert(l =~= r);
    }
}

/// The scores of a sequence depend on its own tokens and on what the caches hold of it, and not
/// on the sequences beside it.
pub proof fn law_scores_apart(
    m1: ModelView,
    ids1: ArrayView,
    b1: int,
    m2: ModelView,
    ids2: ArrayView,
    b2: int,
    pos: ArrayView,
    head_dim: usize,
)
    requires
        model_applies(m1, ids1, pos, head_dim),
        model_applies(m2, ids2, pos, head_dim),
        ids1.cpu == ids2.cpu,
        m2 == m1.with_layers(m2.layers),
        m1.layers.len() == m2.layers.len(),
        forall|i: int|
            0 <= i < m1.layers.len() ==> same_cached(#[trigger] m1.layers[i], b1, m2.layers[i], b2),
        0 <= b1 < ids1.shape[0],
        0 <= b2 < ids2.shape[0],
        forall|u: int|
            0 <= u < ids1.shape[1] ==> #[trigger] token_at(ids1, b1, u) == token_at(ids2, b2, u),
    ensures
        forward_of(m1, ids1, pos) is Some,
        forward_of(m2, ids2, pos) is Some,
        same_rows(
            forward_of(m1, ids1, pos)->Some_0,
            b1,
            forward_of(m2, ids2, pos)->Some_0,
            b2,
        ),
{
    law_forward_defined(m1, ids1, pos, head_dim);
    law_forward_defined(m2, ids2, pos, head_dim);
    lemma_same_tokens(m1, ids1, b1, ids2, b2);
    let x1 = lookup_of(m1.embed_tokens, ids1)->Some_0;
    let x2 = lookup_of(m1.embed_tokens, ids2)->Some_0;
    let mask = mask_for(ids1)->Some_0;
    assert(mask_for(ids2)->Some_0 == mask);
    assert(stack_ready(m1, x1, pos, mask, head_dim)) by {
        reveal(stack_ready);
    }
    assert(stack_ready(m2, x2, pos, mask, head_dim)) by {
        reveal(stack_ready);
    }
    let n = m1.layers.len();
    lemma_stack_apart(m1, x1, b1, m2, x2, b2, pos, mask, head_dim, n);
    let y1 = stack_of(m1.layers, n, x1, pos, mask)->Some_0;
    let y2 = stack_of(m2.layers, n, x2, pos, mask)->Some_0;
    let (u1, u2) = (norm_of(m1.norm, y1, true)->Some_0, norm_of(m1.norm, y2, true)->Some_0);
    let (z1, z2) = (
        forward_of(m1, ids1, pos)->Some_0,
        forward_of(m2, ids2, pos)->Some_0,
    );
    assert(head_of(m2, y2) == head_of(m1, y2));
    assert forall|t: int| 0 <= t < z1.shape[1] implies #[trigger] row_of(z1, b1, t) == row_of(
        z2,
        b2,
        t,
    ) by {
        assert(row_of(y1, b1, t) == row_of(y2, b2, t));
        lemma_norm_row(m1.norm, y1, b1, t);
        lemma_norm_row(m1.norm, y2, b2, t);
        lemma_dense_row(m1.lm_head, u1, b1, t);
        lemma_dense_row(m1.lm_head, u2, b2, t);
    }
}

} // verus!
