//! What follows from the success of a call: the parts of a layer or of a model that gives a
//! result for rows go together, and what it computes can be addressed.

use vstd::prelude::*;
use crate::attention::{
    attended_of, attention_of, cache_after, group_of, masked_of, projected_of, scores_of,
    AttentionView,
};
use crate::decoder::{
    attended_rows_of, fed_rows_of, feed_forward_of, layer_of, FeedForwardView, LayerView,
};
use crate::heads::{heads_of, merged_of, repeat_of};
use crate::laws::{
    cached, dense_of_kind, feed_forward_of_kind, is_rows, law_attention_defined, law_rotation,
    layer_addressable, layer_regular, norm_of_kind,
};
use crate::layers::{dense_of, dense_shape, lookup_of, norm_for, norm_of, NormView};
use crate::meaning::{
    alike, alike_all, caches_alike, is_meaning, law_sequences_apart, literally,
};
use crate::model::{forward_of, mask_for, stack_of, ModelView};
use crate::positions::{attention_ready, lemma_in3, mask_fits, row_of};
use crate::rotary::{rotary_of, turned_of};
use crate::shape::{
    addressable, aligned, at_least_one, common_shape, expands_to, lemma_numel_axes, lemma_offset2,
    lemma_offset3, lemma_offset4, lemma_offset5, numel,
};
use crate::steps::{
    all_continue, continues, is_causal, law_attention_continues, law_one_at_a_time,
    law_scores_apart, lemma_fewer_addressable, lemma_first_scores, lemma_part_angles, model_applies,
    model_ready, part, same_cached, same_rows, sees_back, stepped, token_at,
};
use crate::view::{
    batch, broadcast_product_of, broadcast_sum_of, expand_of, matmul_of, matmul_shape, narrow_of,
    neg_of, scaled_of, softmax_of, sum_of, transpose_of, ArrayView, Scalar,
};

verus! {

pub(crate) proof fn lemma_positive3(a: usize, b: usize, c: usize)
    ensures
        numel(seq![a, b, c]) > 0 <==> (a > 0 && b > 0 && c > 0),
{
    let s = seq![a, b, c];
    lemma_numel_axes(s);
    assert(s[0] == a && s[1] == b && s[2] == c);
}

proof fn lemma_positive4(a: usize, b: usize, c: usize, d: usize)
    ensures
        numel(seq![a, b, c, d]) > 0 <==> (a > 0 && b > 0 && c > 0 && d > 0),
{
    let s = seq![a, b, c, d];
    lemma_numel_axes(s);
    assert(s[0] == a && s[1] == b && s[2] == c && s[3] == d);
}

/// The product of `half` numbers of each row with a row of `width` factors per position.
proof fn lemma_turn_tells(x: ArrayView, f: ArrayView, half: usize, width: usize)
    requires
        x.rank() == 4,
        x.shape[3] == half,
        half > 0,
        width == half || width == half + 1,
        x.count() > 0,
        f.shape == seq![1usize, x.shape[2], width],
        broadcast_product_of(x, f) is Some,
    ensures
        ({
            let z = broadcast_product_of(x, f)->Some_0;
            &&& z.kind == x.kind
            &&& z.cpu == x.cpu
            &&& width == half ==> z.shape == x.shape
            &&& width != half ==> z.rank() == 4 && z.shape[3] != half
            &&& f.kind == x.kind
            &&& x.kind.is_float()
        }),
{
    let s = x.shape;
    lemma_numel_axes(s);
    assert(s[0] > 0 && s[1] > 0 && s[2] > 0 && s[3] > 0);
    assert(aligned(f.shape, 4, 0) == 1);
    assert(aligned(f.shape, 4, 1) == 1);
    assert(aligned(f.shape, 4, 2) == s[2]);
    assert(aligned(f.shape, 4, 3) == width);
    assert(aligned(s, 4, 0) == s[0]);
    assert(aligned(s, 4, 1) == s[1]);
    assert(aligned(s, 4, 2) == s[2]);
    assert(aligned(s, 4, 3) == s[3]);
    let c = common_shape(s, f.shape)->Some_0;
    assert(c.len() == 4);
    assert(c[0] == s[0] && c[1] == s[1] && c[2] == s[2]);
    assert(c[3] == if half == 1 {
        width
    } else {
        half
    });
    if width == half {
        assert(c =~= s);
    }
    lemma_numel_axes(c);
    assert forall|d: int| 0 <= d < c.len() implies #[trigger] c[d] > 0 by {
        if d == 0 {
        } else if d == 1 {
        } else if d == 2 {
        } else {
        }
    }
}

/// Where heads of more than one number can be turned by a table with a row per position, they
/// have two halves, are of the kind of the table, and can be addressed.
pub proof fn law_rotation_success(x: ArrayView, pos: ArrayView, head_dim: usize)
    requires
        x.rank() == 4,
        x.shape[3] == head_dim,
        head_dim != 1,
        x.count() > 0,
        pos.shape == seq![1usize, x.shape[2], head_dim],
        rotary_of(x, pos, head_dim) is Some,
    ensures
        head_dim % 2 == 0,
        x.kind.is_float(),
        pos.kind == x.kind,
        addressable(x.shape),
{
    let half = (head_dim / 2) as usize;
    let rest = (head_dim - half) as usize;
    let s = x.shape;
    lemma_numel_axes(s);
    assert(s[0] > 0 && s[1] > 0 && s[2] > 0 && s[3] > 0);
    let cos = narrow_of(pos, 2, 0, half)->Some_0;
    let sin = narrow_of(pos, 2, half as int, rest)->Some_0;
    let x1 = narrow_of(x, 3, 0, half)->Some_0;
    let x2 = narrow_of(x, 3, half as int, half)->Some_0;
    let sh = seq![s[0], s[1], s[2], half];
    assert(x1.shape =~= sh);
    assert(x2.shape =~= sh);
    assert(cos.shape =~= seq![1usize, s[2], half]);
    assert(sin.shape =~= seq![1usize, s[2], rest]);
    lemma_positive4(s[0], s[1], s[2], half);
    assert(turned_of(x1, x2, cos, sin) is Some);
    lemma_turn_tells(x1, cos, half, half);
    lemma_turn_tells(x2, sin, half, rest);
    let a = broadcast_product_of(x1, cos)->Some_0;
    let bb = broadcast_product_of(x2, sin)->Some_0;
    let nb = neg_of(bb)->Some_0;
    assert(sum_of(a, nb) is Some);
    assert(nb.shape == bb.shape);
    assert(rest == half);
    assert(sh.update(3, (half + half) as usize) =~= s);
}

/// What the success of the projection tells.
pub(crate) proof fn lemma_projection_tells(a: AttentionView, x: ArrayView, pos: ArrayView)
    requires
        a.consistent(),
        a.kv_heads > 0,
        a.head_dim != 1,
        is_rows(x, a.hidden),
        x.count() > 0,
        pos.shape == seq![1usize, x.shape[1], a.head_dim],
        projected_of(a, x, pos) is Some,
    ensures
        a.heads > 0,
        a.head_dim > 0,
        a.heads * a.head_dim == a.hidden,
        a.head_dim % 2 == 0,
        dense_of_kind(a.qkv, x.kind),
        x.kind.is_float(),
        pos.kind == x.kind,
        addressable(seq![x.shape[0], x.shape[1], (a.hidden + 2 * a.kv_width()) as usize]),
        addressable(seq![x.shape[0], x.shape[1], a.heads, a.head_dim]),
        addressable(seq![x.shape[0], x.shape[1], a.kv_heads, a.head_dim]),
        addressable(seq![x.shape[0], a.heads, x.shape[1], a.head_dim]),
        addressable(seq![x.shape[0], a.kv_heads, x.shape[1], a.head_dim]),
        ({
            let (q, k, v) = projected_of(a, x, pos)->Some_0;
            &&& q.shape == seq![x.shape[0], a.heads, x.shape[1], a.head_dim]
            &&& k.shape == seq![x.shape[0], a.kv_heads, x.shape[1], a.head_dim]
            &&& v.shape == seq![x.shape[0], a.kv_heads, x.shape[1], a.head_dim]
            &&& q.kind == x.kind && k.kind == x.kind && v.kind == x.kind
            &&& q.cpu == x.cpu && k.cpu == x.cpu && v.cpu == x.cpu
        }),
{
    reveal(projected_of);
    let (b, s) = (x.shape[0], x.shape[1]);
    let kv = a.kv_width() as usize;
    let (kh, hd, ih) = (a.kv_heads as int, a.head_dim as int, a.heads as int);
    assert(kh * hd >= 0) by (nonlinear_arith)
        requires
            kh >= 0,
            hd >= 0,
    ;
    let w = (a.hidden + 2 * a.kv_width()) as usize;
    assert(x.shape =~= seq![b, s, a.hidden]);
    lemma_positive3(b, s, a.hidden);
    lemma_positive3(b, s, w);
    assert(dense_shape(a.qkv, x) =~= seq![b, s, w]);
    let p = dense_of(a.qkv, x)->Some_0;
    lemma_offset3(seq![b, s, a.hidden], seq![0int, 0, 0]);
    lemma_offset4(seq![b, s, a.heads, a.head_dim], seq![0int, 0, 0, 0]);
    let (ib, it, iw) = (b as int, s as int, a.hidden as int);
    assert(ib * it * iw == ib * it * ih * hd);
    assert(iw == ih * hd) by (nonlinear_arith)
        requires
            ib > 0,
            it > 0,
            ib * it * iw == ib * it * ih * hd,
    ;
    assert(ih > 0 && hd > 0) by (nonlinear_arith)
        requires
            ih * hd > 0,
            ih >= 0,
            hd >= 0,
    ;
    let q = heads_of(p, 0, a.hidden, a.heads, a.head_dim)->Some_0;
    let k = heads_of(p, a.hidden, kv, a.kv_heads, a.head_dim)->Some_0;
    lemma_positive4(b, a.heads, s, a.head_dim);
    lemma_positive4(b, a.kv_heads, s, a.head_dim);
    law_rotation_success(q, pos, a.head_dim);
    law_rotation_success(k, pos, a.head_dim);
    law_rotation(q, pos, a.head_dim);
    law_rotation(k, pos, a.head_dim);
}

/// The key heads once they are repeated.
proof fn lemma_repeat_tells(k: ArrayView, n: usize, heads: usize)
    requires
        k.rank() == 4,
        k.shape[1] * n <= heads,
        repeat_of(k, n) is Some,
    ensures
        repeat_of(k, n)->Some_0.shape == seq![
            k.shape[0],
            (k.shape[1] * n) as usize,
            k.shape[2],
            k.shape[3],
        ],
        repeat_of(k, n)->Some_0.kind == k.kind,
{
    if n == 1 {
        assert(k.shape =~= seq![k.shape[0], (k.shape[1] * n) as usize, k.shape[2], k.shape[3]]);
    }
}

/// What the success of a product of matrices tells.
proof fn lemma_matmul_tells(x: ArrayView, y: ArrayView)
    requires
        x.rank() == 4,
        y.rank() == 4,
        matmul_of(x, y) is Some,
        x.shape[0] > 0 && x.shape[1] > 0 && x.shape[2] > 0 && x.shape[3] > 0,
        y.shape[0] == x.shape[0],
        y.shape[3] > 0,
    ensures
        x.shape[3] == y.shape[2],
        x.shape[1] == y.shape[1],
        x.kind == y.kind,
        matmul_of(x, y)->Some_0.shape == seq![x.shape[0], x.shape[1], x.shape[2], y.shape[3]],
        matmul_of(x, y)->Some_0.kind == x.kind,
        matmul_of(x, y)->Some_0.cpu == x.cpu,
        addressable(seq![x.shape[0], x.shape[1], x.shape[2], y.shape[3]]),
{
    let (s, t) = (x.shape, y.shape);
    let c = matmul_shape(s, t);
    assert(c =~= seq![s[0], s[1], s[2], t[3]]);
    lemma_positive4(s[0], s[1], s[2], t[3]);
    assert(s.last() == s[3] && t[t.len() - 2] == t[2]);
    assert(batch(s) =~= seq![s[0], s[1]]);
    assert(batch(t) =~= seq![t[0], t[1]]);
    lemma_offset2(batch(s), seq![0int, 0]);
    lemma_offset2(batch(t), seq![0int, 0]);
    let (b, h, g) = (s[0] as int, s[1] as int, t[1] as int);
    assert(h == g) by (nonlinear_arith)
        requires
            b > 0,
            b * h == b * g,
    ;
}

/// What the success of the averages tells.
proof fn lemma_attended_tells(
    q: ArrayView,
    k: ArrayView,
    v: ArrayView,
    n: usize,
    scale: u64,
    mask: Option<ArrayView>,
)
    requires
        q.rank() == 4 && k.rank() == 4 && v.rank() == 4,
        q.count() > 0,
        k.shape[0] == q.shape[0] && v.shape[0] == q.shape[0],
        k.shape[1] == v.shape[1],
        k.shape[2] > 0,
        k.shape[3] == q.shape[3] && v.shape[3] == q.shape[3],
        k.shape[1] * n <= q.shape[1],
        addressable(k.shape),
        attended_of(q, k, v, n, scale, mask) is Some,
    ensures
        v.shape[2] == k.shape[2],
        q.shape[1] == k.shape[1] * n,
        k.kind == q.kind && v.kind == q.kind,
        mask matches Some(m) ==> m.kind == q.kind && expands_to(
            m.shape,
            seq![q.shape[0], q.shape[1], q.shape[2], k.shape[2]],
        ),
        addressable(seq![q.shape[0], q.shape[1], q.shape[2], k.shape[2]]),
        addressable(seq![k.shape[0], k.shape[1], n, k.shape[2], k.shape[3]]),
        attended_of(q, k, v, n, scale, mask)->Some_0.shape == q.shape,
        attended_of(q, k, v, n, scale, mask)->Some_0.kind == q.kind,
        attended_of(q, k, v, n, scale, mask)->Some_0.cpu == q.cpu,
{
    lemma_numel_axes(q.shape);
    assert(q.shape[0] > 0 && q.shape[1] > 0 && q.shape[2] > 0 && q.shape[3] > 0);
    lemma_repeat_tells(k, n, q.shape[1]);
    lemma_repeat_tells(v, n, q.shape[1]);
    let (kr, vr) = (repeat_of(k, n)->Some_0, repeat_of(v, n)->Some_0);
    let kt = transpose_of(kr, 2, 3)->Some_0;
    lemma_matmul_tells(q, kt);
    let p = matmul_of(q, kt)->Some_0;
    let w = scaled_of(p, scale)->Some_0;
    assert(w.shape == p.shape && w.kind == q.kind);
    lemma_positive4(q.shape[0], q.shape[1], q.shape[2], k.shape[2]);
    let z = masked_of(w, mask)->Some_0;
    assert(scores_of(q, kr, scale, mask) == masked_of(w, mask));
    assert(z.shape == w.shape && z.kind == w.kind && z.cpu == w.cpu && (mask matches Some(m)
        ==> m.kind == q.kind)) by {
        if mask is Some {
            let m = expand_of(mask->Some_0, w.shape)->Some_0;
            assert(broadcast_sum_of(w, m) is Some);
            assert(common_shape(w.shape, m.shape)->Some_0 =~= w.shape);
        }
    }
    let u = softmax_of(z)->Some_0;
    lemma_matmul_tells(u, vr);
    assert(q.shape =~= seq![q.shape[0], q.shape[1], q.shape[2], q.shape[3]]);
    if n == 1 {
        assert(k.shape =~= seq![k.shape[0], k.shape[1], k.shape[2], k.shape[3]]);
        lemma_single_group(k.shape[0], k.shape[1], k.shape[2], k.shape[3]);
    }
}

/// An axis of size one does not matter for what can be addressed.
proof fn lemma_single_group(b: usize, h: usize, t: usize, d: usize)
    requires
        addressable(seq![b, h, t, d]),
    ensures
        addressable(seq![b, h, 1usize, t, d]),
{
    lemma_offset4(seq![b, h, t, d], seq![0int, 0, 0, 0]);
    lemma_offset5(seq![b, h, 1usize, t, d], seq![0int, 0, 0, 0, 0]);
    assert(at_least_one(1usize) == 1);
}

/// Where a layer gives a result for rows of its width, its parameters and its cache go together
/// and what it computes can be addressed. Heads of a single number, which have no halves, are
/// left out: a layer gives a result for them.
pub proof fn law_attention_success(
    a: AttentionView,
    x: ArrayView,
    pos: ArrayView,
    mask: Option<ArrayView>,
)
    requires
        a.consistent(),
        a.kv_heads > 0,
        a.head_dim != 1,
        is_rows(x, a.hidden),
        x.count() > 0,
        pos.shape == seq![1usize, x.shape[1], a.head_dim],
        attention_of(a, x, pos, mask) is Some,
    ensures
        attention_ready(a, x, pos),
        mask matches Some(m) ==> m.kind == x.kind && expands_to(
            m.shape,
            seq![x.shape[0], a.heads, x.shape[1], (cached(a) + x.shape[1]) as usize],
        ),
        attention_of(a, x, pos, mask)->Some_0.shape == x.shape,
        attention_of(a, x, pos, mask)->Some_0.kind == x.kind,
        attention_of(a, x, pos, mask)->Some_0.cpu == x.cpu,
{
    lemma_projection_tells(a, x, pos);
    let (b, s) = (x.shape[0], x.shape[1]);
    assert(x.shape =~= seq![b, s, a.hidden]);
    lemma_positive3(b, s, a.hidden);
    lemma_positive4(b, a.heads, s, a.head_dim);
    let (q, k0, v0) = projected_of(a, x, pos)->Some_0;
    let (k, v) = cache_after(a, x, pos)->Some_0;
    if a.cache is Some {
        let (pk, pv) = a.cache->Some_0;
        assert(pk.shape[0] == b && pk.shape[1] == a.kv_heads && pk.shape[3] == a.head_dim);
        assert(pv.shape[0] == b && pv.shape[1] == a.kv_heads && pv.shape[3] == a.head_dim);
        assert(pk.shape =~= seq![b, a.kv_heads, pk.shape[2], a.head_dim]);
        assert(pv.shape =~= seq![b, a.kv_heads, pv.shape[2], a.head_dim]);
        assert(k.shape =~= seq![b, a.kv_heads, (pk.shape[2] + s) as usize, a.head_dim]);
        assert(v.shape =~= seq![b, a.kv_heads, (pv.shape[2] + s) as usize, a.head_dim]);
    }
    let n = group_of(a);
    let (ih, ik) = (a.heads as int, a.kv_heads as int);
    vstd::arithmetic::div_mod::lemma_fundamental_div_mod(ih, ik);
    vstd::arithmetic::div_mod::lemma_mod_bound(ih, ik);
    vstd::arithmetic::div_mod::lemma_div_pos_is_pos(ih, ik);
    vstd::arithmetic::div_mod::lemma_div_is_ordered_by_denominator(ih, 1, ik);
    lemma_attended_tells(q, k, v, n, a.scale, mask);
    let y = attended_of(q, k, v, n, a.scale, mask)->Some_0;
    let w = merged_of(y, b, s, a.hidden)->Some_0;
    assert(w.shape == seq![b, s, a.hidden]);
    assert(dense_shape(a.o, w) =~= x.shape);
}

/// What the success of a normalization tells.
proof fn lemma_norm_tells(n: NormView, x: ArrayView, width: usize)
    requires
        norm_for(n, width),
        is_rows(x, width),
        x.count() > 0,
        norm_of(n, x, true) is Some,
    ensures
        norm_of_kind(n, x.kind, x.cpu),
        x.kind.is_float(),
        norm_of(n, x, true)->Some_0.shape == x.shape,
        norm_of(n, x, true)->Some_0.kind == x.kind,
        norm_of(n, x, true)->Some_0.cpu == x.cpu,
{
}

/// What the success of a feed-forward network tells.
proof fn lemma_feed_forward_tells(f: FeedForwardView, x: ArrayView, width: usize)
    requires
        f.is_for(width),
        is_rows(x, width),
        x.count() > 0,
        feed_forward_of(f, x) is Some,
    ensures
        feed_forward_of_kind(f, x.kind),
        addressable(seq![x.shape[0], x.shape[1], f.gate.weight.shape[0]]),
        feed_forward_of(f, x)->Some_0.shape == x.shape,
        feed_forward_of(f, x)->Some_0.kind == x.kind,
        feed_forward_of(f, x)->Some_0.cpu == x.cpu,
{
    let (b, s, w) = (x.shape[0], x.shape[1], f.gate.weight.shape[0]);
    assert(x.shape =~= seq![b, s, width]);
    lemma_positive3(b, s, width);
    lemma_positive3(b, s, w);
    assert(dense_shape(f.gate, x) =~= seq![b, s, w]);
    assert(dense_shape(f.up, x) =~= seq![b, s, w]);
    let g = dense_of(f.gate, x)->Some_0;
    assert(dense_shape(f.down, g) =~= x.shape);
}

/// What the success of a layer tells.
proof fn lemma_layer_tells(l: LayerView, x: ArrayView, pos: ArrayView, mask: Option<ArrayView>)
    requires
        l.applies(),
        l.self_attn.head_dim != 1,
        is_rows(x, l.self_attn.hidden),
        x.count() > 0,
        pos.shape == seq![1usize, x.shape[1], l.self_attn.head_dim],
        layer_of(l, x, true, pos, mask) is Some,
    ensures
        layer_regular(l, x.shape[0], x.kind, x.cpu),
        layer_addressable(l, x.shape[0], x.shape[1]),
        x.kind.is_float(),
        pos.kind == x.kind,
        mask matches Some(m) ==> m.kind == x.kind && expands_to(
            m.shape,
            seq![
                x.shape[0],
                l.self_attn.heads,
                x.shape[1],
                (cached(l.self_attn) + x.shape[1]) as usize,
            ],
        ),
        cached(l.self_attn) + x.shape[1] <= usize::MAX,
        layer_of(l, x, true, pos, mask)->Some_0.shape == x.shape,
        layer_of(l, x, true, pos, mask)->Some_0.kind == x.kind,
        layer_of(l, x, true, pos, mask)->Some_0.cpu == x.cpu,
{
    reveal(layer_of);
    let w = l.self_attn.hidden;
    lemma_norm_tells(l.input_layernorm, x, w);
    let y = norm_of(l.input_layernorm, x, true)->Some_0;
    law_attention_success(l.self_attn, y, pos, mask);
    let z = attended_rows_of(l, x, true, pos, mask)->Some_0;
    assert(fed_rows_of(l, z) is Some);
    lemma_norm_tells(l.post_attention_layernorm, z, w);
    let u = norm_of(l.post_attention_layernorm, z, true)->Some_0;
    lemma_feed_forward_tells(l.mlp, u, w);
}

/// Whether the sizes of a model, of sequences that are not empty and of a table of rotations
/// with a row per position go together. Heads of a single number are left out.
pub open spec fn model_fits(
    m: ModelView,
    ids: ArrayView,
    pos: ArrayView,
    head_dim: usize,
) -> bool {
    &&& m.consistent()
    &&& ids.rank() == 2
    &&& ids.shape[0] > 0 && ids.shape[1] > 0
    &&& head_dim != 1
    &&& pos.shape == seq![1usize, ids.shape[1], head_dim]
    &&& forall|i: int|
        0 <= i < m.layers.len() ==> {
            &&& (#[trigger] m.layers[i]).self_attn.kv_heads > 0
            &&& m.layers[i].self_attn.head_dim == head_dim
        }
}

/// What the success of the first `n` layers tells.
proof fn lemma_stack_tells(
    m: ModelView,
    ids: ArrayView,
    x: ArrayView,
    pos: ArrayView,
    mask: Option<ArrayView>,
    head_dim: usize,
    n: nat,
)
    requires
        model_fits(m, ids, pos, head_dim),
        is_rows(x, m.hidden()),
        x.shape[0] == ids.shape[0] && x.shape[1] == ids.shape[1],
        x.count() > 0,
        n <= m.layers.len(),
        mask matches Some(f) ==> x.shape[1] > 1 && f.shape == seq![x.shape[1], x.shape[1]],
        stack_of(m.layers, n, x, pos, mask) is Some,
    ensures
        forall|i: int|
            0 <= i < n ==> {
                &&& layer_regular(#[trigger] m.layers[i], x.shape[0], x.kind, x.cpu)
                &&& layer_addressable(m.layers[i], x.shape[0], x.shape[1])
                &&& mask matches Some(f) ==> f.kind == x.kind && cached(m.layers[i].self_attn) == 0
            },
        n > 0 ==> pos.kind == x.kind,
        stack_of(m.layers, n, x, pos, mask)->Some_0.shape == x.shape,
        stack_of(m.layers, n, x, pos, mask)->Some_0.kind == x.kind,
        stack_of(m.layers, n, x, pos, mask)->Some_0.cpu == x.cpu,
    decreases n,
{
    if n > 0 {
        let k = (n - 1) as nat;
        lemma_stack_tells(m, ids, x, pos, mask, head_dim, k);
        let y = stack_of(m.layers, k, x, pos, mask)->Some_0;
        let l = m.layers[n - 1];
        assert(l.is_for(m.hidden()));
        assert(x.shape =~= seq![x.shape[0], x.shape[1], m.hidden()]);
        lemma_positive3(x.shape[0], x.shape[1], m.hidden());
        assert(l.self_attn.kv_heads > 0);
        lemma_layer_tells(l, y, pos, mask);
        if mask is Some {
            let f = mask->Some_0;
            assert(f.shape[1] == x.shape[1]);
            assert(cached(l.self_attn) == 0);
        }
    }
}

/// Where a model gives scores for sequences, its parts and its caches go together and what it
/// computes can be addressed.
pub proof fn law_forward_success(m: ModelView, ids: ArrayView, pos: ArrayView, head_dim: usize)
    requires
        model_fits(m, ids, pos, head_dim),
        forward_of(m, ids, pos) is Some,
    ensures
        model_applies(m, ids, pos, head_dim),
        (forall|i: int|
            0 <= i < m.layers.len() ==> (#[trigger] m.layers[i]).self_attn.cache is None)
            ==> model_ready(m, ids, pos, head_dim),
{
    let (b, s) = (ids.shape[0], ids.shape[1]);
    let x = lookup_of(m.embed_tokens, ids)->Some_0;
    let mask = mask_for(ids)->Some_0;
    assert(ids.shape =~= seq![b, s]);
    assert(x.shape =~= seq![b, s, m.hidden()]);
    lemma_numel_axes(ids.shape);
    assert forall|d: int| 0 <= d < ids.shape.len() implies #[trigger] ids.shape[d] > 0 by {
        if d == 0 {
        } else {
        }
    }
    let t = m.embed_tokens.table.shape;
    lemma_numel_axes(t);
    assert(t[0] > 0 && t[1] > 0);
    lemma_positive3(b, s, m.hidden());
    let n = m.layers.len();
    lemma_stack_tells(m, ids, x, pos, mask, head_dim, n);
    let y = stack_of(m.layers, n, x, pos, mask)->Some_0;
    lemma_norm_tells(m.norm, y, m.hidden());
    let u = norm_of(m.norm, y, true)->Some_0;
    assert(dense_shape(m.lm_head, u) =~= seq![b, s, m.vocab()]);
    lemma_positive3(b, s, m.vocab());
    assert forall|i: int| 0 <= i < n implies (#[trigger] m.layers[i]).proper() by {
        assert(m.layers[i].is_for(m.hidden()));
        assert(m.layers[i].self_attn.kv_heads > 0);
    }
    if s > 1 && n > 0 {
        assert(layer_regular(m.layers[0], b, x.kind, x.cpu));
    }
}

/// One token at a time comes to the same as all tokens at once wherever all at once gives a
/// result: a model with empty caches that gives scores for sequences also gives them one
/// position after the other, and each position gets the scores of the single pass. This is up
/// to what the formulas mean.
pub proof fn law_tokens_one_by_one<V>(
    val: spec_fn(Scalar) -> V,
    m: ModelView,
    ids: ArrayView,
    pos: ArrayView,
    head_dim: usize,
    t: nat,
)
    requires
        is_meaning(val),
        model_fits(m, ids, pos, head_dim),
        forall|i: int|
            0 <= i < m.layers.len() ==> (#[trigger] m.layers[i]).self_attn.cache is None,
        forward_of(m, ids, pos) is Some,
        t < ids.shape[1],
    ensures
        forward_of(stepped(m, ids, pos, t), part(ids, t as int, 1), part(pos, t as int, 1)) is Some,
        all_continue(
            val,
            forward_of(
                stepped(m, ids, pos, t),
                part(ids, t as int, 1),
                part(pos, t as int, 1),
            )->Some_0,
            forward_of(m, ids, pos)->Some_0,
            t as int,
        ),
{
    law_forward_success(m, ids, pos, head_dim);
    law_one_at_a_time(val, m, ids, pos, head_dim, t);
}

proof fn lemma_alike_both<V>(
    val: spec_fn(Scalar) -> V,
    y: Seq<Scalar>,
    y1: Seq<Scalar>,
    y2: Seq<Scalar>,
)
    requires
        alike_all(val, y, y1),
        alike_all(val, y, y2),
    ensures
        alike_all(val, y1, y2),
{
    assert forall|i: int| 0 <= i < y1.len() implies #[trigger] alike(val, y1[i], y2[i]) by {
        assert(alike(val, y[i], y1[i]));
        assert(alike(val, y[i], y2[i]));
    }
}

/// The scores of a position do not depend on later tokens: two passes over sequences that have
/// their first `n` positions in common, whatever comes behind these, give these positions the
/// same scores. This is up to what the formulas mean.
pub proof fn law_no_look_ahead<V>(
    val: spec_fn(Scalar) -> V,
    m: ModelView,
    ids1: ArrayView,
    pos1: ArrayView,
    ids2: ArrayView,
    pos2: ArrayView,
    head_dim: usize,
    n: usize,
    b: int,
    t: int,
)
    requires
        is_meaning(val),
        model_fits(m, ids1, pos1, head_dim),
        model_fits(m, ids2, pos2, head_dim),
        forall|i: int|
            0 <= i < m.layers.len() ==> (#[trigger] m.layers[i]).self_attn.cache is None,
        forward_of(m, ids1, pos1) is Some,
        forward_of(m, ids2, pos2) is Some,
        n <= ids1.shape[1],
        n <= ids2.shape[1],
        part(ids1, 0, n) == part(ids2, 0, n),
        part(pos1, 0, n) == part(pos2, 0, n),
        0 <= b < ids1.shape[0],
        0 <= t < n,
    ensures
        alike_all(
            val,
            row_of(forward_of(m, ids1, pos1)->Some_0, b, t),
            row_of(forward_of(m, ids2, pos2)->Some_0, b, t),
        ),
{
    law_forward_success(m, ids1, pos1, head_dim);
    law_forward_success(m, ids2, pos2, head_dim);
    assert(part(ids1, 0, n).shape[0] == ids1.shape[0]);
    assert(part(ids2, 0, n).shape[0] == ids2.shape[0]);
    lemma_first_scores(val, m, ids1, pos1, head_dim, n, b, t);
    lemma_first_scores(val, m, ids2, pos2, head_dim, n, b, t);
    let y = row_of(forward_of(m, part(ids1, 0, n), part(pos1, 0, n))->Some_0, b, t);
    let y1 = row_of(forward_of(m, ids1, pos1)->Some_0, b, t);
    let y2 = row_of(forward_of(m, ids2, pos2)->Some_0, b, t);
    lemma_alike_both(val, y, y1, y2);
}

/// The scores of a sequence depend on its own tokens and on what the caches hold of it alone,
/// wherever two passes give results.
pub proof fn law_sequences_scored_apart(
    m1: ModelView,
    ids1: ArrayView,
    b1: int,
    m2: ModelView,
    ids2: ArrayView,
    b2: int,
    pos: ArrayView,
    head_dim: usize,
)
    requires
        model_fits(m1, ids1, pos, head_dim),
        model_fits(m2, ids2, pos, head_dim),
        forward_of(m1, ids1, pos) is Some,
        forward_of(m2, ids2, pos) is Some,
        m2 == m1.with_layers(m2.layers),
        m1.layers.len() == m2.layers.len(),
        forall|i: int|
            0 <= i < m1.layers.len() ==> same_cached(#[trigger] m1.layers[i], b1, m2.layers[i], b2),
        0 <= b1 < ids1.shape[0],
        0 <= b2 < ids2.shape[0],
        forall|u: int|
            0 <= u < ids1.shape[1] ==> #[trigger] token_at(ids1, b1, u) == token_at(ids2, b2, u),
    ensures
        same_rows(
            forward_of(m1, ids1, pos)->Some_0,
            b1,
            forward_of(m2, ids2, pos)->Some_0,
            b2,
        ),
{
    law_forward_success(m1, ids1, pos, head_dim);
    law_forward_success(m2, ids2, pos, head_dim);
    law_scores_apart(m1, ids1, b1, m2, ids2, b2, pos, head_dim);
}

/// What attention makes of a sequence depends on its own rows and on what the cache holds of it
/// alone, wherever two layers give results.
pub proof fn law_sequences_attended_apart(
    a1: AttentionView,
    x1: ArrayView,
    b1: int,
    a2: AttentionView,
    x2: ArrayView,
    b2: int,
    pos: ArrayView,
    mask: Option<ArrayView>,
    t: int,
)
    requires
        a1.consistent(),
        a1.kv_heads > 0,
        a1.head_dim != 1,
        a2 == a1.with_cache(a2.cache),
        cached(a1) == cached(a2),
        cached(a1) > 0 ==> caches_alike(
            literally(),
            a1,
            a1.cache->Some_0,
            b1,
            a2.cache->Some_0,
            b2,
            cached(a1),
        ),
        is_rows(x1, a1.hidden),
        is_rows(x2, a1.hidden),
        x1.count() > 0,
        x2.count() > 0,
        x1.shape[1] == x2.shape[1],
        pos.shape == seq![1usize, x1.shape[1], a1.head_dim],
        mask matches Some(m) ==> m.shape == seq![
            x1.shape[1],
            (cached(a1) + x1.shape[1]) as usize,
        ],
        attention_of(a1, x1, pos, mask) is Some,
        attention_of(a2, x2, pos, mask) is Some,
        0 <= b1 < x1.shape[0],
        0 <= b2 < x2.shape[0],
        0 <= t < x1.shape[1],
        forall|u: int|
            0 <= u < x1.shape[1] ==> #[trigger] row_of(x1, b1, u) == row_of(x2, b2, u),
    ensures
        row_of(attention_of(a1, x1, pos, mask)->Some_0, b1, t) == row_of(
            attention_of(a2, x2, pos, mask)->Some_0,
            b2,
            t,
        ),
{
    law_attention_success(a1, x1, pos, mask);
    law_attention_success(a2, x2, pos, mask);
    law_sequences_apart(a1, x1, b1, a2, x2, b2, pos, mask, t);
}

/// The layer `a` after it was applied to the first `n` rows of each sequence of `x`, one at a
/// time.
pub open spec fn attention_stepped(
    a: AttentionView,
    x: ArrayView,
    pos: ArrayView,
    n: nat,
) -> AttentionView
    decreases n,
{
    if n == 0 {
        a
    } else {
        let before = attention_stepped(a, x, pos, (n - 1) as nat);
        before.with_cache(cache_after(before, part(x, n - 1, 1), part(pos, n - 1, 1)))
    }
}

/// Whether the layer `a1` is the layer `a` with the first `n` positions of `x` in its cache.
pub open spec fn attention_stands_at<V>(
    val: spec_fn(Scalar) -> V,
    a1: AttentionView,
    a: AttentionView,
    x: ArrayView,
    pos: ArrayView,
    n: int,
) -> bool {
    &&& a1 == a.with_cache(a1.cache)
    &&& match a1.cache {
        None => n == 0,
        Some((k, v)) => {
            &&& 0 < n <= usize::MAX
            &&& k.shape == seq![x.shape[0], a.kv_heads, n as usize, a.head_dim]
            &&& v.shape == k.shape
            &&& k.kind == x.kind && v.kind == x.kind
            &&& k.cpu == x.cpu && v.cpu == x.cpu
            &&& forall|b: int|
                0 <= b < x.shape[0] ==> #[trigger] caches_alike(
                    val,
                    a,
                    (k, v),
                    b,
                    cache_after(a, x, pos)->Some_0,
                    b,
                    n,
                )
        },
    }
}

/// The rows of some of the positions are those of all positions.
proof fn lemma_part_continues<V>(val: spec_fn(Scalar) -> V, x: ArrayView, off: int, len: usize)
    requires
        x.rank() == 3,
        0 <= off,
        off + len <= x.shape[1],
    ensures
        part(x, off, len).shape == seq![x.shape[0], len, x.shape[2]],
        part(x, off, len).kind == x.kind,
        part(x, off, len).cpu == x.cpu,
        all_continue(val, part(x, off, len), x, off),
{
    let p = part(x, off, len);
    assert(p.shape =~= seq![x.shape[0], len, x.shape[2]]);
    assert forall|b: int, t: int|
        0 <= b < p.shape[0] && 0 <= t < p.shape[1] implies #[trigger] continues(
        val,
        p,
        x,
        off,
        b,
        t,
    ) by {
        let (l, r) = (row_of(p, b, t), row_of(x, b, off + t));
        assert forall|c: int| 0 <= c < l.len() implies l[c] == r[c] by {
            let i = seq![b, t, c];
            lemma_in3(p.shape, b, t, c);
            assert(i.update(1, i[1] + off) =~= seq![b, off + t, c]);
        }
        assert(l =~= r);
    }
}

/// A layer that stands at a position can be applied to the row there, which means what it means
/// in one pass, and stands at the next position then.
proof fn lemma_attention_step<V>(
    val: spec_fn(Scalar) -> V,
    a1: AttentionView,
    a: AttentionView,
    x: ArrayView,
    pos: ArrayView,
    mask: Option<ArrayView>,
    n: int,
)
    requires
        is_meaning(val),
        attention_ready(a, x, pos),
        mask_fits(a, x, mask),
        is_causal(mask, x.shape[1] as int, x.shape[1] as int),
        a.cache is None,
        attention_stands_at(val, a1, a, x, pos, n),
        0 <= n < x.shape[1],
    ensures
        attention_of(a1, part(x, n, 1), part(pos, n, 1), None) is Some,
        all_continue(
            val,
            attention_of(a1, part(x, n, 1), part(pos, n, 1), None)->Some_0,
            attention_of(a, x, pos, mask)->Some_0,
            n,
        ),
        attention_stands_at(
            val,
            a1.with_cache(cache_after(a1, part(x, n, 1), part(pos, n, 1))),
            a,
            x,
            pos,
            n + 1,
        ),
{
    let (x1, pos1) = (part(x, n, 1), part(pos, n, 1));
    lemma_part_continues(val, x, n, 1);
    lemma_part_angles(pos, a.head_dim, n, 1);
    lemma_fewer_addressable(a1, a, x.shape[0], 1, n + 1, x.shape[1], x.shape[1] as int);
    assert(attention_ready(a1, x1, pos1));
    law_attention_defined(a1, x1, pos1, None);
    law_attention_defined(a, x, pos, mask);
    assert(is_causal(None, 1, n + 1)) by {
        assert forall|t: int| 0 <= t < 1 implies #[trigger] sees_back(None, t, 1, n + 1) by {}
    }
    let y1 = attention_of(a1, x1, pos1, None)->Some_0;
    let y = attention_of(a, x, pos, mask)->Some_0;
    assert forall|b: int, t: int|
        0 <= b < y1.shape[0] && 0 <= t < y1.shape[1] implies #[trigger] continues(
        val,
        y1,
        y,
        n,
        b,
        t,
    ) by {
        law_attention_continues(val, a1, x1, pos1, None, a, x, pos, mask, b, t);
    }
    let (k, v) = cache_after(a1, x1, pos1)->Some_0;
    assert forall|b: int| 0 <= b < x.shape[0] implies #[trigger] caches_alike(
        val,
        a,
        (k, v),
        b,
        cache_after(a, x, pos)->Some_0,
        b,
        n + 1,
    ) by {
        law_attention_continues(val, a1, x1, pos1, None, a, x, pos, mask, b, 0);
    }
}

proof fn lemma_attention_stands<V>(
    val: spec_fn(Scalar) -> V,
    a: AttentionView,
    x: ArrayView,
    pos: ArrayView,
    mask: Option<ArrayView>,
    n: nat,
)
    requires
        is_meaning(val),
        attention_ready(a, x, pos),
        mask_fits(a, x, mask),
        is_causal(mask, x.shape[1] as int, x.shape[1] as int),
        a.cache is None,
        n <= x.shape[1],
    ensures
        attention_stands_at(val, attention_stepped(a, x, pos, n), a, x, pos, n as int),
    decreases n,
{
    if n > 0 {
        let k = (n - 1) as nat;
        lemma_attention_stands(val, a, x, pos, mask, k);
        lemma_attention_step(val, attention_stepped(a, x, pos, k), a, x, pos, mask, k as int);
    }
}

/// Attention to one row at a time comes to the same as attention to all rows at once, wherever
/// that gives a result: a layer with an empty cache that is applied to the rows of sequences
/// one after the other makes of each what it makes of it in one pass where each position sees
/// itself and what comes before it, and holds the same keys and values then. This is up to what
/// the formulas mean.
pub proof fn law_rows_one_by_one<V>(
    val: spec_fn(Scalar) -> V,
    a: AttentionView,
    x: ArrayView,
    pos: ArrayView,
    mask: Option<ArrayView>,
    t: nat,
)
    requires
        is_meaning(val),
        a.consistent(),
        a.kv_heads > 0,
        a.head_dim != 1,
        a.cache is None,
        is_rows(x, a.hidden),
        x.count() > 0,
        pos.shape == seq![1usize, x.shape[1], a.head_dim],
        mask matches Some(m) ==> m.shape == seq![x.shape[1], x.shape[1]],
        is_causal(mask, x.shape[1] as int, x.shape[1] as int),
        attention_of(a, x, pos, mask) is Some,
        t < x.shape[1],
    ensures
        ({
            let a1 = attention_stepped(a, x, pos, t);
            let y = attention_of(a1, part(x, t as int, 1), part(pos, t as int, 1), None);
            &&& y is Some
            &&& all_continue(val, y->Some_0, attention_of(a, x, pos, mask)->Some_0, t as int)
        }),
        attention_stands_at(
            val,
            attention_stepped(a, x, pos, x.shape[1] as nat),
            a,
            x,
            pos,
            x.shape[1] as int,
        ),
{
    law_attention_success(a, x, pos, mask);
    lemma_attention_stands(val, a, x, pos, mask, t);
    lemma_attention_step(val, attention_stepped(a, x, pos, t), a, x, pos, mask, t as int);
    lemma_attention_stands(val, a, x, pos, mask, x.shape[1] as nat);
}

} // verus!
