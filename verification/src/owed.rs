//! When a pass is owed to succeed, written out in sizes and places.

use vstd::prelude::*;
use crate::attention::{
    attention_of, attention_sure, cache_after, cache_sure, group_of, AttentionView,
};
use crate::decoder::{
    feed_forward_of, feed_forward_sure, layer_of, layer_sure, FeedForwardView, LayerView,
};
use crate::laws::{
    attention_addressable, cached, law_attention_defined, law_forward_succeeds, law_layer_defined,
    layer_addressable, layer_on_cpu, layer_regular, lemma_layer_sure, lemma_scores_not_empty,
    model_addressable, model_on_cpu, model_regular,
};
use crate::layers::lookup_sure;
use crate::model::{forward_of, forward_sure, ModelView};
use crate::outcomes::lemma_positive3;
use crate::pieces::law_mask_written_out;
use crate::shape::{
    addressable, in_bounds, lemma_numel_axes, lemma_offset3, lemma_offset4, lemma_offset5,
};
use crate::view::{ArrayView, ElementKind, Scalar};

verus! {

proof fn lemma_three(a: usize, b: usize, c: usize)
    requires
        a > 0,
        b > 0,
        a * b * c <= usize::MAX,
        a * b <= usize::MAX,
    ensures
        addressable(seq![a, b, c]),
{
    lemma_offset3(seq![a, b, c], seq![0int, 0, 0]);
    let (ia, ib) = (a as int, b as int);
    if c == 0 {
        assert(ia * ib * 1 == ia * ib) by (nonlinear_arith);
    }
}

proof fn lemma_four(a: usize, b: usize, c: usize, d: usize)
    requires
        a > 0,
        b > 0,
        c > 0,
        d > 0,
        a * b * c * d <= usize::MAX,
    ensures
        addressable(seq![a, b, c, d]),
{
    lemma_offset4(seq![a, b, c, d], seq![0int, 0, 0, 0]);
}

proof fn lemma_five(a: usize, b: usize, c: usize, d: usize, e: usize)
    requires
        a > 0,
        b > 0,
        c > 0,
        d > 0,
        e > 0,
        a * b * c * d * e <= usize::MAX,
    ensures
        addressable(seq![a, b, c, d, e]),
{
    lemma_offset5(seq![a, b, c, d, e], seq![0int, 0, 0, 0, 0]);
}

/// What a layer computes can be addressed where the rows, their images, the scores and the
/// repeated keys can be counted.
proof fn lemma_sizes(a: AttentionView, b: usize, s: usize, t: int)
    requires
        b > 0,
        s > 0,
        s <= t <= usize::MAX,
        a.heads > 0,
        a.kv_heads > 0,
        a.head_dim > 0,
        a.heads * a.head_dim == a.hidden,
        a.heads as int % a.kv_heads as int == 0,
        b * s * (a.hidden + 2 * (a.kv_heads * a.head_dim)) <= usize::MAX,
        a.hidden + 2 * (a.kv_heads * a.head_dim) <= usize::MAX,
        b * a.heads * s * t <= usize::MAX,
        b * t * a.hidden <= usize::MAX,
    ensures
        attention_addressable(a, b, s, t),
        a.heads == a.kv_heads * group_of(a),
        group_of(a) >= 1,
        b * s <= usize::MAX,
        b * s * a.hidden <= usize::MAX,
        (group_of(a) == 1) == (a.heads == a.kv_heads),
{
    let (h, k, d, w) = (
        a.heads as int,
        a.kv_heads as int,
        a.head_dim as int,
        a.hidden as int,
    );
    let (ib, is) = (b as int, s as int);
    let n = h / k;
    vstd::arithmetic::div_mod::lemma_fundamental_div_mod(h, k);
    vstd::arithmetic::div_mod::lemma_div_pos_is_pos(h, k);
    vstd::arithmetic::div_mod::lemma_div_is_ordered_by_denominator(h, 1, k);
    assert(h == k * n);
    assert(n >= 1) by (nonlinear_arith)
        requires
            h == k * n,
            h > 0,
            k > 0,
    ;
    assert(group_of(a) == n);
    assert(n == 1 <==> h == k) by (nonlinear_arith)
        requires
            h == k * n,
            k > 0,
    ;
    let kv = k * d;
    assert(0 < kv <= w) by (nonlinear_arith)
        requires
            kv == k * d,
            w == h * d,
            h == k * n,
            n >= 1,
            k > 0,
            d > 0,
    ;
    assert(ib * is <= ib * is * w && ib * is * w <= ib * is * (w + 2 * kv)) by (nonlinear_arith)
        requires
            ib > 0,
            is > 0,
            w > 0,
            kv > 0,
    ;
    lemma_three(b, s, a.hidden);
    lemma_three(b, s, (a.hidden + 2 * a.kv_width()) as usize);
    assert(ib * is * h * d == ib * is * w && ib * h * is * d == ib * is * w) by (nonlinear_arith)
        requires
            w == h * d,
    ;
    lemma_four(b, s, a.heads, a.head_dim);
    lemma_four(b, a.heads, s, a.head_dim);
    assert(ib * is * k * d <= ib * is * w && ib * k * is * d <= ib * is * w) by (nonlinear_arith)
        requires
            kv == k * d,
            kv <= w,
            ib > 0,
            is > 0,
    ;
    lemma_four(b, s, a.kv_heads, a.head_dim);
    lemma_four(b, a.kv_heads, s, a.head_dim);
    let tt = t as usize;
    assert(ib * k * t * d <= ib * t * w && ib * k * n * t * d == ib * t * w) by (nonlinear_arith)
        requires
            kv == k * d,
            kv <= w,
            w == h * d,
            h == k * n,
            ib > 0,
            t > 0,
    ;
    lemma_four(b, a.kv_heads, tt, a.head_dim);
    lemma_five(b, a.kv_heads, group_of(a), tt, a.head_dim);
    lemma_four(b, a.heads, s, tt);
}

/// A pass is owed to succeed on the CPU for tokens of the vocabulary. The parameters are of one
/// kind, single precision, or half precision for single positions. Each matrix and vector has the
/// size that its place asks for, heads share out the rows and key heads share out the heads, and
/// what is computed can be counted. Caches are empty, or hold positions of the same sequences and
/// a single position is new. Key heads are shared, or there is a single sequence, or a single
/// position is new and what the caches hold is packed.
#[verifier::rlimit(30)]
pub proof fn law_scores_are_owed(
    m: ModelView,
    ids: ArrayView,
    pos: ArrayView,
    head_dim: usize,
    kind: ElementKind,
    cached_packed: bool,
)
    requires
        ids.shape.len() == 2,
        ids.shape[0] > 0,
        ids.shape[1] > 0,
        ids.cpu,
        ids.kind is U8 || ids.kind is U32 || ids.kind is I64,
        forall|i: Seq<int>| #[trigger]
            in_bounds(ids.shape, i) ==> (ids.at(i) matches Scalar::Index(v) && 0 <= v
                < m.embed_tokens.table.shape[0]),
        kind is F32 || (kind is F16 && ids.shape[1] == 1),
        m.embed_tokens.width > 0,
        m.embed_tokens.packed,
        m.embed_tokens.table.shape == seq![m.embed_tokens.table.shape[0], m.embed_tokens.width],
        m.embed_tokens.table.kind == kind,
        m.embed_tokens.table.cpu,
        m.norm.weight.shape == seq![m.embed_tokens.width],
        m.norm.weight.kind == kind && m.norm.weight.cpu && m.norm.weight_packed,
        m.norm.bias matches Some(f) && f.shape == seq![m.embed_tokens.width] && f.kind == kind
            && f.cpu && m.norm.bias_packed,
        m.norm.remove_mean,
        m.lm_head.weight.shape == seq![m.embed_tokens.table.shape[0], m.embed_tokens.width],
        m.lm_head.weight.kind == kind && m.lm_head.weight.cpu,
        m.lm_head.bias matches Some(f) && f.shape == seq![m.embed_tokens.table.shape[0]] && f.kind
            == kind && f.cpu,
        pos.shape == seq![1usize, ids.shape[1], head_dim],
        pos.kind == kind,
        pos.cpu,
        head_dim > 0,
        head_dim % 2 == 0,
        ids.shape[1] * ids.shape[1] <= usize::MAX,
        ids.shape[0] * ids.shape[1] * m.embed_tokens.width <= usize::MAX,
        ids.shape[0] * ids.shape[1] * m.embed_tokens.table.shape[0] <= usize::MAX,
        forall|i: int|
            0 <= i < m.layers.len() ==> {
                let l = #[trigger] m.layers[i];
                let a = l.self_attn;
                let (b, s, w) = (ids.shape[0], ids.shape[1], m.embed_tokens.width);
                let kv = a.kv_heads * head_dim;
                let n = l.mlp.gate.weight.shape[0];
                let t = match a.cache {
                    None => s as int,
                    Some((k, _)) => k.shape[2] + s,
                };
                &&& a.head_dim == head_dim && a.hidden == w
                &&& a.heads > 0 && a.kv_heads > 0
                &&& a.heads * head_dim == w
                &&& a.heads as int % a.kv_heads as int == 0
                &&& w + 2 * kv <= usize::MAX
                &&& a.qkv.weight.shape == seq![(w + 2 * kv) as usize, w]
                &&& a.qkv.weight.kind == kind && a.qkv.weight.cpu
                &&& a.qkv.bias matches Some(f) && f.shape == seq![(w + 2 * kv) as usize] && f.kind
                    == kind && f.cpu
                &&& a.o.weight.shape == seq![w, w]
                &&& a.o.weight.kind == kind && a.o.weight.cpu
                &&& a.o.bias matches Some(f) && f.shape == seq![w] && f.kind == kind && f.cpu
                &&& a.cache matches Some((k, v)) ==> {
                    &&& s == 1
                    &&& k.shape == seq![b, a.kv_heads, k.shape[2], head_dim]
                    &&& v.shape == k.shape
                    &&& k.kind == kind && v.kind == kind
                    &&& k.cpu && v.cpu
                }
                &&& l.mlp.gate.weight.shape == seq![n, w]
                &&& l.mlp.gate.weight.kind == kind && l.mlp.gate.weight.cpu
                &&& l.mlp.gate.bias matches Some(f) && f.shape == seq![n] && f.kind == kind
                    && f.cpu
                &&& l.mlp.up.weight.shape == seq![n, w]
                &&& l.mlp.up.weight.kind == kind && l.mlp.up.weight.cpu
                &&& l.mlp.up.bias matches Some(f) && f.shape == seq![n] && f.kind == kind && f.cpu
                &&& l.mlp.down.weight.shape == seq![w, n]
                &&& l.mlp.down.weight.kind == kind && l.mlp.down.weight.cpu
                &&& l.mlp.down.bias matches Some(f) && f.shape == seq![w] && f.kind == kind
                    && f.cpu
                &&& l.input_layernorm.weight.shape == seq![w]
                &&& l.input_layernorm.weight.kind == kind && l.input_layernorm.weight.cpu
                &&& l.input_layernorm.bias matches Some(f) && f.shape == seq![w] && f.kind == kind
                    && f.cpu
                &&& l.input_layernorm.weight_packed && l.input_layernorm.bias_packed
                &&& l.input_layernorm.remove_mean
                &&& l.post_attention_layernorm.weight.shape == seq![w]
                &&& l.post_attention_layernorm.weight.kind == kind
                &&& l.post_attention_layernorm.weight.cpu
                &&& l.post_attention_layernorm.bias matches Some(f) && f.shape == seq![w] && f.kind
                    == kind && f.cpu
                &&& l.post_attention_layernorm.weight_packed
                &&& l.post_attention_layernorm.bias_packed
                &&& l.post_attention_layernorm.remove_mean
                &&& t <= usize::MAX
                &&& b * s * (w + 2 * kv) <= usize::MAX
                &&& b * s * n <= usize::MAX
                &&& b * a.heads * s * t <= usize::MAX
                &&& b * t * w <= usize::MAX
                &&& a.heads != a.kv_heads || b == 1 || (s == 1 && cached_packed)
            },
    ensures
        forward_of(m, ids, pos) is Some,
        forward_sure(m, ids, pos, cached_packed),
{
    let (b, s, w) = (ids.shape[0], ids.shape[1], m.embed_tokens.width);
    let v = m.embed_tokens.table.shape[0];
    assert(ids.shape =~= seq![b, s]);
    lemma_numel_axes(ids.shape);
    assert forall|d: int| 0 <= d < ids.shape.len() implies #[trigger] ids.shape[d] > 0 by {
        if d == 0 {
        } else {
        }
    }
    let (ib, is, iw) = (b as int, s as int, w as int);
    assert(ib * is <= ib * is * iw) by (nonlinear_arith)
        requires
            ib > 0,
            is > 0,
            iw > 0,
    ;
    lemma_three(b, s, w);
    lemma_three(b, s, v);
    law_mask_written_out(s, true);
    assert forall|i: int| 0 <= i < m.layers.len() implies ({
        let l = #[trigger] m.layers[i];
        &&& l.is_for(w)
        &&& l.proper()
        &&& layer_regular(l, b, kind, true)
        &&& layer_addressable(l, b, s)
        &&& layer_on_cpu(l)
        &&& l.self_attn.head_dim == head_dim
        &&& s > 1 ==> cached(l.self_attn) == 0
        &&& b == 1 || (s == 1 && cached_packed) || group_of(l.self_attn) != 1
    }) by {
        let l = m.layers[i];
        let a = l.self_attn;
        let n = l.mlp.gate.weight.shape[0];
        lemma_sizes(a, b, s, cached(a) + s);
        lemma_three(b, s, n);
    }
    assert(m.consistent());
    assert(m.proper());
    assert(lookup_sure(m.embed_tokens, ids));
    assert(model_regular(m, b, s, head_dim));
    assert(model_addressable(m, b, s));
    assert(model_on_cpu(m));
    law_forward_succeeds(m, ids, pos, head_dim, cached_packed);
}

/// A feed-forward network is owed to succeed on rows of its width, of matrices and of batches,
/// of the kind of its parameters, where what it computes can be counted, and on the CPU nothing
/// can come between.
pub proof fn law_network_is_owed(f: FeedForwardView, x: ArrayView)
    requires
        x.rank() == 2 || x.rank() == 3,
        x.kind is F16 || x.kind is F32 || x.kind is F64,
        ({
            let (last, n) = (x.rank() - 1, f.gate.weight.shape[0]);
            let w = x.shape[last];
            &&& f.gate.weight.shape == seq![n, w]
            &&& f.gate.weight.kind == x.kind && f.gate.weight.cpu
            &&& f.gate.bias matches Some(c) && c.shape == seq![n] && c.kind == x.kind && c.cpu
            &&& f.up.weight.shape == seq![n, w]
            &&& f.up.weight.kind == x.kind && f.up.weight.cpu
            &&& f.up.bias matches Some(c) && c.shape == seq![n] && c.kind == x.kind && c.cpu
            &&& f.down.weight.shape == seq![w, n]
            &&& f.down.weight.kind == x.kind && f.down.weight.cpu
            &&& f.down.bias matches Some(c) && c.shape == seq![w] && c.kind == x.kind && c.cpu
            &&& addressable(x.shape)
            &&& addressable(x.shape.update(last, n))
        }),
        x.cpu,
    ensures
        feed_forward_of(f, x) is Some,
        feed_forward_sure(f, x),
{
    let (last, n) = (x.rank() - 1, f.gate.weight.shape[0]);
    assert(x.shape.update(last, n).update(last, x.shape[last]) =~= x.shape);
}

/// Attention is owed to succeed on the CPU: for rows of its width, with parameters and a cache of
/// their kind and of the sizes that their places ask for, with a row of the table and of the mask
/// per position, where what is computed can be counted, and key heads are shared, or there is a
/// single sequence, or a single position is new and what the cache holds is packed.
#[verifier::rlimit(30)]
pub proof fn law_attention_is_owed(
    a: AttentionView,
    x: ArrayView,
    pos: ArrayView,
    mask: Option<ArrayView>,
    head_dim: usize,
    kind: ElementKind,
    cached_packed: bool,
)
    requires
        x.rank() == 3,
        x.shape[0] > 0 && x.shape[1] > 0 && x.shape[2] > 0,
        x.kind == kind && x.cpu,
        kind is F16 || kind is F32 || kind is F64,
        pos.shape == seq![1usize, x.shape[1], head_dim],
        pos.kind == kind && pos.cpu,
        head_dim > 0,
        head_dim % 2 == 0,
        ({
            let (b, s, w) = (x.shape[0], x.shape[1], x.shape[2]);
            let kv = a.kv_heads * head_dim;
            let t = match a.cache {
                None => s as int,
                Some((k, _)) => k.shape[2] + s,
            };
            &&& a.head_dim == head_dim && a.hidden == w
            &&& a.heads > 0 && a.kv_heads > 0
            &&& a.heads * head_dim == w
            &&& a.heads as int % a.kv_heads as int == 0
            &&& w + 2 * kv <= usize::MAX
            &&& a.qkv.weight.shape == seq![(w + 2 * kv) as usize, w]
            &&& a.qkv.weight.kind == kind && a.qkv.weight.cpu
            &&& a.qkv.bias matches Some(f) && f.shape == seq![(w + 2 * kv) as usize] && f.kind
                == kind && f.cpu
            &&& a.o.weight.shape == seq![w, w]
            &&& a.o.weight.kind == kind && a.o.weight.cpu
            &&& a.o.bias matches Some(f) && f.shape == seq![w] && f.kind == kind && f.cpu
            &&& a.cache matches Some((k, v)) ==> {
                    &&& k.shape == seq![b, a.kv_heads, k.shape[2], head_dim]
                &&& v.shape == k.shape
                &&& k.kind == kind && v.kind == kind
                &&& k.cpu && v.cpu
            }
            &&& mask matches Some(f) ==> f.shape == seq![s, t as usize] && f.kind == kind && f.cpu
            &&& t <= usize::MAX
            &&& b * s * (w + 2 * kv) <= usize::MAX
            &&& b * a.heads * s * t <= usize::MAX
            &&& b * t * w <= usize::MAX
            &&& a.heads != a.kv_heads || b == 1 || (s == 1 && cached_packed)
        }),
    ensures
        attention_of(a, x, pos, mask) is Some,
        attention_sure(a, x, pos, mask, cached_packed),
        cache_after(a, x, pos) is Some,
        cache_sure(a, x, pos),
{
    let (b, s, w) = (x.shape[0], x.shape[1], x.shape[2]);
    lemma_sizes(a, b, s, cached(a) + s);
    assert(x.shape =~= seq![b, s, w]);
    lemma_positive3(b, s, w);
    law_attention_defined(a, x, pos, mask);
    lemma_scores_not_empty(a, x, pos, mask);
}

/// A layer is owed to succeed on the CPU where its attention is and its normalizations and its
/// network are of the kind and for the width of the rows.
#[verifier::rlimit(30)]
pub proof fn law_layer_is_owed(
    l: LayerView,
    x: ArrayView,
    pos: ArrayView,
    mask: Option<ArrayView>,
    head_dim: usize,
    kind: ElementKind,
    cached_packed: bool,
)
    requires
        x.rank() == 3,
        x.shape[0] > 0 && x.shape[1] > 0 && x.shape[2] > 0,
        x.kind == kind && x.cpu,
        kind is F16 || kind is F32,
        pos.shape == seq![1usize, x.shape[1], head_dim],
        pos.kind == kind && pos.cpu,
        head_dim > 0,
        head_dim % 2 == 0,
        ({
            let a = l.self_attn;
            let (b, s, w) = (x.shape[0], x.shape[1], x.shape[2]);
            let kv = a.kv_heads * head_dim;
            let n = l.mlp.gate.weight.shape[0];
            let t = match a.cache {
                None => s as int,
                Some((k, _)) => k.shape[2] + s,
            };
            &&& a.head_dim == head_dim && a.hidden == w
            &&& a.heads > 0 && a.kv_heads > 0
            &&& a.heads * head_dim == w
            &&& a.heads as int % a.kv_heads as int == 0
            &&& w + 2 * kv <= usize::MAX
            &&& a.qkv.weight.shape == seq![(w + 2 * kv) as usize, w]
            &&& a.qkv.weight.kind == kind && a.qkv.weight.cpu
            &&& a.qkv.bias matches Some(f) && f.shape == seq![(w + 2 * kv) as usize] && f.kind
                == kind && f.cpu
            &&& a.o.weight.shape == seq![w, w]
            &&& a.o.weight.kind == kind && a.o.weight.cpu
            &&& a.o.bias matches Some(f) && f.shape == seq![w] && f.kind == kind && f.cpu
            &&& a.cache matches Some((k, v)) ==> {
                    &&& k.shape == seq![b, a.kv_heads, k.shape[2], head_dim]
                &&& v.shape == k.shape
                &&& k.kind == kind && v.kind == kind
                &&& k.cpu && v.cpu
            }
            &&& l.mlp.gate.weight.shape == seq![n, w]
            &&& l.mlp.gate.weight.kind == kind && l.mlp.gate.weight.cpu
            &&& l.mlp.gate.bias matches Some(f) && f.shape == seq![n] && f.kind == kind
                && f.cpu
            &&& l.mlp.up.weight.shape == seq![n, w]
            &&& l.mlp.up.weight.kind == kind && l.mlp.up.weight.cpu
            &&& l.mlp.up.bias matches Some(f) && f.shape == seq![n] && f.kind == kind && f.cpu
            &&& l.mlp.down.weight.shape == seq![w, n]
            &&& l.mlp.down.weight.kind == kind && l.mlp.down.weight.cpu
            &&& l.mlp.down.bias matches Some(f) && f.shape == seq![w] && f.kind == kind
                && f.cpu
            &&& l.input_layernorm.weight.shape == seq![w]
            &&& l.input_layernorm.weight.kind == kind && l.input_layernorm.weight.cpu
            &&& l.input_layernorm.bias matches Some(f) && f.shape == seq![w] && f.kind == kind
                && f.cpu
            &&& l.input_layernorm.weight_packed && l.input_layernorm.bias_packed
            &&& l.input_layernorm.remove_mean
            &&& l.post_attention_layernorm.weight.shape == seq![w]
            &&& l.post_attention_layernorm.weight.kind == kind
            &&& l.post_attention_layernorm.weight.cpu
            &&& l.post_attention_layernorm.bias matches Some(f) && f.shape == seq![w] && f.kind
                == kind && f.cpu
            &&& l.post_attention_layernorm.weight_packed
            &&& l.post_attention_layernorm.bias_packed
            &&& l.post_attention_layernorm.remove_mean
            &&& mask matches Some(f) ==> f.shape == seq![s, t as usize] && f.kind == kind && f.cpu
            &&& t <= usize::MAX
            &&& b * s * (w + 2 * kv) <= usize::MAX
            &&& b * s * n <= usize::MAX
            &&& b * a.heads * s * t <= usize::MAX
            &&& b * t * w <= usize::MAX
            &&& a.heads != a.kv_heads || b == 1 || (s == 1 && cached_packed)
        }),
    ensures
        layer_of(l, x, true, pos, mask) is Some,
        layer_sure(l, x, true, pos, mask, cached_packed),
{
    let (b, s, w) = (x.shape[0], x.shape[1], x.shape[2]);
    let a = l.self_attn;
    lemma_sizes(a, b, s, cached(a) + s);
    lemma_three(b, s, l.mlp.gate.weight.shape[0]);
    assert(x.shape =~= seq![b, s, w]);
    lemma_positive3(b, s, w);
    assert(l.applies());
    law_layer_defined(l, x, pos, mask);
    lemma_layer_sure(l, x, pos, mask, cached_packed);
}

} // verus!
