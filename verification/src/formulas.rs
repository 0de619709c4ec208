//! The parts of the model written out: what stands at each place of a result, in terms of the
//! numbers that the part is given and of its stored parameters.

use vstd::prelude::*;
use crate::attention::{attention_of, cache_after, group_of, projected_of, AttentionView};
use crate::decoder::{
    attended_rows_of, feed_forward_of, layer_cache_after, layer_of, FeedForwardView, LayerView,
};
use crate::laws::{
    at3, average_at, cached, is_rows, law_attention_defined, lemma_head_at, score_at,
};
use crate::layers::{dense_of, lookup_of, norm_of, DenseView};
use crate::model::{forward_of, mask_for, model_after, stack_of, ModelView};
use crate::outcomes::{law_attention_success, lemma_projection_tells};
use crate::positions::{
    angles_at, dense_row, lemma_attention_row, lemma_dense_row, lemma_in3, lemma_turned_at,
    mixed_row, row_of, turned_entry,
};
use crate::shape::{aligned, common_shape, in_bounds};
use crate::view::{product_of, silu_of, ArrayView, ElementKind, Scalar};

verus! {

/// A position stays within the shape where the size along one axis, and the coordinate there,
/// are replaced.
proof fn lemma_moved(s: Seq<usize>, i: Seq<int>, d: int, n: usize, c: int)
    requires
        in_bounds(s, i),
        0 <= d < s.len(),
        0 <= c < n,
    ensures
        in_bounds(s.update(d, n), i.update(d, c)),
{
    let (t, j) = (s.update(d, n), i.update(d, c));
    assert forall|e: int| 0 <= e < t.len() implies 0 <= #[trigger] j[e] < t[e] by {
        assert(e != d ==> 0 <= i[e] < s[e]);
    }
}

/// A feed-forward network, written out: each number of a row of the result is the bias of the
/// map `down` there, plus the sum over the inner numbers of its weight times the product of the
/// sigmoid linear unit of the image under `gate` and the image under `up` of the row.
pub proof fn law_feed_forward_written_out(f: FeedForwardView, x: ArrayView, i: Seq<int>)
    requires
        feed_forward_of(f, x) is Some,
        in_bounds(feed_forward_of(f, x)->Some_0.shape, i),
    ensures
        ({
            let y = feed_forward_of(f, x)->Some_0;
            let last = x.rank() - 1;
            let row = Seq::new(x.shape[last] as nat, |c: int| x.at(i.update(last, c)));
            let n = f.gate.weight.shape[0] as nat;
            &&& y.shape == x.shape.update(last, f.down.weight.shape[0])
            &&& y.at(i) == Scalar::Add(
                Box::new(
                    Scalar::Dot(
                        Seq::new(
                            n,
                            |j: int|
                                Scalar::Mul(
                                    Box::new(
                                        Scalar::Silu(
                                            Box::new(
                                                Scalar::Add(
                                                    Box::new(
                                                        Scalar::Dot(
                                                            row,
                                                            Seq::new(
                                                                row.len(),
                                                                |c: int|
                                                                    f.gate.weight.at(seq![j, c]),
                                                            ),
                                                        ),
                                                    ),
                                                    Box::new(f.gate.bias->Some_0.at(seq![j])),
                                                ),
                                            ),
                                        ),
                                    ),
                                    Box::new(
                                        Scalar::Add(
                                            Box::new(
                                                Scalar::Dot(
                                                    row,
                                                    Seq::new(
                                                        row.len(),
                                                        |c: int| f.up.weight.at(seq![j, c]),
                                                    ),
                                                ),
                                            ),
                                            Box::new(f.up.bias->Some_0.at(seq![j])),
                                        ),
                                    ),
                                ),
                        ),
                        Seq::new(n, |j: int| f.down.weight.at(seq![i[last], j])),
                    ),
                ),
                Box::new(f.down.bias->Some_0.at(seq![i[last]])),
            )
        }),
{
    let last = x.rank() - 1;
    let row = Seq::new(x.shape[last] as nat, |c: int| x.at(i.update(last, c)));
    let n = f.gate.weight.shape[0];
    let g = dense_of(f.gate, x)->Some_0;
    let u = dense_of(f.up, x)->Some_0;
    let s = silu_of(g)->Some_0;
    let p = product_of(s, u)->Some_0;
    let y = feed_forward_of(f, x)->Some_0;
    assert(y.shape =~= x.shape.update(last, f.down.weight.shape[0]));
    let left = Seq::new(n as nat, |j: int| p.at(i.update(last, j)));
    let right = Seq::new(
        n as nat,
        |j: int|
            Scalar::Mul(
                Box::new(
                    Scalar::Silu(
                        Box::new(
                            Scalar::Add(
                                Box::new(
                                    Scalar::Dot(
                                        row,
                                        Seq::new(
                                            row.len(),
                                            |c: int| f.gate.weight.at(seq![j, c]),
                                        ),
                                    ),
                                ),
                                Box::new(f.gate.bias->Some_0.at(seq![j])),
                            ),
                        ),
                    ),
                ),
                Box::new(
                    Scalar::Add(
                        Box::new(
                            Scalar::Dot(
                                row,
                                Seq::new(row.len(), |c: int| f.up.weight.at(seq![j, c])),
                            ),
                        ),
                        Box::new(f.up.bias->Some_0.at(seq![j])),
                    ),
                ),
            ),
    );
    assert forall|j: int| 0 <= j < n implies left[j] == right[j] by {
        let k = i.update(last, j);
        lemma_moved(y.shape, i, last, n, j);
        assert(y.shape.update(last, n) =~= g.shape);
        let own = Seq::new(x.shape[last] as nat, |c: int| x.at(k.update(last, c)));
        assert forall|c: int| 0 <= c < own.len() implies own[c] == row[c] by {
            assert(k.update(last, c) =~= i.update(last, c));
        }
        assert(own =~= row);
        assert(k[last] == j);
    }
    assert(left =~= right);
}

/// Rows and a row of their length have the shape of the rows in common.
pub(crate) proof fn lemma_common_rows(s: Seq<usize>)
    requires
        s.len() > 0,
    ensures
        common_shape(s, seq![s[s.len() - 1]]) == Some(s),
{
    let t = seq![s[s.len() - 1]];
    let r = s.len();
    assert forall|d: int| 0 <= d < r implies (#[trigger] aligned(s, r, d) == aligned(t, r, d)
        || aligned(s, r, d) == 1 || aligned(t, r, d) == 1) by {
        if d == r - 1 {
            assert(aligned(s, r, d) == s[r - 1] && aligned(t, r, d) == t[0]);
        } else {
            assert(aligned(t, r, d) == 1);
        }
    }
    assert(common_shape(s, t)->Some_0 =~= s);
}

/// A layer, written out. The rows `n` are the rows of `x`, normalized by the first
/// normalization; `u` is what attention makes of them. The rows `v` are the sums of `u` and `x`,
/// normalized by the second normalization. What the feed-forward network makes of `v`, plus the
/// sum of `u` and `x` themselves, is the result. The keys and values of `n` are what the cache
/// gets.
#[verifier::rlimit(30)]
pub proof fn law_layer_written_out(
    l: LayerView,
    x: ArrayView,
    packed: bool,
    pos: ArrayView,
    mask: Option<ArrayView>,
) -> (parts: (ArrayView, ArrayView, ArrayView, ArrayView))
    requires
        layer_of(l, x, packed, pos, mask) is Some,
    ensures
        ({
            let y = layer_of(l, x, packed, pos, mask)->Some_0;
            let last = x.rank() - 1;
            let w = x.shape[last] as nat;
            let (n, u, v, f) = parts;
            &&& attention_of(l.self_attn, n, pos, mask) == Some(u)
            &&& feed_forward_of(l.mlp, v) == Some(f)
            &&& layer_cache_after(l, x, packed, pos) == cache_after(l.self_attn, n, pos)
            &&& norm_of(l.input_layernorm, x, packed) == Some(n)
            &&& l.input_layernorm.weight.shape == seq![x.shape[last]] ==> {
                &&& n.shape == x.shape && n.kind == x.kind && n.cpu == x.cpu
                &&& forall|i: Seq<int>|
                    in_bounds(x.shape, i) ==> #[trigger] n.at(i) == (Scalar::Normalized {
                        row: Seq::new(w, |c: int| x.at(i.update(last, c))),
                        index: i[last],
                        gain: Box::new(l.input_layernorm.weight.at(seq![i[last]])),
                        bias: Box::new(l.input_layernorm.bias->Some_0.at(seq![i[last]])),
                        eps: l.input_layernorm.eps,
                    })
            }
            &&& u.shape == x.shape
            &&& v.shape == x.shape && v.kind == u.kind && v.cpu == u.cpu
            &&& forall|i: Seq<int>|
                in_bounds(x.shape, i) ==> #[trigger] v.at(i) == (Scalar::Normalized {
                    row: Seq::new(
                        w,
                        |c: int|
                            Scalar::Add(
                                Box::new(u.at(i.update(last, c))),
                                Box::new(x.at(i.update(last, c))),
                            ),
                    ),
                    index: i[last],
                    gain: Box::new(l.post_attention_layernorm.weight.at(seq![i[last]])),
                    bias: Box::new(l.post_attention_layernorm.bias->Some_0.at(seq![i[last]])),
                    eps: l.post_attention_layernorm.eps,
                })
            &&& y.shape == x.shape && f.shape == x.shape
            &&& forall|i: Seq<int>|
                in_bounds(x.shape, i) ==> #[trigger] y.at(i) == Scalar::Add(
                    Box::new(f.at(i)),
                    Box::new(Scalar::Add(Box::new(u.at(i)), Box::new(x.at(i)))),
                )
        }),
{
    reveal(layer_of);
    reveal(layer_cache_after);
    let y = layer_of(l, x, packed, pos, mask)->Some_0;
    let last = x.rank() - 1;
    let w = x.shape[last] as nat;
    let n = norm_of(l.input_layernorm, x, packed)->Some_0;
    lemma_common_rows(x.shape);
    let u = attention_of(l.self_attn, n, pos, mask)->Some_0;
    let z = attended_rows_of(l, x, packed, pos, mask)->Some_0;
    let v = norm_of(l.post_attention_layernorm, z, true)->Some_0;
    let f = feed_forward_of(l.mlp, v)->Some_0;
    assert(attention_of(l.self_attn, n, pos, mask) == Some(u));
    assert(feed_forward_of(l.mlp, v) == Some(f));
    if l.input_layernorm.weight.shape == seq![x.shape[last]] {
        assert forall|i: Seq<int>| in_bounds(x.shape, i) implies #[trigger] n.at(i) == (
        Scalar::Normalized {
            row: Seq::new(w, |c: int| x.at(i.update(last, c))),
            index: i[last],
            gain: Box::new(l.input_layernorm.weight.at(seq![i[last]])),
            bias: Box::new(l.input_layernorm.bias->Some_0.at(seq![i[last]])),
            eps: l.input_layernorm.eps,
        }) by {
            assert(0 <= i[last] < x.shape[last]);
        }
    }
    assert forall|i: Seq<int>| in_bounds(x.shape, i) implies #[trigger] v.at(i) == (
    Scalar::Normalized {
        row: Seq::new(
            w,
            |c: int|
                Scalar::Add(
                    Box::new(u.at(i.update(last, c))),
                    Box::new(x.at(i.update(last, c))),
                ),
        ),
        index: i[last],
        gain: Box::new(l.post_attention_layernorm.weight.at(seq![i[last]])),
        bias: Box::new(l.post_attention_layernorm.bias->Some_0.at(seq![i[last]])),
        eps: l.post_attention_layernorm.eps,
    }) by {
        assert(0 <= i[last] < x.shape[last]);
        let own = Seq::new(w, |c: int| z.at(i.update(last, c)));
        let sums = Seq::new(
            w,
            |c: int|
                Scalar::Add(
                    Box::new(u.at(i.update(last, c))),
                    Box::new(x.at(i.update(last, c))),
                ),
        );
        assert forall|c: int| 0 <= c < w implies own[c] == sums[c] by {
            lemma_moved(x.shape, i, last, x.shape[last], c);
            assert(x.shape.update(last, x.shape[last]) =~= x.shape);
        }
        assert(own =~= sums);
    }
    (n, u, v, f)
}

proof fn lemma_rows_keep_shape(
    l: LayerView,
    x: ArrayView,
    pos: ArrayView,
    mask: Option<ArrayView>,
)
    requires
        layer_of(l, x, true, pos, mask) is Some,
    ensures
        layer_of(l, x, true, pos, mask)->Some_0.shape == x.shape,
{
    reveal(layer_of);
}

proof fn lemma_rows_so_far(
    layers: Seq<LayerView>,
    n: nat,
    k: nat,
    x: ArrayView,
    pos: ArrayView,
    mask: Option<ArrayView>,
)
    requires
        k <= n <= layers.len(),
        stack_of(layers, n, x, pos, mask) is Some,
    ensures
        stack_of(layers, k, x, pos, mask) matches Some(y) && y.shape == x.shape,
        stack_of(layers, n, x, pos, mask)->Some_0.shape == x.shape,
    decreases n,
{
    if n > 0 {
        lemma_rows_so_far(
            layers,
            (n - 1) as nat,
            if k < n {
                k
            } else {
                (n - 1) as nat
            },
            x,
            pos,
            mask,
        );
        let y = stack_of(layers, (n - 1) as nat, x, pos, mask)->Some_0;
        lemma_rows_keep_shape(layers[n - 1], y, pos, mask);
    }
}

/// A pass, written out. The first of the rows are those that the tokens select in the table.
/// Each layer makes the next rows of the ones before, with a mask that hides what comes later,
/// or none for a single position, and gets their keys and values into its cache. The score of a
/// token at a position is the bias of the token, plus the sum of its weights times the numbers of
/// the last row there, normalized by the last normalization. Nothing else of the model changes.
#[verifier::rlimit(30)]
pub proof fn law_forward_written_out(m: ModelView, ids: ArrayView, pos: ArrayView) -> (r: (
    Seq<ArrayView>,
    Option<ArrayView>,
))
    requires
        forward_of(m, ids, pos) is Some,
    ensures
        ({
            let y = forward_of(m, ids, pos)->Some_0;
            let (table, w) = (m.embed_tokens.table, m.embed_tokens.width);
            let (rows, mask) = r;
            let n = m.layers.len();
            let after = model_after(m, ids, pos);
            &&& ids.rank() == 2
            &&& rows.len() == n + 1
            &&& rows[0].shape == seq![ids.shape[0], ids.shape[1], w]
            &&& rows[0].kind == table.kind && rows[0].cpu == table.cpu
            &&& forall|b: int, t: int, c: int|
                0 <= b < ids.shape[0] && 0 <= t < ids.shape[1] && 0 <= c < w ==> #[trigger] at3(
                    rows[0],
                    b,
                    t,
                    c,
                ) == Scalar::Entry(
                    Seq::new(table.shape[0] as nat, |v: int| table.at(seq![v, c])),
                    Box::new(ids.at(seq![b, t])),
                )
            &&& ids.shape[1] <= 1 ==> mask is None
            &&& ids.shape[1] > 1 ==> {
                &&& mask matches Some(f)
                &&& f.shape == seq![ids.shape[1], ids.shape[1]]
                &&& f.kind == ElementKind::F32 && f.cpu == ids.cpu
                &&& forall|p: int, q: int|
                    0 <= p < ids.shape[1] && 0 <= q < ids.shape[1] ==> #[trigger] f.at(
                        Seq::empty().push(p).push(q),
                    ) == Scalar::Bits(
                        if q <= p {
                            0
                        } else {
                            0xff80_0000
                        },
                    )
            }
            &&& forall|k: int|
                0 <= k < n ==> layer_of(
                    m.layers[k],
                    #[trigger] rows[k],
                    true,
                    pos,
                    mask,
                ) == Some(rows[k + 1])
            &&& y.shape == seq![ids.shape[0], ids.shape[1], m.lm_head.weight.shape[0]]
            &&& forall|b: int, t: int, o: int|
                0 <= b < y.shape[0] && 0 <= t < y.shape[1] && 0 <= o < y.shape[2]
                    ==> #[trigger] at3(y, b, t, o) == Scalar::Add(
                    Box::new(
                        Scalar::Dot(
                            Seq::new(
                                w as nat,
                                |c: int|
                                    Scalar::Normalized {
                                        row: Seq::new(
                                            w as nat,
                                            |d: int| rows[n as int].at(seq![b, t, d]),
                                        ),
                                        index: c,
                                        gain: Box::new(m.norm.weight.at(seq![c])),
                                        bias: Box::new(m.norm.bias->Some_0.at(seq![c])),
                                        eps: m.norm.eps,
                                    },
                            ),
                            Seq::new(w as nat, |c: int| m.lm_head.weight.at(seq![o, c])),
                        ),
                    ),
                    Box::new(m.lm_head.bias->Some_0.at(seq![o])),
                )
            &&& after.embed_tokens == m.embed_tokens
            &&& after.norm == m.norm
            &&& after.lm_head == m.lm_head
            &&& after.pos_emb == m.pos_emb
            &&& after.device == m.device
            &&& after.layers.len() == n
            &&& forall|k: int|
                0 <= k < n ==> #[trigger] after.layers[k] == (LayerView {
                    self_attn: AttentionView {
                        cache: layer_cache_after(m.layers[k], rows[k], true, pos),
                        ..m.layers[k].self_attn
                    },
                    ..m.layers[k]
                })
        }),
{
    let y = forward_of(m, ids, pos)->Some_0;
    let (table, w) = (m.embed_tokens.table, m.embed_tokens.width);
    let n = m.layers.len();
    let x = lookup_of(m.embed_tokens, ids)->Some_0;
    let mask = mask_for(ids)->Some_0;
    let rows = Seq::new(
        (n + 1) as nat,
        |k: int| stack_of(m.layers, k as nat, x, pos, mask)->Some_0,
    );
    let shape = seq![ids.shape[0], ids.shape[1], w];
    assert(x.shape =~= shape);
    assert(rows[0] == x);
    assert forall|b: int, t: int, c: int|
        0 <= b < ids.shape[0] && 0 <= t < ids.shape[1] && 0 <= c < w implies #[trigger] at3(
        rows[0],
        b,
        t,
        c,
    ) == Scalar::Entry(
        Seq::new(table.shape[0] as nat, |v: int| table.at(seq![v, c])),
        Box::new(ids.at(seq![b, t])),
    ) by {
        lemma_in3(shape, b, t, c);
        let i = seq![b, t, c];
        assert(i.drop_last() =~= seq![b, t]);
        assert(i.last() == c);
    }
    if ids.shape[1] > 1 {
        let f = mask->Some_0;
        let s = ids.shape[1];
        assert forall|p: int, q: int| 0 <= p < s && 0 <= q < s implies #[trigger] f.at(
            Seq::empty().push(p).push(q),
        ) == Scalar::Bits(
            if q <= p {
                0
            } else {
                0xff80_0000
            },
        ) by {
            let i = Seq::empty().push(p).push(q);
            assert(in_bounds(seq![s, s], i)) by {
                assert forall|d: int| 0 <= d < 2 implies 0 <= #[trigger] i[d] < seq![s, s][d] by {
                    if d == 0 {
                    } else {
                    }
                }
            }
        }
    }
    assert forall|k: int| 0 <= k < n implies layer_of(
        m.layers[k],
        #[trigger] rows[k],
        true,
        pos,
        mask,
    ) == Some(rows[k + 1]) by {
        lemma_rows_so_far(m.layers, n, k as nat, x, pos, mask);
        lemma_rows_so_far(m.layers, n, (k + 1) as nat, x, pos, mask);
    }
    lemma_rows_so_far(m.layers, n, n, x, pos, mask);
    let last = rows[n as int];
    let u = norm_of(m.norm, last, true)->Some_0;
    assert(y.shape =~= seq![ids.shape[0], ids.shape[1], m.lm_head.weight.shape[0]]);
    assert forall|b: int, t: int, o: int|
        0 <= b < y.shape[0] && 0 <= t < y.shape[1] && 0 <= o < y.shape[2] implies #[trigger] at3(
        y,
        b,
        t,
        o,
    ) == Scalar::Add(
        Box::new(
            Scalar::Dot(
                Seq::new(
                    w as nat,
                    |c: int|
                        Scalar::Normalized {
                            row: Seq::new(w as nat, |d: int| rows[n as int].at(seq![b, t, d])),
                            index: c,
                            gain: Box::new(m.norm.weight.at(seq![c])),
                            bias: Box::new(m.norm.bias->Some_0.at(seq![c])),
                            eps: m.norm.eps,
                        },
                ),
                Seq::new(w as nat, |c: int| m.lm_head.weight.at(seq![o, c])),
            ),
        ),
        Box::new(m.lm_head.bias->Some_0.at(seq![o])),
    ) by {
        let i = seq![b, t, o];
        lemma_in3(y.shape, b, t, o);
        let left = Seq::new(w as nat, |c: int| u.at(i.update(2, c)));
        let right = Seq::new(
            w as nat,
            |c: int|
                Scalar::Normalized {
                    row: Seq::new(w as nat, |d: int| rows[n as int].at(seq![b, t, d])),
                    index: c,
                    gain: Box::new(m.norm.weight.at(seq![c])),
                    bias: Box::new(m.norm.bias->Some_0.at(seq![c])),
                    eps: m.norm.eps,
                },
        );
        assert forall|c: int| 0 <= c < w implies left[c] == right[c] by {
            let j = i.update(2, c);
            assert(j =~= seq![b, t, c]);
            lemma_in3(shape, b, t, c);
            let own = Seq::new(w as nat, |d: int| last.at(j.update(2, d)));
            let row = Seq::new(w as nat, |d: int| rows[n as int].at(seq![b, t, d]));
            assert forall|d: int| 0 <= d < w implies own[d] == row[d] by {
                assert(j.update(2, d) =~= seq![b, t, d]);
            }
            assert(own =~= row);
        }
        assert(left =~= right);
    }
    let after = model_after(m, ids, pos);
    assert forall|k: int| 0 <= k < n implies #[trigger] after.layers[k] == (LayerView {
        self_attn: AttentionView {
            cache: layer_cache_after(m.layers[k], rows[k], true, pos),
            ..m.layers[k].self_attn
        },
        ..m.layers[k]
    }) by {
        lemma_rows_so_far(m.layers, n, k as nat, x, pos, mask);
    }
    (rows, mask)
}

/// Clearing empties the cache of each layer and changes nothing else.
pub proof fn law_clearing_written_out(m: ModelView)
    ensures
        ({
            let after = m.cleared();
            &&& after.embed_tokens == m.embed_tokens
            &&& after.norm == m.norm
            &&& after.lm_head == m.lm_head
            &&& after.pos_emb == m.pos_emb
            &&& after.device == m.device
            &&& after.layers.len() == m.layers.len()
            &&& forall|k: int|
                0 <= k < m.layers.len() ==> #[trigger] after.layers[k] == (LayerView {
                    self_attn: AttentionView { cache: None, ..m.layers[k].self_attn },
                    ..m.layers[k]
                })
        }),
{
}

/// Number `o` of the image of a row.
proof fn lemma_image_at(d: DenseView, x: ArrayView, w: usize, b: int, t: int, o: int)
    requires
        is_rows(x, w),
        d.weight.rank() == 2,
        dense_of(d, x) is Some,
        0 <= b < x.shape[0],
        0 <= t < x.shape[1],
        0 <= o < d.weight.shape[0],
    ensures
        row_of(dense_of(d, x)->Some_0, b, t)[o] == Scalar::Add(
            Box::new(
                Scalar::Dot(
                    Seq::new(w as nat, |c: int| x.at(seq![b, t, c])),
                    Seq::new(w as nat, |c: int| d.weight.at(seq![o, c])),
                ),
            ),
            Box::new(d.bias->Some_0.at(seq![o])),
        ),
        row_of(dense_of(d, x)->Some_0, b, t)[o] == at3(dense_of(d, x)->Some_0, b, t, o),
{
    lemma_dense_row(d, x, b, t);
    assert(row_of(x, b, t) =~= Seq::new(w as nat, |c: int| x.at(seq![b, t, c])));
}

/// The queries, keys and values of rows, written out. The image of a row under the first map of
/// the layer holds the heads of its query, the heads of its key and the heads of its value, one
/// behind the other. The heads of queries and keys are turned: the numbers of their first half
/// against those of their second half, by the cosines and sines of the position.
#[verifier::rlimit(30)]
pub proof fn law_projection_written_out(a: AttentionView, x: ArrayView, pos: ArrayView)
    requires
        a.hidden + 2 * (a.kv_heads * a.head_dim) <= usize::MAX,
        a.qkv.weight.shape == seq![
            (a.hidden + 2 * (a.kv_heads * a.head_dim)) as usize,
            a.hidden,
        ],
        a.qkv.bias matches Some(f) && f.shape == seq![
            (a.hidden + 2 * (a.kv_heads * a.head_dim)) as usize,
        ],
        a.o.weight.shape == seq![a.hidden, a.hidden],
        a.o.bias matches Some(f) && f.shape == seq![a.hidden],
        a.kv_heads > 0,
        a.head_dim != 1,
        x.rank() == 3,
        x.shape[2] == a.hidden,
        x.count() > 0,
        pos.shape == seq![1usize, x.shape[1], a.head_dim],
        projected_of(a, x, pos) is Some,
    ensures
        ({
            let (q, k, v) = projected_of(a, x, pos)->Some_0;
            let (d, half) = (a.head_dim as int, (a.head_dim / 2) as int);
            let kv = a.kv_heads * a.head_dim;
            let p = |b: int, t: int, o: int|
                Scalar::Add(
                    Box::new(
                        Scalar::Dot(
                            Seq::new(a.hidden as nat, |c: int| x.at(seq![b, t, c])),
                            Seq::new(a.hidden as nat, |c: int| a.qkv.weight.at(seq![o, c])),
                        ),
                    ),
                    Box::new(a.qkv.bias->Some_0.at(seq![o])),
                );
            &&& d == 2 * half
            &&& q.shape == seq![x.shape[0], a.heads, x.shape[1], a.head_dim]
            &&& k.shape == seq![x.shape[0], a.kv_heads, x.shape[1], a.head_dim]
            &&& v.shape == seq![x.shape[0], a.kv_heads, x.shape[1], a.head_dim]
            &&& forall|b: int, h: int, t: int, c: int|
                0 <= b < x.shape[0] && 0 <= h < a.heads && 0 <= t < x.shape[1] && 0 <= c < half
                    ==> #[trigger] q.at4(b, h, t, c) == Scalar::Add(
                    Box::new(
                        Scalar::Mul(
                            Box::new(p(b, t, h * d + c)),
                            Box::new(pos.at(seq![0, t, c])),
                        ),
                    ),
                    Box::new(
                        Scalar::Neg(
                            Box::new(
                                Scalar::Mul(
                                    Box::new(p(b, t, h * d + half + c)),
                                    Box::new(pos.at(seq![0, t, half + c])),
                                ),
                            ),
                        ),
                    ),
                )
            &&& forall|b: int, h: int, t: int, c: int|
                0 <= b < x.shape[0] && 0 <= h < a.heads && 0 <= t < x.shape[1] && half <= c < d
                    ==> #[trigger] q.at4(b, h, t, c) == Scalar::Add(
                    Box::new(
                        Scalar::Mul(
                            Box::new(p(b, t, h * d + c)),
                            Box::new(pos.at(seq![0, t, c - half])),
                        ),
                    ),
                    Box::new(
                        Scalar::Mul(
                            Box::new(p(b, t, h * d + c - half)),
                            Box::new(pos.at(seq![0, t, c])),
                        ),
                    ),
                )
            &&& forall|b: int, h: int, t: int, c: int|
                0 <= b < x.shape[0] && 0 <= h < a.kv_heads && 0 <= t < x.shape[1] && 0 <= c < half
                    ==> #[trigger] k.at4(b, h, t, c) == Scalar::Add(
                    Box::new(
                        Scalar::Mul(
                            Box::new(p(b, t, a.hidden + h * d + c)),
                            Box::new(pos.at(seq![0, t, c])),
                        ),
                    ),
                    Box::new(
                        Scalar::Neg(
                            Box::new(
                                Scalar::Mul(
                                    Box::new(p(b, t, a.hidden + h * d + half + c)),
                                    Box::new(pos.at(seq![0, t, half + c])),
                                ),
                            ),
                        ),
                    ),
                )
            &&& forall|b: int, h: int, t: int, c: int|
                0 <= b < x.shape[0] && 0 <= h < a.kv_heads && 0 <= t < x.shape[1] && half <= c < d
                    ==> #[trigger] k.at4(b, h, t, c) == Scalar::Add(
                    Box::new(
                        Scalar::Mul(
                            Box::new(p(b, t, a.hidden + h * d + c)),
                            Box::new(pos.at(seq![0, t, c - half])),
                        ),
                    ),
                    Box::new(
                        Scalar::Mul(
                            Box::new(p(b, t, a.hidden + h * d + c - half)),
                            Box::new(pos.at(seq![0, t, c])),
                        ),
                    ),
                )
            &&& forall|b: int, h: int, t: int, c: int|
                0 <= b < x.shape[0] && 0 <= h < a.kv_heads && 0 <= t < x.shape[1] && 0 <= c < d
                    ==> #[trigger] v.at4(b, h, t, c) == p(b, t, a.hidden + kv + h * d + c)
        }),
{
    lemma_projection_tells(a, x, pos);
    reveal(projected_of);
    let (q, k, v) = projected_of(a, x, pos)->Some_0;
    let (d, half) = (a.head_dim as int, (a.head_dim / 2) as int);
    let kv = a.kv_heads * a.head_dim;
    let p = |b: int, t: int, o: int|
            Scalar::Add(
                Box::new(
                    Scalar::Dot(
                        Seq::new(a.hidden as nat, |c: int| x.at(seq![b, t, c])),
                        Seq::new(a.hidden as nat, |c: int| a.qkv.weight.at(seq![o, c])),
                    ),
                ),
                Box::new(a.qkv.bias->Some_0.at(seq![o])),
            );
    let g = dense_of(a.qkv, x)->Some_0;
    let (kh, hh) = (a.kv_heads as int, a.heads as int);
    assert(kh * d >= 0) by (nonlinear_arith)
        requires
            kh >= 0,
            d >= 0,
    ;
    assert(x.shape =~= seq![x.shape[0], x.shape[1], a.hidden]);
    assert forall|b: int, t: int, o: int|
        0 <= b < x.shape[0] && 0 <= t < x.shape[1] && 0 <= o < a.hidden + 2 * kv implies p(b, t, o)
        == #[trigger] row_of(g, b, t)[o] && p(b, t, o) == at3(g, b, t, o) by {
        lemma_image_at(a.qkv, x, a.hidden, b, t, o);
    }
    assert forall|b: int, h: int, t: int, c: int|
        0 <= b < x.shape[0] && 0 <= h < a.heads && 0 <= t < x.shape[1] && 0 <= c
            < d implies #[trigger] q.at4(b, h, t, c) == turned_entry(
        row_of(g, b, t),
        h * d,
        half,
        angles_at(pos, t),
        c,
    ) && 0 <= h * d && h * d + d <= a.hidden by {
        lemma_turned_at(g, 0, a.hidden, a.heads, a.head_dim, pos, b, h, t, c);
        assert(0 <= h * d && h * d + d <= hh * d) by (nonlinear_arith)
            requires
                0 <= h < hh,
                d >= 0,
        ;
    }
    assert forall|b: int, h: int, t: int, c: int|
        0 <= b < x.shape[0] && 0 <= h < a.kv_heads && 0 <= t < x.shape[1] && 0 <= c
            < d implies #[trigger] k.at4(b, h, t, c) == turned_entry(
        row_of(g, b, t),
        a.hidden + h * d,
        half,
        angles_at(pos, t),
        c,
    ) && 0 <= h * d && h * d + d <= kv by {
        lemma_turned_at(g, a.hidden, kv as usize, a.kv_heads, a.head_dim, pos, b, h, t, c);
        assert(0 <= h * d && h * d + d <= kh * d) by (nonlinear_arith)
            requires
                0 <= h < kh,
                d >= 0,
        ;
    }
    assert forall|b: int, h: int, t: int, c: int|
        0 <= b < x.shape[0] && 0 <= h < a.kv_heads && 0 <= t < x.shape[1] && 0 <= c
            < d implies #[trigger] v.at4(b, h, t, c) == p(b, t, a.hidden + kv + h * d + c) by {
        let start = (a.hidden + kv) as usize;
        lemma_head_at(g, start, kv as usize, a.kv_heads, a.head_dim, b, h, t, c);
        assert(0 <= h * d && h * d + d <= kh * d) by (nonlinear_arith)
            requires
                0 <= h < kh,
                d >= 0,
        ;
        assert(p(b, t, start + h * d + c) == row_of(g, b, t)[start + h * d + c]);
    }
}

/// The cache after rows were seen: the keys and values that it held stay in front, and those of
/// the rows come behind them.
pub proof fn law_cache_written_out(a: AttentionView, x: ArrayView, pos: ArrayView)
    requires
        cache_after(a, x, pos) is Some,
    ensures
        ({
            let (_, k, v) = projected_of(a, x, pos)->Some_0;
            let (all_k, all_v) = cache_after(a, x, pos)->Some_0;
            &&& projected_of(a, x, pos) is Some
            &&& a.cache is None ==> all_k == k && all_v == v
            &&& a.cache matches Some((old_k, old_v)) ==> {
                &&& all_k.shape == k.shape.update(2, (old_k.shape[2] + k.shape[2]) as usize)
                &&& all_v.shape == v.shape.update(2, (old_v.shape[2] + v.shape[2]) as usize)
                &&& forall|i: Seq<int>|
                    in_bounds(all_k.shape, i) ==> #[trigger] all_k.at(i) == if i[2]
                        < old_k.shape[2] {
                        old_k.at(i)
                    } else {
                        k.at(i.update(2, i[2] - old_k.shape[2]))
                    }
                &&& forall|i: Seq<int>|
                    in_bounds(all_v.shape, i) ==> #[trigger] all_v.at(i) == if i[2]
                        < old_v.shape[2] {
                        old_v.at(i)
                    } else {
                        v.at(i.update(2, i[2] - old_v.shape[2]))
                    }
            }
        }),
{
    if let Some((old_k, old_v)) = a.cache {
        let (_, k, v) = projected_of(a, x, pos)->Some_0;
        let (all_k, all_v) = cache_after(a, x, pos)->Some_0;
        assert(all_k.shape =~= k.shape.update(2, (old_k.shape[2] + k.shape[2]) as usize)) by {
            assert forall|d: int| 0 <= d < k.shape.len() && d != 2 implies #[trigger] k.shape[d]
                == old_k.shape[d] by {}
        }
        assert(all_v.shape =~= v.shape.update(2, (old_v.shape[2] + v.shape[2]) as usize)) by {
            assert forall|d: int| 0 <= d < v.shape.len() && d != 2 implies #[trigger] v.shape[d]
                == old_v.shape[d] by {}
        }
    }
}

/// Attention, written out. The score of a query for a key is their product, scaled, plus the
/// entry of the mask if there is one. The values that a head sees, those of the key head that
/// serves it, are averaged by the softmax of the scores. The averages of the heads, side by side,
/// are mapped by the second map of the layer.
#[verifier::rlimit(30)]
pub proof fn law_attention_written_out(
    a: AttentionView,
    x: ArrayView,
    pos: ArrayView,
    mask: Option<ArrayView>,
)
    requires
        a.hidden + 2 * (a.kv_heads * a.head_dim) <= usize::MAX,
        a.qkv.weight.shape == seq![
            (a.hidden + 2 * (a.kv_heads * a.head_dim)) as usize,
            a.hidden,
        ],
        a.qkv.bias matches Some(f) && f.shape == seq![
            (a.hidden + 2 * (a.kv_heads * a.head_dim)) as usize,
        ],
        a.o.weight.shape == seq![a.hidden, a.hidden],
        a.o.bias matches Some(f) && f.shape == seq![a.hidden],
        a.kv_heads > 0,
        a.head_dim != 1,
        x.rank() == 3,
        x.shape[2] == a.hidden,
        x.count() > 0,
        pos.shape == seq![1usize, x.shape[1], a.head_dim],
        mask matches Some(f) ==> f.shape == seq![
            x.shape[1],
            (x.shape[1] + match a.cache {
                None => 0,
                Some((k, _)) => k.shape[2] as int,
            }) as usize,
        ],
        attention_of(a, x, pos, mask) is Some,
    ensures
        ({
            let y = attention_of(a, x, pos, mask)->Some_0;
            let (q, _, _) = projected_of(a, x, pos)->Some_0;
            let (k, v) = cache_after(a, x, pos)->Some_0;
            let len = k.shape[2] as nat;
            let n = a.heads as int / a.kv_heads as int;
            let d = a.head_dim as int;
            let score = |b: int, h: int, t: int, j: int|
                match mask {
                    None => Scalar::Scaled(
                        Box::new(
                            Scalar::Dot(
                                Seq::new(a.head_dim as nat, |e: int| q.at4(b, h, t, e)),
                                Seq::new(a.head_dim as nat, |e: int| k.at4(b, h / n, j, e)),
                            ),
                        ),
                        a.scale,
                    ),
                    Some(f) => Scalar::Add(
                        Box::new(
                            Scalar::Scaled(
                                Box::new(
                                    Scalar::Dot(
                                        Seq::new(a.head_dim as nat, |e: int| q.at4(b, h, t, e)),
                                        Seq::new(
                                            a.head_dim as nat,
                                            |e: int| k.at4(b, h / n, j, e),
                                        ),
                                    ),
                                ),
                                a.scale,
                            ),
                        ),
                        Box::new(f.at(seq![t, j])),
                    ),
                };
            let average = |b: int, h: int, t: int, c: int|
                Scalar::Dot(
                    Seq::new(
                        len,
                        |j: int|
                            Scalar::Softmax(Seq::new(len, |i: int| score(b, h, t, i)), j),
                    ),
                    Seq::new(len, |j: int| v.at4(b, h / n, j, c)),
                );
            &&& projected_of(a, x, pos) is Some
            &&& cache_after(a, x, pos) is Some
            &&& y.shape == x.shape
            &&& v.shape == k.shape
            &&& k.shape == seq![
                x.shape[0],
                a.kv_heads,
                (x.shape[1] + match a.cache {
                    None => 0,
                    Some((k, _)) => k.shape[2] as int,
                }) as usize,
                a.head_dim,
            ]
            &&& forall|b: int, t: int, o: int|
                0 <= b < x.shape[0] && 0 <= t < x.shape[1] && 0 <= o < a.hidden ==> #[trigger] at3(
                    y,
                    b,
                    t,
                    o,
                ) == Scalar::Add(
                    Box::new(
                        Scalar::Dot(
                            Seq::new(a.hidden as nat, |w: int| average(b, w / d, t, w % d)),
                            Seq::new(a.hidden as nat, |w: int| a.o.weight.at(seq![o, w])),
                        ),
                    ),
                    Box::new(a.o.bias->Some_0.at(seq![o])),
                )
        }),
{
    assert(a.consistent() && is_rows(x, a.hidden));
    let held = match a.cache {
        None => 0,
        Some((k, _)) => k.shape[2] as int,
    };
    assert(cached(a) == held);
    if mask is Some {
        let f = mask->Some_0;
        assert(f.shape =~= seq![x.shape[1], (cached(a) + x.shape[1]) as usize]);
    }
    law_attention_success(a, x, pos, mask);
    law_attention_defined(a, x, pos, mask);
    lemma_projection_tells(a, x, pos);
    let y = attention_of(a, x, pos, mask)->Some_0;
    let (q, _, _) = projected_of(a, x, pos)->Some_0;
    let (k, v) = cache_after(a, x, pos)->Some_0;
    let len = k.shape[2] as nat;
    let n = a.heads as int / a.kv_heads as int;
    let d = a.head_dim as int;
    let score = |b: int, h: int, t: int, j: int|
        match mask {
            None => Scalar::Scaled(
                Box::new(
                    Scalar::Dot(
                        Seq::new(a.head_dim as nat, |e: int| q.at4(b, h, t, e)),
                        Seq::new(a.head_dim as nat, |e: int| k.at4(b, h / n, j, e)),
                    ),
                ),
                a.scale,
            ),
            Some(f) => Scalar::Add(
                Box::new(
                    Scalar::Scaled(
                        Box::new(
                            Scalar::Dot(
                                Seq::new(a.head_dim as nat, |e: int| q.at4(b, h, t, e)),
                                Seq::new(
                                    a.head_dim as nat,
                                    |e: int| k.at4(b, h / n, j, e),
                                ),
                            ),
                        ),
                        a.scale,
                    ),
                ),
                Box::new(f.at(seq![t, j])),
            ),
        };
    let average = |b: int, h: int, t: int, c: int|
        Scalar::Dot(
            Seq::new(
                len,
                |j: int|
                    Scalar::Softmax(Seq::new(len, |i: int| score(b, h, t, i)), j),
            ),
            Seq::new(len, |j: int| v.at4(b, h / n, j, c)),
        );
    let g = group_of(a);
    let (ih, ik) = (a.heads as int, a.kv_heads as int);
    vstd::arithmetic::div_mod::lemma_div_pos_is_pos(ih, ik);
    vstd::arithmetic::div_mod::lemma_div_is_ordered_by_denominator(ih, 1, ik);
    assert(g == n);
    assert forall|b: int, h: int, t: int, j: int| #[trigger] score(b, h, t, j) == score_at(
        q,
        k,
        g,
        a.scale,
        mask,
        b,
        h,
        t,
        j,
    ) by {}
    assert forall|b: int, h: int, t: int, c: int| #[trigger] average(b, h, t, c) == average_at(
        q,
        k,
        v,
        g,
        a.scale,
        mask,
        b,
        h,
        t,
        c,
    ) by {
        let own = Seq::new(len, |i: int| score(b, h, t, i));
        let scores = Seq::new(len, |j: int| score_at(q, k, g, a.scale, mask, b, h, t, j));
        assert forall|i: int| 0 <= i < len implies own[i] == scores[i] by {
            assert(score(b, h, t, i) == score_at(q, k, g, a.scale, mask, b, h, t, i));
        }
        assert(own =~= scores);
        assert(Seq::new(len, |j: int| Scalar::Softmax(own, j)) =~= Seq::new(
            len,
            |j: int| Scalar::Softmax(Seq::new(len, |i: int| score(b, h, t, i)), j),
        ));
    }
    assert forall|b: int, t: int, o: int|
        0 <= b < x.shape[0] && 0 <= t < x.shape[1] && 0 <= o < a.hidden implies #[trigger] at3(
        y,
        b,
        t,
        o,
    ) == Scalar::Add(
        Box::new(
            Scalar::Dot(
                Seq::new(a.hidden as nat, |w: int| average(b, w / d, t, w % d)),
                Seq::new(a.hidden as nat, |w: int| a.o.weight.at(seq![o, w])),
            ),
        ),
        Box::new(a.o.bias->Some_0.at(seq![o])),
    ) by {
        lemma_attention_row(a, x, pos, mask, b, t);
        let mixed = mixed_row(a, q, k, v, mask, b, t);
        let own = Seq::new(a.hidden as nat, |w: int| average(b, w / d, t, w % d));
        assert forall|w: int| 0 <= w < a.hidden implies own[w] == mixed[w] by {
            assert(average(b, w / d, t, w % d) == average_at(
                q,
                k,
                v,
                g,
                a.scale,
                mask,
                b,
                w / d,
                t,
                w % d,
            ));
        }
        assert(own =~= mixed);
        assert(row_of(y, b, t)[o] == dense_row(a.o, mixed)[o]);
    }
}

} // verus!
