//! What the parts of the model make of single positions.

use vstd::prelude::*;
use crate::attention::{
    attended_of, attention_of, cache_after, group_of, projected_of, AttentionView,
};
use crate::decoder::{feed_forward_of, FeedForwardView};
use crate::heads::{heads_of, merged_of};
use crate::laws::{
    at3, attention_addressable, attention_regular, average_at, cached, feed_forward_of_kind,
    is_rows, law_attention_averages, law_attention_defined, law_rotation, lemma_cat_follows,
    lemma_dense_at, lemma_head_at, lemma_in4, lemma_inner_rows, lemma_projection_defined,
    lemma_projection_parts, positions_follow, turned_at,
};
use crate::layers::{dense_of, dense_shape, norm_of, DenseView, NormView};
use crate::rotary::rotary_of;
use crate::shape::{
    addressable, in_bounds, lemma_offset3, lemma_offset4, lemma_unravel_offset,
};
use crate::view::{
    cat_of, product_of, silu_of, sum_of, swapped, transpose_of, ArrayView, Scalar,
};

verus! {

/// The row at position `t` of sequence `b`.
pub open spec fn row_of(x: ArrayView, b: int, t: int) -> Seq<Scalar> {
    Seq::new(x.shape[2] as nat, |c: int| at3(x, b, t, c))
}

/// The image of a row.
pub open spec fn dense_row(d: DenseView, row: Seq<Scalar>) -> Seq<Scalar> {
    Seq::new(
        d.weight.shape[0] as nat,
        |o: int|
            Scalar::Add(
                Box::new(
                    Scalar::Dot(row, Seq::new(row.len(), |c: int| d.weight.at(seq![o, c]))),
                ),
                Box::new(d.bias->Some_0.at(seq![o])),
            ),
    )
}

/// A row, normalized.
pub open spec fn norm_row(n: NormView, row: Seq<Scalar>) -> Seq<Scalar> {
    Seq::new(
        row.len(),
        |i: int|
            Scalar::Normalized {
                row,
                index: i,
                gain: Box::new(n.weight.at(seq![i])),
                bias: Box::new(n.bias->Some_0.at(seq![i])),
                eps: n.eps,
            },
    )
}

/// The sums of the entries of two rows.
pub open spec fn sum_row(r: Seq<Scalar>, s: Seq<Scalar>) -> Seq<Scalar> {
    Seq::new(r.len(), |i: int| Scalar::Add(Box::new(r[i]), Box::new(s[i])))
}

/// The sigmoid linear units of the entries of one row, times those of another.
pub open spec fn gated_row(gate: Seq<Scalar>, up: Seq<Scalar>) -> Seq<Scalar> {
    Seq::new(
        gate.len(),
        |i: int| Scalar::Mul(Box::new(Scalar::Silu(Box::new(gate[i]))), Box::new(up[i])),
    )
}

/// What a feed-forward network makes of a row.
pub open spec fn feed_forward_row(f: FeedForwardView, row: Seq<Scalar>) -> Seq<Scalar> {
    dense_row(f.down, gated_row(dense_row(f.gate, row), dense_row(f.up, row)))
}

pub(crate) proof fn lemma_in3(s: Seq<usize>, b: int, t: int, c: int)
    requires
        s.len() == 3,
        0 <= b < s[0],
        0 <= t < s[1],
        0 <= c < s[2],
    ensures
        in_bounds(s, seq![b, t, c]),
{
    let i = seq![b, t, c];
    assert forall|d: int| 0 <= d < 3 implies 0 <= #[trigger] i[d] < s[d] by {
        if d == 0 {
        } else if d == 1 {
        } else {
        }
    }
}

pub(crate) proof fn lemma_dense_row(d: DenseView, x: ArrayView, b: int, t: int)
    requires
        x.rank() == 3,
        d.weight.rank() == 2,
        dense_of(d, x) is Some,
        0 <= b < x.shape[0],
        0 <= t < x.shape[1],
    ensures
        row_of(dense_of(d, x)->Some_0, b, t) == dense_row(d, row_of(x, b, t)),
{
    let y = dense_of(d, x)->Some_0;
    let l = row_of(y, b, t);
    let r = dense_row(d, row_of(x, b, t));
    assert forall|o: int| 0 <= o < l.len() implies l[o] == r[o] by {
        lemma_dense_at(d, x, b, t, o);
    }
    assert(l =~= r);
}

pub(crate) proof fn lemma_norm_row(n: NormView, x: ArrayView, b: int, t: int)
    requires
        x.rank() == 3,
        norm_of(n, x, true) is Some,
        0 <= b < x.shape[0],
        0 <= t < x.shape[1],
    ensures
        row_of(norm_of(n, x, true)->Some_0, b, t) == norm_row(n, row_of(x, b, t)),
{
    let y = norm_of(n, x, true)->Some_0;
    let l = row_of(y, b, t);
    let r = norm_row(n, row_of(x, b, t));
    assert forall|i: int| 0 <= i < l.len() implies l[i] == r[i] by {
        let p = seq![b, t, i];
        lemma_in3(x.shape, b, t, i);
        let row = Seq::new(x.shape[2] as nat, |c: int| x.at(p.update(2, c)));
        assert forall|c: int| 0 <= c < row.len() implies row[c] == row_of(x, b, t)[c] by {
            assert(p.update(2, c) =~= seq![b, t, c]);
        }
        assert(row =~= row_of(x, b, t));
    }
    assert(l =~= r);
}

pub(crate) proof fn lemma_sum_row(x: ArrayView, y: ArrayView, b: int, t: int)
    requires
        x.rank() == 3,
        sum_of(x, y) is Some,
        0 <= b < x.shape[0],
        0 <= t < x.shape[1],
    ensures
        row_of(sum_of(x, y)->Some_0, b, t) == sum_row(row_of(x, b, t), row_of(y, b, t)),
{
    let l = row_of(sum_of(x, y)->Some_0, b, t);
    let r = sum_row(row_of(x, b, t), row_of(y, b, t));
    assert forall|i: int| 0 <= i < l.len() implies l[i] == r[i] by {
        lemma_in3(x.shape, b, t, i);
    }
    assert(l =~= r);
}

/// A feed-forward network takes each row by itself: what it makes of a row depends neither on
/// the other positions nor on the other sequences.
pub proof fn law_feed_forward_by_row(f: FeedForwardView, x: ArrayView, b: int, t: int)
    requires
        f.is_for(f.hidden()),
        x.rank() == 3,
        feed_forward_of(f, x) is Some,
        0 <= b < x.shape[0],
        0 <= t < x.shape[1],
    ensures
        row_of(feed_forward_of(f, x)->Some_0, b, t) == feed_forward_row(f, row_of(x, b, t)),
{
    let gate = dense_of(f.gate, x)->Some_0;
    let up = dense_of(f.up, x)->Some_0;
    let s = silu_of(gate)->Some_0;
    let y = product_of(s, up)->Some_0;
    lemma_dense_row(f.gate, x, b, t);
    lemma_dense_row(f.up, x, b, t);
    let l = row_of(y, b, t);
    let r = gated_row(row_of(gate, b, t), row_of(up, b, t));
    assert forall|i: int| 0 <= i < l.len() implies l[i] == r[i] by {
        lemma_in3(gate.shape, b, t, i);
    }
    assert(l =~= r);
    lemma_dense_row(f.down, y, b, t);
}

/// A feed-forward network gives rows for rows: it has a result of the shape of its operand, as
/// long as all is of one kind and can be addressed.
pub proof fn law_feed_forward_defined(f: FeedForwardView, x: ArrayView)
    requires
        f.is_for(f.hidden()),
        is_rows(x, f.hidden()),
        x.kind.is_float(),
        feed_forward_of_kind(f, x.kind),
        addressable(x.shape),
        addressable(seq![x.shape[0], x.shape[1], f.gate.weight.shape[0]]),
    ensures
        feed_forward_of(f, x) matches Some(y) && y.shape == x.shape && y.kind == x.kind && y.cpu
            == x.cpu,
{
    let (b, s, w) = (x.shape[0], x.shape[1], f.gate.weight.shape[0]);
    assert(dense_shape(f.gate, x) =~= seq![b, s, w]);
    assert(dense_shape(f.up, x) =~= seq![b, s, w]);
    lemma_inner_rows(b, s, w);
    let g = dense_of(f.gate, x)->Some_0;
    assert(x.shape =~= seq![b, s, f.hidden()]);
    assert(dense_shape(f.down, g) =~= x.shape);
}

/// What a feed-forward network makes of a row is the same wherever the row stands, and whatever
/// stands beside it.
pub proof fn law_feed_forward_apart(
    f: FeedForwardView,
    x1: ArrayView,
    b1: int,
    t1: int,
    x2: ArrayView,
    b2: int,
    t2: int,
)
    requires
        f.is_for(f.hidden()),
        x1.rank() == 3,
        x2.rank() == 3,
        feed_forward_of(f, x1) is Some,
        feed_forward_of(f, x2) is Some,
        0 <= b1 < x1.shape[0],
        0 <= t1 < x1.shape[1],
        0 <= b2 < x2.shape[0],
        0 <= t2 < x2.shape[1],
        row_of(x1, b1, t1) == row_of(x2, b2, t2),
    ensures
        row_of(feed_forward_of(f, x1)->Some_0, b1, t1) == row_of(
            feed_forward_of(f, x2)->Some_0,
            b2,
            t2,
        ),
{
    law_feed_forward_by_row(f, x1, b1, t1);
    law_feed_forward_by_row(f, x2, b2, t2);
}

/// The angles of position `t` in a table of rotations with a row per position.
pub open spec fn angles_at(pos: ArrayView, t: int) -> Seq<Scalar> {
    row_of(pos, 0, t)
}

/// Entry `c` of a head that begins at `start` in the row `p`, turned by `angles`.
pub open spec fn turned_entry(
    p: Seq<Scalar>,
    start: int,
    half: int,
    angles: Seq<Scalar>,
    c: int,
) -> Scalar {
    let e = if c < half {
        c
    } else {
        c - half
    };
    let (cos, sin) = (angles[e], angles[half + e]);
    let (first, second) = (p[start + e], p[start + half + e]);
    if c < half {
        Scalar::Add(
            Box::new(Scalar::Mul(Box::new(first), Box::new(cos))),
            Box::new(Scalar::Neg(Box::new(Scalar::Mul(Box::new(second), Box::new(sin))))),
        )
    } else {
        Scalar::Add(
            Box::new(Scalar::Mul(Box::new(second), Box::new(cos))),
            Box::new(Scalar::Mul(Box::new(first), Box::new(sin))),
        )
    }
}

/// Entry `c` of head `h` of the query of a row.
pub open spec fn query_entry(
    a: AttentionView,
    row: Seq<Scalar>,
    angles: Seq<Scalar>,
    h: int,
    c: int,
) -> Scalar {
    let half = (a.head_dim / 2) as int;
    turned_entry(dense_row(a.qkv, row), h * a.head_dim, half, angles, c)
}

/// Entry `c` of head `h` of the key of a row.
pub open spec fn key_entry(
    a: AttentionView,
    row: Seq<Scalar>,
    angles: Seq<Scalar>,
    h: int,
    c: int,
) -> Scalar {
    let half = (a.head_dim / 2) as int;
    turned_entry(dense_row(a.qkv, row), a.hidden + h * a.head_dim, half, angles, c)
}

/// Entry `c` of head `h` of the value of a row.
pub open spec fn value_entry(a: AttentionView, row: Seq<Scalar>, h: int, c: int) -> Scalar {
    dense_row(a.qkv, row)[a.hidden + a.kv_width() + h * a.head_dim + c]
}

/// Whether a layer can be applied to rows of its width, with a table of rotations that has a
/// row per position.
pub open spec fn attention_ready(a: AttentionView, x: ArrayView, pos: ArrayView) -> bool {
    &&& attention_regular(a, x.shape[0], x.kind, x.cpu)
    &&& is_rows(x, a.hidden)
    &&& x.kind.is_float()
    &&& pos.shape == seq![1usize, x.shape[1], a.head_dim]
    &&& pos.kind == x.kind
    &&& attention_addressable(a, x.shape[0], x.shape[1], cached(a) + x.shape[1])
}

/// The heads that begin at `start` in the rows of `p`, turned.
pub(crate) proof fn lemma_turned_at(
    p: ArrayView,
    start: usize,
    width: usize,
    heads: usize,
    dim: usize,
    pos: ArrayView,
    b: int,
    h: int,
    t: int,
    c: int,
)
    requires
        p.rank() == 3,
        start + width <= p.shape[2],
        width == heads * dim,
        dim % 2 == 0,
        pos.shape == seq![1usize, p.shape[1], dim],
        pos.kind == p.kind,
        p.kind.is_float(),
        heads_of(p, start, width, heads, dim) is Some,
        addressable(seq![p.shape[0], heads, p.shape[1], dim]),
        0 <= b < p.shape[0],
        0 <= h < heads,
        0 <= t < p.shape[1],
        0 <= c < dim,
    ensures
        rotary_of(heads_of(p, start, width, heads, dim)->Some_0, pos, dim)->Some_0.at4(b, h, t, c)
            == turned_entry(
            row_of(p, b, t),
            start + h * dim,
            (dim / 2) as int,
            angles_at(pos, t),
            c,
        ),
{
    let y = heads_of(p, start, width, heads, dim)->Some_0;
    law_rotation(y, pos, dim);
    let half = (dim / 2) as int;
    let e = if c < half {
        c
    } else {
        c - half
    };
    lemma_head_at(p, start, width, heads, dim, b, h, t, e);
    lemma_head_at(p, start, width, heads, dim, b, h, t, half + e);
    let (ih, id) = (heads as int, dim as int);
    assert(0 <= h * id && h * id + id <= ih * id) by (nonlinear_arith)
        requires
            0 <= h < ih,
            id >= 0,
    ;
    assert(rotary_of(y, pos, dim)->Some_0.at4(b, h, t, c) == turned_at(y, pos, b, h, t, c));
    assert(start + h * dim + e < p.shape[2]);
    assert(start + h * dim + half + e < p.shape[2]);
}

/// What the projection of rows holds at each position: entries made of the row there.
pub(crate) proof fn lemma_projected_at(
    a: AttentionView,
    x: ArrayView,
    pos: ArrayView,
    b: int,
    t: int,
)
    requires
        attention_ready(a, x, pos),
        0 <= b < x.shape[0],
        0 <= t < x.shape[1],
    ensures
        projected_of(a, x, pos) matches Some((q, k, v)) && {
            &&& forall|h: int, c: int|
                0 <= h < a.heads && 0 <= c < a.head_dim ==> #[trigger] q.at4(b, h, t, c)
                    == query_entry(a, row_of(x, b, t), angles_at(pos, t), h, c)
            &&& forall|h: int, c: int|
                0 <= h < a.kv_heads && 0 <= c < a.head_dim ==> #[trigger] k.at4(b, h, t, c)
                    == key_entry(a, row_of(x, b, t), angles_at(pos, t), h, c)
            &&& forall|h: int, c: int|
                0 <= h < a.kv_heads && 0 <= c < a.head_dim ==> #[trigger] v.at4(b, h, t, c)
                    == value_entry(a, row_of(x, b, t), h, c)
        },
{
    lemma_projection_defined(a, x, pos);
    lemma_projection_parts(a, x, pos);
    let (q, k, v) = projected_of(a, x, pos)->Some_0;
    let p = dense_of(a.qkv, x)->Some_0;
    let kv = a.kv_width() as usize;
    let (kh, hd) = (a.kv_heads as int, a.head_dim as int);
    assert(kh * hd >= 0) by (nonlinear_arith)
        requires
            kh >= 0,
            hd >= 0,
    ;
    lemma_dense_row(a.qkv, x, b, t);
    assert forall|h: int, c: int| 0 <= h < a.heads && 0 <= c < a.head_dim implies #[trigger] q.at4(
        b,
        h,
        t,
        c,
    ) == query_entry(a, row_of(x, b, t), angles_at(pos, t), h, c) by {
        lemma_turned_at(p, 0, a.hidden, a.heads, a.head_dim, pos, b, h, t, c);
    }
    assert forall|h: int, c: int|
        0 <= h < a.kv_heads && 0 <= c < a.head_dim implies #[trigger] k.at4(b, h, t, c)
        == key_entry(a, row_of(x, b, t), angles_at(pos, t), h, c) by {
        lemma_turned_at(p, a.hidden, kv, a.kv_heads, a.head_dim, pos, b, h, t, c);
    }
    assert forall|h: int, c: int|
        0 <= h < a.kv_heads && 0 <= c < a.head_dim implies #[trigger] v.at4(b, h, t, c)
        == value_entry(a, row_of(x, b, t), h, c) by {
        let start = (a.hidden + kv) as usize;
        lemma_head_at(p, start, kv, a.kv_heads, a.head_dim, b, h, t, c);
        assert(0 <= h * hd + c < kh * hd) by (nonlinear_arith)
            requires
                0 <= h < kh,
                0 <= c < hd,
        ;
        assert(start + h * a.head_dim + c < p.shape[2]);
    }
}

/// What is joined along the positions holds what its parts hold.
proof fn lemma_joined_at(y1: ArrayView, y2: ArrayView, b: int, j: int)
    requires
        y1.rank() == 4,
        cat_of(y1, y2, 2) is Some,
        0 <= b < y1.shape[0],
        0 <= j < y1.shape[2] + y2.shape[2],
    ensures
        forall|h: int, c: int|
            0 <= h < y1.shape[1] && 0 <= c < y1.shape[3] ==> #[trigger] cat_of(
                y1,
                y2,
                2,
            )->Some_0.at4(b, h, j, c) == if j < y1.shape[2] {
                y1.at4(b, h, j, c)
            } else {
                y2.at4(b, h, j - y1.shape[2], c)
            },
{
    lemma_cat_follows(y1, y2);
    reveal(positions_follow);
}

/// What the cache holds at each position: what it held before, or entries made of the row
/// there.
pub(crate) proof fn lemma_cached_at(a: AttentionView, x: ArrayView, pos: ArrayView, b: int, j: int)
    requires
        attention_ready(a, x, pos),
        0 <= b < x.shape[0],
        0 <= j < cached(a) + x.shape[1],
    ensures
        cache_after(a, x, pos) matches Some((k, v)) && {
            let t = j - cached(a);
            &&& forall|h: int, c: int|
                0 <= h < a.kv_heads && 0 <= c < a.head_dim ==> #[trigger] k.at4(b, h, j, c) == if t
                    < 0 {
                    a.cache->Some_0.0.at4(b, h, j, c)
                } else {
                    key_entry(a, row_of(x, b, t), angles_at(pos, t), h, c)
                }
            &&& forall|h: int, c: int|
                0 <= h < a.kv_heads && 0 <= c < a.head_dim ==> #[trigger] v.at4(b, h, j, c) == if t
                    < 0 {
                    a.cache->Some_0.1.at4(b, h, j, c)
                } else {
                    value_entry(a, row_of(x, b, t), h, c)
                }
        },
{
    law_attention_defined(a, x, pos, None);
    lemma_projection_defined(a, x, pos);
    let (_, k0, v0) = projected_of(a, x, pos)->Some_0;
    let (k, v) = cache_after(a, x, pos)->Some_0;
    let t = j - cached(a);
    if t >= 0 {
        lemma_projected_at(a, x, pos, b, t);
    }
    if let Some((pk, pv)) = a.cache {
        lemma_joined_at(pk, k0, b, j);
        lemma_joined_at(pv, v0, b, j);
    }
}

/// The averages that the heads of query `i` come to, side by side.
pub open spec fn mixed_row(
    a: AttentionView,
    q: ArrayView,
    k: ArrayView,
    v: ArrayView,
    mask: Option<ArrayView>,
    b: int,
    i: int,
) -> Seq<Scalar> {
    let d = a.head_dim as int;
    Seq::new(
        a.hidden as nat,
        |w: int| average_at(q, k, v, group_of(a), a.scale, mask, b, w / d, i, w % d),
    )
}

/// The entries of merged heads.
pub(crate) proof fn lemma_merged_at(y: ArrayView, width: usize, b: int, t: int, w: int)
    requires
        y.rank() == 4,
        merged_of(y, y.shape[0], y.shape[2], width) is Some,
        width == y.shape[1] * y.shape[3],
        0 <= b < y.shape[0],
        0 <= t < y.shape[2],
        0 <= w < width,
    ensures
        y.shape[3] > 0,
        0 <= w / (y.shape[3] as int) < y.shape[1],
        0 <= w % (y.shape[3] as int) < y.shape[3],
        at3(merged_of(y, y.shape[0], y.shape[2], width)->Some_0, b, t, w) == y.at4(
            b,
            w / (y.shape[3] as int),
            t,
            w % (y.shape[3] as int),
        ),
{
    let (s3, s4) = (
        seq![y.shape[0], y.shape[2], width],
        seq![y.shape[0], y.shape[2], y.shape[1], y.shape[3]],
    );
    let x = transpose_of(y, 1, 2)->Some_0;
    assert(x.shape =~= s4);
    let (ib, it, iw, ih, id) = (
        y.shape[0] as int,
        y.shape[2] as int,
        width as int,
        y.shape[1] as int,
        y.shape[3] as int,
    );
    assert(id > 0) by (nonlinear_arith)
        requires
            0 <= w < ih * id,
            id >= 0,
    ;
    vstd::arithmetic::div_mod::lemma_fundamental_div_mod(w, id);
    vstd::arithmetic::div_mod::lemma_mod_bound(w, id);
    let (q, r) = (w / id, w % id);
    assert(0 <= q < ih) by (nonlinear_arith)
        requires
            w == id * q + r,
            0 <= r < id,
            0 <= w < ih * id,
    ;
    let i = seq![b, t, w];
    let j = seq![b, t, q, r];
    lemma_in3(s3, b, t, w);
    lemma_in4(s4, j);
    lemma_offset3(s3, i);
    lemma_offset4(s4, j);
    assert((b * it + t) * iw + w == ((b * it + t) * ih + q) * id + r) by (nonlinear_arith)
        requires
            iw == ih * id,
            w == id * q + r,
    ;
    lemma_unravel_offset(s4, j);
    assert(swapped(j, 1, 2) =~= seq![b, q, t, r]);
}

/// Whether a mask has a row per new position and a column per position in all.
pub open spec fn mask_fits(a: AttentionView, x: ArrayView, mask: Option<ArrayView>) -> bool {
    mask matches Some(m) ==> m.shape == seq![
        x.shape[1],
        (cached(a) + x.shape[1]) as usize,
    ] && m.kind == x.kind
}

/// What attention makes of the row at each position: the image of the averages that the heads
/// of its query come to.
pub(crate) proof fn lemma_attention_row(
    a: AttentionView,
    x: ArrayView,
    pos: ArrayView,
    mask: Option<ArrayView>,
    b: int,
    t: int,
)
    requires
        attention_ready(a, x, pos),
        mask_fits(a, x, mask),
        0 <= b < x.shape[0],
        0 <= t < x.shape[1],
    ensures
        ({
            let (q, _, _) = projected_of(a, x, pos)->Some_0;
            let (k, v) = cache_after(a, x, pos)->Some_0;
            row_of(attention_of(a, x, pos, mask)->Some_0, b, t) == dense_row(
                a.o,
                mixed_row(a, q, k, v, mask, b, t),
            )
        }),
{
    law_attention_defined(a, x, pos, mask);
    lemma_projection_defined(a, x, pos);
    let (q, _, _) = projected_of(a, x, pos)->Some_0;
    let (k, v) = cache_after(a, x, pos)->Some_0;
    let n = group_of(a);
    assert(n >= 1) by (nonlinear_arith)
        requires
            a.heads == a.kv_heads * n,
            a.heads > 0,
    ;
    law_attention_averages(q, k, v, n, a.scale, mask);
    let y = attended_of(q, k, v, n, a.scale, mask)->Some_0;
    let w = merged_of(y, x.shape[0], x.shape[1], a.hidden)->Some_0;
    let l = row_of(w, b, t);
    let r = mixed_row(a, q, k, v, mask, b, t);
    assert forall|i: int| 0 <= i < l.len() implies l[i] == r[i] by {
        lemma_merged_at(y, a.hidden, b, t, i);
        let d = a.head_dim as int;
        assert(y.at4(b, i / d, t, i % d) == average_at(
            q,
            k,
            v,
            n,
            a.scale,
            mask,
            b,
            i / d,
            t,
            i % d,
        ));
    }
    assert(l =~= r);
    lemma_dense_row(a.o, w, b, t);
}

} // verus!
