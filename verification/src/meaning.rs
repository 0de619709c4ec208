//! Meanings of formulas.
//!
//! Formulas that differ can mean the same number: to add zero changes nothing, and what is
//! masked by negative infinity weighs nothing. Here a meaning is any function of formulas that
//! goes by their parts and knows these two facts, and rows of formulas are alike where they
//! mean the same.

use vstd::prelude::*;
use crate::attention::{attention_of, cache_after, group_of, projected_of, AttentionView};
use crate::decoder::FeedForwardView;
use crate::heads::NEG_INFINITY;
use crate::laws::{
    average_at, cached, law_attention_defined, lemma_projection_defined, score_at,
};
use crate::layers::{DenseView, NormView};
use crate::positions::{
    angles_at, attention_ready, dense_row, feed_forward_row, gated_row, key_entry,
    lemma_attention_row, lemma_cached_at, lemma_projected_at, mask_fits, mixed_row, norm_row,
    query_entry, row_of, sum_row, turned_entry, value_entry,
};
use crate::view::{ArrayView, Scalar};

verus! {

/// Whether two formulas mean the same.
pub open spec fn alike<V>(val: spec_fn(Scalar) -> V, x: Scalar, y: Scalar) -> bool {
    val(x) == val(y)
}

/// Whether the formulas of two rows mean the same.
pub open spec fn alike_all<V>(
    val: spec_fn(Scalar) -> V,
    r: Seq<Scalar>,
    s: Seq<Scalar>,
) -> bool {
    &&& r.len() == s.len()
    &&& forall|i: int| 0 <= i < r.len() ==> alike(val, #[trigger] r[i], s[i])
}

/// Whether what a formula means depends only on what its parts mean.
#[verifier::opaque]
pub open spec fn by_parts<V>(val: spec_fn(Scalar) -> V) -> bool {
    &&& forall|x: Scalar, y: Scalar|
        alike(val, x, y) ==> #[trigger] alike(
            val,
            Scalar::Neg(Box::new(x)),
            Scalar::Neg(Box::new(y)),
        )
    &&& forall|x: Scalar, y: Scalar|
        alike(val, x, y) ==> #[trigger] alike(
            val,
            Scalar::Silu(Box::new(x)),
            Scalar::Silu(Box::new(y)),
        )
    &&& forall|x: Scalar, y: Scalar, f: u64|
        alike(val, x, y) ==> #[trigger] alike(
            val,
            Scalar::Scaled(Box::new(x), f),
            Scalar::Scaled(Box::new(y), f),
        )
    &&& forall|x: Scalar, y: Scalar, u: Scalar, w: Scalar|
        alike(val, x, y) && alike(val, u, w) ==> #[trigger] alike(
            val,
            Scalar::Add(Box::new(x), Box::new(u)),
            Scalar::Add(Box::new(y), Box::new(w)),
        )
    &&& forall|x: Scalar, y: Scalar, u: Scalar, w: Scalar|
        alike(val, x, y) && alike(val, u, w) ==> #[trigger] alike(
            val,
            Scalar::Mul(Box::new(x), Box::new(u)),
            Scalar::Mul(Box::new(y), Box::new(w)),
        )
    &&& forall|r: Seq<Scalar>, s: Seq<Scalar>, u: Seq<Scalar>, w: Seq<Scalar>|
        alike_all(val, r, s) && alike_all(val, u, w) ==> #[trigger] alike(
            val,
            Scalar::Dot(r, u),
            Scalar::Dot(s, w),
        )
    &&& forall|r: Seq<Scalar>, s: Seq<Scalar>, j: int|
        alike_all(val, r, s) ==> #[trigger] alike(
            val,
            Scalar::Softmax(r, j),
            Scalar::Softmax(s, j),
        )
    &&& forall|n: NormView, r: Seq<Scalar>, s: Seq<Scalar>, i: int|
        alike_all(val, r, s) ==> #[trigger] alike(
            val,
            normalized(n, r, i),
            normalized(n, s, i),
        )
}

/// Entry `i` of a row, normalized.
pub open spec fn normalized(n: NormView, row: Seq<Scalar>, i: int) -> Scalar {
    Scalar::Normalized {
        row,
        index: i,
        gain: Box::new(n.weight.at(seq![i])),
        bias: Box::new(n.bias->Some_0.at(seq![i])),
        eps: n.eps,
    }
}

/// The sum of the values, weighed by the softmax of the scores.
pub open spec fn weighed(scores: Seq<Scalar>, values: Seq<Scalar>) -> Scalar {
    Scalar::Dot(Seq::new(scores.len(), |j: int| Scalar::Softmax(scores, j)), values)
}

/// Whether negative infinity was added to all scores from position `n` on.
pub open spec fn masked_from(scores: Seq<Scalar>, n: int) -> bool {
    forall|j: int|
        n <= j < scores.len() ==> (#[trigger] scores[j] matches Scalar::Add(_, m) && *m
            == Scalar::Bits(NEG_INFINITY))
}

/// Whether `val` is a meaning: it goes by the parts of a formula, to add zero changes nothing,
/// and the values whose scores are masked count for nothing as long as one score is not masked.
#[verifier::opaque]
pub open spec fn is_meaning<V>(val: spec_fn(Scalar) -> V) -> bool {
    &&& by_parts(val)
    &&& forall|x: Scalar| #[trigger]
        alike(val, Scalar::Add(Box::new(x), Box::new(Scalar::Bits(0))), x)
    &&& forall|scores: Seq<Scalar>, values: Seq<Scalar>, n: int|
        1 <= n <= scores.len() && scores.len() == values.len() && masked_from(scores, n)
            ==> #[trigger] alike(
            val,
            weighed(scores, values),
            weighed(scores.take(n), values.take(n)),
        )
}

pub(crate) proof fn lemma_goes_by_parts<V>(val: spec_fn(Scalar) -> V)
    requires
        is_meaning(val),
    ensures
        by_parts(val),
{
    reveal(is_meaning);
}

/// Whether the heads of two arrays at two positions mean the same.
pub open spec fn heads_alike<V>(
    val: spec_fn(Scalar) -> V,
    x: ArrayView,
    b1: int,
    t1: int,
    y: ArrayView,
    b2: int,
    t2: int,
    heads: int,
    dim: int,
) -> bool {
    forall|h: int, c: int|
        0 <= h < heads && 0 <= c < dim ==> alike(
            val,
            #[trigger] x.at4(b1, h, t1, c),
            y.at4(b2, h, t2, c),
        )
}

pub(crate) proof fn lemma_dense_alike<V>(
    val: spec_fn(Scalar) -> V,
    d: DenseView,
    r: Seq<Scalar>,
    s: Seq<Scalar>,
)
    requires
        by_parts(val),
        alike_all(val, r, s),
    ensures
        alike_all(val, dense_row(d, r), dense_row(d, s)),
{
    reveal(by_parts);
    let (x, y) = (dense_row(d, r), dense_row(d, s));
    assert forall|o: int| 0 <= o < x.len() implies alike(val, #[trigger] x[o], y[o]) by {
        let w = Seq::new(r.len(), |c: int| d.weight.at(seq![o, c]));
        let bias = d.bias->Some_0.at(seq![o]);
        assert(alike_all(val, w, w));
        assert(alike(val, Scalar::Dot(r, w), Scalar::Dot(s, w)));
        assert(alike(
            val,
            Scalar::Add(Box::new(Scalar::Dot(r, w)), Box::new(bias)),
            Scalar::Add(Box::new(Scalar::Dot(s, w)), Box::new(bias)),
        ));
    }
}

pub(crate) proof fn lemma_norm_alike<V>(
    val: spec_fn(Scalar) -> V,
    n: NormView,
    r: Seq<Scalar>,
    s: Seq<Scalar>,
)
    requires
        by_parts(val),
        alike_all(val, r, s),
    ensures
        alike_all(val, norm_row(n, r), norm_row(n, s)),
{
    reveal(by_parts);
    let (x, y) = (norm_row(n, r), norm_row(n, s));
    assert forall|i: int| 0 <= i < x.len() implies alike(val, #[trigger] x[i], y[i]) by {
        assert(alike(val, normalized(n, r, i), normalized(n, s, i)));
    }
}

pub(crate) proof fn lemma_sum_alike<V>(
    val: spec_fn(Scalar) -> V,
    r1: Seq<Scalar>,
    s1: Seq<Scalar>,
    r2: Seq<Scalar>,
    s2: Seq<Scalar>,
)
    requires
        by_parts(val),
        alike_all(val, r1, r2),
        alike_all(val, s1, s2),
        r1.len() == s1.len(),
    ensures
        alike_all(val, sum_row(r1, s1), sum_row(r2, s2)),
{
    reveal(by_parts);
    let (x, y) = (sum_row(r1, s1), sum_row(r2, s2));
    assert forall|i: int| 0 <= i < x.len() implies alike(val, #[trigger] x[i], y[i]) by {
        assert(alike(val, r1[i], r2[i]));
        assert(alike(val, s1[i], s2[i]));
        assert(alike(
            val,
            Scalar::Add(Box::new(r1[i]), Box::new(s1[i])),
            Scalar::Add(Box::new(r2[i]), Box::new(s2[i])),
        ));
    }
}

pub(crate) proof fn lemma_feed_forward_alike<V>(
    val: spec_fn(Scalar) -> V,
    f: FeedForwardView,
    r: Seq<Scalar>,
    s: Seq<Scalar>,
)
    requires
        by_parts(val),
        alike_all(val, r, s),
        f.gate.weight.shape[0] == f.up.weight.shape[0],
    ensures
        alike_all(val, feed_forward_row(f, r), feed_forward_row(f, s)),
{
    lemma_dense_alike(val, f.gate, r, s);
    lemma_dense_alike(val, f.up, r, s);
    let (g1, u1) = (dense_row(f.gate, r), dense_row(f.up, r));
    let (g2, u2) = (dense_row(f.gate, s), dense_row(f.up, s));
    let (x, y) = (gated_row(g1, u1), gated_row(g2, u2));
    reveal(by_parts);
    assert forall|i: int| 0 <= i < x.len() implies alike(val, #[trigger] x[i], y[i]) by {
        assert(alike(val, g1[i], g2[i]));
        assert(alike(val, u1[i], u2[i]));
        assert(alike(val, Scalar::Silu(Box::new(g1[i])), Scalar::Silu(Box::new(g2[i]))));
        assert(alike(
            val,
            Scalar::Mul(Box::new(Scalar::Silu(Box::new(g1[i]))), Box::new(u1[i])),
            Scalar::Mul(Box::new(Scalar::Silu(Box::new(g2[i]))), Box::new(u2[i])),
        ));
    }
    lemma_dense_alike(val, f.down, x, y);
}

proof fn lemma_turned_alike<V>(
    val: spec_fn(Scalar) -> V,
    r: Seq<Scalar>,
    s: Seq<Scalar>,
    start: int,
    half: int,
    angles: Seq<Scalar>,
    c: int,
)
    requires
        by_parts(val),
        alike_all(val, r, s),
        0 <= start,
        start + 2 * half <= r.len(),
        0 <= c < 2 * half,
    ensures
        alike(
            val,
            turned_entry(r, start, half, angles, c),
            turned_entry(s, start, half, angles, c),
        ),
{
    let e = if c < half {
        c
    } else {
        c - half
    };
    reveal(by_parts);
    let (cos, sin) = (Box::new(angles[e]), Box::new(angles[half + e]));
    let (r1, r2) = (Box::new(r[start + e]), Box::new(r[start + half + e]));
    let (s1, s2) = (Box::new(s[start + e]), Box::new(s[start + half + e]));
    assert(alike(val, *r1, *s1));
    assert(alike(val, *r2, *s2));
    if c < half {
        assert(alike(val, Scalar::Mul(r1, cos), Scalar::Mul(s1, cos)));
        assert(alike(val, Scalar::Mul(r2, sin), Scalar::Mul(s2, sin)));
        let (x, y) = (
            Scalar::Neg(Box::new(Scalar::Mul(r2, sin))),
            Scalar::Neg(Box::new(Scalar::Mul(s2, sin))),
        );
        assert(alike(val, x, y));
        assert(alike(
            val,
            Scalar::Add(Box::new(Scalar::Mul(r1, cos)), Box::new(x)),
            Scalar::Add(Box::new(Scalar::Mul(s1, cos)), Box::new(y)),
        ));
    } else {
        assert(alike(val, Scalar::Mul(r2, cos), Scalar::Mul(s2, cos)));
        assert(alike(val, Scalar::Mul(r1, sin), Scalar::Mul(s1, sin)));
        assert(alike(
            val,
            Scalar::Add(Box::new(Scalar::Mul(r2, cos)), Box::new(Scalar::Mul(r1, sin))),
            Scalar::Add(Box::new(Scalar::Mul(s2, cos)), Box::new(Scalar::Mul(s1, sin))),
        ));
    }
}

/// Rows that mean the same have queries, keys and values that mean the same.
proof fn lemma_entries_alike<V>(
    val: spec_fn(Scalar) -> V,
    a: AttentionView,
    r: Seq<Scalar>,
    s: Seq<Scalar>,
    angles: Seq<Scalar>,
    h: int,
    c: int,
)
    requires
        by_parts(val),
        alike_all(val, r, s),
        a.consistent(),
        a.heads * a.head_dim == a.hidden,
        a.head_dim % 2 == 0,
        0 <= c < a.head_dim,
        0 <= h,
    ensures
        h < a.heads ==> alike(
            val,
            query_entry(a, r, angles, h, c),
            query_entry(a, s, angles, h, c),
        ),
        h < a.kv_heads ==> alike(
            val,
            key_entry(a, r, angles, h, c),
            key_entry(a, s, angles, h, c),
        ),
        h < a.kv_heads ==> alike(val, value_entry(a, r, h, c), value_entry(a, s, h, c)),
{
    lemma_dense_alike(val, a.qkv, r, s);
    let (x, y) = (dense_row(a.qkv, r), dense_row(a.qkv, s));
    let (hd, qh, kh) = (a.head_dim as int, a.heads as int, a.kv_heads as int);
    let half = (a.head_dim / 2) as int;
    assert(kh * hd >= 0 && 0 <= h * hd) by (nonlinear_arith)
        requires
            kh >= 0,
            hd >= 0,
            h >= 0,
    ;
    if h < qh {
        assert(h * hd + hd <= qh * hd) by (nonlinear_arith)
            requires
                0 <= h < qh,
                hd >= 0,
        ;
        lemma_turned_alike(val, x, y, h * a.head_dim, half, angles, c);
    }
    if h < kh {
        assert(h * hd + hd <= kh * hd) by (nonlinear_arith)
            requires
                0 <= h < kh,
                hd >= 0,
        ;
        lemma_turned_alike(val, x, y, a.hidden + h * a.head_dim, half, angles, c);
        let i = a.hidden + a.kv_width() + h * a.head_dim + c;
        assert(alike(val, x[i], y[i]));
    }
}

proof fn lemma_weighed_alike<V>(
    val: spec_fn(Scalar) -> V,
    s1: Seq<Scalar>,
    v1: Seq<Scalar>,
    s2: Seq<Scalar>,
    v2: Seq<Scalar>,
)
    requires
        by_parts(val),
        alike_all(val, s1, s2),
        alike_all(val, v1, v2),
    ensures
        alike(val, weighed(s1, v1), weighed(s2, v2)),
{
    reveal(by_parts);
    let x = Seq::new(s1.len(), |j: int| Scalar::Softmax(s1, j));
    let y = Seq::new(s2.len(), |j: int| Scalar::Softmax(s2, j));
    assert forall|j: int| 0 <= j < x.len() implies alike(val, #[trigger] x[j], y[j]) by {
        assert(alike(val, Scalar::Softmax(s1, j), Scalar::Softmax(s2, j)));
    }
    assert(alike_all(val, x, y));
    assert(alike(val, Scalar::Dot(x, v1), Scalar::Dot(y, v2)));
}

/// The entry that a mask adds to the score of query `i` and key `j`.
pub open spec fn mask_at(mask: Option<ArrayView>, i: int, j: int) -> Option<Scalar> {
    match mask {
        None => None,
        Some(m) => Some(m.at(seq![i, j])),
    }
}

/// Whether query `i` may attend to the first `n` of `len` positions and to no other.
pub open spec fn sees(mask: Option<ArrayView>, i: int, len: int, n: int) -> bool {
    if mask is None {
        len == n
    } else {
        &&& 1 <= n <= len
        &&& forall|j: int|
            0 <= j < len ==> #[trigger] mask_at(mask, i, j) == Some(
                Scalar::Bits(
                    if j < n {
                        0
                    } else {
                        NEG_INFINITY
                    },
                ),
            )
    }
}

/// The sum of the entries `c` of the first `len` values, weighed by the softmax of the scores
/// that query `i` of head `h` gives to their keys.
spec fn plain_at(
    a: AttentionView,
    q: ArrayView,
    k: ArrayView,
    v: ArrayView,
    b: int,
    h: int,
    i: int,
    c: int,
    len: int,
) -> Scalar {
    let n = group_of(a);
    weighed(
        Seq::new(len as nat, |j: int| score_at(q, k, n, a.scale, None, b, h, i, j)),
        Seq::new(len as nat, |j: int| v.at4(b, h / (n as int), j, c)),
    )
}

/// What is masked counts for nothing.
proof fn lemma_average_plain<V>(
    val: spec_fn(Scalar) -> V,
    a: AttentionView,
    q: ArrayView,
    k: ArrayView,
    v: ArrayView,
    mask: Option<ArrayView>,
    b: int,
    h: int,
    i: int,
    c: int,
    len: int,
)
    requires
        is_meaning(val),
        sees(mask, i, k.shape[2] as int, len),
    ensures
        alike(
            val,
            average_at(q, k, v, group_of(a), a.scale, mask, b, h, i, c),
            plain_at(a, q, k, v, b, h, i, c, len),
        ),
{
    reveal(is_meaning);
    let n = group_of(a);
    let t = k.shape[2] as nat;
    let scores = Seq::new(t, |j: int| score_at(q, k, n, a.scale, mask, b, h, i, j));
    let values = Seq::new(t, |j: int| v.at4(b, h / (n as int), j, c));
    let x = Seq::new(len as nat, |j: int| score_at(q, k, n, a.scale, None, b, h, i, j));
    let y = Seq::new(len as nat, |j: int| v.at4(b, h / (n as int), j, c));
    assert(average_at(q, k, v, n, a.scale, mask, b, h, i, c) == weighed(scores, values));
    if mask is None {
        assert(scores =~= x);
        assert(values =~= y);
    } else {
        assert forall|j: int| len <= j < t implies (#[trigger] scores[j] matches Scalar::Add(_, m)
            && *m == Scalar::Bits(NEG_INFINITY)) by {
            assert(mask_at(mask, i, j) == Some(Scalar::Bits(NEG_INFINITY)));
        }
        assert(alike(
            val,
            weighed(scores, values),
            weighed(scores.take(len), values.take(len)),
        ));
        let z = scores.take(len);
        assert forall|j: int| 0 <= j < z.len() implies alike(val, #[trigger] z[j], x[j]) by {
            assert(mask_at(mask, i, j) == Some(Scalar::Bits(0)));
            assert(alike(
                val,
                Scalar::Add(Box::new(x[j]), Box::new(Scalar::Bits(0))),
                x[j],
            ));
        }
        assert(values.take(len) =~= y);
        assert(alike_all(val, y, y));
        lemma_weighed_alike(val, z, y, x, y);
    }
}

/// Scores of queries and keys that mean the same mean the same.
proof fn lemma_score_alike<V>(
    val: spec_fn(Scalar) -> V,
    a: AttentionView,
    q1: ArrayView,
    k1: ArrayView,
    mask1: Option<ArrayView>,
    b1: int,
    i1: int,
    q2: ArrayView,
    k2: ArrayView,
    mask2: Option<ArrayView>,
    b2: int,
    i2: int,
    h: int,
    j: int,
)
    requires
        by_parts(val),
        q1.shape[3] == a.head_dim,
        q2.shape[3] == a.head_dim,
        0 <= h < a.heads,
        0 <= h / (group_of(a) as int) < a.kv_heads,
        heads_alike(val, q1, b1, i1, q2, b2, i2, a.heads as int, a.head_dim as int),
        heads_alike(val, k1, b1, j, k2, b2, j, a.kv_heads as int, a.head_dim as int),
        mask_at(mask1, i1, j) == mask_at(mask2, i2, j),
    ensures
        alike(
            val,
            score_at(q1, k1, group_of(a), a.scale, mask1, b1, h, i1, j),
            score_at(q2, k2, group_of(a), a.scale, mask2, b2, h, i2, j),
        ),
{
    reveal(by_parts);
    let g = h / (group_of(a) as int);
    let d = a.head_dim as nat;
    let l1 = Seq::new(d, |c: int| q1.at4(b1, h, i1, c));
    let l2 = Seq::new(d, |c: int| q2.at4(b2, h, i2, c));
    let r1 = Seq::new(d, |c: int| k1.at4(b1, g, j, c));
    let r2 = Seq::new(d, |c: int| k2.at4(b2, g, j, c));
    assert forall|c: int| 0 <= c < d implies alike(val, #[trigger] l1[c], l2[c]) by {
        assert(alike(val, q1.at4(b1, h, i1, c), q2.at4(b2, h, i2, c)));
    }
    assert forall|c: int| 0 <= c < d implies alike(val, #[trigger] r1[c], r2[c]) by {
        assert(alike(val, k1.at4(b1, g, j, c), k2.at4(b2, g, j, c)));
    }
    let (x, y) = (Scalar::Dot(l1, r1), Scalar::Dot(l2, r2));
    assert(alike(val, x, y));
    let (u, w) = (Scalar::Scaled(Box::new(x), a.scale), Scalar::Scaled(Box::new(y), a.scale));
    assert(alike(val, u, w));
    if mask1 is Some {
        let m = mask_at(mask1, i1, j)->Some_0;
        assert(alike(
            val,
            Scalar::Add(Box::new(u), Box::new(m)),
            Scalar::Add(Box::new(w), Box::new(m)),
        ));
    }
}

/// The query head that an entry of the averages belongs to has a key head.
proof fn lemma_key_head(a: AttentionView, w: int)
    requires
        0 <= w < a.hidden,
        a.heads * a.head_dim == a.hidden,
        a.kv_heads > 0,
        a.heads == a.kv_heads * group_of(a),
    ensures
        a.head_dim > 0,
        0 <= w / (a.head_dim as int) < a.heads,
        0 <= w % (a.head_dim as int) < a.head_dim,
        0 <= (w / (a.head_dim as int)) / (group_of(a) as int) < a.kv_heads,
{
    let (hd, qh, kh, n) = (
        a.head_dim as int,
        a.heads as int,
        a.kv_heads as int,
        group_of(a) as int,
    );
    assert(hd > 0) by (nonlinear_arith)
        requires
            0 <= w < qh * hd,
            hd >= 0,
    ;
    vstd::arithmetic::div_mod::lemma_fundamental_div_mod(w, hd);
    vstd::arithmetic::div_mod::lemma_mod_bound(w, hd);
    let (h, r) = (w / hd, w % hd);
    assert(0 <= h < qh) by (nonlinear_arith)
        requires
            w == hd * h + r,
            0 <= r < hd,
            0 <= w < qh * hd,
    ;
    assert(n > 0) by (nonlinear_arith)
        requires
            0 <= h < qh,
            qh == kh * n,
            n >= 0,
    ;
    vstd::arithmetic::div_mod::lemma_fundamental_div_mod(h, n);
    vstd::arithmetic::div_mod::lemma_mod_bound(h, n);
    let (g, s) = (h / n, h % n);
    assert(0 <= g < kh) by (nonlinear_arith)
        requires
            h == n * g + s,
            0 <= s < n,
            0 <= h < kh * n,
    ;
}

/// Whether the queries of two arrays at two positions, and the first `len` keys and values of
/// two caches, mean the same.
pub open spec fn operands_alike<V>(
    val: spec_fn(Scalar) -> V,
    a: AttentionView,
    q1: ArrayView,
    k1: ArrayView,
    v1: ArrayView,
    b1: int,
    i1: int,
    q2: ArrayView,
    k2: ArrayView,
    v2: ArrayView,
    b2: int,
    i2: int,
    len: int,
) -> bool {
    let d = a.head_dim as int;
    &&& q1.shape[3] == d && q2.shape[3] == d
    &&& heads_alike(val, q1, b1, i1, q2, b2, i2, a.heads as int, d)
    &&& forall|j: int|
        0 <= j < len ==> #[trigger] heads_alike(val, k1, b1, j, k2, b2, j, a.kv_heads as int, d)
    &&& forall|j: int|
        0 <= j < len ==> #[trigger] heads_alike(val, v1, b1, j, v2, b2, j, a.kv_heads as int, d)
}

/// Averages of what means the same mean the same.
proof fn lemma_mixed_alike<V>(
    val: spec_fn(Scalar) -> V,
    a: AttentionView,
    q1: ArrayView,
    k1: ArrayView,
    v1: ArrayView,
    mask1: Option<ArrayView>,
    b1: int,
    i1: int,
    q2: ArrayView,
    k2: ArrayView,
    v2: ArrayView,
    mask2: Option<ArrayView>,
    b2: int,
    i2: int,
    len: int,
)
    requires
        is_meaning(val),
        a.heads * a.head_dim == a.hidden,
        a.kv_heads > 0,
        a.heads == a.kv_heads * group_of(a),
        operands_alike(val, a, q1, k1, v1, b1, i1, q2, k2, v2, b2, i2, len),
        sees(mask1, i1, k1.shape[2] as int, len),
        sees(mask2, i2, k2.shape[2] as int, len),
    ensures
        alike_all(
            val,
            mixed_row(a, q1, k1, v1, mask1, b1, i1),
            mixed_row(a, q2, k2, v2, mask2, b2, i2),
        ),
{
    lemma_goes_by_parts(val);
    let n = group_of(a);
    let d = a.head_dim as int;
    let x = mixed_row(a, q1, k1, v1, mask1, b1, i1);
    let y = mixed_row(a, q2, k2, v2, mask2, b2, i2);
    assert forall|w: int| 0 <= w < x.len() implies alike(val, #[trigger] x[w], y[w]) by {
        lemma_key_head(a, w);
        let (h, c) = (w / d, w % d);
        let g = h / (n as int);
        lemma_average_plain(val, a, q1, k1, v1, mask1, b1, h, i1, c, len);
        lemma_average_plain(val, a, q2, k2, v2, mask2, b2, h, i2, c, len);
        let s1 = Seq::new(len as nat, |j: int| score_at(q1, k1, n, a.scale, None, b1, h, i1, j));
        let s2 = Seq::new(len as nat, |j: int| score_at(q2, k2, n, a.scale, None, b2, h, i2, j));
        let u1 = Seq::new(len as nat, |j: int| v1.at4(b1, g, j, c));
        let u2 = Seq::new(len as nat, |j: int| v2.at4(b2, g, j, c));
        assert forall|j: int| 0 <= j < s1.len() implies alike(val, #[trigger] s1[j], s2[j]) by {
            assert(heads_alike(val, k1, b1, j, k2, b2, j, a.kv_heads as int, d));
            lemma_score_alike(val, a, q1, k1, None, b1, i1, q2, k2, None, b2, i2, h, j);
        }
        assert forall|j: int| 0 <= j < u1.len() implies alike(val, #[trigger] u1[j], u2[j]) by {
            assert(heads_alike(val, v1, b1, j, v2, b2, j, a.kv_heads as int, d));
            assert(alike(val, v1.at4(b1, g, j, c), v2.at4(b2, g, j, c)));
        }
        lemma_weighed_alike(val, s1, u1, s2, u2);
    }
}

/// Averages of what is equal are equal, whatever the mask adds.
proof fn lemma_mixed_equal(
    a: AttentionView,
    q1: ArrayView,
    k1: ArrayView,
    v1: ArrayView,
    b1: int,
    q2: ArrayView,
    k2: ArrayView,
    v2: ArrayView,
    b2: int,
    mask: Option<ArrayView>,
    i: int,
)
    requires
        a.heads * a.head_dim == a.hidden,
        a.kv_heads > 0,
        a.heads == a.kv_heads * group_of(a),
        k1.shape[2] == k2.shape[2],
        operands_alike(literally(), a, q1, k1, v1, b1, i, q2, k2, v2, b2, i, k1.shape[2] as int),
    ensures
        mixed_row(a, q1, k1, v1, mask, b1, i) == mixed_row(a, q2, k2, v2, mask, b2, i),
{
    let val = literally();
    lemma_literal();
    let n = group_of(a);
    let d = a.head_dim as int;
    let x = mixed_row(a, q1, k1, v1, mask, b1, i);
    let y = mixed_row(a, q2, k2, v2, mask, b2, i);
    assert forall|w: int| 0 <= w < x.len() implies #[trigger] x[w] == y[w] by {
        lemma_key_head(a, w);
        let (h, c) = (w / d, w % d);
        let g = h / (n as int);
        let t = k1.shape[2] as nat;
        let s1 = Seq::new(t, |j: int| score_at(q1, k1, n, a.scale, mask, b1, h, i, j));
        let s2 = Seq::new(t, |j: int| score_at(q2, k2, n, a.scale, mask, b2, h, i, j));
        let u1 = Seq::new(t, |j: int| v1.at4(b1, g, j, c));
        let u2 = Seq::new(t, |j: int| v2.at4(b2, g, j, c));
        assert forall|j: int| 0 <= j < t implies #[trigger] s1[j] == s2[j] by {
            assert(heads_alike(val, k1, b1, j, k2, b2, j, a.kv_heads as int, d));
            lemma_score_alike(val, a, q1, k1, mask, b1, i, q2, k2, mask, b2, i, h, j);
        }
        assert forall|j: int| 0 <= j < t implies #[trigger] u1[j] == u2[j] by {
            assert(heads_alike(val, v1, b1, j, v2, b2, j, a.kv_heads as int, d));
            assert(alike(val, v1.at4(b1, g, j, c), v2.at4(b2, g, j, c)));
        }
        assert(s1 =~= s2);
        assert(u1 =~= u2);
    }
    assert(x =~= y);
}

/// Each formula as its own meaning.
pub open spec fn literally() -> spec_fn(Scalar) -> Scalar {
    |x: Scalar| x
}

/// A formula taken literally goes by its parts.
proof fn lemma_literal()
    ensures
        by_parts(literally()),
{
    reveal(by_parts);
    let val = literally();
    assert forall|r: Seq<Scalar>, s: Seq<Scalar>| alike_all(val, r, s) implies r == s by {
        assert(r =~= s);
    }
}

/// Whether the first `len` keys and values of two caches mean the same.
pub open spec fn caches_alike<V>(
    val: spec_fn(Scalar) -> V,
    a: AttentionView,
    c1: (ArrayView, ArrayView),
    b1: int,
    c2: (ArrayView, ArrayView),
    b2: int,
    len: int,
) -> bool {
    let d = a.head_dim as int;
    &&& forall|j: int|
        0 <= j < len ==> #[trigger] heads_alike(
            val,
            c1.0,
            b1,
            j,
            c2.0,
            b2,
            j,
            a.kv_heads as int,
            d,
        )
    &&& forall|j: int|
        0 <= j < len ==> #[trigger] heads_alike(
            val,
            c1.1,
            b1,
            j,
            c2.1,
            b2,
            j,
            a.kv_heads as int,
            d,
        )
}

/// Whether the rows of two arrays at two positions mean the same, and the positions are turned
/// by the same angles.
pub open spec fn rows_alike<V>(
    val: spec_fn(Scalar) -> V,
    x1: ArrayView,
    pos1: ArrayView,
    b1: int,
    t1: int,
    x2: ArrayView,
    pos2: ArrayView,
    b2: int,
    t2: int,
) -> bool {
    &&& alike_all(val, row_of(x1, b1, t1), row_of(x2, b2, t2))
    &&& angles_at(pos1, t1) == angles_at(pos2, t2)
}

/// Rows that mean the same have queries that mean the same, and leave keys and values in the
/// cache that mean the same.
pub(crate) proof fn lemma_projected_alike<V>(
    val: spec_fn(Scalar) -> V,
    a1: AttentionView,
    x1: ArrayView,
    pos1: ArrayView,
    b1: int,
    t1: int,
    a2: AttentionView,
    x2: ArrayView,
    pos2: ArrayView,
    b2: int,
    t2: int,
)
    requires
        by_parts(val),
        attention_ready(a1, x1, pos1),
        attention_ready(a2, x2, pos2),
        a2 == a1.with_cache(a2.cache),
        0 <= b1 < x1.shape[0],
        0 <= t1 < x1.shape[1],
        0 <= b2 < x2.shape[0],
        0 <= t2 < x2.shape[1],
        rows_alike(val, x1, pos1, b1, t1, x2, pos2, b2, t2),
    ensures
        projected_of(a1, x1, pos1) matches Some((q1, _, _)) && projected_of(a2, x2, pos2) matches
            Some((q2, _, _)) && heads_alike(
            val,
            q1,
            b1,
            t1,
            q2,
            b2,
            t2,
            a1.heads as int,
            a1.head_dim as int,
        ),
        cache_after(a1, x1, pos1) matches Some((k1, v1)) && cache_after(a2, x2, pos2) matches
            Some((k2, v2)) && {
            let (j1, j2) = (cached(a1) + t1, cached(a2) + t2);
            &&& heads_alike(val, k1, b1, j1, k2, b2, j2, a1.kv_heads as int, a1.head_dim as int)
            &&& heads_alike(val, v1, b1, j1, v2, b2, j2, a1.kv_heads as int, a1.head_dim as int)
        },
{
    lemma_projected_at(a1, x1, pos1, b1, t1);
    lemma_projected_at(a2, x2, pos2, b2, t2);
    lemma_cached_at(a1, x1, pos1, b1, cached(a1) + t1);
    lemma_cached_at(a2, x2, pos2, b2, cached(a2) + t2);
    let (q1, _, _) = projected_of(a1, x1, pos1)->Some_0;
    let (q2, _, _) = projected_of(a2, x2, pos2)->Some_0;
    let (k1, v1) = cache_after(a1, x1, pos1)->Some_0;
    let (k2, v2) = cache_after(a2, x2, pos2)->Some_0;
    let (r, s) = (row_of(x1, b1, t1), row_of(x2, b2, t2));
    let angles = angles_at(pos1, t1);
    let (j1, j2) = (cached(a1) + t1, cached(a2) + t2);
    assert forall|h: int, c: int| 0 <= h < a1.heads && 0 <= c < a1.head_dim implies alike(
        val,
        #[trigger] q1.at4(b1, h, t1, c),
        q2.at4(b2, h, t2, c),
    ) by {
        lemma_entries_alike(val, a1, r, s, angles, h, c);
        assert(q2.at4(b2, h, t2, c) == query_entry(a1, s, angles, h, c));
    }
    assert forall|h: int, c: int| 0 <= h < a1.kv_heads && 0 <= c < a1.head_dim implies alike(
        val,
        #[trigger] k1.at4(b1, h, j1, c),
        k2.at4(b2, h, j2, c),
    ) by {
        lemma_entries_alike(val, a1, r, s, angles, h, c);
        assert(k2.at4(b2, h, j2, c) == key_entry(a1, s, angles, h, c));
    }
    assert forall|h: int, c: int| 0 <= h < a1.kv_heads && 0 <= c < a1.head_dim implies alike(
        val,
        #[trigger] v1.at4(b1, h, j1, c),
        v2.at4(b2, h, j2, c),
    ) by {
        lemma_entries_alike(val, a1, r, s, angles, h, c);
        assert(v2.at4(b2, h, j2, c) == value_entry(a1, s, h, c));
    }
}

/// Attention makes of rows that mean the same rows that mean the same, where it may attend to
/// as many keys and values and these mean the same.
pub(crate) proof fn lemma_attention_alike<V>(
    val: spec_fn(Scalar) -> V,
    a1: AttentionView,
    x1: ArrayView,
    pos1: ArrayView,
    mask1: Option<ArrayView>,
    b1: int,
    t1: int,
    a2: AttentionView,
    x2: ArrayView,
    pos2: ArrayView,
    mask2: Option<ArrayView>,
    b2: int,
    t2: int,
    len: int,
)
    requires
        is_meaning(val),
        attention_ready(a1, x1, pos1),
        attention_ready(a2, x2, pos2),
        mask_fits(a1, x1, mask1),
        mask_fits(a2, x2, mask2),
        a2 == a1.with_cache(a2.cache),
        0 <= b1 < x1.shape[0],
        0 <= t1 < x1.shape[1],
        0 <= b2 < x2.shape[0],
        0 <= t2 < x2.shape[1],
        rows_alike(val, x1, pos1, b1, t1, x2, pos2, b2, t2),
        caches_alike(
            val,
            a1,
            cache_after(a1, x1, pos1)->Some_0,
            b1,
            cache_after(a2, x2, pos2)->Some_0,
            b2,
            len,
        ),
        sees(mask1, t1, cached(a1) + x1.shape[1], len),
        sees(mask2, t2, cached(a2) + x2.shape[1], len),
    ensures
        alike_all(
            val,
            row_of(attention_of(a1, x1, pos1, mask1)->Some_0, b1, t1),
            row_of(attention_of(a2, x2, pos2, mask2)->Some_0, b2, t2),
        ),
{
    lemma_goes_by_parts(val);
    let (q1, _, _) = projected_of(a1, x1, pos1)->Some_0;
    let (q2, _, _) = projected_of(a2, x2, pos2)->Some_0;
    let (k1, v1) = cache_after(a1, x1, pos1)->Some_0;
    let (k2, v2) = cache_after(a2, x2, pos2)->Some_0;
    assert(operands_alike(val, a1, q1, k1, v1, b1, t1, q2, k2, v2, b2, t2, len)) by {
        lemma_projected_alike(val, a1, x1, pos1, b1, t1, a2, x2, pos2, b2, t2);
        lemma_projected_sizes(a1, x1, pos1);
        lemma_projected_sizes(a2, x2, pos2);
    }
    lemma_projected_sizes(a1, x1, pos1);
    lemma_projected_sizes(a2, x2, pos2);
    lemma_mixed_alike(val, a1, q1, k1, v1, mask1, b1, t1, q2, k2, v2, mask2, b2, t2, len);
    lemma_mixed_same(a1, a2, q2, k2, v2, mask2, b2, t2);
    lemma_dense_alike(
        val,
        a1.o,
        mixed_row(a1, q1, k1, v1, mask1, b1, t1),
        mixed_row(a1, q2, k2, v2, mask2, b2, t2),
    );
    lemma_attention_row(a1, x1, pos1, mask1, b1, t1);
    lemma_attention_row(a2, x2, pos2, mask2, b2, t2);
}

/// The sizes of queries and of the cache.
proof fn lemma_projected_sizes(a: AttentionView, x: ArrayView, pos: ArrayView)
    requires
        attention_ready(a, x, pos),
    ensures
        projected_of(a, x, pos)->Some_0.0.shape[3] == a.head_dim,
        cache_after(a, x, pos)->Some_0.0.shape[2] == cached(a) + x.shape[1],
{
    lemma_projection_defined(a, x, pos);
    law_attention_defined(a, x, pos, None);
}

/// Averages do not depend on the cache of the layer, only on the keys and values.
proof fn lemma_mixed_same(
    a1: AttentionView,
    a2: AttentionView,
    q: ArrayView,
    k: ArrayView,
    v: ArrayView,
    mask: Option<ArrayView>,
    b: int,
    i: int,
)
    requires
        a2 == a1.with_cache(a2.cache),
    ensures
        mixed_row(a2, q, k, v, mask, b, i) == mixed_row(a1, q, k, v, mask, b, i),
{
    assert(mixed_row(a2, q, k, v, mask, b, i) =~= mixed_row(a1, q, k, v, mask, b, i));
}

/// Sequences do not influence each other: what attention makes of a sequence depends only on
/// the rows of the sequence and on its keys and values in the cache, not on the sequences
/// beside it.
pub proof fn law_sequences_apart(
    a1: AttentionView,
    x1: ArrayView,
    b1: int,
    a2: AttentionView,
    x2: ArrayView,
    b2: int,
    pos: ArrayView,
    mask: Option<ArrayView>,
    t: int,
)
    requires
        attention_ready(a1, x1, pos),
        attention_ready(a2, x2, pos),
        mask_fits(a1, x1, mask),
        a2 == a1.with_cache(a2.cache),
        cached(a1) == cached(a2),
        cached(a1) > 0 ==> caches_alike(
            literally(),
            a1,
            a1.cache->Some_0,
            b1,
            a2.cache->Some_0,
            b2,
            cached(a1),
        ),
        0 <= b1 < x1.shape[0],
        0 <= b2 < x2.shape[0],
        0 <= t < x1.shape[1],
        forall|u: int|
            0 <= u < x1.shape[1] ==> #[trigger] row_of(x1, b1, u) == row_of(x2, b2, u),
    ensures
        row_of(attention_of(a1, x1, pos, mask)->Some_0, b1, t) == row_of(
            attention_of(a2, x2, pos, mask)->Some_0,
            b2,
            t,
        ),
{
    let val = literally();
    lemma_literal();
    let (q1, _, _) = projected_of(a1, x1, pos)->Some_0;
    let (q2, _, _) = projected_of(a2, x2, pos)->Some_0;
    let (k1, v1) = cache_after(a1, x1, pos)->Some_0;
    let (k2, v2) = cache_after(a2, x2, pos)->Some_0;
    let len = cached(a1) + x1.shape[1];
    assert forall|u: int| 0 <= u < x1.shape[1] implies #[trigger] rows_alike(
        val,
        x1,
        pos,
        b1,
        u,
        x2,
        pos,
        b2,
        u,
    ) by {
        assert(row_of(x1, b1, u) == row_of(x2, b2, u));
    }
    assert(rows_alike(val, x1, pos, b1, t, x2, pos, b2, t));
    lemma_caches_alike(val, a1, x1, pos, b1, a2, x2, pos, b2);
    assert(operands_alike(val, a1, q1, k1, v1, b1, t, q2, k2, v2, b2, t, len)) by {
        lemma_projected_alike(val, a1, x1, pos, b1, t, a2, x2, pos, b2, t);
        lemma_projected_sizes(a1, x1, pos);
        lemma_projected_sizes(a2, x2, pos);
    }
    lemma_projected_sizes(a1, x1, pos);
    lemma_projected_sizes(a2, x2, pos);
    lemma_mixed_equal(a1, q1, k1, v1, b1, q2, k2, v2, b2, mask, t);
    lemma_mixed_same(a1, a2, q2, k2, v2, mask, b2, t);
    lemma_attention_row(a1, x1, pos, mask, b1, t);
    lemma_attention_row(a2, x2, pos, mask, b2, t);
}

/// Two caches mean the same after rows that mean the same were added to as many positions that
/// mean the same.
proof fn lemma_caches_alike<V>(
    val: spec_fn(Scalar) -> V,
    a1: AttentionView,
    x1: ArrayView,
    pos1: ArrayView,
    b1: int,
    a2: AttentionView,
    x2: ArrayView,
    pos2: ArrayView,
    b2: int,
)
    requires
        by_parts(val),
        attention_ready(a1, x1, pos1),
        attention_ready(a2, x2, pos2),
        a2 == a1.with_cache(a2.cache),
        cached(a1) == cached(a2),
        x1.shape[1] == x2.shape[1],
        cached(a1) > 0 ==> caches_alike(
            val,
            a1,
            a1.cache->Some_0,
            b1,
            a2.cache->Some_0,
            b2,
            cached(a1),
        ),
        0 <= b1 < x1.shape[0],
        0 <= b2 < x2.shape[0],
        forall|u: int|
            0 <= u < x1.shape[1] ==> #[trigger] rows_alike(
                val,
                x1,
                pos1,
                b1,
                u,
                x2,
                pos2,
                b2,
                u,
            ),
    ensures
        caches_alike(
            val,
            a1,
            cache_after(a1, x1, pos1)->Some_0,
            b1,
            cache_after(a2, x2, pos2)->Some_0,
            b2,
            cached(a1) + x1.shape[1],
        ),
{
    let (k1, v1) = cache_after(a1, x1, pos1)->Some_0;
    let (k2, v2) = cache_after(a2, x2, pos2)->Some_0;
    let len = cached(a1) + x1.shape[1];
    let d = a1.head_dim as int;
    assert forall|j: int| 0 <= j < len implies #[trigger] heads_alike(
        val,
        k1,
        b1,
        j,
        k2,
        b2,
        j,
        a1.kv_heads as int,
        d,
    ) by {
        assert(j >= cached(a1) ==> rows_alike(
            val,
            x1,
            pos1,
            b1,
            j - cached(a1),
            x2,
            pos2,
            b2,
            j - cached(a1),
        ));
        lemma_entry_alike(val, a1, x1, pos1, b1, a2, x2, pos2, b2, j);
    }
    assert forall|j: int| 0 <= j < len implies #[trigger] heads_alike(
        val,
        v1,
        b1,
        j,
        v2,
        b2,
        j,
        a1.kv_heads as int,
        d,
    ) by {
        assert(j >= cached(a1) ==> rows_alike(
            val,
            x1,
            pos1,
            b1,
            j - cached(a1),
            x2,
            pos2,
            b2,
            j - cached(a1),
        ));
        lemma_entry_alike(val, a1, x1, pos1, b1, a2, x2, pos2, b2, j);
    }
}

/// Position `j` of two caches means the same after rows that mean the same were added to
/// as many positions that mean the same.
proof fn lemma_entry_alike<V>(
    val: spec_fn(Scalar) -> V,
    a1: AttentionView,
    x1: ArrayView,
    pos1: ArrayView,
    b1: int,
    a2: AttentionView,
    x2: ArrayView,
    pos2: ArrayView,
    b2: int,
    j: int,
)
    requires
        by_parts(val),
        attention_ready(a1, x1, pos1),
        attention_ready(a2, x2, pos2),
        a2 == a1.with_cache(a2.cache),
        cached(a1) == cached(a2),
        x1.shape[1] == x2.shape[1],
        cached(a1) > 0 ==> caches_alike(
            val,
            a1,
            a1.cache->Some_0,
            b1,
            a2.cache->Some_0,
            b2,
            cached(a1),
        ),
        0 <= b1 < x1.shape[0],
        0 <= b2 < x2.shape[0],
        0 <= j < cached(a1) + x1.shape[1],
        j >= cached(a1) ==> rows_alike(
            val,
            x1,
            pos1,
            b1,
            j - cached(a1),
            x2,
            pos2,
            b2,
            j - cached(a1),
        ),
    ensures
        ({
            let (k1, v1) = cache_after(a1, x1, pos1)->Some_0;
            let (k2, v2) = cache_after(a2, x2, pos2)->Some_0;
            let d = a1.head_dim as int;
            &&& heads_alike(val, k1, b1, j, k2, b2, j, a1.kv_heads as int, d)
            &&& heads_alike(val, v1, b1, j, v2, b2, j, a1.kv_heads as int, d)
        }),
{
    let t = j - cached(a1);
    if t >= 0 {
        lemma_projected_alike(val, a1, x1, pos1, b1, t, a2, x2, pos2, b2, t);
    } else {
        lemma_cached_at(a1, x1, pos1, b1, j);
        lemma_cached_at(a2, x2, pos2, b2, j);
        let (c1, c2) = (a1.cache->Some_0, a2.cache->Some_0);
        let d = a1.head_dim as int;
        assert(heads_alike(val, c1.0, b1, j, c2.0, b2, j, a1.kv_heads as int, d));
        assert(heads_alike(val, c1.1, b1, j, c2.1, b2, j, a1.kv_heads as int, d));
        let (k1, v1) = cache_after(a1, x1, pos1)->Some_0;
        let (k2, v2) = cache_after(a2, x2, pos2)->Some_0;
        assert forall|h: int, c: int| 0 <= h < a1.kv_heads && 0 <= c < a1.head_dim implies alike(
            val,
            #[trigger] k1.at4(b1, h, j, c),
            k2.at4(b2, h, j, c),
        ) by {
            assert(alike(val, c1.0.at4(b1, h, j, c), c2.0.at4(b2, h, j, c)));
            assert(k2.at4(b2, h, j, c) == c2.0.at4(b2, h, j, c));
        }
        assert forall|h: int, c: int| 0 <= h < a1.kv_heads && 0 <= c < a1.head_dim implies alike(
            val,
            #[trigger] v1.at4(b1, h, j, c),
            v2.at4(b2, h, j, c),
        ) by {
            assert(alike(val, c1.1.at4(b1, h, j, c), c2.1.at4(b2, h, j, c)));
            assert(v2.at4(b2, h, j, c) == c2.1.at4(b2, h, j, c));
        }
    }
}

} // verus!
