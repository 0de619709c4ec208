//! What holds of the parts of the model together.

use vstd::prelude::*;
use crate::attention::{
    attended_of, attention_of, cache_after, group_of, projected_of, row_scores_of, scores_of,
    AttentionView,
};
use crate::decoder::{attended_rows_of, layer_of, layer_sure, FeedForwardView, LayerView};
use crate::heads::{heads_of, mask_of, merged_of, repeat_of, NEG_INFINITY};
use crate::layers::{
    dense_of, dense_shape, lookup_of, lookup_sure, norm_of, DenseView, NormView,
};
use crate::model::{
    forward_of, forward_sure, forward_why, mask_for, model_after, model_during, stack_of, ModelView,
};
use crate::rotary::{rotary_of, rotary_table_of, turned_of};
use crate::shape::{
    addressable, aligned, at_least_one, common_shape, in_bounds, lemma_addressable_smaller,
    lemma_numel_axes, lemma_offset3, lemma_offset4, lemma_offset5, lemma_unravel_offset, numel,
    project, span,
};
use crate::view::{
    batch, broadcast_product_of, broadcast_sum_of, cat_of, expand_of, matmul_of, matmul_shape,
    narrow_of, neg_of, same_rank, scaled_of, softmax_of, sum_of, swapped, transpose_of, ArrayView,
    ElementKind, Scalar,
};

verus! {

/// The score that query `i` of head `h` gives to key `j`: their product, scaled, plus the
/// entry of the mask. Each key head serves `n` query heads.
pub open spec fn score_at(
    q: ArrayView,
    k: ArrayView,
    n: usize,
    scale: u64,
    mask: Option<ArrayView>,
    b: int,
    h: int,
    i: int,
    j: int,
) -> Scalar {
    let d = q.shape[3] as nat;
    let product = Scalar::Scaled(
        Box::new(
            Scalar::Dot(
                Seq::new(d, |c: int| q.at4(b, h, i, c)),
                Seq::new(d, |c: int| k.at4(b, h / (n as int), j, c)),
            ),
        ),
        scale,
    );
    match mask {
        None => product,
        Some(m) => Scalar::Add(Box::new(product), Box::new(m.at(seq![i, j]))),
    }
}

/// The sum of the entries `c` of the values, weighed by the softmax of the scores that
/// query `i` of head `h` gives to their keys.
pub open spec fn average_at(
    q: ArrayView,
    k: ArrayView,
    v: ArrayView,
    n: usize,
    scale: u64,
    mask: Option<ArrayView>,
    b: int,
    h: int,
    i: int,
    c: int,
) -> Scalar {
    let t = k.shape[2] as nat;
    let scores = Seq::new(t, |j: int| score_at(q, k, n, scale, mask, b, h, i, j));
    Scalar::Dot(
        Seq::new(t, |j: int| Scalar::Softmax(scores, j)),
        Seq::new(t, |j: int| v.at4(b, h / (n as int), j, c)),
    )
}

/// Whether queries, keys, values and mask have the sizes and kinds of attention over
/// several heads: `n` query heads share a key head.
pub open spec fn attention_shapes(
    q: ArrayView,
    k: ArrayView,
    v: ArrayView,
    n: usize,
    mask: Option<ArrayView>,
) -> bool {
    let (b, h, s, d) = (q.shape[0], q.shape[1], q.shape[2], q.shape[3]);
    let (g, t) = (k.shape[1], k.shape[2]);
    &&& q.rank() == 4
    &&& k.shape == seq![b, g, t, d]
    &&& v.rank() == 4
    &&& v.shape == seq![b, g, t, v.shape[3]]
    &&& n >= 1
    &&& h == g * n
    &&& q.kind.is_float() && k.kind == q.kind && v.kind == q.kind
    &&& mask matches Some(m) ==> m.shape == seq![s, t] && m.kind == q.kind
    &&& addressable(seq![b, g, n, t, d])
    &&& addressable(seq![b, g, n, t, v.shape[3]])
    &&& addressable(seq![b, h, s, t])
    &&& addressable(seq![b, h, s, v.shape[3]])
}

pub(crate) proof fn lemma_in4(s: Seq<usize>, i: Seq<int>)
    requires
        s.len() == 4,
        i.len() == 4,
        0 <= i[0] < s[0],
        0 <= i[1] < s[1],
        0 <= i[2] < s[2],
        0 <= i[3] < s[3],
    ensures
        in_bounds(s, i),
{
    assert forall|d: int| 0 <= d < 4 implies 0 <= #[trigger] i[d] < s[d] by {
        if d == 0 {
        } else if d == 1 {
        } else if d == 2 {
        } else {
        }
    }
}

/// The element of a product of matrices in arrays with four axes and the same batches.
proof fn lemma_matmul4(x: ArrayView, y: ArrayView)
    requires
        x.rank() == 4,
        y.rank() == 4,
        x.shape[0] == y.shape[0],
        x.shape[1] == y.shape[1],
        x.shape[3] == y.shape[2],
        x.kind == y.kind,
        addressable(seq![x.shape[0], x.shape[1], x.shape[2], y.shape[3]]),
    ensures
        ({
            let z = matmul_of(x, y);
            &&& z is Some
            &&& z->Some_0.shape == seq![x.shape[0], x.shape[1], x.shape[2], y.shape[3]]
            &&& z->Some_0.kind == x.kind
            &&& z->Some_0.cpu == x.cpu
            &&& forall|b: int, h: int, i: int, j: int|
                0 <= b < x.shape[0] && 0 <= h < x.shape[1] && 0 <= i < x.shape[2] && 0 <= j
                    < y.shape[3] ==> #[trigger] z->Some_0.at4(b, h, i, j) == Scalar::Dot(
                    Seq::new(x.shape[3] as nat, |c: int| x.at4(b, h, i, c)),
                    Seq::new(x.shape[3] as nat, |c: int| y.at4(b, h, c, j)),
                )
        }),
{
    let s = seq![x.shape[0], x.shape[1], x.shape[2], y.shape[3]];
    assert(matmul_shape(x.shape, y.shape) =~= s);
    let bx = batch(x.shape);
    let by = batch(y.shape);
    assert(bx =~= seq![x.shape[0], x.shape[1]]);
    assert(by =~= bx);
    let z = matmul_of(x, y)->Some_0;
    assert forall|b: int, h: int, i: int, j: int|
        0 <= b < x.shape[0] && 0 <= h < x.shape[1] && 0 <= i < x.shape[2] && 0 <= j
            < y.shape[3] implies #[trigger] z.at4(b, h, i, j) == Scalar::Dot(
        Seq::new(x.shape[3] as nat, |c: int| x.at4(b, h, i, c)),
        Seq::new(x.shape[3] as nat, |c: int| y.at4(b, h, c, j)),
    ) by {
        let p = seq![b, h, i, j];
        lemma_in4(s, p);
        let head = p.subrange(0, 2);
        assert(head =~= seq![b, h]);
        assert(in_bounds(bx, head)) by {
            assert forall|d: int| 0 <= d < 2 implies 0 <= #[trigger] head[d] < bx[d] by {
                if d == 0 {
                } else {
                }
            }
        }
        lemma_unravel_offset(bx, head);
        let inner = x.shape[3] as nat;
        let l = Seq::new(inner, |c: int| x.at(p.update(3, c)));
        let l2 = Seq::new(inner, |c: int| x.at4(b, h, i, c));
        assert forall|c: int| 0 <= c < inner implies l[c] == l2[c] by {
            assert(p.update(3, c) =~= seq![b, h, i, c]);
        }
        assert(l =~= l2);
        let r = Seq::new(inner, |c: int| y.at(same_rank(bx, by, head).push(c).push(p[3])));
        let r2 = Seq::new(inner, |c: int| y.at4(b, h, c, j));
        assert forall|c: int| 0 <= c < inner implies r[c] == r2[c] by {
            assert(same_rank(bx, by, head).push(c).push(p[3]) =~= seq![b, h, c, j]);
        }
        assert(r =~= r2);
    }
}

/// The element of a repetition of key heads.
proof fn lemma_repeat4(a: ArrayView, n: usize)
    requires
        a.rank() == 4,
        n >= 1,
        a.shape[1] * n <= usize::MAX,
        addressable(seq![a.shape[0], a.shape[1], n, a.shape[2], a.shape[3]]),
    ensures
        ({
            let z = repeat_of(a, n);
            let h = (a.shape[1] * n) as usize;
            &&& z is Some
            &&& z->Some_0.shape == seq![a.shape[0], h, a.shape[2], a.shape[3]]
            &&& z->Some_0.kind == a.kind
            &&& z->Some_0.cpu == a.cpu
            &&& forall|b: int, i: int, t: int, c: int|
                0 <= b < a.shape[0] && 0 <= i < h && 0 <= t < a.shape[2] && 0 <= c
                    < a.shape[3] ==> #[trigger] z->Some_0.at4(b, i, t, c) == a.at4(
                    b,
                    i / (n as int),
                    t,
                    c,
                )
        }),
{
    let z = repeat_of(a, n)->Some_0;
    let h = (a.shape[1] * n) as usize;
    let s = seq![a.shape[0], h, a.shape[2], a.shape[3]];
    assert(z.shape =~= s);
    assert forall|b: int, i: int, t: int, c: int|
        0 <= b < a.shape[0] && 0 <= i < h && 0 <= t < a.shape[2] && 0 <= c
            < a.shape[3] implies #[trigger] z.at4(b, i, t, c) == a.at4(b, i / (n as int), t, c) by {
        if n != 1 {
            lemma_in4(s, seq![b, i, t, c]);
        }
    }
}

/// The scores of queries and as many key heads.
proof fn lemma_scores4(q: ArrayView, k: ArrayView, scale: u64, mask: Option<ArrayView>)
    requires
        q.rank() == 4,
        k.shape == seq![q.shape[0], q.shape[1], k.shape[2], q.shape[3]],
        q.kind.is_float(),
        q.kind == k.kind,
        mask matches Some(m) ==> m.shape == seq![q.shape[2], k.shape[2]] && m.kind == q.kind,
        addressable(seq![q.shape[0], q.shape[1], q.shape[2], k.shape[2]]),
    ensures
        ({
            let z = scores_of(q, k, scale, mask);
            &&& z is Some
            &&& z->Some_0.shape == seq![q.shape[0], q.shape[1], q.shape[2], k.shape[2]]
            &&& z->Some_0.kind == q.kind
            &&& z->Some_0.cpu == q.cpu
            &&& forall|b: int, h: int, i: int, j: int|
                0 <= b < q.shape[0] && 0 <= h < q.shape[1] && 0 <= i < q.shape[2] && 0 <= j
                    < k.shape[2] ==> #[trigger] z->Some_0.at4(b, h, i, j) == score_at(
                    q,
                    k,
                    1,
                    scale,
                    mask,
                    b,
                    h,
                    i,
                    j,
                )
        }),
{
    let s = seq![q.shape[0], q.shape[1], q.shape[2], k.shape[2]];
    let kt = transpose_of(k, 2, 3)->Some_0;
    assert(kt.shape =~= seq![q.shape[0], q.shape[1], q.shape[3], k.shape[2]]);
    lemma_matmul4(q, kt);
    let p = matmul_of(q, kt)->Some_0;
    let w = scaled_of(p, scale)->Some_0;
    let z = scores_of(q, k, scale, mask)->Some_0;
    if let Some(m) = mask {
        assert(expand_of(m, s) is Some);
        let e = expand_of(m, s)->Some_0;
        assert(common_shape(s, s) is Some);
        assert(common_shape(s, s)->Some_0 =~= s);
        assert(broadcast_sum_of(w, e) is Some);
    }
    assert forall|b: int, h: int, i: int, j: int|
        0 <= b < q.shape[0] && 0 <= h < q.shape[1] && 0 <= i < q.shape[2] && 0 <= j
            < k.shape[2] implies #[trigger] z.at4(b, h, i, j) == score_at(
        q,
        k,
        1,
        scale,
        mask,
        b,
        h,
        i,
        j,
    ) by {
        let x = seq![b, h, i, j];
        lemma_in4(s, x);
        let d = q.shape[3] as nat;
        let r = Seq::new(d, |c: int| kt.at4(b, h, c, j));
        let r2 = Seq::new(d, |c: int| k.at4(b, h / 1, j, c));
        assert forall|c: int| 0 <= c < d implies r[c] == r2[c] by {
            let y = seq![b, h, c, j];
            lemma_in4(kt.shape, y);
            assert(swapped(y, 2, 3) =~= seq![b, h, j, c]);
        }
        assert(r =~= r2);
        assert(p.at4(b, h, i, j) == Scalar::Dot(Seq::new(d, |c: int| q.at4(b, h, i, c)), r2));
        assert(w.at(x) == Scalar::Scaled(Box::new(p.at(x)), scale));
        if let Some(m) = mask {
            let e = expand_of(m, s)->Some_0;
            assert(project(s, x) =~= x) by {
                assert forall|a: int| 0 <= a < 4 implies #[trigger] project(s, x)[a] == x[a] by {
                    if a == 0 {
                    } else if a == 1 {
                    } else if a == 2 {
                    } else {
                    }
                }
            }
            let y = project(m.shape, x);
            assert(y =~= seq![i, j]) by {
                assert(y.len() == 2);
                assert(y[0] == i);
                assert(y[1] == j);
            }
            assert(e.at(x) == m.at(seq![i, j]));
        }
    }
}

/// Attention is the average of the values by the softmax of the scores: each query head
/// takes keys and values from the key head that serves it, and the operands go together
/// whenever their sizes and kinds do.
pub proof fn law_attention_averages(
    q: ArrayView,
    k: ArrayView,
    v: ArrayView,
    n: usize,
    scale: u64,
    mask: Option<ArrayView>,
)
    requires
        attention_shapes(q, k, v, n, mask),
    ensures
        ({
            let y = attended_of(q, k, v, n, scale, mask);
            &&& y is Some
            &&& y->Some_0.shape == seq![q.shape[0], q.shape[1], q.shape[2], v.shape[3]]
            &&& y->Some_0.kind == q.kind
            &&& y->Some_0.cpu == q.cpu
            &&& forall|b: int, h: int, i: int, c: int|
                0 <= b < q.shape[0] && 0 <= h < q.shape[1] && 0 <= i < q.shape[2] && 0 <= c
                    < v.shape[3] ==> #[trigger] y->Some_0.at4(b, h, i, c) == average_at(
                    q,
                    k,
                    v,
                    n,
                    scale,
                    mask,
                    b,
                    h,
                    i,
                    c,
                )
        }),
{
    lemma_repeat4(k, n);
    lemma_repeat4(v, n);
    let kk = repeat_of(k, n)->Some_0;
    let vv = repeat_of(v, n)->Some_0;
    lemma_scores4(q, kk, scale, mask);
    let s = scores_of(q, kk, scale, mask)->Some_0;
    let w = softmax_of(s)->Some_0;
    lemma_matmul4(w, vv);
    let y = attended_of(q, k, v, n, scale, mask)->Some_0;
    let t = k.shape[2] as nat;
    assert forall|b: int, h: int, i: int, c: int|
        0 <= b < q.shape[0] && 0 <= h < q.shape[1] && 0 <= i < q.shape[2] && 0 <= c
            < v.shape[3] implies #[trigger] y.at4(b, h, i, c) == average_at(
        q,
        k,
        v,
        n,
        scale,
        mask,
        b,
        h,
        i,
        c,
    ) by {
        let scores = Seq::new(t, |j: int| score_at(q, k, n, scale, mask, b, h, i, j));
        let l = Seq::new(t, |j: int| w.at4(b, h, i, j));
        let l2 = Seq::new(t, |j: int| Scalar::Softmax(scores, j));
        assert forall|j: int| 0 <= j < t implies #[trigger] s.at4(b, h, i, j) == scores[j] by {
            let d = q.shape[3] as nat;
            let r = Seq::new(d, |c: int| kk.at4(b, h / 1, j, c));
            let r2 = Seq::new(d, |c: int| k.at4(b, h / (n as int), j, c));
            assert forall|e: int| 0 <= e < d implies r[e] == r2[e] by {
                assert(kk.at4(b, h, j, e) == k.at4(b, h / (n as int), j, e));
            }
            assert(r =~= r2);
        }
        assert forall|j: int| 0 <= j < t implies l[j] == l2[j] by {
            let x = seq![b, h, i, j];
            lemma_in4(s.shape, x);
            let row = Seq::new(t, |e: int| s.at(x.update(3, e)));
            assert forall|e: int| 0 <= e < t implies row[e] == scores[e] by {
                assert(x.update(3, e) =~= seq![b, h, i, e]);
                assert(s.at4(b, h, i, e) == scores[e]);
            }
            assert(row =~= scores);
        }
        assert(l =~= l2);
        let r = Seq::new(t, |j: int| vv.at4(b, h, j, c));
        let r2 = Seq::new(t, |j: int| v.at4(b, h / (n as int), j, c));
        assert forall|j: int| 0 <= j < t implies r[j] == r2[j] by {
            assert(vv.at4(b, h, j, c) == v.at4(b, h / (n as int), j, c));
        }
        assert(r =~= r2);
    }
}

/// The element of a rotation: the two halves of a head are turned against each other by
/// the angles of position `t`, whose cosines and sines stand side by side in `pos`.
pub open spec fn turned_at(
    x: ArrayView,
    pos: ArrayView,
    b: int,
    h: int,
    t: int,
    c: int,
) -> Scalar {
    let half = (x.shape[3] / 2) as int;
    let e = if c < half {
        c
    } else {
        c - half
    };
    let cos = pos.at(seq![0, t, e]);
    let sin = pos.at(seq![0, t, half + e]);
    let first = x.at4(b, h, t, e);
    let second = x.at4(b, h, t, half + e);
    if c < half {
        Scalar::Add(
            Box::new(Scalar::Mul(Box::new(first), Box::new(cos))),
            Box::new(Scalar::Neg(Box::new(Scalar::Mul(Box::new(second), Box::new(sin))))),
        )
    } else {
        Scalar::Add(
            Box::new(Scalar::Mul(Box::new(second), Box::new(cos))),
            Box::new(Scalar::Mul(Box::new(first), Box::new(sin))),
        )
    }
}

proof fn lemma_half_addressable(b: usize, h: usize, s: usize, half: usize)
    requires
        2 * half <= usize::MAX,
        addressable(seq![b, h, s, (2 * half) as usize]),
    ensures
        addressable(seq![b, h, s, half]),
{
    let zero = seq![0int, 0, 0, 0];
    lemma_offset4(seq![b, h, s, (2 * half) as usize], zero);
    lemma_offset4(seq![b, h, s, half], zero);
    let (pb, ph, ps) = (
        at_least_one(b) as int,
        at_least_one(h) as int,
        at_least_one(s) as int,
    );
    let (pd, pf) = (at_least_one((2 * half) as usize) as int, at_least_one(half) as int);
    assert(pb * ph * ps * pf <= pb * ph * ps * pd) by (nonlinear_arith)
        requires
            pb >= 1,
            ph >= 1,
            ps >= 1,
            1 <= pf <= pd,
    ;
}

/// A product with one of the halves of the table of rotations.
proof fn lemma_turn_product(x: ArrayView, f: ArrayView)
    requires
        x.rank() == 4,
        f.shape == seq![1usize, x.shape[2], x.shape[3]],
        x.kind.is_float(),
        f.kind == x.kind,
        addressable(x.shape),
    ensures
        ({
            let z = broadcast_product_of(x, f);
            &&& z is Some
            &&& z->Some_0.shape == x.shape
            &&& z->Some_0.kind == x.kind
            &&& z->Some_0.cpu == x.cpu
            &&& forall|i: Seq<int>|
                in_bounds(x.shape, i) ==> #[trigger] z->Some_0.at(i) == Scalar::Mul(
                    Box::new(x.at(i)),
                    Box::new(f.at(seq![0, i[2], i[3]])),
                )
        }),
{
    let s = x.shape;
    assert(common_shape(s, f.shape) is Some && common_shape(s, f.shape)->Some_0 =~= s) by {
        assert(aligned(f.shape, 4, 0) == 1);
        assert(aligned(f.shape, 4, 1) == 1);
        assert(aligned(f.shape, 4, 2) == s[2]);
        assert(aligned(f.shape, 4, 3) == s[3]);
        assert forall|d: int| 0 <= d < 4 implies (#[trigger] aligned(s, 4, d) == aligned(
            f.shape,
            4,
            d,
        ) || aligned(s, 4, d) == 1 || aligned(f.shape, 4, d) == 1) by {
            if d == 0 {
            } else if d == 1 {
            } else if d == 2 {
            } else {
            }
        }
    }
    let z = broadcast_product_of(x, f)->Some_0;
    assert forall|i: Seq<int>| in_bounds(s, i) implies #[trigger] z.at(i) == Scalar::Mul(
        Box::new(x.at(i)),
        Box::new(f.at(seq![0, i[2], i[3]])),
    ) by {
        assert(project(s, i) =~= i) by {
            assert forall|a: int| 0 <= a < 4 implies #[trigger] project(s, i)[a] == i[a] by {
                assert(0 <= i[a] < s[a]);
            }
        }
        let y = project(f.shape, i);
        assert(0 <= i[2] < s[2] && 0 <= i[3] < s[3]);
        assert(y =~= seq![0, i[2], i[3]]) by {
            assert(y.len() == 3);
            assert(y[0] == 0);
            assert(y[1] == i[2]);
            assert(y[2] == i[3]);
        }
    }
}

/// A table with the cosines and sines of each position side by side turns the halves of
/// each head by the angles of its position.
pub proof fn law_rotation(x: ArrayView, pos: ArrayView, head_dim: usize)
    requires
        x.rank() == 4,
        x.shape[3] == head_dim,
        head_dim % 2 == 0,
        pos.shape == seq![1usize, x.shape[2], head_dim],
        x.kind.is_float(),
        pos.kind == x.kind,
        addressable(x.shape),
    ensures
        ({
            let y = rotary_of(x, pos, head_dim);
            &&& y is Some
            &&& y->Some_0.shape == x.shape
            &&& y->Some_0.kind == x.kind
            &&& y->Some_0.cpu == x.cpu
            &&& forall|b: int, h: int, t: int, c: int|
                0 <= b < x.shape[0] && 0 <= h < x.shape[1] && 0 <= t < x.shape[2] && 0 <= c
                    < head_dim ==> #[trigger] y->Some_0.at4(b, h, t, c) == turned_at(
                    x,
                    pos,
                    b,
                    h,
                    t,
                    c,
                )
        }),
{
    let half = (head_dim / 2) as usize;
    let s = x.shape;
    assert(s =~= seq![s[0], s[1], s[2], (2 * half) as usize]);
    lemma_half_addressable(s[0], s[1], s[2], half);
    let cos = narrow_of(pos, 2, 0, half)->Some_0;
    let sin = narrow_of(pos, 2, half as int, half)->Some_0;
    let x1 = narrow_of(x, 3, 0, half)->Some_0;
    let x2 = narrow_of(x, 3, half as int, half)->Some_0;
    let sh = seq![s[0], s[1], s[2], half];
    assert(x1.shape =~= sh);
    assert(x2.shape =~= sh);
    assert(cos.shape =~= seq![1usize, s[2], half]);
    assert(sin.shape =~= seq![1usize, s[2], half]);
    lemma_turn_product(x1, cos);
    lemma_turn_product(x2, sin);
    lemma_turn_product(x2, cos);
    lemma_turn_product(x1, sin);
    let a = broadcast_product_of(x1, cos)->Some_0;
    let bb = broadcast_product_of(x2, sin)->Some_0;
    let cc = broadcast_product_of(x2, cos)->Some_0;
    let dd = broadcast_product_of(x1, sin)->Some_0;
    let nb = neg_of(bb)->Some_0;
    let u = sum_of(a, nb)->Some_0;
    let w = sum_of(cc, dd)->Some_0;
    assert(sh.update(3, (half + half) as usize) =~= s);
    let y = rotary_of(x, pos, head_dim)->Some_0;
    assert(turned_of(x1, x2, cos, sin) == cat_of(u, w, 3));
    assert forall|b: int, h: int, t: int, c: int|
        0 <= b < x.shape[0] && 0 <= h < x.shape[1] && 0 <= t < x.shape[2] && 0 <= c
            < head_dim implies #[trigger] y.at4(b, h, t, c) == turned_at(x, pos, b, h, t, c) by {
        let i = seq![b, h, t, c];
        lemma_in4(s, i);
        let e = if c < half {
            c
        } else {
            c - half
        };
        let j = seq![b, h, t, e];
        lemma_in4(sh, j);
        assert(i.update(3, i[3] - half) =~= seq![b, h, t, c - half]);
        assert(j.update(3, j[3] + 0) =~= j);
        assert(j.update(3, j[3] + half) =~= seq![b, h, t, half + e]);
        assert(x1.at(j) == x.at4(b, h, t, e));
        assert(x2.at(j) == x.at4(b, h, t, half + e));
        let p = seq![0, t, e];
        assert(in_bounds(cos.shape, p)) by {
            assert forall|d: int| 0 <= d < 3 implies 0 <= #[trigger] p[d] < cos.shape[d] by {
                if d == 0 {
                } else if d == 1 {
                } else {
                }
            }
        }
        assert(p.update(2, p[2] + 0) =~= p);
        assert(p.update(2, p[2] + half) =~= seq![0, t, half + e]);
        assert(a.at(j) == Scalar::Mul(Box::new(x1.at(j)), Box::new(cos.at(p))));
        assert(bb.at(j) == Scalar::Mul(Box::new(x2.at(j)), Box::new(sin.at(p))));
        assert(cc.at(j) == Scalar::Mul(Box::new(x2.at(j)), Box::new(cos.at(p))));
        assert(dd.at(j) == Scalar::Mul(Box::new(x1.at(j)), Box::new(sin.at(p))));
        assert(u.at(j) == Scalar::Add(
            Box::new(a.at(j)),
            Box::new(Scalar::Neg(Box::new(bb.at(j)))),
        ));
        assert(w.at(j) == Scalar::Add(Box::new(cc.at(j)), Box::new(dd.at(j))));
    }
}

/// Heads that are split and merged again are the rows that they came from.
pub proof fn law_merge_undoes_split(a: ArrayView, heads: usize, dim: usize)
    requires
        a.rank() == 3,
        a.shape[2] == heads * dim,
        addressable(a.shape),
        addressable(seq![a.shape[0], a.shape[1], heads, dim]),
    ensures
        ({
            let y = heads_of(a, 0, a.shape[2], heads, dim);
            let z = merged_of(y->Some_0, a.shape[0], a.shape[1], a.shape[2]);
            &&& y is Some
            &&& z is Some
            &&& z->Some_0.shape == a.shape
            &&& z->Some_0.kind == a.kind
            &&& z->Some_0.cpu == a.cpu
            &&& forall|i: Seq<int>|
                in_bounds(a.shape, i) ==> #[trigger] z->Some_0.at(i) == a.at(i)
        }),
{
    let (b, t, w) = (a.shape[0], a.shape[1], a.shape[2]);
    let s3 = seq![b, t, w];
    let s4 = seq![b, t, heads, dim];
    assert(a.shape =~= s3);
    lemma_offset3(s3, seq![0int, 0, 0]);
    lemma_offset4(s4, seq![0int, 0, 0, 0]);
    let (ib, it, iw, ih, id) = (b as int, t as int, w as int, heads as int, dim as int);
    assert(ib * it * iw == ib * it * ih * id) by (nonlinear_arith)
        requires
            iw == ih * id,
    ;
    let y = heads_of(a, 0, w, heads, dim)->Some_0;
    let x = transpose_of(y, 1, 2)->Some_0;
    assert(x.shape =~= s4);
    let z = merged_of(y, b, t, w)->Some_0;
    assert forall|i: Seq<int>| in_bounds(a.shape, i) implies #[trigger] z.at(i) == a.at(i) by {
        assert(0 <= i[0] < b && 0 <= i[1] < t && 0 <= i[2] < w);
        let (i0, i1, c) = (i[0], i[1], i[2]);
        assert(id > 0) by (nonlinear_arith)
            requires
                0 <= c < ih * id,
                id >= 0,
        ;
        vstd::arithmetic::div_mod::lemma_fundamental_div_mod(c, id);
        vstd::arithmetic::div_mod::lemma_mod_bound(c, id);
        let (q, r) = (c / id, c % id);
        assert(0 <= q < ih) by (nonlinear_arith)
            requires
                c == id * q + r,
                0 <= r < id,
                0 <= c < ih * id,
        ;
        let j = seq![i0, i1, q, r];
        lemma_in4(s4, j);
        lemma_offset3(s3, i);
        lemma_offset4(s4, j);
        assert((i0 * it + i1) * iw + c == ((i0 * it + i1) * ih + q) * id + r) by (nonlinear_arith)
            requires
                iw == ih * id,
                c == id * q + r,
        ;
        lemma_unravel_offset(s4, j);
        let k = swapped(j, 1, 2);
        assert(k =~= seq![i0, q, i1, r]);
        lemma_in4(y.shape, k);
        assert(q * id + r == c) by (nonlinear_arith)
            requires
                c == id * q + r,
        ;
        assert(seq![k[0], k[2], 0 + k[1] * dim + k[3]] =~= i);
    }
}

/// Repetitions multiply: heads that are repeated `m` times and then `n` times are repeated
/// `m * n` times, and what cannot be repeated again cannot be repeated so often at once. (Where
/// no heads are left, this holds of what can be repeated both ways.)
pub proof fn law_repetitions_multiply(a: ArrayView, m: usize, n: usize)
    requires
        m * n <= usize::MAX,
        repeat_of(a, m) is Some,
        (m > 0 && (a.rank() == 4 ==> a.shape[1] > 0)) || (repeat_of(repeat_of(a, m)->Some_0, n)
            is Some && repeat_of(a, (m * n) as usize) is Some),
    ensures
        repeat_of(repeat_of(a, m)->Some_0, n) == repeat_of(a, (m * n) as usize),
{
    let mn = (m * n) as usize;
    if m != 1 && n != 1 {
        if m > 0 && a.shape[1] > 0 {
            lemma_repeated_together(a, m, n);
        }
        if repeat_of(a, mn) is Some {
            lemma_repetitions_same(a, m, n);
        }
    } else if m == 1 {
        assert(mn == n);
    } else {
        assert(mn == m);
    }
}

/// What can be repeated again can be repeated as often at once, and what cannot cannot.
proof fn lemma_repeated_together(a: ArrayView, m: usize, n: usize)
    requires
        m * n <= usize::MAX,
        m > 1,
        n != 1,
        a.shape[1] > 0,
        repeat_of(a, m) is Some,
    ensures
        repeat_of(repeat_of(a, m)->Some_0, n) is Some <==> repeat_of(a, (m * n) as usize) is Some,
{
    let mn = (m * n) as usize;
    let s = a.shape;
    lemma_repeated_heads(a, m);
    let y = repeat_of(a, m)->Some_0;
    let zero = seq![0int, 0, 0, 0, 0];
    lemma_offset5(seq![s[0], s[1], m, s[2], s[3]], zero);
    lemma_offset5(seq![s[0], y.shape[1], n, s[2], s[3]], zero);
    lemma_offset5(seq![s[0], s[1], mn, s[2], s[3]], zero);
    let (b, h, t, d) = (
        at_least_one(s[0]) as int,
        s[1] as int,
        at_least_one(s[2]) as int,
        at_least_one(s[3]) as int,
    );
    let (im, inn) = (m as int, n as int);
    assert(h * im > 0) by (nonlinear_arith)
        requires
            h > 0,
            im > 1,
    ;
    if n == 0 {
        assert(im * inn == 0) by (nonlinear_arith)
            requires
                inn == 0,
        ;
        assert(b * (h * im) * 1 * t * d == b * h * im * t * d) by (nonlinear_arith);
        assert(b * h * 1 * t * d <= b * h * im * t * d) by (nonlinear_arith)
            requires
                b >= 1,
                h >= 1,
                im >= 1,
                t >= 1,
                d >= 1,
        ;
    } else {
        assert(im * inn > 1) by (nonlinear_arith)
            requires
                im > 1,
                inn > 1,
        ;
        assert(b * (h * im) * inn * t * d == b * h * (im * inn) * t * d) by (nonlinear_arith);
    }
}

/// What is repeated twice is what is repeated as often at once.
proof fn lemma_repetitions_same(a: ArrayView, m: usize, n: usize)
    requires
        m * n <= usize::MAX,
        m != 1,
        n != 1,
        repeat_of(a, m) is Some,
        repeat_of(repeat_of(a, m)->Some_0, n) is Some,
        repeat_of(a, (m * n) as usize) is Some,
    ensures
        repeat_of(repeat_of(a, m)->Some_0, n) == repeat_of(a, (m * n) as usize),
{
    let mn = (m * n) as usize;
    assert(mn != 1) by (nonlinear_arith)
        requires
            mn == m * n,
            m != 1,
            n != 1,
            m >= 0,
            n >= 0,
    ;
    let y = repeat_of(a, m)->Some_0;
    let z = repeat_of(y, n)->Some_0;
    let w = repeat_of(a, mn)->Some_0;
    lemma_repeated_heads(a, m);
    lemma_repeated_heads(y, n);
    lemma_repeated_heads(a, mn);
    let (h, im, inn) = (a.shape[1] as int, m as int, n as int);
    assert(h * im * inn == h * (im * inn)) by (nonlinear_arith);
    assert(z.shape =~= w.shape);
    assert forall|i: Seq<int>| in_bounds(z.shape, i) implies #[trigger] z.elems[i]
        == w.elems[i] by {
        let x = i[1];
        assert(0 <= x < z.shape[1]);
        assert(im > 0 && inn > 0) by (nonlinear_arith)
            requires
                0 <= x < h * im * inn,
                h >= 0,
                im >= 0,
                inn >= 0,
        ;
        vstd::arithmetic::div_mod::lemma_div_denominator(x, inn, im);
        assert(inn * im == im * inn) by (nonlinear_arith);
        let j = seq![i[0], x / inn, i[2], i[3]];
        vstd::arithmetic::div_mod::lemma_fundamental_div_mod(x, inn);
        vstd::arithmetic::div_mod::lemma_mod_bound(x, inn);
        let (q, r) = (x / inn, x % inn);
        assert(0 <= q < h * im) by (nonlinear_arith)
            requires
                x == inn * q + r,
                0 <= r < inn,
                0 <= x < h * im * inn,
        ;
        assert(0 <= i[0] < z.shape[0] && 0 <= i[2] < z.shape[2] && 0 <= i[3] < z.shape[3]);
        lemma_in4(y.shape, j);
    }
    assert(z.elems =~= w.elems);
}

/// There are as many heads as fit.
proof fn lemma_repeated_heads(a: ArrayView, n: usize)
    requires
        n != 1,
        repeat_of(a, n) is Some,
    ensures
        a.rank() == 4,
        a.shape[1] * n <= usize::MAX,
{
    let s = seq![a.shape[0], a.shape[1], n, a.shape[2], a.shape[3]];
    let (u, w) = (s.drop_last(), s.drop_last().drop_last());
    let v = w.drop_last();
    assert(w.len() == 3 && v.len() == 2);
    assert(span(s) == span(u) * at_least_one(s[4]));
    assert(span(u) == span(w) * at_least_one(s[3]));
    assert(span(w) == span(v) * at_least_one(n));
    assert(span(v) == span(v.drop_last()) * at_least_one(s[1]));
    assert(span(v.drop_last()) == span(v.drop_last().drop_last()) * at_least_one(s[0]));
    let (p, h, k, x, y) = (
        span(v.drop_last()) as int,
        at_least_one(s[1]) as int,
        at_least_one(n) as int,
        at_least_one(s[3]) as int,
        at_least_one(s[4]) as int,
    );
    let (ih, ik) = (a.shape[1] as int, n as int);
    let (one, first) = (span(v.drop_last().drop_last()) as int, at_least_one(s[0]) as int);
    assert(p >= 1) by (nonlinear_arith)
        requires
            p == one * first,
            one == 1,
            first >= 1,
    ;
    assert(ih * ik <= p * h * k * x * y) by (nonlinear_arith)
        requires
            p >= 1,
            1 <= h,
            0 <= ih <= h,
            1 <= k,
            0 <= ik <= k,
            x >= 1,
            y >= 1,
    ;
}

/// A shorter table of rotations begins a longer one.
pub proof fn law_table_begins(short: usize, long: usize, head_dim: usize, inv_freq: Seq<u32>)
    requires
        short <= long,
        rotary_table_of(long, head_dim, inv_freq) is Some,
    ensures
        rotary_table_of(short, head_dim, inv_freq) is Some,
        narrow_of(rotary_table_of(long, head_dim, inv_freq)->Some_0, 2, 0, short)
            == rotary_table_of(short, head_dim, inv_freq),
{
    let width = (2 * (head_dim / 2)) as usize;
    let (s, t) = (seq![1usize, 1usize, short, width], seq![1usize, 1usize, long, width]);
    lemma_addressable_smaller(s, t);
    let x = rotary_table_of(short, head_dim, inv_freq)->Some_0;
    let z = rotary_table_of(long, head_dim, inv_freq)->Some_0;
    let y = narrow_of(z, 2, 0, short)->Some_0;
    assert(y.shape =~= x.shape);
    assert forall|i: Seq<int>| in_bounds(s, i) implies #[trigger] y.elems[i] == x.elems[i] by {
        assert(i.update(2, i[2] + 0) =~= i);
        assert(in_bounds(t, i)) by {
            assert forall|d: int| 0 <= d < 4 implies 0 <= #[trigger] i[d] < t[d] by {
                assert(0 <= i[d] < s[d]);
            }
        }
    }
    assert(y.elems =~= x.elems);
}

/// The cache keeps what it holds and has the new keys behind it.
pub proof fn law_cache_grows(a: AttentionView, x: ArrayView, pos: ArrayView)
    requires
        a.cache is Some,
        cache_after(a, x, pos) is Some,
    ensures
        ({
            let (_, k, v) = projected_of(a, x, pos)->Some_0;
            let (pk, pv) = a.cache->Some_0;
            let (nk, nv) = cache_after(a, x, pos)->Some_0;
            &&& nk.shape == pk.shape.update(2, (pk.shape[2] + k.shape[2]) as usize)
            &&& nv.shape == pv.shape.update(2, (pv.shape[2] + v.shape[2]) as usize)
            &&& narrow_of(nk, 2, 0, pk.shape[2]) matches Some(old)
            &&& forall|i: Seq<int>| in_bounds(pk.shape, i) ==> #[trigger] old.at(i) == pk.at(i)
            &&& narrow_of(nk, 2, pk.shape[2] as int, k.shape[2]) matches Some(new)
            &&& forall|i: Seq<int>| in_bounds(k.shape, i) ==> #[trigger] new.at(i) == k.at(i)
            &&& narrow_of(nv, 2, 0, pv.shape[2]) matches Some(old)
            &&& forall|i: Seq<int>| in_bounds(pv.shape, i) ==> #[trigger] old.at(i) == pv.at(i)
            &&& narrow_of(nv, 2, pv.shape[2] as int, v.shape[2]) matches Some(new)
            &&& forall|i: Seq<int>| in_bounds(v.shape, i) ==> #[trigger] new.at(i) == v.at(i)
        }),
{
    let (_, k, v) = projected_of(a, x, pos)->Some_0;
    let (pk, pv) = a.cache->Some_0;
    lemma_cat_parts(pk, k);
    lemma_cat_parts(pv, v);
}

proof fn lemma_cat_parts(a: ArrayView, b: ArrayView)
    requires
        cat_of(a, b, 2) is Some,
    ensures
        ({
            let c = cat_of(a, b, 2)->Some_0;
            &&& narrow_of(c, 2, 0, a.shape[2]) matches Some(old)
            &&& forall|i: Seq<int>| in_bounds(a.shape, i) ==> #[trigger] old.at(i) == a.at(i)
            &&& narrow_of(c, 2, a.shape[2] as int, b.shape[2]) matches Some(new)
            &&& forall|i: Seq<int>| in_bounds(b.shape, i) ==> #[trigger] new.at(i) == b.at(i)
        }),
{
    let c = cat_of(a, b, 2)->Some_0;
    let old = narrow_of(c, 2, 0, a.shape[2])->Some_0;
    let new = narrow_of(c, 2, a.shape[2] as int, b.shape[2])->Some_0;
    assert(old.shape =~= a.shape);
    assert(new.shape =~= b.shape);
    assert forall|i: Seq<int>| in_bounds(a.shape, i) implies #[trigger] old.at(i) == a.at(i) by {
        let j = i.update(2, i[2] + 0);
        assert(j =~= i);
        assert(i[2] < a.shape[2]);
        assert(in_bounds(c.shape, i)) by {
            assert forall|d: int| 0 <= d < c.shape.len() implies 0 <= #[trigger] i[d] < c.shape[d] by {
                assert(i[d] < a.shape[d]);
            }
        }
    }
    assert forall|i: Seq<int>| in_bounds(b.shape, i) implies #[trigger] new.at(i) == b.at(i) by {
        let j = i.update(2, i[2] + a.shape[2]);
        assert(j.update(2, j[2] - a.shape[2]) =~= i);
        assert(0 <= i[2] < b.shape[2]);
        assert(in_bounds(c.shape, j)) by {
            assert forall|d: int| 0 <= d < c.shape.len() implies 0 <= #[trigger] j[d] < c.shape[d] by {
                assert(0 <= i[d] < b.shape[d]);
            }
        }
    }
}

/// A model that was applied to sequences, and even one that failed on the way, is after
/// clearing what it would be had it been cleared before: the next pass, over whatever
/// sequences, has the same outcome and leaves the same model.
pub proof fn law_clearing_forgets(
    m: ModelView,
    during: ModelView,
    ids: ArrayView,
    pos: ArrayView,
    next_ids: ArrayView,
    next_pos: ArrayView,
)
    requires
        model_during(m, during, ids, pos) || during == model_after(m, ids, pos),
    ensures
        during.cleared() == m.cleared(),
        forward_of(during.cleared(), next_ids, next_pos) == forward_of(
            m.cleared(),
            next_ids,
            next_pos,
        ),
        model_after(during.cleared(), next_ids, next_pos) == model_after(
            m.cleared(),
            next_ids,
            next_pos,
        ),
{
    assert(during.cleared().layers =~= m.cleared().layers);
}

/// Whether the model `next` comes from `m` by a pass over the sequences `ids`, finished or not.
pub open spec fn passes_to(
    m: ModelView,
    next: ModelView,
    ids: ArrayView,
    pos: ArrayView,
) -> bool {
    model_during(m, next, ids, pos) || next == model_after(m, ids, pos)
}

/// Whether the model `next` comes from `m` by clearing or by a pass, finished or not.
pub open spec fn comes_from(next: ModelView, m: ModelView) -> bool {
    next == m.cleared() || exists|ids: ArrayView, pos: ArrayView| passes_to(m, next, ids, pos)
}

/// Clearing forgets any number of calls: whatever passes and clearings, finished or not, lie
/// between two models, they are equal after clearing. The next pass, over whatever sequences,
/// has the same outcome, is as sure to have it, is refused for the same reason and leaves the
/// same model.
pub proof fn law_clearing_forgets_all(
    trail: Seq<ModelView>,
    next_ids: ArrayView,
    next_pos: ArrayView,
    cached_packed: bool,
)
    requires
        trail.len() > 0,
        forall|i: int| 0 < i < trail.len() ==> comes_from(#[trigger] trail[i], trail[i - 1]),
    ensures
        trail.last().cleared() == trail[0].cleared(),
        ({
            let (m1, m2) = (trail.last().cleared(), trail[0].cleared());
            &&& forward_of(m1, next_ids, next_pos) == forward_of(m2, next_ids, next_pos)
            &&& forward_sure(m1, next_ids, next_pos, cached_packed) == forward_sure(
                m2,
                next_ids,
                next_pos,
                cached_packed,
            )
            &&& forward_why(m1, next_ids, next_pos) == forward_why(m2, next_ids, next_pos)
            &&& model_after(m1, next_ids, next_pos) == model_after(m2, next_ids, next_pos)
        }),
    decreases trail.len(),
{
    if trail.len() > 1 {
        let n = trail.len() - 1;
        let before = trail.subrange(0, n);
        assert forall|i: int| 0 < i < before.len() implies comes_from(
            #[trigger] before[i],
            before[i - 1],
        ) by {
            assert(before[i] == trail[i] && before[i - 1] == trail[i - 1]);
        }
        law_clearing_forgets_all(before, next_ids, next_pos, cached_packed);
        let (m, next) = (trail[n - 1], trail[n]);
        assert(comes_from(trail[n], trail[n - 1]));
        if next == m.cleared() {
            assert(next.cleared().layers =~= m.cleared().layers);
        } else {
            let (ids, pos) = choose|ids: ArrayView, pos: ArrayView| passes_to(m, next, ids, pos);
            law_clearing_forgets(m, next, ids, pos, next_ids, next_pos);
        }
    }
}

/// Whether `x` holds rows of `width` numbers.
pub open spec fn is_rows(x: ArrayView, width: usize) -> bool {
    x.rank() == 3 && x.shape[2] == width
}

/// Whether the parameters of a linear layer are of one kind.
pub open spec fn dense_of_kind(d: DenseView, kind: ElementKind) -> bool {
    d.weight.kind == kind && d.bias->Some_0.kind == kind
}

/// Whether the parameters of a feed-forward network that matter are of one kind. Where the
/// inner rows are empty, the bias that is added in the end is all that matters.
pub open spec fn feed_forward_of_kind(f: FeedForwardView, kind: ElementKind) -> bool {
    &&& f.gate.weight.shape[0] > 0 ==> {
        &&& dense_of_kind(f.gate, kind)
        &&& dense_of_kind(f.up, kind)
        &&& f.down.weight.kind == kind
    }
    &&& f.down.bias->Some_0.kind == kind
}

/// Whether the parameters of a normalization are of one kind and in one place. On the CPU they
/// are packed and short of double precision.
pub open spec fn norm_of_kind(n: NormView, kind: ElementKind, cpu: bool) -> bool {
    &&& n.weight.kind == kind && n.bias->Some_0.kind == kind
    &&& n.weight.cpu == cpu && n.bias->Some_0.cpu == cpu
    &&& cpu ==> n.weight_packed && n.bias_packed && kind != ElementKind::F64
}

/// The number of positions in the cache of a layer.
pub open spec fn cached(a: AttentionView) -> int {
    match a.cache {
        None => 0,
        Some((k, _)) => k.shape[2] as int,
    }
}

/// Whether the heads of a layer, its parameters and its cache go together for `b` sequences
/// of elements of one kind: the heads share out the width of the rows, the query heads
/// share out the key heads, and heads have two halves.
pub open spec fn attention_regular(
    a: AttentionView,
    b: usize,
    kind: ElementKind,
    cpu: bool,
) -> bool {
    &&& a.consistent()
    &&& a.kv_heads > 0
    &&& a.heads > 0
    &&& a.heads * a.head_dim == a.hidden
    &&& a.heads == a.kv_heads * group_of(a)
    &&& a.head_dim % 2 == 0
    &&& dense_of_kind(a.qkv, kind) && dense_of_kind(a.o, kind)
    &&& a.cache matches Some((k, v)) ==> {
        &&& k.shape == seq![b, a.kv_heads, k.shape[2], a.head_dim]
        &&& v.shape == k.shape
        &&& k.kind == kind && v.kind == kind
        &&& k.cpu == cpu && v.cpu == cpu
    }
}

/// Whether what a layer computes for `b` sequences of `s` new positions, with `t` positions
/// in all, can be addressed.
pub open spec fn attention_addressable(a: AttentionView, b: usize, s: usize, t: int) -> bool {
    let n = group_of(a);
    let tt = t as usize;
    &&& t <= usize::MAX
    &&& addressable(seq![b, s, a.hidden])
    &&& addressable(seq![b, s, (a.hidden + 2 * a.kv_width()) as usize])
    &&& addressable(seq![b, s, a.heads, a.head_dim])
    &&& addressable(seq![b, s, a.kv_heads, a.head_dim])
    &&& addressable(seq![b, a.heads, s, a.head_dim])
    &&& addressable(seq![b, a.kv_heads, s, a.head_dim])
    &&& addressable(seq![b, a.kv_heads, tt, a.head_dim])
    &&& addressable(seq![b, a.kv_heads, n, tt, a.head_dim])
    &&& addressable(seq![b, a.heads, s, tt])
}

proof fn lemma_heads_defined(p: ArrayView, start: usize, width: usize, heads: usize, dim: usize)
    requires
        p.rank() == 3,
        start + width <= p.shape[2],
        width == heads * dim,
        addressable(seq![p.shape[0], p.shape[1], heads, dim]),
    ensures
        ({
            let y = heads_of(p, start, width, heads, dim);
            &&& y is Some
            &&& y->Some_0.shape == seq![p.shape[0], heads, p.shape[1], dim]
            &&& y->Some_0.kind == p.kind
            &&& y->Some_0.cpu == p.cpu
        }),
{
    let (b, t) = (p.shape[0], p.shape[1]);
    lemma_offset3(seq![b, t, width], seq![0int, 0, 0]);
    lemma_offset4(seq![b, t, heads, dim], seq![0int, 0, 0, 0]);
    let (ib, it, iw, ih, id) = (b as int, t as int, width as int, heads as int, dim as int);
    assert(ib * it * iw == ib * it * ih * id) by (nonlinear_arith)
        requires
            iw == ih * id,
    ;
}

/// The heads of the queries of the rows of `x`, before they are turned.
pub open spec fn plain_queries(a: AttentionView, x: ArrayView) -> ArrayView {
    heads_of(dense_of(a.qkv, x)->Some_0, 0, a.hidden, a.heads, a.head_dim)->Some_0
}

/// The heads of the keys of the rows of `x`, before they are turned.
pub open spec fn plain_keys(a: AttentionView, x: ArrayView) -> ArrayView {
    heads_of(
        dense_of(a.qkv, x)->Some_0,
        a.hidden,
        a.kv_width() as usize,
        a.kv_heads,
        a.head_dim,
    )->Some_0
}

/// The heads of the values of the rows of `x`.
pub open spec fn plain_values(a: AttentionView, x: ArrayView) -> ArrayView {
    heads_of(
        dense_of(a.qkv, x)->Some_0,
        (a.hidden + a.kv_width()) as usize,
        a.kv_width() as usize,
        a.kv_heads,
        a.head_dim,
    )->Some_0
}

/// Projection is defined, and each of its parts has as many heads as it should.
pub(crate) proof fn lemma_projection_defined(a: AttentionView, x: ArrayView, pos: ArrayView)
    requires
        attention_regular(a, x.shape[0], x.kind, x.cpu),
        is_rows(x, a.hidden),
        x.kind.is_float(),
        pos.shape == seq![1usize, x.shape[1], a.head_dim],
        pos.kind == x.kind,
        attention_addressable(a, x.shape[0], x.shape[1], cached(a) + x.shape[1]),
    ensures
        projected_of(a, x, pos) matches Some((q, k, v)) && {
            &&& q.shape == seq![x.shape[0], a.heads, x.shape[1], a.head_dim]
            &&& k.shape == seq![x.shape[0], a.kv_heads, x.shape[1], a.head_dim]
            &&& v.shape == seq![x.shape[0], a.kv_heads, x.shape[1], a.head_dim]
            &&& q.kind == x.kind && k.kind == x.kind && v.kind == x.kind
            &&& q.cpu == x.cpu && k.cpu == x.cpu && v.cpu == x.cpu
            &&& rotary_of(plain_keys(a, x), pos, a.head_dim) == Some(k)
            &&& plain_values(a, x) == v
        },
        dense_of(a.qkv, x) is Some,
        plain_keys(a, x).shape == seq![x.shape[0], a.kv_heads, x.shape[1], a.head_dim],
        plain_keys(a, x).kind == x.kind,
{
    reveal(projected_of);
    let kv = a.kv_width() as usize;
    let (kh, hd) = (a.kv_heads as int, a.head_dim as int);
    assert(kh * hd >= 0) by (nonlinear_arith)
        requires
            kh >= 0,
            hd >= 0,
    ;
    let p = dense_of(a.qkv, x)->Some_0;
    assert(dense_of(a.qkv, x) is Some) by {
        assert(dense_shape(a.qkv, x) =~= seq![
            x.shape[0],
            x.shape[1],
            (a.hidden + 2 * a.kv_width()) as usize,
        ]);
    }
    lemma_heads_defined(p, 0, a.hidden, a.heads, a.head_dim);
    lemma_heads_defined(p, a.hidden, kv, a.kv_heads, a.head_dim);
    lemma_heads_defined(p, (a.hidden + kv) as usize, kv, a.kv_heads, a.head_dim);
    let q = heads_of(p, 0, a.hidden, a.heads, a.head_dim)->Some_0;
    let k = heads_of(p, a.hidden, kv, a.kv_heads, a.head_dim)->Some_0;
    law_rotation(q, pos, a.head_dim);
    law_rotation(k, pos, a.head_dim);
}

/// The parts of the projection before they are turned.
pub(crate) proof fn lemma_projection_parts(a: AttentionView, x: ArrayView, pos: ArrayView)
    requires
        attention_regular(a, x.shape[0], x.kind, x.cpu),
        is_rows(x, a.hidden),
        x.kind.is_float(),
        pos.shape == seq![1usize, x.shape[1], a.head_dim],
        pos.kind == x.kind,
        attention_addressable(a, x.shape[0], x.shape[1], cached(a) + x.shape[1]),
    ensures
        rotary_of(plain_queries(a, x), pos, a.head_dim) == Some(
            projected_of(a, x, pos)->Some_0.0,
        ),
        dense_of(a.qkv, x)->Some_0.shape == dense_shape(a.qkv, x),
        plain_queries(a, x).shape == seq![x.shape[0], a.heads, x.shape[1], a.head_dim],
        plain_queries(a, x).kind == x.kind,
        heads_of(dense_of(a.qkv, x)->Some_0, 0, a.hidden, a.heads, a.head_dim) is Some,
        heads_of(
            dense_of(a.qkv, x)->Some_0,
            a.hidden,
            a.kv_width() as usize,
            a.kv_heads,
            a.head_dim,
        ) is Some,
        heads_of(
            dense_of(a.qkv, x)->Some_0,
            (a.hidden + a.kv_width()) as usize,
            a.kv_width() as usize,
            a.kv_heads,
            a.head_dim,
        ) is Some,
{
    lemma_projection_defined(a, x, pos);
    reveal(projected_of);
    let kv = a.kv_width() as usize;
    let (kh, hd) = (a.kv_heads as int, a.head_dim as int);
    assert(kh * hd >= 0) by (nonlinear_arith)
        requires
            kh >= 0,
            hd >= 0,
    ;
    let p = dense_of(a.qkv, x)->Some_0;
    lemma_heads_defined(p, 0, a.hidden, a.heads, a.head_dim);
    lemma_heads_defined(p, a.hidden, kv, a.kv_heads, a.head_dim);
    lemma_heads_defined(p, (a.hidden + kv) as usize, kv, a.kv_heads, a.head_dim);
}

/// The cache is defined after rows of the width of the layer were seen, and has their
/// positions behind those that it held.
proof fn lemma_cache_defined(a: AttentionView, x: ArrayView, pos: ArrayView)
    requires
        attention_regular(a, x.shape[0], x.kind, x.cpu),
        is_rows(x, a.hidden),
        x.kind.is_float(),
        pos.shape == seq![1usize, x.shape[1], a.head_dim],
        pos.kind == x.kind,
        attention_addressable(a, x.shape[0], x.shape[1], cached(a) + x.shape[1]),
    ensures
        cache_after(a, x, pos) matches Some((k, v)) && {
            &&& k.shape == seq![
                x.shape[0],
                a.kv_heads,
                (cached(a) + x.shape[1]) as usize,
                a.head_dim,
            ]
            &&& v.shape == k.shape
            &&& k.kind == x.kind && v.kind == x.kind
            &&& k.cpu == x.cpu && v.cpu == x.cpu
        },
{
    lemma_projection_defined(a, x, pos);
    let (_, k0, v0) = projected_of(a, x, pos)->Some_0;
    let t = (cached(a) + x.shape[1]) as usize;
    let s4 = seq![x.shape[0], a.kv_heads, t, a.head_dim];
    if let Some((pk, pv)) = a.cache {
        assert(pk.shape.update(2, t) =~= s4);
        assert(pv.shape.update(2, t) =~= s4);
        assert(cat_of(pk, k0, 2) is Some);
        assert(cat_of(pv, v0, 2) is Some);
    }
    let (k, v) = cache_after(a, x, pos)->Some_0;
    assert(k.shape =~= s4 && v.shape =~= s4);
}

/// Heads can be merged into rows of their width.
proof fn lemma_merge_defined(y: ArrayView, width: usize)
    requires
        y.rank() == 4,
        width == y.shape[1] * y.shape[3],
        addressable(seq![y.shape[0], y.shape[2], width]),
    ensures
        merged_of(y, y.shape[0], y.shape[2], width) matches Some(w) && w.shape == seq![
            y.shape[0],
            y.shape[2],
            width,
        ] && w.kind == y.kind && w.cpu == y.cpu,
{
    let (b, s, h, d) = (y.shape[0], y.shape[2], y.shape[1], y.shape[3]);
    let z = transpose_of(y, 1, 2)->Some_0;
    let sz = seq![b, s, h, d];
    assert(z.shape =~= sz);
    lemma_offset3(seq![b, s, width], seq![0int, 0, 0]);
    lemma_offset4(sz, seq![0int, 0, 0, 0]);
    let (ib, is, iw, ih, id) = (b as int, s as int, width as int, h as int, d as int);
    assert(ib * is * iw == ib * is * ih * id) by (nonlinear_arith)
        requires
            iw == ih * id,
    ;
}

/// Attention is defined on rows of the width of the layer, with a table of rotations that
/// has a row per position and a mask that has a row per position and a column per position
/// in the cache, as long as all is of one kind.
pub proof fn law_attention_defined(
    a: AttentionView,
    x: ArrayView,
    pos: ArrayView,
    mask: Option<ArrayView>,
)
    requires
        attention_regular(a, x.shape[0], x.kind, x.cpu),
        is_rows(x, a.hidden),
        x.kind.is_float(),
        pos.shape == seq![1usize, x.shape[1], a.head_dim],
        pos.kind == x.kind,
        attention_addressable(a, x.shape[0], x.shape[1], cached(a) + x.shape[1]),
        mask matches Some(m) ==> m.shape == seq![
            x.shape[1],
            (cached(a) + x.shape[1]) as usize,
        ] && m.kind == x.kind,
    ensures
        attention_of(a, x, pos, mask) matches Some(y) && y.shape == x.shape && y.kind == x.kind
            && y.cpu == x.cpu,
        cache_after(a, x, pos) matches Some((k, v)) && {
            &&& k.shape == seq![
                x.shape[0],
                a.kv_heads,
                (cached(a) + x.shape[1]) as usize,
                a.head_dim,
            ]
            &&& v.shape == k.shape
            &&& k.kind == x.kind && v.kind == x.kind
            &&& k.cpu == x.cpu && v.cpu == x.cpu
        },
{
    lemma_projection_defined(a, x, pos);
    lemma_cache_defined(a, x, pos);
    let (q, _, _) = projected_of(a, x, pos)->Some_0;
    let (k, v) = cache_after(a, x, pos)->Some_0;
    let n = group_of(a);
    assert(n >= 1) by (nonlinear_arith)
        requires
            a.heads == a.kv_heads * n,
            a.heads > 0,
    ;
    law_attention_averages(q, k, v, n, a.scale, mask);
    let y = attended_of(q, k, v, n, a.scale, mask)->Some_0;
    lemma_merge_defined(y, a.hidden);
    let w = merged_of(y, x.shape[0], x.shape[1], a.hidden)->Some_0;
    assert(x.shape =~= seq![x.shape[0], x.shape[1], a.hidden]);
    assert(dense_shape(a.o, w) =~= x.shape);
}

/// Whether the parts of a layer go together for `b` sequences of elements of one kind.
pub open spec fn layer_regular(l: LayerView, b: usize, kind: ElementKind, cpu: bool) -> bool {
    &&& attention_regular(l.self_attn, b, kind, cpu)
    &&& feed_forward_of_kind(l.mlp, kind)
    &&& norm_of_kind(l.input_layernorm, kind, cpu)
    &&& norm_of_kind(l.post_attention_layernorm, kind, cpu)
}

/// Whether what a layer computes for `b` sequences of `s` new positions can be addressed.
pub open spec fn layer_addressable(l: LayerView, b: usize, s: usize) -> bool {
    &&& attention_addressable(l.self_attn, b, s, cached(l.self_attn) + s)
    &&& addressable(seq![b, s, l.mlp.gate.weight.shape[0]])
}

/// Rows that are empty make an empty array.
pub(crate) proof fn lemma_inner_rows(b: usize, s: usize, w: usize)
    ensures
        w == 0 ==> numel(seq![b, s, w]) == 0,
{
    let shape = seq![b, s, w];
    lemma_numel_axes(shape);
    assert(shape[2] == w);
}

/// A layer is defined where its attention is, as long as all is of one kind.
pub proof fn law_layer_defined(
    l: LayerView,
    x: ArrayView,
    pos: ArrayView,
    mask: Option<ArrayView>,
)
    requires
        layer_regular(l, x.shape[0], x.kind, x.cpu),
        l.applies(),
        is_rows(x, l.self_attn.hidden),
        x.kind.is_float(),
        pos.shape == seq![1usize, x.shape[1], l.self_attn.head_dim],
        pos.kind == x.kind,
        layer_addressable(l, x.shape[0], x.shape[1]),
        mask matches Some(m) ==> m.shape == seq![
            x.shape[1],
            (cached(l.self_attn) + x.shape[1]) as usize,
        ] && m.kind == x.kind,
    ensures
        layer_of(l, x, true, pos, mask) matches Some(y) && y.shape == x.shape && y.kind == x.kind
            && y.cpu == x.cpu,
{
    reveal(layer_of);
    let y = norm_of(l.input_layernorm, x, true)->Some_0;
    law_attention_defined(l.self_attn, y, pos, mask);
    let z = attended_rows_of(l, x, true, pos, mask)->Some_0;
    let u = norm_of(l.post_attention_layernorm, z, true)->Some_0;
    let (b, s, w) = (x.shape[0], x.shape[1], l.mlp.gate.weight.shape[0]);
    assert(dense_shape(l.mlp.gate, u) =~= seq![b, s, w]);
    assert(dense_shape(l.mlp.up, u) =~= seq![b, s, w]);
    lemma_inner_rows(b, s, w);
    assert(x.shape =~= seq![b, s, l.self_attn.hidden]);
    let g = dense_of(l.mlp.gate, u)->Some_0;
    assert(dense_shape(l.mlp.down, g) =~= x.shape);
}

/// Whether the parts of a model go together for `b` sequences of `s` new positions: all is
/// of the kind and in the place of its table, in single precision where a mask is added, and
/// there is nothing in the caches that more than one new position would have to be masked
/// against.
pub open spec fn model_regular(m: ModelView, b: usize, s: usize, head_dim: usize) -> bool {
    let (kind, cpu) = (m.kind(), m.embed_tokens.table.cpu);
    &&& m.consistent()
    &&& m.proper()
    &&& kind.is_float()
    &&& norm_of_kind(m.norm, kind, cpu)
    &&& dense_of_kind(m.lm_head, kind)
    &&& s > 1 && m.layers.len() > 0 ==> kind == ElementKind::F32
    &&& forall|i: int|
        0 <= i < m.layers.len() ==> {
            &&& layer_regular(#[trigger] m.layers[i], b, kind, cpu)
            &&& m.layers[i].self_attn.head_dim == head_dim
            &&& s > 1 ==> cached(m.layers[i].self_attn) == 0
        }
}

/// Whether what a model computes for `b` sequences of `s` new positions can be addressed.
pub open spec fn model_addressable(m: ModelView, b: usize, s: usize) -> bool {
    &&& s > 1 ==> addressable(seq![s, s])
    &&& addressable(seq![b, s, m.hidden()])
    &&& addressable(seq![b, s, m.vocab()])
    &&& forall|i: int|
        0 <= i < m.layers.len() ==> layer_addressable(#[trigger] m.layers[i], b, s)
}

pub(crate) proof fn lemma_stack_defined(
    m: ModelView,
    n: nat,
    x: ArrayView,
    pos: ArrayView,
    mask: Option<ArrayView>,
    head_dim: usize,
)
    requires
        n <= m.layers.len(),
        x.rank() == 3,
        x.shape[2] == m.hidden(),
        x.kind == m.kind(),
        x.cpu == m.embed_tokens.table.cpu,
        model_regular(m, x.shape[0], x.shape[1], head_dim),
        model_addressable(m, x.shape[0], x.shape[1]),
        pos.shape == seq![1usize, x.shape[1], head_dim],
        m.layers.len() > 0 ==> pos.kind == m.kind(),
        mask matches Some(m) ==> x.shape[1] > 1 && m.shape == seq![x.shape[1], x.shape[1]]
            && m.kind == ElementKind::F32,
    ensures
        stack_of(m.layers, n, x, pos, mask) matches Some(y) && y.shape == x.shape && y.kind
            == x.kind && y.cpu == x.cpu,
    decreases n,
{
    if n > 0 {
        lemma_stack_defined(m, (n - 1) as nat, x, pos, mask, head_dim);
        let y = stack_of(m.layers, (n - 1) as nat, x, pos, mask)->Some_0;
        let l = m.layers[n - 1];
        assert(layer_regular(l, x.shape[0], m.kind(), x.cpu));
        assert(layer_addressable(l, x.shape[0], x.shape[1]));
        assert(l.is_for(m.hidden()));
        assert(l.proper());
        law_layer_defined(l, y, pos, mask);
    }
}

/// A model gives each position of each sequence a score for every token, as long as its
/// parts go together and the table of rotations has a row per position.
pub proof fn law_forward_defined(m: ModelView, ids: ArrayView, pos: ArrayView, head_dim: usize)
    requires
        ids.rank() == 2,
        lookup_of(m.embed_tokens, ids) is Some,
        model_regular(m, ids.shape[0], ids.shape[1], head_dim),
        model_addressable(m, ids.shape[0], ids.shape[1]),
        pos.shape == seq![1usize, ids.shape[1], head_dim],
        m.layers.len() > 0 ==> pos.kind == m.kind(),
    ensures
        forward_of(m, ids, pos) matches Some(y) && y.shape == seq![
            ids.shape[0],
            ids.shape[1],
            m.vocab(),
        ],
{
    let (b, s) = (ids.shape[0], ids.shape[1]);
    assert(ids.shape.push(m.hidden()) =~= seq![b, s, m.hidden()]);
    let x = lookup_of(m.embed_tokens, ids)->Some_0;
    let mask = mask_for(ids)->Some_0;
    lemma_stack_defined(m, m.layers.len(), x, pos, mask, head_dim);
    let y = stack_of(m.layers, m.layers.len(), x, pos, mask)->Some_0;
    let z = norm_of(m.norm, y, true)->Some_0;
    assert(dense_shape(m.lm_head, z) =~= seq![b, s, m.vocab()]);
}

/// Whether the parameters of a linear layer are on the CPU.
pub open spec fn dense_on_cpu(d: DenseView) -> bool {
    d.weight.cpu && d.bias->Some_0.cpu
}

/// Whether the parameters of a normalization are on the CPU and packed.
pub open spec fn norm_on_cpu(n: NormView) -> bool {
    n.weight.cpu && n.bias->Some_0.cpu && n.weight_packed && n.bias_packed
}

/// Whether a layer is on the CPU.
pub open spec fn layer_on_cpu(l: LayerView) -> bool {
    &&& dense_on_cpu(l.self_attn.qkv) && dense_on_cpu(l.self_attn.o)
    &&& dense_on_cpu(l.mlp.gate) && dense_on_cpu(l.mlp.up) && dense_on_cpu(l.mlp.down)
    &&& norm_on_cpu(l.input_layernorm) && norm_on_cpu(l.post_attention_layernorm)
    &&& l.self_attn.cache matches Some((k, v)) ==> k.cpu && v.cpu
}

/// Whether a model is on the CPU.
pub open spec fn model_on_cpu(m: ModelView) -> bool {
    &&& m.embed_tokens.table.cpu && m.embed_tokens.packed
    &&& norm_on_cpu(m.norm)
    &&& dense_on_cpu(m.lm_head)
    &&& forall|i: int| 0 <= i < m.layers.len() ==> layer_on_cpu(#[trigger] m.layers[i])
}

/// Where there are rows, the scores that they give are not empty.
pub(crate) proof fn lemma_scores_not_empty(
    a: AttentionView,
    x: ArrayView,
    pos: ArrayView,
    mask: Option<ArrayView>,
)
    requires
        attention_regular(a, x.shape[0], x.kind, x.cpu),
        is_rows(x, a.hidden),
        x.kind.is_float(),
        x.count() > 0,
        pos.shape == seq![1usize, x.shape[1], a.head_dim],
        pos.kind == x.kind,
        attention_addressable(a, x.shape[0], x.shape[1], cached(a) + x.shape[1]),
        mask matches Some(m) ==> m.shape == seq![
            x.shape[1],
            (cached(a) + x.shape[1]) as usize,
        ] && m.kind == x.kind,
    ensures
        row_scores_of(a, x, pos, mask) matches Some(s) && s.count() > 0,
{
    lemma_projection_defined(a, x, pos);
    law_attention_defined(a, x, pos, mask);
    let (q, _, _) = projected_of(a, x, pos)->Some_0;
    let (k, _) = cache_after(a, x, pos)->Some_0;
    let n = group_of(a);
    assert(n >= 1) by (nonlinear_arith)
        requires
            a.heads == a.kv_heads * n,
            a.heads > 0,
    ;
    lemma_repeat4(k, n);
    let kk = repeat_of(k, n)->Some_0;
    lemma_scores4(q, kk, a.scale, mask);
    let t = (cached(a) + x.shape[1]) as usize;
    let s4 = seq![x.shape[0], a.heads, x.shape[1], t];
    assert(x.shape =~= seq![x.shape[0], x.shape[1], a.hidden]);
    lemma_offset3(x.shape, seq![0int, 0, 0]);
    lemma_offset4(s4, seq![0int, 0, 0, 0]);
    let (ib, is, iw, ih, it) = (
        x.shape[0] as int,
        x.shape[1] as int,
        a.hidden as int,
        a.heads as int,
        t as int,
    );
    assert(ib * ih * is * it > 0) by (nonlinear_arith)
        requires
            ib * is * iw > 0,
            ib >= 0,
            is >= 0,
            iw >= 0,
            ih > 0,
            it >= is,
    ;
}

/// A layer on the CPU is sure to succeed on operands that go together, unless several
/// sequences have unshared heads.
pub(crate) proof fn lemma_layer_sure(
    l: LayerView,
    x: ArrayView,
    pos: ArrayView,
    mask: Option<ArrayView>,
    cached_packed: bool,
)
    requires
        layer_regular(l, x.shape[0], x.kind, x.cpu),
        layer_on_cpu(l),
        l.applies(),
        is_rows(x, l.self_attn.hidden),
        x.kind.multiplies(),
        x.cpu,
        x.count() > 0,
        pos.shape == seq![1usize, x.shape[1], l.self_attn.head_dim],
        pos.kind == x.kind,
        pos.cpu,
        layer_addressable(l, x.shape[0], x.shape[1]),
        mask matches Some(m) ==> m.cpu && m.shape == seq![
            x.shape[1],
            (cached(l.self_attn) + x.shape[1]) as usize,
        ] && m.kind == x.kind,
        group_of(l.self_attn) != 1 || x.shape[0] == 1 || (x.shape[1] == 1 && cached_packed),
    ensures
        layer_sure(l, x, true, pos, mask, cached_packed),
{
    reveal(layer_sure);
    let y = norm_of(l.input_layernorm, x, true)->Some_0;
    lemma_scores_not_empty(l.self_attn, y, pos, mask);
}

/// Tokens of the vocabulary are looked up.
proof fn lemma_looked_up(m: ModelView, ids: ArrayView)
    requires
        ids.rank() == 2,
        ids.count() > 0,
        m.consistent(),
        m.proper(),
        addressable(ids.shape.push(m.hidden())),
        lookup_sure(m.embed_tokens, ids),
    ensures
        lookup_of(m.embed_tokens, ids) is Some,
{
    let i = seq![0int, 0];
    lemma_numel_axes(ids.shape);
    assert(in_bounds(ids.shape, i));
    let table = m.embed_tokens.table;
    assert(table.shape[0] > 0 && table.shape[1] > 0);
    lemma_numel_axes(table.shape);
}

/// A model on the CPU succeeds: it gives each position of each sequence a score for every
/// token, as long as its parts go together, the tokens are in its vocabulary, and key heads are
/// shared, or there is a single sequence, or a single new position and what the caches hold is
/// packed.
pub proof fn law_forward_succeeds(
    m: ModelView,
    ids: ArrayView,
    pos: ArrayView,
    head_dim: usize,
    cached_packed: bool,
)
    requires
        ids.rank() == 2,
        ids.count() > 0,
        model_regular(m, ids.shape[0], ids.shape[1], head_dim),
        model_addressable(m, ids.shape[0], ids.shape[1]),
        model_on_cpu(m),
        lookup_sure(m.embed_tokens, ids),
        pos.shape == seq![1usize, ids.shape[1], head_dim],
        m.layers.len() > 0 ==> pos.kind == m.kind(),
        pos.cpu,
        m.kind().multiplies(),
        ids.shape[0] == 1 || (ids.shape[1] == 1 && cached_packed) || forall|i: int|
            0 <= i < m.layers.len() ==> group_of((#[trigger] m.layers[i]).self_attn) != 1,
    ensures
        forward_of(m, ids, pos) is Some,
        forward_sure(m, ids, pos, cached_packed),
{
    let (b, s) = (ids.shape[0], ids.shape[1]);
    assert(ids.shape.push(m.hidden()) =~= seq![b, s, m.hidden()]);
    lemma_looked_up(m, ids);
    law_forward_defined(m, ids, pos, head_dim);
    let x = lookup_of(m.embed_tokens, ids)->Some_0;
    let mask = mask_for(ids)->Some_0;
    assert(x.count() > 0) by {
        assert(x.shape.drop_last() =~= ids.shape);
        assert(numel(x.shape) == numel(ids.shape) * (m.hidden() as nat));
        assert(numel(ids.shape) * (m.hidden() as nat) > 0) by (nonlinear_arith)
            requires
                numel(ids.shape) > 0,
                m.hidden() > 0,
        ;
    }
    assert forall|i: int| 0 <= i < m.layers.len() implies (#[trigger] stack_of(
        m.layers,
        i as nat,
        x,
        pos,
        mask,
    ) matches Some(y) ==> layer_sure(m.layers[i], y, true, pos, mask, cached_packed)) by {
        lemma_stack_defined(m, i as nat, x, pos, mask, head_dim);
        let y = stack_of(m.layers, i as nat, x, pos, mask)->Some_0;
        let l = m.layers[i];
        assert(layer_regular(l, b, m.kind(), true));
        assert(layer_addressable(l, b, s));
        assert(layer_on_cpu(l));
        assert(l.is_for(m.hidden()));
        assert(l.proper());
        lemma_layer_sure(l, y, pos, mask, cached_packed);
    }
    lemma_stack_defined(m, m.layers.len(), x, pos, mask, head_dim);
}

/// A token may attend to itself and to earlier ones: for the rest the mask holds negative
/// infinity.
pub proof fn law_mask_hides_future(n: usize, cpu: bool, i: int, j: int)
    requires
        mask_of(n, cpu) is Some,
        0 <= i < n,
        0 <= j < n,
    ensures
        mask_of(n, cpu)->Some_0.at(seq![i, j]) == Scalar::Bits(
            if j <= i {
                0
            } else {
                NEG_INFINITY
            },
        ),
{
    let p = seq![i, j];
    assert(in_bounds(seq![n, n], p)) by {
        assert forall|d: int| 0 <= d < 2 implies 0 <= #[trigger] p[d] < seq![n, n][d] by {
            if d == 0 {
            } else {
            }
        }
    }
}

/// Whether `x` holds the rows of `x1` followed by those of `x2`.
#[verifier::opaque]
pub open spec fn rows_follow(x1: ArrayView, x2: ArrayView, x: ArrayView) -> bool {
    &&& x1.rank() == 3 && x2.rank() == 3 && x.rank() == 3
    &&& x1.shape[0] == x.shape[0] && x2.shape[0] == x.shape[0]
    &&& x1.shape[2] == x.shape[2] && x2.shape[2] == x.shape[2]
    &&& x.shape[1] == x1.shape[1] + x2.shape[1]
    &&& x1.kind == x.kind && x2.kind == x.kind
    &&& forall|b: int, t: int, c: int|
        0 <= b < x.shape[0] && 0 <= t < x.shape[1] && 0 <= c < x.shape[2] ==> #[trigger] at3(
            x,
            b,
            t,
            c,
        ) == if t < x1.shape[1] {
            at3(x1, b, t, c)
        } else {
            at3(x2, b, t - x1.shape[1], c)
        }
}

/// The element at a position of an array with three axes.
pub open spec fn at3(x: ArrayView, b: int, t: int, c: int) -> Scalar {
    x.at(seq![b, t, c])
}

/// The element of the image of a row.
pub(crate) proof fn lemma_dense_at(d: DenseView, x: ArrayView, b: int, t: int, o: int)
    requires
        x.rank() == 3,
        d.weight.rank() == 2,
        dense_of(d, x) is Some,
        0 <= b < x.shape[0],
        0 <= t < x.shape[1],
        0 <= o < d.weight.shape[0],
    ensures
        at3(dense_of(d, x)->Some_0, b, t, o) == Scalar::Add(
            Box::new(
                Scalar::Dot(
                    Seq::new(x.shape[2] as nat, |c: int| at3(x, b, t, c)),
                    Seq::new(x.shape[2] as nat, |c: int| d.weight.at(seq![o, c])),
                ),
            ),
            Box::new(d.bias->Some_0.at(seq![o])),
        ),
{
    let y = dense_of(d, x)->Some_0;
    let i = seq![b, t, o];
    assert(in_bounds(y.shape, i)) by {
        assert forall|e: int| 0 <= e < 3 implies 0 <= #[trigger] i[e] < y.shape[e] by {
            if e == 0 {
            } else if e == 1 {
            } else {
            }
        }
    }
    let n = x.shape[2] as nat;
    let l = Seq::new(n, |c: int| x.at(i.update(2, c)));
    let l2 = Seq::new(n, |c: int| at3(x, b, t, c));
    assert forall|c: int| 0 <= c < n implies l[c] == l2[c] by {
        assert(i.update(2, c) =~= seq![b, t, c]);
    }
    assert(l =~= l2);
    let r = Seq::new(n, |c: int| d.weight.at(seq![i[2], c]));
    let r2 = Seq::new(n, |c: int| d.weight.at(seq![o, c]));
    assert(r =~= r2);
    assert(seq![i[2]] =~= seq![o]);
}

/// The image of a row is that of the row where it came from.
proof fn lemma_dense_follows(
    d: DenseView,
    x1: ArrayView,
    x2: ArrayView,
    x: ArrayView,
    b: int,
    t: int,
    o: int,
)
    requires
        rows_follow(x1, x2, x),
        d.weight.rank() == 2,
        dense_of(d, x1) is Some,
        dense_of(d, x2) is Some,
        dense_of(d, x) is Some,
        0 <= b < x.shape[0],
        0 <= t < x.shape[1],
        0 <= o < d.weight.shape[0],
    ensures
        at3(dense_of(d, x)->Some_0, b, t, o) == if t < x1.shape[1] {
            at3(dense_of(d, x1)->Some_0, b, t, o)
        } else {
            at3(dense_of(d, x2)->Some_0, b, t - x1.shape[1], o)
        },
{
    reveal(rows_follow);
    lemma_dense_at(d, x, b, t, o);
    let n = x.shape[2] as nat;
    let l = Seq::new(n, |c: int| at3(x, b, t, c));
    if t < x1.shape[1] {
        lemma_dense_at(d, x1, b, t, o);
        let l1 = Seq::new(n, |c: int| at3(x1, b, t, c));
        assert forall|c: int| 0 <= c < n implies l[c] == l1[c] by {
            assert(at3(x, b, t, c) == at3(x1, b, t, c));
        }
        assert(l =~= l1);
    } else {
        let u = t - x1.shape[1];
        lemma_dense_at(d, x2, b, u, o);
        let l2 = Seq::new(n, |c: int| at3(x2, b, u, c));
        assert forall|c: int| 0 <= c < n implies l[c] == l2[c] by {
            assert(at3(x, b, t, c) == at3(x2, b, u, c));
        }
        assert(l =~= l2);
    }
}

/// The element of a head.
pub(crate) proof fn lemma_head_at(
    p: ArrayView,
    start: usize,
    width: usize,
    heads: usize,
    dim: usize,
    b: int,
    h: int,
    t: int,
    c: int,
)
    requires
        heads_of(p, start, width, heads, dim) is Some,
        0 <= b < p.shape[0],
        0 <= h < heads,
        0 <= t < p.shape[1],
        0 <= c < dim,
    ensures
        heads_of(p, start, width, heads, dim)->Some_0.at4(b, h, t, c) == at3(
            p,
            b,
            t,
            start + h * dim + c,
        ),
{
    let y = heads_of(p, start, width, heads, dim)->Some_0;
    lemma_in4(y.shape, seq![b, h, t, c]);
}

/// Whether `y` holds the positions of `y1` followed by those of `y2`.
#[verifier::opaque]
pub open spec fn positions_follow(y1: ArrayView, y2: ArrayView, y: ArrayView) -> bool {
    &&& y1.rank() == 4 && y2.rank() == 4 && y.rank() == 4
    &&& y.shape == y1.shape.update(2, y.shape[2])
    &&& y.shape == y2.shape.update(2, y.shape[2])
    &&& y.shape[2] == y1.shape[2] + y2.shape[2]
    &&& forall|b: int, h: int, t: int, c: int|
        0 <= b < y.shape[0] && 0 <= h < y.shape[1] && 0 <= t < y.shape[2] && 0 <= c < y.shape[3]
            ==> #[trigger] y.at4(b, h, t, c) == if t < y1.shape[2] {
            y1.at4(b, h, t, c)
        } else {
            y2.at4(b, h, t - y1.shape[2], c)
        }
}

/// The heads of rows that follow each other follow each other.
proof fn lemma_heads_follow(
    d: DenseView,
    x1: ArrayView,
    x2: ArrayView,
    x: ArrayView,
    start: usize,
    heads: usize,
    dim: usize,
)
    requires
        rows_follow(x1, x2, x),
        d.weight.rank() == 2,
        dense_of(d, x1) is Some,
        dense_of(d, x2) is Some,
        dense_of(d, x) is Some,
        heads * dim <= usize::MAX,
        start + heads * dim <= d.weight.shape[0],
        addressable(seq![x1.shape[0], x1.shape[1], heads, dim]),
        addressable(seq![x2.shape[0], x2.shape[1], heads, dim]),
        addressable(seq![x.shape[0], x.shape[1], heads, dim]),
    ensures
        ({
            let w = (heads * dim) as usize;
            positions_follow(
                heads_of(dense_of(d, x1)->Some_0, start, w, heads, dim)->Some_0,
                heads_of(dense_of(d, x2)->Some_0, start, w, heads, dim)->Some_0,
                heads_of(dense_of(d, x)->Some_0, start, w, heads, dim)->Some_0,
            )
        }),
{
    reveal(rows_follow);
    reveal(positions_follow);
    let w = (heads * dim) as usize;
    let (p1, p2, p) = (
        dense_of(d, x1)->Some_0,
        dense_of(d, x2)->Some_0,
        dense_of(d, x)->Some_0,
    );
    lemma_heads_defined(p1, start, w, heads, dim);
    lemma_heads_defined(p2, start, w, heads, dim);
    lemma_heads_defined(p, start, w, heads, dim);
    let y1 = heads_of(p1, start, w, heads, dim)->Some_0;
    let y2 = heads_of(p2, start, w, heads, dim)->Some_0;
    let y = heads_of(p, start, w, heads, dim)->Some_0;
    assert(y.shape =~= y1.shape.update(2, y.shape[2]));
    assert(y.shape =~= y2.shape.update(2, y.shape[2]));
    assert forall|b: int, h: int, t: int, c: int|
        0 <= b < y.shape[0] && 0 <= h < y.shape[1] && 0 <= t < y.shape[2] && 0 <= c
            < y.shape[3] implies #[trigger] y.at4(b, h, t, c) == if t < y1.shape[2] {
        y1.at4(b, h, t, c)
    } else {
        y2.at4(b, h, t - y1.shape[2], c)
    } by {
        let o = start + h * dim + c;
        let (ih, id) = (heads as int, dim as int);
        assert(0 <= h * id + c < ih * id) by (nonlinear_arith)
            requires
                0 <= h < ih,
                0 <= c < id,
        ;
        lemma_head_at(p, start, w, heads, dim, b, h, t, c);
        lemma_dense_follows(d, x1, x2, x, b, t, o);
        if t < y1.shape[2] {
            lemma_head_at(p1, start, w, heads, dim, b, h, t, c);
        } else {
            lemma_head_at(p2, start, w, heads, dim, b, h, t - y1.shape[2], c);
        }
    }
}

/// Positions that follow each other are turned alike.
proof fn lemma_turned_follow(
    y1: ArrayView,
    y2: ArrayView,
    y: ArrayView,
    pos1: ArrayView,
    pos2: ArrayView,
    pos: ArrayView,
    head_dim: usize,
)
    requires
        positions_follow(y1, y2, y),
        rows_follow(pos1, pos2, pos),
        y.shape[3] == head_dim,
        head_dim % 2 == 0,
        y.kind.is_float(),
        y1.kind == y.kind,
        y2.kind == y.kind,
        pos.kind == y.kind,
        pos1.shape == seq![1usize, y1.shape[2], head_dim],
        pos2.shape == seq![1usize, y2.shape[2], head_dim],
        pos.shape == seq![1usize, y.shape[2], head_dim],
        addressable(y1.shape),
        addressable(y2.shape),
        addressable(y.shape),
    ensures
        positions_follow(
            rotary_of(y1, pos1, head_dim)->Some_0,
            rotary_of(y2, pos2, head_dim)->Some_0,
            rotary_of(y, pos, head_dim)->Some_0,
        ),
{
    reveal(rows_follow);
    reveal(positions_follow);
    law_rotation(y1, pos1, head_dim);
    law_rotation(y2, pos2, head_dim);
    law_rotation(y, pos, head_dim);
    let z1 = rotary_of(y1, pos1, head_dim)->Some_0;
    let z2 = rotary_of(y2, pos2, head_dim)->Some_0;
    let z = rotary_of(y, pos, head_dim)->Some_0;
    let half = (head_dim / 2) as int;
    assert forall|b: int, h: int, t: int, c: int|
        0 <= b < z.shape[0] && 0 <= h < z.shape[1] && 0 <= t < z.shape[2] && 0 <= c
            < z.shape[3] implies #[trigger] z.at4(b, h, t, c) == if t < z1.shape[2] {
        z1.at4(b, h, t, c)
    } else {
        z2.at4(b, h, t - z1.shape[2], c)
    } by {
        let e = if c < half {
            c
        } else {
            c - half
        };
        let s1 = y1.shape[2] as int;
        assert(z.at4(b, h, t, c) == turned_at(y, pos, b, h, t, c));
        assert(at3(pos, 0, t, e) == pos.at(seq![0, t, e]));
        assert(at3(pos, 0, t, half + e) == pos.at(seq![0, t, half + e]));
        if t < s1 {
            assert(y.at4(b, h, t, e) == y1.at4(b, h, t, e));
            assert(y.at4(b, h, t, half + e) == y1.at4(b, h, t, half + e));
            assert(z1.at4(b, h, t, c) == turned_at(y1, pos1, b, h, t, c));
        } else {
            assert(y.at4(b, h, t, e) == y2.at4(b, h, t - s1, e));
            assert(y.at4(b, h, t, half + e) == y2.at4(b, h, t - s1, half + e));
            assert(z2.at4(b, h, t - s1, c) == turned_at(y2, pos2, b, h, t - s1, c));
        }
    }
}

/// What is put behind something follows it.
pub(crate) proof fn lemma_cat_follows(y1: ArrayView, y2: ArrayView)
    requires
        y1.rank() == 4,
        cat_of(y1, y2, 2) is Some,
    ensures
        positions_follow(y1, y2, cat_of(y1, y2, 2)->Some_0),
{
    reveal(positions_follow);
    let y = cat_of(y1, y2, 2)->Some_0;
    assert(y.shape =~= y1.shape.update(2, y.shape[2]));
    assert(y.shape =~= y2.shape.update(2, y.shape[2]));
    assert forall|b: int, h: int, t: int, c: int|
        0 <= b < y.shape[0] && 0 <= h < y.shape[1] && 0 <= t < y.shape[2] && 0 <= c
            < y.shape[3] implies #[trigger] y.at4(b, h, t, c) == if t < y1.shape[2] {
        y1.at4(b, h, t, c)
    } else {
        y2.at4(b, h, t - y1.shape[2], c)
    } by {
        let i = seq![b, h, t, c];
        lemma_in4(y.shape, i);
        assert(i.update(2, i[2] - y1.shape[2]) =~= seq![b, h, t - y1.shape[2], c]);
    }
}

/// The keys and values of rows that follow each other follow each other.
#[verifier::rlimit(20)]
proof fn lemma_projected_follow(
    a: AttentionView,
    x1: ArrayView,
    pos1: ArrayView,
    x2: ArrayView,
    pos2: ArrayView,
    x: ArrayView,
    pos: ArrayView,
)
    requires
        attention_regular(a, x.shape[0], x.kind, x.cpu),
        a.cache is None,
        x.kind.is_float(),
        rows_follow(x1, x2, x),
        rows_follow(pos1, pos2, pos),
        is_rows(x1, a.hidden),
        is_rows(x2, a.hidden),
        is_rows(x, a.hidden),
        pos1.shape == seq![1usize, x1.shape[1], a.head_dim],
        pos2.shape == seq![1usize, x2.shape[1], a.head_dim],
        pos.shape == seq![1usize, x.shape[1], a.head_dim],
        pos.kind == x.kind,
        attention_addressable(a, x1.shape[0], x1.shape[1], x1.shape[1] as int),
        attention_addressable(a, x2.shape[0], x2.shape[1], x2.shape[1] as int),
        attention_addressable(a, x.shape[0], x.shape[1], x.shape[1] as int),
    ensures
        positions_follow(
            projected_of(a, x1, pos1)->Some_0.1,
            projected_of(a, x2, pos2)->Some_0.1,
            projected_of(a, x, pos)->Some_0.1,
        ),
        positions_follow(
            projected_of(a, x1, pos1)->Some_0.2,
            projected_of(a, x2, pos2)->Some_0.2,
            projected_of(a, x, pos)->Some_0.2,
        ),
{
    assert(x1.kind == x.kind && x2.kind == x.kind && x1.shape[0] == x.shape[0] && x2.shape[0]
        == x.shape[0] && pos1.kind == pos.kind && pos2.kind == pos.kind) by {
        reveal(rows_follow);
    }
    lemma_projection_defined(a, x1, pos1);
    lemma_projection_defined(a, x2, pos2);
    lemma_projection_defined(a, x, pos);
    let kv = a.kv_width() as usize;
    let (kh, hd) = (a.kv_heads as int, a.head_dim as int);
    assert(kh * hd >= 0) by (nonlinear_arith)
        requires
            kh >= 0,
            hd >= 0,
    ;
    lemma_heads_follow(a.qkv, x1, x2, x, a.hidden, a.kv_heads, a.head_dim);
    lemma_heads_follow(a.qkv, x1, x2, x, (a.hidden + kv) as usize, a.kv_heads, a.head_dim);
    assert(positions_follow(plain_keys(a, x1), plain_keys(a, x2), plain_keys(a, x)));
    lemma_turned_follow(
        plain_keys(a, x1),
        plain_keys(a, x2),
        plain_keys(a, x),
        pos1,
        pos2,
        pos,
        a.head_dim,
    );
}

/// The cache stands for the positions that were seen: a layer that has seen some rows and
/// then the rest holds the same keys and values as one that has seen all rows at once.
pub proof fn law_cache_stands_for_rows(
    a: AttentionView,
    x1: ArrayView,
    pos1: ArrayView,
    x2: ArrayView,
    pos2: ArrayView,
    x: ArrayView,
    pos: ArrayView,
)
    requires
        attention_regular(a, x.shape[0], x.kind, x.cpu),
        a.cache is None,
        x.kind.is_float(),
        rows_follow(x1, x2, x),
        rows_follow(pos1, pos2, pos),
        x1.cpu == x2.cpu,
        is_rows(x1, a.hidden),
        is_rows(x2, a.hidden),
        is_rows(x, a.hidden),
        pos1.shape == seq![1usize, x1.shape[1], a.head_dim],
        pos2.shape == seq![1usize, x2.shape[1], a.head_dim],
        pos.shape == seq![1usize, x.shape[1], a.head_dim],
        pos.kind == x.kind,
        attention_addressable(a, x1.shape[0], x1.shape[1], x1.shape[1] as int),
        attention_addressable(a, x2.shape[0], x2.shape[1], x2.shape[1] as int),
        attention_addressable(a, x2.shape[0], x2.shape[1], x.shape[1] as int),
        attention_addressable(a, x.shape[0], x.shape[1], x.shape[1] as int),
    ensures
        ({
            let once = cache_after(a, x, pos);
            let first = cache_after(a, x1, pos1);
            let twice = cache_after(a.with_cache(first), x2, pos2);
            &&& once is Some && first is Some && twice is Some
            &&& once->Some_0.0.shape == twice->Some_0.0.shape
            &&& once->Some_0.1.shape == twice->Some_0.1.shape
            &&& forall|b: int, h: int, t: int, c: int|
                0 <= b < x.shape[0] && 0 <= h < a.kv_heads && 0 <= t < x.shape[1] && 0 <= c
                    < a.head_dim ==> #[trigger] once->Some_0.0.at4(b, h, t, c)
                    == twice->Some_0.0.at4(b, h, t, c)
            &&& forall|b: int, h: int, t: int, c: int|
                0 <= b < x.shape[0] && 0 <= h < a.kv_heads && 0 <= t < x.shape[1] && 0 <= c
                    < a.head_dim ==> #[trigger] once->Some_0.1.at4(b, h, t, c)
                    == twice->Some_0.1.at4(b, h, t, c)
        }),
{
    assert(x1.kind == x.kind && x2.kind == x.kind && x1.shape[0] == x.shape[0] && x2.shape[0]
        == x.shape[0] && x.shape[1] == x1.shape[1] + x2.shape[1] && pos1.kind == pos.kind
        && pos2.kind == pos.kind) by {
        reveal(rows_follow);
    }
    law_attention_defined(a, x1, pos1, None);
    law_attention_defined(a, x, pos, None);
    let first = cache_after(a, x1, pos1);
    let m = a.with_cache(first);
    law_attention_defined(m, x2, pos2, None);
    lemma_projected_follow(a, x1, pos1, x2, pos2, x, pos);
    let (k1, v1) = first->Some_0;
    let (_, k2, v2) = projected_of(m, x2, pos2)->Some_0;
    let (k, v) = cache_after(a, x, pos)->Some_0;
    let (kk, vv) = cache_after(m, x2, pos2)->Some_0;
    assert(projected_of(m, x2, pos2) == projected_of(a, x2, pos2)) by {
        reveal(projected_of);
    }
    lemma_cat_follows(k1, k2);
    lemma_cat_follows(v1, v2);
    lemma_follow_unique(k1, k2, k, kk);
    lemma_follow_unique(v1, v2, v, vv);
}

/// What follows is determined by its parts.
proof fn lemma_follow_unique(y1: ArrayView, y2: ArrayView, y: ArrayView, z: ArrayView)
    requires
        positions_follow(y1, y2, y),
        positions_follow(y1, y2, z),
    ensures
        y.shape == z.shape,
        forall|b: int, h: int, t: int, c: int|
            0 <= b < y.shape[0] && 0 <= h < y.shape[1] && 0 <= t < y.shape[2] && 0 <= c
                < y.shape[3] ==> #[trigger] y.at4(b, h, t, c) == z.at4(b, h, t, c),
{
    reveal(positions_follow);
    assert(y.shape =~= z.shape) by {
        assert(y.shape[0] == y1.shape[0] && z.shape[0] == y1.shape[0]);
        assert(y.shape[1] == y1.shape[1] && z.shape[1] == y1.shape[1]);
        assert(y.shape[3] == y1.shape[3] && z.shape[3] == y1.shape[3]);
    }
    assert forall|b: int, h: int, t: int, c: int|
        0 <= b < y.shape[0] && 0 <= h < y.shape[1] && 0 <= t < y.shape[2] && 0 <= c
            < y.shape[3] implies #[trigger] y.at4(b, h, t, c) == z.at4(b, h, t, c) by {
        assert(z.at4(b, h, t, c) == if t < y1.shape[2] {
            y1.at4(b, h, t, c)
        } else {
            y2.at4(b, h, t - y1.shape[2], c)
        });
    }
}

} // verus!
