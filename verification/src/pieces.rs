//! The pieces of attention written out: heads, repeated heads, the mask, rotations and their
//! table, and the cache.

use vstd::prelude::*;
use crate::attention::{attention_of, cache_after, cache_sure, projected_of, AttentionView};
use crate::decoder::{layer_cache_after, layer_cache_sure, LayerView};
use crate::formulas::lemma_common_rows;
use crate::heads::{heads_of, mask_of, merged_of, repeat_of};
use crate::laws::{at3, lemma_in4};
use crate::layers::{dense_of, norm_of};
use crate::model::mask_for;
use crate::positions::lemma_merged_at;
use crate::rotary::{rotary_of, rotary_table_of, turned_of};
use crate::shape::{
    addressable, aligned, at_least_one, common_shape, in_bounds, lemma_offset3, lemma_offset4,
    project, span,
};
use crate::view::{
    broadcast_product_of, broadcast_sum_of, cat_of, expand_of, matmul_of, narrow_of, neg_of,
    reshape_of, scaled_of, single_of, softmax_of, sum_of, transpose_of, ArrayView, ElementKind,
    Scalar,
};

verus! {

/// The kinds of numbers: four have digits behind the point, three have not, and matrices of three
/// of them can be multiplied on the CPU.
pub proof fn law_kinds_told_apart(k: ElementKind)
    ensures
        k.is_float() <==> (k is BF16 || k is F16 || k is F32 || k is F64),
        k.is_integer() <==> (k is U8 || k is U32 || k is I64),
        k.multiplies() <==> (k is F16 || k is F32 || k is F64),
{
}

/// Elements are named by their coordinates.
pub proof fn law_elements_named(x: ArrayView, b: int, h: int, t: int, c: int)
    ensures
        at3(x, b, t, c) == x.at(seq![b, t, c]),
        x.at4(b, h, t, c) == x.at(seq![b, h, t, c]),
        x.at(seq![b, h, t, c]) == x.elems[seq![b, h, t, c]],
        x.rank() == x.shape.len(),
{
}

/// Joined arrays, written out: where they have the same sizes along the other axes, kind and
/// place, one stands behind the other, whether there is something in them or not.
pub proof fn law_joining_written_out(a: ArrayView, b: ArrayView, dim: int)
    requires
        0 <= dim < a.rank(),
    ensures
        cat_of(a, b, dim) is Some <==> {
            &&& a.rank() == b.rank()
            &&& forall|d: int| 0 <= d < a.rank() && d != dim ==> #[trigger] a.shape[d] == b.shape[d]
            &&& a.kind == b.kind && a.cpu == b.cpu
            &&& a.shape[dim] + b.shape[dim] <= usize::MAX
            &&& addressable(a.shape.update(dim, (a.shape[dim] + b.shape[dim]) as usize))
        },
        cat_of(a, b, dim) matches Some(y) ==> {
            &&& y.shape == a.shape.update(dim, (a.shape[dim] + b.shape[dim]) as usize)
            &&& y.kind == a.kind && y.cpu == a.cpu
            &&& forall|i: Seq<int>|
                in_bounds(y.shape, i) ==> #[trigger] y.at(i) == if i[dim] < a.shape[dim] {
                    a.at(i)
                } else {
                    b.at(i.update(dim, i[dim] - a.shape[dim]))
                }
        },
{
}

/// Numbers in single precision, written out: they are what they were where they were in single
/// precision, and converted otherwise.
pub proof fn law_conversion_written_out(a: ArrayView)
    ensures
        a.kind is F32 ==> single_of(a) == Some(a),
        !(a.kind is F32) && (a.count() > 0 || addressable(a.shape)) ==> single_of(a) is Some,
        !(a.kind is F32) ==> (single_of(a) matches Some(y) ==> {
            &&& y.shape == a.shape
            &&& y.kind is F32
            &&& y.cpu == a.cpu
            &&& forall|i: Seq<int>|
                in_bounds(a.shape, i) ==> #[trigger] y.at(i) == Scalar::Cast(
                    ElementKind::F32,
                    Box::new(a.at(i)),
                )
        }),
{
}

/// Heads, written out: number `c` of head `h` of a row is its number `h * dim + c` behind
/// `start`. A part of the row that is as wide as the heads together can be split.
pub proof fn law_heads_written_out(
    a: ArrayView,
    start: usize,
    width: usize,
    heads: usize,
    dim: usize,
)
    ensures
        a.rank() == 3 && start + width <= a.shape[2] && width == heads * dim && addressable(
            seq![a.shape[0], a.shape[1], heads, dim],
        ) ==> heads_of(a, start, width, heads, dim) is Some,
        heads_of(a, start, width, heads, dim) is Some ==> a.shape[0] * a.shape[1] * width
            == a.shape[0] * a.shape[1] * heads * dim,
        heads_of(a, start, width, heads, dim) matches Some(y) ==> {
            &&& a.rank() == 3
            &&& start + width <= a.shape[2]
            &&& y.shape == seq![a.shape[0], heads, a.shape[1], dim]
            &&& y.kind == a.kind && y.cpu == a.cpu
            &&& forall|b: int, h: int, t: int, c: int|
                0 <= b < a.shape[0] && 0 <= h < heads && 0 <= t < a.shape[1] && 0 <= c < dim
                    ==> #[trigger] y.at4(b, h, t, c) == a.at(seq![b, t, start + h * dim + c])
        },
{
    let (b, t) = (a.shape[0], a.shape[1]);
    lemma_offset3(seq![b, t, width], seq![0int, 0, 0]);
    lemma_offset4(seq![b, t, heads, dim], seq![0int, 0, 0, 0]);
    let (ib, it, iw, ih, id) = (b as int, t as int, width as int, heads as int, dim as int);
    if width == heads * dim {
        assert(ib * it * iw == ib * it * ih * id) by (nonlinear_arith)
            requires
                iw == ih * id,
        ;
    }
    if heads_of(a, start, width, heads, dim) is Some {
        let y = heads_of(a, start, width, heads, dim)->Some_0;
        assert forall|b: int, h: int, t: int, c: int|
            0 <= b < a.shape[0] && 0 <= h < heads && 0 <= t < a.shape[1] && 0 <= c
                < dim implies #[trigger] y.at4(b, h, t, c) == a.at(
            seq![b, t, start + h * dim + c],
        ) by {
            lemma_in4(y.shape, seq![b, h, t, c]);
        }
    }
}

/// Merged heads, written out: the numbers of the heads stand side by side.
pub proof fn law_merging_written_out(a: ArrayView, width: usize)
    requires
        a.rank() == 4,
        width == a.shape[1] * a.shape[3],
        merged_of(a, a.shape[0], a.shape[2], width) is Some,
    ensures
        ({
            let y = merged_of(a, a.shape[0], a.shape[2], width)->Some_0;
            let d = a.shape[3] as int;
            &&& y.shape == seq![a.shape[0], a.shape[2], width]
            &&& y.kind == a.kind && y.cpu == a.cpu
            &&& forall|b: int, t: int, w: int|
                0 <= b < a.shape[0] && 0 <= t < a.shape[2] && 0 <= w < width ==> #[trigger] at3(
                    y,
                    b,
                    t,
                    w,
                ) == a.at(seq![b, w / d, t, w % d])
        }),
{
    let y = merged_of(a, a.shape[0], a.shape[2], width)->Some_0;
    let d = a.shape[3] as int;
    assert forall|b: int, t: int, w: int|
        0 <= b < a.shape[0] && 0 <= t < a.shape[2] && 0 <= w < width implies #[trigger] at3(
        y,
        b,
        t,
        w,
    ) == a.at(seq![b, w / d, t, w % d]) by {
        lemma_merged_at(a, width, b, t, w);
    }
}

/// Heads are merged by the exchange of the axes of heads and positions: the numbers, in the order
/// in which they then stand, fill the rows, as long as there are as many.
pub proof fn law_merging_exchanges_axes(a: ArrayView, b: usize, t: usize, width: usize)
    requires
        a.rank() >= 3,
    ensures
        merged_of(a, b, t, width) == reshape_of(
            transpose_of(a, 1, 2)->Some_0,
            seq![b, t, width],
        ),
{
}

/// Repeated heads, written out: each head stands `n` times in a row. Once is no repetition.
pub proof fn law_repetition_written_out(a: ArrayView, n: usize)
    ensures
        n == 1 ==> repeat_of(a, n) == Some(a),
        n != 1 ==> (repeat_of(a, n) is Some <==> a.rank() == 4 && addressable(
            seq![a.shape[0], a.shape[1], n, a.shape[2], a.shape[3]],
        )),
        n != 1 ==> (repeat_of(a, n) matches Some(y) ==> {
            &&& y.rank() == 4
            &&& y.shape[0] == a.shape[0] && y.shape[2] == a.shape[2] && y.shape[3] == a.shape[3]
            &&& y.shape[1] == (a.shape[1] * n) as usize
            &&& y.kind == a.kind && y.cpu == a.cpu
            &&& forall|b: int, h: int, t: int, c: int|
                0 <= b < y.shape[0] && 0 <= h < y.shape[1] && 0 <= t < y.shape[2] && 0 <= c
                    < y.shape[3] ==> #[trigger] y.at4(b, h, t, c) == a.at(
                    seq![b, h / (n as int), t, c],
                )
        }),
{
    if n != 1 && repeat_of(a, n) is Some {
        let y = repeat_of(a, n)->Some_0;
        assert forall|b: int, h: int, t: int, c: int|
            0 <= b < y.shape[0] && 0 <= h < y.shape[1] && 0 <= t < y.shape[2] && 0 <= c
                < y.shape[3] implies #[trigger] y.at4(b, h, t, c) == a.at(
            seq![b, h / (n as int), t, c],
        ) by {
            lemma_in4(y.shape, seq![b, h, t, c]);
        }
    }
}

/// The mask, written out: nothing is added where a position looks at itself or back, and
/// negative infinity where it looks ahead.
pub proof fn law_mask_written_out(n: usize, cpu: bool)
    ensures
        mask_of(n, cpu) is Some <==> n * n <= usize::MAX,
        mask_of(n, cpu) matches Some(f) ==> {
            &&& f.shape == seq![n, n]
            &&& f.kind == ElementKind::F32
            &&& f.cpu == cpu
            &&& forall|i: Seq<int>|
                i.len() == 2 && 0 <= i[0] < n && 0 <= i[1] < n ==> #[trigger] f.at(i)
                    == Scalar::Bits(
                    if i[1] <= i[0] {
                        0
                    } else {
                        0xff80_0000
                    },
                )
        },
{
    let s = seq![n, n];
    assert(s.drop_last().drop_last() =~= Seq::<usize>::empty());
    assert(span(s) == span(s.drop_last()) * at_least_one(s.last()));
    assert(span(s.drop_last()) == span(s.drop_last().drop_last()) * at_least_one(
        s.drop_last().last(),
    ));
    let (one, k) = (span(Seq::<usize>::empty()) as int, at_least_one(n) as int);
    assert((one * k) * k == k * k) by (nonlinear_arith)
        requires
            one == 1,
    ;
    assert(span(s) == k * k);
    if n == 0 {
        assert(1 * 1 == 1 && 0 * 0 == 0);
    }
    if mask_of(n, cpu) is Some {
        let f = mask_of(n, cpu)->Some_0;
        assert forall|i: Seq<int>|
            i.len() == 2 && 0 <= i[0] < n && 0 <= i[1] < n implies #[trigger] f.at(i)
            == Scalar::Bits(
            if i[1] <= i[0] {
                0
            } else {
                0xff80_0000
            },
        ) by {
            assert(in_bounds(seq![n, n], i)) by {
                assert forall|d: int| 0 <= d < 2 implies 0 <= #[trigger] i[d] < seq![n, n][d] by {
                    if d == 0 {
                    } else {
                    }
                }
            }
        }
    }
}

/// The mask of sequences, written out: none for a single position, and otherwise one that hides
/// what comes later.
pub proof fn law_mask_of_sequences(ids: ArrayView)
    ensures
        ids.shape[1] <= 1 ==> mask_for(ids) == Some(None::<ArrayView>),
        ids.shape[1] > 1 ==> {
            let n = ids.shape[1];
            &&& mask_for(ids) is Some <==> n * n <= usize::MAX
            &&& mask_for(ids) matches Some(mask) ==> {
                &&& mask matches Some(f)
                &&& f.shape == seq![n, n]
                &&& f.kind == ElementKind::F32
                &&& f.cpu == ids.cpu
                &&& forall|i: Seq<int>|
                    i.len() == 2 && 0 <= i[0] < n && 0 <= i[1] < n ==> #[trigger] f.at(i)
                        == Scalar::Bits(
                        if i[1] <= i[0] {
                            0
                        } else {
                            0xff80_0000
                        },
                    )
            }
        },
{
    law_mask_written_out(ids.shape[1], ids.cpu);
}

/// The table of rotations, written out: for each position the cosines of its angles and behind
/// them their sines. The angle of a frequency is the position times the frequency.
pub proof fn law_table_written_out(max_seq_len: usize, head_dim: usize, inv_freq: Seq<u32>)
    ensures
        ({
            let half = (head_dim / 2) as int;
            let shape = seq![1usize, 1usize, max_seq_len, (2 * half) as usize];
            let table = rotary_table_of(max_seq_len, head_dim, inv_freq);
            let angle = |t: int, c: int|
                Scalar::Dot(
                    seq![Scalar::Cast(ElementKind::F32, Box::new(Scalar::Index(t)))],
                    seq![Scalar::Bits(inv_freq[c])],
                );
            &&& table is Some <==> half > 0 && inv_freq.len() == half && max_seq_len <= u32::MAX
                && addressable(shape)
            &&& table matches Some(y) ==> {
                &&& y.shape == shape
                &&& y.kind == ElementKind::F32
                &&& y.cpu
                &&& forall|t: int, c: int|
                    0 <= t < max_seq_len && 0 <= c < half ==> #[trigger] y.at4(0, 0, t, c)
                        == Scalar::Cos(Box::new(angle(t, c)))
                &&& forall|t: int, c: int|
                    0 <= t < max_seq_len && half <= c < 2 * half ==> #[trigger] y.at4(0, 0, t, c)
                        == Scalar::Sin(Box::new(angle(t, c - half)))
            }
        }),
{
    let half = (head_dim / 2) as int;
    let shape = seq![1usize, 1usize, max_seq_len, (2 * half) as usize];
    if rotary_table_of(max_seq_len, head_dim, inv_freq) is Some {
        let y = rotary_table_of(max_seq_len, head_dim, inv_freq)->Some_0;
        assert forall|t: int, c: int| 0 <= t < max_seq_len && 0 <= c < 2 * half implies in_bounds(
            shape,
            #[trigger] seq![0int, 0, t, c],
        ) by {
            lemma_in4(shape, seq![0int, 0, t, c]);
        }
        assert forall|t: int, c: int|
            0 <= t < max_seq_len && 0 <= c < half implies #[trigger] y.at4(0, 0, t, c)
            == Scalar::Cos(
            Box::new(
                Scalar::Dot(
                    seq![Scalar::Cast(ElementKind::F32, Box::new(Scalar::Index(t)))],
                    seq![Scalar::Bits(inv_freq[c])],
                ),
            ),
        ) by {
            lemma_in4(shape, seq![0int, 0, t, c]);
        }
        assert forall|t: int, c: int|
            0 <= t < max_seq_len && half <= c < 2 * half implies #[trigger] y.at4(0, 0, t, c)
            == Scalar::Sin(
            Box::new(
                Scalar::Dot(
                    seq![Scalar::Cast(ElementKind::F32, Box::new(Scalar::Index(t)))],
                    seq![Scalar::Bits(inv_freq[c - half])],
                ),
            ),
        ) by {
            lemma_in4(shape, seq![0int, 0, t, c]);
        }
    }
}

/// A position of a repetition shows a position of what is repeated.
proof fn lemma_shown(a: Seq<usize>, b: Seq<usize>, s: Seq<usize>, i: Seq<int>)
    requires
        common_shape(a, b) is Some,
        s == a || s == b,
        in_bounds(common_shape(a, b)->Some_0, i),
    ensures
        in_bounds(s, project(s, i)),
{
    let c = common_shape(a, b)->Some_0;
    let r = c.len();
    assert forall|k: int| 0 <= k < s.len() implies 0 <= #[trigger] project(s, i)[k] < s[k] by {
        let d = k + r - s.len();
        assert(0 <= i[d] < c[d]);
        assert(aligned(s, r, d) == s[k]);
        assert(aligned(a, r, d) == aligned(b, r, d) || aligned(a, r, d) == 1 || aligned(b, r, d)
            == 1);
    }
}

/// A rotation, written out, for whatever table: the first half of a head times the cosines,
/// less the second half times the sines, and behind it the second half times the cosines, plus
/// the first half times the sines. The cosines and sines are the two parts of axis 2 of the table,
/// and heads and table are repeated along axes of size one.
#[verifier::rlimit(30)]
pub proof fn law_rotation_written_out(x: ArrayView, pos: ArrayView, head_dim: usize)
    requires
        rotary_of(x, pos, head_dim) is Some,
    ensures
        ({
            let y = rotary_of(x, pos, head_dim)->Some_0;
            let half = (head_dim / 2) as int;
            let last = y.rank() - 1;
            let n = y.shape[last] as int / 2;
            let s = x.shape.update(3, half as usize);
            let cs = pos.shape.update(2, half as usize);
            let ss = pos.shape.update(2, (pos.shape[2] - half) as usize);
            let first = |i: Seq<int>| x.at(project(s, i));
            let second = |i: Seq<int>| x.at(project(s, i).update(3, project(s, i)[3] + half));
            let cos = |i: Seq<int>| pos.at(project(cs, i));
            let sin = |i: Seq<int>| pos.at(project(ss, i).update(2, project(ss, i)[2] + half));
            &&& x.rank() == 4
            &&& y.shape[last] == 2 * n
            &&& y.kind == x.kind && y.cpu == x.cpu
            &&& forall|i: Seq<int>|
                in_bounds(y.shape, i) && i[last] < n ==> #[trigger] y.at(i) == Scalar::Add(
                    Box::new(Scalar::Mul(Box::new(first(i)), Box::new(cos(i)))),
                    Box::new(
                        Scalar::Neg(Box::new(Scalar::Mul(Box::new(second(i)), Box::new(sin(i))))),
                    ),
                )
            &&& forall|i: Seq<int>|
                in_bounds(y.shape, i) && i[last] >= n ==> #[trigger] y.at(i) == ({
                    let j = i.update(last, i[last] - n);
                    Scalar::Add(
                        Box::new(Scalar::Mul(Box::new(second(j)), Box::new(cos(j)))),
                        Box::new(Scalar::Mul(Box::new(first(j)), Box::new(sin(j)))),
                    )
                })
        }),
{
    let y = rotary_of(x, pos, head_dim)->Some_0;
    let half = (head_dim / 2) as int;
    let last = y.rank() - 1;
    let s = x.shape.update(3, half as usize);
    let cs = pos.shape.update(2, half as usize);
    let ss = pos.shape.update(2, (pos.shape[2] - half) as usize);
    let cos = narrow_of(pos, 2, 0, half as usize)->Some_0;
    let sin = narrow_of(pos, 2, half, (pos.shape[2] - half) as usize)->Some_0;
    let x1 = narrow_of(x, 3, 0, half as usize)->Some_0;
    let x2 = narrow_of(x, 3, half, half as usize)->Some_0;
    let a = broadcast_product_of(x1, cos)->Some_0;
    let b = broadcast_product_of(x2, sin)->Some_0;
    let c = broadcast_product_of(x2, cos)->Some_0;
    let d = broadcast_product_of(x1, sin)->Some_0;
    let nb = neg_of(b)->Some_0;
    let u = sum_of(a, nb)->Some_0;
    let w = sum_of(c, d)->Some_0;
    assert(turned_of(x1, x2, cos, sin) == cat_of(u, w, u.rank() - 1));
    assert(u.shape == w.shape);
    let n = u.shape[last] as int;
    assert(y.shape[last] == 2 * n);
    assert forall|i: Seq<int>|
        #![trigger u.at(i)]
        #![trigger w.at(i)]
        in_bounds(u.shape, i) implies ({
        let (p, q, r) = (project(s, i), project(cs, i), project(ss, i));
        let (f, g) = (x.at(p), x.at(p.update(3, p[3] + half)));
        let (k, m) = (pos.at(q), pos.at(r.update(2, r[2] + half)));
        &&& u.at(i) == Scalar::Add(
            Box::new(Scalar::Mul(Box::new(f), Box::new(k))),
            Box::new(Scalar::Neg(Box::new(Scalar::Mul(Box::new(g), Box::new(m))))),
        )
        &&& w.at(i) == Scalar::Add(
            Box::new(Scalar::Mul(Box::new(g), Box::new(k))),
            Box::new(Scalar::Mul(Box::new(f), Box::new(m))),
        )
    }) by {
        lemma_shown(s, cs, s, i);
        lemma_shown(s, cs, cs, i);
        lemma_shown(s, ss, ss, i);
        let (p, q) = (project(s, i), project(cs, i));
        assert(p.update(3, p[3] + 0) =~= p);
        assert(q.update(2, q[2] + 0) =~= q);
    }
    assert forall|i: Seq<int>| in_bounds(y.shape, i) && i[last] < n implies in_bounds(
        u.shape,
        i,
    ) by {
        assert forall|e: int| 0 <= e < u.shape.len() implies 0 <= #[trigger] i[e] < u.shape[e] by {
            assert(0 <= i[e] < y.shape[e]);
        }
    }
    assert forall|i: Seq<int>| in_bounds(y.shape, i) && i[last] >= n implies in_bounds(
        u.shape,
        #[trigger] i.update(last, i[last] - n),
    ) by {
        let j = i.update(last, i[last] - n);
        assert forall|e: int| 0 <= e < u.shape.len() implies 0 <= #[trigger] j[e] < u.shape[e] by {
            assert(0 <= i[e] < y.shape[e]);
        }
    }
    assert forall|i: Seq<int>| in_bounds(y.shape, i) && i[last] < n implies #[trigger] y.at(i)
        == u.at(i) by {
        assert(in_bounds(u.shape, i));
    }
    assert forall|i: Seq<int>| in_bounds(y.shape, i) && i[last] >= n implies #[trigger] y.at(i)
        == w.at(i.update(last, i[last] - n)) && in_bounds(
        u.shape,
        i.update(last, i[last] - n),
    ) by {}
    assert forall|i: Seq<int>| in_bounds(y.shape, i) && i[last] >= n implies #[trigger] y.at(i)
        == ({
        let j = i.update(last, i[last] - n);
        let (p, q, r) = (project(s, j), project(cs, j), project(ss, j));
        Scalar::Add(
            Box::new(
                Scalar::Mul(
                    Box::new(x.at(p.update(3, p[3] + half))),
                    Box::new(pos.at(q)),
                ),
            ),
            Box::new(
                Scalar::Mul(
                    Box::new(x.at(p)),
                    Box::new(pos.at(r.update(2, r[2] + half))),
                ),
            ),
        )
    }) by {
        let j = i.update(last, i[last] - n);
        assert(in_bounds(u.shape, j));
        assert(y.at(i) == w.at(j));
    }
}

/// A layer with another cache differs in nothing else.
pub proof fn law_cache_replaced(l: LayerView, cache: Option<(ArrayView, ArrayView)>)
    ensures
        l.self_attn.with_cache(cache) == (AttentionView { cache, ..l.self_attn }),
        l.with_cache(cache) == (LayerView {
            self_attn: AttentionView { cache, ..l.self_attn },
            ..l
        }),
{
}

/// The cache of a layer gets the keys and values of the rows once these are normalized by the
/// first normalization.
pub proof fn law_layer_cache_written_out(
    l: LayerView,
    x: ArrayView,
    packed: bool,
    pos: ArrayView,
)
    ensures
        layer_cache_after(l, x, packed, pos) == match norm_of(l.input_layernorm, x, packed) {
            None => None,
            Some(n) => cache_after(l.self_attn, n, pos),
        },
{
    reveal(layer_cache_after);
}

/// On the CPU the keys and values of rows are sure to get into the cache where they go with it,
/// even where a later step fails.
pub proof fn law_cache_is_owed(l: LayerView, x: ArrayView, packed: bool, pos: ArrayView)
    requires
        x.cpu && pos.cpu,
        x.rank() == 3,
        x.count() > 0,
        x.kind is F16 || x.kind is F32,
        l.self_attn.qkv.weight.cpu,
        l.self_attn.qkv.bias->Some_0.cpu,
        l.self_attn.cache matches Some((k, v)) ==> k.cpu && v.cpu,
        l.input_layernorm.weight.cpu && l.input_layernorm.weight_packed,
        l.input_layernorm.bias->Some_0.cpu && l.input_layernorm.bias_packed,
        l.input_layernorm.weight.kind == x.kind,
        l.input_layernorm.bias->Some_0.kind == x.kind,
        l.input_layernorm.weight.shape == seq![x.shape[2]],
    ensures
        cache_sure(l.self_attn, x, pos),
        layer_cache_sure(l, x, packed, pos),
{
    reveal(layer_cache_sure);
    if norm_of(l.input_layernorm, x, packed) is Some && !packed {
        lemma_common_rows(x.shape);
    }
}

/// The queries, keys and values of rows come from the image of the rows under the first map of
/// the layer, whatever the table of rotations: the heads `q` of the queries are turned, the heads
/// `k` of the keys behind them are turned, and the heads of the values behind these are taken as
/// they are.
pub proof fn law_projection_turns_heads(a: AttentionView, x: ArrayView, pos: ArrayView) -> (r: (
    ArrayView,
    ArrayView,
    ArrayView,
))
    requires
        x.rank() == 3,
        x.shape[2] + 2 * (a.kv_heads * a.head_dim) <= usize::MAX,
        projected_of(a, x, pos) is Some,
    ensures
        ({
            let (p, q, k) = r;
            let (d, w) = (a.head_dim as int, x.shape[2] as int);
            let kv = a.kv_heads * a.head_dim;
            let (turned_q, turned_k, v) = projected_of(a, x, pos)->Some_0;
            &&& dense_of(a.qkv, x) == Some(p)
            &&& rotary_of(q, pos, a.head_dim) == Some(turned_q)
            &&& rotary_of(k, pos, a.head_dim) == Some(turned_k)
            &&& q.shape == seq![x.shape[0], a.heads, x.shape[1], a.head_dim]
            &&& k.shape == seq![x.shape[0], a.kv_heads, x.shape[1], a.head_dim]
            &&& v.shape == k.shape
            &&& forall|b: int, h: int, t: int, c: int|
                0 <= b < x.shape[0] && 0 <= h < a.heads && 0 <= t < x.shape[1] && 0 <= c < d
                    ==> #[trigger] q.at4(b, h, t, c) == p.at(seq![b, t, h * d + c])
            &&& forall|b: int, h: int, t: int, c: int|
                0 <= b < x.shape[0] && 0 <= h < a.kv_heads && 0 <= t < x.shape[1] && 0 <= c < d
                    ==> #[trigger] k.at4(b, h, t, c) == p.at(seq![b, t, w + h * d + c])
            &&& forall|b: int, h: int, t: int, c: int|
                0 <= b < x.shape[0] && 0 <= h < a.kv_heads && 0 <= t < x.shape[1] && 0 <= c < d
                    ==> #[trigger] v.at4(b, h, t, c) == p.at(seq![b, t, w + kv + h * d + c])
        }),
{
    reveal(projected_of);
    let (kh, d) = (a.kv_heads as int, a.head_dim as int);
    assert(kh * d >= 0) by (nonlinear_arith)
        requires
            kh >= 0,
            d >= 0,
    ;
    let kv = a.kv_width() as usize;
    let w = x.shape[2];
    let p = dense_of(a.qkv, x)->Some_0;
    law_heads_written_out(p, 0, w, a.heads, a.head_dim);
    law_heads_written_out(p, w, kv, a.kv_heads, a.head_dim);
    law_heads_written_out(p, (w + kv) as usize, kv, a.kv_heads, a.head_dim);
    let q = heads_of(p, 0, w, a.heads, a.head_dim)->Some_0;
    let k = heads_of(p, w, kv, a.kv_heads, a.head_dim)->Some_0;
    (p, q, k)
}

/// Attention goes through these steps, whatever the operands: the keys and values are repeated
/// for the query heads that share them, queries are multiplied by keys and scaled, the mask is
/// added if there is one, the softmax of the scores weighs the values, and the heads, put side by
/// side, are mapped by the second map of the layer.
pub proof fn law_attention_in_steps(
    a: AttentionView,
    x: ArrayView,
    pos: ArrayView,
    mask: Option<ArrayView>,
)
    requires
        attention_of(a, x, pos, mask) is Some,
        a.kv_heads > 0,
    ensures
        ({
            let n = (a.heads as int / a.kv_heads as int) as usize;
            let (q, _, _) = projected_of(a, x, pos)->Some_0;
            let (k, v) = cache_after(a, x, pos)->Some_0;
            let (kr, vr) = (repeat_of(k, n)->Some_0, repeat_of(v, n)->Some_0);
            let kt = transpose_of(kr, kr.rank() - 2, kr.rank() - 1)->Some_0;
            let products = matmul_of(q, kt)->Some_0;
            let scaled = scaled_of(products, a.scale)->Some_0;
            let scores = match mask {
                None => scaled,
                Some(f) => broadcast_sum_of(
                    scaled,
                    expand_of(f, scaled.shape)->Some_0,
                )->Some_0,
            };
            let averages = matmul_of(softmax_of(scores)->Some_0, vr)->Some_0;
            let rows = merged_of(averages, x.shape[0], x.shape[1], a.hidden);
            &&& projected_of(a, x, pos) is Some
            &&& cache_after(a, x, pos) is Some
            &&& rows is Some
            &&& attention_of(a, x, pos, mask) == dense_of(a.o, rows->Some_0)
        }),
{
}

} // verus!
