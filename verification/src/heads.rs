//! The axes of attention: heads, repeated heads, and the mask of the future.

use vstd::prelude::*;
use crate::array::{
    blames, first_why, narrow_why, refuses, single_array, unless_addressable, yields, Array,
};
use crate::error::ModelError;
use crate::shape::{
    addressable, at_least_one, fits, in_bounds, lemma_offset3, lemma_offset4, lemma_offset5,
    lemma_unravel_offset, numel, offset, packed,
};
use crate::view::{
    expand_of, narrow_of, reshape_of, swapped, tabulate, transpose_of, unsqueeze_of, ArrayView,
    ElementKind, Scalar,
};

verus! {

/// `width` numbers of each row of `a`, from `start` on, as `heads` blocks of `dim`
/// numbers: position `(b, h, t, c)` holds number `h * dim + c` of row `(b, t)`.
pub open spec fn heads_of(
    a: ArrayView,
    start: usize,
    width: usize,
    heads: usize,
    dim: usize,
) -> Option<ArrayView> {
    let b = a.shape[0];
    let t = a.shape[1];
    if a.rank() == 3 && start + width <= a.shape[2] && numel(seq![b, t, width]) == numel(
        seq![b, t, heads, dim],
    ) && addressable(seq![b, t, heads, dim]) {
        Some(
            tabulate(
                seq![b, heads, t, dim],
                a.kind,
                a.cpu,
                |i: Seq<int>| a.at(seq![i[0], i[2], start + i[1] * dim + i[3]]),
            ),
        )
    } else {
        None
    }
}

/// The reason to refuse to cut `width` numbers of each row of `a` into heads.
pub open spec fn heads_why(
    a: ArrayView,
    start: usize,
    width: usize,
    heads: usize,
    dim: usize,
) -> Option<ModelError> {
    first_why(
        narrow_why(start, width),
        narrow_of(a, 2, start as int, width),
        |x: ArrayView| unless_addressable(seq![a.shape[0], a.shape[1], heads, dim]),
    )
}

/// The blocks side by side again: number `h * dim + c` of row `(b, t)` is the one at
/// `(b, h, t, c)`. The target may be cut differently, as long as it has as many
/// elements.
pub open spec fn merged_of(a: ArrayView, b: usize, t: usize, width: usize) -> Option<ArrayView> {
    match transpose_of(a, 1, 2) {
        None => None,
        Some(x) => reshape_of(x, seq![b, t, width]),
    }
}

/// The reason to refuse to put the blocks side by side.
pub open spec fn merged_why(a: ArrayView, b: usize, t: usize, width: usize) -> Option<ModelError> {
    first_why(
        None,
        transpose_of(a, 1, 2),
        |x: ArrayView| unless_addressable(seq![b, t, width]),
    )
}

/// The reason to refuse to repeat blocks.
pub open spec fn repeat_why(a: ArrayView, n: usize) -> Option<ModelError> {
    if n == 1 {
        None
    } else if a.rank() != 4 {
        Some(ModelError::Rank)
    } else {
        unless_addressable(seq![a.shape[0], a.shape[1], n, a.shape[2], a.shape[3]])
    }
}

/// Each of the blocks along axis 1 of `a`, `n` times in a row.
pub open spec fn repeat_of(a: ArrayView, n: usize) -> Option<ArrayView> {
    if n == 1 {
        Some(a)
    } else if a.rank() == 4 && addressable(seq![a.shape[0], a.shape[1], n, a.shape[2], a.shape[3]]) {
        Some(
            tabulate(
                seq![a.shape[0], (a.shape[1] * n) as usize, a.shape[2], a.shape[3]],
                a.kind,
                a.cpu,
                |i: Seq<int>| a.at(seq![i[0], i[1] / (n as int), i[2], i[3]]),
            ),
        )
    } else {
        None
    }
}

/// The bits of negative infinity in single precision.
pub const NEG_INFINITY: u32 = 0xff80_0000;

/// What is added to the attention that position `i[0]` pays to position `i[1]`:
/// nothing, or negative infinity where `i[1]` comes later.
pub open spec fn mask_of(n: usize, cpu: bool) -> Option<ArrayView> {
    if addressable(seq![n, n]) {
        Some(
            tabulate(
                seq![n, n],
                ElementKind::F32,
                cpu,
                |i: Seq<int>|
                    Scalar::Bits(
                        if i[1] <= i[0] {
                            0
                        } else {
                            NEG_INFINITY
                        },
                    ),
            ),
        )
    } else {
        None
    }
}

proof fn lemma_split(a: ArrayView, start: usize, width: usize, heads: usize, dim: usize)
    requires
        heads_of(a, start, width, heads, dim) is Some,
    ensures
        ({
            let x = narrow_of(a, 2, start as int, width);
            let y = reshape_of(x->Some_0, seq![a.shape[0], a.shape[1], heads, dim]);
            let z = transpose_of(y->Some_0, 1, 2);
            &&& x is Some
            &&& y is Some
            &&& z is Some
            &&& heads_of(a, start, width, heads, dim) == z
        }),
{
    let b = a.shape[0];
    let t = a.shape[1];
    let s3 = seq![b, t, width];
    let s4 = seq![b, t, heads, dim];
    let x = narrow_of(a, 2, start as int, width)->Some_0;
    assert(x.shape =~= s3);
    let y = reshape_of(x, s4)->Some_0;
    let z = transpose_of(y, 1, 2)->Some_0;
    let out = heads_of(a, start, width, heads, dim)->Some_0;
    assert(z.shape =~= out.shape);
    assert forall|i: Seq<int>| in_bounds(out.shape, i) implies #[trigger] z.elems[i]
        == out.elems[i] by {
        assert(0 <= i[0] < b && 0 <= i[1] < heads && 0 <= i[2] < t && 0 <= i[3] < dim);
        let j = swapped(i, 1, 2);
        assert(j =~= seq![i[0], i[2], i[1], i[3]]);
        assert(in_bounds(s4, j)) by {
            assert forall|d: int| 0 <= d < 4 implies 0 <= #[trigger] j[d] < s4[d] by {
                if d == 0 {
                } else if d == 1 {
                } else if d == 2 {
                } else {
                }
            }
        }
        let c = i[1] * dim + i[3];
        let k = seq![i[0], i[2], c];
        lemma_offset3(s3, k);
        lemma_offset4(s4, j);
        let (bb, tt, ww, hh, dd) = (b as int, t as int, width as int, heads as int, dim as int);
        assert(ww == hh * dd) by (nonlinear_arith)
            requires
                bb * tt * ww == bb * tt * hh * dd,
                bb > 0,
                tt > 0,
        ;
        let (i0, i1, i2, i3) = (i[0], i[1], i[2], i[3]);
        assert(0 <= c && c < ww) by (nonlinear_arith)
            requires
                c == i1 * dd + i3,
                0 <= i1 < hh,
                0 <= i3 < dd,
                ww == hh * dd,
        ;
        assert((i0 * tt + i2) * ww + c == ((i0 * tt + i2) * hh + i1) * dd + i3) by (nonlinear_arith)
            requires
                ww == hh * dd,
                c == i1 * dd + i3,
        ;
        assert(in_bounds(s3, k)) by {
            assert forall|d: int| 0 <= d < 3 implies 0 <= #[trigger] k[d] < s3[d] by {
                if d == 0 {
                } else if d == 1 {
                } else {
                }
            }
        }
        lemma_unravel_offset(s3, k);
        assert(k.update(2, k[2] + start) =~= seq![i[0], i[2], start + i[1] * dim + i[3]]);
    }
    assert(z.elems =~= out.elems);
    assert(z =~= out);
}

/// `width` numbers of each row of `a`, from `start` on, as `heads` blocks of `dim`
/// numbers.
pub fn split_heads(a: &Array, start: usize, width: usize, heads: usize, dim: usize) -> (r: Result<
    Array,
    ModelError,
>)
    requires
        a@.rank() == 3,
    ensures
        yields(r, heads_of(a@, start, width, heads, dim), a@.cpu),
        blames(r, heads_why(a@, start, width, heads, dim)),
        r matches Ok(y) ==> (a@.shape[1] == 1 ==> y.packed()),
{
    let d = a.dims();
    proof {
        let b = a@.shape[0];
        let t = a@.shape[1];
        if heads_of(a@, start, width, heads, dim) is Some {
            lemma_split(a@, start, width, heads, dim);
        } else if start + width <= a@.shape[2] {
            let x = narrow_of(a@, 2, start as int, width)->Some_0;
            assert(x.shape =~= seq![b, t, width]);
        }
    }
    let x = a.narrow(2, start, width)?;
    let shape: Vec<usize> = vec![d[0], d[1], heads, dim];
    proof {
        assert(shape@ =~= seq![a@.shape[0], a@.shape[1], heads, dim]);
    }
    let y = x.reshape(&shape)?;
    proof {
        if d[1] == 1 {
            lemma_turned_packed(d[0], heads, dim, y.strides());
        }
    }
    y.transpose(1, 2)
}

/// To exchange an axis of size one with another leaves the elements side by side.
proof fn lemma_turned_packed(b: usize, h: usize, d: usize, strides: Seq<usize>)
    requires
        packed(seq![b, 1usize, h, d], strides),
    ensures
        packed(swapped(seq![b, 1usize, h, d], 1, 2), swapped(strides, 1, 2)),
{
    let s = seq![b, 1usize, h, d];
    let t = swapped(s, 1, 2);
    assert(t =~= seq![b, h, 1usize, d]);
    let u = swapped(strides, 1, 2);
    assert forall|i: int| 0 <= i < 4 && t[i] > 1 implies #[trigger] u[i] == numel(
        t.subrange(i + 1, 4),
    ) by {
        let (x, y) = (s.subrange(1, 4), t.subrange(1, 4));
        assert(x =~= seq![1usize, h, d]);
        assert(y =~= seq![h, 1usize, d]);
        assert(s.subrange(3, 4) =~= seq![d]);
        assert(t.subrange(2, 4) =~= seq![1usize, d]);
        assert(s.subrange(4, 4) =~= t.subrange(4, 4));
        lemma_offset3(x, seq![0int, 0, 0]);
        lemma_offset3(y, seq![0int, 0, 0]);
        reveal_with_fuel(numel, 4);
        let (ih, id) = (h as int, d as int);
        assert(1 * ih * id == ih * 1 * id) by (nonlinear_arith);
        assert(seq![d].drop_last() =~= Seq::<usize>::empty());
        assert(seq![1usize, d].drop_last() =~= seq![1usize]);
        assert(seq![1usize].drop_last() =~= Seq::<usize>::empty());
        assert(strides[i] == strides[i]);
        if i == 0 {
            assert(strides[0] == numel(s.subrange(1, 4)));
        } else if i == 1 {
            assert(strides[2] == numel(s.subrange(3, 4)));
        } else {
            assert(i == 3);
            assert(strides[3] == numel(s.subrange(4, 4)));
        }
    }
}

/// The blocks of `a` side by side again, as rows of `width` numbers.
pub fn merge_heads(a: &Array, b: usize, t: usize, width: usize) -> (r: Result<Array, ModelError>)
    ensures
        yields(r, merged_of(a@, b, t, width), a@.cpu),
        blames(r, merged_why(a@, b, t, width)),
{
    let x = a.transpose(1, 2)?;
    let shape: Vec<usize> = vec![b, t, width];
    proof {
        assert(shape@ =~= seq![b, t, width]);
    }
    x.reshape(&shape)
}

proof fn lemma_repeat(a: ArrayView, n: usize)
    requires
        n != 1,
        repeat_of(a, n) is Some,
    ensures
        ({
            let x = unsqueeze_of(a, 2);
            let y = expand_of(
                x->Some_0,
                seq![a.shape[0], a.shape[1], n, a.shape[2], a.shape[3]],
            );
            let z = reshape_of(
                y->Some_0,
                seq![a.shape[0], (a.shape[1] * n) as usize, a.shape[2], a.shape[3]],
            );
            &&& a.shape[1] * n <= usize::MAX
            &&& x is Some
            &&& y is Some
            &&& z is Some
            &&& repeat_of(a, n) == z
        }),
{
    let (b, h, t, d) = (a.shape[0], a.shape[1], a.shape[2], a.shape[3]);
    let s5 = seq![b, h, n, t, d];
    let zero5 = seq![0int, 0, 0, 0, 0];
    lemma_offset5(s5, zero5);
    let (pb, ph, pn, pt, pd) = (
        at_least_one(b) as int,
        at_least_one(h) as int,
        at_least_one(n) as int,
        at_least_one(t) as int,
        at_least_one(d) as int,
    );
    let (ih, inn) = (h as int, n as int);
    assert(ih * inn <= ph * pn && ph * pn <= pb * ph * pn * pt * pd) by (nonlinear_arith)
        requires
            0 <= ih <= ph,
            0 <= inn <= pn,
            pb >= 1,
            ph >= 1,
            pn >= 1,
            pt >= 1,
            pd >= 1,
    ;
    let hn = (h * n) as usize;
    assert(hn == h * n);
    let s4 = seq![b, hn, t, d];
    lemma_offset4(s4, seq![0int, 0, 0, 0]);
    let phn = at_least_one(hn) as int;
    assert(phn <= ph * pn) by (nonlinear_arith)
        requires
            phn == 1 || phn == ih * inn,
            ih <= ph,
            inn <= pn,
            0 <= ih,
            0 <= inn,
            ph >= 1,
            pn >= 1,
    ;
    assert(pb * phn * pt * pd <= pb * ph * pn * pt * pd) by (nonlinear_arith)
        requires
            phn <= ph * pn,
            pb >= 1,
            phn >= 1,
            pt >= 1,
            pd >= 1,
    ;
    let x = unsqueeze_of(a, 2)->Some_0;
    assert(x.shape =~= seq![b, h, 1usize, t, d]);
    let y = expand_of(x, s5)->Some_0;
    assert(expand_of(x, s5) is Some);
    assert(numel(s5) == numel(s4)) by {
        let (ib, it, id) = (b as int, t as int, d as int);
        assert(ib * ih * inn * it * id == ib * (ih * inn) * it * id) by (nonlinear_arith);
    }
    let z = reshape_of(y, s4)->Some_0;
    let out = repeat_of(a, n)->Some_0;
    assert(z.shape =~= out.shape);
    assert forall|i: Seq<int>| in_bounds(out.shape, i) implies #[trigger] z.elems[i]
        == out.elems[i] by {
        assert(0 <= i[0] < b && 0 <= i[1] < hn && 0 <= i[2] < t && 0 <= i[3] < d);
        let (i0, i1, i2, i3) = (i[0], i[1], i[2], i[3]);
        assert(inn > 0) by (nonlinear_arith)
            requires
                0 <= i1 < ih * inn,
                inn >= 0,
        ;
        vstd::arithmetic::div_mod::lemma_fundamental_div_mod(i1, inn);
        vstd::arithmetic::div_mod::lemma_mod_bound(i1, inn);
        let (q, r) = (i1 / inn, i1 % inn);
        assert(0 <= q < ih) by (nonlinear_arith)
            requires
                i1 == inn * q + r,
                0 <= r < inn,
                0 <= i1 < ih * inn,
        ;
        let j = seq![i0, q, r, i2, i3];
        lemma_offset4(s4, i);
        lemma_offset5(s5, j);
        let (it, id) = (t as int, d as int);
        assert((i0 * ih + q) * inn + r == i0 * (ih * inn) + i1) by (nonlinear_arith)
            requires
                i1 == inn * q + r,
        ;
        assert(in_bounds(s5, j)) by {
            assert forall|e: int| 0 <= e < 5 implies 0 <= #[trigger] j[e] < s5[e] by {
                if e == 0 {
                } else if e == 1 {
                } else if e == 2 {
                } else if e == 3 {
                } else {
                }
            }
        }
        lemma_unravel_offset(s5, j);
        let k = crate::shape::project(x.shape, j);
        assert(k.len() == 5);
        assert(k.remove(2) =~= seq![i0, q, i2, i3]) by {
            assert(k[0] == i0);
            assert(k[1] == q);
            assert(k[3] == i2);
            assert(k[4] == i3);
        }
        assert(in_bounds(x.shape, k)) by {
            assert forall|e: int| 0 <= e < 5 implies 0 <= #[trigger] k[e] < x.shape[e] by {
                if e == 0 {
                } else if e == 1 {
                } else if e == 2 {
                } else if e == 3 {
                } else {
                }
            }
        }
    }
    assert(z.elems =~= out.elems);
    assert(z =~= out);
}

/// Each of the blocks along axis 1, `n_rep` times in a row.
pub fn repeat_kv(xs: Array, n_rep: usize) -> (r: Result<Array, ModelError>)
    ensures
        yields(r, repeat_of(xs@, n_rep), xs@.cpu || n_rep == 1),
        blames(r, repeat_why(xs@, n_rep)),
        r matches Ok(y) ==> if n_rep == 1 {
            y.strides() == xs.strides()
        } else {
            y.packed()
        },
{
    if n_rep == 1 {
        return Ok(xs);
    }
    let (b, h, t, d) = xs.dims4()?;
    let shape: Vec<usize> = vec![b, h, n_rep, t, d];
    proof {
        assert(shape@ =~= seq![b, h, n_rep, t, d]);
        if repeat_of(xs@, n_rep) is Some {
            lemma_repeat(xs@, n_rep);
        }
    }
    let xs1 = xs.unsqueeze(2)?;
    let xs2 = xs1.expand(&shape)?;
    assert(repeat_of(xs@, n_rep) is Some);
    let target: Vec<usize> = vec![b, h * n_rep, t, d];
    proof {
        assert(target@ =~= seq![b, (h * n_rep) as usize, t, d]);
    }
    xs2.reshape(&target)
}

/// The rank of column `q` of row `p` among rows of `n` entries.
pub open spec fn flat(p: int, n: int, q: int) -> int {
    p * n + q
}

/// Whether `bits` is the beginning of a mask with rows of `n` entries.
pub open spec fn masks(bits: Seq<u32>, n: int) -> bool {
    forall|p: int, q: int|
        0 <= p && 0 <= q < n && #[trigger] flat(p, n, q) < bits.len() ==> bits[flat(p, n, q)] == (
        if q <= p {
            0u32
        } else {
            NEG_INFINITY
        })
}

/// The mask that keeps each of `n` positions from attending to later ones, on the
/// device of `like`.
pub fn causal_mask(n: usize, like: &Array) -> (r: Result<Array, ModelError>)
    ensures
        yields(r, mask_of(n, like@.cpu), like@.cpu),
        refuses(r, unless_addressable(seq![n, n])),
{
    let shape: Vec<usize> = vec![n, n];
    proof {
        assert(shape@ =~= seq![n, n]);
    }
    if !fits(&shape) {
        return Err(ModelError::TooLarge);
    }
    let mut bits: Vec<u32> = Vec::new();
    let mut i: usize = 0;
    while i < n
        invariant
            i <= n,
            bits@.len() == flat(i as int, n as int, 0),
            masks(bits@, n as int),
        decreases n - i,
    {
        let mut j: usize = 0;
        while j < n
            invariant
                i < n,
                j <= n,
                bits@.len() == flat(i as int, n as int, j as int),
                masks(bits@, n as int),
            decreases n - j,
        {
            proof {
                let (ii, jj, nn) = (i as int, j as int, n as int);
                assert forall|p: int, q: int|
                    0 <= p && 0 <= q < n && #[trigger] flat(p, nn, q) == flat(ii, nn, jj) implies p
                    == i && q == j by {
                    assert(p == ii && q == jj) by (nonlinear_arith)
                        requires
                            p * nn + q == ii * nn + jj,
                            0 <= q < nn,
                            0 <= jj < nn,
                            nn > 0,
                    ;
                }
            }
            bits.push(
                if j <= i {
                    0
                } else {
                    NEG_INFINITY
                },
            );
            j = j + 1;
        }
        proof {
            let (ii, nn) = (i as int, n as int);
            assert(ii * nn + nn == (ii + 1) * nn) by (nonlinear_arith);
        }
        i = i + 1;
    }
    proof {
        assert(numel(seq![n, n]) == n * n) by {
            reveal_with_fuel(numel, 3);
        }
        let a = single_array(bits@, shape@, like@.cpu);
        let m = mask_of(n, like@.cpu)->Some_0;
        assert forall|k: Seq<int>| in_bounds(shape@, k) implies #[trigger] a.elems[k]
            == m.elems[k] by {
            assert(0 <= k[0] < n && 0 <= k[1] < n);
            assert(offset(shape@, k) == flat(k[0], n as int, k[1])) by {
                reveal_with_fuel(offset, 3);
            }
            let (k0, k1, nn) = (k[0], k[1], n as int);
            assert(k0 * nn + k1 < nn * nn) by (nonlinear_arith)
                requires
                    0 <= k0 < nn,
                    0 <= k1 < nn,
            ;
        }
        assert(a.elems =~= m.elems);
        assert(a =~= m);
    }
    Array::from_bits(&bits, &shape, like)
}

} // verus!
