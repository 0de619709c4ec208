//! Rotary position embeddings.

use vstd::prelude::*;
use crate::array::{
    blames, cat_why, counting_array, first_why, single_array, unless_meeting, yields, Array,
};
use crate::error::ModelError;
use crate::shape::{
    addressable, at_least_one, in_bounds, lemma_offset1, lemma_offset2, lemma_offset4,
    lemma_unravel_offset, numel, project,
};
use crate::view::{
    batch, broadcast_product_of, cast_of, cat_of, each_of, expand_of, matmul_of, matmul_shape,
    narrow_of, neg_of, reshape_of, same_rank, sum_of, tabulate, unsqueeze_of, ArrayView,
    ElementKind, Scalar,
};

verus! {

/// The angle of frequency `c` at position `t`.
pub open spec fn angle_of(inv_freq: Seq<u32>, t: int, c: int) -> Scalar {
    Scalar::Dot(
        seq![Scalar::Cast(ElementKind::F32, Box::new(Scalar::Index(t)))],
        seq![Scalar::Bits(inv_freq[c])],
    )
}

/// The table of rotations: for each position the cosines of its angles, followed by
/// their sines.
pub open spec fn rotary_table_of(
    max_seq_len: usize,
    head_dim: usize,
    inv_freq: Seq<u32>,
) -> Option<ArrayView> {
    let half = head_dim / 2;
    let shape = seq![1usize, 1usize, max_seq_len, (2 * half) as usize];
    if half > 0 && inv_freq.len() == half && max_seq_len <= u32::MAX && addressable(shape) {
        Some(
            tabulate(
                shape,
                ElementKind::F32,
                true,
                |i: Seq<int>|
                    if i[3] < half {
                        Scalar::Cos(Box::new(angle_of(inv_freq, i[2], i[3])))
                    } else {
                        Scalar::Sin(Box::new(angle_of(inv_freq, i[2], i[3] - half)))
                    },
            ),
        )
    } else {
        None
    }
}

/// Whether there is a reason to refuse a table of rotations by `e`: there is no frequency, or
/// there is another reason why there is no such table.
pub open spec fn table_refused(
    e: ModelError,
    max_seq_len: usize,
    head_dim: usize,
    inv_freq: Seq<u32>,
) -> bool {
    if inv_freq.len() == 0 {
        e == ModelError::EmptyArray
    } else {
        rotary_table_of(max_seq_len, head_dim, inv_freq) is None && (e is Tensor || e
            == ModelError::TooLarge)
    }
}

/// The halves `x1` and `x2` turned by the angles whose cosines and sines are given.
pub open spec fn turned_of(
    x1: ArrayView,
    x2: ArrayView,
    cos: ArrayView,
    sin: ArrayView,
) -> Option<ArrayView> {
    match (
        broadcast_product_of(x1, cos),
        broadcast_product_of(x2, sin),
        broadcast_product_of(x2, cos),
        broadcast_product_of(x1, sin),
    ) {
        (Some(a), Some(b), Some(c), Some(d)) => match neg_of(b) {
            Some(nb) => match (sum_of(a, nb), sum_of(c, d)) {
                (Some(u), Some(v)) => cat_of(u, v, u.rank() - 1),
                _ => None,
            },
            None => None,
        },
        _ => None,
    }
}

/// The reason to refuse to turn the halves `x1` and `x2`.
pub open spec fn turned_why(
    x1: ArrayView,
    x2: ArrayView,
    cos: ArrayView,
    sin: ArrayView,
) -> Option<ModelError> {
    first_why(
        unless_meeting(x1, cos),
        broadcast_product_of(x1, cos),
        |a: ArrayView|
            first_why(
                unless_meeting(x2, sin),
                broadcast_product_of(x2, sin),
                |b: ArrayView|
                    match neg_of(b) {
                        None => None,
                        Some(nb) => first_why(
                            None,
                            sum_of(a, nb),
                            |u: ArrayView| cat_why(u, u, u.rank() - 1),
                        ),
                    },
            ),
    )
}

/// The reason to refuse to turn `x` by the table `pos`.
pub open spec fn rotary_why(x: ArrayView, pos: ArrayView, head_dim: usize) -> Option<ModelError> {
    let half = (head_dim / 2) as int;
    if x.rank() != 4 || pos.rank() < 3 || half > pos.shape[2] {
        Some(ModelError::Rank)
    } else {
        match (
            narrow_of(pos, 2, 0, half as usize),
            narrow_of(pos, 2, half, (pos.shape[2] - half) as usize),
            narrow_of(x, 3, 0, half as usize),
            narrow_of(x, 3, half, half as usize),
        ) {
            (Some(cos), Some(sin), Some(x1), Some(x2)) => turned_why(x1, x2, cos, sin),
            _ => None,
        }
    }
}

/// `x` turned by the table `pos`, whose axis 2 is cut into cosines and sines.
pub open spec fn rotary_of(x: ArrayView, pos: ArrayView, head_dim: usize) -> Option<ArrayView> {
    let half = (head_dim / 2) as int;
    if x.rank() != 4 || pos.rank() < 3 || half > pos.shape[2] {
        None
    } else {
        match (
            narrow_of(pos, 2, 0, half as usize),
            narrow_of(pos, 2, half, (pos.shape[2] - half) as usize),
            narrow_of(x, 3, 0, half as usize),
            narrow_of(x, 3, half, half as usize),
        ) {
            (Some(cos), Some(sin), Some(x1), Some(x2)) => turned_of(x1, x2, cos, sin),
            _ => None,
        }
    }
}

/// `xs` turned by the table `pos`.
pub fn apply_rotary_emb(xs: &Array, pos: &Array, head_dim: usize) -> (r: Result<Array, ModelError>)
    ensures
        yields(r, rotary_of(xs@, pos@, head_dim), xs@.cpu && pos@.cpu),
        blames(r, rotary_why(xs@, pos@, head_dim)),
        r matches Ok(y) ==> (y@.count() > 0 ==> y.packed()),
{
    let (_b, _h, _t, _d) = xs.dims4()?;
    let table = pos.dims();
    let half: usize = head_dim / 2;
    if table.len() < 3 || half > table[2] {
        return Err(ModelError::Rank);
    }
    let cos = pos.narrow(2, 0, half)?;
    let sin = pos.narrow(2, half, table[2] - half)?;
    let x1 = xs.narrow(3, 0, half)?;
    let x2 = xs.narrow(3, half, half)?;
    let x1_cos = x1.broadcast_mul(&cos)?;
    let x2_sin = x2.broadcast_mul(&sin)?;
    let x1p = x1_cos.plus(&x2_sin.neg()?)?;
    let x2_cos = x2.broadcast_mul(&cos)?;
    let x1_sin = x1.broadcast_mul(&sin)?;
    let x2p = x2_cos.plus(&x1_sin)?;
    let rank: usize = x1p.dims().len();
    proof {
        assert(rank >= 4);
        assert(x1p@.shape == x2p@.shape);
        let last = x1p@.shape.last();
        let s = x1p@.shape.update(rank - 1, (last + last) as usize);
        assert(s.drop_last() =~= x1p@.shape.drop_last());
        if last + last <= usize::MAX && x1p@.count() == 0 {
            assert(numel(s) == 0) by (nonlinear_arith)
                requires
                    numel(s) == numel(s.drop_last()) * s.last(),
                    0 == numel(s.drop_last()) * last,
                    s.last() == last + last,
            ;
        }
    }
    x1p.cat(&x2p, rank - 1)
}

proof fn lemma_column(max: usize)
    requires
        max <= u32::MAX,
    ensures
        ({
            let t = cast_of(counting_array(max as u32), ElementKind::F32);
            let col = reshape_of(t, seq![max, 1usize]);
            col == Some(
                tabulate(
                    seq![max, 1usize],
                    ElementKind::F32,
                    true,
                    |i: Seq<int>| Scalar::Cast(ElementKind::F32, Box::new(Scalar::Index(i[0]))),
                ),
            )
        }),
{
    let s1 = seq![max];
    let s2 = seq![max, 1usize];
    let t = cast_of(counting_array(max as u32), ElementKind::F32);
    assert(t.shape =~= s1);
    lemma_offset1(s1, seq![0int]);
    lemma_offset2(s2, seq![0int, 0]);
    let col = reshape_of(t, s2)->Some_0;
    let out = tabulate(
        s2,
        ElementKind::F32,
        true,
        |i: Seq<int>| Scalar::Cast(ElementKind::F32, Box::new(Scalar::Index(i[0]))),
    );
    assert forall|i: Seq<int>| in_bounds(s2, i) implies #[trigger] col.elems[i] == out.elems[i] by {
        assert(0 <= i[0] < max && 0 <= i[1] < 1);
        let j = seq![i[0]];
        assert(in_bounds(s1, j));
        lemma_offset1(s1, j);
        lemma_offset2(s2, i);
        lemma_unravel_offset(s1, j);
    }
    assert(col.elems =~= out.elems);
    assert(col =~= out);
}

proof fn lemma_row(inv_freq: Seq<u32>, half: usize)
    requires
        inv_freq.len() == half,
    ensures
        ({
            let f = single_array(inv_freq, seq![half], true);
            let row = reshape_of(f, seq![1usize, half]);
            row == Some(
                tabulate(
                    seq![1usize, half],
                    ElementKind::F32,
                    true,
                    |i: Seq<int>| Scalar::Bits(inv_freq[i[1]]),
                ),
            )
        }),
{
    let s1 = seq![half];
    let s2 = seq![1usize, half];
    let f = single_array(inv_freq, s1, true);
    lemma_offset1(s1, seq![0int]);
    lemma_offset2(s2, seq![0int, 0]);
    let (h, g) = (half as int, at_least_one(half) as int);
    assert(1 * h == h && 1 * g == g) by (nonlinear_arith);
    let row = reshape_of(f, s2)->Some_0;
    let out = tabulate(
        s2,
        ElementKind::F32,
        true,
        |i: Seq<int>| Scalar::Bits(inv_freq[i[1]]),
    );
    assert forall|i: Seq<int>| in_bounds(s2, i) implies #[trigger] row.elems[i] == out.elems[i] by {
        assert(0 <= i[0] < 1 && 0 <= i[1] < half);
        let j = seq![i[1]];
        assert(in_bounds(s1, j));
        lemma_offset1(s1, j);
        lemma_offset2(s2, i);
        assert(i[0] * half == 0) by (nonlinear_arith)
            requires
                i[0] == 0,
        ;
        lemma_unravel_offset(s1, j);
    }
    assert(row.elems =~= out.elems);
    assert(row =~= out);
}

/// The angles of all positions and frequencies.
spec fn angles(max: usize, half: usize, inv_freq: Seq<u32>) -> ArrayView {
    tabulate(
        seq![max, half],
        ElementKind::F32,
        true,
        |i: Seq<int>| angle_of(inv_freq, i[0], i[1]),
    )
}

proof fn lemma_angles(max: usize, half: usize, inv_freq: Seq<u32>)
    requires
        addressable(seq![max, half]),
    ensures
        ({
            let col = tabulate(
                seq![max, 1usize],
                ElementKind::F32,
                true,
                |i: Seq<int>| Scalar::Cast(ElementKind::F32, Box::new(Scalar::Index(i[0]))),
            );
            let row = tabulate(
                seq![1usize, half],
                ElementKind::F32,
                true,
                |i: Seq<int>| Scalar::Bits(inv_freq[i[1]]),
            );
            matmul_of(col, row) == Some(angles(max, half, inv_freq))
        }),
{
    let sc = seq![max, 1usize];
    let sr = seq![1usize, half];
    let col = tabulate(
        sc,
        ElementKind::F32,
        true,
        |i: Seq<int>| Scalar::Cast(ElementKind::F32, Box::new(Scalar::Index(i[0]))),
    );
    let row = tabulate(
        sr,
        ElementKind::F32,
        true,
        |i: Seq<int>| Scalar::Bits(inv_freq[i[1]]),
    );
    let s = seq![max, half];
    assert(matmul_shape(sc, sr) =~= s);
    assert(batch(sc) =~= Seq::<usize>::empty());
    assert(batch(sr) =~= Seq::<usize>::empty());
    let m = matmul_of(col, row)->Some_0;
    let out = angles(max, half, inv_freq);
    assert forall|i: Seq<int>| in_bounds(s, i) implies #[trigger] m.elems[i] == out.elems[i] by {
        assert(0 <= i[0] < max && 0 <= i[1] < half);
        let a = Seq::new(1, |c: int| col.at(i.update(1, c)));
        let b = Seq::new(
            1,
            |c: int|
                row.at(same_rank(batch(sc), batch(sr), i.subrange(0, 0)).push(c).push(i[1])),
        );
        let bi = same_rank(batch(sc), batch(sr), i.subrange(0, 0)).push(0).push(i[1]);
        assert(bi =~= seq![0, i[1]]);
        assert(in_bounds(sr, bi));
        let ai = i.update(1, 0);
        assert(in_bounds(sc, ai));
        assert(a =~= seq![Scalar::Cast(ElementKind::F32, Box::new(Scalar::Index(i[0])))]);
        assert(b =~= seq![Scalar::Bits(inv_freq[i[1]])]);
    }
    assert(m.elems =~= out.elems);
    assert(m =~= out);
}

/// `f` of the elements of the matrix `a`, behind two axes of size one.
spec fn lifted(max: usize, half: usize, a: ArrayView, f: spec_fn(Scalar) -> Scalar) -> ArrayView {
    tabulate(
        seq![1usize, 1usize, max, half],
        ElementKind::F32,
        a.cpu,
        |i: Seq<int>| f(a.at(seq![i[2], i[3]])),
    )
}

proof fn lemma_lift(max: usize, half: usize, a: ArrayView, f: spec_fn(Scalar) -> Scalar)
    requires
        a.shape == seq![max, half],
        a.kind == ElementKind::F32,
        addressable(seq![1usize, 1usize, max, half]),
    ensures
        ({
            let x = each_of(a, f)->Some_0;
            let y = unsqueeze_of(x, 0)->Some_0;
            let z = unsqueeze_of(y, 0)->Some_0;
            expand_of(z, seq![1usize, 1usize, max, half]) == Some(lifted(max, half, a, f))
        }),
{
    let s = seq![1usize, 1usize, max, half];
    let x = each_of(a, f)->Some_0;
    let y = unsqueeze_of(x, 0)->Some_0;
    assert(y.shape =~= seq![1usize, max, half]);
    let z = unsqueeze_of(y, 0)->Some_0;
    assert(z.shape =~= s);
    let e = expand_of(z, s)->Some_0;
    let out = lifted(max, half, a, f);
    assert forall|i: Seq<int>| in_bounds(s, i) implies #[trigger] e.elems[i] == out.elems[i] by {
        assert(0 <= i[0] < 1 && 0 <= i[1] < 1 && 0 <= i[2] < max && 0 <= i[3] < half);
        let j = project(z.shape, i);
        assert(j =~= i);
        let k = i.remove(0);
        assert(k =~= seq![i[1], i[2], i[3]]);
        assert(in_bounds(y.shape, k));
        let l = k.remove(0);
        assert(l =~= seq![i[2], i[3]]);
        assert(in_bounds(x.shape, l));
    }
    assert(e.elems =~= out.elems);
    assert(e =~= out);
}

proof fn lemma_table_sizes(max: usize, half: usize)
    requires
        half > 0,
        2 * half <= usize::MAX,
        addressable(seq![1usize, 1usize, max, (2 * half) as usize]),
    ensures
        addressable(seq![1usize, 1usize, max, half]),
        addressable(seq![max, half]),
{
    let s = seq![1usize, 1usize, max, (2 * half) as usize];
    let t = seq![1usize, 1usize, max, half];
    let zero = seq![0int, 0, 0, 0];
    lemma_offset4(s, zero);
    lemma_offset4(t, zero);
    lemma_offset2(seq![max, half], seq![0int, 0]);
    let (m, h) = (at_least_one(max) as int, half as int);
    assert(1 * 1 * m * h <= 1 * 1 * m * (2 * h) && 1 * 1 * m * h == m * h) by (nonlinear_arith)
        requires
            m >= 0,
            h >= 0,
    ;
}

/// The table of rotations for `max_seq_len` positions and the frequencies with the bits
/// `inv_freq`, of which there must be `head_dim / 2`.
pub fn build_rotary_emb(max_seq_len: usize, head_dim: usize, inv_freq: &Vec<u32>) -> (r: Result<
    Array,
    ModelError,
>)
    ensures
        yields(r, rotary_table_of(max_seq_len, head_dim, inv_freq@), true),
        r matches Err(e) ==> table_refused(e, max_seq_len, head_dim, inv_freq@),
{
    let half: usize = head_dim / 2;
    if inv_freq.len() == 0 {
        return Err(ModelError::EmptyArray);
    }
    let n: u32 = #[verifier::truncate]
    (max_seq_len as u32);
    let t = Array::arange(n)?;
    proof {
        lemma_offset1(t@.shape, seq![0int]);
    }
    let t = t.to_single()?;
    let column: Vec<usize> = vec![max_seq_len, 1];
    let given: Vec<usize> = vec![inv_freq.len()];
    let row: Vec<usize> = vec![1, half];
    let table: Vec<usize> = vec![1, 1, max_seq_len, half];
    proof {
        assert(column@ =~= seq![max_seq_len, 1usize]);
        assert(given@ =~= seq![inv_freq@.len() as usize]);
        assert(row@ =~= seq![1usize, half]);
        assert(table@ =~= seq![1usize, 1usize, max_seq_len, half]);
        lemma_offset1(given@, seq![0int]);
        lemma_offset1(t@.shape, seq![0int]);
        lemma_offset2(column@, seq![0int, 0]);
        lemma_offset2(row@, seq![0int, 0]);
        if max_seq_len <= u32::MAX {
            assert(n == max_seq_len);
            lemma_column(max_seq_len);
        }
        if inv_freq@.len() == half {
            lemma_row(inv_freq@, half);
        }
        if addressable(seq![max_seq_len, half]) {
            lemma_angles(max_seq_len, half, inv_freq@);
        }
        if half > 0 && addressable(seq![1usize, 1usize, max_seq_len, (2 * half) as usize]) {
            lemma_table_sizes(max_seq_len, half);
        }
    }
    let t = t.reshape(&column)?;
    let f = Array::from_bits(inv_freq, &given, &t)?;
    let f = f.reshape(&row)?;
    let freqs = t.matmul(&f)?;
    proof {
        assert(matmul_shape(t@.shape, f@.shape) =~= seq![max_seq_len, half]);
        assert(freqs@ == angles(max_seq_len, half, inv_freq@));
    }
    let cos = freqs.cos()?;
    let sin = freqs.sin()?;
    let cos = cos.unsqueeze(0)?.unsqueeze(0)?;
    let sin = sin.unsqueeze(0)?.unsqueeze(0)?;
    proof {
        if addressable(table@) {
            lemma_lift(max_seq_len, half, freqs@, |x: Scalar| Scalar::Cos(Box::new(x)));
            lemma_lift(max_seq_len, half, freqs@, |x: Scalar| Scalar::Sin(Box::new(x)));
        }
    }
    let cos = cos.expand(&table)?;
    let sin = sin.expand(&table)?;
    proof {
        lemma_side_by_side(max_seq_len, head_dim, inv_freq@, freqs@, cos@, sin@);
    }
    cos.cat(&sin, 3)
}

proof fn lemma_side_by_side(
    max: usize,
    head_dim: usize,
    inv_freq: Seq<u32>,
    freqs: ArrayView,
    cos: ArrayView,
    sin: ArrayView,
)
    requires
        inv_freq.len() == head_dim / 2,
        inv_freq.len() > 0,
        max <= u32::MAX,
        freqs == angles(max, head_dim / 2, inv_freq),
        cos == lifted(max, head_dim / 2, freqs, |x: Scalar| Scalar::Cos(Box::new(x))),
        sin == lifted(max, head_dim / 2, freqs, |x: Scalar| Scalar::Sin(Box::new(x))),
    ensures
        cat_of(cos, sin, 3) == rotary_table_of(max, head_dim, inv_freq),
{
    let half = head_dim / 2;
    let s = seq![1usize, 1usize, max, (2 * half) as usize];
    assert(cos.shape.update(3, (half + half) as usize) =~= s);
    if addressable(s) {
        let c = cat_of(cos, sin, 3)->Some_0;
        let out = rotary_table_of(max, head_dim, inv_freq)->Some_0;
        assert forall|i: Seq<int>| in_bounds(s, i) implies #[trigger] c.elems[i] == out.elems[i] by {
            assert(0 <= i[0] < 1 && 0 <= i[1] < 1 && 0 <= i[2] < max && 0 <= i[3] < 2 * half);
            if i[3] < half {
                assert(in_bounds(cos.shape, i));
                let k = seq![i[2], i[3]];
                assert(in_bounds(seq![max, half], k));
            } else {
                let j = i.update(3, i[3] - half);
                assert(in_bounds(sin.shape, j));
                let k = seq![j[2], j[3]];
                assert(in_bounds(seq![max, half], k));
            }
        }
        assert(c.elems =~= out.elems);
        assert(c =~= out);
    }
}

} // verus!
