//! Shapes: the sizes of an array along each of its axes, and row-major order.

use vstd::prelude::*;

verus! {

/// The number of positions in an array of shape `s`.
pub open spec fn numel(s: Seq<usize>) -> nat
    decreases s.len(),
{
    if s.len() == 0 {
        1
    } else {
        numel(s.drop_last()) * (s.last() as nat)
    }
}

/// The product of the sizes in `s`, where an empty axis counts as one. It bounds
/// the product of any selection of the sizes, in any order of multiplication.
pub open spec fn span(s: Seq<usize>) -> nat
    decreases s.len(),
{
    if s.len() == 0 {
        1
    } else {
        span(s.drop_last()) * at_least_one(s.last())
    }
}

/// `n`, or one where `n` is zero.
pub open spec fn at_least_one(n: usize) -> nat {
    if n == 0 {
        1
    } else {
        n as nat
    }
}

/// Whether every product of sizes of `s` can be held in a `usize`.
pub open spec fn addressable(s: Seq<usize>) -> bool {
    span(s) <= usize::MAX
}

/// Whether `i` names a position in an array of shape `s`: one coordinate per axis,
/// each below the size of its axis.
pub open spec fn in_bounds(s: Seq<usize>, i: Seq<int>) -> bool {
    &&& i.len() == s.len()
    &&& forall|d: int| 0 <= d < s.len() ==> 0 <= #[trigger] i[d] < s[d]
}

/// The rank of position `i` in row-major order, in which the last coordinate
/// varies fastest.
pub open spec fn offset(s: Seq<usize>, i: Seq<int>) -> int
    decreases s.len(),
{
    if s.len() == 0 {
        0
    } else {
        offset(s.drop_last(), i.drop_last()) * (s.last() as int) + i.last()
    }
}

/// The position whose row-major rank in an array of shape `s` is `o`.
pub open spec fn unravel(s: Seq<usize>, o: int) -> Seq<int>
    decreases s.len(),
{
    if s.len() == 0 {
        Seq::empty()
    } else {
        unravel(s.drop_last(), o / (s.last() as int)).push(o % (s.last() as int))
    }
}

/// Whether elements at distance `strides[d]` along each axis `d` lie side by side in
/// row-major order. The distance along an axis with a single position does not matter.
pub open spec fn packed(shape: Seq<usize>, strides: Seq<usize>) -> bool {
    &&& strides.len() == shape.len()
    &&& forall|d: int|
        0 <= d < shape.len() && shape[d] > 1 ==> #[trigger] strides[d] == numel(
            shape.subrange(d + 1, shape.len() as int),
        )
}

/// Whether the matrices of an array with four axes, which its last two axes span, lie at
/// equal distances.
pub open spec fn even(shape: Seq<usize>, strides: Seq<usize>) -> bool {
    &&& shape.len() == 4
    &&& shape[0] == 1 || shape[1] == 1 || (strides.len() == 4 && strides[0] == strides[1]
        * shape[1])
}

/// The larger of two ranks.
pub open spec fn larger(a: nat, b: nat) -> nat {
    if a >= b {
        a
    } else {
        b
    }
}

/// The size of `s` along axis `d` once `s` is aligned at the right with a shape of
/// `rank` axes; the axes that `s` lacks have size one.
pub open spec fn aligned(s: Seq<usize>, rank: nat, d: int) -> usize {
    let k = d - (rank - s.len());
    if k < 0 {
        1
    } else {
        s[k]
    }
}

/// The shape to which both `a` and `b` can be repeated along axes of size one.
pub open spec fn common_shape(a: Seq<usize>, b: Seq<usize>) -> Option<Seq<usize>> {
    let rank = larger(a.len(), b.len());
    if forall|d: int|
        0 <= d < rank ==> (#[trigger] aligned(a, rank, d) == aligned(b, rank, d) || aligned(
            a,
            rank,
            d,
        ) == 1 || aligned(b, rank, d) == 1) {
        Some(
            Seq::new(
                rank,
                |d: int|
                    if aligned(a, rank, d) == 1 {
                        aligned(b, rank, d)
                    } else {
                        aligned(a, rank, d)
                    },
            ),
        )
    } else {
        None
    }
}

/// Whether an array of shape `s` can be repeated to shape `target`.
pub open spec fn expands_to(s: Seq<usize>, target: Seq<usize>) -> bool {
    &&& s.len() <= target.len()
    &&& forall|k: int|
        0 <= k < s.len() ==> #[trigger] s[k] == 1 || s[k] == target[k + target.len() - s.len()]
}

/// The position of an array of shape `s` that position `i` of a repetition of it
/// shows.
pub open spec fn project(s: Seq<usize>, i: Seq<int>) -> Seq<int> {
    Seq::new(
        s.len(),
        |k: int|
            if s[k] == 1 {
                0
            } else {
                i[k + i.len() - s.len()]
            },
    )
}

/// A position is found again from its row-major rank, and the rank lies below the
/// number of positions.
pub proof fn lemma_unravel_offset(s: Seq<usize>, i: Seq<int>)
    requires
        in_bounds(s, i),
    ensures
        0 <= offset(s, i) < numel(s),
        unravel(s, offset(s, i)) == i,
    decreases s.len(),
{
    if s.len() == 0 {
        assert(i =~= Seq::<int>::empty());
    } else {
        let s0 = s.drop_last();
        let i0 = i.drop_last();
        let n = s.last() as int;
        assert(0 <= i[s.len() - 1] < s[s.len() - 1]);
        assert(in_bounds(s0, i0)) by {
            assert forall|d: int| 0 <= d < s0.len() implies 0 <= #[trigger] i0[d] < s0[d] by {
                assert(i[d] == i0[d]);
            }
        }
        lemma_unravel_offset(s0, i0);
        let q = offset(s0, i0);
        let r = i.last();
        let o = offset(s, i);
        assert(o == q * n + r);
        vstd::arithmetic::div_mod::lemma_fundamental_div_mod_converse(o, n, q, r);
        assert(0 <= q * n + r && q * n + r < numel(s0) * n) by (nonlinear_arith)
            requires
                0 <= q < numel(s0),
                0 <= r < n,
        ;
        assert(i0.push(r) =~= i);
    }
}

/// Every rank below the number of positions is that of a position.
pub proof fn lemma_offset_unravel(s: Seq<usize>, o: int)
    requires
        0 <= o < numel(s),
    ensures
        in_bounds(s, unravel(s, o)),
        offset(s, unravel(s, o)) == o,
    decreases s.len(),
{
    if s.len() > 0 {
        let s0 = s.drop_last();
        let n = s.last() as int;
        let m = numel(s0) as int;
        assert(n > 0) by (nonlinear_arith)
            requires
                0 <= o < m * n,
                n >= 0,
        ;
        vstd::arithmetic::div_mod::lemma_fundamental_div_mod(o, n);
        vstd::arithmetic::div_mod::lemma_mod_bound(o, n);
        let q = o / n;
        let r = o % n;
        assert(0 <= q < m) by (nonlinear_arith)
            requires
                o == n * q + r,
                0 <= r < n,
                0 <= o < m * n,
        ;
        lemma_offset_unravel(s0, q);
        let i = unravel(s, o);
        assert(i.drop_last() =~= unravel(s0, q));
        assert forall|d: int| 0 <= d < s.len() implies 0 <= #[trigger] i[d] < s[d] by {
            if d < s.len() - 1 {
                assert(i[d] == unravel(s0, q)[d]);
                assert(s0[d] == s[d]);
            }
        }
        assert(q * n == n * q) by (nonlinear_arith);
    }
}

/// A span is at least one, and at least the number of positions.
pub proof fn lemma_span_positive(s: Seq<usize>)
    ensures
        span(s) >= 1,
        numel(s) <= span(s),
    decreases s.len(),
{
    if s.len() > 0 {
        lemma_span_positive(s.drop_last());
        let a = span(s.drop_last());
        let b = at_least_one(s.last());
        let c = numel(s.drop_last());
        let d = s.last() as nat;
        assert(a * b >= 1) by (nonlinear_arith)
            requires
                a >= 1,
                b >= 1,
        ;
        assert(c * d <= a * b) by (nonlinear_arith)
            requires
                c <= a,
                d <= b,
        ;
    }
}

/// The span of a leading part is at most the span of the whole.
pub proof fn lemma_span_prefix(s: Seq<usize>, n: int)
    requires
        0 <= n <= s.len(),
    ensures
        span(s.subrange(0, n)) <= span(s),
    decreases s.len() - n,
{
    if n < s.len() {
        lemma_span_prefix(s, n + 1);
        let t = s.subrange(0, n + 1);
        assert(t.drop_last() =~= s.subrange(0, n));
        let a = span(t.drop_last());
        let b = at_least_one(t.last());
        assert(a <= a * b) by (nonlinear_arith)
            requires
                b >= 1,
        ;
    } else {
        assert(s.subrange(0, n) =~= s);
    }
}

/// The row-major rank of a position with one coordinate, written out.
pub proof fn lemma_offset1(s: Seq<usize>, i: Seq<int>)
    requires
        s.len() == 1,
        i.len() == 1,
    ensures
        offset(s, i) == i[0],
        numel(s) == s[0],
        span(s) == at_least_one(s[0]),
{
    reveal_with_fuel(offset, 2);
    reveal_with_fuel(numel, 2);
    reveal_with_fuel(span, 2);
    let p = at_least_one(s[0]);
    let q = s[0] as nat;
    assert(1 * p == p && 1 * q == q) by (nonlinear_arith);
}

/// The row-major rank of a position with two coordinates, written out.
pub proof fn lemma_offset2(s: Seq<usize>, i: Seq<int>)
    requires
        s.len() == 2,
        i.len() == 2,
    ensures
        offset(s, i) == i[0] * s[1] + i[1],
        numel(s) == s[0] * s[1],
        span(s) == at_least_one(s[0]) * at_least_one(s[1]),
{
    lemma_offset1(s.drop_last(), i.drop_last());
}

/// The row-major rank of a position with three coordinates, written out.
pub proof fn lemma_offset3(s: Seq<usize>, i: Seq<int>)
    requires
        s.len() == 3,
        i.len() == 3,
    ensures
        offset(s, i) == (i[0] * s[1] + i[1]) * s[2] + i[2],
        numel(s) == s[0] * s[1] * s[2],
        span(s) == at_least_one(s[0]) * at_least_one(s[1]) * at_least_one(s[2]),
{
    lemma_offset2(s.drop_last(), i.drop_last());
}

/// The row-major rank of a position with four coordinates, written out.
pub proof fn lemma_offset4(s: Seq<usize>, i: Seq<int>)
    requires
        s.len() == 4,
        i.len() == 4,
    ensures
        offset(s, i) == ((i[0] * s[1] + i[1]) * s[2] + i[2]) * s[3] + i[3],
        numel(s) == s[0] * s[1] * s[2] * s[3],
        span(s) == at_least_one(s[0]) * at_least_one(s[1]) * at_least_one(s[2]) * at_least_one(
            s[3],
        ),
{
    lemma_offset3(s.drop_last(), i.drop_last());
}

/// The row-major rank of a position with five coordinates, written out.
pub proof fn lemma_offset5(s: Seq<usize>, i: Seq<int>)
    requires
        s.len() == 5,
        i.len() == 5,
    ensures
        offset(s, i) == (((i[0] * s[1] + i[1]) * s[2] + i[2]) * s[3] + i[3]) * s[4] + i[4],
        numel(s) == s[0] * s[1] * s[2] * s[3] * s[4],
        span(s) == at_least_one(s[0]) * at_least_one(s[1]) * at_least_one(s[2]) * at_least_one(
            s[3],
        ) * at_least_one(s[4]),
{
    lemma_offset4(s.drop_last(), i.drop_last());
}

/// Decides whether every product of the sizes fits in a `usize`.
pub fn fits(dims: &Vec<usize>) -> (r: bool)
    ensures
        r == addressable(dims@),
{
    let mut acc: usize = 1;
    let mut k: usize = 0;
    proof {
        assert(dims@.subrange(0, 0) =~= Seq::<usize>::empty());
    }
    while k < dims.len()
        invariant
            k <= dims.len(),
            acc == span(dims@.subrange(0, k as int)),
            acc >= 1,
        decreases dims.len() - k,
    {
        let size: usize = if dims[k] == 0 {
            1
        } else {
            dims[k]
        };
        proof {
            let t = dims@.subrange(0, k + 1);
            assert(t.drop_last() =~= dims@.subrange(0, k as int));
            lemma_span_prefix(dims@, k + 1);
            lemma_span_positive(t);
        }
        match acc.checked_mul(size) {
            None => {
                return false;
            },
            Some(product) => {
                acc = product;
            },
        }
        k = k + 1;
    }
    proof {
        assert(dims@.subrange(0, k as int) =~= dims@);
    }
    true
}

/// Whether some axis is empty, so that there is no position at all.
pub fn is_empty(dims: &Vec<usize>) -> (r: bool)
    ensures
        r == (numel(dims@) == 0),
{
    let mut k: usize = 0;
    proof {
        assert(dims@.subrange(0, 0) =~= Seq::<usize>::empty());
    }
    while k < dims.len()
        invariant
            k <= dims.len(),
            numel(dims@.subrange(0, k as int)) > 0,
        decreases dims.len() - k,
    {
        proof {
            let t = dims@.subrange(0, k + 1);
            assert(t.drop_last() =~= dims@.subrange(0, k as int));
            let a = numel(t.drop_last());
            let b = dims@[k as int] as nat;
            assert(a * b == 0 <==> b == 0) by (nonlinear_arith)
                requires
                    a > 0,
            ;
        }
        if dims[k] == 0 {
            proof {
                lemma_empty_prefix(dims@, k + 1);
            }
            return true;
        }
        k = k + 1;
    }
    proof {
        assert(dims@.subrange(0, k as int) =~= dims@);
    }
    false
}

/// Where a leading part has no position, neither has the whole.
pub proof fn lemma_empty_prefix(s: Seq<usize>, n: int)
    requires
        0 <= n <= s.len(),
        numel(s.subrange(0, n)) == 0,
    ensures
        numel(s) == 0,
    decreases s.len() - n,
{
    if n < s.len() {
        let t = s.subrange(0, n + 1);
        assert(t.drop_last() =~= s.subrange(0, n));
        assert(numel(t) == 0) by (nonlinear_arith)
            requires
                numel(t) == numel(t.drop_last()) * (t.last() as nat),
                numel(t.drop_last()) == 0,
        ;
        lemma_empty_prefix(s, n + 1);
    } else {
        assert(s.subrange(0, n) =~= s);
    }
}

/// The shape to which arrays of shapes `a` and `b` can both be repeated.
pub fn broadcast_dims(a: &Vec<usize>, b: &Vec<usize>) -> (r: Option<Vec<usize>>)
    ensures
        match r {
            Some(s) => common_shape(a@, b@) == Some(s@),
            None => common_shape(a@, b@) is None,
        },
{
    let rank: usize = if a.len() >= b.len() {
        a.len()
    } else {
        b.len()
    };
    let mut out: Vec<usize> = Vec::new();
    let mut d: usize = 0;
    while d < rank
        invariant
            rank == larger(a@.len(), b@.len()),
            d <= rank,
            out@.len() == d,
            forall|e: int|
                0 <= e < d ==> (#[trigger] aligned(a@, rank as nat, e) == aligned(b@, rank as nat, e)
                    || aligned(a@, rank as nat, e) == 1 || aligned(b@, rank as nat, e) == 1),
            forall|e: int|
                0 <= e < d ==> #[trigger] out@[e] == (if aligned(a@, rank as nat, e) == 1 {
                    aligned(b@, rank as nat, e)
                } else {
                    aligned(a@, rank as nat, e)
                }),
        decreases rank - d,
    {
        let x: usize = if d < rank - a.len() {
            1
        } else {
            a[d - (rank - a.len())]
        };
        let y: usize = if d < rank - b.len() {
            1
        } else {
            b[d - (rank - b.len())]
        };
        assert(x == aligned(a@, rank as nat, d as int));
        assert(y == aligned(b@, rank as nat, d as int));
        if x != y && x != 1 && y != 1 {
            return None;
        }
        out.push(
            if x == 1 {
                y
            } else {
                x
            },
        );
        d = d + 1;
    }
    proof {
        assert(common_shape(a@, b@)->Some_0 =~= out@);
    }
    Some(out)
}

/// In a packed array that is not empty the matrices lie at equal distances.
pub proof fn lemma_packed_even(shape: Seq<usize>, strides: Seq<usize>)
    requires
        packed(shape, strides),
        shape.len() == 4,
        numel(shape) > 0,
    ensures
        even(shape, strides),
{
    if shape[0] != 1 && shape[1] != 1 {
        lemma_offset4(shape, seq![0int, 0, 0, 0]);
        let (a, b, c, d) = (shape[0] as int, shape[1] as int, shape[2] as int, shape[3] as int);
        assert(a > 0 && b > 0) by (nonlinear_arith)
            requires
                a * b * c * d > 0,
                a >= 0,
                b >= 0,
                c >= 0,
                d >= 0,
        ;
        let s1 = shape.subrange(1, 4);
        let s2 = shape.subrange(2, 4);
        assert(s1 =~= seq![shape[1], shape[2], shape[3]]);
        assert(s2 =~= seq![shape[2], shape[3]]);
        lemma_offset3(s1, seq![0int, 0, 0]);
        lemma_offset2(s2, seq![0int, 0]);
        assert(b * c * d == (c * d) * b) by (nonlinear_arith);
        assert(strides[0] == numel(s1));
        assert(strides[1] == numel(s2));
    }
}

/// A shape has a position if and only if no axis is empty.
pub proof fn lemma_numel_axes(s: Seq<usize>)
    ensures
        numel(s) > 0 <==> (forall|d: int| 0 <= d < s.len() ==> #[trigger] s[d] > 0),
    decreases s.len(),
{
    if s.len() > 0 {
        let t = s.drop_last();
        lemma_numel_axes(t);
        let (a, b) = (numel(t), s.last() as nat);
        assert(a * b > 0 <==> (a > 0 && b > 0)) by (nonlinear_arith);
        if numel(s) > 0 {
            assert forall|d: int| 0 <= d < s.len() implies #[trigger] s[d] > 0 by {
                if d < t.len() {
                    assert(s[d] == t[d]);
                }
            }
        }
        if forall|d: int| 0 <= d < s.len() ==> #[trigger] s[d] > 0 {
            assert forall|d: int| 0 <= d < t.len() implies #[trigger] t[d] > 0 by {
                assert(t[d] == s[d]);
            }
            assert(s[s.len() - 1] > 0);
        }
    }
}

/// An empty array has no position.
pub proof fn lemma_no_position(s: Seq<usize>)
    requires
        numel(s) == 0,
    ensures
        forall|i: Seq<int>| !in_bounds(s, i),
{
    assert forall|i: Seq<int>| !in_bounds(s, i) by {
        if in_bounds(s, i) {
            lemma_unravel_offset(s, i);
        }
    }
}

/// What is no larger along any axis is addressable too.
pub proof fn lemma_addressable_smaller(s: Seq<usize>, t: Seq<usize>)
    requires
        s.len() == t.len(),
        forall|d: int| 0 <= d < s.len() ==> #[trigger] s[d] <= t[d],
        addressable(t),
    ensures
        addressable(s),
{
    lemma_span_smaller(s, t);
}

proof fn lemma_span_smaller(s: Seq<usize>, t: Seq<usize>)
    requires
        s.len() == t.len(),
        forall|d: int| 0 <= d < s.len() ==> #[trigger] s[d] <= t[d],
    ensures
        span(s) <= span(t),
    decreases s.len(),
{
    if s.len() > 0 {
        let (u, w) = (s.drop_last(), t.drop_last());
        assert forall|d: int| 0 <= d < u.len() implies #[trigger] u[d] <= w[d] by {
            assert(s[d] <= t[d]);
        }
        lemma_span_smaller(u, w);
        assert(s[s.len() - 1] <= t[t.len() - 1]);
        let (x, y) = (at_least_one(s.last()), at_least_one(t.last()));
        let (p, q) = (span(u), span(w));
        assert(p * x <= q * y) by (nonlinear_arith)
            requires
                p <= q,
                x <= y,
        ;
    }
}

} // verus!
