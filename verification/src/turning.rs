//! Rotations over the real numbers.
//!
//! Floating-point numbers are rounded, so that what holds of rotations holds of them only up to
//! rounding. Here it is stated of the real numbers that the formulas stand for.

use vstd::prelude::*;
use crate::laws::{at3, law_rotation, lemma_in4, turned_at};
use crate::rotary::{angle_of, rotary_of, rotary_table_of};
use crate::shape::addressable;
use crate::view::{ArrayView, ElementKind, Scalar};

verus! {

/// The real number that a formula stands for.
pub open spec fn real_of(val: spec_fn(Scalar) -> real, x: Scalar) -> real {
    val(x)
}

/// What a function makes of a real number.
pub open spec fn image(f: spec_fn(real) -> real, x: real) -> real {
    f(x)
}

/// The sum of two real numbers.
pub open spec fn together(x: real, y: real) -> real {
    x + y
}

/// The product of two real numbers.
#[verifier::opaque]
pub open spec fn times(x: real, y: real) -> real {
    x * y
}

/// The real number that is the integer `n`.
#[verifier::opaque]
pub open spec fn whole(n: int) -> real {
    n as real
}

/// The sum of the first `n` values of `f`.
pub open spec fn total(n: nat, f: spec_fn(int) -> real) -> real
    decreases n,
{
    if n == 0 {
        0real
    } else {
        total((n - 1) as nat, f) + f(n - 1)
    }
}

/// The sum of the products of the real numbers that corresponding formulas stand for.
pub open spec fn dot_of(val: spec_fn(Scalar) -> real, r: Seq<Scalar>, s: Seq<Scalar>) -> real {
    total(r.len(), |i: int| times(real_of(val, r[i]), real_of(val, s[i])))
}

/// Whether sums, products, opposites and integers stand for those of the real numbers.
#[verifier::opaque]
pub open spec fn is_real(val: spec_fn(Scalar) -> real) -> bool {
    &&& forall|x: Scalar, y: Scalar| #[trigger]
        real_of(val, Scalar::Add(Box::new(x), Box::new(y))) == real_of(val, x) + real_of(val, y)
    &&& forall|x: Scalar, y: Scalar| #[trigger]
        real_of(val, Scalar::Mul(Box::new(x), Box::new(y))) == times(
            real_of(val, x),
            real_of(val, y),
        )
    &&& forall|x: Scalar| #[trigger]
        real_of(val, Scalar::Neg(Box::new(x))) == -real_of(val, x)
    &&& forall|r: Seq<Scalar>, s: Seq<Scalar>|
        r.len() == s.len() ==> #[trigger] real_of(val, Scalar::Dot(r, s)) == dot_of(val, r, s)
    &&& forall|k: ElementKind, x: Scalar| #[trigger]
        real_of(val, Scalar::Cast(k, Box::new(x))) == real_of(val, x)
    &&& forall|n: int| #[trigger] real_of(val, Scalar::Index(n)) == whole(n)
}

/// Whether `cos` and `sin` add up angles as the cosine and the sine do, and cosines and sines
/// stand for their values.
#[verifier::opaque]
pub open spec fn is_trigonometric(
    val: spec_fn(Scalar) -> real,
    cos: spec_fn(real) -> real,
    sin: spec_fn(real) -> real,
) -> bool {
    &&& forall|x: Scalar| #[trigger]
        real_of(val, Scalar::Cos(Box::new(x))) == image(cos, real_of(val, x))
    &&& forall|x: Scalar| #[trigger]
        real_of(val, Scalar::Sin(Box::new(x))) == image(sin, real_of(val, x))
    &&& forall|a: real, b: real| #[trigger]
        image(cos, together(a, b)) == times(image(cos, a), image(cos, b)) - times(
            image(sin, a),
            image(sin, b),
        )
    &&& forall|a: real, b: real| #[trigger]
        image(sin, together(a, b)) == times(image(sin, a), image(cos, b)) + times(
            image(cos, a),
            image(sin, b),
        )
    &&& forall|a: real|
        times(#[trigger] image(cos, a), image(cos, a)) + times(image(sin, a), image(sin, a))
            == 1real
}

/// The product of the row `t` of head `h` of `x` with the row `u` of head `g` of `y`, over the
/// real numbers.
pub open spec fn row_product(
    val: spec_fn(Scalar) -> real,
    x: ArrayView,
    y: ArrayView,
    b: int,
    h: int,
    g: int,
    t: int,
    u: int,
) -> real {
    total(
        x.shape[3] as nat,
        |c: int| times(real_of(val, x.at4(b, h, t, c)), real_of(val, y.at4(b, g, u, c))),
    )
}

/// Whether `pos` has the cosine and the sine of an angle at each position for each pair of
/// numbers of the heads of `x`, which have two halves.
pub open spec fn is_turnable(x: ArrayView, pos: ArrayView, head_dim: usize) -> bool {
    &&& x.rank() == 4
    &&& x.shape[3] == head_dim
    &&& head_dim % 2 == 0
    &&& pos.shape == seq![1usize, x.shape[2], head_dim]
    &&& x.kind.is_float()
    &&& pos.kind == x.kind
    &&& addressable(x.shape)
}

/// The cosine for the pair `e` of numbers at position `t`.
pub open spec fn cosine_at(
    val: spec_fn(Scalar) -> real,
    pos: ArrayView,
    t: int,
    e: int,
) -> real {
    real_of(val, at3(pos, 0, t, e))
}

/// The sine for the pair `e` of numbers at position `t`.
pub open spec fn sine_at(
    val: spec_fn(Scalar) -> real,
    pos: ArrayView,
    t: int,
    e: int,
) -> real {
    real_of(val, at3(pos, 0, t, pos.shape[2] / 2 + e))
}

/// Whether the cosines and sines of `pos` lie on the unit circle.
pub open spec fn on_circle(val: spec_fn(Scalar) -> real, pos: ArrayView) -> bool {
    forall|t: int, e: int|
        0 <= t < pos.shape[1] && 0 <= e < pos.shape[2] / 2 ==> times(
            #[trigger] cosine_at(val, pos, t, e),
            cosine_at(val, pos, t, e),
        ) + times(sine_at(val, pos, t, e), sine_at(val, pos, t, e)) == 1real
}

/// Whether `back` holds the opposite angles of `pos`: the same cosines and the opposite sines.
pub open spec fn is_opposite(
    val: spec_fn(Scalar) -> real,
    pos: ArrayView,
    back: ArrayView,
) -> bool {
    forall|t: int, e: int|
        0 <= t < pos.shape[1] && 0 <= e < pos.shape[2] / 2 ==> #[trigger] cosine_at(val, back, t, e)
            == cosine_at(val, pos, t, e) && sine_at(val, back, t, e) == -sine_at(val, pos, t, e)
}

/// The two numbers of a pair after the rotation.
proof fn lemma_pair_turned(
    val: spec_fn(Scalar) -> real,
    x: ArrayView,
    pos: ArrayView,
    head_dim: usize,
    b: int,
    h: int,
    t: int,
    e: int,
)
    requires
        is_real(val),
        is_turnable(x, pos, head_dim),
        0 <= b < x.shape[0],
        0 <= h < x.shape[1],
        0 <= t < x.shape[2],
        0 <= e < head_dim / 2,
    ensures
        ({
            let y = rotary_of(x, pos, head_dim);
            let half = (head_dim / 2) as int;
            let (c, s) = (cosine_at(val, pos, t, e), sine_at(val, pos, t, e));
            let p = real_of(val, x.at4(b, h, t, e));
            let q = real_of(val, x.at4(b, h, t, half + e));
            &&& y is Some
            &&& is_turnable(y->Some_0, pos, head_dim)
            &&& y->Some_0.shape == x.shape
            &&& real_of(val, y->Some_0.at4(b, h, t, e)) == times(p, c) - times(q, s)
            &&& real_of(val, y->Some_0.at4(b, h, t, half + e)) == times(q, c) + times(p, s)
        }),
{
    reveal(is_real);
    law_rotation(x, pos, head_dim);
    let y = rotary_of(x, pos, head_dim)->Some_0;
    let half = (head_dim / 2) as int;
    assert(y.at4(b, h, t, e) == turned_at(x, pos, b, h, t, e));
    assert(y.at4(b, h, t, half + e) == turned_at(x, pos, b, h, t, half + e));
}

/// A rotation by the opposite angles undoes a rotation.
pub proof fn law_rotation_undone(
    val: spec_fn(Scalar) -> real,
    x: ArrayView,
    pos: ArrayView,
    back: ArrayView,
    head_dim: usize,
)
    requires
        is_real(val),
        is_turnable(x, pos, head_dim),
        is_turnable(x, back, head_dim),
        on_circle(val, pos),
        is_opposite(val, pos, back),
    ensures
        ({
            let y = rotary_of(x, pos, head_dim);
            let z = rotary_of(y->Some_0, back, head_dim);
            &&& y is Some
            &&& z is Some
            &&& z->Some_0.shape == x.shape
            &&& forall|b: int, h: int, t: int, c: int|
                0 <= b < x.shape[0] && 0 <= h < x.shape[1] && 0 <= t < x.shape[2] && 0 <= c
                    < head_dim ==> real_of(val, #[trigger] z->Some_0.at4(b, h, t, c)) == real_of(
                    val,
                    x.at4(b, h, t, c),
                )
        }),
{
    law_rotation(x, pos, head_dim);
    let y = rotary_of(x, pos, head_dim)->Some_0;
    law_rotation(y, back, head_dim);
    let z = rotary_of(y, back, head_dim)->Some_0;
    let half = (head_dim / 2) as int;
    assert forall|b: int, h: int, t: int, c: int|
        0 <= b < x.shape[0] && 0 <= h < x.shape[1] && 0 <= t < x.shape[2] && 0 <= c
            < head_dim implies real_of(val, #[trigger] z.at4(b, h, t, c)) == real_of(
        val,
        x.at4(b, h, t, c),
    ) by {
        let e = if c < half {
            c
        } else {
            c - half
        };
        lemma_pair_turned(val, x, pos, head_dim, b, h, t, e);
        lemma_pair_turned(val, y, back, head_dim, b, h, t, e);
        let (k, s) = (cosine_at(val, pos, t, e), sine_at(val, pos, t, e));
        assert(cosine_at(val, back, t, e) == k && sine_at(val, back, t, e) == -s);
        assert(times(k, k) + times(s, s) == 1real);
        let p = real_of(val, x.at4(b, h, t, e));
        let q = real_of(val, x.at4(b, h, t, half + e));
        lemma_turned_back(p, q, k, s);
    }
}

proof fn lemma_turned_back(p: real, q: real, c: real, s: real)
    requires
        times(c, c) + times(s, s) == 1real,
    ensures
        times(times(p, c) - times(q, s), c) - times(times(q, c) + times(p, s), -s) == p,
        times(times(q, c) + times(p, s), c) + times(times(p, c) - times(q, s), -s) == q,
{
    reveal(times);
    assert((p * c - q * s) * c - (q * c + p * s) * (-s) == p) by (nonlinear_arith)
        requires
            c * c + s * s == 1real,
    ;
    assert((q * c + p * s) * c + (p * c - q * s) * (-s) == q) by (nonlinear_arith)
        requires
            c * c + s * s == 1real,
    ;
}

proof fn lemma_total_same(n: nat, f: spec_fn(int) -> real, g: spec_fn(int) -> real)
    requires
        forall|i: int| 0 <= i < n ==> #[trigger] f(i) == g(i),
    ensures
        total(n, f) == total(n, g),
    decreases n,
{
    if n > 0 {
        lemma_total_same((n - 1) as nat, f, g);
        assert(f(n - 1) == g(n - 1));
    }
}

proof fn lemma_total_pairs(h: nat, n: nat, f: spec_fn(int) -> real)
    requires
        n <= h,
    ensures
        total(n, f) + total(n, |e: int| f(h + e)) == total(n, |e: int| f(e) + f(h + e)),
        total(h + n, f) == total(h, f) + total(n, |e: int| f(h + e)),
    decreases n,
{
    if n > 0 {
        lemma_total_pairs(h, (n - 1) as nat, f);
        assert(h + n - 1 == h + (n - 1));
    }
}

/// Sums over the pairs of two rows are equal where the sums over each pair are.
proof fn lemma_products_by_pairs(half: nat, f: spec_fn(int) -> real, g: spec_fn(int) -> real)
    requires
        forall|e: int| 0 <= e < half ==> #[trigger] f(e) + f(half + e) == g(e) + g(half + e),
    ensures
        total(half + half, f) == total(half + half, g),
{
    lemma_total_pairs(half, half, f);
    lemma_total_pairs(half, half, g);
    let ff = |e: int| f(e) + f(half + e);
    let gg = |e: int| g(e) + g(half + e);
    assert forall|e: int| 0 <= e < half implies #[trigger] ff(e) == gg(e) by {
        assert(f(e) + f(half + e) == g(e) + g(half + e));
    }
    lemma_total_same(half, ff, gg);
}

proof fn lemma_differences(a: real, b: real, c: real, d: real)
    ensures
        times(a - b, c - d) == times(a, c) - times(a, d) - times(b, c) + times(b, d),
{
    reveal(times);
    assert((a - b) * (c - d) == a * c - a * d - b * c + b * d) by (nonlinear_arith);
}

proof fn lemma_sums(a: real, b: real, c: real, d: real)
    ensures
        times(a + b, c + d) == times(a, c) + times(a, d) + times(b, c) + times(b, d),
{
    reveal(times);
    assert((a + b) * (c + d) == a * c + a * d + b * c + b * d) by (nonlinear_arith);
}

proof fn lemma_exchange(a: real, b: real, c: real, d: real)
    ensures
        times(times(a, b), times(c, d)) == times(times(a, c), times(b, d)),
{
    reveal(times);
    assert((a * b) * (c * d) == (a * c) * (b * d)) by (nonlinear_arith);
}

/// What a pair of numbers adds to the product of two rows that were turned.
proof fn lemma_pair_product(
    p: real,
    q: real,
    c: real,
    s: real,
    u: real,
    v: real,
    d: real,
    r: real,
)
    ensures
        times(times(p, c) - times(q, s), times(u, d) - times(v, r)) + times(
            times(q, c) + times(p, s),
            times(v, d) + times(u, r),
        ) == times(times(p, u) + times(q, v), times(c, d) + times(s, r)) + times(
            times(p, v) - times(q, u),
            times(s, d) - times(c, r),
        ),
{
    lemma_differences(times(p, c), times(q, s), times(u, d), times(v, r));
    lemma_sums(times(q, c), times(p, s), times(v, d), times(u, r));
    lemma_sums(times(p, u), times(q, v), times(c, d), times(s, r));
    lemma_differences(times(p, v), times(q, u), times(s, d), times(c, r));
    lemma_exchange(p, c, u, d);
    lemma_exchange(p, c, v, r);
    lemma_exchange(q, s, u, d);
    lemma_exchange(q, s, v, r);
    lemma_exchange(q, c, v, d);
    lemma_exchange(q, c, u, r);
    lemma_exchange(p, s, v, d);
    lemma_exchange(p, s, u, r);
}

/// Two pairs of numbers that are turned by the same angle have the product that they had.
proof fn lemma_common_turn(p: real, q: real, u: real, v: real, c: real, s: real)
    requires
        times(c, c) + times(s, s) == 1real,
    ensures
        times(times(p, c) - times(q, s), times(u, c) - times(v, s)) + times(
            times(q, c) + times(p, s),
            times(v, c) + times(u, s),
        ) == times(p, u) + times(q, v),
{
    lemma_pair_product(p, q, c, s, u, v, c, s);
    lemma_units(times(p, u) + times(q, v), times(p, v) - times(q, u), s, c);
}

pub(crate) proof fn lemma_units(a: real, b: real, s: real, c: real)
    ensures
        times(s, c) == times(c, s),
        times(a, 1real) == a,
        times(b, 0real) == 0real,
{
    reveal(times);
    assert(s * c == c * s) by (nonlinear_arith);
    assert(a * 1real == a) by (nonlinear_arith);
    assert(b * 0real == 0real) by (nonlinear_arith);
}

/// A rotation keeps the lengths of rows: it keeps the product of a row with itself.
pub proof fn law_rotation_keeps_lengths(
    val: spec_fn(Scalar) -> real,
    x: ArrayView,
    pos: ArrayView,
    head_dim: usize,
    b: int,
    h: int,
    t: int,
)
    requires
        is_real(val),
        is_turnable(x, pos, head_dim),
        on_circle(val, pos),
        0 <= b < x.shape[0],
        0 <= h < x.shape[1],
        0 <= t < x.shape[2],
    ensures
        ({
            let y = rotary_of(x, pos, head_dim);
            &&& y is Some
            &&& row_product(val, y->Some_0, y->Some_0, b, h, h, t, t) == row_product(
                val,
                x,
                x,
                b,
                h,
                h,
                t,
                t,
            )
        }),
{
    law_rotation(x, pos, head_dim);
    let y = rotary_of(x, pos, head_dim)->Some_0;
    let half = (head_dim / 2) as nat;
    let f = |c: int| times(real_of(val, y.at4(b, h, t, c)), real_of(val, y.at4(b, h, t, c)));
    let g = |c: int| times(real_of(val, x.at4(b, h, t, c)), real_of(val, x.at4(b, h, t, c)));
    assert forall|e: int| 0 <= e < half implies #[trigger] f(e) + f(half + e) == g(e) + g(
        half + e,
    ) by {
        lemma_pair_turned(val, x, pos, head_dim, b, h, t, e);
        let (c, s) = (cosine_at(val, pos, t, e), sine_at(val, pos, t, e));
        let p = real_of(val, x.at4(b, h, t, e));
        let q = real_of(val, x.at4(b, h, t, half + e));
        lemma_common_turn(p, q, p, q, c, s);
    }
    lemma_products_by_pairs(half, f, g);
    assert(half + half == head_dim);
}

/// Whether `pos` holds the rows of the table of rotations from `start` on.
pub open spec fn holds_rows(pos: ArrayView, table: ArrayView, start: int) -> bool {
    &&& pos.rank() == 3
    &&& table.rank() == 4
    &&& pos.shape[0] == 1
    &&& pos.shape[2] == table.shape[3]
    &&& 0 <= start
    &&& start + pos.shape[1] <= table.shape[2]
    &&& forall|t: int, c: int|
        0 <= t < pos.shape[1] && 0 <= c < pos.shape[2] ==> #[trigger] at3(pos, 0, t, c)
            == table.at4(0, 0, start + t, c)
}

/// The cosines and sines at a position are those of its angles.
proof fn lemma_table_row(
    val: spec_fn(Scalar) -> real,
    cos: spec_fn(real) -> real,
    sin: spec_fn(real) -> real,
    pos: ArrayView,
    start: int,
    max_seq_len: usize,
    head_dim: usize,
    inv_freq: Seq<u32>,
    t: int,
    e: int,
)
    requires
        is_trigonometric(val, cos, sin),
        rotary_table_of(max_seq_len, head_dim, inv_freq) is Some,
        holds_rows(pos, rotary_table_of(max_seq_len, head_dim, inv_freq)->Some_0, start),
        head_dim % 2 == 0,
        0 <= t < pos.shape[1],
        0 <= e < head_dim / 2,
    ensures
        ({
            let angle = real_of(val, angle_of(inv_freq, start + t, e));
            &&& cosine_at(val, pos, t, e) == image(cos, angle)
            &&& sine_at(val, pos, t, e) == image(sin, angle)
        }),
{
    let table = rotary_table_of(max_seq_len, head_dim, inv_freq)->Some_0;
    let half = (head_dim / 2) as int;
    let (i, j) = (seq![0, 0, start + t, e], seq![0, 0, start + t, half + e]);
    lemma_in4(table.shape, i);
    lemma_in4(table.shape, j);
    assert(pos.shape[2] / 2 == half);
    assert(at3(pos, 0, t, e) == table.at(i));
    assert(at3(pos, 0, t, half + e) == table.at(j));
    let angle = angle_of(inv_freq, start + t, e);
    assert(table.at(i) == Scalar::Cos(Box::new(angle)));
    assert(table.at(j) == Scalar::Sin(Box::new(angle)));
    reveal(is_trigonometric);
    assert(real_of(val, Scalar::Cos(Box::new(angle))) == image(cos, real_of(val, angle)));
    assert(real_of(val, Scalar::Sin(Box::new(angle))) == image(sin, real_of(val, angle)));
}

/// The angle at a position.
proof fn lemma_angle(val: spec_fn(Scalar) -> real, inv_freq: Seq<u32>, t: int, c: int)
    requires
        is_real(val),
    ensures
        real_of(val, angle_of(inv_freq, t, c)) == times(
            whole(t),
            real_of(val, Scalar::Bits(inv_freq[c])),
        ),
{
    reveal(is_real);
    let r = seq![Scalar::Cast(ElementKind::F32, Box::new(Scalar::Index(t)))];
    let s = seq![Scalar::Bits(inv_freq[c])];
    assert(real_of(val, Scalar::Dot(r, s)) == dot_of(val, r, s));
    let f = |i: int| times(real_of(val, r[i]), real_of(val, s[i]));
    assert(total(0, f) == 0real);
    assert(total(1, f) == total(0, f) + f(0));
    assert(real_of(val, Scalar::Index(t)) == whole(t));
    assert(real_of(val, r[0]) == real_of(val, Scalar::Index(t)));
}

/// Angles add up along with positions.
proof fn lemma_angles_add(
    val: spec_fn(Scalar) -> real,
    inv_freq: Seq<u32>,
    t: int,
    d: int,
    c: int,
)
    requires
        is_real(val),
    ensures
        real_of(val, angle_of(inv_freq, t + d, c)) == real_of(val, angle_of(inv_freq, t, c))
            + real_of(val, angle_of(inv_freq, d, c)),
{
    lemma_angle(val, inv_freq, t + d, c);
    lemma_angle(val, inv_freq, t, c);
    lemma_angle(val, inv_freq, d, c);
    lemma_both_times(whole(t), whole(d), real_of(val, Scalar::Bits(inv_freq[c])));
    lemma_whole_sum(t, d);
}

proof fn lemma_whole_sum(t: int, d: int)
    ensures
        whole(t + d) == whole(t) + whole(d),
{
    reveal(whole);
}

proof fn lemma_both_times(x: real, y: real, z: real)
    ensures
        times(x + y, z) == times(x, z) + times(y, z),
{
    reveal(times);
    assert((x + y) * z == x * z + y * z) by (nonlinear_arith);
}

/// The cosine and the sine of the difference of two angles do not change where both angles
/// grow by the same.
proof fn lemma_difference_stays(
    val: spec_fn(Scalar) -> real,
    cos: spec_fn(real) -> real,
    sin: spec_fn(real) -> real,
    x: real,
    y: real,
    w: real,
)
    requires
        is_trigonometric(val, cos, sin),
    ensures
        times(image(cos, x + w), image(cos, y + w)) + times(image(sin, x + w), image(sin, y + w))
            == times(image(cos, x), image(cos, y)) + times(image(sin, x), image(sin, y)),
        times(image(sin, x + w), image(cos, y + w)) - times(image(cos, x + w), image(sin, y + w))
            == times(image(sin, x), image(cos, y)) - times(image(cos, x), image(sin, y)),
{
    let (c, s) = (image(cos, w), image(sin, w));
    let (p, q) = (image(cos, x), image(sin, x));
    let (u, v) = (image(cos, y), image(sin, y));
    lemma_turned_by(val, cos, sin, x, w);
    lemma_turned_by(val, cos, sin, y, w);
    lemma_common_turn(p, q, u, v, c, s);
    lemma_common_turn(p, q, -v, u, c, s);
    let (p2, q2) = (image(cos, x + w), image(sin, x + w));
    let (u2, v2) = (image(cos, y + w), image(sin, y + w));
    lemma_opposite(v, c);
    lemma_opposite(v, s);
    assert(times(-v, c) - times(u, s) == -v2);
    lemma_opposite(v2, p2);
    lemma_opposite(v, p);
    lemma_units(0real, 0real, p2, -v2);
    lemma_units(0real, 0real, p, -v);
    lemma_units(0real, 0real, p2, v2);
    lemma_units(0real, 0real, p, v);
}

proof fn lemma_opposite(a: real, b: real)
    ensures
        times(-a, b) == -times(a, b),
{
    reveal(times);
    assert((-a) * b == -(a * b)) by (nonlinear_arith);
}

/// The cosine and the sine of an angle that is turned further.
proof fn lemma_turned_by(
    val: spec_fn(Scalar) -> real,
    cos: spec_fn(real) -> real,
    sin: spec_fn(real) -> real,
    x: real,
    w: real,
)
    requires
        is_trigonometric(val, cos, sin),
    ensures
        image(cos, x + w) == times(image(cos, x), image(cos, w)) - times(
            image(sin, x),
            image(sin, w),
        ),
        image(sin, x + w) == times(image(sin, x), image(cos, w)) + times(
            image(cos, x),
            image(sin, w),
        ),
        times(image(cos, w), image(cos, w)) + times(image(sin, w), image(sin, w)) == 1real,
{
    reveal(is_trigonometric);
    assert(image(cos, together(x, w)) == image(cos, x + w));
    assert(image(sin, together(x, w)) == image(sin, x + w));
    assert(times(image(cos, w), image(cos, w)) + times(image(sin, w), image(sin, w)) == 1real);
}

/// The rows of the table of rotations lie on the unit circle, so that what they turn can be
/// turned back and keeps its length.
pub proof fn law_table_on_circle(
    val: spec_fn(Scalar) -> real,
    cos: spec_fn(real) -> real,
    sin: spec_fn(real) -> real,
    max_seq_len: usize,
    head_dim: usize,
    inv_freq: Seq<u32>,
    pos: ArrayView,
    start: int,
)
    requires
        is_trigonometric(val, cos, sin),
        rotary_table_of(max_seq_len, head_dim, inv_freq) is Some,
        holds_rows(pos, rotary_table_of(max_seq_len, head_dim, inv_freq)->Some_0, start),
        head_dim % 2 == 0,
    ensures
        on_circle(val, pos),
{
    assert forall|t: int, e: int| 0 <= t < pos.shape[1] && 0 <= e < pos.shape[2] / 2 implies times(
        #[trigger] cosine_at(val, pos, t, e),
        cosine_at(val, pos, t, e),
    ) + times(sine_at(val, pos, t, e), sine_at(val, pos, t, e)) == 1real by {
        lemma_table_row(val, cos, sin, pos, start, max_seq_len, head_dim, inv_freq, t, e);
        let angle = real_of(val, angle_of(inv_freq, start + t, e));
        lemma_turned_by(val, cos, sin, 0real, angle);
    }
}

/// Products of turned queries and keys depend on their positions through the difference of the
/// positions alone: a query that is turned by the rows of the table from `m1` on has with a key
/// that is turned by those from `n1` on the product that they have where they are turned by the
/// rows from `m2` and `n2` on, as long as the distance is the same.
pub proof fn law_products_relative(
    val: spec_fn(Scalar) -> real,
    cos: spec_fn(real) -> real,
    sin: spec_fn(real) -> real,
    max_seq_len: usize,
    head_dim: usize,
    inv_freq: Seq<u32>,
    q: ArrayView,
    k: ArrayView,
    pos_q1: ArrayView,
    pos_k1: ArrayView,
    pos_q2: ArrayView,
    pos_k2: ArrayView,
    m1: int,
    n1: int,
    m2: int,
    n2: int,
    b: int,
    h: int,
    g: int,
    t: int,
    u: int,
)
    requires
        is_real(val),
        is_trigonometric(val, cos, sin),
        rotary_table_of(max_seq_len, head_dim, inv_freq) is Some,
        is_turnable(q, pos_q1, head_dim),
        is_turnable(k, pos_k1, head_dim),
        is_turnable(q, pos_q2, head_dim),
        is_turnable(k, pos_k2, head_dim),
        holds_rows(pos_q1, rotary_table_of(max_seq_len, head_dim, inv_freq)->Some_0, m1),
        holds_rows(pos_k1, rotary_table_of(max_seq_len, head_dim, inv_freq)->Some_0, n1),
        holds_rows(pos_q2, rotary_table_of(max_seq_len, head_dim, inv_freq)->Some_0, m2),
        holds_rows(pos_k2, rotary_table_of(max_seq_len, head_dim, inv_freq)->Some_0, n2),
        m1 - n1 == m2 - n2,
        0 <= b < q.shape[0],
        0 <= b < k.shape[0],
        0 <= h < q.shape[1],
        0 <= g < k.shape[1],
        0 <= t < q.shape[2],
        0 <= u < k.shape[2],
    ensures
        row_product(
            val,
            rotary_of(q, pos_q1, head_dim)->Some_0,
            rotary_of(k, pos_k1, head_dim)->Some_0,
            b,
            h,
            g,
            t,
            u,
        ) == row_product(
            val,
            rotary_of(q, pos_q2, head_dim)->Some_0,
            rotary_of(k, pos_k2, head_dim)->Some_0,
            b,
            h,
            g,
            t,
            u,
        ),
{
    law_rotation(q, pos_q1, head_dim);
    law_rotation(q, pos_q2, head_dim);
    let (q1, k1) = (
        rotary_of(q, pos_q1, head_dim)->Some_0,
        rotary_of(k, pos_k1, head_dim)->Some_0,
    );
    let (q2, k2) = (
        rotary_of(q, pos_q2, head_dim)->Some_0,
        rotary_of(k, pos_k2, head_dim)->Some_0,
    );
    let half = (head_dim / 2) as nat;
    let f1 = |c: int| times(real_of(val, q1.at4(b, h, t, c)), real_of(val, k1.at4(b, g, u, c)));
    let f2 = |c: int| times(real_of(val, q2.at4(b, h, t, c)), real_of(val, k2.at4(b, g, u, c)));
    assert forall|e: int| 0 <= e < half implies #[trigger] f1(e) + f1(half + e) == f2(e) + f2(
        half + e,
    ) by {
        lemma_pair_turned(val, q, pos_q1, head_dim, b, h, t, e);
        lemma_pair_turned(val, k, pos_k1, head_dim, b, g, u, e);
        lemma_pair_turned(val, q, pos_q2, head_dim, b, h, t, e);
        lemma_pair_turned(val, k, pos_k2, head_dim, b, g, u, e);
        lemma_table_row(val, cos, sin, pos_q1, m1, max_seq_len, head_dim, inv_freq, t, e);
        lemma_table_row(val, cos, sin, pos_k1, n1, max_seq_len, head_dim, inv_freq, u, e);
        lemma_table_row(val, cos, sin, pos_q2, m2, max_seq_len, head_dim, inv_freq, t, e);
        lemma_table_row(val, cos, sin, pos_k2, n2, max_seq_len, head_dim, inv_freq, u, e);
        let d = m2 - m1;
        assert(m1 + t + d == m2 + t && n1 + u + d == n2 + u);
        lemma_angles_add(val, inv_freq, m1 + t, d, e);
        lemma_angles_add(val, inv_freq, n1 + u, d, e);
        lemma_difference_stays(
            val,
            cos,
            sin,
            real_of(val, angle_of(inv_freq, m1 + t, e)),
            real_of(val, angle_of(inv_freq, n1 + u, e)),
            real_of(val, angle_of(inv_freq, d, e)),
        );
        let (p, r) = (
            real_of(val, q.at4(b, h, t, e)),
            real_of(val, q.at4(b, h, t, half + e)),
        );
        let (v, w) = (
            real_of(val, k.at4(b, g, u, e)),
            real_of(val, k.at4(b, g, u, half + e)),
        );
        lemma_pair_product(
            p,
            r,
            cosine_at(val, pos_q1, t, e),
            sine_at(val, pos_q1, t, e),
            v,
            w,
            cosine_at(val, pos_k1, u, e),
            sine_at(val, pos_k1, u, e),
        );
        lemma_pair_product(
            p,
            r,
            cosine_at(val, pos_q2, t, e),
            sine_at(val, pos_q2, t, e),
            v,
            w,
            cosine_at(val, pos_k2, u, e),
            sine_at(val, pos_k2, u, e),
        );
    }
    lemma_products_by_pairs(half, f1, f2);
    assert(half + half == head_dim);
}

} // verus!
