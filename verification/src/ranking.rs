//! The order of scores, which are single-precision numbers given by their bits, and the
//! ranking of positions by their scores. Bits that belong to no number exceed nothing and
//! are exceeded by nothing; in a ranking they have the place of their magnitude.

use vstd::prelude::*;

verus! {

/// The bit that tells negative numbers.
pub const SIGN: u32 = 0x8000_0000;

/// The bits of positive infinity. Greater magnitudes belong to no number.
pub const INFINITY: u32 = 0x7f80_0000;

/// The bits of `x` without its sign.
pub open spec fn magnitude_of(x: u32) -> int {
    if x >= SIGN {
        x - SIGN
    } else {
        x as int
    }
}

/// An integer by which the number with the bits `x` is ordered among the others. Both
/// zeros have the same place.
pub open spec fn place_of(x: u32) -> int {
    if x >= SIGN {
        -magnitude_of(x)
    } else {
        magnitude_of(x)
    }
}

/// Whether the bits `x` belong to a number.
pub open spec fn is_number(x: u32) -> bool {
    magnitude_of(x) <= INFINITY
}

/// Whether the number with the bits `x` is greater than the one with the bits `y`.
pub open spec fn exceeds(x: u32, y: u32) -> bool {
    is_number(x) && is_number(y) && place_of(x) > place_of(y)
}

/// Whether the number with the bits `x` is not positive.
pub open spec fn not_positive(x: u32) -> bool {
    is_number(x) && place_of(x) <= 0
}

/// Whether position `i` comes before position `j`: its score is greater, or they are
/// equal and it stands first.
pub open spec fn outranks(scores: Seq<u32>, i: int, j: int) -> bool {
    place_of(scores[i]) > place_of(scores[j]) || (place_of(scores[i]) == place_of(scores[j]) && i
        < j)
}

/// Whether the positions in `order` are in the order of their ranks.
pub open spec fn descends(scores: Seq<u32>, order: Seq<usize>) -> bool {
    forall|p: int, q: int|
        0 <= p < q < order.len() ==> outranks(
            scores,
            #[trigger] order[p] as int,
            #[trigger] order[q] as int,
        )
}

/// Whether `order` holds the positions from `lo` up to `hi`, and no other.
pub open spec fn covers(order: Seq<usize>, lo: int, hi: int) -> bool {
    &&& order.len() == hi - lo
    &&& forall|p: int| 0 <= p < order.len() ==> lo <= #[trigger] order[p] < hi
    &&& forall|i: usize| lo <= i < hi ==> #[trigger] order.contains(i)
}

/// Whether `order` holds the positions of the greatest scores in the order of their ranks:
/// each of them outranks every position that is left out.
pub open spec fn leads(scores: Seq<u32>, order: Seq<usize>) -> bool {
    &&& forall|p: int| 0 <= p < order.len() ==> (#[trigger] order[p] as int) < scores.len()
    &&& descends(scores, order)
    &&& forall|p: int, i: usize|
        0 <= p < order.len() && (i as int) < scores.len() && !#[trigger] order.contains(i)
            ==> outranks(scores, #[trigger] order[p] as int, i as int)
}

/// An integer by which the number with the bits `x` is ordered among the others.
pub fn place(x: u32) -> (r: i64)
    ensures
        r == place_of(x),
{
    if x >= SIGN {
        -((x - SIGN) as i64)
    } else {
        x as i64
    }
}

/// Whether the bits `x` belong to a number.
fn of_number(x: u32) -> (r: bool)
    ensures
        r == is_number(x),
{
    if x >= SIGN {
        x - SIGN <= INFINITY
    } else {
        x <= INFINITY
    }
}

/// Whether the number with the bits `x` is greater than the one with the bits `y`.
pub fn is_greater(x: u32, y: u32) -> (r: bool)
    ensures
        r == exceeds(x, y),
{
    of_number(x) && of_number(y) && place(x) > place(y)
}

/// Whether the number with the bits `x` is not positive.
pub fn is_not_positive(x: u32) -> (r: bool)
    ensures
        r == not_positive(x),
{
    of_number(x) && place(x) <= 0
}

/// Two runs of positions in one, in the order of their ranks. Every position in `a` is
/// below `mid`, and every one in `b` is not.
fn merge(scores: &Vec<u32>, a: &Vec<usize>, b: &Vec<usize>, lo: usize, mid: usize, hi: usize) -> (r:
    Vec<usize>)
    requires
        lo <= mid <= hi <= scores@.len(),
        covers(a@, lo as int, mid as int),
        covers(b@, mid as int, hi as int),
        descends(scores@, a@),
        descends(scores@, b@),
    ensures
        covers(r@, lo as int, hi as int),
        descends(scores@, r@),
{
    let mut r: Vec<usize> = Vec::new();
    let mut i: usize = 0;
    let mut j: usize = 0;
    let ghost s = scores@;
    while i < a.len() || j < b.len()
        invariant
            s == scores@,
            lo <= mid <= hi <= s.len(),
            covers(a@, lo as int, mid as int),
            covers(b@, mid as int, hi as int),
            descends(s, a@),
            descends(s, b@),
            i <= a@.len(),
            j <= b@.len(),
            r@.len() == i + j,
            descends(s, r@),
            forall|p: int| 0 <= p < r@.len() ==> lo <= #[trigger] r@[p] < hi,
            forall|p: int, q: int|
                0 <= p < r@.len() && i <= q < a@.len() ==> outranks(
                    s,
                    #[trigger] r@[p] as int,
                    #[trigger] a@[q] as int,
                ),
            forall|p: int, q: int|
                0 <= p < r@.len() && j <= q < b@.len() ==> outranks(
                    s,
                    #[trigger] r@[p] as int,
                    #[trigger] b@[q] as int,
                ),
            forall|q: int| 0 <= q < i ==> r@.contains(#[trigger] a@[q]),
            forall|q: int| 0 <= q < j ==> r@.contains(#[trigger] b@[q]),
        decreases a@.len() + b@.len() - i - j,
    {
        let first: bool = if i == a.len() {
            false
        } else if j == b.len() {
            true
        } else {
            place(scores[a[i]]) >= place(scores[b[j]])
        };
        let ghost before = r@;
        if first {
            proof {
                assert forall|q: int| j <= q < b@.len() implies outranks(
                    s,
                    a@[i as int] as int,
                    #[trigger] b@[q] as int,
                ) by {
                    assert(outranks(s, a@[i as int] as int, b@[j as int] as int));
                    if q > j {
                        assert(outranks(s, b@[j as int] as int, b@[q] as int));
                    }
                }
            }
            r.push(a[i]);
            i = i + 1;
        } else {
            proof {
                assert forall|q: int| i <= q < a@.len() implies outranks(
                    s,
                    b@[j as int] as int,
                    #[trigger] a@[q] as int,
                ) by {
                    assert(outranks(s, b@[j as int] as int, a@[i as int] as int));
                    if q > i {
                        assert(outranks(s, a@[i as int] as int, a@[q] as int));
                    }
                }
            }
            r.push(b[j]);
            j = j + 1;
        }
        proof {
            assert(r@[r@.len() - 1] == r@.last());
            assert forall|x: usize| before.contains(x) implies #[trigger] r@.contains(x) by {
                let p = choose|p: int| 0 <= p < before.len() && before[p] == x;
                assert(r@[p] == x);
            }
        }
    }
    proof {
        assert forall|x: usize| lo <= x < hi implies #[trigger] r@.contains(x) by {
            if x < mid {
                assert(a@.contains(x));
                let q = choose|q: int| 0 <= q < a@.len() && a@[q] == x;
                assert(r@.contains(a@[q]));
            } else {
                assert(b@.contains(x));
                let q = choose|q: int| 0 <= q < b@.len() && b@[q] == x;
                assert(r@.contains(b@[q]));
            }
        }
    }
    r
}

/// The positions from `lo` up to `hi` in the order of their ranks.
fn ranked_range(scores: &Vec<u32>, lo: usize, hi: usize) -> (r: Vec<usize>)
    requires
        lo <= hi <= scores@.len(),
    ensures
        covers(r@, lo as int, hi as int),
        descends(scores@, r@),
    decreases hi - lo,
{
    if lo == hi {
        Vec::new()
    } else if hi - lo == 1 {
        let mut r: Vec<usize> = Vec::new();
        r.push(lo);
        assert(r@[0] == lo);
        r
    } else {
        let mid: usize = lo + (hi - lo) / 2;
        let a = ranked_range(scores, lo, mid);
        let b = ranked_range(scores, mid, hi);
        merge(scores, &a, &b, lo, mid, hi)
    }
}

/// The positions of the `k` greatest scores, or of all scores where there are fewer, in
/// the order of their ranks.
pub fn leading(scores: &Vec<u32>, k: usize) -> (r: Vec<usize>)
    ensures
        leads(scores@, r@),
        r@.len() == if k <= scores@.len() {
            k as int
        } else {
            scores@.len() as int
        },
{
    let all = ranked_range(scores, 0, scores.len());
    let n: usize = if k <= all.len() {
        k
    } else {
        all.len()
    };
    let mut r: Vec<usize> = Vec::new();
    let mut i: usize = 0;
    while i < n
        invariant
            i <= n <= all@.len(),
            r@ == all@.subrange(0, i as int),
        decreases n - i,
    {
        r.push(all[i]);
        i = i + 1;
        proof {
            assert(r@ =~= all@.subrange(0, i as int));
        }
    }
    proof {
        let s = scores@;
        assert forall|p: int, j: usize|
            0 <= p < r@.len() && (j as int) < s.len() && !#[trigger] r@.contains(j) implies outranks(
            s,
            #[trigger] r@[p] as int,
            j as int,
        ) by {
            assert(all@.contains(j));
            let q = choose|q: int| 0 <= q < all@.len() && all@[q] == j;
            if q < n {
                assert(r@[q] == j);
            }
            assert(outranks(s, all@[p] as int, all@[q] as int));
        }
    }
    r
}

/// There is one ranking of a given length.
pub proof fn law_leading_unique(scores: Seq<u32>, a: Seq<usize>, b: Seq<usize>)
    requires
        leads(scores, a),
        leads(scores, b),
        a.len() == b.len(),
    ensures
        a == b,
{
    assert forall|p: int| 0 <= p < a.len() implies a[p] == b[p] by {
        lemma_same_at(scores, a, b, p);
    }
    assert(a =~= b);
}

proof fn lemma_same_at(scores: Seq<u32>, a: Seq<usize>, b: Seq<usize>, p: int)
    requires
        leads(scores, a),
        leads(scores, b),
        a.len() == b.len(),
        0 <= p < a.len(),
    ensures
        a[p] == b[p],
    decreases p,
{
    assert forall|q: int| 0 <= q < p implies a[q] == b[q] by {
        lemma_same_at(scores, a, b, q);
    }
    if a[p] != b[p] {
        if outranks(scores, a[p] as int, b[p] as int) {
            lemma_not_later(scores, b, a, p);
        } else {
            lemma_not_later(scores, a, b, p);
        }
    }
}

/// What comes at `p` in `b`, and differs from what comes there in `a`, does not outrank
/// it, where the two agree up to there.
proof fn lemma_not_later(scores: Seq<u32>, a: Seq<usize>, b: Seq<usize>, p: int)
    requires
        leads(scores, a),
        leads(scores, b),
        a.len() == b.len(),
        0 <= p < a.len(),
        forall|q: int| 0 <= q < p ==> a[q] == b[q],
        a[p] != b[p],
    ensures
        !outranks(scores, b[p] as int, a[p] as int),
{
    if outranks(scores, b[p] as int, a[p] as int) {
        if a.contains(b[p]) {
            let q = choose|q: int| 0 <= q < a.len() && a[q] == b[p];
            if q < p {
                assert(outranks(scores, b[q] as int, b[p] as int));
            } else if q > p {
                assert(outranks(scores, a[p] as int, a[q] as int));
            }
        } else {
            assert(outranks(scores, a[p] as int, b[p] as int));
        }
    }
}

/// The first of the leading positions are the leading positions of a smaller number.
pub proof fn law_leading_prefix(scores: Seq<u32>, order: Seq<usize>, n: int)
    requires
        leads(scores, order),
        0 <= n <= order.len(),
    ensures
        leads(scores, order.subrange(0, n)),
{
    let head = order.subrange(0, n);
    assert forall|p: int, i: usize|
        0 <= p < head.len() && (i as int) < scores.len() && !#[trigger] head.contains(
            i,
        ) implies outranks(scores, #[trigger] head[p] as int, i as int) by {
        if order.contains(i) {
            let q = choose|q: int| 0 <= q < order.len() && order[q] == i;
            if q < n {
                assert(head[q] == i);
            }
            assert(outranks(scores, order[p] as int, order[q] as int));
        } else {
            assert(outranks(scores, order[p] as int, i as int));
        }
    }
}

/// Where position `m`, which is greater than those in `order`, belongs among them: behind
/// the last one whose score is not smaller.
spec fn spot(scores: Seq<u32>, order: Seq<usize>, m: int) -> nat
    decreases order.len(),
{
    if order.len() == 0 {
        0
    } else if place_of(scores[order.last() as int]) >= place_of(scores[m]) {
        order.len()
    } else {
        spot(scores, order.drop_last(), m)
    }
}

proof fn lemma_spot(scores: Seq<u32>, order: Seq<usize>, m: int)
    requires
        descends(scores, order),
    ensures
        spot(scores, order, m) <= order.len(),
        forall|p: int|
            0 <= p < spot(scores, order, m) ==> place_of(scores[#[trigger] order[p] as int])
                >= place_of(scores[m]),
        forall|p: int|
            spot(scores, order, m) <= p < order.len() ==> place_of(
                scores[#[trigger] order[p] as int],
            ) < place_of(scores[m]),
    decreases order.len(),
{
    if order.len() > 0 {
        let last = order.len() - 1;
        if place_of(scores[order.last() as int]) >= place_of(scores[m]) {
            assert forall|p: int| 0 <= p < order.len() implies place_of(
                scores[#[trigger] order[p] as int],
            ) >= place_of(scores[m]) by {
                if p < last {
                    assert(outranks(scores, order[p] as int, order[last] as int));
                }
            }
        } else {
            let rest = order.drop_last();
            assert(descends(scores, rest));
            lemma_spot(scores, rest, m);
            assert forall|p: int| 0 <= p < rest.len() implies #[trigger] order[p] == rest[p] by {
            }
        }
    }
}

/// The first `n` positions have a ranking.
proof fn lemma_ranked(scores: Seq<u32>, n: nat) -> (order: Seq<usize>)
    requires
        n <= scores.len(),
        n <= usize::MAX,
    ensures
        covers(order, 0, n as int),
        descends(scores, order),
    decreases n,
{
    if n == 0 {
        Seq::empty()
    } else {
        let m = (n - 1) as usize;
        let rest = lemma_ranked(scores, m as nat);
        let p = spot(scores, rest, m as int) as int;
        lemma_spot(scores, rest, m as int);
        let order = rest.insert(p, m);
        assert forall|a: int, b: int| 0 <= a < b < order.len() implies outranks(
            scores,
            #[trigger] order[a] as int,
            #[trigger] order[b] as int,
        ) by {
            let ra = if a < p {
                a
            } else {
                a - 1
            };
            let rb = if b < p {
                b
            } else {
                b - 1
            };
            if a != p && b != p {
                assert(order[a] == rest[ra] && order[b] == rest[rb]);
                assert(outranks(scores, rest[ra] as int, rest[rb] as int));
            } else if a == p {
                assert(order[b] == rest[rb]);
            } else {
                assert(order[a] == rest[ra]);
            }
        }
        assert forall|i: usize| 0 <= i < n implies #[trigger] order.contains(i) by {
            if i == m {
                assert(order[p] == i);
            } else {
                assert(rest.contains(i));
                let q = choose|q: int| 0 <= q < rest.len() && rest[q] == i;
                assert(order[if q < p {
                    q
                } else {
                    q + 1
                }] == i);
            }
        }
        assert forall|q: int| 0 <= q < order.len() implies 0 <= #[trigger] order[q] < n by {
            if q < p {
                assert(order[q] == rest[q]);
            } else if q > p {
                assert(order[q] == rest[q - 1]);
            }
        }
        order
    }
}

/// Among any scores there are leading positions of every number up to that of the scores.
pub proof fn law_leading_exists(scores: Seq<u32>, n: nat)
    requires
        n <= scores.len() <= usize::MAX,
    ensures
        exists|order: Seq<usize>| #[trigger] leads(scores, order) && order.len() == n,
{
    let all = lemma_ranked(scores, scores.len());
    assert(leads(scores, all));
    law_leading_prefix(scores, all, n as int);
    assert(leads(scores, all.subrange(0, n as int)));
}

} // verus!
