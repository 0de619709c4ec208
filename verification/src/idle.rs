//! Parts of a layer that add nothing, over the real numbers.

use vstd::prelude::*;
use crate::attention::attention_of;
use crate::decoder::{layer_of, LayerView};
use crate::formulas::{law_feed_forward_written_out, law_layer_written_out};
use crate::layers::{dense_of, norm_of, DenseView};
use crate::pieces::law_attention_in_steps;
use crate::shape::in_bounds;
use crate::turning::{dot_of, is_real, lemma_units, real_of, times, total};
use crate::view::{ArrayView, Scalar};

verus! {

/// Whether the weights and the bias of a map all stand for zero.
pub open spec fn is_zero(val: spec_fn(Scalar) -> real, d: DenseView) -> bool {
    &&& forall|i: Seq<int>| real_of(val, #[trigger] d.weight.at(i)) == 0real
    &&& forall|i: Seq<int>| real_of(val, #[trigger] d.bias->Some_0.at(i)) == 0real
}

proof fn lemma_total_of_zeros(n: nat, f: spec_fn(int) -> real)
    requires
        forall|i: int| 0 <= i < n ==> #[trigger] f(i) == 0real,
    ensures
        total(n, f) == 0real,
    decreases n,
{
    if n > 0 {
        lemma_total_of_zeros((n - 1) as nat, f);
        assert(f(n - 1) == 0real);
    }
}

/// A sum of products with zeros, plus zero, is zero.
proof fn lemma_zero_image(
    val: spec_fn(Scalar) -> real,
    r: Seq<Scalar>,
    s: Seq<Scalar>,
    c: Scalar,
)
    requires
        is_real(val),
        r.len() == s.len(),
        forall|i: int| 0 <= i < s.len() ==> real_of(val, #[trigger] s[i]) == 0real,
        real_of(val, c) == 0real,
    ensures
        real_of(val, Scalar::Add(Box::new(Scalar::Dot(r, s)), Box::new(c))) == 0real,
{
    reveal(is_real);
    let f = |i: int| times(real_of(val, r[i]), real_of(val, s[i]));
    assert forall|i: int| 0 <= i < r.len() implies #[trigger] f(i) == 0real by {
        lemma_units(0real, real_of(val, r[i]), 0real, 0real);
        assert(real_of(val, s[i]) == 0real);
    }
    lemma_total_of_zeros(r.len(), f);
    assert(real_of(val, Scalar::Dot(r, s)) == dot_of(val, r, s));
}

/// A layer whose network maps everything to zero gives back the rows with what attention makes of
/// their normalization added, and nothing else: the sum itself is passed on, and not its
/// normalization.
pub proof fn law_idle_network(
    val: spec_fn(Scalar) -> real,
    l: LayerView,
    x: ArrayView,
    packed: bool,
    pos: ArrayView,
    mask: Option<ArrayView>,
    i: Seq<int>,
)
    requires
        is_real(val),
        is_zero(val, l.mlp.down),
        layer_of(l, x, packed, pos, mask) is Some,
        in_bounds(x.shape, i),
    ensures
        ({
            let y = layer_of(l, x, packed, pos, mask)->Some_0;
            let n = norm_of(l.input_layernorm, x, packed)->Some_0;
            let u = attention_of(l.self_attn, n, pos, mask)->Some_0;
            &&& y.shape == x.shape
            &&& real_of(val, y.at(i)) == real_of(val, u.at(i)) + real_of(val, x.at(i))
        }),
{
    let y = layer_of(l, x, packed, pos, mask)->Some_0;
    let (n, u, v, f) = law_layer_written_out(l, x, packed, pos, mask);
    law_feed_forward_written_out(l.mlp, v, i);
    let last = v.rank() - 1;
    assert(f.at(i) matches Scalar::Add(p, c) && *p is Dot);
    let (p, c) = match f.at(i) {
        Scalar::Add(p, c) => (*p, *c),
        _ => (f.at(i), f.at(i)),
    };
    let (r, s) = match p {
        Scalar::Dot(r, s) => (r, s),
        _ => (Seq::empty(), Seq::empty()),
    };
    let k = l.mlp.gate.weight.shape[0] as nat;
    assert(s == Seq::new(k, |j: int| l.mlp.down.weight.at(seq![i[last], j])));
    assert(r.len() == k);
    assert(c == l.mlp.down.bias->Some_0.at(seq![i[last]]));
    assert forall|j: int| 0 <= j < s.len() implies real_of(val, #[trigger] s[j]) == 0real by {
        assert(s[j] == l.mlp.down.weight.at(seq![i[last], j]));
    }
    lemma_zero_image(val, r, s, c);
    assert(y.at(i) == Scalar::Add(
        Box::new(f.at(i)),
        Box::new(Scalar::Add(Box::new(u.at(i)), Box::new(x.at(i)))),
    ));
    reveal(is_real);
}

/// A layer whose second map of attention and whose network map everything to zero gives back its
/// rows.
pub proof fn law_idle_layer(
    val: spec_fn(Scalar) -> real,
    l: LayerView,
    x: ArrayView,
    packed: bool,
    pos: ArrayView,
    mask: Option<ArrayView>,
    i: Seq<int>,
)
    requires
        is_real(val),
        is_zero(val, l.mlp.down),
        is_zero(val, l.self_attn.o),
        l.self_attn.kv_heads > 0,
        layer_of(l, x, packed, pos, mask) is Some,
        in_bounds(x.shape, i),
    ensures
        real_of(val, layer_of(l, x, packed, pos, mask)->Some_0.at(i)) == real_of(val, x.at(i)),
{
    law_idle_network(val, l, x, packed, pos, mask, i);
    let (n, u, v, f) = law_layer_written_out(l, x, packed, pos, mask);
    law_attention_in_steps(l.self_attn, n, pos, mask);
    lemma_zero_rows(val, l.self_attn.o, u, i);
}

/// What a map makes stands for zero where the map does.
proof fn lemma_zero_rows(val: spec_fn(Scalar) -> real, d: DenseView, u: ArrayView, i: Seq<int>)
    requires
        is_real(val),
        is_zero(val, d),
        exists|x: ArrayView| #[trigger] dense_of(d, x) == Some(u),
        in_bounds(u.shape, i),
    ensures
        real_of(val, u.at(i)) == 0real,
{
    let x = choose|x: ArrayView| #[trigger] dense_of(d, x) == Some(u);
    let last = x.rank() - 1;
    let k = x.shape[last] as nat;
    let r = Seq::new(k, |c: int| x.at(i.update(last, c)));
    let s = Seq::new(k, |c: int| d.weight.at(seq![i[last], c]));
    let c = d.bias->Some_0.at(seq![i[last]]);
    assert(u.at(i) == Scalar::Add(Box::new(Scalar::Dot(r, s)), Box::new(c)));
    assert forall|j: int| 0 <= j < s.len() implies real_of(val, #[trigger] s[j]) == 0real by {
        assert(s[j] == d.weight.at(seq![i[last], j]));
    }
    lemma_zero_image(val, r, s, c);
}

} // verus!
