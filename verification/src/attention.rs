//! Grouped-query attention with a cache of keys and values.

use vstd::prelude::*;
use crate::array::{
    blames, cat_why, first_why, matmul_why, turn_why, unless_addressable, unless_float,
    unless_meeting, Array,
};
use crate::config::Config;
use crate::error::ModelError;
use crate::heads::{
    heads_of, heads_why, merge_heads, merged_of, merged_why, repeat_kv, repeat_of, repeat_why,
    split_heads,
};
use crate::layers::{
    dense_maps, dense_of, dense_refused, dense_shape, dense_shaped, dense_sure, dense_why,
    linear_content, linear_outcome, Dense, DenseView, Weights, WeightsView,
};
use crate::rotary::{apply_rotary_emb, rotary_of, rotary_why};
use crate::shape::{lemma_numel_axes, lemma_offset4, lemma_packed_even, numel};
use crate::view::{
    broadcast_sum_of, cat_of, expand_of, lemma_matmul_factor, matmul_of, matmul_shape, scaled_of,
    softmax_of, swapped, transpose_of, ArrayView,
};

verus! {

/// The parameters, sizes and cache of an attention layer.
#[verifier::ext_equal]
pub struct AttentionView {
    /// From a row to its queries, keys and values, side by side.
    pub qkv: DenseView,
    /// From the attended values to a row.
    pub o: DenseView,
    pub heads: usize,
    pub kv_heads: usize,
    pub head_dim: usize,
    pub hidden: usize,
    /// The bits of the double that products of queries and keys are scaled by.
    pub scale: u64,
    /// The keys and values of the positions seen so far.
    pub cache: Option<(ArrayView, ArrayView)>,
}

impl AttentionView {
    /// The width of the keys, and of the values, of a position.
    pub open spec fn kv_width(self) -> int {
        self.kv_heads * self.head_dim
    }

    /// Whether the parameters are those of linear maps, and the sizes do not overflow.
    pub open spec fn shaped(self) -> bool {
        &&& self.hidden + 2 * self.kv_width() <= usize::MAX
        &&& dense_shaped(self.qkv)
        &&& dense_shaped(self.o)
    }

    /// Whether the parameters have the sizes that the layer goes by.
    pub open spec fn consistent(self) -> bool {
        &&& self.hidden + 2 * self.kv_width() <= usize::MAX
        &&& dense_maps(self.qkv, self.hidden, (self.hidden + 2 * self.kv_width()) as usize)
        &&& dense_maps(self.o, self.hidden, self.hidden)
    }

    /// The same layer with another cache.
    pub open spec fn with_cache(self, cache: Option<(ArrayView, ArrayView)>) -> AttentionView {
        AttentionView { cache, ..self }
    }
}

/// The queries, keys and values of the rows of `x`, by head. Queries and keys are turned
/// by the positions `pos`.
#[verifier::opaque]
pub open spec fn projected_of(a: AttentionView, x: ArrayView, pos: ArrayView) -> Option<
    (ArrayView, ArrayView, ArrayView),
> {
    let kv = a.kv_width() as usize;
    let width = x.shape[2];
    match dense_of(a.qkv, x) {
        None => None,
        Some(p) => match (
            heads_of(p, 0, width, a.heads, a.head_dim),
            heads_of(p, width, kv, a.kv_heads, a.head_dim),
            heads_of(p, (width + kv) as usize, kv, a.kv_heads, a.head_dim),
        ) {
            (Some(q), Some(k), Some(v)) => match (
                rotary_of(q, pos, a.head_dim),
                rotary_of(k, pos, a.head_dim),
            ) {
                (Some(q), Some(k)) => Some((q, k, v)),
                _ => None,
            },
            _ => None,
        },
    }
}

/// The reason to refuse to project the rows of `x`.
#[verifier::opaque]
pub open spec fn projected_why(a: AttentionView, x: ArrayView, pos: ArrayView) -> Option<
    ModelError,
> {
    let kv = a.kv_width() as usize;
    let width = x.shape[2];
    first_why(
        dense_why(a.qkv, x),
        dense_of(a.qkv, x),
        |p: ArrayView|
            first_why(
                heads_why(p, 0, width, a.heads, a.head_dim),
                heads_of(p, 0, width, a.heads, a.head_dim),
                |q: ArrayView|
                    first_why(
                        heads_why(p, width, kv, a.kv_heads, a.head_dim),
                        heads_of(p, width, kv, a.kv_heads, a.head_dim),
                        |k: ArrayView|
                            first_why(
                                heads_why(
                                    p,
                                    (width + kv) as usize,
                                    kv,
                                    a.kv_heads,
                                    a.head_dim,
                                ),
                                heads_of(p, (width + kv) as usize, kv, a.kv_heads, a.head_dim),
                                |v: ArrayView|
                                    first_why(
                                        rotary_why(q, pos, a.head_dim),
                                        rotary_of(q, pos, a.head_dim),
                                        |r: ArrayView| rotary_why(k, pos, a.head_dim),
                                    ),
                            ),
                    ),
            ),
    )
}

/// The reason to refuse to add the keys `k` and values `v` to the cache.
pub open spec fn extended_why(
    cache: Option<(ArrayView, ArrayView)>,
    k: ArrayView,
    v: ArrayView,
) -> Option<ModelError> {
    match cache {
        None => None,
        Some((pk, pv)) => first_why(
            cat_why(pk, k, 2),
            cat_of(pk, k, 2),
            |x: ArrayView| cat_why(pv, v, 2),
        ),
    }
}

/// The reason to refuse to add the mask.
pub open spec fn masked_why(w: ArrayView, mask: Option<ArrayView>) -> Option<ModelError> {
    match mask {
        None => None,
        Some(m) => first_why(
            unless_addressable(w.shape),
            expand_of(m, w.shape),
            |m: ArrayView| unless_meeting(w, m),
        ),
    }
}

/// The reason to refuse the scores of the queries `q` and keys `k`.
pub open spec fn scores_why(
    q: ArrayView,
    k: ArrayView,
    scale: u64,
    mask: Option<ArrayView>,
) -> Option<ModelError> {
    first_why(
        turn_why(k),
        transpose_of(k, k.rank() - 2, k.rank() - 1),
        |kt: ArrayView|
            first_why(
                matmul_why(q, kt),
                matmul_of(q, kt),
                |s: ArrayView|
                    first_why(
                        unless_float(s),
                        scaled_of(s, scale),
                        |w: ArrayView| masked_why(w, mask),
                    ),
            ),
    )
}

/// The reason to refuse the averages of the values `v`.
pub open spec fn attended_why(
    q: ArrayView,
    k: ArrayView,
    v: ArrayView,
    n: usize,
    scale: u64,
    mask: Option<ArrayView>,
) -> Option<ModelError> {
    first_why(
        repeat_why(k, n),
        repeat_of(k, n),
        |k: ArrayView|
            first_why(
                repeat_why(v, n),
                repeat_of(v, n),
                |v: ArrayView|
                    first_why(
                        scores_why(q, k, scale, mask),
                        scores_of(q, k, scale, mask),
                        |s: ArrayView|
                            first_why(
                                unless_float(s),
                                softmax_of(s),
                                |w: ArrayView| matmul_why(w, v),
                            ),
                    ),
            ),
    )
}

/// The reason to refuse to add the keys and values of the rows of `x` to the cache.
pub open spec fn cache_why(a: AttentionView, x: ArrayView, pos: ArrayView) -> Option<ModelError> {
    if x.rank() != 3 {
        Some(ModelError::Rank)
    } else {
        match (projected_why(a, x, pos), projected_of(a, x, pos)) {
            (None, Some((_, k, v))) => extended_why(a.cache, k, v),
            (why, _) => why,
        }
    }
}

/// The reason to refuse to apply the layer to the rows of `x`.
pub open spec fn attention_why(
    a: AttentionView,
    x: ArrayView,
    pos: ArrayView,
    mask: Option<ArrayView>,
) -> Option<ModelError> {
    if x.rank() != 3 {
        Some(ModelError::Rank)
    } else {
        match (projected_why(a, x, pos), projected_of(a, x, pos)) {
            (Some(e), _) => Some(e),
            (None, None) => None,
            (None, Some((q, k, v))) => match (
                extended_why(a.cache, k, v),
                extended_of(a.cache, k, v),
            ) {
                (Some(e), _) => Some(e),
                (None, None) => None,
                (None, Some((k, v))) => first_why(
                    attended_why(q, k, v, group_of(a), a.scale, mask),
                    attended_of(q, k, v, group_of(a), a.scale, mask),
                    |y: ArrayView|
                        first_why(
                            merged_why(y, x.shape[0], x.shape[1], a.hidden),
                            merged_of(y, x.shape[0], x.shape[1], a.hidden),
                            |y: ArrayView| dense_why(a.o, y),
                        ),
                ),
            },
        }
    }
}

/// The cache once the keys `k` and values `v` are added at its end.
pub open spec fn extended_of(
    cache: Option<(ArrayView, ArrayView)>,
    k: ArrayView,
    v: ArrayView,
) -> Option<(ArrayView, ArrayView)> {
    match cache {
        None => Some((k, v)),
        Some((pk, pv)) => match (cat_of(pk, k, 2), cat_of(pv, v, 2)) {
            (Some(k), Some(v)) => Some((k, v)),
            _ => None,
        },
    }
}

/// The attention weights with the mask, if there is one, added to each of their
/// matrices.
pub open spec fn masked_of(w: ArrayView, mask: Option<ArrayView>) -> Option<ArrayView> {
    match mask {
        None => Some(w),
        Some(m) => match expand_of(m, w.shape) {
            None => None,
            Some(m) => broadcast_sum_of(w, m),
        },
    }
}

/// The attention that the queries `q` pay to the keys `k`, before it is brought to a sum
/// of one.
pub open spec fn scores_of(
    q: ArrayView,
    k: ArrayView,
    scale: u64,
    mask: Option<ArrayView>,
) -> Option<ArrayView> {
    match transpose_of(k, k.rank() - 2, k.rank() - 1) {
        None => None,
        Some(kt) => match matmul_of(q, kt) {
            None => None,
            Some(s) => match scaled_of(s, scale) {
                None => None,
                Some(w) => masked_of(w, mask),
            },
        },
    }
}

/// The averages of the values `v` by the attention that the queries `q` pay to the keys
/// `k`. Each key head serves `n` query heads.
pub open spec fn attended_of(
    q: ArrayView,
    k: ArrayView,
    v: ArrayView,
    n: usize,
    scale: u64,
    mask: Option<ArrayView>,
) -> Option<ArrayView> {
    match (repeat_of(k, n), repeat_of(v, n)) {
        (Some(k), Some(v)) => match scores_of(q, k, scale, mask) {
            None => None,
            Some(s) => match softmax_of(s) {
                None => None,
                Some(w) => matmul_of(w, v),
            },
        },
        _ => None,
    }
}

/// The cache after the rows of `x` were seen.
pub open spec fn cache_after(a: AttentionView, x: ArrayView, pos: ArrayView) -> Option<
    (ArrayView, ArrayView),
> {
    if x.rank() != 3 {
        None
    } else {
        match projected_of(a, x, pos) {
            None => None,
            Some((_, k, v)) => extended_of(a.cache, k, v),
        }
    }
}

/// What the layer makes of the rows of `x`.
pub open spec fn attention_of(
    a: AttentionView,
    x: ArrayView,
    pos: ArrayView,
    mask: Option<ArrayView>,
) -> Option<ArrayView> {
    match (projected_of(a, x, pos), cache_after(a, x, pos)) {
        (Some((q, _, _)), Some((k, v))) => match attended_of(
            q,
            k,
            v,
            group_of(a),
            a.scale,
            mask,
        ) {
            None => None,
            Some(y) => match merged_of(y, x.shape[0], x.shape[1], a.hidden) {
                None => None,
                Some(y) => dense_of(a.o, y),
            },
        },
        _ => None,
    }
}

/// How many query heads share a key head.
pub open spec fn group_of(a: AttentionView) -> usize {
    (a.heads as int / a.kv_heads as int) as usize
}

/// The attention that the rows of `x` pay to the positions in the cache and to each
/// other, before it is brought to a sum of one.
pub open spec fn row_scores_of(
    a: AttentionView,
    x: ArrayView,
    pos: ArrayView,
    mask: Option<ArrayView>,
) -> Option<ArrayView> {
    match (projected_of(a, x, pos), cache_after(a, x, pos)) {
        (Some((q, _, _)), Some((k, _))) => match repeat_of(k, group_of(a)) {
            None => None,
            Some(k) => scores_of(q, k, a.scale, mask),
        },
        _ => None,
    }
}

/// Whether the layer cannot fail on operands that go together: all is on the CPU, of a
/// kind that can be multiplied there, the scores are not empty, and the key heads are
/// shared, or there is a single sequence, or a single new position and what the cache holds is
/// packed. (Several new positions of several sequences with unshared heads do not lie at equal
/// distances in memory.)
pub open spec fn attention_sure(
    a: AttentionView,
    x: ArrayView,
    pos: ArrayView,
    mask: Option<ArrayView>,
    cached_packed: bool,
) -> bool {
    &&& dense_sure(a.qkv, x)
    &&& dense_sure(a.o, x)
    &&& pos.cpu
    &&& pos.rank() <= 4
    &&& a.cache matches Some((k, v)) ==> k.cpu && v.cpu
    &&& mask matches Some(m) ==> m.cpu
    &&& group_of(a) != 1 || (x.shape[0] == 1 && (pos.rank() == 4 ==> pos.shape[0] == 1)) || (
    x.shape[1] == 1 && cached_packed)
    &&& row_scores_of(a, x, pos, mask) matches Some(s) ==> s.count() > 0
}

/// Whether the keys and values of the rows of `x` cannot fail to be added to the cache if they
/// go together.
pub open spec fn cache_sure(a: AttentionView, x: ArrayView, pos: ArrayView) -> bool {
    &&& dense_sure(a.qkv, x)
    &&& pos.cpu
    &&& a.cache matches Some((k, v)) ==> k.cpu && v.cpu
}

/// What projection makes of `x` keeps its kind and place, and the sequences apart.
proof fn lemma_projected(a: AttentionView, x: ArrayView, pos: ArrayView)
    requires
        x.rank() == 3,
        projected_of(a, x, pos) is Some,
    ensures
        ({
            let (q, k, v) = projected_of(a, x, pos)->Some_0;
            &&& q.kind == x.kind && q.cpu == x.cpu && k.cpu == x.cpu && v.cpu == x.cpu
            &&& pos.rank() <= 4 ==> {
                &&& q.rank() == 4 && k.rank() == 4 && v.rank() == 4
                &&& v.shape[0] == x.shape[0]
                &&& x.shape[0] == 1 && (pos.rank() == 4 ==> pos.shape[0] == 1) ==> k.shape[0] == 1
            }
        }),
{
    reveal(projected_of);
}

/// The cache has the axes of the new keys and values, and as many sequences.
proof fn lemma_extended(a: AttentionView, x: ArrayView, pos: ArrayView)
    requires
        cache_after(a, x, pos) is Some,
        pos.rank() <= 4,
    ensures
        ({
            let (_, k0, v0) = projected_of(a, x, pos)->Some_0;
            let (k, v) = cache_after(a, x, pos)->Some_0;
            &&& k.rank() == k0.rank() && v.rank() == v0.rank()
            &&& k.shape[0] == k0.shape[0]
            &&& v.shape[0] == v0.shape[0]
        }),
{
    lemma_projected(a, x, pos);
}

/// Rows of another width than the layer's are not projected.
proof fn lemma_other_width(a: AttentionView, x: ArrayView, pos: ArrayView)
    requires
        a.consistent(),
        x.rank() == 3,
        x.count() > 0,
        x.shape[2] != a.hidden,
    ensures
        projected_of(a, x, pos) is None,
{
    reveal(projected_of);
    lemma_numel_axes(x.shape);
    assert(x.shape[0] > 0 && x.shape[1] > 0 && x.shape[2] > 0);
    let shape = dense_shape(a.qkv, x);
    if numel(shape) == 0 {
        lemma_numel_axes(shape);
        assert(a.qkv.weight.shape[0] == 0) by {
            if a.qkv.weight.shape[0] > 0 {
                assert forall|d: int| 0 <= d < shape.len() implies #[trigger] shape[d] > 0 by {
                    assert(x.shape[d] > 0);
                }
            }
        }
    }
}

/// Matrices have as many elements as their transposes.
proof fn lemma_turned_count(a: ArrayView)
    requires
        a.rank() == 4,
    ensures
        transpose_of(a, 2, 3)->Some_0.count() == a.count(),
{
    let s = a.shape;
    let t = swapped(s, 2, 3);
    let zero = seq![0int, 0, 0, 0];
    lemma_offset4(s, zero);
    lemma_offset4(t, zero);
    let (b, h, m, n) = (s[0] as int, s[1] as int, s[2] as int, s[3] as int);
    assert(b * h * m * n == b * h * n * m) by (nonlinear_arith);
}

/// The averages of the values `v` by the attention that the queries `q` pay to the keys
/// `k`. Each key head serves `n_rep` query heads.
fn attend(
    q: &Array,
    k: Array,
    v: Array,
    n_rep: usize,
    scale: u64,
    attention_mask: Option<&Array>,
) -> (r: Result<Array, ModelError>)
    ensures
        blames(r, attended_why(q@, k@, v@, n_rep, scale, content(attention_mask))),
        match r {
            Ok(y) => attended_of(q@, k@, v@, n_rep, scale, content(attention_mask)) == Some(y@),
            Err(_) => attended_of(q@, k@, v@, n_rep, scale, content(attention_mask)) is None || !({
                &&& q@.cpu && k@.cpu && v@.cpu
                &&& content(attention_mask) matches Some(m) ==> m.cpu
                &&& q@.kind.multiplies()
                &&& q@.rank() == 4 && k@.rank() == 4 && v@.rank() == 4
                &&& q@.count() > 0 ==> q.even()
                &&& n_rep == 1 ==> (k@.shape[0] == 1 || k.neat()) && (v@.shape[0] == 1
                    || v.neat())
                &&& repeat_of(k@, n_rep) matches Some(kk) ==> (scores_of(
                    q@,
                    kk,
                    scale,
                    content(attention_mask),
                ) matches Some(s) ==> s.count() > 0)
            }),
        },
{
    let k = repeat_kv(k, n_rep)?;
    let v = repeat_kv(v, n_rep)?;
    let kt = k.t()?;
    proof {
        if k@.rank() == 4 && q@.count() > 0 && matmul_of(q@, kt@) is Some && numel(
            matmul_shape(q@.shape, kt@.shape),
        ) > 0 {
            lemma_matmul_factor(q@, kt@);
            lemma_turned_count(k@);
            if k.packed() {
                lemma_packed_even(k@.shape, k.strides());
            }
        }
    }
    let attn_weights = q.matmul(&kt)?;
    let attn_weights = attn_weights.scale(scale)?;
    let attn_weights = match attention_mask {
        Some(mask) => {
            let mask = mask.expand(&attn_weights.dims())?;
            attn_weights.broadcast_add(&mask)?
        },
        None => attn_weights,
    };
    let attn_weights = attn_weights.softmax()?;
    proof {
        if attn_weights@.rank() == 4 && attn_weights@.count() > 0 {
            lemma_packed_even(attn_weights@.shape, attn_weights.strides());
            if v@.rank() == 4 && matmul_of(attn_weights@, v@) is Some && numel(
                matmul_shape(attn_weights@.shape, v@.shape),
            ) > 0 {
                lemma_matmul_factor(attn_weights@, v@);
                if v.packed() {
                    lemma_packed_even(v@.shape, v.strides());
                }
            }
        }
    }
    attn_weights.matmul(&v)
}

/// The content of an optional array.
pub open spec fn content(a: Option<&Array>) -> Option<ArrayView> {
    match a {
        None => None,
        Some(a) => Some(a@),
    }
}

/// Whether there is a reason to refuse an attention layer with the parameters at `w` by `e`:
/// the queries, keys and values of a position are too many to count, or one of the maps is
/// refused.
pub open spec fn attention_refused(e: ModelError, cfg: Config, w: WeightsView) -> bool {
    if cfg.qkv_width() > usize::MAX {
        e == ModelError::TooLarge
    } else {
        ||| dense_refused(e, cfg.hidden_size, cfg.qkv_width() as usize, w.below("qkv"@))
        ||| dense_refused(e, cfg.hidden_size, cfg.hidden_size, w.below("o"@))
    }
}

/// An attention layer.
#[derive(Debug)]
pub struct Attention {
    qkv: Dense,
    o: Dense,
    num_attention_heads: usize,
    num_key_value_heads: usize,
    head_dim: usize,
    hidden_size: usize,
    scale: u64,
    kv_cache: Option<(Array, Array)>,
}

impl View for Attention {
    type V = AttentionView;

    closed spec fn view(&self) -> AttentionView {
        AttentionView {
            qkv: self.qkv@,
            o: self.o@,
            heads: self.num_attention_heads,
            kv_heads: self.num_key_value_heads,
            head_dim: self.head_dim,
            hidden: self.hidden_size,
            scale: self.scale,
            cache: match self.kv_cache {
                None => None,
                Some((k, v)) => Some((k@, v@)),
            },
        }
    }
}

impl Clone for Attention {
    fn clone(&self) -> (r: Self)
        ensures
            r@ == self@,
            r.cached_packed() == self.cached_packed(),
            forall|c: Config, w: WeightsView| #[trigger] r.stored(c, w) == self.stored(c, w),
    {
        Attention {
            qkv: self.qkv.clone(),
            o: self.o.clone(),
            num_attention_heads: self.num_attention_heads,
            num_key_value_heads: self.num_key_value_heads,
            head_dim: self.head_dim,
            hidden_size: self.hidden_size,
            scale: self.scale,
            kv_cache: match &self.kv_cache {
                None => None,
                Some((k, v)) => Some((k.share(), v.share())),
            },
        }
    }
}

impl Attention {
    /// Whether the layer has the parameters at `w`.
    pub closed spec fn stored(&self, cfg: Config, w: WeightsView) -> bool {
        &&& self.qkv.stored(cfg.hidden_size, cfg.qkv_width() as usize, w.below("qkv"@))
        &&& self.o.stored(cfg.hidden_size, cfg.hidden_size, w.below("o"@))
    }

    /// The layer with the parameters at `w` and an empty cache. `scale` holds the bits of
    /// the double that products of queries and keys are scaled by.
    pub fn new(w: &Weights<'_>, cfg: &Config, scale: u64) -> (r: Result<Self, ModelError>)
        ensures
            cfg.qkv_width() > usize::MAX <==> r == Err::<Attention, _>(ModelError::TooLarge),
            r matches Err(e) ==> attention_refused(e, *cfg, w@),
            r matches Ok(a) ==> {
                &&& a.stored(*cfg, w@)
                &&& a@.qkv.bias is Some && a@.o.bias is Some
                &&& a@.heads == cfg.num_attention_heads
                &&& a@.kv_heads == cfg.num_key_value_heads
                &&& a@.head_dim == cfg.head_dim
                &&& a@.hidden == cfg.hidden_size
                &&& a@.scale == scale
                &&& a@.cache is None && a.cached_packed()
            },
            r matches Ok(a) ==> exists|p: candle_nn::Linear|
                #[trigger] linear_outcome(
                    Ok(p),
                    cfg.hidden_size,
                    (cfg.hidden_size + 2 * (cfg.num_key_value_heads * cfg.head_dim)) as usize,
                    w@.below("qkv"@),
                ) && a@.qkv == linear_content(p),
            r matches Ok(a) ==> exists|p: candle_nn::Linear|
                #[trigger] linear_outcome(
                    Ok(p),
                    cfg.hidden_size,
                    cfg.hidden_size,
                    w@.below("o"@),
                ) && a@.o == linear_content(p),
    {
        let hidden_sz: usize = cfg.hidden_size;
        let kv_sz: usize = match cfg.num_key_value_heads.checked_mul(cfg.head_dim) {
            Some(n) => n,
            None => {
                return Err(ModelError::TooLarge);
            },
        };
        let qkv_sz: usize = match kv_sz.checked_mul(2) {
            Some(n) => match n.checked_add(hidden_sz) {
                Some(n) => n,
                None => {
                    return Err(ModelError::TooLarge);
                },
            },
            None => {
                return Err(ModelError::TooLarge);
            },
        };
        let qkv = Dense::new(hidden_sz, qkv_sz, &w.below("qkv"))?;
        let o = Dense::new(hidden_sz, hidden_sz, &w.below("o"))?;
        proof {
            qkv.lemma_kept(hidden_sz, qkv_sz, w@.below("qkv"@));
            o.lemma_kept(hidden_sz, hidden_sz, w@.below("o"@));
        }
        Ok(
            Attention {
                qkv,
                o,
                num_attention_heads: cfg.num_attention_heads,
                num_key_value_heads: cfg.num_key_value_heads,
                head_dim: cfg.head_dim,
                hidden_size: cfg.hidden_size,
                scale,
                kv_cache: None,
            },
        )
    }

    /// Whether the parameters are those of linear maps, and the sizes do not overflow.
    pub fn is_shaped(&self) -> (r: bool)
        ensures
            r == self@.shaped(),
    {
        match self.num_key_value_heads.checked_mul(self.head_dim) {
            None => false,
            Some(kv_sz) => match kv_sz.checked_mul(2) {
                None => false,
                Some(n) => match n.checked_add(self.hidden_size) {
                    None => false,
                    Some(_) => self.qkv.is_shaped() && self.o.is_shaped(),
                },
            },
        }
    }

    /// Whether what the cache holds is packed.
    pub closed spec fn cached_packed(&self) -> bool {
        self.kv_cache matches Some((k, v)) ==> k.neat() && v.neat()
    }

    /// The number of key heads.
    pub fn key_heads(&self) -> (r: usize)
        ensures
            r == self@.kv_heads,
    {
        self.num_key_value_heads
    }

    /// The queries, keys and values of the rows of `xs`.
    fn project(&self, xs: &Array, pos: &Array) -> (r: Result<(Array, Array, Array), ModelError>)
        requires
            self@.shaped(),
            xs@.rank() == 3,
        ensures
            blames(r, projected_why(self@, xs@, pos@)),
            match r {
                Ok((q, k, v)) => {
                    &&& projected_of(self@, xs@, pos@) == Some((q@, k@, v@))
                    &&& q.neat() && k.neat()
                    &&& xs@.shape[1] == 1 ==> v.neat()
                },
                Err(_) => projected_of(self@, xs@, pos@) is None || !dense_sure(self@.qkv, xs@)
                    || !pos@.cpu,
            },
    {
        proof {
            reveal(projected_of);
            reveal(projected_why);
        }
        let hidden_sz: usize = xs.dims()[2];
        let kv_sz: usize = self.num_key_value_heads * self.head_dim;
        let qkv = self.qkv.forward(xs)?;

        let q = split_heads(&qkv, 0, hidden_sz, self.num_attention_heads, self.head_dim)?;
        let k = split_heads(&qkv, hidden_sz, kv_sz, self.num_key_value_heads, self.head_dim)?;
        let v = split_heads(
            &qkv,
            hidden_sz + kv_sz,
            kv_sz,
            self.num_key_value_heads,
            self.head_dim,
        )?;

        let q = apply_rotary_emb(&q, pos, self.head_dim)?;
        let k = apply_rotary_emb(&k, pos, self.head_dim)?;
        Ok((q, k, v))
    }

    /// The cache with the keys `k` and values `v` at its end.
    fn extended(&self, k: Array, v: Array) -> (r: Result<(Array, Array), ModelError>)
        ensures
            blames(r, extended_why(self@.cache, k@, v@)),
            match r {
                Ok((kk, vv)) => {
                    &&& extended_of(self@.cache, k@, v@) == Some((kk@, vv@))
                    &&& self.cached_packed() && k.neat() ==> kk.neat()
                    &&& self.cached_packed() && v.neat() ==> vv.neat()
                },
                Err(_) => extended_of(self@.cache, k@, v@) is None || !k@.cpu || !v@.cpu || (
                self@.cache matches Some((pk, pv)) && (!pk.cpu || !pv.cpu)),
            },
    {
        match &self.kv_cache {
            None => Ok((k, v)),
            Some((prev_k, prev_v)) => {
                let k = prev_k.cat(&k, 2)?;
                let v = prev_v.cat(&v, 2)?;
                Ok((k, v))
            },
        }
    }

    /// The queries of the rows of `xs`, and what the cache holds once their keys and values are
    /// added to it.
    pub fn prepare(&self, xs: &Array, pos: &Array) -> (r: Result<
        (Array, Array, Array),
        ModelError,
    >)
        requires
            self@.shaped(),
        ensures
            blames(r, cache_why(self@, xs@, pos@)),
            match r {
                Ok((q, k, v)) => {
                    &&& xs@.rank() == 3
                    &&& projected_of(self@, xs@, pos@) matches Some((p, _, _)) && p == q@
                    &&& cache_after(self@, xs@, pos@) == Some((k@, v@))
                    &&& q.neat()
                    &&& self.cached_packed() ==> k.neat()
                    &&& self.cached_packed() && xs@.shape[1] == 1 ==> v.neat()
                },
                Err(_) => cache_after(self@, xs@, pos@) is None || !cache_sure(self@, xs@, pos@),
            },
    {
        xs.dims3()?;
        let (q, k, v) = self.project(xs, pos)?;
        proof {
            lemma_projected(self@, xs@, pos@);
        }
        let (k, v) = self.extended(k, v)?;
        Ok((q, k, v))
    }

    /// What the layer makes of the rows of `xs`, which attend to those in the cache and
    /// to each other. Their keys and values are added to the cache, and stay there even
    /// where a later step fails.
    pub fn forward(&mut self, xs: &Array, pos: &Array, attention_mask: Option<&Array>) -> (r: Result<
        Array,
        ModelError,
    >)
        requires
            old(self)@.shaped(),
            old(self)@.kv_heads > 0,
        ensures
            xs@.rank() != 3 ==> r is Err && final(self)@ == old(self)@,
            old(self)@.consistent() && xs@.rank() == 3 && xs@.count() > 0 && xs@.shape[2] != old(
                self)@.hidden ==> r is Err && final(self)@ == old(self)@,
            blames(r, attention_why(old(self)@, xs@, pos@, content(attention_mask))),
            match r {
                Ok(y) => {
                    &&& attention_of(old(self)@, xs@, pos@, content(attention_mask)) == Some(y@)
                    &&& y@.shape == xs@.shape.update(2, old(self)@.o.weight.shape[0])
                    &&& y@.kind == xs@.kind && y@.cpu == xs@.cpu
                    &&& cache_after(old(self)@, xs@, pos@) is Some
                    &&& final(self)@ == old(self)@.with_cache(cache_after(old(self)@, xs@, pos@))
                },
                Err(_) => {
                    &&& attention_of(old(self)@, xs@, pos@, content(attention_mask)) is None
                        || !attention_sure(
                        old(self)@,
                        xs@,
                        pos@,
                        content(attention_mask),
                        old(self).cached_packed(),
                    )
                    &&& final(self)@ == old(self)@ || (cache_after(old(self)@, xs@, pos@) is Some
                        && final(self)@ == old(self)@.with_cache(
                        cache_after(old(self)@, xs@, pos@),
                    ))
                    &&& cache_after(old(self)@, xs@, pos@) is Some && cache_sure(
                        old(self)@,
                        xs@,
                        pos@,
                    ) ==> final(self)@ == old(self)@.with_cache(
                        cache_after(old(self)@, xs@, pos@),
                    )
                },
            },
            r matches Ok(y) ==> y.packed(),
            old(self).cached_packed() && xs@.rank() == 3 && xs@.shape[1] == 1 ==> final(
                self
            ).cached_packed(),
            forall|c: Config, w: WeightsView| #[trigger]
                final(self).stored(c, w) == old(self).stored(c, w),
    {
        let (b_sz, seq_len, _) = xs.dims3()?;
        proof {
            if self@.consistent() && xs@.count() > 0 && xs@.shape[2] != self@.hidden {
                lemma_other_width(self@, xs@, pos@);
            }
        }
        let (q, k, v) = self.prepare(xs, pos)?;
        proof {
            lemma_projected(self@, xs@, pos@);
            if pos@.rank() <= 4 {
                lemma_extended(self@, xs@, pos@);
            }
        }
        self.kv_cache = Some((k.share(), v.share()));
        proof {
            assert(self@ =~= old(self)@.with_cache(cache_after(old(self)@, xs@, pos@)));
            if q@.rank() == 4 && q@.count() > 0 {
                lemma_packed_even(q@.shape, q.strides());
            }
        }
        let n_rep: usize = self.num_attention_heads / self.num_key_value_heads;
        let y = attend(&q, k, v, n_rep, self.scale, attention_mask)?;
        let y = merge_heads(&y, b_sz, seq_len, self.hidden_size)?;
        proof {
            assert(y@.shape =~= seq![xs@.shape[0], xs@.shape[1], old(self)@.hidden]);
            assert(dense_shape(old(self)@.o, y@) =~= xs@.shape.update(
                2,
                old(self)@.o.weight.shape[0],
            ));
        }
        self.o.forward(&y)
    }

    /// Forgets the keys and values of the positions seen so far.
    pub fn clear_kv_cache(&mut self)
        ensures
            final(self)@ == old(self)@.with_cache(None),
            final(self).cached_packed(),
            forall|c: Config, w: WeightsView| #[trigger]
                final(self).stored(c, w) == old(self).stored(c, w),
    {
        self.kv_cache = None;
    }
}

} // verus!
