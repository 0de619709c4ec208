//! What is refused, and why, written out.

use vstd::prelude::*;
use crate::array::{
    blames, cat_why, matmul_why, refuses, unless_addressable, unless_float, yields, Array,
};
use crate::attention::{attention_why, cache_why, content};
use crate::config::Config;
use crate::decoder::{
    layer_kept_at, layer_refused, layer_why, DecoderLayer, LayerView,
};
use crate::error::ModelError;
use crate::generation::last_scores_why;
use crate::heads::repeat_why;
use crate::layers::{
    dense_why, embedding_outcome, layer_norm_content, layer_norm_outcome, linear_content,
    linear_outcome, lookup_of, lookup_why, norm_of, norm_why, DenseView, LookupView, NormView,
    WeightsView,
};
use crate::model::{
    forward_why, held, layer_views, model_refused, prepare_why, ModelView,
};
use crate::names::{decimal_of, layer_name_of};
use crate::pieces::law_mask_written_out;
use crate::rotary::{rotary_table_of, rotary_why, table_refused};
use crate::shape::{addressable, common_shape, lemma_no_position};
use crate::view::ArrayView;

verus! {

/// What a model must be like to be applied: a table of rows of the length that it hands out,
/// maps with a matrix and a bias for each of its rows, normalizations that remove the mean and
/// have a gain and a bias for each number, and widths that can be counted.
pub proof fn law_shape_written_out(m: ModelView)
    ensures
        m.shaped() <==> {
            &&& m.embed_tokens.table.shape.len() == 2
            &&& m.embed_tokens.table.shape[1] == m.embed_tokens.width
            &&& m.norm.weight.shape.len() == 1
            &&& m.norm.bias matches Some(b) && b.shape == seq![m.norm.weight.shape[0]]
            &&& m.norm.remove_mean
            &&& m.lm_head.weight.shape.len() == 2
            &&& m.lm_head.bias matches Some(b) && b.shape == seq![m.lm_head.weight.shape[0]]
            &&& forall|i: int|
                0 <= i < m.layers.len() ==> {
                    let l = #[trigger] m.layers[i];
                    let a = l.self_attn;
                    &&& a.hidden + 2 * (a.kv_heads * a.head_dim) <= usize::MAX
                    &&& a.qkv.weight.shape.len() == 2
                    &&& a.qkv.bias matches Some(b) && b.shape == seq![a.qkv.weight.shape[0]]
                    &&& a.o.weight.shape.len() == 2
                    &&& a.o.bias matches Some(b) && b.shape == seq![a.o.weight.shape[0]]
                    &&& l.mlp.gate.weight.shape.len() == 2
                    &&& l.mlp.gate.bias matches Some(b) && b.shape == seq![
                        l.mlp.gate.weight.shape[0],
                    ]
                    &&& l.mlp.up.weight.shape.len() == 2
                    &&& l.mlp.up.bias matches Some(b) && b.shape == seq![
                        l.mlp.up.weight.shape[0],
                    ]
                    &&& l.mlp.down.weight.shape.len() == 2
                    &&& l.mlp.down.bias matches Some(b) && b.shape == seq![
                        l.mlp.down.weight.shape[0],
                    ]
                    &&& l.input_layernorm.weight.shape.len() == 1
                    &&& l.input_layernorm.bias matches Some(b) && b.shape == seq![
                        l.input_layernorm.weight.shape[0],
                    ]
                    &&& l.input_layernorm.remove_mean
                    &&& l.post_attention_layernorm.weight.shape.len() == 1
                    &&& l.post_attention_layernorm.bias matches Some(b) && b.shape == seq![
                        l.post_attention_layernorm.weight.shape[0],
                    ]
                    &&& l.post_attention_layernorm.remove_mean
                }
        },
        m.proper() <==> {
            &&& m.norm.weight.shape[0] > 0
            &&& forall|i: int|
                0 <= i < m.layers.len() ==> {
                    let l = #[trigger] m.layers[i];
                    &&& l.input_layernorm.weight.shape[0] > 0
                    &&& l.post_attention_layernorm.weight.shape[0] > 0
                    &&& l.self_attn.kv_heads > 0
                }
        },
        m.begins() <==> m.layers.len() > 0 && m.layers[0].input_layernorm.weight.shape[0] > 0,
        m.centers() <==> {
            &&& m.norm.remove_mean
            &&& forall|i: int|
                0 <= i < m.layers.len() ==> {
                    let l = #[trigger] m.layers[i];
                    l.input_layernorm.remove_mean && l.post_attention_layernorm.remove_mean
                }
        },
{
    assert forall|i: int| 0 <= i < m.layers.len() implies ({
        let l = #[trigger] m.layers[i];
        let a = l.self_attn;
        l.shaped() <==> {
            &&& a.hidden + 2 * (a.kv_heads * a.head_dim) <= usize::MAX
            &&& a.qkv.weight.shape.len() == 2
            &&& a.qkv.bias matches Some(b) && b.shape == seq![a.qkv.weight.shape[0]]
            &&& a.o.weight.shape.len() == 2
            &&& a.o.bias matches Some(b) && b.shape == seq![a.o.weight.shape[0]]
            &&& l.mlp.gate.weight.shape.len() == 2
            &&& l.mlp.gate.bias matches Some(b) && b.shape == seq![l.mlp.gate.weight.shape[0]]
            &&& l.mlp.up.weight.shape.len() == 2
            &&& l.mlp.up.bias matches Some(b) && b.shape == seq![l.mlp.up.weight.shape[0]]
            &&& l.mlp.down.weight.shape.len() == 2
            &&& l.mlp.down.bias matches Some(b) && b.shape == seq![l.mlp.down.weight.shape[0]]
            &&& l.input_layernorm.weight.shape.len() == 1
            &&& l.input_layernorm.bias matches Some(b) && b.shape == seq![
                l.input_layernorm.weight.shape[0],
            ]
            &&& l.input_layernorm.remove_mean
            &&& l.post_attention_layernorm.weight.shape.len() == 1
            &&& l.post_attention_layernorm.bias matches Some(b) && b.shape == seq![
                l.post_attention_layernorm.weight.shape[0],
            ]
            &&& l.post_attention_layernorm.remove_mean
        }
    }) by {
        let l = m.layers[i];
        lemma_pair(l.self_attn.qkv.weight.shape);
        lemma_pair(l.self_attn.o.weight.shape);
        lemma_pair(l.mlp.gate.weight.shape);
        lemma_pair(l.mlp.up.weight.shape);
        lemma_pair(l.mlp.down.weight.shape);
        lemma_single(l.input_layernorm.weight.shape);
        lemma_single(l.post_attention_layernorm.weight.shape);
    }
    lemma_pair(m.lm_head.weight.shape);
    lemma_single(m.norm.weight.shape);
}

proof fn lemma_pair(s: Seq<usize>)
    ensures
        s.len() == 2 ==> s == seq![s[0], s[1]],
{
    if s.len() == 2 {
        assert(s =~= seq![s[0], s[1]]);
    }
}

proof fn lemma_single(s: Seq<usize>)
    ensures
        s.len() == 1 ==> s == seq![s[0]],
{
    if s.len() == 1 {
        assert(s =~= seq![s[0]]);
    }
}

/// A pass refuses sequences that are no matrix, that are too long for a mask or too many for
/// rows, that hold no integers, and tokens where the table is empty.
pub proof fn law_sequences_refused(m: ModelView, ids: ArrayView, pos: ArrayView)
    ensures
        ({
            let n = ids.shape[1];
            let (long, wide) = (
                n > 1 && n * n > usize::MAX,
                !addressable(ids.shape.push(m.embed_tokens.width)),
            );
            let integers = ids.kind is U8 || ids.kind is U32 || ids.kind is I64;
            let why = if ids.rank() != 2 {
                Some(ModelError::Rank)
            } else if long || wide {
                Some(ModelError::TooLarge)
            } else if !integers {
                Some(ModelError::Kind)
            } else if m.embed_tokens.table.count() == 0 && ids.count() > 0 {
                Some(ModelError::EmptyArray)
            } else {
                None
            };
            why is Some ==> forward_why(m, ids, pos) == why && prepare_why(m, ids, pos) == why
        }),
{
    if ids.rank() == 2 {
        law_mask_written_out(ids.shape[1], ids.cpu);
    }
}

/// Rows that are no array of three axes are refused by attention, rows of another length than a
/// normalization takes by the normalization, and so by a layer, and heads without four axes by a
/// rotation and a repetition.
pub proof fn law_rows_refused(
    l: LayerView,
    x: ArrayView,
    pos: ArrayView,
    mask: Option<ArrayView>,
    head_dim: usize,
    n: usize,
)
    ensures
        x.rank() != 3 ==> attention_why(l.self_attn, x, pos, mask) == Some(ModelError::Rank),
        x.rank() != 3 ==> cache_why(l.self_attn, x, pos) == Some(ModelError::Rank),
        x.rank() == 0 ==> norm_why(l.input_layernorm, x, true) == Some(ModelError::Rank),
        x.rank() > 0 && x.shape[x.rank() - 1] != l.input_layernorm.weight.shape[0] ==> {
            &&& norm_why(l.input_layernorm, x, true) == Some(ModelError::Width)
            &&& layer_why(l, x, true, pos, mask) == Some(ModelError::Width)
        },
        x.rank() != 4 || pos.rank() < 3 ==> rotary_why(x, pos, head_dim) == Some(ModelError::Rank),
        x.rank() != 4 && n != 1 ==> repeat_why(x, n) == Some(ModelError::Rank),
        n == 1 ==> repeat_why(x, n) is None,
{
    reveal(layer_why);
}

/// Scores that are no array of three axes are refused, and scores of no position.
pub proof fn law_scores_refused(y: ArrayView)
    ensures
        last_scores_why(y) == if y.rank() != 3 {
            Some(ModelError::Rank)
        } else if y.shape[1] == 0 {
            Some(ModelError::EmptyArray)
        } else if !addressable(seq![y.shape[0], 1usize, y.shape[2]]) {
            Some(ModelError::TooLarge)
        } else {
            None
        },
{
}

/// A table of rotations is refused for want of a frequency, or where there is none of its sizes.
pub proof fn law_table_refused(
    e: ModelError,
    max_seq_len: usize,
    head_dim: usize,
    inv_freq: Seq<u32>,
)
    requires
        table_refused(e, max_seq_len, head_dim, inv_freq),
    ensures
        rotary_table_of(max_seq_len, head_dim, inv_freq) is None,
        inv_freq.len() == 0 <==> e == ModelError::EmptyArray,
        inv_freq.len() > 0 ==> e is Tensor || e == ModelError::TooLarge,
{
}

/// A model is refused only where the store refuses one of its parameters, or where there are
/// layers and the queries, keys and values of a position are too many to count.
pub proof fn law_model_refused(e: ModelError, cfg: Config, w: WeightsView)
    requires
        model_refused(e, cfg, w),
    ensures
        ({
            let width = cfg.hidden_size + 2 * (cfg.num_key_value_heads * cfg.head_dim);
            let (h, n, eps) = (cfg.hidden_size, cfg.intermediate_size, cfg.rms_norm_eps);
            let m = w.below("model"@);
            ||| e == ModelError::TooLarge && width > usize::MAX && cfg.num_hidden_layers > 0
            ||| e matches ModelError::Tensor(t) && {
                ||| embedding_outcome(Err(t), cfg.vocab_size, h, m.below("embed_tokens"@))
                ||| layer_norm_outcome(Err(t), h, eps, m.below("norm"@))
                ||| linear_outcome(Err(t), h, cfg.vocab_size, m.below("lm_head"@))
                ||| exists|i: nat|
                    i < cfg.num_hidden_layers && {
                        let l = m.below("layers."@ + #[trigger] decimal_of(i));
                        let (a, f) = (l.below("self_attn"@), l.below("mlp"@));
                        ||| linear_outcome(Err(t), h, width as usize, a.below("qkv"@))
                        ||| linear_outcome(Err(t), h, h, a.below("o"@))
                        ||| linear_outcome(Err(t), h, n, f.below("gate"@))
                        ||| linear_outcome(Err(t), h, n, f.below("up"@))
                        ||| linear_outcome(Err(t), n, h, f.below("down"@))
                        ||| layer_norm_outcome(Err(t), h, eps, l.below("input_layernorm"@))
                        ||| layer_norm_outcome(Err(t), h, eps, l.below("post_attention_layernorm"@))
                    }
            }
        }),
{
    if exists|i: nat|
        i < cfg.num_hidden_layers && layer_refused(
            e,
            cfg,
            w.below("model"@).below(#[trigger] layer_name_of(i)),
        ) {
        let i = choose|i: nat|
            i < cfg.num_hidden_layers && layer_refused(
                e,
                cfg,
                w.below("model"@).below(#[trigger] layer_name_of(i)),
            );
        assert(layer_name_of(i) == "layers."@ + decimal_of(i));
    }
}

/// What the outcome of a call says: a result is the one that was to be made, a call that is sure
/// fails only where there is no result, and an error is the reason that there is, if there is one.
pub proof fn law_outcomes_written_out(
    r: Result<Array, ModelError>,
    made: Option<ArrayView>,
    sure: bool,
    why: Option<ModelError>,
)
    ensures
        yields(r, made, sure) <==> match r {
            Ok(x) => made == Some(x@),
            Err(_) => made is None || !sure,
        },
        refuses(r, why) <==> match r {
            Ok(_) => why is None,
            Err(e) => if why is Some {
                why == Some(e)
            } else {
                e is Tensor
            },
        },
        blames(r, why) <==> match r {
            Ok(_) => why is None,
            Err(e) => e is Tensor || why == Some(e),
        },
{
}

/// What an optional array holds, and what the layers of a model are like.
pub proof fn law_contents_written_out(a: Array, layers: Seq<DecoderLayer>)
    ensures
        content(Some(&a)) == Some(a@),
        content(None) is None,
        held(Some(a)) == Some(a@),
        held(None) is None,
        layer_views(layers).len() == layers.len(),
        forall|i: int|
            0 <= i < layers.len() ==> #[trigger] layer_views(layers)[i] == layers[i]@,
{
}

/// The parameters of a layer that was loaded are those that the tensor library makes of what is
/// stored under their names.
pub proof fn law_layer_kept_written_out(l: LayerView, cfg: Config, w: WeightsView)
    requires
        layer_kept_at(l, cfg, w),
    ensures
        exists|p: candle_nn::Linear|
            #[trigger] linear_outcome(
                Ok(p),
                cfg.hidden_size,
                (cfg.hidden_size + 2 * (cfg.num_key_value_heads * cfg.head_dim)) as usize,
                w.below("self_attn"@).below("qkv"@),
            ) && l.self_attn.qkv == linear_content(p),
        exists|p: candle_nn::Linear|
            #[trigger] linear_outcome(
                Ok(p),
                cfg.hidden_size,
                cfg.hidden_size,
                w.below("self_attn"@).below("o"@),
            ) && l.self_attn.o == linear_content(p),
        exists|p: candle_nn::Linear|
            #[trigger] linear_outcome(
                Ok(p),
                cfg.hidden_size,
                cfg.intermediate_size,
                w.below("mlp"@).below("gate"@),
            ) && l.mlp.gate == linear_content(p),
        exists|p: candle_nn::Linear|
            #[trigger] linear_outcome(
                Ok(p),
                cfg.hidden_size,
                cfg.intermediate_size,
                w.below("mlp"@).below("up"@),
            ) && l.mlp.up == linear_content(p),
        exists|p: candle_nn::Linear|
            #[trigger] linear_outcome(
                Ok(p),
                cfg.intermediate_size,
                cfg.hidden_size,
                w.below("mlp"@).below("down"@),
            ) && l.mlp.down == linear_content(p),
        exists|p: candle_nn::LayerNorm|
            #[trigger] layer_norm_outcome(
                Ok(p),
                cfg.hidden_size,
                cfg.rms_norm_eps,
                w.below("input_layernorm"@),
            ) && l.input_layernorm == layer_norm_content(p),
        exists|p: candle_nn::LayerNorm|
            #[trigger] layer_norm_outcome(
                Ok(p),
                cfg.hidden_size,
                cfg.rms_norm_eps,
                w.below("post_attention_layernorm"@),
            ) && l.post_attention_layernorm == layer_norm_content(p),
{
}

/// Rows without numbers are normalized too. Packed ones must be in the place of the parameters,
/// and on the CPU of their kind, which is short of double precision, and the parameters packed;
/// others are only repeated.
pub proof fn law_empty_rows_written_out(n: NormView, x: ArrayView)
    requires
        x.rank() > 0,
        x.count() == 0,
        n.bias is Some,
    ensures
        ({
            let bias = n.bias->Some_0;
            let halves = x.kind is BF16 || x.kind is F16 || x.kind is F32;
            let why = if x.shape[x.rank() - 1] != n.weight.shape[0] {
                Some(ModelError::Width)
            } else if x.cpu != n.weight.cpu || x.cpu != bias.cpu {
                Some(ModelError::Place)
            } else if x.cpu && !(halves && n.weight.kind == x.kind && bias.kind == x.kind) {
                Some(ModelError::Kind)
            } else if x.cpu && !(n.weight_packed && n.bias_packed) {
                Some(ModelError::Scattered)
            } else {
                None
            };
            &&& norm_why(n, x, true) == why
            &&& norm_of(n, x, true) is Some <==> why is None
            &&& norm_of(n, x, true) matches Some(y) ==> y.shape == x.shape && y.kind == x.kind
                && y.cpu == x.cpu
            &&& norm_of(n, x, false) is Some <==> (common_shape(
                x.shape,
                n.weight.shape,
            ) matches Some(s) && addressable(s))
            &&& norm_why(n, x, false) == match common_shape(x.shape, n.weight.shape) {
                None => Some(ModelError::Width),
                Some(s) => if addressable(s) {
                    None
                } else {
                    Some(ModelError::TooLarge)
                },
            }
        }),
{
}

/// Rows of no tokens are looked up even in a table without rows, where it is in their place, and
/// on the CPU packed. Tokens are not.
pub proof fn law_empty_table_written_out(t: LookupView, ids: ArrayView)
    requires
        t.table.count() == 0,
    ensures
        ({
            let integers = ids.kind is U8 || ids.kind is U32 || ids.kind is I64;
            let why = if !addressable(ids.shape.push(t.width)) {
                Some(ModelError::TooLarge)
            } else if !integers {
                Some(ModelError::Kind)
            } else if ids.count() > 0 {
                Some(ModelError::EmptyArray)
            } else if ids.cpu != t.table.cpu {
                Some(ModelError::Place)
            } else if ids.cpu && !t.packed {
                Some(ModelError::Scattered)
            } else {
                None
            };
            &&& lookup_why(t, ids) == why
            &&& lookup_of(t, ids) is Some ==> why is None
            &&& why is None ==> (lookup_of(t, ids) matches Some(y) && y.shape == ids.shape.push(
                t.width,
            ) && y.kind == t.table.kind && y.cpu == t.table.cpu)
        }),
{
    if ids.count() == 0 {
        lemma_no_position(ids.shape);
    }
}

/// The reasons to refuse single operations.
pub proof fn law_reasons_written_out(a: ArrayView, b: ArrayView, dim: int, d: DenseView)
    ensures
        unless_addressable(a.shape) == if addressable(a.shape) {
            None
        } else {
            Some(ModelError::TooLarge)
        },
        unless_float(a) == if a.kind is BF16 || a.kind is F16 || a.kind is F32 || a.kind is F64
            || a.count() == 0 {
            None
        } else {
            Some(ModelError::Kind)
        },
        0 <= dim < a.rank() && a.rank() == b.rank() ==> cat_why(a, b, dim) == if a.shape[dim]
            + b.shape[dim] <= usize::MAX && addressable(
            a.shape.update(dim, (a.shape[dim] + b.shape[dim]) as usize),
        ) {
            None
        } else {
            Some(ModelError::TooLarge)
        },
        2 <= a.rank() == b.rank() ==> matmul_why(a, b) == if addressable(
            a.shape.update(a.rank() - 1, b.shape[b.rank() - 1]),
        ) {
            None
        } else {
            Some(ModelError::TooLarge)
        },
        2 <= a.rank() <= 4 ==> dense_why(d, a) == if addressable(
            a.shape.update(a.rank() - 1, d.weight.shape[0]),
        ) {
            None
        } else {
            Some(ModelError::TooLarge)
        },
{
}

} // verus!
