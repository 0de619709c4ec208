//! The sizes of a model.

use vstd::prelude::*;

verus! {

/// The sizes and constants of a model. The two real numbers are given by their bits:
/// `rms_norm_eps` as a double, `rope_theta` in single precision.
#[derive(Debug, Clone, Copy)]
pub struct Config {
    pub vocab_size: usize,
    pub max_position_embeddings: usize,
    pub hidden_size: usize,
    pub intermediate_size: usize,
    pub num_hidden_layers: usize,
    pub num_attention_heads: usize,
    pub num_key_value_heads: usize,
    pub head_dim: usize,
    pub rms_norm_eps: u64,
    pub rope_theta: u32,
}

/// The bits of the double nearest to `0.00001`.
pub const MINI_NORM_EPS: u64 = 0x3ee4_f8b5_88e3_68f1;

/// The bits of `10000` in single precision.
pub const MINI_ROPE_THETA: u32 = 0x461c_4000;

impl Config {
    /// The sizes of the mini model.
    pub fn mini() -> (r: Self)
        ensures
            r == (Config {
                vocab_size: 32000,
                max_position_embeddings: 2048,
                hidden_size: 4096,
                intermediate_size: 14336,
                num_hidden_layers: 32,
                num_attention_heads: 32,
                num_key_value_heads: 8,
                head_dim: 128,
                rms_norm_eps: MINI_NORM_EPS,
                rope_theta: MINI_ROPE_THETA,
            }),
    {
        Config {
            vocab_size: 32000,
            max_position_embeddings: 2048,
            hidden_size: 4096,
            intermediate_size: 14336,
            num_hidden_layers: 32,
            num_attention_heads: 32,
            num_key_value_heads: 8,
            head_dim: 128,
            rms_norm_eps: MINI_NORM_EPS,
            rope_theta: MINI_ROPE_THETA,
        }
    }

    /// The width of the keys, and of the values, of a position.
    pub open spec fn kv_width(self) -> int {
        self.num_key_value_heads * self.head_dim
    }

    /// The width of the queries, keys and values of a position together.
    pub open spec fn qkv_width(self) -> int {
        self.hidden_size + 2 * self.kv_width()
    }
}

} // verus!
