use parler_tts::config::Config;
use parler_tts::names::{decimal, layer_name};

#[test]
fn numbers_in_decimal() {
    for n in [0usize, 7, 10, 42, 1000, 65535, usize::MAX] {
        assert_eq!(decimal(n), format!("{n}"));
    }
}

#[test]
fn layers_are_numbered() {
    assert_eq!(layer_name(0), "layers.0");
    assert_eq!(layer_name(31), "layers.31");
    for n in 0..200usize {
        for m in 0..n {
            assert_ne!(layer_name(n), layer_name(m));
        }
    }
}

#[test]
fn the_mini_model() {
    let c = Config::mini();
    assert_eq!(c.vocab_size, 32000);
    assert_eq!(c.max_position_embeddings, 2048);
    assert_eq!(c.hidden_size, 4096);
    assert_eq!(c.intermediate_size, 14336);
    assert_eq!(c.num_hidden_layers, 32);
    assert_eq!(c.num_attention_heads, 32);
    assert_eq!(c.num_key_value_heads, 8);
    assert_eq!(c.head_dim, 128);
    assert_eq!(f64::from_bits(c.rms_norm_eps), 1e-5);
    assert_eq!(f32::from_bits(c.rope_theta), 10000.0);
}
