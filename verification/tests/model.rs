use candle_core::{DType, Device, Result, Shape, Tensor};
use candle_nn::var_builder::SimpleBackend;
use candle_nn::{Init, VarBuilder};
use parler_tts::array::Array;
use parler_tts::attention::Attention;
use parler_tts::config::Config;
use parler_tts::decoder::{DecoderLayer, FeedForward};
use parler_tts::error::ModelError;
use parler_tts::heads::causal_mask;
use parler_tts::layers::{Dense, Lookup, Norm, Weights};
use parler_tts::model::{Constants, ParlerTts};
use std::collections::HashMap;

type Store = HashMap<String, Tensor>;

fn config() -> Config {
    Config {
        vocab_size: 7,
        max_position_embeddings: 8,
        hidden_size: 8,
        intermediate_size: 5,
        num_hidden_layers: 2,
        num_attention_heads: 4,
        num_key_value_heads: 2,
        head_dim: 2,
        rms_norm_eps: 1e-5f64.to_bits(),
        rope_theta: 10000f32.to_bits(),
    }
}

fn constants(cfg: &Config) -> Constants {
    Constants {
        scale: (cfg.head_dim as f64).powf(-0.5).to_bits(),
        inv_freq: vec![1f32.to_bits(); cfg.head_dim / 2],
    }
}

/// Numbers that look random and depend on the name of the parameter.
fn numbers(name: &str, n: usize) -> Vec<f32> {
    let mut state: u64 = name.bytes().fold(1469598103934665603, |h, b| {
        (h ^ b as u64).wrapping_mul(1099511628211)
    });
    (0..n)
        .map(|_| {
            state = state.wrapping_mul(6364136223846793005).wrapping_add(1442695040888963407);
            ((state >> 40) as f32 / (1u64 << 24) as f32) - 0.5
        })
        .collect()
}

fn put(store: &mut Store, name: &str, shape: &[usize]) {
    let n = shape.iter().product();
    let t = Tensor::from_vec(numbers(name, n), shape, &Device::Cpu).unwrap();
    store.insert(name.to_string(), t);
}

fn put_linear(store: &mut Store, name: &str, inner: usize, outer: usize) {
    put(store, &format!("{name}.weight"), &[outer, inner]);
    put(store, &format!("{name}.bias"), &[outer]);
}

fn store(cfg: &Config) -> Store {
    let mut s = Store::new();
    let (h, i) = (cfg.hidden_size, cfg.intermediate_size);
    let qkv = h + 2 * cfg.num_key_value_heads * cfg.head_dim;
    put(&mut s, "model.embed_tokens.weight", &[cfg.vocab_size, h]);
    for l in 0..cfg.num_hidden_layers {
        let p = format!("model.layers.{l}");
        put_linear(&mut s, &format!("{p}.self_attn.qkv"), h, qkv);
        put_linear(&mut s, &format!("{p}.self_attn.o"), h, h);
        put_linear(&mut s, &format!("{p}.mlp.gate"), h, i);
        put_linear(&mut s, &format!("{p}.mlp.up"), h, i);
        put_linear(&mut s, &format!("{p}.mlp.down"), i, h);
        for n in ["input_layernorm", "post_attention_layernorm"] {
            put(&mut s, &format!("{p}.{n}.weight"), &[h]);
            put(&mut s, &format!("{p}.{n}.bias"), &[h]);
        }
    }
    put(&mut s, "model.norm.weight", &[h]);
    put(&mut s, "model.norm.bias", &[h]);
    put_linear(&mut s, "model.lm_head", h, cfg.vocab_size);
    s
}

fn weights(store: &Store) -> Weights<'static> {
    Weights(VarBuilder::from_tensors(store.clone(), DType::F32, &Device::Cpu))
}

fn model(cfg: &Config) -> ParlerTts {
    ParlerTts::new(&weights(&store(cfg)), cfg, &constants(cfg)).unwrap()
}

fn ids(rows: &[&[i64]]) -> Array {
    let flat: Vec<i64> = rows.concat();
    Array::from_tensor(Tensor::from_vec(flat, (rows.len(), rows[0].len()), &Device::Cpu).unwrap())
}

/// The cosines and sines of the positions from `start` on.
fn table(start: usize, n: usize, hd: usize) -> Vec<Vec<f32>> {
    (start..start + n)
        .map(|p| {
            let c = (0..hd / 2).map(|_| (p as f32).cos());
            let s = (0..hd / 2).map(|_| (p as f32).sin());
            c.chain(s).collect()
        })
        .collect()
}

fn pos(start: usize, n: usize, hd: usize) -> Array {
    let flat: Vec<f32> = table(start, n, hd).concat();
    Array::from_tensor(Tensor::from_vec(flat, (1, n, hd), &Device::Cpu).unwrap())
}

fn values(a: &Array) -> Vec<f32> {
    a.tensor().flatten_all().unwrap().to_vec1::<f32>().unwrap()
}

fn close(a: &[f32], b: &[f32]) -> bool {
    a.len() == b.len() && a.iter().zip(b).all(|(x, y)| (x - y).abs() < 1e-4)
}

/// The same model, computed number by number.
struct Plain {
    cfg: Config,
    store: Store,
    caches: Vec<(Vec<Vec<f32>>, Vec<Vec<f32>>)>,
}

impl Plain {
    fn new(cfg: &Config) -> Self {
        let caches = vec![(Vec::new(), Vec::new()); cfg.num_hidden_layers];
        Plain { cfg: *cfg, store: store(cfg), caches }
    }

    fn get(&self, name: &str) -> Vec<f32> {
        self.store[name].flatten_all().unwrap().to_vec1::<f32>().unwrap()
    }

    fn linear(&self, name: &str, x: &[f32]) -> Vec<f32> {
        let w = self.get(&format!("{name}.weight"));
        let b = self.get(&format!("{name}.bias"));
        (0..b.len())
            .map(|o| {
                let row = &w[o * x.len()..(o + 1) * x.len()];
                row.iter().zip(x).map(|(a, b)| a * b).sum::<f32>() + b[o]
            })
            .collect()
    }

    fn norm(&self, name: &str, x: &[f32]) -> Vec<f32> {
        let w = self.get(&format!("{name}.weight"));
        let b = self.get(&format!("{name}.bias"));
        let n = x.len() as f32;
        let mean = x.iter().sum::<f32>() / n;
        let var = x.iter().map(|v| (v - mean) * (v - mean)).sum::<f32>() / n;
        let eps = f64::from_bits(self.cfg.rms_norm_eps) as f32;
        x.iter()
            .enumerate()
            .map(|(i, v)| (v - mean) / (var + eps).sqrt() * w[i] + b[i])
            .collect()
    }

    fn turn(&self, x: &[f32], row: &[f32]) -> Vec<f32> {
        let hd = self.cfg.head_dim;
        let half = hd / 2;
        let mut out = x.to_vec();
        for head in 0..x.len() / hd {
            for c in 0..half {
                let (a, b) = (x[head * hd + c], x[head * hd + half + c]);
                out[head * hd + c] = a * row[c] - b * row[half + c];
                out[head * hd + half + c] = b * row[c] + a * row[half + c];
            }
        }
        out
    }

    fn attention(&mut self, layer: usize, xs: &[Vec<f32>], start: usize) -> Vec<Vec<f32>> {
        let p = format!("model.layers.{layer}.self_attn");
        let (h, hd) = (self.cfg.hidden_size, self.cfg.head_dim);
        let kv = self.cfg.num_key_value_heads * hd;
        let group = self.cfg.num_attention_heads / self.cfg.num_key_value_heads;
        let rows = table(start, xs.len(), hd);
        let mut queries = Vec::new();
        let known = self.caches[layer].0.len();
        for (x, row) in xs.iter().zip(&rows) {
            let y = self.linear(&format!("{p}.qkv"), x);
            queries.push(self.turn(&y[..h], row));
            let k = self.turn(&y[h..h + kv], row);
            self.caches[layer].0.push(k);
            self.caches[layer].1.push(y[h + kv..].to_vec());
        }
        let mut out = Vec::new();
        for (i, q) in queries.iter().enumerate() {
            let seen = known + i + 1;
            let mut y = vec![0f32; h];
            for head in 0..self.cfg.num_attention_heads {
                let g = head / group;
                let scores: Vec<f32> = (0..seen)
                    .map(|j| {
                        let k = &self.caches[layer].0[j][g * hd..(g + 1) * hd];
                        let q = &q[head * hd..(head + 1) * hd];
                        let dot: f32 = q.iter().zip(k).map(|(a, b)| a * b).sum();
                        dot / (hd as f32).sqrt()
                    })
                    .collect();
                let total: f32 = scores.iter().map(|s| s.exp()).sum();
                for (j, s) in scores.iter().enumerate() {
                    for c in 0..hd {
                        y[head * hd + c] += s.exp() / total * self.caches[layer].1[j][g * hd + c];
                    }
                }
            }
            out.push(self.linear(&format!("{p}.o"), &y));
        }
        out
    }

    fn forward(&mut self, tokens: &[i64], start: usize) -> Vec<f32> {
        let h = self.cfg.hidden_size;
        let e = self.get("model.embed_tokens.weight");
        let mut xs: Vec<Vec<f32>> =
            tokens.iter().map(|t| e[*t as usize * h..(*t as usize + 1) * h].to_vec()).collect();
        for l in 0..self.cfg.num_hidden_layers {
            let p = format!("model.layers.{l}");
            let ys: Vec<Vec<f32>> =
                xs.iter().map(|x| self.norm(&format!("{p}.input_layernorm"), x)).collect();
            let ys = self.attention(l, &ys, start);
            for (x, y) in xs.iter_mut().zip(&ys) {
                for (a, b) in x.iter_mut().zip(y) {
                    *a += b;
                }
                let z = self.norm(&format!("{p}.post_attention_layernorm"), x);
                let gate = self.linear(&format!("{p}.mlp.gate"), &z);
                let up = self.linear(&format!("{p}.mlp.up"), &z);
                let m: Vec<f32> =
                    gate.iter().zip(&up).map(|(g, u)| g / (1. + (-g).exp()) * u).collect();
                let d = self.linear(&format!("{p}.mlp.down"), &m);
                for (a, b) in x.iter_mut().zip(&d) {
                    *a += b;
                }
            }
        }
        xs.iter()
            .flat_map(|x| self.linear("model.lm_head", &self.norm("model.norm", x)))
            .collect()
    }
}

#[test]
fn a_linear_layer_multiplies_and_adds() {
    let mut s = Store::new();
    let w = Tensor::from_vec(vec![1f32, 2., 3., 4., 5., 6.], (3, 2), &Device::Cpu).unwrap();
    let b = Tensor::from_vec(vec![10f32, 20., 30.], 3, &Device::Cpu).unwrap();
    s.insert("d.weight".to_string(), w);
    s.insert("d.bias".to_string(), b);
    let w = Weights(VarBuilder::from_tensors(s, DType::F32, &Device::Cpu).pp("d"));
    let d = Dense::new(2, 3, &w).unwrap();
    let x = Tensor::from_vec(vec![1f32, 0., 1., 1.], (1, 2, 2), &Device::Cpu).unwrap();
    let y = d.clone().forward(&Array::from_tensor(x)).unwrap();
    assert_eq!(y.dims(), vec![1, 2, 3]);
    assert_eq!(values(&y), vec![11., 23., 35., 13., 27., 41.]);
    assert!(matches!(Dense::new(3, 2, &w), Err(ModelError::Tensor(_))));
}

#[test]
fn a_lookup_selects_rows() {
    let s = store(&config());
    let w = Weights(
        VarBuilder::from_tensors(s.clone(), DType::F32, &Device::Cpu).pp("model").pp("embed_tokens"),
    );
    let t = Lookup::new(7, 8, &w).unwrap();
    assert_eq!(t.width(), 8);
    let y = t.clone().forward(&ids(&[&[3, 0]])).unwrap();
    assert_eq!(y.dims(), vec![1, 2, 8]);
    let all = s["model.embed_tokens.weight"].flatten_all().unwrap().to_vec1::<f32>().unwrap();
    assert_eq!(values(&y), [&all[24..32], &all[0..8]].concat());
    assert!(matches!(t.forward(&ids(&[&[7]])), Err(ModelError::Tensor(_))));
    assert!(matches!(t.forward(&ids(&[&[-1]])), Err(ModelError::Tensor(_))));
}

#[test]
fn a_normalization_centers_and_scales() {
    let mut s = Store::new();
    s.insert("weight".to_string(), Tensor::from_vec(vec![1f32, 2.], 2, &Device::Cpu).unwrap());
    s.insert("bias".to_string(), Tensor::from_vec(vec![0f32, 5.], 2, &Device::Cpu).unwrap());
    let w = Weights(VarBuilder::from_tensors(s, DType::F32, &Device::Cpu));
    let n = Norm::new(2, 0.25f64.to_bits(), &w).unwrap();
    let x = Tensor::from_vec(vec![1f32, 3.], (1, 1, 2), &Device::Cpu).unwrap();
    let y = n.clone().forward(&Array::from_tensor(x)).unwrap();
    let r = 1.25f32.sqrt();
    assert!(close(&values(&y), &[-1. / r, 2. / r + 5.]));
    let i = Array::from_tensor(Tensor::zeros((1, 1, 2), DType::I64, &Device::Cpu).unwrap());
    assert!(matches!(n.forward(&i), Err(ModelError::Kind)));
    let wide = Array::from_tensor(Tensor::zeros((1, 1, 3), DType::F32, &Device::Cpu).unwrap());
    assert!(matches!(n.forward(&wide), Err(ModelError::Width)));
    let one = Array::from_tensor(Tensor::from_vec(vec![1f32], (), &Device::Cpu).unwrap());
    assert!(matches!(n.forward(&one), Err(ModelError::Rank)));
}

#[test]
fn rows_cut_out_of_nothing_are_normalized() {
    let mut s = Store::new();
    put(&mut s, "weight", &[3]);
    put(&mut s, "bias", &[3]);
    let w = Weights(VarBuilder::from_tensors(s, DType::F32, &Device::Cpu));
    let n = Norm::new(3, 0, &w).unwrap();
    let none = Array::from_tensor(Tensor::zeros((0, 6), DType::F32, &Device::Cpu).unwrap());
    let rows = none.narrow(1, 3, 3).unwrap();
    assert_eq!(n.forward(&rows).unwrap().dims(), vec![0, 3]);
}

#[test]
fn a_table_without_rows_has_nothing_to_look_up() {
    let none = Tensor::zeros((0, 6), DType::F32, &Device::Cpu).unwrap();
    let table = candle_nn::Embedding::new(none.narrow(1, 3, 3).unwrap(), 3);
    let t = Lookup::from_embedding(table);
    assert!(matches!(t.forward(&ids(&[&[0]])), Err(ModelError::EmptyArray)));
    let no_ids = Array::from_tensor(Tensor::zeros((2, 0), DType::I64, &Device::Cpu).unwrap());
    assert_eq!(t.forward(&no_ids).unwrap().dims(), vec![2, 0, 3]);
}

/// A store that hands out parameters of one shape whatever is asked for.
struct Stubborn(Vec<usize>);

impl SimpleBackend for Stubborn {
    fn get(&self, _: Shape, _: &str, _: Init, dtype: DType, dev: &Device) -> Result<Tensor> {
        Tensor::zeros(self.0.as_slice(), dtype, dev)
    }

    fn contains_tensor(&self, _: &str) -> bool {
        true
    }
}

#[test]
fn parameters_of_another_shape_are_told_apart() {
    let stubborn = |shape: &[usize]| {
        let backend = Box::new(Stubborn(shape.to_vec()));
        Weights(VarBuilder::from_backend(backend, DType::F32, Device::Cpu))
    };
    assert!(!Dense::new(2, 3, &stubborn(&[3, 2])).unwrap().is_shaped());
    assert!(!Lookup::new(2, 3, &stubborn(&[3, 2])).unwrap().is_shaped());
    assert!(Lookup::new(2, 3, &stubborn(&[5, 3])).unwrap().is_shaped());
    assert!(!Norm::new(3, 0, &stubborn(&[3, 1])).unwrap().is_shaped());
    let n = Norm::new(3, 0, &stubborn(&[2])).unwrap();
    assert!(n.is_shaped());
    assert_eq!(n.size(), 2);
    let cfg = config();
    let m = ParlerTts::new(&stubborn(&[8, 8]), &cfg, &constants(&cfg)).unwrap();
    assert!(!m.is_shaped());
    assert!(model(&cfg).is_shaped());
}

#[test]
fn parts_have_the_parameters_that_they_are_made_of() {
    let zeros = |shape: &[usize]| Tensor::zeros(shape, DType::F32, &Device::Cpu).unwrap();
    let linear = |bias| Dense::from_linear(candle_nn::Linear::new(zeros(&[3, 2]), bias));
    assert!(linear(Some(zeros(&[3]))).is_shaped());
    assert!(!linear(None).is_shaped());
    assert!(!linear(Some(zeros(&[2]))).is_shaped());
    let table = |width| Lookup::from_embedding(candle_nn::Embedding::new(zeros(&[4, 3]), width));
    assert!(table(3).is_shaped());
    assert!(!table(2).is_shaped());
    assert_eq!(table(2).width(), 2);
}

#[test]
fn a_head_of_another_size_scores_as_many_tokens() {
    let cfg = Config { num_hidden_layers: 0, ..config() };
    let vb = VarBuilder::from_tensors(store(&cfg), DType::F32, &Device::Cpu).pp("model");
    let embed = Lookup::new(7, 8, &Weights(vb.pp("embed_tokens"))).unwrap();
    let norm = Norm::new(8, cfg.rms_norm_eps, &Weights(vb.pp("norm"))).unwrap();
    let zeros = |shape: &[usize]| Tensor::zeros(shape, DType::F32, &Device::Cpu).unwrap();
    let head = Dense::from_linear(candle_nn::Linear::new(zeros(&[3, 8]), Some(zeros(&[3]))));
    let c = constants(&cfg);
    let mut m =
        ParlerTts::assemble(embed, Vec::new(), norm, head, Device::Cpu, &cfg, &c).unwrap();
    assert!(m.is_shaped() && m.is_proper());
    let y = m.forward(&ids(&[&[3, 1]]), &pos(0, 2, 2)).unwrap();
    assert_eq!(y.dims(), vec![1, 2, 3]);
}

#[test]
fn parts_make_a_model_where_there_is_a_table() {
    let cfg = Config { num_hidden_layers: 0, ..config() };
    let vb = VarBuilder::from_tensors(store(&cfg), DType::F32, &Device::Cpu).pp("model");
    let assemble = |constants: &Constants| {
        let embed = Lookup::new(7, 8, &Weights(vb.pp("embed_tokens"))).unwrap();
        let norm = Norm::new(8, cfg.rms_norm_eps, &Weights(vb.pp("norm"))).unwrap();
        let head = Dense::new(8, 7, &Weights(vb.pp("lm_head"))).unwrap();
        ParlerTts::assemble(embed, Vec::new(), norm, head, Device::Cpu, &cfg, constants)
    };
    let mut m = assemble(&constants(&cfg)).unwrap();
    assert_eq!(m.pos_emb().dims(), vec![1, 1, 8, 2]);
    let y = m.forward(&ids(&[&[3, 1]]), &pos(0, 2, 2)).unwrap();
    assert!(close(&values(&y), &Plain::new(&cfg).forward(&[3, 1], 0)));
    let none = Constants { scale: 0, inv_freq: vec![] };
    assert!(matches!(assemble(&none), Err(ModelError::EmptyArray)));
    let many = Constants { scale: 0, inv_freq: vec![0, 0] };
    assert!(matches!(assemble(&many), Err(ModelError::Tensor(_))));
}

#[test]
fn missing_parameters_are_refused() {
    let cfg = config();
    let full = store(&cfg);
    for name in full.keys() {
        let mut s = full.clone();
        s.remove(name);
        let r = ParlerTts::new(&weights(&s), &cfg, &constants(&cfg));
        assert!(matches!(r, Err(ModelError::Tensor(_))));
    }
    assert!(ParlerTts::new(&weights(&full), &cfg, &constants(&cfg)).is_ok());
}

#[test]
fn widths_that_do_not_fit_are_refused() {
    let cfg = Config { num_key_value_heads: usize::MAX, ..config() };
    let w = weights(&store(&config()));
    assert!(matches!(Attention::new(&w, &cfg, 0), Err(ModelError::TooLarge)));
    assert!(matches!(DecoderLayer::new(&w, &cfg, 0), Err(ModelError::TooLarge)));
    let cfg = Config { num_key_value_heads: usize::MAX / 4, ..config() };
    assert!(matches!(Attention::new(&w, &cfg, 0), Err(ModelError::TooLarge)));
    let cfg = Config { head_dim: 1, ..config() };
    assert!(ParlerTts::new(&w, &cfg, &constants(&cfg)).is_err());
}

#[test]
fn one_pass_scores_every_position() {
    let cfg = config();
    let mut m = model(&cfg);
    assert!(m.is_proper());
    let tokens = [3, 1, 6, 0];
    let y = m.forward(&ids(&[&tokens]), &pos(0, 4, 2)).unwrap();
    assert_eq!(y.dims(), vec![1, 4, 7]);
    assert!(close(&values(&y), &Plain::new(&cfg).forward(&tokens, 0)));
}

#[test]
fn several_sequences_are_scored_side_by_side() {
    let cfg = config();
    let mut m = model(&cfg);
    let y = m.forward(&ids(&[&[3, 1, 6], &[2, 2, 5]]), &pos(0, 3, 2)).unwrap();
    assert_eq!(y.dims(), vec![2, 3, 7]);
    let a = Plain::new(&cfg).forward(&[3, 1, 6], 0);
    let b = Plain::new(&cfg).forward(&[2, 2, 5], 0);
    assert!(close(&values(&y), &[a, b].concat()));
}

#[test]
fn the_cache_stands_for_earlier_positions() {
    let cfg = config();
    let mut m = model(&cfg);
    let mut plain = Plain::new(&cfg);
    m.forward(&ids(&[&[3, 1, 6]]), &pos(0, 3, 2)).unwrap();
    plain.forward(&[3, 1, 6], 0);
    let whole = Plain::new(&cfg).forward(&[3, 1, 6, 4, 2], 0);
    for (i, t) in [4, 2].into_iter().enumerate() {
        let y = m.forward(&ids(&[&[t]]), &pos(3 + i, 1, 2)).unwrap();
        assert_eq!(y.dims(), vec![1, 1, 7]);
        assert!(close(&values(&y), &plain.forward(&[t], 3 + i)));
        assert!(close(&values(&y), &whole[(3 + i) * 7..(4 + i) * 7]));
    }
}

#[test]
fn one_token_at_a_time_comes_to_the_same_as_all_at_once() {
    let cfg = config();
    let tokens = [3i64, 1, 6, 4];
    let whole = values(&model(&cfg).forward(&ids(&[&tokens]), &pos(0, 4, 2)).unwrap());
    let mut m = model(&cfg);
    for (i, t) in tokens.into_iter().enumerate() {
        let y = m.forward(&ids(&[&[t]]), &pos(i, 1, 2)).unwrap();
        assert!(close(&values(&y), &whole[i * 7..(i + 1) * 7]));
    }
    // The first positions in one pass, the rest one at a time.
    m.clear_kv_cache();
    let y = m.forward(&ids(&[&tokens[..2]]), &pos(0, 2, 2)).unwrap();
    assert!(close(&values(&y), &whole[..14]));
    let y = m.forward(&ids(&[&[6]]), &pos(2, 1, 2)).unwrap();
    assert!(close(&values(&y), &whole[14..21]));
}

#[test]
fn scores_do_not_depend_on_later_tokens() {
    let cfg = config();
    let one = values(&model(&cfg).forward(&ids(&[&[3, 1, 6, 4]]), &pos(0, 4, 2)).unwrap());
    let other = values(&model(&cfg).forward(&ids(&[&[3, 1, 5]]), &pos(0, 3, 2)).unwrap());
    assert!(close(&one[..14], &other[..14]));
    assert!(!close(&one[14..21], &other[14..]));
}

#[test]
fn unshared_heads_take_a_single_sequence() {
    let cfg = Config { num_key_value_heads: 4, ..config() };
    let mut m = model(&cfg);
    let tokens = [3, 1, 6];
    let y = m.forward(&ids(&[&tokens]), &pos(0, 3, 2)).unwrap();
    assert!(close(&values(&y), &Plain::new(&cfg).forward(&tokens, 0)));
    let z = m.forward(&ids(&[&[5]]), &pos(3, 1, 2)).unwrap();
    let whole = Plain::new(&cfg).forward(&[3, 1, 6, 5], 0);
    assert!(close(&values(&z), &whole[21..]));
}

#[test]
fn unshared_heads_take_several_sequences_one_token_at_a_time() {
    let cfg = Config { num_key_value_heads: 4, ..config() };
    let mut m = model(&cfg);
    let (first, second) = ([3i64, 1, 6], [2i64, 2, 5]);
    let a = Plain::new(&cfg).forward(&first, 0);
    let b = Plain::new(&cfg).forward(&second, 0);
    for i in 0..3 {
        let y = m.forward(&ids(&[&first[i..i + 1], &second[i..i + 1]]), &pos(i, 1, 2)).unwrap();
        let expected = [&a[i * 7..(i + 1) * 7], &b[i * 7..(i + 1) * 7]].concat();
        assert!(close(&values(&y), &expected));
    }
}

#[test]
fn clearing_forgets_earlier_positions() {
    let cfg = config();
    let mut m = model(&cfg);
    let tokens = [2, 5];
    let first = values(&m.forward(&ids(&[&tokens]), &pos(0, 2, 2)).unwrap());
    m.forward(&ids(&[&[1]]), &pos(2, 1, 2)).unwrap();
    m.clear_kv_cache();
    let again = values(&m.forward(&ids(&[&tokens]), &pos(0, 2, 2)).unwrap());
    assert_eq!(first, again);
    // A pass that is refused and further clearings are forgotten too.
    assert!(m.forward(&ids(&[&[9]]), &pos(2, 1, 2)).is_err());
    m.clear_kv_cache();
    m.clear_kv_cache();
    let third = values(&m.forward(&ids(&[&tokens]), &pos(0, 2, 2)).unwrap());
    assert_eq!(first, third);
}

#[test]
fn a_clone_has_caches_of_its_own() {
    let cfg = config();
    let mut m = model(&cfg);
    m.forward(&ids(&[&[2, 5]]), &pos(0, 2, 2)).unwrap();
    let mut c = m.clone();
    let a = values(&m.forward(&ids(&[&[1]]), &pos(2, 1, 2)).unwrap());
    let b = values(&c.forward(&ids(&[&[1]]), &pos(2, 1, 2)).unwrap());
    assert_eq!(a, b);
}

#[test]
fn a_failed_pass_keeps_what_the_caches_got() {
    let cfg = config();
    let mut m = model(&cfg);
    m.forward(&ids(&[&[2, 5]]), &pos(0, 2, 2)).unwrap();
    // Two new positions do not go with the mask once there are four positions in all.
    assert!(m.forward(&ids(&[&[1, 4]]), &pos(2, 2, 2)).is_err());
    let y = m.forward(&ids(&[&[6]]), &pos(4, 1, 2)).unwrap();
    // The first layer has seen five positions, the second three.
    assert_eq!(y.dims(), vec![1, 1, 7]);
    let whole = Plain::new(&cfg).forward(&[2, 5, 1, 4, 6], 0);
    assert!(!close(&values(&y), &whole[28..]));
    m.clear_kv_cache();
    assert!(m.forward(&ids(&[&[1, 4]]), &pos(0, 2, 2)).is_ok());
}

#[test]
fn operands_that_do_not_go_together_are_refused() {
    let cfg = config();
    let mut m = model(&cfg);
    let flat = Array::from_tensor(Tensor::from_vec(vec![1i64, 2], 2, &Device::Cpu).unwrap());
    assert!(matches!(m.forward(&flat, &pos(0, 2, 2)), Err(ModelError::Rank)));
    assert!(matches!(m.forward(&ids(&[&[7]]), &pos(0, 1, 2)), Err(ModelError::Tensor(_))));
    assert!(m.forward(&ids(&[&[1, 2]]), &pos(0, 3, 2)).is_err());
    // The model's own table is cut along its positions, which fits no ordinary sequence.
    let own = m.pos_emb();
    assert_eq!(own.dims(), vec![1, 1, 8, 2]);
    assert!(m.forward(&ids(&[&[1, 2]]), &own).is_err());
}

#[test]
fn sequences_that_are_refused_leave_the_model_as_it_is() {
    let cfg = config();
    let mut m = model(&cfg);
    m.forward(&ids(&[&[3, 1]]), &pos(0, 2, 2)).unwrap();
    let mut before = m.clone();
    let flat = Array::from_tensor(Tensor::from_vec(vec![1i64, 2], 2, &Device::Cpu).unwrap());
    assert!(matches!(m.embed(&flat), Err(ModelError::Rank)));
    assert!(matches!(m.forward(&flat, &pos(2, 2, 2)), Err(ModelError::Rank)));
    assert!(m.embed(&ids(&[&[7]])).is_err());
    assert!(m.forward(&ids(&[&[7]]), &pos(2, 1, 2)).is_err());
    let a = values(&m.forward(&ids(&[&[5]]), &pos(2, 1, 2)).unwrap());
    let b = values(&before.forward(&ids(&[&[5]]), &pos(2, 1, 2)).unwrap());
    assert_eq!(a, b);
}

#[test]
fn tokens_are_integers() {
    let cfg = config();
    let mut m = model(&cfg);
    m.forward(&ids(&[&[3, 1]]), &pos(0, 2, 2)).unwrap();
    let mut before = m.clone();
    let real = Array::from_tensor(Tensor::zeros((1, 1), DType::F32, &Device::Cpu).unwrap());
    assert!(matches!(m.embed(&real), Err(ModelError::Kind)));
    assert!(matches!(m.forward(&real, &pos(2, 1, 2)), Err(ModelError::Kind)));
    let small = Array::from_tensor(Tensor::from_vec(vec![5u8], (1, 1), &Device::Cpu).unwrap());
    let a = values(&m.forward(&small, &pos(2, 1, 2)).unwrap());
    let b = values(&before.forward(&ids(&[&[5]]), &pos(2, 1, 2)).unwrap());
    assert_eq!(a, b);
}

#[test]
fn double_precision_is_refused_even_where_there_is_nothing() {
    let cfg = Config { num_hidden_layers: 0, ..config() };
    let none = Array::from_tensor(Tensor::zeros((1, 0), DType::I64, &Device::Cpu).unwrap());
    let empty = Array::from_tensor(Tensor::zeros((1, 0, 2), DType::F32, &Device::Cpu).unwrap());
    assert_eq!(model(&cfg).forward(&none, &empty).unwrap().dims(), vec![1, 0, 7]);
    let w = Weights(VarBuilder::from_tensors(store(&cfg), DType::F64, &Device::Cpu));
    let mut m = ParlerTts::new(&w, &cfg, &constants(&cfg)).unwrap();
    assert!(matches!(m.forward(&none, &empty), Err(ModelError::Kind)));
    assert!(m.forward(&ids(&[&[1]]), &pos(0, 1, 2)).is_err());
}

#[test]
fn the_first_steps_of_a_pass_can_be_tried() {
    let cfg = Config { num_key_value_heads: 0, ..config() };
    let m = model(&cfg);
    assert!(!m.is_proper());
    assert!(m.prepare(&ids(&[&[1, 2]]), &pos(0, 2, 2)).is_ok());
    assert!(m.prepare(&ids(&[&[1, 2]]), &pos(0, 3, 2)).is_err());
    assert!(m.prepare(&ids(&[&[9]]), &pos(0, 1, 2)).is_err());
}

#[test]
fn tokens_are_looked_up_with_a_mask() {
    let cfg = config();
    let m = model(&cfg);
    let (mask, xs) = m.embed(&ids(&[&[3, 0]])).unwrap();
    assert_eq!(values(&mask.unwrap()), vec![0., f32::NEG_INFINITY, 0., 0.]);
    let all = store(&cfg)["model.embed_tokens.weight"].clone();
    let all = all.flatten_all().unwrap().to_vec1::<f32>().unwrap();
    assert_eq!(xs.dims(), vec![1, 2, 8]);
    assert_eq!(values(&xs), [&all[24..32], &all[0..8]].concat());
    let (mask, _) = m.embed(&ids(&[&[3], &[0]])).unwrap();
    assert!(mask.is_none());
}

#[test]
fn models_without_key_heads_are_not_proper() {
    let cfg = Config { num_key_value_heads: 0, ..config() };
    assert!(!model(&cfg).is_proper());
    let cfg = Config { num_key_value_heads: 0, num_hidden_layers: 0, ..config() };
    assert!(model(&cfg).is_proper());
    let cfg = Config { hidden_size: 0, num_hidden_layers: 0, ..config() };
    assert!(!model(&cfg).is_proper());
}

#[test]
fn a_model_without_layers_scores_tokens_alone() {
    let cfg = Config { num_hidden_layers: 0, ..config() };
    let y = model(&cfg).forward(&ids(&[&[3, 1]]), &pos(0, 2, 2)).unwrap();
    assert!(close(&values(&y), &Plain::new(&cfg).forward(&[3, 1], 0)));
}

#[test]
fn attention_adds_the_mask() {
    let cfg = config();
    let w = Weights(
        VarBuilder::from_tensors(store(&cfg), DType::F32, &Device::Cpu)
            .pp("model")
            .pp("layers.0")
            .pp("self_attn"),
    );
    let mut a = Attention::new(&w, &cfg, constants(&cfg).scale).unwrap();
    assert_eq!(a.key_heads(), 2);
    let rows = vec![numbers("x", 8), numbers("y", 8)];
    let x = Array::from_tensor(Tensor::from_vec(rows.concat(), (1, 2, 8), &Device::Cpu).unwrap());
    let inf = f32::NEG_INFINITY;
    let mask = Tensor::from_vec(vec![0f32, inf, 0., 0.], (2, 2), &Device::Cpu).unwrap();
    let mask = Array::from_tensor(mask);
    let expected = Plain::new(&cfg).attention(0, &rows, 0).concat();
    let masked = a.clone().forward(&x, &pos(0, 2, 2), Some(&mask)).unwrap();
    assert!(close(&values(&masked), &expected));
    let open = a.clone().forward(&x, &pos(0, 2, 2), None).unwrap();
    assert!(!close(&values(&open)[..8], &expected[..8]));
    assert!(close(&values(&open)[8..], &expected[8..]));
    a.forward(&x, &pos(0, 2, 2), None).unwrap();
    a.clear_kv_cache();
    let again = a.forward(&x, &pos(0, 2, 2), Some(&mask)).unwrap();
    assert!(close(&values(&again), &expected));
}

fn attention(cfg: &Config) -> Attention {
    let vb = VarBuilder::from_tensors(store(cfg), DType::F32, &Device::Cpu);
    let w = Weights(vb.pp("model").pp("layers.0").pp("self_attn"));
    Attention::new(&w, cfg, constants(cfg).scale).unwrap()
}

fn rows(names: &[&str], shape: &[usize]) -> Array {
    let flat: Vec<f32> = names.iter().flat_map(|n| numbers(n, 8)).collect();
    Array::from_tensor(Tensor::from_vec(flat, shape, &Device::Cpu).unwrap())
}

#[test]
fn attention_refuses_other_rows_and_keeps_its_cache() {
    let mut a = attention(&config());
    a.forward(&rows(&["x", "y"], &[1, 2, 8]), &pos(0, 2, 2), None).unwrap();
    let mut before = a.clone();
    let flat = rows(&["x"], &[1, 8]);
    assert!(matches!(a.forward(&flat, &pos(2, 1, 2), None), Err(ModelError::Rank)));
    let narrow = rows(&["x"], &[1, 2, 4]);
    assert!(matches!(a.forward(&narrow, &pos(2, 2, 2), None), Err(ModelError::Tensor(_))));
    let z = rows(&["z"], &[1, 1, 8]);
    let y = values(&a.forward(&z, &pos(2, 1, 2), None).unwrap());
    assert_eq!(y, values(&before.forward(&z, &pos(2, 1, 2), None).unwrap()));
}

#[test]
fn a_mask_that_does_not_fit_comes_too_late_for_the_cache() {
    let cfg = config();
    let mut a = attention(&cfg);
    let mask = Array::from_tensor(Tensor::zeros((3, 3), DType::F32, &Device::Cpu).unwrap());
    let x = rows(&["x", "y"], &[1, 2, 8]);
    let failed = a.forward(&x, &pos(0, 2, 2), Some(&mask));
    assert!(matches!(failed, Err(ModelError::Tensor(_))));
    let y = a.forward(&rows(&["z"], &[1, 1, 8]), &pos(2, 1, 2), None).unwrap();
    let all = [numbers("x", 8), numbers("y", 8), numbers("z", 8)];
    let expected = Plain::new(&cfg).attention(0, &all, 0);
    assert!(close(&values(&y), &expected[2]));
}

#[test]
fn attention_to_one_row_at_a_time_comes_to_the_same_as_to_all_at_once() {
    let cfg = config();
    let x = rows(&["x", "y", "z"], &[1, 3, 8]);
    let mask = causal_mask(3, &x).unwrap();
    let whole = values(&attention(&cfg).forward(&x, &pos(0, 3, 2), Some(&mask)).unwrap());
    let mut a = attention(&cfg);
    for (i, name) in ["x", "y", "z"].into_iter().enumerate() {
        let y = a.forward(&rows(&[name], &[1, 1, 8]), &pos(i, 1, 2), None).unwrap();
        assert!(close(&values(&y), &whole[i * 8..(i + 1) * 8]));
    }
}

#[test]
fn sequences_attend_to_themselves_alone() {
    let cfg = config();
    let both = rows(&["x", "y", "z", "u"], &[2, 2, 8]);
    let y = values(&attention(&cfg).forward(&both, &pos(0, 2, 2), None).unwrap());
    let other = rows(&["x", "y", "v", "w"], &[2, 2, 8]);
    let z = values(&attention(&cfg).forward(&other, &pos(0, 2, 2), None).unwrap());
    assert!(close(&y[..16], &z[..16]));
    assert!(!close(&y[16..], &z[16..]));
}

#[test]
fn a_feed_forward_network_takes_rows_without_sequences() {
    let cfg = Config { hidden_size: 1, intermediate_size: 1, ..config() };
    let one = |x: f32, shape: &[usize]| Tensor::from_vec(vec![x], shape, &Device::Cpu).unwrap();
    let mut s = Store::new();
    for (name, weight, bias) in [("gate", 1., 0.), ("up", 0., 2.), ("down", 1., 0.)] {
        s.insert(format!("{name}.weight"), one(weight, &[1, 1]));
        s.insert(format!("{name}.bias"), one(bias, &[1]));
    }
    let w = Weights(VarBuilder::from_tensors(s, DType::F32, &Device::Cpu));
    let f = FeedForward::new(&w, &cfg).unwrap();
    let y = f.forward(&Array::from_tensor(one(1., &[1, 1]))).unwrap();
    assert_eq!(y.dims(), vec![1, 1]);
    assert!(close(&values(&y), &[1.462117]));
    assert!(f.forward(&Array::from_tensor(one(1., &[1]))).is_err());
}

#[test]
fn a_feed_forward_network_takes_each_row_by_itself() {
    let cfg = config();
    let vb = VarBuilder::from_tensors(store(&cfg), DType::F32, &Device::Cpu);
    let f = FeedForward::new(&Weights(vb.pp("model.layers.0.mlp")), &cfg).unwrap();
    let both = values(&f.forward(&rows(&["x", "y"], &[1, 2, 8])).unwrap());
    let x = values(&f.forward(&rows(&["x"], &[1, 1, 8])).unwrap());
    let y = values(&f.forward(&rows(&["y"], &[1, 1, 8])).unwrap());
    assert!(close(&both, &[x, y].concat()));
}

#[test]
fn a_layer_refuses_other_rows() {
    let cfg = config();
    let vb = VarBuilder::from_tensors(store(&cfg), DType::F32, &Device::Cpu);
    let w = Weights(vb.pp("model.layers.0"));
    let mut l = DecoderLayer::new(&w, &cfg, constants(&cfg).scale).unwrap();
    let narrow = rows(&["x"], &[1, 2, 4]);
    assert!(matches!(l.forward(&narrow, &pos(0, 2, 2), None), Err(ModelError::Width)));
    let flat = rows(&["x"], &[1, 8]);
    assert!(matches!(l.forward(&flat, &pos(0, 1, 2), None), Err(ModelError::Rank)));
}

/// Rows of one number that do not lie side by side.
fn scattered() -> Array {
    let flat = numbers("s", 6);
    let t = Tensor::from_vec(flat, (2, 3, 1), &Device::Cpu).unwrap().transpose(0, 1).unwrap();
    Array::from_tensor(t)
}

#[test]
fn scattered_rows_of_one_number_are_repeated() {
    let mut s = Store::new();
    put(&mut s, "weight", &[4]);
    put(&mut s, "bias", &[4]);
    let bias = s["bias"].to_vec1::<f32>().unwrap();
    let w = Weights(VarBuilder::from_tensors(s, DType::F32, &Device::Cpu));
    let n = Norm::new(4, 1e-5f64.to_bits(), &w).unwrap();
    let y = n.forward(&scattered()).unwrap();
    assert_eq!(y.dims(), vec![3, 2, 4]);
    assert!(close(&values(&y), &bias.repeat(6)));
    let packed = Array::from_tensor(scattered().tensor().contiguous().unwrap());
    assert!(matches!(n.forward(&packed), Err(ModelError::Width)));
}

#[test]
fn a_layer_refuses_scattered_rows_of_one_number_after_its_cache_has_grown() {
    let cfg = config();
    let vb = VarBuilder::from_tensors(store(&cfg), DType::F32, &Device::Cpu);
    let w = Weights(vb.pp("model.layers.0"));
    let mut l = DecoderLayer::new(&w, &cfg, constants(&cfg).scale).unwrap();
    let failed = l.forward(&scattered(), &pos(0, 2, 2), None);
    assert!(matches!(failed, Err(ModelError::Tensor(_))));
    // The cache now holds three sequences, and does not go with a single one.
    assert!(l.forward(&rows(&["x"], &[1, 1, 8]), &pos(2, 1, 2), None).is_err());
    l.clear_kv_cache();
    assert!(l.forward(&rows(&["x"], &[1, 1, 8]), &pos(2, 1, 2), None).is_ok());
}

#[test]
fn a_feed_forward_network_gates() {
    let cfg = config();
    let w = Weights(
        VarBuilder::from_tensors(store(&cfg), DType::F32, &Device::Cpu)
            .pp("model")
            .pp("layers.1")
            .pp("mlp"),
    );
    let f = FeedForward::new(&w, &cfg).unwrap();
    let row = numbers("z", 8);
    let x = Array::from_tensor(Tensor::from_vec(row.clone(), (1, 1, 8), &Device::Cpu).unwrap());
    let p = Plain::new(&cfg);
    let gate = p.linear("model.layers.1.mlp.gate", &row);
    let up = p.linear("model.layers.1.mlp.up", &row);
    let m: Vec<f32> = gate.iter().zip(&up).map(|(g, u)| g / (1. + (-g).exp()) * u).collect();
    let expected = p.linear("model.layers.1.mlp.down", &m);
    assert!(close(&values(&f.clone().forward(&x).unwrap()), &expected));
}

#[test]
fn a_layer_adds_to_its_rows() {
    let cfg = Config { num_hidden_layers: 1, ..config() };
    let w = Weights(
        VarBuilder::from_tensors(store(&cfg), DType::F32, &Device::Cpu).pp("model").pp("layers.0"),
    );
    let mut l = DecoderLayer::new(&w, &cfg, constants(&cfg).scale).unwrap();
    assert!(l.is_shaped() && l.is_proper());
    let p = Plain::new(&cfg);
    let e = p.get("model.embed_tokens.weight")[8..16].to_vec();
    let x = Array::from_tensor(Tensor::from_vec(e, (1, 1, 8), &Device::Cpu).unwrap());
    let y = l.clone().forward(&x, &pos(0, 1, 2), None).unwrap();
    let head = p.linear("model.lm_head", &p.norm("model.norm", &values(&y)));
    assert!(close(&head, &Plain::new(&cfg).forward(&[1], 0)));
    l.forward(&x, &pos(0, 1, 2), None).unwrap();
    l.clear_kv_cache();
    assert_eq!(values(&l.forward(&x, &pos(0, 1, 2), None).unwrap()), values(&y));
}
