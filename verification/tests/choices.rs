use candle_core::{DType, Device, Tensor};
use candle_nn::VarBuilder;
use parler_tts::array::Array;
use parler_tts::config::Config;
use parler_tts::error::ModelError;
use parler_tts::generation::{last_scores, Action, Event};
use parler_tts::layers::Weights;
use parler_tts::model::{Constants, ParlerTts};
use parler_tts::ranking::{is_greater, is_not_positive, leading, place};
use parler_tts::sampling::{candidates, count_kept, LogitsProcessor, Reply, Sampling, Work};
use rand::rngs::StdRng;
use rand::{RngCore, SeedableRng};
use std::collections::HashMap;

fn bits(v: &[f32]) -> Vec<u32> {
    v.iter().map(|x| x.to_bits()).collect()
}

#[test]
fn numbers_are_ordered_by_their_bits() {
    let inf = f32::INFINITY;
    let v = [-inf, -2., -1., -1e-40, 0., 1e-40, 1., 1.5, 2., inf];
    for (i, a) in v.iter().enumerate() {
        for (j, b) in v.iter().enumerate() {
            assert_eq!(is_greater(a.to_bits(), b.to_bits()), a > b);
            assert_eq!(place(a.to_bits()) > place(b.to_bits()), i > j);
        }
        assert_eq!(is_not_positive(a.to_bits()), *a <= 0.);
    }
    assert_eq!(place(0f32.to_bits()), place((-0f32).to_bits()));
    assert!(is_not_positive((-0f32).to_bits()));
    let nan = f32::NAN.to_bits();
    assert!(!is_greater(nan, 0) && !is_greater(0, nan) && !is_greater(nan, nan));
    assert!(!is_not_positive(nan) && !is_not_positive((-f32::NAN).to_bits()));
}

#[test]
fn positions_are_ranked_by_score() {
    let v = bits(&[1., 3., -2., 3., 0.5, 7.]);
    assert_eq!(leading(&v, 6), vec![5, 1, 3, 0, 4, 2]);
    assert_eq!(leading(&v, 3), vec![5, 1, 3]);
    assert_eq!(leading(&v, 0), Vec::<usize>::new());
    assert_eq!(leading(&v, 100), vec![5, 1, 3, 0, 4, 2]);
    assert_eq!(leading(&vec![], 2), Vec::<usize>::new());
}

#[test]
fn ranking_agrees_with_a_stable_sort() {
    let mut state: u64 = 7;
    let scores: Vec<f32> = (0..1000)
        .map(|_| {
            state = state.wrapping_mul(6364136223846793005).wrapping_add(1);
            (((state >> 33) % 97) as f32) - 48.
        })
        .collect();
    let mut pairs: Vec<(usize, f32)> = scores.iter().copied().enumerate().collect();
    pairs.sort_by(|a, b| b.1.partial_cmp(&a.1).unwrap());
    let expected: Vec<usize> = pairs.iter().map(|p| p.0).collect();
    assert_eq!(leading(&bits(&scores), 1000), expected);
}

#[test]
fn candidates_are_limited_by_number() {
    let v = bits(&[1., 3., -2.]);
    assert_eq!(candidates(&v, Some(2), None), vec![1, 0]);
    assert_eq!(candidates(&v, Some(2), Some(0)), vec![1, 0]);
    assert_eq!(candidates(&v, None, Some(0)), vec![1, 0, 2]);
    assert_eq!(candidates(&v, None, None), vec![0, 1, 2]);
}

#[test]
fn the_first_excessive_sum_ends_the_candidates() {
    let limit = 0.9f32.to_bits();
    assert_eq!(count_kept(&bits(&[0.5, 0.8, 1.0, 0.1]), limit), 2);
    assert_eq!(count_kept(&bits(&[1.0]), limit), 0);
    assert_eq!(count_kept(&bits(&[0.9]), limit), 1);
    assert_eq!(count_kept(&bits(&[f32::NAN, 2.0]), limit), 1);
    assert_eq!(count_kept(&vec![], limit), 0);
}

#[test]
fn the_seed_decides_the_draws() {
    let mut p = LogitsProcessor::new(299792458, None, None, None);
    let mut q = p.clone();
    let mut g = StdRng::seed_from_u64(299792458);
    for _ in 0..5 {
        let x = g.next_u64();
        assert_eq!(p.rng().next_u64(), x);
        assert_eq!(q.rng().next_u64(), x);
    }
    let mut other = LogitsProcessor::new(1, None, None, None);
    assert_ne!(other.rng().next_u64(), StdRng::seed_from_u64(299792458).next_u64());
}

/// Does the work that is asked for, and draws the position `pick`.
fn run(p: &LogitsProcessor, logits: &[f32], pick: Option<usize>) -> Result<usize, ModelError> {
    let (mut s, mut work): (Sampling, Work) = p.sample(&bits(logits));
    loop {
        let reply = match work {
            Work::Divide { logits, by } => {
                let by = f32::from_bits(by);
                Reply::Numbers(logits.iter().map(|l| (f32::from_bits(*l) / by).to_bits()).collect())
            }
            Work::RunningSums { logits } => {
                let mut sum = 0f32;
                let sums = logits.iter().map(|l| {
                    sum += f32::from_bits(*l).exp();
                    sum.to_bits()
                });
                Reply::Numbers(sums.collect())
            }
            Work::Sum { logits } => {
                Reply::Number(logits.iter().map(|l| f32::from_bits(*l).exp()).sum::<f32>().to_bits())
            }
            Work::Draw { .. } => Reply::Drawn(pick),
            Work::Finish(r) => return r,
        };
        work = s.step(reply);
    }
}

#[test]
fn every_token_can_be_chosen_without_limits() {
    let p = LogitsProcessor::new(0, None, None, None);
    for i in 0..3 {
        assert_eq!(run(&p, &[0.1, 0.3, 0.2], Some(i)).unwrap(), i);
    }
}

#[test]
fn the_number_of_tokens_can_be_limited() {
    let p = LogitsProcessor::new(0, None, None, Some(2));
    let logits = [0.1, 0.3, 0.2, 0.3];
    assert_eq!(run(&p, &logits, Some(0)).unwrap(), 1);
    assert_eq!(run(&p, &logits, Some(1)).unwrap(), 3);
    assert!(matches!(run(&p, &logits, Some(2)), Err(ModelError::Protocol)));
    let none = LogitsProcessor::new(0, None, None, Some(0));
    assert!(matches!(run(&none, &logits, Some(0)), Err(ModelError::NoMass)));
}

#[test]
fn the_weight_of_tokens_can_be_limited() {
    // The exponentials are 0.5, 0.25 and 0.125.
    let logits = [0.25f32.ln(), 0.5f32.ln(), 0.125f32.ln()];
    let p = LogitsProcessor::new(0, None, Some(0.8f32.to_bits()), None);
    assert_eq!(run(&p, &logits, Some(0)).unwrap(), 1);
    assert_eq!(run(&p, &logits, Some(1)).unwrap(), 0);
    assert!(matches!(run(&p, &logits, Some(2)), Err(ModelError::Protocol)));
    let tight = LogitsProcessor::new(0, None, Some(0.4f32.to_bits()), None);
    assert!(matches!(run(&tight, &logits, Some(0)), Err(ModelError::NoMass)));
    let both = LogitsProcessor::new(0, None, Some(2f32.to_bits()), Some(1));
    assert_eq!(run(&both, &logits, Some(0)).unwrap(), 1);
    assert!(matches!(run(&both, &logits, Some(1)), Err(ModelError::Protocol)));
}

#[test]
fn the_temperature_divides_the_scores() {
    let p = LogitsProcessor::new(0, Some(2f32.to_bits()), None, Some(1));
    let (mut s, work) = p.sample(&bits(&[1., 5.]));
    match work {
        Work::Divide { logits, by } => {
            assert_eq!(logits, bits(&[1., 5.]));
            assert_eq!(by, 2f32.to_bits());
        }
        _ => panic!("division expected"),
    }
    match s.step(Reply::Numbers(bits(&[0.5, 2.5]))) {
        Work::Sum { logits } => assert_eq!(logits, bits(&[2.5])),
        _ => panic!("sum expected"),
    }
    match s.step(Reply::Number(3f32.to_bits())) {
        Work::Draw { logits, sum } => {
            assert_eq!(logits, bits(&[2.5]));
            assert_eq!(sum, 3f32.to_bits());
        }
        _ => panic!("draw expected"),
    }
    assert!(matches!(s.step(Reply::Drawn(Some(0))), Work::Finish(Ok(1))));
    assert!(matches!(s.step(Reply::Drawn(Some(0))), Work::Finish(Err(ModelError::Protocol))));
    // A negative temperature turns the order round.
    let cold = LogitsProcessor::new(0, Some((-1f32).to_bits()), None, Some(1));
    assert_eq!(run(&cold, &[1., 5., 3.], Some(0)).unwrap(), 0);
}

#[test]
fn weights_that_are_no_probabilities_end_the_choice() {
    let p = LogitsProcessor::new(0, None, None, None);
    assert!(matches!(run(&p, &[1., 2.], None), Err(ModelError::Weights)));
    let inf = f32::NEG_INFINITY;
    assert!(matches!(run(&p, &[inf, inf], Some(0)), Err(ModelError::NoMass)));
    assert!(matches!(run(&p, &[], Some(0)), Err(ModelError::NoMass)));
}

#[test]
fn replies_must_belong_to_what_was_asked() {
    let p = LogitsProcessor::new(0, Some(1f32.to_bits()), Some(1f32.to_bits()), None);
    let (mut s, _) = p.sample(&bits(&[1., 2.]));
    assert!(matches!(
        s.step(Reply::Numbers(bits(&[1.]))),
        Work::Finish(Err(ModelError::Protocol))
    ));
    let (mut s, _) = p.sample(&bits(&[1., 2.]));
    assert!(matches!(s.step(Reply::Number(0)), Work::Finish(Err(ModelError::Protocol))));
    let (mut s, _) = p.sample(&bits(&[1., 2.]));
    s.step(Reply::Numbers(bits(&[1., 2.])));
    assert!(matches!(
        s.step(Reply::Numbers(bits(&[1.]))),
        Work::Finish(Err(ModelError::Protocol))
    ));
}

fn tiny() -> ParlerTts {
    let cfg = Config {
        vocab_size: 3,
        max_position_embeddings: 4,
        hidden_size: 2,
        intermediate_size: 1,
        num_hidden_layers: 0,
        num_attention_heads: 1,
        num_key_value_heads: 1,
        head_dim: 2,
        rms_norm_eps: 1e-5f64.to_bits(),
        rope_theta: 10000f32.to_bits(),
    };
    let t = |v: Vec<f32>, s: &[usize]| Tensor::from_vec(v, s, &Device::Cpu).unwrap();
    let mut store = HashMap::new();
    store.insert("model.embed_tokens.weight".to_string(), t(vec![1., -1., -1., 1., 2., -2.], &[3, 2]));
    store.insert("model.norm.weight".to_string(), t(vec![1., 1.], &[2]));
    store.insert("model.norm.bias".to_string(), t(vec![0., 0.], &[2]));
    store.insert("model.lm_head.weight".to_string(), t(vec![1., 0., 0., 1., 1., 1.], &[3, 2]));
    store.insert("model.lm_head.bias".to_string(), t(vec![0., 0., 0.5], &[3]));
    let w = Weights(VarBuilder::from_tensors(store, DType::F32, &Device::Cpu));
    let c = Constants { scale: 1f64.to_bits(), inv_freq: vec![1f32.to_bits()] };
    ParlerTts::new(&w, &cfg, &c).unwrap()
}

fn ids(v: Vec<i64>) -> Array {
    let n = v.len();
    Array::from_tensor(Tensor::from_vec(v, (1, n), &Device::Cpu).unwrap())
}

#[test]
fn the_last_position_is_scored() {
    let t = Tensor::arange(0f32, 12., &Device::Cpu).unwrap().reshape((2, 3, 2)).unwrap();
    let s = last_scores(&Array::from_tensor(t)).unwrap();
    assert_eq!(s.dims(), vec![4]);
    assert_eq!(s.to_bits().unwrap(), bits(&[4., 5., 10., 11.]));
    let none = Array::from_tensor(Tensor::zeros((2, 0, 2), DType::F32, &Device::Cpu).unwrap());
    assert!(matches!(last_scores(&none), Err(ModelError::EmptyArray)));
    let flat = Array::from_tensor(Tensor::zeros(2, DType::F32, &Device::Cpu).unwrap());
    assert!(matches!(last_scores(&flat), Err(ModelError::Rank)));
    let half = Array::from_tensor(Tensor::ones((1, 1, 2), DType::F16, &Device::Cpu).unwrap());
    assert_eq!(last_scores(&half).unwrap().to_bits().unwrap(), bits(&[1., 1.]));
    let no_rows = Array::from_tensor(Tensor::zeros((0, 2, 5), DType::F64, &Device::Cpu).unwrap());
    assert_eq!(last_scores(&no_rows).unwrap().to_bits().unwrap(), Vec::<u32>::new());
}

#[test]
fn a_round_asks_for_a_token() {
    let mut m = tiny();
    let mut g = m.begin(ids(vec![1, 0]), 3);
    match m.generate(&mut g, Event::Begin) {
        Action::Sample(scores) => {
            let scores: Vec<f32> = scores.iter().map(|b| f32::from_bits(*b)).collect();
            assert_eq!(scores.len(), 3);
            assert!((scores[0] - 1.).abs() < 1e-4);
            assert!((scores[1] + 1.).abs() < 1e-4);
            assert!((scores[2] - 0.5).abs() < 1e-4);
        }
        _ => panic!("scores expected"),
    }
}

#[test]
fn a_token_does_not_go_with_rows_of_sequences() {
    let mut m = tiny();
    let mut g = m.begin(ids(vec![1, 0]), 3);
    m.generate(&mut g, Event::Begin);
    let a = m.generate(&mut g, Event::Sampled(Some(2)));
    assert!(matches!(a, Action::Done(Err(ModelError::Tensor(_)))));
    assert!(matches!(
        m.generate(&mut g, Event::Judged(false)),
        Action::Done(Err(ModelError::Protocol))
    ));
}

#[test]
fn rounds_end_with_their_number() {
    let mut m = tiny();
    let mut g = m.begin(ids(vec![1, 0]), 2);
    assert!(matches!(m.generate(&mut g, Event::Begin), Action::Sample(_)));
    assert!(matches!(m.generate(&mut g, Event::Sampled(None)), Action::Judge(0)));
    assert!(matches!(m.generate(&mut g, Event::Judged(false)), Action::Sample(_)));
    assert!(matches!(m.generate(&mut g, Event::Sampled(None)), Action::Judge(0)));
    // There is no array without tokens.
    let a = m.generate(&mut g, Event::Judged(false));
    assert!(matches!(a, Action::Done(Err(ModelError::Tensor(_)))));
}

#[test]
fn a_run_can_be_stopped() {
    let mut m = tiny();
    let mut g = m.begin(ids(vec![1]), 5);
    m.generate(&mut g, Event::Begin);
    m.generate(&mut g, Event::Sampled(None));
    let a = m.generate(&mut g, Event::Judged(true));
    assert!(matches!(a, Action::Done(Err(ModelError::Tensor(_)))));
    let mut none = m.begin(ids(vec![1]), 0);
    let a = m.generate(&mut none, Event::Begin);
    assert!(matches!(a, Action::Done(Err(ModelError::Tensor(_)))));
}

#[test]
fn a_run_takes_scores_or_an_error() {
    let m = tiny();
    let mut g = m.begin(ids(vec![1]), 1);
    match g.receive(Ok(bits(&[1., 2.]))) {
        Action::Sample(scores) => assert_eq!(scores, bits(&[1., 2.])),
        _ => panic!("scores expected"),
    }
    assert!(matches!(g.receive(Err(ModelError::Kind)), Action::Done(Err(ModelError::Kind))));
}

#[test]
fn scoring_can_fail() {
    let mut m = tiny();
    let flat = Array::from_tensor(Tensor::from_vec(vec![1i64, 2], 2, &Device::Cpu).unwrap());
    let mut g = m.begin(flat, 1);
    assert!(matches!(m.generate(&mut g, Event::Begin), Action::Done(Err(ModelError::Rank))));
    let mut g = m.begin(ids(vec![9]), 1);
    let a = m.generate(&mut g, Event::Begin);
    assert!(matches!(a, Action::Done(Err(ModelError::Tensor(_)))));
    let mut g = m.begin(ids(vec![0]), 1);
    let a = m.generate(&mut g, Event::Judged(true));
    assert!(matches!(a, Action::Done(Err(ModelError::Protocol))));
}
