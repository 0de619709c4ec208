use candle_core::{Device, Tensor};
use parler_tts::array::Array;
use parler_tts::error::ModelError;
use parler_tts::heads::{causal_mask, merge_heads, repeat_kv, split_heads};

fn counting(shape: &[usize]) -> Array {
    let n: usize = shape.iter().product();
    let t = Tensor::arange(0f32, n as f32, &Device::Cpu).unwrap().reshape(shape).unwrap();
    Array::from_tensor(t)
}

fn values(a: &Array) -> Vec<f32> {
    a.tensor().flatten_all().unwrap().to_vec1::<f32>().unwrap()
}

#[test]
fn rows_are_split_into_heads() {
    // Two rows of five numbers; the middle four are two heads of two.
    let a = counting(&[1, 2, 5]);
    let h = split_heads(&a, 1, 4, 2, 2).unwrap();
    assert_eq!(h.dims(), vec![1, 2, 2, 2]);
    assert_eq!(values(&h), vec![1., 2., 6., 7., 3., 4., 8., 9.]);
}

#[test]
fn ranges_outside_the_rows_are_refused() {
    let a = counting(&[1, 2, 5]);
    assert!(matches!(split_heads(&a, 2, 4, 2, 2), Err(ModelError::Tensor(_))));
    assert!(matches!(split_heads(&a, 0, 4, 3, 2), Err(ModelError::Tensor(_))));
    assert!(matches!(split_heads(&a, 0, 4, usize::MAX, 2), Err(ModelError::TooLarge)));
}

#[test]
fn merging_undoes_splitting() {
    let a = counting(&[2, 3, 6]);
    let h = split_heads(&a, 0, 6, 3, 2).unwrap();
    assert_eq!(h.dims(), vec![2, 3, 3, 2]);
    let b = merge_heads(&h, 2, 3, 6).unwrap();
    assert_eq!(b.dims(), a.dims());
    assert_eq!(values(&b), values(&a));
    assert!(matches!(merge_heads(&h, 2, 3, 7), Err(ModelError::Tensor(_))));
}

#[test]
fn each_head_is_repeated_in_a_row() {
    let a = counting(&[1, 2, 1, 2]);
    let r = repeat_kv(a.share(), 3).unwrap();
    assert_eq!(r.dims(), vec![1, 6, 1, 2]);
    assert_eq!(values(&r), vec![0., 1., 0., 1., 0., 1., 2., 3., 2., 3., 2., 3.]);
    assert!(r.is_packed());
}

#[test]
fn a_single_repetition_changes_nothing() {
    let a = counting(&[3]);
    let r = repeat_kv(a.share(), 1).unwrap();
    assert_eq!(r.dims(), vec![3]);
    assert_eq!(values(&r), values(&a));
    assert!(matches!(repeat_kv(a, 2), Err(ModelError::Rank)));
}

#[test]
fn no_repetition_leaves_no_head() {
    let r = repeat_kv(counting(&[1, 2, 1, 2]), 0).unwrap();
    assert_eq!(r.dims(), vec![1, 0, 1, 2]);
}

#[test]
fn the_future_is_masked() {
    let like = counting(&[1]);
    let m = causal_mask(3, &like).unwrap();
    assert_eq!(m.dims(), vec![3, 3]);
    let inf = f32::NEG_INFINITY;
    assert_eq!(values(&m), vec![0., inf, inf, 0., 0., inf, 0., 0., 0.]);
    assert!(matches!(causal_mask(usize::MAX, &like), Err(ModelError::TooLarge)));
}

#[test]
fn repetitions_multiply() {
    let a = counting(&[2, 2, 1, 2]);
    let twice = repeat_kv(repeat_kv(a.share(), 3).unwrap(), 2).unwrap();
    let once = repeat_kv(a, 6).unwrap();
    assert_eq!(twice.dims(), once.dims());
    assert_eq!(values(&twice), values(&once));
    // What cannot be repeated again cannot be repeated so often at once.
    let often = usize::MAX / 4;
    let few = repeat_kv(counting(&[1, 1, 1, 2]), 3).unwrap();
    assert!(matches!(repeat_kv(few, often), Err(ModelError::TooLarge)));
    assert!(matches!(repeat_kv(counting(&[1, 1, 1, 2]), 3 * often), Err(ModelError::TooLarge)));
}
