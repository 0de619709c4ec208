use candle_core::{DType, Device, Tensor};
use parler_tts::array::Array;
use parler_tts::error::ModelError;
use parler_tts::rotary::{apply_rotary_emb, build_rotary_emb};

fn values(a: &Array) -> Vec<f32> {
    a.tensor().flatten_all().unwrap().to_vec1::<f32>().unwrap()
}

fn close(a: &[f32], b: &[f32]) -> bool {
    a.len() == b.len() && a.iter().zip(b).all(|(x, y)| (x - y).abs() < 1e-5)
}

fn array(v: &[f32], shape: &[usize]) -> Array {
    Array::from_tensor(Tensor::from_slice(v, shape, &Device::Cpu).unwrap())
}

#[test]
fn the_table_holds_cosines_and_sines() {
    let freqs = vec![1f32.to_bits(), 0.5f32.to_bits()];
    let t = build_rotary_emb(3, 4, &freqs).unwrap();
    assert_eq!(t.dims(), vec![1, 1, 3, 4]);
    let expected: Vec<f32> = (0..3)
        .flat_map(|p| {
            let p = p as f32;
            vec![p.cos(), (p * 0.5).cos(), p.sin(), (p * 0.5).sin()]
        })
        .collect();
    assert!(close(&values(&t), &expected));
}

#[test]
fn the_table_needs_a_frequency_per_pair() {
    let one = vec![1f32.to_bits()];
    assert!(matches!(build_rotary_emb(3, 4, &one), Err(ModelError::Tensor(_))));
    assert!(matches!(build_rotary_emb(3, 0, &vec![]), Err(ModelError::EmptyArray)));
    assert_eq!(build_rotary_emb(3, 3, &one).unwrap().dims(), vec![1, 1, 3, 2]);
    assert_eq!(build_rotary_emb(0, 2, &one).unwrap().dims(), vec![1, 1, 0, 2]);
    assert!(build_rotary_emb(1 << 40, 2, &one).is_err());
}

#[test]
fn halves_of_a_head_are_turned() {
    // One sequence, two heads, two positions, heads of two numbers.
    let x = array(&[1., 2., 3., 4., 5., 6., 7., 8.], &[1, 2, 2, 2]);
    // Cosine and sine of each position.
    let pos = array(&[0.6, 0.8, 0.0, 1.0], &[1, 2, 2]);
    let y = apply_rotary_emb(&x, &pos, 2).unwrap();
    assert_eq!(y.dims(), vec![1, 2, 2, 2]);
    let expected = [
        1. * 0.6 - 2. * 0.8,
        2. * 0.6 + 1. * 0.8,
        -4.,
        3.,
        5. * 0.6 - 6. * 0.8,
        6. * 0.6 + 5. * 0.8,
        -8.,
        7.,
    ];
    assert!(close(&values(&y), &expected));
    assert!(y.is_packed());
}

#[test]
fn a_table_with_four_axes_is_cut_along_its_positions() {
    let table = build_rotary_emb(8, 4, &vec![1f32.to_bits(), 0.5f32.to_bits()]).unwrap();
    let x = array(&[0.; 12], &[1, 1, 3, 4]);
    assert!(matches!(apply_rotary_emb(&x, &table, 4), Err(ModelError::Tensor(_))));
    // Two positions and heads of two: the first position serves as cosine, the second as
    // sine, and each number is paired with both columns.
    let small = build_rotary_emb(2, 2, &vec![1f32.to_bits()]).unwrap();
    let x = array(&[1., 2.], &[1, 1, 1, 2]);
    let y = apply_rotary_emb(&x, &small, 2).unwrap();
    assert_eq!(y.dims(), vec![1, 1, 1, 4]);
    let (c, s) = (1f32.cos(), 1f32.sin());
    assert!(close(&values(&y), &[1. - 2. * c, -2. * s, 2. + c, s]));
}

#[test]
fn tables_of_the_wrong_shape_are_refused() {
    let x = array(&[0.; 8], &[1, 1, 2, 4]);
    assert!(matches!(apply_rotary_emb(&x, &array(&[0.; 4], &[2, 2]), 4), Err(ModelError::Rank)));
    assert!(matches!(apply_rotary_emb(&x, &array(&[0.; 2], &[1, 2, 1]), 4), Err(ModelError::Rank)));
    assert!(apply_rotary_emb(&x, &array(&[0.; 12], &[1, 3, 4]), 4).is_err());
    let flat = array(&[0.; 8], &[2, 4]);
    assert!(matches!(apply_rotary_emb(&flat, &array(&[0.; 8], &[1, 2, 4]), 4), Err(ModelError::Rank)));
    let ids = Array::from_tensor(Tensor::zeros((1, 1, 2, 4), DType::I64, &Device::Cpu).unwrap());
    let pos = Array::from_tensor(Tensor::zeros((1, 2, 4), DType::I64, &Device::Cpu).unwrap());
    assert!(matches!(apply_rotary_emb(&ids, &pos, 4), Err(ModelError::Kind)));
}

#[test]
fn a_shorter_table_begins_a_longer_one() {
    let freqs = vec![1f32.to_bits(), 0.5f32.to_bits()];
    let short = values(&build_rotary_emb(3, 4, &freqs).unwrap());
    let long = values(&build_rotary_emb(5, 4, &freqs).unwrap());
    assert_eq!(short[..], long[..12]);
}

/// The rows of a table from `start` on, as they are handed to the layers.
fn from(table: &Array, start: usize, n: usize) -> Array {
    Array::from_tensor(table.tensor().narrow(2, start, n).unwrap().squeeze(1).unwrap())
}

#[test]
fn a_rotation_by_the_opposite_angles_undoes_a_rotation() {
    let x = array(&[1., -2., 3., 4., 0.5, 6., -7., 8.], &[1, 1, 2, 4]);
    let pos = array(&[0.6, 0., 0.8, 1., 0.8, -1., 0.6, 0.], &[1, 2, 4]);
    let back = array(&[0.6, 0., -0.8, -1., 0.8, -1., -0.6, 0.], &[1, 2, 4]);
    let y = apply_rotary_emb(&x, &pos, 4).unwrap();
    assert!(!close(&values(&y), &values(&x)));
    let z = apply_rotary_emb(&y, &back, 4).unwrap();
    assert!(close(&values(&z), &values(&x)));
    // Each row has the length that it had.
    for (r, s) in values(&x).chunks(4).zip(values(&y).chunks(4)) {
        let length = |v: &[f32]| v.iter().map(|a| a * a).sum::<f32>();
        assert!((length(r) - length(s)).abs() < 1e-4);
    }
}

#[test]
fn products_of_turned_rows_depend_on_the_distance_alone() {
    let freqs = vec![1f32.to_bits(), 0.5f32.to_bits()];
    let table = build_rotary_emb(12, 4, &freqs).unwrap();
    let q = array(&[1., -2., 3., 4.], &[1, 1, 1, 4]);
    let k = array(&[0.5, 6., -7., 8.], &[1, 1, 1, 4]);
    let product = |m: usize, n: usize| {
        let a = values(&apply_rotary_emb(&q, &from(&table, m, 1), 4).unwrap());
        let b = values(&apply_rotary_emb(&k, &from(&table, n, 1), 4).unwrap());
        a.iter().zip(b).map(|(x, y)| x * y).sum::<f32>()
    };
    assert!((product(3, 1) - product(10, 8)).abs() < 1e-3);
    assert!((product(0, 0) - product(7, 7)).abs() < 1e-3);
    assert!((product(3, 1) - product(10, 7)).abs() > 1.);
}
