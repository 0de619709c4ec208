use candle_core::{DType, Device, Tensor};
use parler_tts::array::Array;
use parler_tts::error::ModelError;
use parler_tts::view::ElementKind;

fn counting(shape: &[usize]) -> Array {
    let n: usize = shape.iter().product();
    let t = Tensor::arange(0f32, n as f32, &Device::Cpu).unwrap().reshape(shape).unwrap();
    Array::from_tensor(t)
}

fn values(a: &Array) -> Vec<f32> {
    a.tensor().flatten_all().unwrap().to_vec1::<f32>().unwrap()
}

fn integers(shape: &[usize]) -> Array {
    let n: usize = shape.iter().product();
    let t = Tensor::arange(0i64, n as i64, &Device::Cpu).unwrap().reshape(shape).unwrap();
    Array::from_tensor(t)
}

fn close(a: &[f32], b: &[f32]) -> bool {
    a.len() == b.len() && a.iter().zip(b).all(|(x, y)| (x - y).abs() < 1e-5)
}

#[test]
fn sizes_and_kinds_are_read() {
    let a = counting(&[2, 3]);
    assert_eq!(a.dims(), vec![2, 3]);
    assert_eq!(a.kind(), ElementKind::F32);
    assert_eq!(a.dims2().unwrap(), (2, 3));
    assert!(matches!(a.dims3(), Err(ModelError::Rank)));
    assert!(matches!(a.dims4(), Err(ModelError::Rank)));
    assert_eq!(counting(&[2, 3, 4]).dims3().unwrap(), (2, 3, 4));
    assert_eq!(counting(&[1, 2, 3, 4]).dims4().unwrap(), (1, 2, 3, 4));
    assert!(matches!(counting(&[4]).dims2(), Err(ModelError::Rank)));
    let cases = vec![
        (DType::U8, ElementKind::U8),
        (DType::U32, ElementKind::U32),
        (DType::I64, ElementKind::I64),
        (DType::BF16, ElementKind::BF16),
        (DType::F16, ElementKind::F16),
        (DType::F64, ElementKind::F64),
    ];
    for (dtype, kind) in cases {
        let t = Tensor::zeros(2, dtype, &Device::Cpu).unwrap();
        assert_eq!(Array::from_tensor(t).kind(), kind);
    }
}

#[test]
fn narrow_takes_a_range() {
    let a = counting(&[2, 3]);
    assert_eq!(values(&a.narrow(1, 1, 2).unwrap()), vec![1., 2., 4., 5.]);
    assert_eq!(a.narrow(1, 3, 0).unwrap().dims(), vec![2, 0]);
    assert!(matches!(a.narrow(1, 2, 2), Err(ModelError::Tensor(_))));
    assert!(matches!(a.narrow(1, 4, 0), Err(ModelError::Tensor(_))));
    assert!(matches!(a.narrow(2, 0, 1), Err(ModelError::Tensor(_))));
    assert!(matches!(a.narrow(1, usize::MAX, 1), Err(ModelError::TooLarge)));
}

#[test]
fn transpose_exchanges_axes() {
    let a = counting(&[2, 3]);
    assert_eq!(values(&a.transpose(0, 1).unwrap()), vec![0., 3., 1., 4., 2., 5.]);
    assert_eq!(values(&a.t().unwrap()), vec![0., 3., 1., 4., 2., 5.]);
    assert!(matches!(a.transpose(0, 2), Err(ModelError::Tensor(_))));
    assert!(matches!(counting(&[3]).t(), Err(ModelError::Rank)));
    assert!(a.is_packed());
    assert!(!a.t().unwrap().is_packed());
}

#[test]
fn unsqueeze_inserts_an_axis() {
    let a = counting(&[2, 3]);
    assert_eq!(a.unsqueeze(1).unwrap().dims(), vec![2, 1, 3]);
    assert_eq!(a.unsqueeze(2).unwrap().dims(), vec![2, 3, 1]);
    assert!(matches!(a.unsqueeze(3), Err(ModelError::Tensor(_))));
}

#[test]
fn expand_repeats_axes_of_size_one() {
    let a = counting(&[2, 1]);
    let e = a.expand(&vec![2, 2, 3]).unwrap();
    assert_eq!(values(&e), vec![0., 0., 0., 1., 1., 1., 0., 0., 0., 1., 1., 1.]);
    assert!(matches!(a.expand(&vec![3, 3]), Err(ModelError::Tensor(_))));
    assert!(matches!(a.expand(&vec![usize::MAX, 2, 3]), Err(ModelError::TooLarge)));
}

#[test]
fn reshape_keeps_row_major_order() {
    let a = counting(&[2, 3]).t().unwrap();
    let r = a.reshape(&vec![2, 3]).unwrap();
    assert_eq!(values(&r), vec![0., 3., 1., 4., 2., 5.]);
    assert_eq!(r.dims(), vec![2, 3]);
    assert!(r.is_packed());
    assert!(matches!(a.reshape(&vec![7]), Err(ModelError::Tensor(_))));
    assert!(matches!(a.reshape(&vec![usize::MAX, 6]), Err(ModelError::TooLarge)));
    assert_eq!(a.flatten_all().unwrap().dims(), vec![6]);
    assert_eq!(values(&a.flatten_all().unwrap()), vec![0., 3., 1., 4., 2., 5.]);
}

#[test]
fn cat_puts_one_array_behind_another() {
    let a = counting(&[2, 2]);
    let b = counting(&[2, 1]);
    let c = a.cat(&b, 1).unwrap();
    assert_eq!(c.dims(), vec![2, 3]);
    assert_eq!(values(&c), vec![0., 1., 0., 2., 3., 1.]);
    assert!(c.is_packed());
    assert!(matches!(a.cat(&b, 0), Err(ModelError::Tensor(_))));
    assert!(matches!(a.cat(&counting(&[2]), 1), Err(ModelError::Tensor(_))));
    assert!(matches!(a.cat(&integers(&[2, 1]), 1), Err(ModelError::Tensor(_))));
    let wide = Array::from_tensor(
        Tensor::zeros((0, 1), DType::F32, &Device::Cpu)
            .unwrap()
            .broadcast_as((0, usize::MAX))
            .unwrap(),
    );
    assert!(matches!(wide.cat(&wide, 1), Err(ModelError::TooLarge)));
}

#[test]
fn empty_ranges_can_be_put_together() {
    let rows = counting(&[2, 3]).narrow(1, 1, 2).unwrap();
    let none = rows.narrow(0, 2, 0).unwrap();
    assert_eq!(none.dims(), vec![0, 2]);
    assert_eq!(values(&none.cat(&rows, 0).unwrap()), vec![1., 2., 4., 5.]);
    assert_eq!(none.to_bits().unwrap(), Vec::<u32>::new());
    assert_eq!(none.to_single().unwrap().dims(), vec![0, 2]);
}

#[test]
fn unary_operations_work_on_each_element() {
    let a = counting(&[3]);
    assert_eq!(values(&a.neg().unwrap()), vec![-0., -1., -2.]);
    assert!(close(&values(&a.cos().unwrap()), &[1., 0.540_302_3, -0.416_146_84]));
    assert!(close(&values(&a.sin().unwrap()), &[0., 0.841_471, 0.909_297_4]));
    assert!(close(&values(&a.silu().unwrap()), &[0., 0.731_058_6, 1.761_594_2]));
    let i = integers(&[3]);
    assert!(matches!(i.neg(), Err(ModelError::Kind)));
    assert!(matches!(i.cos(), Err(ModelError::Kind)));
    assert!(matches!(i.sin(), Err(ModelError::Kind)));
    assert!(matches!(i.silu(), Err(ModelError::Kind)));
    assert!(matches!(i.softmax(), Err(ModelError::Kind)));
    assert!(matches!(i.scale(1f64.to_bits()), Err(ModelError::Kind)));
    assert!(matches!(i.plus(&i), Err(ModelError::Kind)));
    assert!(matches!(i.times(&i), Err(ModelError::Kind)));
    assert!(matches!(i.broadcast_add(&i), Err(ModelError::Kind)));
    assert!(matches!(i.broadcast_mul(&i), Err(ModelError::Kind)));
    assert_eq!(integers(&[0]).neg().unwrap().dims(), vec![0]);
}

#[test]
fn scaling_multiplies_by_a_double() {
    let a = counting(&[3]);
    assert_eq!(values(&a.scale(0.5f64.to_bits()).unwrap()), vec![0., 0.5, 1.]);
    assert_eq!(values(&a.scale((-2f64).to_bits()).unwrap()), vec![-0., -2., -4.]);
}

#[test]
fn conversion_to_single_precision() {
    let a = integers(&[3]).to_single().unwrap();
    assert_eq!(a.kind(), ElementKind::F32);
    assert_eq!(values(&a), vec![0., 1., 2.]);
}

#[test]
fn sums_and_products_of_equal_shapes() {
    let a = counting(&[2, 2]);
    assert_eq!(values(&a.plus(&a).unwrap()), vec![0., 2., 4., 6.]);
    assert_eq!(values(&a.times(&a).unwrap()), vec![0., 1., 4., 9.]);
    assert!(matches!(a.plus(&counting(&[4])), Err(ModelError::Tensor(_))));
    assert!(matches!(a.times(&integers(&[2, 2])), Err(ModelError::Tensor(_))));
}

#[test]
fn sums_and_products_of_repeated_shapes() {
    let a = counting(&[2, 2]);
    let b = counting(&[2]);
    assert_eq!(values(&a.broadcast_add(&b).unwrap()), vec![0., 2., 2., 4.]);
    assert_eq!(values(&a.broadcast_mul(&b).unwrap()), vec![0., 1., 0., 3.]);
    assert!(matches!(a.broadcast_add(&counting(&[3])), Err(ModelError::Tensor(_))));
    let long = |shape: (usize, usize)| {
        let t = Tensor::zeros((1, 1), DType::F32, &Device::Cpu).unwrap();
        Array::from_tensor(t.broadcast_as(shape).unwrap())
    };
    let tall = long((1 << 40, 1));
    let wide = long((1, 1 << 40));
    assert!(matches!(tall.broadcast_add(&wide), Err(ModelError::TooLarge)));
    assert!(matches!(tall.broadcast_mul(&wide), Err(ModelError::TooLarge)));
    assert!(matches!(tall.matmul(&wide), Err(ModelError::TooLarge)));
}

#[test]
fn products_of_matrices() {
    let a = counting(&[2, 3]);
    let b = counting(&[3, 2]);
    assert_eq!(values(&a.matmul(&b).unwrap()), vec![10., 13., 28., 40.]);
    let c = counting(&[2, 1, 2]);
    let d = counting(&[2, 2, 1]);
    assert_eq!(values(&c.matmul(&d).unwrap()), vec![1., 13.]);
    assert!(matches!(a.matmul(&a), Err(ModelError::Tensor(_))));
    assert!(matches!(a.matmul(&d), Err(ModelError::Tensor(_))));
    let empty = counting(&[2, 0]).matmul(&counting(&[5, 2])).unwrap();
    assert_eq!(values(&empty), vec![0.; 4]);
}

#[test]
fn matrices_at_unequal_distances_are_refused() {
    let a = counting(&[2, 5, 3, 4]).transpose(1, 2).unwrap();
    let b = counting(&[2, 3, 4, 1]);
    assert!(matches!(a.matmul(&b), Err(ModelError::Tensor(_))));
    let packed = a.reshape(&vec![2, 3, 5, 4]).unwrap();
    assert_eq!(packed.matmul(&b).unwrap().dims(), vec![2, 3, 5, 1]);
    let one = counting(&[1, 5, 3, 4]).transpose(1, 2).unwrap();
    assert_eq!(one.matmul(&counting(&[1, 3, 4, 1])).unwrap().dims(), vec![1, 3, 5, 1]);
}

#[test]
fn softmax_sums_to_one() {
    let a = counting(&[2, 2]).softmax().unwrap();
    assert!(close(&values(&a), &[0.268_941_43, 0.731_058_6, 0.268_941_43, 0.731_058_6]));
    let scalar = counting(&[1]).reshape(&vec![]).unwrap();
    assert!(matches!(scalar.softmax(), Err(ModelError::Tensor(_))));
}

#[test]
fn bits_are_read_back() {
    let bits = vec![0, 0x3f80_0000, 0xff80_0000, 0x7fc0_0001, 0x8000_0000, 1];
    let like = counting(&[1]);
    let a = Array::from_bits(&bits, &vec![2, 3], &like).unwrap();
    assert_eq!(a.dims(), vec![2, 3]);
    assert_eq!(a.to_bits().unwrap(), bits);
    assert_eq!(values(&a)[1], 1.0);
    let turned = a.t().unwrap().to_bits().unwrap();
    assert_eq!(turned, vec![bits[0], bits[3], bits[1], bits[4], bits[2], bits[5]]);
    assert!(matches!(integers(&[2]).to_bits(), Err(ModelError::Kind)));
}

#[test]
fn integers_make_a_row() {
    let like = counting(&[1]);
    let a = Array::from_ids(&vec![5, -1, 7], &like).unwrap();
    assert_eq!(a.kind(), ElementKind::I64);
    assert_eq!(a.tensor().to_vec1::<i64>().unwrap(), vec![5, -1, 7]);
    assert!(matches!(Array::from_ids(&vec![], &like), Err(ModelError::Tensor(_))));
}

#[test]
fn counting_starts_at_zero() {
    let a = Array::arange(4).unwrap();
    assert_eq!(a.kind(), ElementKind::U32);
    assert_eq!(a.tensor().to_vec1::<u32>().unwrap(), vec![0, 1, 2, 3]);
    assert_eq!(Array::arange(0).unwrap().dims(), vec![0]);
}

#[test]
fn shared_arrays_hold_the_same() {
    let a = counting(&[2, 2]);
    assert_eq!(values(&a.share()), values(&a));
}

#[test]
fn views_of_nothing_are_read_and_joined() {
    let like = counting(&[1]);
    let none = Array::from_bits(&vec![], &vec![0, 3], &like).unwrap();
    let view = none.narrow(1, 2, 1).unwrap();
    assert_eq!(view.dims(), vec![0, 1]);
    assert_eq!(view.to_bits().unwrap(), Vec::<u32>::new());
    let column = counting(&[3, 1]);
    let joined = view.cat(&column, 0).unwrap();
    assert_eq!(joined.dims(), vec![3, 1]);
    assert_eq!(values(&joined), vec![0., 1., 2.]);
    assert_eq!(values(&column.cat(&view, 0).unwrap()), vec![0., 1., 2.]);
    assert_eq!(view.cat(&view, 0).unwrap().dims(), vec![0, 1]);
    assert!(view.cat(&counting(&[3, 2]), 0).is_err());
    let wide = Array::from_tensor(Tensor::zeros((0, 3), DType::F64, &Device::Cpu).unwrap());
    let single = wide.narrow(1, 2, 1).unwrap().to_single().unwrap();
    assert_eq!(single.dims(), vec![0, 1]);
    assert_eq!(single.kind(), ElementKind::F32);
}
