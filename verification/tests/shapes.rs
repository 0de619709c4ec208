use parler_tts::shape::{broadcast_dims, fits, is_empty};

#[test]
fn small_shapes_fit() {
    assert!(fits(&vec![]));
    assert!(fits(&vec![2, 3, 4]));
    assert!(fits(&vec![usize::MAX]));
    assert!(fits(&vec![usize::MAX, 1, 0]));
}

#[test]
fn large_shapes_do_not_fit() {
    assert!(!fits(&vec![usize::MAX, 2]));
    assert!(!fits(&vec![0, usize::MAX, 2]));
    assert!(!fits(&vec![1 << 40, 1 << 40, 0]));
}

#[test]
fn an_empty_axis_empties_the_shape() {
    assert!(is_empty(&vec![2, 0, 3]));
    assert!(!is_empty(&vec![2, 1, 3]));
    assert!(!is_empty(&vec![]));
}

#[test]
fn shapes_meet_along_axes_of_size_one() {
    assert_eq!(broadcast_dims(&vec![2, 1, 3], &vec![4, 1]), Some(vec![2, 4, 3]));
    assert_eq!(broadcast_dims(&vec![5], &vec![2, 3, 5]), Some(vec![2, 3, 5]));
    assert_eq!(broadcast_dims(&vec![0], &vec![1]), Some(vec![0]));
    assert_eq!(broadcast_dims(&vec![2, 3], &vec![2]), None);
}
