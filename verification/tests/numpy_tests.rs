use rust_pyaq::numpy::{argmax, argsort};

#[test]
fn test_argmax() {
    assert_eq!(argmax(&[0, 1, 2, 1, 0]), 2);
}

#[test]
fn test_argsort() {
    let a = argsort(&[3, 5, 1, 2], false);
    assert!(a[0] == 2 && a[1] == 3 && a[2] == 0 && a[3] == 1);
}

#[test]
fn test_argsort_rev() {
    let a = argsort(&[3, 5, 1, 2], true);
    assert!(a[0] == 1 && a[1] == 0 && a[2] == 3 && a[3] == 2);
}

#[test]
fn argmax_takes_the_first_of_equal_maxima() {
    assert_eq!(argmax(&[1, 7, 3, 7, 7]), 1);
    assert_eq!(argmax(&[4]), 0);
}

#[test]
fn argsort_keeps_equal_elements_in_place() {
    assert_eq!(argsort(&[2, 1, 2, 1], false), vec![1, 3, 0, 2]);
    assert_eq!(argsort(&[2, 1, 2, 1], true), vec![0, 2, 1, 3]);
    assert_eq!(argsort::<u8>(&[], false), Vec::<usize>::new());
}

#[test]
fn argsort_of_floats_is_a_permutation() {
    let a = argsort(&[0.5f32, f32::NAN, 0.25, 0.75], true);
    let mut seen = a.clone();
    seen.sort();
    assert_eq!(seen, vec![0, 1, 2, 3]);
}
