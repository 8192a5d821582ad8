use rust_pyaq::utils::{fill, most_common};

#[test]
fn test_fill() {
    let mut array = [0; 3];
    fill(&mut array, 1);
    assert!(array[0] == 1 && array[1] == 1 && array[2] == 1);
}

#[test]
fn test_most_common() {
    assert_eq!(most_common(&[0, 1, 1]), &1);
}

#[test]
fn most_common_takes_the_first_of_equally_frequent() {
    assert_eq!(most_common(&[3, 9, 9, 3, 5]), &3);
    assert_eq!(most_common(&["a"]), &"a");
}

#[test]
fn fill_leaves_an_empty_slice_alone() {
    let mut nothing: [u8; 0] = [];
    fill(&mut nothing, 1);
    assert_eq!(nothing.len(), 0);
}
