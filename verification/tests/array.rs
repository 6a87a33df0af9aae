use shoulders_of_giants::ndarray::{shape_len, strides_fit, Array};

fn sum_of_indices(x: Vec<usize>) -> i32 {
    i32::try_from(x.iter().sum::<usize>()).unwrap_or(0)
}

fn cell_texts<T: std::fmt::Display>(a: &Array<T>) -> Vec<String> {
    a.data().iter().map(|x| x.to_string()).collect()
}

#[test]
fn test_from_fn() {
    let test_array: Array<i32> = Array::from_fn(&[2, 10, 10], sum_of_indices);
    let text = test_array.render(&cell_texts(&test_array));
    println!("{text}");
    assert_eq!(test_array.data().len(), 200);
}

#[test]
fn test_index() {
    let test_array: Array<i32> = Array::from_fn(&[2, 10, 10], sum_of_indices);
    assert_eq!(*test_array.index(&[1, 5, 5]), 11);
}

#[test]
fn from_fn_passes_each_multi_index_in_row_major_order() {
    let a: Array<Vec<usize>> = Array::from_fn(&[2, 3], |v: Vec<usize>| v);
    assert_eq!(a.shape(), &[2, 3]);
    let expected: Vec<Vec<usize>> = vec![
        vec![0, 0],
        vec![0, 1],
        vec![0, 2],
        vec![1, 0],
        vec![1, 1],
        vec![1, 2],
    ];
    assert_eq!(a.data(), expected.as_slice());
}

#[test]
fn from_fn_without_axes_has_one_cell() {
    let a: Array<usize> = Array::from_fn(&[], |v: Vec<usize>| v.len() + 7);
    assert_eq!(a.data(), &[7]);
}

#[test]
fn index_flattens_row_major() {
    let a: Array<usize> = Array::from_iter(&[3, 4], (0..12).collect());
    assert_eq!(*a.index(&[0, 0]), 0);
    assert_eq!(*a.index(&[1, 0]), 4);
    assert_eq!(*a.index(&[2, 3]), 11);
    assert_eq!(*a.index(&[1, 2]), 6);
}

#[test]
fn set_replaces_one_cell() {
    let mut a: Array<u8> = Array::from_elem(&[2, 2], 0u8);
    a.set(&[1, 0], 9);
    assert_eq!(a.data(), &[0, 0, 9, 0]);
}

#[test]
fn from_elem_and_from_default_fill_every_cell() {
    let a: Array<char> = Array::from_elem(&[2, 3], 'x');
    assert_eq!(a.data(), &['x'; 6]);
    let b: Array<bool> = Array::from_default(&[4]);
    assert_eq!(b.data(), &[false; 4]);
    let c: Array<u32> = Array::default();
    assert_eq!(c.shape(), &[0]);
    assert!(c.data().is_empty());
}

#[test]
fn shape_len_is_the_product_of_the_axes() {
    assert_eq!(shape_len(&[2, 10, 10]), 200);
    assert_eq!(shape_len(&[]), 1);
    assert_eq!(shape_len(&[5, 0, 3]), 0);
}

#[test]
fn render_breaks_rows_and_planes() {
    let a: Array<u32> = Array::from_iter(&[2, 2, 2], (0..8).collect());
    assert_eq!(a.render(&cell_texts(&a)), "0 1 \n2 3 \n\n4 5 \n6 7 ");
}

#[test]
fn render_right_aligns_to_the_longest_cell() {
    let a: Array<u32> = Array::from_iter(&[2, 3], vec![1, 20, 3, 400, 5, 6]);
    assert_eq!(a.render(&cell_texts(&a)), "  1  20   3 \n400   5   6 ");
}

#[test]
fn render_of_one_axis_is_a_single_line() {
    let a: Array<bool> = Array::from_iter(&[3], vec![true, false, true]);
    assert_eq!(a.render(&cell_texts(&a)), " true false  true ");
}

#[test]
fn strides_fit_checks_the_axes_after_the_first() {
    assert!(strides_fit(&[2, 3, 4]));
    assert!(strides_fit(&[0, 3]));
    assert!(strides_fit(&[]));
    assert!(!strides_fit(&[2, 0, 4]));
    assert!(!strides_fit(&[1, usize::MAX, 2]));
}
