use anim_to_vtk::topology::{distinct_in_order, unique_count_4, unique_sorted_4_of_8};

#[test]
fn degenerate_hex_is_tetra() {
    assert_eq!(unique_sorted_4_of_8(&[1, 1, 2, 2, 3, 3, 4, 4]), Some([1, 2, 3, 4]));
}

#[test]
fn tetra_ids_are_sorted() {
    assert_eq!(unique_sorted_4_of_8(&[9, 3, 9, 3, 7, 1, 1, 7]), Some([1, 3, 7, 9]));
    assert_eq!(unique_sorted_4_of_8(&[-2, 5, 0, 5, 5, 5, -7, 0]), Some([-7, -2, 0, 5]));
}

#[test]
fn distinct_hex_stays_hex() {
    assert_eq!(unique_sorted_4_of_8(&[1, 2, 3, 4, 5, 6, 7, 8]), None);
}

#[test]
fn malformed_hex_passes_through() {
    assert_eq!(unique_sorted_4_of_8(&[1, 2, 3, 4, 5, 5, 5, 5]), None);
    assert_eq!(unique_sorted_4_of_8(&[1, 1, 1, 1, 2, 2, 3, 3]), None);
}

#[test]
fn quad_triangle_detection() {
    assert_eq!(unique_count_4(&[5, 5, 6, 7]), 3);
    assert_eq!(unique_count_4(&[5, 6, 7, 8]), 4);
    assert_eq!(unique_count_4(&[5, 6, 7, 7]), 3);
    assert_eq!(unique_count_4(&[5, 5, 5, 5]), 1);
}

#[test]
fn triangle_keeps_first_occurrences() {
    assert_eq!(distinct_in_order(&[5, 5, 6, 7]), vec![5, 6, 7]);
    assert_eq!(distinct_in_order(&[8, 6, 7, 7]), vec![8, 6, 7]);
    assert_eq!(distinct_in_order(&[]), Vec::<i32>::new());
}
