use anim_to_vtk::fields::{expand_sym3, expand_sym6, strided_component};

#[test]
fn sym6_mirrors_off_diagonals() {
    let v = [1, 2, 3, 4, 5, 6, 10, 20, 30, 40, 50, 60];
    assert_eq!(
        expand_sym6(&v, 2),
        vec![1, 4, 5, 4, 2, 6, 5, 6, 3, 10, 40, 50, 40, 20, 60, 50, 60, 30]
    );
}

#[test]
fn sym3_fills_zero_row() {
    let v = [1, 2, 3];
    assert_eq!(expand_sym3(&v, 1), vec![1, 3, 0, 3, 2, 0, 0, 0, 0]);
    assert_eq!(expand_sym3(&[], 0), Vec::<u32>::new());
}

#[test]
fn strided_picks_component() {
    let data: Vec<u32> = (0..18).collect();
    assert_eq!(strided_component(&data, 9, 0, 2), vec![0, 9]);
    assert_eq!(strided_component(&data, 9, 4, 2), vec![4, 13]);
    assert_eq!(strided_component(&data, 9, 8, 2), vec![8, 17]);
}
