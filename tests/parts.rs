use anim_to_vtk::parts::{atoi_prefix, part_ids, resolve_part_id};

#[test]
fn part_ids_follow_boundaries() {
    let names = vec!["10".to_string(), "20".to_string(), "30".to_string()];
    assert_eq!(part_ids(7, &[0, 3, 7], &names), vec![10, 10, 10, 20, 20, 20, 20]);
}

#[test]
fn part_ids_before_first_boundary() {
    let names = vec!["4".to_string(), "5".to_string()];
    assert_eq!(part_ids(4, &[2, 3], &names), vec![4, 4, 4, 5]);
}

#[test]
fn part_ids_without_names() {
    assert_eq!(part_ids(3, &[], &[]), vec![0, 0, 0]);
}

#[test]
fn resolve_part_id_moves_cursor() {
    let names = vec!["10".to_string(), "20abc".to_string()];
    let def = [0, 2];
    let mut cursor = 0usize;
    assert_eq!(resolve_part_id(0, &mut cursor, &def, &names), 10);
    assert_eq!(cursor, 1);
    assert_eq!(resolve_part_id(1, &mut cursor, &def, &names), 10);
    assert_eq!(cursor, 1);
    assert_eq!(resolve_part_id(2, &mut cursor, &def, &names), 20);
    assert_eq!(cursor, 2);
}

#[test]
fn atoi_prefix_cases() {
    assert_eq!(atoi_prefix("123"), 123);
    assert_eq!(atoi_prefix("  42abc"), 42);
    assert_eq!(atoi_prefix("-17"), -17);
    assert_eq!(atoi_prefix("+8"), 8);
    assert_eq!(atoi_prefix("abc"), 0);
    assert_eq!(atoi_prefix(""), 0);
    assert_eq!(atoi_prefix("-"), 0);
    assert_eq!(atoi_prefix("\t\n 7 8"), 7);
    assert_eq!(atoi_prefix("99999999999"), i32::MAX);
    assert_eq!(atoi_prefix("-99999999999"), -i32::MAX);
    assert_eq!(atoi_prefix("2147483647"), 2147483647);
}

#[test]
fn part_ids_pass_over_empty_parts() {
    let names = vec!["10".to_string(), "20".to_string(), "30".to_string()];
    assert_eq!(part_ids(4, &[0, 0, 3], &names), vec![20, 20, 20, 30]);
    assert_eq!(part_ids(5, &[0, 2, 2], &names), vec![10, 10, 30, 30, 30]);
}

#[test]
fn resolve_part_id_skips_equal_boundaries() {
    let names = vec!["10".to_string(), "20".to_string(), "30".to_string()];
    let def = [0, 0, 3];
    let mut cursor = 0usize;
    assert_eq!(resolve_part_id(0, &mut cursor, &def, &names), 20);
    assert_eq!(cursor, 2);
    assert_eq!(resolve_part_id(3, &mut cursor, &def, &names), 30);
    assert_eq!(cursor, 3);
}
