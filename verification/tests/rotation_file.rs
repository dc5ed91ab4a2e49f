use nd_renderer::rotation_file::{parse_rotation_values, rotations_from_values, Rotation};

fn values(text: &str) -> Option<Vec<usize>> {
    parse_rotation_values(text.as_bytes())
}

#[test]
fn four_numbers_per_line_are_kept() {
    assert_eq!(values("0 3 1 4\n1 2 0 8\n"), Some(vec![0, 3, 1, 4, 1, 2, 0, 8]));
}

#[test]
fn three_numbers_get_a_one() {
    assert_eq!(values("0 3 1"), Some(vec![0, 3, 1, 1]));
}

#[test]
fn two_numbers_get_a_zero() {
    assert_eq!(values("0 3\n"), Some(vec![0, 3, 0]));
}

#[test]
fn other_counts_are_not_padded() {
    assert_eq!(values("7\n1 2 3 4 5"), Some(vec![7, 1, 2, 3, 4, 5]));
}

#[test]
fn three_numbers_read_as_a_full_turn() {
    assert_eq!(values("2 4 0"), values("2 4 0 1"));
}

#[test]
fn empty_file_has_no_values() {
    assert_eq!(values(""), Some(vec![]));
}

#[test]
fn carriage_returns_before_newlines_are_dropped() {
    assert_eq!(values("0 1 1 2\r\n2 3 0 6\r\n"), Some(vec![0, 1, 1, 2, 2, 3, 0, 6]));
}

#[test]
fn carriage_return_without_newline_is_kept() {
    assert_eq!(values("0 1 1 2\r"), None);
}

#[test]
fn plus_sign_is_accepted() {
    assert_eq!(values("+0 +1 0 +12"), Some(vec![0, 1, 0, 12]));
}

#[test]
fn lone_plus_is_refused() {
    assert_eq!(values("0 + 1 2"), None);
}

#[test]
fn minus_sign_is_refused() {
    assert_eq!(values("0 -1 1 2"), None);
}

#[test]
fn words_are_refused() {
    assert_eq!(values("0 1 1 2\nx 1 1 2\n"), None);
}

#[test]
fn double_space_is_refused() {
    assert_eq!(values("0  1 1 2"), None);
}

#[test]
fn empty_line_is_refused() {
    assert_eq!(values("0 1 1 2\n\n2 3 0 6"), None);
}

#[test]
fn trailing_space_is_refused() {
    assert_eq!(values("0 1 1 2 "), None);
}

#[test]
fn largest_number_is_accepted() {
    let text = format!("{} 1 0 2", usize::MAX);
    assert_eq!(values(&text), Some(vec![usize::MAX, 1, 0, 2]));
}

#[test]
fn too_large_number_is_refused() {
    let text = format!("{}0 1 0 2", usize::MAX);
    assert_eq!(values(&text), None);
}

#[test]
fn leading_zeros_are_accepted() {
    assert_eq!(values("000 01 0010 4"), Some(vec![0, 1, 10, 4]));
}

#[test]
fn values_group_into_rotations() {
    let rotations = rotations_from_values(&vec![0, 3, 1, 4, 1, 2, 0, 8]);
    assert_eq!(
        rotations,
        vec![
            Rotation { first_axis: 0, second_axis: 3, global: true, turn_divisor: 4 },
            Rotation { first_axis: 1, second_axis: 2, global: false, turn_divisor: 8 },
        ]
    );
}

#[test]
fn only_one_marks_global() {
    let rotations = rotations_from_values(&vec![0, 1, 2, 3]);
    assert_eq!(rotations[0].global, false);
}

#[test]
fn no_values_no_rotations() {
    assert_eq!(rotations_from_values(&vec![]), vec![]);
}
