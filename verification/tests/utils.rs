use adae::circular_array::CircularArray;
use adae::utils::{format_truncate_list, min_max, partial_max, partial_min};

fn texts<T: std::fmt::Debug>(items: &[T]) -> Vec<String> {
    items.iter().map(|e| format!("{:?}", e)).collect()
}

#[test]
fn utils_circular_array() {
    let mut ca = CircularArray::new(1, 5);
    let mut output = [0; 6];

    for number in &mut output {
        *number = ca.push_pop(2);
    }

    // All initial values are pushed through, plus a single one of the supplied ones.
    let expected_output = [1, 1, 1, 1, 1, 2];
    assert_eq!(output, expected_output);
}

#[test]
fn mod_circular_array() {
    let mut ca = CircularArray::new(1, 5);
    let mut output = [0; 6];

    for number in &mut output {
        *number = ca.push_pop(2);
    }

    let expected_output = [1, 1, 1, 1, 1, 2];
    assert_eq!(output, expected_output);
}

#[test]
fn circular_array_fill_and_order() {
    let mut ca = CircularArray::new(0u32, 3);
    ca.push_pop(1);
    ca.push_pop(2);
    assert_eq!(ca.iter(), vec![0, 1, 2]);
    assert_eq!(ca.len(), 3);
    ca.fill(7);
    assert_eq!(ca.iter(), vec![7, 7, 7]);
    assert_eq!(ca.push_pop(8), 7);
    assert_eq!(ca.iter(), vec![7, 7, 8]);
}

#[test]
fn format_small_list() {
    let range: Vec<_> = (0..5).collect();
    let output = format_truncate_list(5, &texts(&range[..]));
    assert_eq!(output, "[0, 1, 2, 3, 4]");
}

#[test]
fn format_long_list() {
    let range: Vec<_> = (0..6).collect();
    let output = format_truncate_list(5, &texts(&range[..]));
    assert_eq!(output, "[0, 1 ... 4, 5]");
}

#[test]
fn format_edge_lists() {
    let empty: Vec<String> = Vec::new();
    assert_eq!(format_truncate_list(5, &empty), "[]");
    let range: Vec<_> = (0..3).collect();
    assert_eq!(format_truncate_list(0, &texts(&range[..])), "[ ... ]");
    assert_eq!(format_truncate_list(1, &texts(&range[..])), "[ ... ]");
    assert_eq!(format_truncate_list(2, &texts(&range[..])), "[0 ... 2]");
}

#[test]
fn partial_min_and_max() {
    assert_eq!(partial_min(3, 5), 3);
    assert_eq!(partial_min(5, 3), 3);
    assert_eq!(partial_max(3, 5), 5);
    assert_eq!(partial_max(5, 3), 5);
    assert_eq!(partial_min(-1i64, -1i64), -1);
}

#[test]
fn min_max_of_items() {
    assert_eq!(min_max(&[4, -2, 9, 0], 1), (-2, 9));
    assert_eq!(min_max(&[4, 6], 5), (4, 6));
    assert_eq!(min_max(&[3, 5], 0), (3, 5));
    assert_eq!(min_max(&[3.0f32, 5.0], 0.0), (3.0, 5.0));
    let none: [i32; 0] = [];
    assert_eq!(min_max(&none, 7), (7, 7));
}

#[test]
fn circular_array_keeps_the_last_values() {
    let mut ca = CircularArray::new(0, 3);
    for v in 1..=7 {
        ca.push_pop(v);
    }
    assert_eq!(ca.iter(), vec![5, 6, 7]);
    ca.fill(9);
    assert_eq!(ca.push_pop(1), 9);
    assert_eq!(ca.push_pop(2), 9);
    assert_eq!(ca.push_pop(3), 9);
    assert_eq!(ca.push_pop(4), 1);
}
