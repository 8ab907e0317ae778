use frame_classifier::annotation::{labels_of, FrameAnnotation};

fn ann(start: u32, end: u32, label: &str) -> FrameAnnotation {
    FrameAnnotation {
        start_frame: start,
        end_frame: end,
        label: label.to_string(),
    }
}

#[test]
fn contains_inside_range() {
    let a = ann(2, 4, "x");
    assert!(a.contains(2));
    assert!(a.contains(3));
    assert!(a.contains(4));
}

#[test]
fn contains_boundaries() {
    let a = ann(10, 20, "walk");
    assert!(a.contains(10));
    assert!(a.contains(20));
    assert!(!a.contains(9));
    assert!(!a.contains(21));
}

#[test]
fn contains_single_frame_range() {
    let a = ann(7, 7, "blink");
    assert!(!a.contains(6));
    assert!(a.contains(7));
    assert!(!a.contains(8));
}

#[test]
fn contains_extreme_values() {
    let a = ann(0, u32::MAX, "all");
    assert!(a.contains(0));
    assert!(a.contains(u32::MAX));
}

#[test]
fn labels_of_keeps_order_and_duplicates() {
    let anns = vec![ann(0, 1, "b"), ann(2, 3, "a"), ann(4, 5, "b")];
    let labels = labels_of(&anns);
    assert_eq!(labels, vec!["b".to_string(), "a".to_string(), "b".to_string()]);
}
