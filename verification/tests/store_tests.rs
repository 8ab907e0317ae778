use frame_classifier::annotation::FrameAnnotation;
use frame_classifier::store::AnnotationStore;

fn ann(start: u32, end: u32, label: &str) -> FrameAnnotation {
    FrameAnnotation {
        start_frame: start,
        end_frame: end,
        label: label.to_string(),
    }
}

#[test]
fn add_creates_entry_and_appends_in_order() {
    let mut store = AnnotationStore::new();
    let video = "clip.mp4".to_string();
    store.add(&video, ann(0, 5, "a"));
    store.add(&video, ann(3, 8, "b"));
    assert_eq!(store.entries.len(), 1);
    assert_eq!(store.entries[0].video, video);
    assert_eq!(store.entries[0].annotations.len(), 2);
    assert_eq!(store.entries[0].annotations[0].label, "a");
    assert_eq!(store.entries[0].annotations[1].label, "b");
}

#[test]
fn add_keeps_videos_separate() {
    let mut store = AnnotationStore::new();
    store.add(&"one.mp4".to_string(), ann(0, 1, "x"));
    store.add(&"two.mp4".to_string(), ann(2, 3, "y"));
    store.add(&"one.mp4".to_string(), ann(4, 5, "z"));
    assert_eq!(store.entries.len(), 2);
    assert_eq!(store.entries[0].annotations.len(), 2);
    assert_eq!(store.entries[1].annotations.len(), 1);
}

#[test]
fn remove_deletes_by_position() {
    let mut store = AnnotationStore::new();
    let video = "v.mp4".to_string();
    store.add(&video, ann(0, 1, "a"));
    store.add(&video, ann(2, 3, "b"));
    store.add(&video, ann(4, 5, "c"));
    store.remove(&video, 1);
    assert_eq!(store.entries[0].annotations.len(), 2);
    assert_eq!(store.entries[0].annotations[0].label, "a");
    assert_eq!(store.entries[0].annotations[1].label, "c");
}

#[test]
fn remove_out_of_range_is_a_no_op() {
    let mut store = AnnotationStore::new();
    let video = "v.mp4".to_string();
    store.add(&video, ann(0, 1, "a"));
    store.remove(&video, 5);
    store.remove(&"missing.mp4".to_string(), 0);
    assert_eq!(store.entries.len(), 1);
    assert_eq!(store.entries[0].annotations.len(), 1);
}

#[test]
fn remove_can_leave_an_empty_entry() {
    let mut store = AnnotationStore::new();
    let video = "v.mp4".to_string();
    store.add(&video, ann(0, 1, "a"));
    store.remove(&video, 0);
    assert_eq!(store.entries.len(), 1);
    assert!(store.entries[0].annotations.is_empty());
}

#[test]
fn labels_for_keeps_stored_order_and_duplicates() {
    let mut store = AnnotationStore::new();
    let video = "v.mp4".to_string();
    store.add(&video, ann(0, 10, "dog"));
    store.add(&video, ann(5, 15, "run"));
    store.add(&video, ann(7, 9, "dog"));
    let at8 = store.labels_for(&video, 8);
    assert_eq!(at8, vec!["dog".to_string(), "run".to_string(), "dog".to_string()]);
    let at2 = store.labels_for(&video, 2);
    assert_eq!(at2, vec!["dog".to_string()]);
    let at20 = store.labels_for(&video, 20);
    assert!(at20.is_empty());
    let missing = store.labels_for(&"other.mp4".to_string(), 0);
    assert!(missing.is_empty());
}

#[test]
fn used_labels_deduplicates_across_videos() {
    let mut store = AnnotationStore::new();
    store.add(&"a.mp4".to_string(), ann(0, 1, "dog"));
    store.add(&"a.mp4".to_string(), ann(2, 3, "cat"));
    store.add(&"b.mp4".to_string(), ann(0, 1, "dog"));
    let labels = store.used_labels();
    assert_eq!(labels, vec!["dog".to_string(), "cat".to_string()]);
}
