use frame_classifier::annotation::FrameAnnotation;
use frame_classifier::marking::MarkState;
use frame_classifier::project::{label_suggestions, Project};

fn ann(start: u32, end: u32, label: &str) -> FrameAnnotation {
    FrameAnnotation {
        start_frame: start,
        end_frame: end,
        label: label.to_string(),
    }
}

#[test]
fn with_root_uses_standard_folders() {
    let p = Project::with_root("/data/proj".to_string());
    assert_eq!(p.path, "/data/proj");
    assert_eq!(p.video_folder, "video");
    assert_eq!(p.labels_folder, "labels");
    assert!(p.annotations.entries.is_empty());
    assert!(p.used_labels.is_empty());
}

#[test]
fn config_copies_everything_but_the_root() {
    let mut p = Project::with_root("/r".to_string());
    p.add_annotation(&"v.mp4".to_string(), ann(1, 2, "a"));
    let c = p.config();
    assert_eq!(c.video_folder, "video");
    assert_eq!(c.labels_folder, "labels");
    assert_eq!(c.used_labels, vec!["a".to_string()]);
    assert_eq!(c.annotations.entries.len(), 1);
    assert_eq!(c.annotations.entries[0].annotations[0], ann(1, 2, "a"));
}

#[test]
fn from_restores_a_config_at_a_root() {
    let mut p = Project::with_root("/old".to_string());
    p.add_annotation(&"v.mp4".to_string(), ann(1, 2, "a"));
    let q = Project::from(p.config(), "/new".to_string());
    assert_eq!(q.path, "/new");
    assert_eq!(q.video_folder, "video");
    assert_eq!(q.labels_folder, "labels");
    assert_eq!(q.used_labels, vec!["a".to_string()]);
    assert_eq!(q.annotations.entries[0].annotations[0], ann(1, 2, "a"));
}

#[test]
fn add_annotation_records_each_label_once() {
    let mut p = Project::with_root("/r".to_string());
    let v = "v.mp4".to_string();
    p.add_annotation(&v, ann(0, 1, "dog"));
    p.add_annotation(&v, ann(2, 3, "cat"));
    p.add_annotation(&v, ann(4, 5, "dog"));
    assert_eq!(p.used_labels, vec!["dog".to_string(), "cat".to_string()]);
    assert_eq!(p.annotations.entries[0].annotations.len(), 3);
}

#[test]
fn remove_annotation_keeps_used_labels_until_reload() {
    let mut p = Project::with_root("/r".to_string());
    let v = "v.mp4".to_string();
    p.add_annotation(&v, ann(0, 1, "z"));
    p.add_annotation(&v, ann(2, 3, "keep"));
    p.remove_annotation(&v, 0);
    assert_eq!(p.used_labels, vec!["z".to_string(), "keep".to_string()]);
    p.reload_used_labels();
    assert_eq!(p.used_labels, vec!["keep".to_string()]);
}

#[test]
fn reload_used_labels_matches_annotations_exactly() {
    let mut p = Project::with_root("/r".to_string());
    p.add_annotation(&"a.mp4".to_string(), ann(0, 1, "x"));
    p.add_annotation(&"b.mp4".to_string(), ann(0, 1, "y"));
    p.add_annotation(&"b.mp4".to_string(), ann(2, 3, "x"));
    p.used_labels.push("stale".to_string());
    p.reload_used_labels();
    let mut labels = p.used_labels.clone();
    labels.sort();
    assert_eq!(labels, vec!["x".to_string(), "y".to_string()]);
}

#[test]
fn marks_refuse_a_crossing_endpoint() {
    let mut m = MarkState::new();
    m.mark_end(10);
    m.mark_start(15);
    assert_eq!(m.start, None);
    m.mark_start(5);
    assert_eq!(m.start, Some(5));
    m.mark_end(3);
    assert_eq!(m.end, Some(10));
    m.mark_end(7);
    assert_eq!(m.end, Some(7));
}

#[test]
fn try_add_needs_both_marks_and_a_label() {
    let mut p = Project::with_root("/r".to_string());
    let v = "v.mp4".to_string();
    let mut m = MarkState::new();
    assert!(!p.try_add_annotation(&v, &mut m, &"dog".to_string()));
    m.mark_start(2);
    assert!(!p.try_add_annotation(&v, &mut m, &"dog".to_string()));
    m.mark_end(6);
    assert!(!p.try_add_annotation(&v, &mut m, &"".to_string()));
    assert!(p.try_add_annotation(&v, &mut m, &"dog".to_string()));
    assert_eq!(p.annotations.entries[0].annotations[0], ann(2, 6, "dog"));
    assert_eq!(p.used_labels, vec!["dog".to_string()]);
    assert_eq!(m.start, None);
    assert_eq!(m.end, None);
}

#[test]
fn suggestions_filter_by_prefix() {
    let labels = vec![
        "walk".to_string(),
        "wave".to_string(),
        "run".to_string(),
        "walk fast".to_string(),
    ];
    let hits = label_suggestions(&labels, &"wa".to_string());
    assert_eq!(
        hits,
        vec!["walk".to_string(), "wave".to_string(), "walk fast".to_string()]
    );
    let all = label_suggestions(&labels, &"".to_string());
    assert_eq!(all.len(), 4);
    let none = label_suggestions(&labels, &"x".to_string());
    assert!(none.is_empty());
}
