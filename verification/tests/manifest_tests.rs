use frame_classifier::annotation::FrameAnnotation;
use frame_classifier::manifest::{
    encode_manifest, load_project, parse_manifest, save_manifest, ProjectLoadError,
};
use frame_classifier::project::Project;

fn ann(start: u32, end: u32, label: &str) -> FrameAnnotation {
    FrameAnnotation {
        start_frame: start,
        end_frame: end,
        label: label.to_string(),
    }
}

fn sample_project() -> Project {
    let mut p = Project::with_root("/data/proj".to_string());
    let a = "first.mp4".to_string();
    let b = "second.avi".to_string();
    p.add_annotation(&a, ann(2, 4, "dog"));
    p.add_annotation(&a, ann(3, 7, "run"));
    p.add_annotation(&b, ann(0, 1, "dog"));
    p
}

#[test]
fn encode_produces_the_canonical_text() {
    let p = sample_project();
    let text = save_manifest(&p);
    let expected = "{\"video_folder\":\"video\",\"labels_folder\":\"labels\",\"used_labels\":[\"dog\",\"run\"],\"annotations\":{\"first.mp4\":[{\"start_frame\":2,\"end_frame\":4,\"label\":\"dog\"},{\"start_frame\":3,\"end_frame\":7,\"label\":\"run\"}],\"second.avi\":[{\"start_frame\":0,\"end_frame\":1,\"label\":\"dog\"}]}}";
    assert_eq!(text, expected);
}

#[test]
fn save_then_load_restores_the_project() {
    let p = sample_project();
    let text = save_manifest(&p);
    let q = load_project(&text, p.path.clone()).expect("canonical text must parse");
    assert_eq!(q.path, p.path);
    assert_eq!(q.video_folder, p.video_folder);
    assert_eq!(q.labels_folder, p.labels_folder);
    assert_eq!(q.used_labels, p.used_labels);
    assert_eq!(q.annotations.entries.len(), p.annotations.entries.len());
    for (qe, pe) in q.annotations.entries.iter().zip(p.annotations.entries.iter()) {
        assert_eq!(qe.video, pe.video);
        assert_eq!(qe.annotations, pe.annotations);
    }
}

#[test]
fn round_trip_keeps_escaped_characters() {
    let mut p = Project::with_root("/r".to_string());
    let video = "odd \"name\"\\clip.mp4".to_string();
    p.add_annotation(&video, ann(0, 2, "line\nbreak\tand \"quote\""));
    let text = save_manifest(&p);
    let q = load_project(&text, "/r".to_string()).expect("escapes must round-trip");
    assert_eq!(q.annotations.entries[0].video, video);
    assert_eq!(
        q.annotations.entries[0].annotations[0].label,
        "line\nbreak\tand \"quote\""
    );
}

#[test]
fn round_trip_keeps_empty_parts() {
    let p = Project::with_root("".to_string());
    let text = save_manifest(&p);
    let q = load_project(&text, "".to_string()).expect("empty project must round-trip");
    assert!(q.used_labels.is_empty());
    assert!(q.annotations.entries.is_empty());
}

#[test]
fn serde_json_reads_what_the_encoder_writes() {
    let p = sample_project();
    let text = save_manifest(&p);
    let value: serde_json::Value = serde_json::from_str(&text).expect("must be valid JSON");
    assert_eq!(value["video_folder"], serde_json::Value::String("video".to_string()));
    assert_eq!(value["labels_folder"], serde_json::Value::String("labels".to_string()));
    let used = value["used_labels"].as_array().expect("array");
    assert_eq!(used.len(), 2);
    let first = value["annotations"]["first.mp4"].as_array().expect("array");
    assert_eq!(first.len(), 2);
    assert_eq!(first[0]["start_frame"].as_u64(), Some(2));
    assert_eq!(first[0]["end_frame"].as_u64(), Some(4));
    assert_eq!(first[0]["label"].as_str(), Some("dog"));
}

#[test]
fn serde_json_reads_escaped_strings_the_same_way() {
    let mut p = Project::with_root("/r".to_string());
    let label = "a\\b \"c\"\nd\te\r";
    p.add_annotation(&"v.mp4".to_string(), ann(0, 1, label));
    let text = save_manifest(&p);
    let value: serde_json::Value = serde_json::from_str(&text).expect("must be valid JSON");
    assert_eq!(value["annotations"]["v.mp4"][0]["label"].as_str(), Some(label));
}

#[test]
fn parse_rejects_truncated_text() {
    let p = sample_project();
    let text = save_manifest(&p);
    let truncated: String = text.chars().take(text.chars().count() - 1).collect();
    assert_eq!(
        load_project(&truncated, "/r".to_string()).err(),
        Some(ProjectLoadError::Malformed)
    );
}

#[test]
fn parse_rejects_trailing_garbage() {
    let p = sample_project();
    let mut text = save_manifest(&p);
    text.push(' ');
    assert!(parse_manifest(&text).is_err());
}

#[test]
fn parse_rejects_wrong_key() {
    let text = "{\"video_dir\":\"video\",\"labels_folder\":\"labels\",\"used_labels\":[],\"annotations\":{}}".to_string();
    assert!(parse_manifest(&text).is_err());
}

#[test]
fn parse_rejects_number_out_of_range() {
    let text = "{\"video_folder\":\"video\",\"labels_folder\":\"labels\",\"used_labels\":[],\"annotations\":{\"v\":[{\"start_frame\":0,\"end_frame\":4294967296,\"label\":\"x\"}]}}"
    .to_string();
    assert!(parse_manifest(&text).is_err());
}

#[test]
fn parse_accepts_the_largest_frame_number() {
    let text = "{\"video_folder\":\"video\",\"labels_folder\":\"labels\",\"used_labels\":[],\"annotations\":{\"v\":[{\"start_frame\":0,\"end_frame\":4294967295,\"label\":\"x\"}]}}"
    .to_string();
    let c = parse_manifest(&text).expect("u32::MAX fits");
    assert_eq!(c.annotations.entries[0].annotations[0].end_frame, u32::MAX);
}

#[test]
fn parse_rejects_backward_range() {
    let text = "{\"video_folder\":\"video\",\"labels_folder\":\"labels\",\"used_labels\":[],\"annotations\":{\"v\":[{\"start_frame\":5,\"end_frame\":4,\"label\":\"x\"}]}}"
    .to_string();
    assert!(parse_manifest(&text).is_err());
}

#[test]
fn parse_rejects_empty_label() {
    let text = "{\"video_folder\":\"video\",\"labels_folder\":\"labels\",\"used_labels\":[],\"annotations\":{\"v\":[{\"start_frame\":1,\"end_frame\":4,\"label\":\"\"}]}}"
    .to_string();
    assert!(parse_manifest(&text).is_err());
}

#[test]
fn parse_rejects_repeated_video_keys() {
    let text = "{\"video_folder\":\"video\",\"labels_folder\":\"labels\",\"used_labels\":[],\"annotations\":{\"v\":[{\"start_frame\":1,\"end_frame\":4,\"label\":\"x\"}],\"v\":[{\"start_frame\":2,\"end_frame\":3,\"label\":\"y\"}]}}"
    .to_string();
    assert!(parse_manifest(&text).is_err());
}

#[test]
fn parse_rejects_unknown_escape() {
    let text = "{\"video_folder\":\"vi\\zdeo\",\"labels_folder\":\"labels\",\"used_labels\":[],\"annotations\":{}}"
    .to_string();
    assert!(parse_manifest(&text).is_err());
}

#[test]
fn parse_accepts_empty_annotation_array() {
    let text = "{\"video_folder\":\"video\",\"labels_folder\":\"labels\",\"used_labels\":[\"a\"],\"annotations\":{\"v\":[]}}"
    .to_string();
    let c = parse_manifest(&text).expect("an empty entry is tolerated");
    assert_eq!(c.annotations.entries.len(), 1);
    assert!(c.annotations.entries[0].annotations.is_empty());
    assert_eq!(c.used_labels, vec!["a".to_string()]);
}

#[test]
fn load_project_deduplicates_used_labels() {
    let text = "{\"video_folder\":\"video\",\"labels_folder\":\"labels\",\"used_labels\":[\"a\",\"b\",\"a\"],\"annotations\":{}}"
    .to_string();
    let p = load_project(&text, "/r".to_string()).expect("parses");
    assert_eq!(p.used_labels, vec!["a".to_string(), "b".to_string()]);
}

#[test]
fn encode_manifest_matches_save_manifest() {
    let p = sample_project();
    let direct = encode_manifest(&p.config());
    assert_eq!(direct, save_manifest(&p));
}
