use frame_classifier::text::{
    file_stem_of, is_video_file, join_strings, make_frame_filename, path_join, sort_strings,
    starts_with, str_le, u32_to_dec, u32_to_dec_padded,
};

#[test]
fn decimal_formatting() {
    assert_eq!(u32_to_dec(0), "0");
    assert_eq!(u32_to_dec(7), "7");
    assert_eq!(u32_to_dec(10), "10");
    assert_eq!(u32_to_dec(90210), "90210");
    assert_eq!(u32_to_dec(u32::MAX), "4294967295");
}

#[test]
fn zero_padding() {
    assert_eq!(u32_to_dec_padded(7, 5), "00007");
    assert_eq!(u32_to_dec_padded(12345, 5), "12345");
    assert_eq!(u32_to_dec_padded(123456, 5), "123456");
    assert_eq!(u32_to_dec_padded(0, 5), "00000");
}

#[test]
fn frame_filenames_use_five_digits() {
    assert_eq!(
        make_frame_filename(&"clip".to_string(), 3),
        "clip_frame_00003.png"
    );
    assert_eq!(
        make_frame_filename(&"clip".to_string(), 123456),
        "clip_frame_123456.png"
    );
}

#[test]
fn file_stems() {
    assert_eq!(file_stem_of(&"video.mp4".to_string()), "video");
    assert_eq!(file_stem_of(&"/a/b/video.mp4".to_string()), "video");
    assert_eq!(file_stem_of(&"archive.tar.gz".to_string()), "archive.tar");
    assert_eq!(file_stem_of(&"noext".to_string()), "noext");
    assert_eq!(file_stem_of(&".hidden".to_string()), ".hidden");
}

#[test]
fn video_file_detection() {
    assert!(is_video_file(&"a.mp4".to_string()));
    assert!(is_video_file(&"b.AVI".to_string()));
    assert!(is_video_file(&"/path/to/c.MoV".to_string()));
    assert!(!is_video_file(&"d.png".to_string()));
    assert!(!is_video_file(&"mp4".to_string()));
    assert!(!is_video_file(&".mp4".to_string()));
    assert!(!is_video_file(&"clip.mp41".to_string()));
}

#[test]
fn path_joining() {
    assert_eq!(path_join(&"/r".to_string(), "video"), "/r/video");
    assert_eq!(path_join(&"".to_string(), "video"), "video");
}

#[test]
fn joining_strings() {
    let parts = vec!["a".to_string(), "b".to_string(), "c".to_string()];
    assert_eq!(join_strings(&parts, ","), "a,b,c");
    assert_eq!(join_strings(&parts, ", "), "a, b, c");
    let one = vec!["only".to_string()];
    assert_eq!(join_strings(&one, ","), "only");
    let none: Vec<String> = Vec::new();
    assert_eq!(join_strings(&none, ","), "");
}

#[test]
fn string_ordering() {
    assert!(str_le(&"abc".to_string(), &"abd".to_string()));
    assert!(str_le(&"ab".to_string(), &"abc".to_string()));
    assert!(str_le(&"abc".to_string(), &"abc".to_string()));
    assert!(!str_le(&"b".to_string(), &"ab".to_string()));
    assert!(!str_le(&"abc".to_string(), &"ab".to_string()));
}

#[test]
fn sorting_strings() {
    let labels = vec![
        "walk".to_string(),
        "Run".to_string(),
        "run".to_string(),
        "jump".to_string(),
        "run".to_string(),
    ];
    let sorted = sort_strings(labels);
    assert_eq!(
        sorted,
        vec![
            "Run".to_string(),
            "jump".to_string(),
            "run".to_string(),
            "run".to_string(),
            "walk".to_string(),
        ]
    );
    let empty: Vec<String> = Vec::new();
    assert!(sort_strings(empty).is_empty());
}

#[test]
fn prefix_matching() {
    assert!(starts_with(&"walk".to_string(), &"wa".to_string()));
    assert!(starts_with(&"walk".to_string(), &"".to_string()));
    assert!(starts_with(&"walk".to_string(), &"walk".to_string()));
    assert!(!starts_with(&"walk".to_string(), &"walks".to_string()));
    assert!(!starts_with(&"walk".to_string(), &"wo".to_string()));
}
