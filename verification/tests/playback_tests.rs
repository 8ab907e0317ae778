use frame_classifier::playback::seek_back_target;

#[test]
fn stepping_back_lands_before_the_current_frame() {
    // After reading frame 9 the decoder sits at position 10; stepping back
    // one frame must land on frame 8.
    assert_eq!(seek_back_target(10, 1), 8);
    assert_eq!(seek_back_target(10, 10), 0);
}

#[test]
fn stepping_back_clamps_at_the_first_frame() {
    assert_eq!(seek_back_target(0, 1), 0);
    assert_eq!(seek_back_target(5, 7), 0);
    assert_eq!(seek_back_target(5, 5), 0);
    assert_eq!(seek_back_target(6, 5), 0);
    assert_eq!(seek_back_target(7, 5), 1);
}
