use frame_classifier::annotation::FrameAnnotation;
use frame_classifier::export::{build_classes, export_plan, frame_flags, ExportJob};
use frame_classifier::project::Project;

fn ann(start: u32, end: u32, label: &str) -> FrameAnnotation {
    FrameAnnotation {
        start_frame: start,
        end_frame: end,
        label: label.to_string(),
    }
}

#[test]
fn classes_are_first_seen_not_alphabetical() {
    let anns = vec![ann(0, 1, "B"), ann(2, 3, "A"), ann(4, 5, "B")];
    let classes = build_classes(&anns);
    assert_eq!(classes, vec!["B".to_string(), "A".to_string()]);
}

#[test]
fn classes_many_repeats_stay_deterministic() {
    let anns = vec![
        ann(0, 1, "B"),
        ann(0, 1, "A"),
        ann(0, 1, "B"),
        ann(0, 1, "A"),
        ann(0, 1, "C"),
        ann(0, 1, "B"),
    ];
    let classes = build_classes(&anns);
    assert_eq!(
        classes,
        vec!["B".to_string(), "A".to_string(), "C".to_string()]
    );
}

#[test]
fn multi_hot_flags_overlapping_annotations() {
    let anns = vec![ann(1, 5, "dog"), ann(3, 7, "run")];
    let classes = build_classes(&anns);
    assert_eq!(classes, vec!["dog".to_string(), "run".to_string()]);
    assert_eq!(frame_flags(&anns, &classes, 4), vec![true, true]);
    assert_eq!(frame_flags(&anns, &classes, 2), vec![true, false]);
    assert_eq!(frame_flags(&anns, &classes, 6), vec![false, true]);
    assert_eq!(frame_flags(&anns, &classes, 0), vec![false, false]);
}

#[test]
fn export_job_skips_unlabeled_frames() {
    // One annotation 2..=4: frames 0,1 are skipped, 2 and 3 are exported,
    // and frame 4 is never rasterized because the loop bound is exclusive.
    let job_anns = vec![ann(2, 4, "x")];
    let mut job = ExportJob::new("vid".to_string(), job_anns);
    assert_eq!(job.end_frame, 4);

    let t1 = job.next_task().expect("frame 2 is labeled");
    assert_eq!(t1.frame_index, 2);
    assert_eq!(t1.filename, "vid_frame_00002.png");
    let t2 = job.next_task().expect("frame 3 is labeled");
    assert_eq!(t2.frame_index, 3);
    assert_eq!(t2.filename, "vid_frame_00003.png");
    assert!(job.next_task().is_none());

    let expected = "filename,x\nvid_frame_00002.png,1\nvid_frame_00003.png,1\n";
    assert_eq!(job.csv, expected);
}

#[test]
fn export_job_emits_multi_hot_rows() {
    let job_anns = vec![ann(1, 2, "dog"), ann(2, 3, "run")];
    let mut job = ExportJob::new("v".to_string(), job_anns);
    assert_eq!(job.end_frame, 3);
    let mut frames = Vec::new();
    while let Some(task) = job.next_task() {
        frames.push(task.frame_index);
    }
    assert_eq!(frames, vec![1, 2]);
    let expected = "filename,dog,run\nv_frame_00001.png,1,0\nv_frame_00002.png,1,1\n";
    assert_eq!(job.csv, expected);
}

#[test]
fn export_job_progress_is_monotone_and_ends_at_one() {
    let job_anns = vec![ann(2, 4, "x"), ann(7, 9, "y")];
    let mut job = ExportJob::new("v".to_string(), job_anns);
    let den = job.progress_den;
    assert_eq!(den, 9);
    let mut observed = vec![job.progress_num];
    while let Some(_task) = job.next_task() {
        assert_eq!(job.progress_den, den);
        observed.push(job.progress_num);
    }
    observed.push(job.progress_num);
    job.finalize();
    observed.push(job.progress_num);
    for pair in observed.windows(2) {
        assert!(pair[0] <= pair[1]);
    }
    assert_eq!(job.progress_num, job.progress_den);
    assert!(job.finished);
}

#[test]
fn export_job_single_frame_at_zero() {
    // All annotations end at frame 0, so the exclusive loop bound is 0 and
    // nothing is exported, but progress still terminates at one.
    let job_anns = vec![ann(0, 0, "x")];
    let mut job = ExportJob::new("v".to_string(), job_anns);
    assert_eq!(job.end_frame, 0);
    assert!(job.next_task().is_none());
    assert_eq!(job.csv, "filename,x\n");
    job.finalize();
    assert_eq!(job.progress_num, job.progress_den);
}

#[test]
fn export_plan_skips_videos_without_annotations() {
    let mut p = Project::with_root("/root/proj".to_string());
    p.add_annotation(&"a.mp4".to_string(), ann(0, 1, "x"));
    p.annotations.add(&"empty.mp4".to_string(), ann(0, 1, "y"));
    p.annotations.remove(&"empty.mp4".to_string(), 0);
    p.add_annotation(&"b.mp4".to_string(), ann(2, 3, "y"));
    let plan = export_plan(&p);
    assert_eq!(plan.len(), 2);
    assert_eq!(plan[0].video, "a.mp4");
    assert_eq!(plan[0].video_path, "/root/proj/video/a.mp4");
    assert_eq!(plan[0].export_dir, "/root/proj/labels/a.mp4");
    assert_eq!(plan[1].video, "b.mp4");
    assert_eq!(plan[1].annotations, vec![ann(2, 3, "y")]);
}
