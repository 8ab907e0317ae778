//! The export pipeline: first-seen label classes, per-frame multi-hot rows,
//! the CSV manifest text, and a per-video export job stepped by its driver.
//!
//! A job walks frame indices `0..end_frame` (exclusive, where `end_frame` is
//! the largest `end_frame` of any annotation) in increasing order. Frames no
//! annotation contains are skipped entirely: no CSV row and no image task is
//! produced for them. Each labeled frame yields one image task and one CSV
//! row, in frame order. Progress is a fraction `num / den` that never
//! decreases and is driven to exactly one when the job is finalized, whether
//! or not the frames or the CSV could be written.

use vstd::prelude::*;

use crate::annotation::{AnnotationModel, FrameAnnotation};
use crate::project::{Project, ProjectModel};
use crate::store::{clone_annotations, distinct_seqs, VideoModel};
use crate::text::{frame_filename, join_with, make_frame_filename, join_strings, path_join, spec_path_join};

verus! {

/// The distinct labels of `anns` in order of first occurrence.
pub open spec fn first_seen_classes(anns: Seq<AnnotationModel>) -> Seq<Seq<char>>
    decreases anns.len(),
{
    if anns.len() == 0 {
        Seq::empty()
    } else {
        let rest = first_seen_classes(anns.drop_last());
        if rest.contains(anns.last().label) {
            rest
        } else {
            rest.push(anns.last().label)
        }
    }
}

/// The classes hold each label exactly once, and exactly the labels that
/// occur in `anns`.
pub proof fn lemma_first_seen_classes_membership(anns: Seq<AnnotationModel>)
    ensures
        distinct_seqs(first_seen_classes(anns)),
        forall|l: Seq<char>|
            first_seen_classes(anns).contains(l) <==> exists|j: int|
                0 <= j < anns.len() && anns[j].label == l,
    decreases anns.len(),
{
    if anns.len() > 0 {
        lemma_first_seen_classes_membership(anns.drop_last());
        let rest = first_seen_classes(anns.drop_last());
        assert forall|l: Seq<char>| first_seen_classes(anns).contains(l) implies exists|j: int|
            0 <= j < anns.len() && anns[j].label == l by {
            if rest.contains(l) {
                let j = choose|j: int| 0 <= j < anns.drop_last().len() && anns.drop_last()[j].label == l;
                assert(anns[j].label == l);
            } else {
                assert(anns[anns.len() - 1].label == l);
            }
        }
        assert forall|l: Seq<char>|
            exists|j: int| 0 <= j < anns.len() && anns[j].label == l implies first_seen_classes(
            anns,
        ).contains(l) by {
            let j = choose|j: int| 0 <= j < anns.len() && anns[j].label == l;
            if j < anns.len() - 1 {
                assert(anns.drop_last()[j].label == l);
                assert(rest.contains(l));
                if !rest.contains(anns.last().label) {
                    let k = choose|k: int| 0 <= k < rest.len() && rest[k] == l;
                    assert(rest.push(anns.last().label)[k] == l);
                }
            } else {
                if rest.contains(anns.last().label) {
                } else {
                    assert(rest.push(anns.last().label).last() == l);
                }
            }
        }
        if !rest.contains(anns.last().label) {
            assert(distinct_seqs(rest.push(anns.last().label)));
        }
    }
}

/// Adding an annotation whose label was already seen leaves the classes
/// unchanged; a new label goes to the end. Class indices are therefore
/// determined by first occurrence alone, however often a label repeats.
pub proof fn lemma_first_seen_classes_stable(anns: Seq<AnnotationModel>, a: AnnotationModel)
    ensures
        first_seen_classes(anns).contains(a.label) ==> first_seen_classes(anns.push(a))
            == first_seen_classes(anns),
        !first_seen_classes(anns).contains(a.label) ==> first_seen_classes(anns.push(a))
            == first_seen_classes(anns).push(a.label),
{
    assert(anns.push(a).drop_last() =~= anns);
    assert(anns.push(a).last() == a);
}

/// Builds the CSV class columns: every distinct label of `anns`, in first-seen
/// order.
pub fn build_classes(anns: &Vec<FrameAnnotation>) -> (classes: Vec<String>)
    ensures
        classes.deep_view() == first_seen_classes(anns.deep_view()),
{
    let mut classes: Vec<String> = Vec::new();
    let mut i: usize = 0;
    while i < anns.len()
        invariant
            i <= anns.len(),
            classes.deep_view() =~= first_seen_classes(anns.deep_view().take(i as int)),
        decreases anns.len() - i,
    {
        let ghost pre = classes.deep_view();
        let label = &anns[i].label;
        if !crate::store::contains_string(&classes, label) {
            classes.push(label.clone());
            proof {
                assert(classes.deep_view() =~= pre.push(label@));
            }
        }
        proof {
            let cur = anns.deep_view().take(i as int + 1);
            assert(cur.drop_last() =~= anns.deep_view().take(i as int));
            assert(cur.last() == anns.deep_view()[i as int]);
            assert(classes.deep_view() =~= first_seen_classes(cur));
        }
        i = i + 1;
    }
    proof {
        assert(anns.deep_view().take(anns.len() as int) =~= anns.deep_view());
    }
    classes
}

/// Some annotation with label `l` contains `frame`.
pub open spec fn frame_has_label(anns: Seq<AnnotationModel>, frame: u32, l: Seq<char>) -> bool {
    exists|j: int| 0 <= j < anns.len() && anns[j].label == l && anns[j].spec_contains(frame)
}

/// Some annotation contains `frame`.
pub open spec fn frame_is_labeled(anns: Seq<AnnotationModel>, frame: u32) -> bool {
    exists|j: int| 0 <= j < anns.len() && (#[trigger] anns[j]).spec_contains(frame)
}

/// The multi-hot flags of `frame`: one flag per class, set exactly when some
/// annotation with that label contains the frame.
pub open spec fn row_flags(anns: Seq<AnnotationModel>, classes: Seq<Seq<char>>, frame: u32) -> Seq<
    bool,
> {
    classes.map_values(|c: Seq<char>| frame_has_label(anns, frame, c))
}

/// Whether some annotation with label `l` contains `frame`.
pub fn has_label_at(anns: &Vec<FrameAnnotation>, frame: u32, l: &String) -> (r: bool)
    ensures
        r == frame_has_label(anns.deep_view(), frame, l@),
{
    let mut j: usize = 0;
    while j < anns.len()
        invariant
            j <= anns.len(),
            forall|k: int|
                0 <= k < j ==> !((#[trigger] anns.deep_view()[k]).label == l@
                    && anns.deep_view()[k].spec_contains(frame)),
        decreases anns.len() - j,
    {
        if anns[j].contains(frame) && anns[j].label == *l {
            assert(anns.deep_view()[j as int].label == l@);
            return true;
        }
        j = j + 1;
    }
    false
}

/// Whether any annotation contains `frame`.
pub fn is_labeled_frame(anns: &Vec<FrameAnnotation>, frame: u32) -> (r: bool)
    ensures
        r == frame_is_labeled(anns.deep_view(), frame),
{
    let mut j: usize = 0;
    while j < anns.len()
        invariant
            j <= anns.len(),
            forall|k: int| 0 <= k < j ==> !(#[trigger] anns.deep_view()[k]).spec_contains(frame),
        decreases anns.len() - j,
    {
        if anns[j].contains(frame) {
            assert(anns.deep_view()[j as int].spec_contains(frame));
            return true;
        }
        j = j + 1;
    }
    false
}

/// Computes the multi-hot flags of `frame` over `classes`.
pub fn frame_flags(anns: &Vec<FrameAnnotation>, classes: &Vec<String>, frame: u32) -> (flags: Vec<
    bool,
>)
    ensures
        flags@ == row_flags(anns.deep_view(), classes.deep_view(), frame),
{
    let mut flags: Vec<bool> = Vec::new();
    let mut k: usize = 0;
    while k < classes.len()
        invariant
            k <= classes.len(),
            flags@.len() == k,
            forall|t: int|
                0 <= t < k ==> flags@[t] == frame_has_label(
                    anns.deep_view(),
                    frame,
                    classes.deep_view()[t],
                ),
        decreases classes.len() - k,
    {
        flags.push(has_label_at(anns, frame, &classes[k]));
        k = k + 1;
    }
    proof {
        assert(flags@ =~= row_flags(anns.deep_view(), classes.deep_view(), frame));
    }
    flags
}

/// The CSV text of one row's flags: `,1` or `,0` per class.
pub open spec fn flags_text(flags: Seq<bool>) -> Seq<char>
    decreases flags.len(),
{
    if flags.len() == 0 {
        Seq::empty()
    } else {
        flags_text(flags.drop_last()) + if flags.last() {
            ",1"@
        } else {
            ",0"@
        }
    }
}

/// One CSV data row: the image file name, the flags, a newline.
pub open spec fn row_text(filename: Seq<char>, flags: Seq<bool>) -> Seq<char> {
    filename + flags_text(flags) + "\n"@
}

/// The CSV header: `filename,<class_1>,...,<class_k>` and a newline.
pub open spec fn csv_header(classes: Seq<Seq<char>>) -> Seq<char> {
    "filename,"@ + join_with(classes, ","@) + "\n"@
}

/// The CSV rows of all labeled frames below `upto`, in frame order; unlabeled
/// frames contribute nothing.
pub open spec fn csv_rows_upto(
    stem: Seq<char>,
    anns: Seq<AnnotationModel>,
    classes: Seq<Seq<char>>,
    upto: int,
) -> Seq<char>
    decreases upto,
{
    if upto <= 0 {
        Seq::empty()
    } else {
        csv_rows_upto(stem, anns, classes, upto - 1) + if frame_is_labeled(
            anns,
            (upto - 1) as u32,
        ) {
            row_text(frame_filename(stem, (upto - 1) as u32), row_flags(anns, classes, (upto - 1) as u32))
        } else {
            Seq::empty()
        }
    }
}

/// Frames that no annotation contains add no CSV row.
pub proof fn lemma_csv_rows_skip(
    stem: Seq<char>,
    anns: Seq<AnnotationModel>,
    classes: Seq<Seq<char>>,
    a: u32,
    b: u32,
)
    requires
        a <= b,
        forall|f: u32| a <= f < b ==> !frame_is_labeled(anns, f),
    ensures
        csv_rows_upto(stem, anns, classes, b as int) == csv_rows_upto(stem, anns, classes, a as int),
    decreases b - a,
{
    if a < b {
        lemma_csv_rows_skip(stem, anns, classes, a, (b - 1) as u32);
        assert(!frame_is_labeled(anns, (b - 1) as u32));
        assert(csv_rows_upto(stem, anns, classes, b as int) =~= csv_rows_upto(
            stem,
            anns,
            classes,
            b as int - 1,
        ));
    }
}

/// Appends one CSV data row to `csv`.
fn append_row(csv: &mut String, filename: &String, flags: &Vec<bool>)
    ensures
        final(csv)@ == old(csv)@ + row_text(filename@, flags@),
{
    csv.append(filename.as_str());
    let mut k: usize = 0;
    while k < flags.len()
        invariant
            k <= flags.len(),
            csv@ =~= old(csv)@ + filename@ + flags_text(flags@.take(k as int)),
        decreases flags.len() - k,
    {
        if flags[k] {
            csv.append(",1");
        } else {
            csv.append(",0");
        }
        proof {
            let cur = flags@.take(k as int + 1);
            assert(cur.drop_last() =~= flags@.take(k as int));
            assert(cur.last() == flags@[k as int]);
            assert(csv@ =~= old(csv)@ + filename@ + flags_text(cur));
        }
        k = k + 1;
    }
    csv.append("\n");
    proof {
        assert(flags@.take(flags.len() as int) =~= flags@);
        assert(csv@ =~= old(csv)@ + row_text(filename@, flags@));
    }
}

/// The largest `end_frame` of any annotation (zero when there are none).
pub open spec fn max_end(anns: Seq<AnnotationModel>) -> u32
    decreases anns.len(),
{
    if anns.len() == 0 {
        0u32
    } else {
        let m = max_end(anns.drop_last());
        if anns.last().end_frame > m {
            anns.last().end_frame
        } else {
            m
        }
    }
}

/// Computes the largest `end_frame` of the annotations.
pub fn compute_max_end(anns: &Vec<FrameAnnotation>) -> (m: u32)
    ensures
        m == max_end(anns.deep_view()),
{
    let mut m: u32 = 0;
    let mut i: usize = 0;
    while i < anns.len()
        invariant
            i <= anns.len(),
            m == max_end(anns.deep_view().take(i as int)),
        decreases anns.len() - i,
    {
        proof {
            let cur = anns.deep_view().take(i as int + 1);
            assert(cur.drop_last() =~= anns.deep_view().take(i as int));
            assert(cur.last() == anns.deep_view()[i as int]);
        }
        if anns[i].end_frame > m {
            m = anns[i].end_frame;
        }
        i = i + 1;
    }
    proof {
        assert(anns.deep_view().take(anns.len() as int) =~= anns.deep_view());
    }
    m
}

/// One image to rasterize: the frame to seek and read, and the file name to
/// write it under.
pub struct FrameTask {
    pub frame_index: u32,
    pub filename: String,
}

/// One per-video export job, stepped by a driver.
///
/// The driver repeatedly calls [`ExportJob::next_task`] and writes the image
/// each returned task names; when the tasks are exhausted it writes
/// [`ExportJob::csv`] to `labels.csv`; and in every outcome — success, a
/// failed frame read, or a failed CSV write — it must call
/// [`ExportJob::finalize`] so the reported progress reaches exactly one.
pub struct ExportJob {
    pub video_stem: String,
    pub annotations: Vec<FrameAnnotation>,
    pub classes: Vec<String>,
    pub end_frame: u32,
    pub next_frame: u32,
    pub csv: String,
    pub progress_num: u32,
    pub progress_den: u32,
    pub finished: bool,
}

impl ExportJob {
    /// Internal consistency of a job.
    pub open spec fn wf(self) -> bool {
        &&& self.annotations.deep_view().len() > 0
        &&& (forall|j: int|
            0 <= j < self.annotations.deep_view().len() ==> (#[trigger] self.annotations.deep_view()[j]).wf())
        &&& self.classes.deep_view() == first_seen_classes(self.annotations.deep_view())
        &&& self.end_frame == max_end(self.annotations.deep_view())
        &&& self.next_frame <= self.end_frame
        &&& self.progress_den == (if self.end_frame == 0 {
            1u32
        } else {
            self.end_frame
        })
        &&& self.progress_num <= self.progress_den
        &&& (!self.finished ==> self.progress_num < self.progress_den)
        &&& (!self.finished ==> self.progress_num <= self.next_frame)
        &&& (self.finished ==> self.progress_num == self.progress_den)
        &&& self.csv@ == csv_header(self.classes.deep_view()) + csv_rows_upto(
            self.video_stem@,
            self.annotations.deep_view(),
            self.classes.deep_view(),
            self.next_frame as int,
        )
    }

    /// The reported progress fraction lies in `[0, 1]`, and a finished job
    /// reports exactly one.
    pub proof fn lemma_progress_bounds(self)
        requires
            self.wf(),
        ensures
            0 < self.progress_den,
            self.progress_num <= self.progress_den,
            self.finished ==> self.progress_num == self.progress_den,
    {
    }

    /// Starts the export job for one video: fixes the snapshot of
    /// annotations, the class columns in first-seen order, the frame bound,
    /// the CSV header, and zero progress.
    pub fn new(video_stem: String, annotations: Vec<FrameAnnotation>) -> (job: ExportJob)
        requires
            annotations.deep_view().len() > 0,
            forall|j: int|
                0 <= j < annotations.deep_view().len() ==> (#[trigger] annotations.deep_view()[j]).wf(),
        ensures
            job.wf(),
            job.video_stem == video_stem,
            job.annotations.deep_view() == annotations.deep_view(),
            job.classes.deep_view() == first_seen_classes(annotations.deep_view()),
            job.end_frame == max_end(annotations.deep_view()),
            job.next_frame == 0,
            job.progress_num == 0,
            !job.finished,
            job.csv@ == csv_header(first_seen_classes(annotations.deep_view())),
    {
        let classes = build_classes(&annotations);
        let end_frame = compute_max_end(&annotations);
        let mut csv = String::new();
        csv.append("filename,");
        let joined = join_strings(&classes, ",");
        csv.append(joined.as_str());
        csv.append("\n");
        let progress_den = if end_frame == 0 {
            1
        } else {
            end_frame
        };
        proof {
            assert(csv@ =~= csv_header(classes.deep_view()) + csv_rows_upto(
                video_stem@,
                annotations.deep_view(),
                classes.deep_view(),
                0,
            ));
        }
        ExportJob {
            video_stem,
            annotations,
            classes,
            end_frame,
            next_frame: 0,
            csv,
            progress_num: 0,
            progress_den,
            finished: false,
        }
    }

    /// Advances to the next labeled frame, if one remains below `end_frame`.
    ///
    /// On `Some(task)`, the task names the first labeled frame at or past the
    /// old position, its CSV row has been appended, and progress moved to
    /// `frame / end_frame`. On `None`, no labeled frame remains and the CSV
    /// text is complete. Progress never decreases.
    pub fn next_task(&mut self) -> (r: Option<FrameTask>)
        requires
            old(self).wf(),
            !old(self).finished,
        ensures
            final(self).wf(),
            final(self).video_stem == old(self).video_stem,
            final(self).annotations == old(self).annotations,
            final(self).classes == old(self).classes,
            final(self).end_frame == old(self).end_frame,
            final(self).progress_den == old(self).progress_den,
            !final(self).finished,
            final(self).progress_num >= old(self).progress_num,
            match r {
                Some(task) => {
                    &&& old(self).next_frame <= task.frame_index < old(self).end_frame
                    &&& frame_is_labeled(old(self).annotations.deep_view(), task.frame_index)
                    &&& (forall|f: u32|
                        old(self).next_frame <= f < task.frame_index ==> !frame_is_labeled(
                            old(self).annotations.deep_view(),
                            f,
                        ))
                    &&& task.filename@ == frame_filename(
                        old(self).video_stem@,
                        task.frame_index,
                    )
                    &&& final(self).next_frame == task.frame_index + 1
                    &&& final(self).progress_num == task.frame_index
                },
                None => {
                    &&& (forall|f: u32|
                        old(self).next_frame <= f < old(self).end_frame ==> !frame_is_labeled(
                            old(self).annotations.deep_view(),
                            f,
                        ))
                    &&& final(self).next_frame == old(self).end_frame
                    &&& final(self).csv@ == csv_header(old(self).classes.deep_view())
                        + csv_rows_upto(
                        old(self).video_stem@,
                        old(self).annotations.deep_view(),
                        old(self).classes.deep_view(),
                        old(self).end_frame as int,
                    )
                },
            },
    {
        let mut i: u32 = self.next_frame;
        while i < self.end_frame
            invariant
                old(self).wf(),
                !old(self).finished,
                old(self).next_frame <= i <= self.end_frame,
                *self == *old(self),
                forall|f: u32|
                    old(self).next_frame <= f < i ==> !frame_is_labeled(
                        self.annotations.deep_view(),
                        f,
                    ),
            decreases self.end_frame - i,
        {
            if is_labeled_frame(&self.annotations, i) {
                let filename = make_frame_filename(&self.video_stem, i);
                let flags = frame_flags(&self.annotations, &self.classes, i);
                append_row(&mut self.csv, &filename, &flags);
                proof {
                    lemma_csv_rows_skip(
                        self.video_stem@,
                        self.annotations.deep_view(),
                        self.classes.deep_view(),
                        old(self).next_frame,
                        i,
                    );
                    assert(csv_rows_upto(
                        self.video_stem@,
                        self.annotations.deep_view(),
                        self.classes.deep_view(),
                        i as int + 1,
                    ) == csv_rows_upto(
                        self.video_stem@,
                        self.annotations.deep_view(),
                        self.classes.deep_view(),
                        i as int,
                    ) + row_text(
                        frame_filename(self.video_stem@, i),
                        row_flags(self.annotations.deep_view(), self.classes.deep_view(), i),
                    ));
                }
                self.next_frame = i + 1;
                self.progress_num = i;
                proof {
                    assert(self.csv@ =~= csv_header(self.classes.deep_view()) + csv_rows_upto(
                        self.video_stem@,
                        self.annotations.deep_view(),
                        self.classes.deep_view(),
                        self.next_frame as int,
                    ));
                }
                return Some(FrameTask { frame_index: i, filename });
            }
            i = i + 1;
        }
        proof {
            lemma_csv_rows_skip(
                self.video_stem@,
                self.annotations.deep_view(),
                self.classes.deep_view(),
                old(self).next_frame,
                self.end_frame,
            );
        }
        self.next_frame = self.end_frame;
        self.progress_num = self.progress_den - 1;
        None
    }

    /// Marks the job done, driving progress to exactly one.
    ///
    /// Called in every outcome — after the last task and the CSV write, after
    /// a failed frame read that aborts the job, or after a failed CSV write —
    /// so an observer polling the fraction always sees it end at one.
    pub fn finalize(&mut self)
        requires
            old(self).wf(),
        ensures
            final(self).wf(),
            final(self).finished,
            final(self).progress_num == final(self).progress_den,
            final(self).progress_den == old(self).progress_den,
            final(self).progress_num >= old(self).progress_num,
            final(self).csv == old(self).csv,
            final(self).next_frame == old(self).next_frame,
            final(self).video_stem == old(self).video_stem,
            final(self).annotations == old(self).annotations,
            final(self).classes == old(self).classes,
            final(self).end_frame == old(self).end_frame,
    {
        self.progress_num = self.progress_den;
        self.finished = true;
    }
}

/// Spec-level value of an [`ExportTarget`].
#[verifier::ext_equal]
pub ghost struct TargetModel {
    pub video: Seq<char>,
    pub video_path: Seq<char>,
    pub export_dir: Seq<char>,
    pub annotations: Seq<AnnotationModel>,
}

/// One video to export: where to read it, where its images and CSV go, and
/// the snapshot of its annotations the job works from.
pub struct ExportTarget {
    pub video: String,
    pub video_path: String,
    pub export_dir: String,
    pub annotations: Vec<FrameAnnotation>,
}

impl View for ExportTarget {
    type V = TargetModel;

    open spec fn view(&self) -> TargetModel {
        TargetModel {
            video: self.video@,
            video_path: self.video_path@,
            export_dir: self.export_dir@,
            annotations: self.annotations.deep_view(),
        }
    }
}

impl DeepView for ExportTarget {
    type V = TargetModel;

    open spec fn deep_view(&self) -> TargetModel {
        self.view()
    }
}

/// The target of one store entry: the video below the project's video
/// folder, the export directory below its labels folder.
pub open spec fn spec_target(p: ProjectModel, e: VideoModel) -> TargetModel {
    TargetModel {
        video: e.video,
        video_path: spec_path_join(p.path, spec_path_join(p.video_folder, e.video)),
        export_dir: spec_path_join(p.path, spec_path_join(p.labels_folder, e.video)),
        annotations: e.annotations,
    }
}

/// One target per entry of `s` with at least one annotation, in store order.
pub open spec fn spec_plan_entries(p: ProjectModel, s: Seq<VideoModel>) -> Seq<TargetModel>
    decreases s.len(),
{
    if s.len() == 0 {
        Seq::empty()
    } else {
        spec_plan_entries(p, s.drop_last()) + if s.last().annotations.len() > 0 {
            seq![spec_target(p, s.last())]
        } else {
            Seq::empty()
        }
    }
}

/// The full export plan of a project.
pub open spec fn spec_export_plan(p: ProjectModel) -> Seq<TargetModel> {
    spec_plan_entries(p, p.annotations)
}

/// Builds the export plan: one target for each video that has at least one
/// annotation, in store order; videos without annotations get no job.
pub fn export_plan(p: &Project) -> (r: Vec<ExportTarget>)
    requires
        p.wf(),
    ensures
        r.deep_view() == spec_export_plan(p@),
        forall|t: int|
            0 <= t < r.deep_view().len() ==> (#[trigger] r.deep_view()[t]).annotations.len() > 0,
        forall|t: int, j: int|
            0 <= t < r.deep_view().len() && 0 <= j < r.deep_view()[t].annotations.len() ==> (
            #[trigger] r.deep_view()[t].annotations[j]).wf(),
{
    let mut r: Vec<ExportTarget> = Vec::new();
    let mut i: usize = 0;
    while i < p.annotations.entries.len()
        invariant
            p.wf(),
            i <= p.annotations.entries.len(),
            r.deep_view() =~= spec_plan_entries(p@, p@.annotations.take(i as int)),
            forall|t: int|
                0 <= t < r.deep_view().len() ==> (#[trigger] r.deep_view()[t]).annotations.len()
                    > 0,
            forall|t: int, j: int|
                0 <= t < r.deep_view().len() && 0 <= j < r.deep_view()[t].annotations.len() ==> (
                #[trigger] r.deep_view()[t].annotations[j]).wf(),
        decreases p.annotations.entries.len() - i,
    {
        let ghost pre = r.deep_view();
        let entry = &p.annotations.entries[i];
        if entry.annotations.len() > 0 {
            let below_video = path_join(&p.video_folder, entry.video.as_str());
            let below_labels = path_join(&p.labels_folder, entry.video.as_str());
            let target = ExportTarget {
                video: entry.video.clone(),
                video_path: path_join(&p.path, below_video.as_str()),
                export_dir: path_join(&p.path, below_labels.as_str()),
                annotations: clone_annotations(&entry.annotations),
            };
            proof {
                assert(target@ =~~= spec_target(p@, p@.annotations[i as int]));
            }
            r.push(target);
            proof {
                assert(r.deep_view() =~= pre.push(spec_target(p@, p@.annotations[i as int])));
            }
        }
        proof {
            let cur = p@.annotations.take(i as int + 1);
            assert(cur.drop_last() =~= p@.annotations.take(i as int));
            assert(cur.last() == p@.annotations[i as int]);
            assert(r.deep_view() =~= spec_plan_entries(p@, cur));
        }
        i = i + 1;
    }
    proof {
        assert(p@.annotations.take(p.annotations.entries.len() as int) =~= p@.annotations);
    }
    r
}

} // verus!
