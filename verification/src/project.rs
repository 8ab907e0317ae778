//! The persisted project root: folder layout, the annotation store, and the
//! cumulative set of labels ever used.
//!
//! The cumulative `used_labels` list grows when annotations are added but is
//! not shrunk by deletions; it may drift stale until
//! [`Project::reload_used_labels`] recomputes it, which is authoritative.

use vstd::prelude::*;

use crate::annotation::{AnnotationModel, FrameAnnotation};
use crate::marking::MarkState;
use crate::store::{
    distinct_seqs, label_seq_set, label_set, lemma_label_seq_set_push, AnnotationStore,
    contains_string, VideoModel,
};

verus! {

/// Spec-level value of a [`Project`].
#[verifier::ext_equal]
pub ghost struct ProjectModel {
    pub path: Seq<char>,
    pub video_folder: Seq<char>,
    pub labels_folder: Seq<char>,
    pub annotations: Seq<VideoModel>,
    pub used_labels: Seq<Seq<char>>,
}

/// Spec-level value of a [`ProjectConfig`].
#[verifier::ext_equal]
pub ghost struct ConfigModel {
    pub video_folder: Seq<char>,
    pub labels_folder: Seq<char>,
    pub used_labels: Seq<Seq<char>>,
    pub annotations: Seq<VideoModel>,
}

/// A project root: where it lives, its two standard subfolders, its
/// annotations, and the labels used so far.
#[derive(Debug)]
pub struct Project {
    pub path: String,
    pub video_folder: String,
    pub labels_folder: String,
    pub annotations: AnnotationStore,
    pub used_labels: Vec<String>,
}

impl View for Project {
    type V = ProjectModel;

    open spec fn view(&self) -> ProjectModel {
        ProjectModel {
            path: self.path@,
            video_folder: self.video_folder@,
            labels_folder: self.labels_folder@,
            annotations: self.annotations@,
            used_labels: self.used_labels.deep_view(),
        }
    }
}

/// What is persisted in the project manifest: everything but the root path.
#[derive(Debug)]
pub struct ProjectConfig {
    pub video_folder: String,
    pub labels_folder: String,
    pub used_labels: Vec<String>,
    pub annotations: AnnotationStore,
}

impl View for ProjectConfig {
    type V = ConfigModel;

    open spec fn view(&self) -> ConfigModel {
        ConfigModel {
            video_folder: self.video_folder@,
            labels_folder: self.labels_folder@,
            used_labels: self.used_labels.deep_view(),
            annotations: self.annotations@,
        }
    }
}

impl ProjectModel {
    /// Distinct video keys, well-formed annotations, distinct labels.
    pub open spec fn wf(self) -> bool {
        &&& crate::store::distinct_videos(self.annotations)
        &&& crate::store::all_annotations_wf(self.annotations)
        &&& distinct_seqs(self.used_labels)
    }

    /// The manifest content of this project.
    pub open spec fn config_model(self) -> ConfigModel {
        ConfigModel {
            video_folder: self.video_folder,
            labels_folder: self.labels_folder,
            used_labels: self.used_labels,
            annotations: self.annotations,
        }
    }
}

impl ConfigModel {
    /// Distinct video keys and well-formed annotations throughout.
    pub open spec fn wf(self) -> bool {
        &&& crate::store::distinct_videos(self.annotations)
        &&& crate::store::all_annotations_wf(self.annotations)
    }
}

/// The distinct labels of `s` in order of first occurrence.
pub open spec fn dedup_labels_spec(s: Seq<Seq<char>>) -> Seq<Seq<char>>
    decreases s.len(),
{
    if s.len() == 0 {
        Seq::empty()
    } else {
        let rest = dedup_labels_spec(s.drop_last());
        if rest.contains(s.last()) {
            rest
        } else {
            rest.push(s.last())
        }
    }
}

/// Deduplication keeps the value set, yields distinct entries, and leaves an
/// already-distinct sequence untouched.
pub proof fn lemma_dedup_labels(s: Seq<Seq<char>>)
    ensures
        label_seq_set(dedup_labels_spec(s)) == label_seq_set(s),
        distinct_seqs(dedup_labels_spec(s)),
        distinct_seqs(s) ==> dedup_labels_spec(s) == s,
    decreases s.len(),
{
    if s.len() == 0 {
        assert(label_seq_set(dedup_labels_spec(s)) =~= label_seq_set(s));
    } else {
        lemma_dedup_labels(s.drop_last());
        let rest = dedup_labels_spec(s.drop_last());
        lemma_label_seq_set_push(s.drop_last(), s.last());
        assert(s.drop_last().push(s.last()) =~= s);
        if rest.contains(s.last()) {
            assert(label_seq_set(rest).contains(s.last()));
            assert(label_seq_set(dedup_labels_spec(s)) =~= label_seq_set(s));
        } else {
            lemma_label_seq_set_push(rest, s.last());
            assert(label_seq_set(dedup_labels_spec(s)) =~= label_seq_set(s));
            assert(distinct_seqs(rest.push(s.last())));
        }
        if distinct_seqs(s) {
            assert(distinct_seqs(s.drop_last()));
            assert(rest == s.drop_last());
            if rest.contains(s.last()) {
                let k = choose|k: int| 0 <= k < rest.len() && rest[k] == s.last();
                assert(s[k] == s[s.len() - 1]);
                assert(false);
            }
            assert(dedup_labels_spec(s) =~= s);
        }
    }
}

/// Copies a label list, dropping repeated values and keeping first-seen order.
fn dedup_labels(v: &Vec<String>) -> (r: Vec<String>)
    ensures
        r.deep_view() == dedup_labels_spec(v.deep_view()),
{
    let mut r: Vec<String> = Vec::new();
    let mut i: usize = 0;
    while i < v.len()
        invariant
            i <= v.len(),
            r.deep_view() =~= dedup_labels_spec(v.deep_view().take(i as int)),
        decreases v.len() - i,
    {
        let ghost pre = r.deep_view();
        if !contains_string(&r, &v[i]) {
            r.push(v[i].clone());
            proof {
                assert(r.deep_view() =~= pre.push(v.deep_view()[i as int]));
            }
        }
        proof {
            let cur = v.deep_view().take(i as int + 1);
            assert(cur.drop_last() =~= v.deep_view().take(i as int));
            assert(cur.last() == v.deep_view()[i as int]);
            assert(r.deep_view() =~= dedup_labels_spec(cur));
        }
        i = i + 1;
    }
    proof {
        assert(v.deep_view().take(v.len() as int) =~= v.deep_view());
    }
    r
}

/// The project a config describes when placed at `root`: the folders and
/// annotations as stored, the used labels deduplicated.
pub open spec fn spec_project_from(c: ConfigModel, root: Seq<char>) -> ProjectModel {
    ProjectModel {
        path: root,
        video_folder: c.video_folder,
        labels_folder: c.labels_folder,
        annotations: c.annotations,
        used_labels: dedup_labels_spec(c.used_labels),
    }
}

impl Project {
    pub open spec fn wf(self) -> bool {
        self@.wf()
    }

    /// A fresh project at `root`: the standard `video` and `labels`
    /// subfolders, no annotations, no used labels.
    pub fn with_root(root: String) -> (p: Project)
        ensures
            p.wf(),
            p@.path == root@,
            p@.video_folder == "video"@,
            p@.labels_folder == "labels"@,
            p@.annotations == Seq::<VideoModel>::empty(),
            p@.used_labels == Seq::<Seq<char>>::empty(),
    {
        let mut video_folder = String::new();
        video_folder.append("video");
        let mut labels_folder = String::new();
        labels_folder.append("labels");
        let p = Project {
            path: root,
            video_folder,
            labels_folder,
            annotations: AnnotationStore::new(),
            used_labels: Vec::new(),
        };
        proof {
            assert(p@.annotations =~= Seq::<VideoModel>::empty());
            assert(p@.used_labels =~= Seq::<Seq<char>>::empty());
        }
        p
    }

    /// The manifest content of this project: its folders, used labels and
    /// annotations, without the root path.
    pub fn config(&self) -> (c: ProjectConfig)
        ensures
            c@ == self@.config_model(),
    {
        let c = ProjectConfig {
            video_folder: self.video_folder.clone(),
            labels_folder: self.labels_folder.clone(),
            used_labels: clone_labels(&self.used_labels),
            annotations: self.annotations.clone(),
        };
        proof {
            assert(c@ =~~= self@.config_model());
        }
        c
    }

    /// Rebuilds a project from its manifest content and its root path.
    pub fn from(config: ProjectConfig, root: String) -> (p: Project)
        ensures
            p@ == spec_project_from(config@, root@),
            config@.wf() ==> p.wf(),
    {
        let used_labels = dedup_labels(&config.used_labels);
        let p = Project {
            path: root,
            video_folder: config.video_folder,
            labels_folder: config.labels_folder,
            annotations: config.annotations,
            used_labels,
        };
        proof {
            assert(p@ =~~= spec_project_from(config@, root@));
            lemma_dedup_labels(config@.used_labels);
        }
        p
    }

    /// Appends `ann` to `video`'s annotations and records its label among the
    /// used labels if it is new.
    pub fn add_annotation(&mut self, video: &String, ann: FrameAnnotation)
        requires
            old(self).wf(),
            ann.wf(),
        ensures
            final(self).wf(),
            final(self).annotations.spec_annotations_of(video@) =~= old(
                self,
            ).annotations.spec_annotations_of(video@).push(ann@),
            forall|v: Seq<char>|
                v != video@ ==> final(self).annotations.spec_annotations_of(v) == old(
                    self,
                ).annotations.spec_annotations_of(v),
            label_seq_set(final(self)@.used_labels) =~= label_seq_set(old(self)@.used_labels).insert(
                ann@.label,
            ),
            final(self)@.path == old(self)@.path,
            final(self)@.video_folder == old(self)@.video_folder,
            final(self)@.labels_folder == old(self)@.labels_folder,
    {
        let label = ann.label.clone();
        self.annotations.add(video, ann);
        let ghost pre = self.used_labels.deep_view();
        if !contains_string(&self.used_labels, &label) {
            self.used_labels.push(label);
            proof {
                assert(self.used_labels.deep_view() =~= pre.push(ann@.label));
                lemma_label_seq_set_push(pre, ann@.label);
            }
        } else {
            proof {
                assert(label_seq_set(pre).contains(ann@.label));
                assert(label_seq_set(self.used_labels.deep_view()) =~= label_seq_set(pre).insert(
                    ann@.label,
                ));
            }
        }
    }

    /// Closes the label entry: when both endpoints are marked and the label
    /// text is non-empty, turns them into an annotation of `video`, records
    /// the label, clears the marks and returns true; otherwise changes
    /// nothing and returns false.
    pub fn try_add_annotation(&mut self, video: &String, marks: &mut MarkState, label: &String) -> (r:
        bool)
        requires
            old(self).wf(),
            old(marks).wf(),
        ensures
            final(self).wf(),
            final(marks).wf(),
            r == (old(marks).start is Some && old(marks).end is Some && label@.len() > 0),
            r ==> {
                let ann = AnnotationModel {
                    start_frame: old(marks).start->0,
                    end_frame: old(marks).end->0,
                    label: label@,
                };
                &&& final(self).annotations.spec_annotations_of(video@) =~= old(
                    self,
                ).annotations.spec_annotations_of(video@).push(ann)
                &&& (forall|v: Seq<char>|
                    v != video@ ==> final(self).annotations.spec_annotations_of(v) == old(
                        self,
                    ).annotations.spec_annotations_of(v))
                &&& label_seq_set(final(self)@.used_labels) =~= label_seq_set(
                    old(self)@.used_labels,
                ).insert(label@)
                &&& final(marks).start is None
                &&& final(marks).end is None
            },
            !r ==> *final(self) == *old(self) && *final(marks) == *old(marks),
            final(self)@.path == old(self)@.path,
            final(self)@.video_folder == old(self)@.video_folder,
            final(self)@.labels_folder == old(self)@.labels_folder,
    {
        if label.as_str().unicode_len() == 0 {
            return false;
        }
        if !marks.ready() {
            return false;
        }
        match marks.take_range() {
            Some((start_frame, end_frame)) => {
                let ann = FrameAnnotation { start_frame, end_frame, label: label.clone() };
                self.add_annotation(video, ann);
                true
            },
            None => false,
        }
    }

    /// Removes the annotation at `index` of `video`; a missing video or an
    /// out-of-range index leaves the project unchanged. The used labels are
    /// deliberately not shrunk; see [`Project::reload_used_labels`].
    pub fn remove_annotation(&mut self, video: &String, index: usize)
        requires
            old(self).wf(),
        ensures
            final(self).wf(),
            ({
                let anns = old(self).annotations.spec_annotations_of(video@);
                if index < anns.len() {
                    final(self).annotations.spec_annotations_of(video@) =~= anns.remove(
                        index as int,
                    )
                } else {
                    final(self).annotations@ == old(self).annotations@
                }
            }),
            forall|v: Seq<char>|
                v != video@ ==> final(self).annotations.spec_annotations_of(v) == old(
                    self,
                ).annotations.spec_annotations_of(v),
            final(self)@.used_labels == old(self)@.used_labels,
            final(self)@.path == old(self)@.path,
            final(self)@.video_folder == old(self)@.video_folder,
            final(self)@.labels_folder == old(self)@.labels_folder,
    {
        self.annotations.remove(video, index);
    }

    /// Recomputes the used labels from the annotations present right now.
    ///
    /// The recomputation is authoritative: it fully replaces the cumulative
    /// list, so a label whose only annotation was deleted disappears.
    pub fn reload_used_labels(&mut self)
        requires
            old(self).wf(),
        ensures
            final(self).wf(),
            label_seq_set(final(self)@.used_labels) == label_set(final(self)@.annotations),
            distinct_seqs(final(self)@.used_labels),
            final(self)@.annotations == old(self)@.annotations,
            final(self)@.path == old(self)@.path,
            final(self)@.video_folder == old(self)@.video_folder,
            final(self)@.labels_folder == old(self)@.labels_folder,
    {
        self.used_labels = self.annotations.used_labels();
    }
}

/// Copies a label list, preserving its spec-level value.
pub fn clone_labels(v: &Vec<String>) -> (r: Vec<String>)
    ensures
        r.deep_view() == v.deep_view(),
{
    let mut r: Vec<String> = Vec::new();
    let mut i: usize = 0;
    while i < v.len()
        invariant
            i <= v.len(),
            r.deep_view() =~= v.deep_view().take(i as int),
        decreases v.len() - i,
    {
        let ghost pre = r.deep_view();
        r.push(v[i].clone());
        proof {
            assert(r.deep_view() =~= pre.push(v.deep_view()[i as int]));
            assert(v.deep_view().take(i as int + 1) =~= v.deep_view().take(i as int).push(
                v.deep_view()[i as int],
            ));
        }
        i = i + 1;
    }
    proof {
        assert(r.deep_view() =~= v.deep_view());
    }
    r
}

/// The labels of `labels` that start with `prefix`, in order.
pub open spec fn prefix_filter(labels: Seq<Seq<char>>, prefix: Seq<char>) -> Seq<Seq<char>>
    decreases labels.len(),
{
    if labels.len() == 0 {
        Seq::empty()
    } else {
        prefix_filter(labels.drop_last(), prefix) + if crate::text::is_prefix(
            prefix,
            labels.last(),
        ) {
            seq![labels.last()]
        } else {
            Seq::empty()
        }
    }
}

/// The used labels that start with what was typed so far, in stored order:
/// what the label popup offers as completions.
pub fn label_suggestions(labels: &Vec<String>, prefix: &String) -> (r: Vec<String>)
    ensures
        r.deep_view() == prefix_filter(labels.deep_view(), prefix@),
{
    let mut r: Vec<String> = Vec::new();
    let mut i: usize = 0;
    while i < labels.len()
        invariant
            i <= labels@.len(),
            r.deep_view() =~= prefix_filter(labels.deep_view().take(i as int), prefix@),
        decreases labels.len() - i,
    {
        let ghost pre = r.deep_view();
        if crate::text::starts_with(&labels[i], prefix) {
            r.push(labels[i].clone());
            proof {
                assert(r.deep_view() =~= pre.push(labels.deep_view()[i as int]));
            }
        }
        proof {
            let cur = labels.deep_view().take(i as int + 1);
            assert(cur.drop_last() =~= labels.deep_view().take(i as int));
            assert(cur.last() == labels.deep_view()[i as int]);
            assert(r.deep_view() =~= prefix_filter(cur, prefix@));
        }
        i = i + 1;
    }
    proof {
        assert(labels.deep_view().take(labels@.len() as int) =~= labels.deep_view());
    }
    r
}

/// Rebuilding a project from its own manifest content at its own root gives
/// the project back exactly: annotations, folder paths, and used labels.
pub proof fn lemma_config_round_trip(p: ProjectModel)
    requires
        p.wf(),
    ensures
        spec_project_from(p.config_model(), p.path) == p,
{
    lemma_dedup_labels(p.used_labels);
    assert(spec_project_from(p.config_model(), p.path) =~~= p);
}

} // verus!
