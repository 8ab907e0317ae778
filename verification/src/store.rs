//! Per-video ordered collections of annotations, keyed by video identifier.
//!
//! The store is an insertion-ordered list of `(video, annotations)` entries
//! with pairwise-distinct video names; an entry may hold an empty annotation
//! list and is tolerated as such.

use vstd::prelude::*;

use crate::annotation::{AnnotationModel, FrameAnnotation};

verus! {

/// The annotations recorded for one video, in insertion order.
#[derive(Debug)]
pub struct VideoAnnotations {
    pub video: String,
    pub annotations: Vec<FrameAnnotation>,
}

/// Spec-level value of a [`VideoAnnotations`] entry.
#[verifier::ext_equal]
pub ghost struct VideoModel {
    pub video: Seq<char>,
    pub annotations: Seq<AnnotationModel>,
}

impl View for VideoAnnotations {
    type V = VideoModel;

    open spec fn view(&self) -> VideoModel {
        VideoModel { video: self.video@, annotations: self.annotations.deep_view() }
    }
}

impl DeepView for VideoAnnotations {
    type V = VideoModel;

    open spec fn deep_view(&self) -> VideoModel {
        self.view()
    }
}

impl Clone for VideoAnnotations {
    fn clone(&self) -> (r: Self)
        ensures
            r@ == self@,
    {
        VideoAnnotations {
            video: self.video.clone(),
            annotations: clone_annotations(&self.annotations),
        }
    }
}

/// Clones a list of annotations, preserving its spec-level value.
pub fn clone_annotations(v: &Vec<FrameAnnotation>) -> (r: Vec<FrameAnnotation>)
    ensures
        r.deep_view() == v.deep_view(),
{
    let mut r: Vec<FrameAnnotation> = Vec::new();
    let mut i: usize = 0;
    while i < v.len()
        invariant
            i <= v.len(),
            r.deep_view() =~= v.deep_view().take(i as int),
        decreases v.len() - i,
    {
        let ghost pre = r.deep_view();
        r.push(v[i].clone());
        proof {
            assert(r.deep_view() =~= pre.push(v.deep_view()[i as int]));
            assert(v.deep_view().take(i as int + 1) =~= v.deep_view().take(i as int).push(
                v.deep_view()[i as int],
            ));
        }
        i = i + 1;
    }
    assert(r.deep_view() =~= v.deep_view());
    r
}

/// Ordered collection of per-video annotation lists.
///
/// Insertion order of videos and of each video's annotations is the display
/// and delete order; no reordering or normalization ever happens.
#[derive(Debug)]
pub struct AnnotationStore {
    pub entries: Vec<VideoAnnotations>,
}

impl View for AnnotationStore {
    type V = Seq<VideoModel>;

    open spec fn view(&self) -> Seq<VideoModel> {
        self.entries.deep_view()
    }
}

impl Clone for AnnotationStore {
    fn clone(&self) -> (r: Self)
        ensures
            r@ == self@,
    {
        let mut entries: Vec<VideoAnnotations> = Vec::new();
        let mut i: usize = 0;
        while i < self.entries.len()
            invariant
                i <= self.entries.len(),
                entries.deep_view() =~= self.entries.deep_view().take(i as int),
            decreases self.entries.len() - i,
        {
            let ghost pre = entries.deep_view();
            entries.push(self.entries[i].clone());
            proof {
                assert(entries.deep_view() =~= pre.push(self.entries.deep_view()[i as int]));
                assert(self.entries.deep_view().take(i as int + 1) =~= self.entries.deep_view()
                    .take(i as int).push(self.entries.deep_view()[i as int]));
            }
            i = i + 1;
        }
        assert(entries.deep_view() =~= self.entries.deep_view());
        AnnotationStore { entries }
    }
}

/// All video names of a store, in entry order.
pub open spec fn videos_of(s: Seq<VideoModel>) -> Seq<Seq<char>> {
    s.map_values(|e: VideoModel| e.video)
}

/// Video names are pairwise distinct.
pub open spec fn distinct_videos(s: Seq<VideoModel>) -> bool {
    forall|i: int, j: int| 0 <= i < j < s.len() ==> s[i].video != s[j].video
}

/// Every annotation of every entry is well-formed.
pub open spec fn all_annotations_wf(s: Seq<VideoModel>) -> bool {
    forall|i: int, j: int|
        0 <= i < s.len() && 0 <= j < s[i].annotations.len() ==> (#[trigger] s[i].annotations[j]).wf()
}

/// The set of labels carried by any annotation of any entry.
pub open spec fn label_set(s: Seq<VideoModel>) -> Set<Seq<char>>
    decreases s.len(),
{
    if s.len() == 0 {
        Set::empty()
    } else {
        label_set(s.drop_last()).union(entry_label_set(s.last()))
    }
}

/// The set of labels carried by one entry's annotations.
pub open spec fn entry_label_set(e: VideoModel) -> Set<Seq<char>> {
    Set::new(|l: Seq<char>| exists|j: int| 0 <= j < e.annotations.len() && e.annotations[j].label == l)
}

/// A label is in `label_set` exactly when some annotation of some entry
/// carries it.
pub proof fn lemma_label_set_iff(s: Seq<VideoModel>, l: Seq<char>)
    ensures
        label_set(s).contains(l) <==> exists|i: int, j: int|
            0 <= i < s.len() && 0 <= j < s[i].annotations.len() && s[i].annotations[j].label == l,
    decreases s.len(),
{
    if s.len() > 0 {
        lemma_label_set_iff(s.drop_last(), l);
        if label_set(s).contains(l) {
            if label_set(s.drop_last()).contains(l) {
                let (i, j) = choose|i: int, j: int|
                    0 <= i < s.drop_last().len() && 0 <= j < s.drop_last()[i].annotations.len()
                        && s.drop_last()[i].annotations[j].label == l;
                assert(s[i].annotations[j].label == l);
            } else {
                let j = choose|j: int|
                    0 <= j < s.last().annotations.len() && s.last().annotations[j].label == l;
                assert(s[s.len() - 1].annotations[j].label == l);
            }
        }
        if exists|i: int, j: int|
            0 <= i < s.len() && 0 <= j < s[i].annotations.len() && s[i].annotations[j].label == l {
            let (i, j) = choose|i: int, j: int|
                0 <= i < s.len() && 0 <= j < s[i].annotations.len() && s[i].annotations[j].label
                    == l;
            if i < s.len() - 1 {
                assert(s.drop_last()[i].annotations[j].label == l);
            } else {
                assert(entry_label_set(s.last()).contains(l));
            }
        }
    }
}

/// The labels of the annotations in `anns` that contain `frame`, kept in
/// stored order, duplicates preserved.
pub open spec fn labels_at(anns: Seq<AnnotationModel>, frame: u32) -> Seq<Seq<char>>
    decreases anns.len(),
{
    if anns.len() == 0 {
        Seq::empty()
    } else {
        labels_at(anns.drop_last(), frame) + if anns.last().spec_contains(frame) {
            seq![anns.last().label]
        } else {
            Seq::empty()
        }
    }
}

impl AnnotationStore {
    /// Distinct video names; well-formed annotations throughout.
    pub open spec fn wf(self) -> bool {
        &&& distinct_videos(self@)
        &&& all_annotations_wf(self@)
    }

    /// The index of the entry for `video`, if one exists.
    pub open spec fn spec_find(self, video: Seq<char>) -> Option<int> {
        if exists|i: int| 0 <= i < self@.len() && self@[i].video == video {
            Some(choose|i: int| 0 <= i < self@.len() && self@[i].video == video)
        } else {
            None
        }
    }

    /// The annotation sequence recorded for `video` (empty when absent).
    pub open spec fn spec_annotations_of(self, video: Seq<char>) -> Seq<AnnotationModel> {
        match self.spec_find(video) {
            Some(i) => self@[i].annotations,
            None => Seq::empty(),
        }
    }

    /// An empty store.
    pub fn new() -> (r: AnnotationStore)
        ensures
            r@ =~= Seq::<VideoModel>::empty(),
            r.wf(),
    {
        AnnotationStore { entries: Vec::new() }
    }

    /// The index of the entry for `video`, if one exists.
    fn find(&self, video: &String) -> (r: Option<usize>)
        ensures
            match r {
                Some(i) => i < self@.len() && self@[i as int].video == video@,
                None => forall|i: int| 0 <= i < self@.len() ==> self@[i].video != video@,
            },
    {
        let mut i: usize = 0;
        while i < self.entries.len()
            invariant
                i <= self.entries.len(),
                forall|k: int| 0 <= k < i ==> self@[k].video != video@,
            decreases self.entries.len() - i,
        {
            if self.entries[i].video == *video {
                return Some(i);
            }
            i = i + 1;
        }
        None
    }

    /// Appends `ann` to the list for `video`, creating the entry on first use.
    ///
    /// Existing entries and the order of earlier annotations are untouched.
    pub fn add(&mut self, video: &String, ann: FrameAnnotation)
        requires
            old(self).wf(),
            ann.wf(),
        ensures
            final(self).wf(),
            final(self).spec_annotations_of(video@) =~= old(self).spec_annotations_of(video@).push(
                ann@,
            ),
            forall|v: Seq<char>|
                v != video@ ==> final(self).spec_annotations_of(v) == old(
                    self,
                ).spec_annotations_of(v),
            videos_of(final(self)@) =~= if old(self).spec_find(video@) is Some {
                videos_of(old(self)@)
            } else {
                videos_of(old(self)@).push(video@)
            },
    {
        match self.find(video) {
            Some(i) => {
                proof {
                    lemma_find_unique(*self, video@, i as int);
                }
                let mut entry = self.entries.remove(i);
                entry.annotations.push(ann);
                self.entries.insert(i, entry);
                proof {
                    assert(self@ =~~= old(self)@.update(
                        i as int,
                        VideoModel {
                            video: video@,
                            annotations: old(self)@[i as int].annotations.push(ann@),
                        },
                    ));
                    lemma_ops_after_update(*old(self), *self, video@, i as int, ann@);
                }
            },
            None => {
                let entry = VideoAnnotations {
                    video: video.clone(),
                    annotations: vec![ann],
                };
                self.entries.push(entry);
                proof {
                    assert(self@ =~~= old(self)@.push(
                        VideoModel { video: video@, annotations: seq![ann@] },
                    ));
                    lemma_ops_after_push(*old(self), *self, video@, ann@);
                }
            },
        }
    }

    /// Removes the annotation at `index` of `video`'s list; a missing video or
    /// an out-of-range index leaves the store unchanged.
    pub fn remove(&mut self, video: &String, index: usize)
        requires
            old(self).wf(),
        ensures
            final(self).wf(),
            ({
                let anns = old(self).spec_annotations_of(video@);
                if index < anns.len() {
                    final(self).spec_annotations_of(video@) =~= anns.remove(index as int)
                } else {
                    final(self)@ == old(self)@
                }
            }),
            forall|v: Seq<char>|
                v != video@ ==> final(self).spec_annotations_of(v) == old(
                    self,
                ).spec_annotations_of(v),
            videos_of(final(self)@) =~= videos_of(old(self)@),
    {
        match self.find(video) {
            Some(i) => {
                proof {
                    lemma_find_unique(*self, video@, i as int);
                }
                if index < self.entries[i].annotations.len() {
                    let mut entry = self.entries.remove(i);
                    entry.annotations.remove(index);
                    self.entries.insert(i, entry);
                    proof {
                        assert(self@ =~~= old(self)@.update(
                            i as int,
                            VideoModel {
                                video: video@,
                                annotations: old(self)@[i as int].annotations.remove(index as int),
                            },
                        ));
                        lemma_remove_after_update(*old(self), *self, video@, i as int, index as int);
                    }
                }
            },
            None => {},
        }
    }

    /// The labels of the annotations of `video` containing `frame`, in stored
    /// order, duplicates preserved.
    pub fn labels_for(&self, video: &String, frame: u32) -> (r: Vec<String>)
        requires
            self.wf(),
        ensures
            r.deep_view() == labels_at(self.spec_annotations_of(video@), frame),
    {
        let mut r: Vec<String> = Vec::new();
        match self.find(video) {
            Some(i) => {
                proof {
                    lemma_find_unique(*self, video@, i as int);
                }
                let anns = &self.entries[i].annotations;
                let mut j: usize = 0;
                while j < anns.len()
                    invariant
                        j <= anns.len(),
                        r.deep_view() =~= labels_at(anns.deep_view().take(j as int), frame),
                    decreases anns.len() - j,
                {
                    proof {
                        assert(anns.deep_view().take(j as int + 1).drop_last() =~= anns.deep_view()
                            .take(j as int));
                    }
                    if anns[j].contains(frame) {
                        r.push(anns[j].label.clone());
                    }
                    j = j + 1;
                }
                proof {
                    assert(anns.deep_view().take(anns.len() as int) =~= anns.deep_view());
                    assert(self.spec_annotations_of(video@) == anns.deep_view());
                }
            },
            None => {
                proof {
                    assert(self.spec_annotations_of(video@) =~= Seq::<AnnotationModel>::empty());
                }
            },
        }
        r
    }
}

/// Pairwise-distinct character sequences.
pub open spec fn distinct_seqs(s: Seq<Seq<char>>) -> bool {
    forall|i: int, j: int| 0 <= i < j < s.len() ==> s[i] != s[j]
}

/// The set of values occurring in a sequence of labels.
pub open spec fn label_seq_set(s: Seq<Seq<char>>) -> Set<Seq<char>> {
    Set::new(|l: Seq<char>| s.contains(l))
}

/// Appending a label to a list adds exactly that label to its value set.
pub proof fn lemma_label_seq_set_push(s: Seq<Seq<char>>, x: Seq<char>)
    ensures
        label_seq_set(s.push(x)) =~= label_seq_set(s).insert(x),
{
    assert forall|l: Seq<char>| label_seq_set(s.push(x)).contains(l) implies label_seq_set(
        s,
    ).insert(x).contains(l) by {
        let k = choose|k: int| 0 <= k < s.push(x).len() && s.push(x)[k] == l;
        if k < s.len() {
            assert(s[k] == l);
        }
    }
    assert forall|l: Seq<char>| label_seq_set(s).insert(x).contains(l) implies label_seq_set(
        s.push(x),
    ).contains(l) by {
        if l == x {
            assert(s.push(x)[s.len() as int] == l);
        } else {
            let k = choose|k: int| 0 <= k < s.len() && s[k] == l;
            assert(s.push(x)[k] == l);
        }
    }
}

/// Whether `s` occurs in `v`.
pub fn contains_string(v: &Vec<String>, s: &String) -> (r: bool)
    ensures
        r == v.deep_view().contains(s@),
{
    let mut i: usize = 0;
    while i < v.len()
        invariant
            i <= v.len(),
            forall|k: int| 0 <= k < i ==> v.deep_view()[k] != s@,
        decreases v.len() - i,
    {
        if v[i] == *s {
            assert(v.deep_view()[i as int] == s@);
            return true;
        }
        i = i + 1;
    }
    assert(forall|k: int| 0 <= k < v.deep_view().len() ==> v.deep_view()[k] != s@);
    false
}

impl AnnotationStore {
    /// Recomputes the set of labels present in the stored annotations, in
    /// first-seen order and without duplicates.
    ///
    /// The result is authoritative: it is exactly the labels that some
    /// annotation carries right now, so a label whose last annotation was
    /// deleted is gone from it.
    pub fn used_labels(&self) -> (r: Vec<String>)
        ensures
            label_seq_set(r.deep_view()) == label_set(self@),
            distinct_seqs(r.deep_view()),
    {
        let mut r: Vec<String> = Vec::new();
        let mut i: usize = 0;
        while i < self.entries.len()
            invariant
                i <= self.entries.len(),
                label_seq_set(r.deep_view()) =~= label_set(self@.take(i as int)),
                distinct_seqs(r.deep_view()),
            decreases self.entries.len() - i,
        {
            let anns = &self.entries[i].annotations;
            let ghost done = self@.take(i as int);
            let mut j: usize = 0;
            while j < anns.len()
                invariant
                    j <= anns.len(),
                    anns.deep_view() == self@[i as int].annotations,
                    i < self.entries.len(),
                    done == self@.take(i as int),
                    label_seq_set(r.deep_view()) =~= label_set(done).union(
                        entry_label_set(
                            VideoModel {
                                video: self@[i as int].video,
                                annotations: self@[i as int].annotations.take(j as int),
                            },
                        ),
                    ),
                    distinct_seqs(r.deep_view()),
                decreases anns.len() - j,
            {
                let ghost pre = r.deep_view();
                let label = &anns[j].label;
                if !contains_string(&r, label) {
                    r.push(label.clone());
                    proof {
                        assert(r.deep_view() =~= pre.push(label@));
                        lemma_label_seq_set_push(pre, label@);
                        assert(label_seq_set(r.deep_view()) =~= label_seq_set(pre).insert(label@));
                    }
                } else {
                    proof {
                        assert(label_seq_set(r.deep_view()).contains(label@));
                        assert(label_seq_set(r.deep_view()) =~= label_seq_set(pre).insert(label@));
                    }
                }
                proof {
                    let e0 = VideoModel {
                        video: self@[i as int].video,
                        annotations: self@[i as int].annotations.take(j as int),
                    };
                    let e1 = VideoModel {
                        video: self@[i as int].video,
                        annotations: self@[i as int].annotations.take(j as int + 1),
                    };
                    assert(e1.annotations.drop_last() =~= e0.annotations);
                    assert(e1.annotations.last() == self@[i as int].annotations[j as int]);
                    assert(entry_label_set(e1) =~= entry_label_set(e0).insert(label@));
                    assert(label_seq_set(r.deep_view()) =~= label_set(done).union(
                        entry_label_set(e1),
                    ));
                }
                j = j + 1;
            }
            proof {
                let e = VideoModel {
                    video: self@[i as int].video,
                    annotations: self@[i as int].annotations.take(anns.len() as int),
                };
                assert(e.annotations =~= self@[i as int].annotations);
                assert(entry_label_set(e) =~= entry_label_set(self@[i as int]));
                assert(self@.take(i as int + 1).drop_last() =~= self@.take(i as int));
                assert(self@.take(i as int + 1).last() == self@[i as int]);
                assert(label_seq_set(r.deep_view()) =~= label_set(self@.take(i as int + 1)));
            }
            i = i + 1;
        }
        proof {
            assert(self@.take(self.entries.len() as int) =~= self@);
        }
        r
    }
}

/// With distinct video names, an index holding `video` is the one `spec_find`
/// picks.
pub proof fn lemma_find_unique(s: AnnotationStore, video: Seq<char>, i: int)
    requires
        distinct_videos(s@),
        0 <= i < s@.len(),
        s@[i].video == video,
    ensures
        s.spec_find(video) == Some(i),
{
    let w = choose|k: int| 0 <= k < s@.len() && s@[k].video == video;
    if w != i {
        if w < i {
            assert(s@[w].video != s@[i].video);
        } else {
            assert(s@[i].video != s@[w].video);
        }
    }
}

proof fn lemma_ops_after_update(
    pre: AnnotationStore,
    post: AnnotationStore,
    video: Seq<char>,
    i: int,
    a: AnnotationModel,
)
    requires
        pre.wf(),
        a.wf(),
        0 <= i < pre@.len(),
        pre@[i].video == video,
        post@ == pre@.update(
            i,
            VideoModel { video: video, annotations: pre@[i].annotations.push(a) },
        ),
    ensures
        post.wf(),
        post.spec_annotations_of(video) =~= pre.spec_annotations_of(video).push(a),
        forall|v: Seq<char>| v != video ==> post.spec_annotations_of(v) == pre.spec_annotations_of(v),
        videos_of(post@) =~= videos_of(pre@),
{
    lemma_find_unique(pre, video, i);
    assert(distinct_videos(post@));
    assert forall|k: int, j: int|
        0 <= k < post@.len() && 0 <= j < post@[k].annotations.len() implies (#[trigger] post@[k]
        .annotations[j]).wf() by {
        if k == i && j == post@[k].annotations.len() - 1 {
        } else {
            assert(pre@[k].annotations[j].wf());
        }
    }
    lemma_find_unique(post, video, i);
    assert forall|v: Seq<char>| v != video implies post.spec_annotations_of(v)
        == pre.spec_annotations_of(v) by {
        lemma_find_same(pre, post, v);
    }
}

proof fn lemma_ops_after_push(
    pre: AnnotationStore,
    post: AnnotationStore,
    video: Seq<char>,
    a: AnnotationModel,
)
    requires
        pre.wf(),
        a.wf(),
        pre.spec_find(video) is None,
        post@ == pre@.push(VideoModel { video: video, annotations: seq![a] }),
    ensures
        post.wf(),
        post.spec_annotations_of(video) =~= pre.spec_annotations_of(video).push(a),
        forall|v: Seq<char>| v != video ==> post.spec_annotations_of(v) == pre.spec_annotations_of(v),
        videos_of(post@) =~= videos_of(pre@).push(video),
{
    assert(forall|k: int| 0 <= k < pre@.len() ==> pre@[k].video != video);
    assert(distinct_videos(post@));
    assert forall|k: int, j: int|
        0 <= k < post@.len() && 0 <= j < post@[k].annotations.len() implies (#[trigger] post@[k]
        .annotations[j]).wf() by {
        if k < post@.len() - 1 {
            assert(pre@[k].annotations[j].wf());
        }
    }
    lemma_find_unique(post, video, post@.len() - 1);
    assert(pre.spec_annotations_of(video) =~= Seq::<AnnotationModel>::empty());
    assert forall|v: Seq<char>| v != video implies post.spec_annotations_of(v)
        == pre.spec_annotations_of(v) by {
        lemma_find_same(pre, post, v);
    }
}

proof fn lemma_remove_after_update(
    pre: AnnotationStore,
    post: AnnotationStore,
    video: Seq<char>,
    i: int,
    index: int,
)
    requires
        pre.wf(),
        0 <= i < pre@.len(),
        pre@[i].video == video,
        0 <= index < pre@[i].annotations.len(),
        post@ == pre@.update(
            i,
            VideoModel { video: video, annotations: pre@[i].annotations.remove(index) },
        ),
    ensures
        post.wf(),
        post.spec_annotations_of(video) =~= pre.spec_annotations_of(video).remove(index),
        forall|v: Seq<char>| v != video ==> post.spec_annotations_of(v) == pre.spec_annotations_of(v),
        videos_of(post@) =~= videos_of(pre@),
{
    lemma_find_unique(pre, video, i);
    assert(distinct_videos(post@));
    assert forall|k: int, j: int|
        0 <= k < post@.len() && 0 <= j < post@[k].annotations.len() implies (#[trigger] post@[k]
        .annotations[j]).wf() by {
        if k == i {
            if j < index {
                assert(pre@[k].annotations[j].wf());
            } else {
                assert(pre@[k].annotations[j + 1].wf());
            }
        } else {
            assert(pre@[k].annotations[j].wf());
        }
    }
    lemma_find_unique(post, video, i);
    assert forall|v: Seq<char>| v != video implies post.spec_annotations_of(v)
        == pre.spec_annotations_of(v) by {
        lemma_find_same(pre, post, v);
    }
}

/// Two stores with distinct keys that agree on every entry carrying video `v`
/// return the same annotations for `v`.
proof fn lemma_find_same(pre: AnnotationStore, post: AnnotationStore, v: Seq<char>)
    requires
        distinct_videos(pre@),
        distinct_videos(post@),
        forall|k: int|
            0 <= k < post@.len() && post@[k].video == v ==> 0 <= k < pre@.len() && pre@[k] == post@[k],
        forall|k: int|
            0 <= k < pre@.len() && pre@[k].video == v ==> 0 <= k < post@.len() && pre@[k] == post@[k],
    ensures
        post.spec_annotations_of(v) == pre.spec_annotations_of(v),
{
    if exists|k: int| 0 <= k < pre@.len() && pre@[k].video == v {
        let k = choose|k: int| 0 <= k < pre@.len() && pre@[k].video == v;
        assert(post@[k].video == v);
        lemma_find_unique(pre, v, k);
        lemma_find_unique(post, v, k);
    } else if exists|k: int| 0 <= k < post@.len() && post@[k].video == v {
        let k = choose|k: int| 0 <= k < post@.len() && post@[k].video == v;
        assert(pre@[k].video == v);
    }
}

} // verus!
