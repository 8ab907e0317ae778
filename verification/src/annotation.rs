//! A single labeled frame range, the atomic unit of the data model.

use vstd::prelude::*;

verus! {

/// A labeled, inclusive range of frame indices.
///
/// Well-formed annotations satisfy `start_frame <= end_frame` and carry a
/// non-empty label; see [`FrameAnnotation::wf`].
#[derive(Debug, PartialEq, Eq)]
pub struct FrameAnnotation {
    pub start_frame: u32,
    pub end_frame: u32,
    pub label: String,
}

/// Spec-level value of a [`FrameAnnotation`].
#[verifier::ext_equal]
pub ghost struct AnnotationModel {
    pub start_frame: u32,
    pub end_frame: u32,
    pub label: Seq<char>,
}

impl View for FrameAnnotation {
    type V = AnnotationModel;

    open spec fn view(&self) -> AnnotationModel {
        AnnotationModel {
            start_frame: self.start_frame,
            end_frame: self.end_frame,
            label: self.label@,
        }
    }
}

impl DeepView for FrameAnnotation {
    type V = AnnotationModel;

    open spec fn deep_view(&self) -> AnnotationModel {
        self.view()
    }
}

impl Clone for FrameAnnotation {
    fn clone(&self) -> (r: Self)
        ensures
            r == *self,
    {
        FrameAnnotation {
            start_frame: self.start_frame,
            end_frame: self.end_frame,
            label: self.label.clone(),
        }
    }
}

impl AnnotationModel {
    /// A well-formed range runs forward and its label is non-empty.
    pub open spec fn wf(self) -> bool {
        &&& self.start_frame <= self.end_frame
        &&& self.label.len() > 0
    }

    /// Whether `frame` lies in the inclusive range.
    pub open spec fn spec_contains(self, frame: u32) -> bool {
        self.start_frame <= frame <= self.end_frame
    }
}

impl FrameAnnotation {
    pub open spec fn wf(self) -> bool {
        self@.wf()
    }

    /// Inclusive range membership: true exactly when
    /// `start_frame <= frame <= end_frame`.
    pub fn contains(&self, frame: u32) -> (r: bool)
        ensures
            r == self@.spec_contains(frame),
    {
        frame >= self.start_frame && frame <= self.end_frame
    }
}

/// The labels of a list of annotations, in order, duplicates preserved.
pub fn labels_of(anns: &Vec<FrameAnnotation>) -> (r: Vec<String>)
    ensures
        r.deep_view() == anns.deep_view().map_values(|a: AnnotationModel| a.label),
{
    let mut r: Vec<String> = Vec::new();
    let mut i: usize = 0;
    while i < anns.len()
        invariant
            i <= anns@.len(),
            r.deep_view() =~= anns.deep_view().take(i as int).map_values(
                |a: AnnotationModel| a.label,
            ),
        decreases anns.len() - i,
    {
        let ghost pre = r.deep_view();
        r.push(anns[i].label.clone());
        proof {
            assert(r.deep_view() =~= pre.push(anns.deep_view()[i as int].label));
            assert(anns.deep_view().take(i as int + 1).map_values(|a: AnnotationModel| a.label)
                =~= pre.push(anns.deep_view()[i as int].label));
        }
        i = i + 1;
    }
    proof {
        assert(anns.deep_view().take(anns@.len() as int) =~= anns.deep_view());
    }
    r
}

/// Both endpoints of a range are contained in it, and the frame just past
/// `end_frame` is not.
pub proof fn lemma_contains_boundary(a: AnnotationModel)
    requires
        a.wf(),
    ensures
        a.spec_contains(a.start_frame),
        a.spec_contains(a.end_frame),
        a.end_frame < u32::MAX ==> !a.spec_contains((a.end_frame + 1) as u32),
{
}

} // verus!
