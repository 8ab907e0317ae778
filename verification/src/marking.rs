//! The two-phase "mark start, mark end" interaction that precedes adding an
//! annotation: either endpoint may be set first, and a mark is refused when
//! it would cross the other endpoint, so whenever both are set they form a
//! forward range.

use vstd::prelude::*;

verus! {

/// The range marks of an annotation being prepared.
#[derive(Debug, PartialEq, Eq)]
pub struct MarkState {
    pub start: Option<u32>,
    pub end: Option<u32>,
}

impl MarkState {
    /// Whenever both endpoints are set, they form a forward range.
    pub open spec fn wf(self) -> bool {
        self.start is Some && self.end is Some ==> self.start->0 <= self.end->0
    }

    /// No endpoint marked yet.
    pub fn new() -> (s: MarkState)
        ensures
            s.wf(),
            s.start is None,
            s.end is None,
    {
        MarkState { start: None, end: None }
    }

    /// Marks `current` as the start frame; refused when an end frame is
    /// already set before `current`.
    pub fn mark_start(&mut self, current: u32)
        requires
            old(self).wf(),
        ensures
            final(self).wf(),
            final(self).end == old(self).end,
            final(self).start == match old(self).end {
                Some(e) => if current <= e {
                    Some(current)
                } else {
                    old(self).start
                },
                None => Some(current),
            },
    {
        match self.end {
            Some(e) => {
                if current <= e {
                    self.start = Some(current);
                }
            },
            None => {
                self.start = Some(current);
            },
        }
    }

    /// Marks `current` as the end frame; refused when a start frame is
    /// already set past `current`.
    pub fn mark_end(&mut self, current: u32)
        requires
            old(self).wf(),
        ensures
            final(self).wf(),
            final(self).start == old(self).start,
            final(self).end == match old(self).start {
                Some(s) => if current >= s {
                    Some(current)
                } else {
                    old(self).end
                },
                None => Some(current),
            },
    {
        match self.start {
            Some(s) => {
                if current >= s {
                    self.end = Some(current);
                }
            },
            None => {
                self.end = Some(current);
            },
        }
    }

    /// Whether both endpoints are set, which is what lets the label popup
    /// open.
    pub fn ready(&self) -> (r: bool)
        ensures
            r == (self.start is Some && self.end is Some),
    {
        self.start.is_some() && self.end.is_some()
    }

    /// Clears both endpoints, as taking the marks into an annotation does.
    pub fn take_range(&mut self) -> (r: Option<(u32, u32)>)
        requires
            old(self).wf(),
        ensures
            final(self).wf(),
            final(self).start is None,
            final(self).end is None,
            r == match (old(self).start, old(self).end) {
                (Some(s), Some(e)) => Some((s, e)),
                _ => None::<(u32, u32)>,
            },
            (match r {
                Some(range) => range.0 <= range.1,
                None => true,
            }),
    {
        match (self.start, self.end) {
            (Some(s), Some(e)) => {
                self.start = None;
                self.end = None;
                Some((s, e))
            },
            _ => {
                self.start = None;
                self.end = None;
                None
            },
        }
    }
}

} // verus!
