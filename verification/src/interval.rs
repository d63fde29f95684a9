//! Time windows, measured in whole seconds since 1970-01-01 00:00:00.

use vstd::prelude::*;

verus! {

/// A time window from `start_time` to `end_time`.
#[derive(Clone, Copy, Debug, PartialEq, Eq, Structural)]
pub struct Interval {
    pub start_time: i64,
    pub end_time: i64,
}

/// Neither window overlaps the other nor touches it.
pub open spec fn apart(a: Interval, b: Interval) -> bool {
    !a.overlaps_spec(b) && !a.touches_spec(b)
}

impl Interval {
    /// Both windows share a stretch of positive length.
    pub open spec fn overlaps_spec(self, other: Interval) -> bool {
        self.start_time < other.end_time && self.end_time > other.start_time
    }

    /// One window ends exactly where the other starts.
    pub open spec fn touches_spec(self, other: Interval) -> bool {
        self.start_time == other.end_time || self.end_time == other.start_time
    }

    /// `other` lies within `self`.
    pub open spec fn contains_spec(self, other: Interval) -> bool {
        self.start_time <= other.start_time && self.end_time >= other.end_time
    }

    /// A window whose start lies before its end.
    pub open spec fn is_proper(self) -> bool {
        self.start_time < self.end_time
    }

    /// A window whose start does not lie after its end; it may have no length.
    pub open spec fn is_ordered(self) -> bool {
        self.start_time <= self.end_time
    }

    /// The smallest window that holds both.
    pub open spec fn merge_spec(self, other: Interval) -> Interval {
        Interval {
            start_time: if other.start_time < self.start_time { other.start_time } else { self.start_time },
            end_time: if other.end_time > self.end_time { other.end_time } else { self.end_time },
        }
    }

    /// What is left of `self` once the part shared with `other` is taken away, for an `other`
    /// that sticks out of `self` on one side.
    pub open spec fn cut_spec(self, other: Interval) -> Interval {
        if other.start_time <= self.start_time {
            Interval { start_time: other.end_time, end_time: self.end_time }
        } else {
            Interval { start_time: self.start_time, end_time: other.start_time }
        }
    }

    /// The two parts of `self` before and after `splitter`.
    pub open spec fn split_spec(self, splitter: Interval) -> (Interval, Interval) {
        (
            Interval { start_time: self.start_time, end_time: splitter.start_time },
            Interval { start_time: splitter.end_time, end_time: self.end_time },
        )
    }

    pub fn new(start_time: i64, end_time: i64) -> (r: Interval)
        ensures
            r.start_time == start_time,
            r.end_time == end_time,
    {
        Interval { start_time, end_time }
    }

    pub fn overlaps(&self, other: &Interval) -> (r: bool)
        ensures
            r == self.overlaps_spec(*other),
    {
        self.start_time < other.end_time && self.end_time > other.start_time
    }

    pub fn touches(&self, other: &Interval) -> (r: bool)
        ensures
            r == self.touches_spec(*other),
    {
        self.start_time == other.end_time || self.end_time == other.start_time
    }

    pub fn contains(&self, other: &Interval) -> (r: bool)
        ensures
            r == self.contains_spec(*other),
    {
        self.start_time <= other.start_time && self.end_time >= other.end_time
    }

    /// Widens `self` to the smallest window that also holds `other`.
    pub fn merge(&mut self, other: &Interval)
        ensures
            *final(self) == old(self).merge_spec(*other),
    {
        if other.start_time < self.start_time {
            self.start_time = other.start_time;
        }
        if other.end_time > self.end_time {
            self.end_time = other.end_time;
        }
    }

    /// Takes away from `self` the part it shares with `other`.
    pub fn cut(&mut self, other: &Interval)
        ensures
            *final(self) == old(self).cut_spec(*other),
    {
        if other.start_time <= self.start_time {
            self.start_time = other.end_time;
        } else {
            self.end_time = other.start_time;
        }
    }

    pub fn split(&self, splitter: &Interval) -> (r: (Interval, Interval))
        ensures
            r == self.split_spec(*splitter),
    {
        (
            Interval::new(self.start_time, splitter.start_time),
            Interval::new(splitter.end_time, self.end_time),
        )
    }
}

/// Whether two windows overlap does not depend on which one is asked.
pub proof fn lemma_overlaps_symmetric(a: Interval, b: Interval)
    ensures
        a.overlaps_spec(b) == b.overlaps_spec(a),
        a.touches_spec(b) == b.touches_spec(a),
{
}

/// A merged window holds both windows it was made from.
pub proof fn lemma_merge_contains_both(a: Interval, b: Interval)
    ensures
        a.merge_spec(b).contains_spec(a),
        a.merge_spec(b).contains_spec(b),
{
}

/// Cutting a window that `other` overlaps without either holding the other leaves a proper
/// part of the window that no longer overlaps `other`.
pub proof fn lemma_cut_leaves_no_overlap(a: Interval, other: Interval)
    requires
        a.overlaps_spec(other),
        !a.contains_spec(other),
        !other.contains_spec(a),
    ensures
        a.cut_spec(other).is_proper(),
        a.contains_spec(a.cut_spec(other)),
        !a.cut_spec(other).overlaps_spec(other),
{
}

/// Splitting a window around a splitter it holds gives two parts of the window, neither of
/// which overlaps the splitter.
pub proof fn lemma_split_parts(a: Interval, splitter: Interval)
    requires
        a.contains_spec(splitter),
        splitter.is_proper(),
    ensures
        a.contains_spec(a.split_spec(splitter).0),
        a.contains_spec(a.split_spec(splitter).1),
        !a.split_spec(splitter).0.overlaps_spec(splitter),
        !a.split_spec(splitter).1.overlaps_spec(splitter),
{
}

} // verus!
