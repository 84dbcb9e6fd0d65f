//! Taking a number of colors evenly over a gradient's domain: which samples
//! are due, from either end.

use vstd::prelude::*;

verus! {

/// The state of a walk over `total` evenly spaced samples, from both ends:
/// the samples from `front` up to `back`, `back` not included, are still due.
pub struct Walk {
    pub front: nat,
    pub back: nat,
    pub total: nat,
}

/// Where a sample is taken.
#[derive(Clone, Copy, Debug, PartialEq, Eq, Structural)]
pub enum SamplePoint {
    /// At the start of the domain.
    Start,
    /// `index` steps into the domain, which is divided into `steps` equal
    /// steps: at the start plus `index` times the width over `steps`.
    Step { index: usize, steps: usize },
}

/// Where sample `i` of `total` evenly spaced samples is taken. The samples
/// divide the domain into one step less than they are; a single sample is
/// taken at the start.
pub open spec fn point_of(i: nat, total: nat) -> SamplePoint {
    if total <= 1 {
        SamplePoint::Start
    } else {
        SamplePoint::Step { index: i as usize, steps: (total - 1) as usize }
    }
}

/// Steps through the samples of a gradient from the front and from the back,
/// and says where the sample that is due is taken.
#[derive(Clone, Copy, Debug)]
pub struct GradientColors {
    a_idx: usize,
    b_idx: usize,
    total: usize,
}

impl View for GradientColors {
    type V = Walk;

    closed spec fn view(&self) -> Walk {
        Walk { front: self.a_idx as nat, back: self.b_idx as nat, total: self.total as nat }
    }
}

impl GradientColors {
    #[verifier::type_invariant]
    spec fn inv(self) -> bool {
        self.a_idx <= self.b_idx <= self.total
    }

    pub fn new(total: usize) -> (it: Self)
        ensures
            it@ == (Walk { front: 0, back: total as nat, total: total as nat }),
    {
        GradientColors { a_idx: 0, b_idx: total, total }
    }

    fn point(&self, i: usize) -> (p: SamplePoint)
        ensures
            p == point_of(i as nat, self@.total),
    {
        if self.total <= 1 {
            SamplePoint::Start
        } else {
            SamplePoint::Step { index: i, steps: self.total - 1 }
        }
    }

    /// The sample that is due at the front, if any is left.
    pub fn next(&mut self) -> (p: Option<SamplePoint>)
        ensures
            old(self)@.front <= old(self)@.back <= old(self)@.total,
            old(self)@.front == old(self)@.back ==> p is None && final(self)@ == old(self)@,
            old(self)@.front < old(self)@.back ==> p == Some(
                point_of(old(self)@.front, old(self)@.total),
            ) && final(self)@ == (Walk { front: old(self)@.front + 1, ..old(self)@ }),
    {
        proof {
            use_type_invariant(&*self);
        }
        if self.a_idx == self.b_idx {
            return None;
        }
        let i: usize = self.a_idx;
        let p: SamplePoint = self.point(i);
        self.a_idx = i + 1;
        Some(p)
    }

    /// The sample that is due at the back, if any is left.
    pub fn next_back(&mut self) -> (p: Option<SamplePoint>)
        ensures
            old(self)@.front <= old(self)@.back <= old(self)@.total,
            old(self)@.front == old(self)@.back ==> p is None && final(self)@ == old(self)@,
            old(self)@.front < old(self)@.back ==> p == Some(
                point_of((old(self)@.back - 1) as nat, old(self)@.total),
            ) && final(self)@ == (Walk { back: (old(self)@.back - 1) as nat, ..old(self)@ }),
    {
        proof {
            use_type_invariant(&*self);
        }
        if self.a_idx == self.b_idx {
            return None;
        }
        let i: usize = self.b_idx - 1;
        let p: SamplePoint = self.point(i);
        self.b_idx = i;
        Some(p)
    }

    /// How many samples are still due.
    pub fn len(&self) -> (n: usize)
        ensures
            self@.front <= self@.back <= self@.total,
            n == self@.back - self@.front,
    {
        proof {
            use_type_invariant(self);
        }
        self.b_idx - self.a_idx
    }
}

/// The stops on either side of a segment, as a spline over four points
/// asks for them. Where the segment is the first or the last, the point
/// beyond it is not a stop: it is a mirror image of the stop within.
#[derive(Clone, Copy, Debug, PartialEq, Eq, Structural)]
pub struct Window {
    /// The stop before the segment, if there is one.
    pub before: Option<usize>,
    /// The stop at which the segment begins.
    pub from: usize,
    /// The stop at which it ends.
    pub to: usize,
    /// The stop behind the segment, if there is one.
    pub after: Option<usize>,
}

pub open spec fn spec_window(segment: int, stops: int) -> Window {
    Window {
        before: if segment > 0 {
            Some((segment - 1) as usize)
        } else {
            None
        },
        from: segment as usize,
        to: (segment + 1) as usize,
        after: if segment + 2 < stops {
            Some((segment + 2) as usize)
        } else {
            None
        },
    }
}

/// The four points of the segment that begins at stop `segment`, among
/// `stops` stops.
pub fn window(segment: usize, stops: usize) -> (w: Window)
    requires
        segment + 1 < stops,
    ensures
        w == spec_window(segment as int, stops as int),
        w.before matches Some(i) ==> i < stops,
        w.after matches Some(i) ==> i < stops,
        w.from < stops,
        w.to < stops,
{
    Window {
        before: if segment > 0 {
            Some(segment - 1)
        } else {
            None
        },
        from: segment,
        to: segment + 1,
        after: if segment + 2 < stops {
            Some(segment + 2)
        } else {
            None
        },
    }
}

} // verus!
