//! The in-memory history: an ordered sequence of points, append-only,
//! trimmed from the front when a bound is set and exceeded.

use vstd::prelude::*;
use crate::data::HistoryPoint;

verus! {

/// Rolling history of accepted readings. Bounded and unbounded histories
/// share this one type so callers do not special-case.
pub struct History {
    points: Vec<HistoryPoint>,
    bounded: bool,
}

impl History {
    /// The retained points, oldest first.
    pub closed spec fn view(self) -> Seq<HistoryPoint> {
        self.points@
    }

    /// Whether a bound is in force.
    pub closed spec fn is_bounded(self) -> bool {
        self.bounded
    }

    /// A bounded history never holds more than the fixed bound.
    pub open spec fn wf(self) -> bool {
        self.is_bounded() ==> self.view().len() <= crate::MAX_HISTORY_POINTS as int
    }

    /// An empty history; bounded exactly when the configuration does not ask
    /// for the whole log.
    pub fn new(load_all: bool) -> (r: History)
        ensures
            r.wf(),
            r@ == Seq::<HistoryPoint>::empty(),
            r.is_bounded() == !load_all,
    {
        History { points: Vec::new(), bounded: !load_all }
    }

    /// Wraps the points handed back by the startup loader.
    pub fn from_loaded(points: Vec<HistoryPoint>, load_all: bool) -> (r: History)
        requires
            !load_all ==> points@.len() <= crate::MAX_HISTORY_POINTS as int,
        ensures
            r.wf(),
            r@ == points@,
            r.is_bounded() == !load_all,
    {
        History { points, bounded: !load_all }
    }

    pub fn len(&self) -> (r: usize)
        ensures
            r == self@.len(),
    {
        self.points.len()
    }

    /// The number of oldest points a push evicts.
    pub open spec fn spec_evicted_on_push(self) -> int {
        if self.is_bounded() && self.view().len() >= crate::MAX_HISTORY_POINTS as int {
            self.view().len() - (crate::MAX_HISTORY_POINTS as int - 1)
        } else {
            0
        }
    }

    /// Appends one point, evicting the oldest points first when a bound is
    /// in force and already reached.
    pub fn push(&mut self, p: HistoryPoint)
        requires
            old(self).wf(),
        ensures
            final(self).wf(),
            final(self)@ == old(self)@.skip(old(self).spec_evicted_on_push()).push(p),
            final(self).is_bounded() == old(self).is_bounded(),
    {
        if self.bounded {
            while self.points.len() >= crate::MAX_HISTORY_POINTS
                invariant
                    self.bounded == old(self).bounded,
                    self.bounded,
                    old(self).points@.len() <= crate::MAX_HISTORY_POINTS as int,
                    self.points@ == old(self).points@
                        || (old(self).points@.len() == crate::MAX_HISTORY_POINTS as int
                            && self.points@.len() == crate::MAX_HISTORY_POINTS as int - 1
                            && self.points@ == old(self).points@.skip(1)),
                decreases self.points@.len(),
            {
                self.points.remove(0);
                proof {
                    assert(self.points@ =~= old(self).points@.skip(1));
                }
            }
        }
        self.points.push(p);
        proof {
            assert(self@ =~= old(self)@.skip(old(self).spec_evicted_on_push()).push(p));
        }
    }

    /// The most recent point, if any.
    pub fn latest(&self) -> (r: Option<&HistoryPoint>)
        ensures
            match r {
                Some(p) => self@.len() > 0 && *p == self@.last(),
                None => self@.len() == 0,
            },
    {
        if self.points.len() > 0 {
            Some(&self.points[self.points.len() - 1])
        } else {
            None
        }
    }

    /// The point at position `i`, oldest first.
    pub fn get(&self, i: usize) -> (r: &HistoryPoint)
        requires
            i < self@.len(),
        ensures
            *r == self@[i as int],
    {
        &self.points[i]
    }
}

} // verus!
