//! The bounding box of a set of locations.

use vstd::prelude::*;
use crate::a_star::Path;
use crate::graph::{Location, OpenStreetMap};

verus! {

/// A box from its least corner `from` to its greatest corner `to`.
pub struct Bounds {
    pub from: Location,
    pub to: Location,
}

/// The box of no location at all: inverted, so that any location widens it.
pub open spec fn empty_bounds() -> Bounds {
    Bounds {
        from: Location { lat: i32::MAX, lon: i32::MAX },
        to: Location { lat: i32::MIN, lon: i32::MIN },
    }
}

pub open spec fn min(a: i32, b: i32) -> i32 {
    if a < b {
        a
    } else {
        b
    }
}

pub open spec fn max(a: i32, b: i32) -> i32 {
    if a > b {
        a
    } else {
        b
    }
}

/// `b` widened just enough to hold `p`.
pub open spec fn widened(b: Bounds, p: Location) -> Bounds {
    Bounds {
        from: Location { lat: min(b.from.lat, p.lat), lon: min(b.from.lon, p.lon) },
        to: Location { lat: max(b.to.lat, p.lat), lon: max(b.to.lon, p.lon) },
    }
}

/// The smallest box holding all of `points` (the empty box for none).
pub open spec fn bounds_of(points: Seq<Location>) -> Bounds
    decreases points.len(),
{
    if points.len() == 0 {
        empty_bounds()
    } else {
        widened(bounds_of(points.drop_last()), points.last())
    }
}

fn widen(b: Bounds, p: Location) -> (r: Bounds)
    ensures
        r == widened(b, p),
{
    Bounds {
        from: Location {
            lat: if p.lat < b.from.lat {
                p.lat
            } else {
                b.from.lat
            },
            lon: if p.lon < b.from.lon {
                p.lon
            } else {
                b.from.lon
            },
        },
        to: Location {
            lat: if p.lat > b.to.lat {
                p.lat
            } else {
                b.to.lat
            },
            lon: if p.lon > b.to.lon {
                p.lon
            } else {
                b.to.lon
            },
        },
    }
}

/// Things made of locations, whose bounding box can be taken.
pub trait Boundable {
    /// The locations, in order.
    spec fn points(&self) -> Seq<Location>;

    /// The locations can all be looked up.
    spec fn bounds_ready(&self) -> bool;

    /// The smallest box holding every location.
    fn get_bounds(&self) -> (r: Bounds)
        requires
            self.bounds_ready(),
        ensures
            r == bounds_of(self.points()),
    ;
}

impl Boundable for OpenStreetMap {
    open spec fn points(&self) -> Seq<Location> {
        self@.map_values(|n: (Location, Seq<u32>)| n.0)
    }

    open spec fn bounds_ready(&self) -> bool {
        self.wf()
    }

    fn get_bounds(&self) -> (r: Bounds) {
        let n = self.node_count();
        let mut b = Bounds {
            from: Location { lat: i32::MAX, lon: i32::MAX },
            to: Location { lat: i32::MIN, lon: i32::MIN },
        };
        let mut i: usize = 0;
        while i < n
            invariant
                self.wf(),
                n == self@.len(),
                0 <= i <= n,
                b == bounds_of(self.points().subrange(0, i as int)),
            decreases n - i,
        {
            let loc = self.get(i as u32).location;
            proof {
                assert(self.points().subrange(0, i + 1).drop_last() =~= self.points().subrange(0, i as int));
            }
            b = widen(b, loc);
            i = i + 1;
        }
        proof {
            assert(self.points().subrange(0, n as int) =~= self.points());
        }
        b
    }
}

impl<'a> Boundable for Path<'a> {
    open spec fn points(&self) -> Seq<Location> {
        self.ids@.map_values(|id: u32| self.parent_map@[id as int].0)
    }

    open spec fn bounds_ready(&self) -> bool {
        forall|i: int| 0 <= i < self.ids@.len() ==> (#[trigger] self.ids@[i] as int) < self.parent_map@.len()
    }

    fn get_bounds(&self) -> (r: Bounds) {
        let n = self.ids.len();
        let mut b = Bounds {
            from: Location { lat: i32::MAX, lon: i32::MAX },
            to: Location { lat: i32::MIN, lon: i32::MIN },
        };
        let mut i: usize = 0;
        while i < n
            invariant
                self.bounds_ready(),
                n == self.ids@.len(),
                0 <= i <= n,
                b == bounds_of(self.points().subrange(0, i as int)),
            decreases n - i,
        {
            let loc = self.parent_map.get(self.ids[i]).location;
            proof {
                assert(self.points().subrange(0, i + 1).drop_last() =~= self.points().subrange(0, i as int));
            }
            b = widen(b, loc);
            i = i + 1;
        }
        proof {
            assert(self.points().subrange(0, n as int) =~= self.points());
        }
        b
    }
}

} // verus!
