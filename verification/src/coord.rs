//! Geographic positions and axis-aligned extents on an integer grid.

use vstd::prelude::*;

verus! {

/// A position in units of 10⁻⁷ degree, the resolution of the raw boundary data.
#[derive(Clone, Copy, Debug, PartialEq, Eq, Structural)]
pub struct Coord {
    pub lon: i32,
    pub lat: i32,
}

/// A closed axis-aligned rectangle: every position with
/// `min_lon <= lon <= max_lon` and `min_lat <= lat <= max_lat`.
#[derive(Clone, Copy, Debug, PartialEq, Eq, Structural)]
pub struct BoundingBox {
    pub min_lon: i32,
    pub min_lat: i32,
    pub max_lon: i32,
    pub max_lat: i32,
}

impl BoundingBox {
    /// The rectangle holds `p`, edges included.
    pub open spec fn holds(self, p: Coord) -> bool {
        &&& self.min_lon <= p.lon <= self.max_lon
        &&& self.min_lat <= p.lat <= self.max_lat
    }

    /// Every position of `inner` is a position of `self`.
    pub open spec fn encloses(self, inner: BoundingBox) -> bool {
        &&& self.min_lon <= inner.min_lon
        &&& inner.max_lon <= self.max_lon
        &&& self.min_lat <= inner.min_lat
        &&& inner.max_lat <= self.max_lat
    }

    /// The rectangle has at least one position.
    pub open spec fn inhabited(self) -> bool {
        self.min_lon <= self.max_lon && self.min_lat <= self.max_lat
    }

    /// The rectangle covers the whole grid.
    pub open spec fn is_world(self) -> bool {
        &&& self.min_lon == i32::MIN
        &&& self.min_lat == i32::MIN
        &&& self.max_lon == i32::MAX
        &&& self.max_lat == i32::MAX
    }

    /// The rectangle can be cut into four quadrants: it is more than one
    /// position wide and more than one high.
    pub open spec fn splittable(self) -> bool {
        self.min_lon < self.max_lon && self.min_lat < self.max_lat
    }

    /// The longitude at which the rectangle is cut: the western quadrants
    /// end there, the eastern ones begin just after it.
    pub open spec fn mid_lon(self) -> int {
        self.min_lon + (self.max_lon - self.min_lon) / 2
    }

    /// The latitude at which the rectangle is cut: the southern quadrants
    /// end there, the northern ones begin just after it.
    pub open spec fn mid_lat(self) -> int {
        self.min_lat + (self.max_lat - self.min_lat) / 2
    }

    /// The quadrant with the number `slot`: 0 south-west, 1 south-east,
    /// 2 north-west, 3 north-east. The four are disjoint and fill the
    /// rectangle.
    pub open spec fn quadrant(self, slot: int) -> BoundingBox {
        let east = slot == 1 || slot == 3;
        let north = slot == 2 || slot == 3;
        BoundingBox {
            min_lon: if east {
                (self.mid_lon() + 1) as i32
            } else {
                self.min_lon
            },
            max_lon: if east {
                self.max_lon
            } else {
                self.mid_lon() as i32
            },
            min_lat: if north {
                (self.mid_lat() + 1) as i32
            } else {
                self.min_lat
            },
            max_lat: if north {
                self.max_lat
            } else {
                self.mid_lat() as i32
            },
        }
    }

    /// The number of the quadrant on whose side of the cuts `p` lies.
    pub open spec fn quadrant_of(self, p: Coord) -> int {
        (if p.lon > self.mid_lon() {
            1int
        } else {
            0int
        }) + (if p.lat > self.mid_lat() {
            2int
        } else {
            0int
        })
    }

    /// The quadrants of a rectangle partition it: each is inhabited and lies
    /// in the rectangle, and a position of the rectangle lies in exactly the
    /// quadrant that [`Self::quadrant_of`] names.
    pub proof fn lemma_quadrants(self, slot: int, p: Coord)
        requires
            self.splittable(),
            0 <= slot < 4,
        ensures
            self.quadrant(slot).inhabited(),
            self.encloses(self.quadrant(slot)),
            self.quadrant(slot).holds(p) <==> self.holds(p) && self.quadrant_of(p) == slot,
    {
    }

    /// The rectangle that covers the whole grid.
    pub fn world() -> (bb: BoundingBox)
        ensures
            bb.is_world(),
    {
        BoundingBox { min_lon: i32::MIN, min_lat: i32::MIN, max_lon: i32::MAX, max_lat: i32::MAX }
    }

    /// The degenerate rectangle that holds `p` alone.
    pub fn at(p: Coord) -> (bb: BoundingBox)
        ensures
            bb == (BoundingBox { min_lon: p.lon, min_lat: p.lat, max_lon: p.lon, max_lat: p.lat }),
    {
        BoundingBox { min_lon: p.lon, min_lat: p.lat, max_lon: p.lon, max_lat: p.lat }
    }

    /// Whether the rectangle can be cut into four quadrants.
    pub fn can_split(&self) -> (r: bool)
        ensures
            r == self.splittable(),
    {
        self.min_lon < self.max_lon && self.min_lat < self.max_lat
    }

    /// The number of the quadrant on whose side of the cuts `p` lies.
    pub fn quadrant_index(&self, p: Coord) -> (slot: u8)
        requires
            self.inhabited(),
        ensures
            slot == self.quadrant_of(p),
            slot < 4,
    {
        let mid_lon: i64 = self.min_lon as i64 + (self.max_lon as i64 - self.min_lon as i64) / 2;
        let mid_lat: i64 = self.min_lat as i64 + (self.max_lat as i64 - self.min_lat as i64) / 2;
        let east: u8 = if p.lon as i64 > mid_lon {
            1
        } else {
            0
        };
        let north: u8 = if p.lat as i64 > mid_lat {
            2
        } else {
            0
        };
        east + north
    }

    /// The quadrant with the number `slot`.
    pub fn quadrant_box(&self, slot: u8) -> (bb: BoundingBox)
        requires
            self.splittable(),
            slot < 4,
        ensures
            bb == self.quadrant(slot as int),
    {
        let mid_lon: i64 = self.min_lon as i64 + (self.max_lon as i64 - self.min_lon as i64) / 2;
        let mid_lat: i64 = self.min_lat as i64 + (self.max_lat as i64 - self.min_lat as i64) / 2;
        let east = slot == 1 || slot == 3;
        let north = slot == 2 || slot == 3;
        BoundingBox {
            min_lon: if east {
                (mid_lon + 1) as i32
            } else {
                self.min_lon
            },
            max_lon: if east {
                self.max_lon
            } else {
                mid_lon as i32
            },
            min_lat: if north {
                (mid_lat + 1) as i32
            } else {
                self.min_lat
            },
            max_lat: if north {
                self.max_lat
            } else {
                mid_lat as i32
            },
        }
    }

    /// Whether `p` lies in the rectangle, edges included.
    pub fn contains(&self, p: Coord) -> (r: bool)
        ensures
            r == self.holds(p),
    {
        self.min_lon <= p.lon && p.lon <= self.max_lon && self.min_lat <= p.lat && p.lat
            <= self.max_lat
    }

    /// The smallest rectangle that holds both `self` and `p`.
    pub fn extended(&self, p: Coord) -> (bb: BoundingBox)
        ensures
            bb.min_lon == if p.lon < self.min_lon { p.lon } else { self.min_lon },
            bb.max_lon == if p.lon > self.max_lon { p.lon } else { self.max_lon },
            bb.min_lat == if p.lat < self.min_lat { p.lat } else { self.min_lat },
            bb.max_lat == if p.lat > self.max_lat { p.lat } else { self.max_lat },
    {
        BoundingBox {
            min_lon: if p.lon < self.min_lon { p.lon } else { self.min_lon },
            min_lat: if p.lat < self.min_lat { p.lat } else { self.min_lat },
            max_lon: if p.lon > self.max_lon { p.lon } else { self.max_lon },
            max_lat: if p.lat > self.max_lat { p.lat } else { self.max_lat },
        }
    }
}

} // verus!
