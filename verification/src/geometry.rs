//! The canonical point model: the one record every reader produces and
//! every writer consumes.

use vstd::prelude::*;
use crate::text::is_trimmed;

verus! {

/// A surveyed point.
///
/// Coordinates are fixed-point ticks (see `numeric::SCALE`): `east` and
/// `north` locate the point, `elev` is its height.  `name` is the point
/// identifier; empty means unnamed.  `code` is the classification tag
/// that doubles as a drawing layer name; empty means no layer.
pub struct Point {
    pub east: i64,
    pub north: i64,
    pub elev: i64,
    pub name: String,
    pub code: String,
}

/// The mathematical value of a point.
pub ghost struct PointV {
    pub east: int,
    pub north: int,
    pub elev: int,
    pub name: Seq<char>,
    pub code: Seq<char>,
}

impl View for Point {
    type V = PointV;

    open spec fn view(&self) -> PointV {
        PointV {
            east: self.east as int,
            north: self.north as int,
            elev: self.elev as int,
            name: self.name@,
            code: self.code@,
        }
    }
}

impl DeepView for Point {
    type V = PointV;

    open spec fn deep_view(&self) -> PointV {
        self.view()
    }
}

impl PointV {
    /// Every reader hands out points whose name and code carry no
    /// surrounding whitespace.
    pub open spec fn wf(self) -> bool {
        is_trimmed(self.name) && is_trimmed(self.code)
    }
}

/// An empty filter set admits every code; a non-empty one admits
/// exactly the codes it contains.
pub open spec fn passes_filter(filters: Seq<Seq<char>>, code: Seq<char>) -> bool {
    filters.len() == 0 || filters.contains(code)
}

impl Clone for Point {
    fn clone(&self) -> (r: Self)
        ensures
            r == *self,
    {
        Point {
            east: self.east,
            north: self.north,
            elev: self.elev,
            name: self.name.clone(),
            code: self.code.clone(),
        }
    }
}

} // verus!
