//! Positions in a text, as a row and a column counted in UTF-16 code units.

use std::ops::Range;

use vstd::prelude::*;

verus! {

/// A position in a text. Rows and columns count from zero; a column counts
/// UTF-16 code units from the start of its row.
#[derive(Clone, Copy, Debug, PartialEq, Eq, Structural, Ord, Hash)]
pub struct Point {
    pub row: u32,
    pub column: u32,
}

impl Point {
    /// Whether this position comes before `other` in reading order.
    pub open spec fn before(self, other: Point) -> bool {
        self.row < other.row || (self.row == other.row && self.column < other.column)
    }

    /// The earlier of two positions.
    pub open spec fn spec_min(self, other: Point) -> Point {
        if other.before(self) { other } else { self }
    }

    pub fn new(row: u32, column: u32) -> (point: Point)
        ensures
            point == (Point { row, column }),
    {
        Point { row, column }
    }

    pub fn zero() -> (point: Point)
        ensures
            point == (Point { row: 0, column: 0 }),
    {
        Point { row: 0, column: 0 }
    }
}

impl PartialOrd for Point {
    fn partial_cmp(&self, other: &Point) -> (result: Option<std::cmp::Ordering>) {
        if self.row < other.row {
            Some(std::cmp::Ordering::Less)
        } else if self.row > other.row {
            Some(std::cmp::Ordering::Greater)
        } else if self.column < other.column {
            Some(std::cmp::Ordering::Less)
        } else if self.column > other.column {
            Some(std::cmp::Ordering::Greater)
        } else {
            Some(std::cmp::Ordering::Equal)
        }
    }
}

impl vstd::std_specs::cmp::PartialOrdSpecImpl for Point {
    open spec fn obeys_partial_cmp_spec() -> bool {
        true
    }

    open spec fn partial_cmp_spec(&self, other: &Point) -> Option<std::cmp::Ordering> {
        if self.before(*other) {
            Some(std::cmp::Ordering::Less)
        } else if other.before(*self) {
            Some(std::cmp::Ordering::Greater)
        } else {
            Some(std::cmp::Ordering::Equal)
        }
    }
}

/// A copy of a list of ranges.
pub fn copy_ranges(ranges: &Vec<Range<Point>>) -> (copy: Vec<Range<Point>>)
    ensures
        copy@ == ranges@,
{
    let mut copy: Vec<Range<Point>> = Vec::new();
    let mut i: usize = 0;
    while i < ranges.len()
        invariant
            i <= ranges.len(),
            copy@ == ranges@.take(i as int),
        decreases ranges.len() - i,
    {
        copy.push(ranges[i].start..ranges[i].end);
        i += 1;
        assert(copy@ =~= ranges@.take(i as int));
    }
    assert(copy@ =~= ranges@);
    copy
}

/// Positions stand in reading order: by their rows, and in one row by their columns.
pub proof fn law_reading_order(first: Point, second: Point)
    ensures
        first.row < second.row ==> vstd::std_specs::cmp::PartialOrdSpec::partial_cmp_spec(
            &first,
            &second,
        ) == Some(std::cmp::Ordering::Less),
        first.row == second.row && first.column < second.column
            ==> vstd::std_specs::cmp::PartialOrdSpec::partial_cmp_spec(&first, &second) == Some(
            std::cmp::Ordering::Less,
        ),
        first.row > second.row ==> vstd::std_specs::cmp::PartialOrdSpec::partial_cmp_spec(
            &first,
            &second,
        ) == Some(std::cmp::Ordering::Greater),
        first.row == second.row && first.column > second.column
            ==> vstd::std_specs::cmp::PartialOrdSpec::partial_cmp_spec(&first, &second) == Some(
            std::cmp::Ordering::Greater,
        ),
        first == second ==> vstd::std_specs::cmp::PartialOrdSpec::partial_cmp_spec(
            &first,
            &second,
        ) == Some(std::cmp::Ordering::Equal),
{
}

} // verus!
