//! Distance measurement between two world points: the endpoints of a
//! measure-tool gesture, their axis spans and squared distance in DBU, and the
//! technology resolution used to convert a distance to microns.
use vstd::prelude::*;
use crate::geom::{dist_sq, Point};

verus! {

/// A completed distance measurement between two world points.
#[derive(Clone, Copy, PartialEq, Eq, Debug, Structural)]
pub struct Measurement {
    /// The first (anchor) point, in DBU.
    pub start: Point,
    /// The second (release) point, in DBU.
    pub end: Point,
    /// Database units per micron, at least 1.
    dbu_per_micron: i64,
}

/// A measurement as plain values.
pub struct MeasurementModel {
    /// The anchor point.
    pub start: Point,
    /// The release point.
    pub end: Point,
    /// Database units per micron.
    pub resolution: int,
}

impl View for Measurement {
    type V = MeasurementModel;

    closed spec fn view(&self) -> MeasurementModel {
        MeasurementModel { start: self.start, end: self.end, resolution: self.dbu_per_micron as int }
    }
}

impl Measurement {
    /// Builds a measurement between `start` and `end`; a non-positive
    /// `dbu_per_micron` is taken as 1 so a micron conversion never divides by
    /// zero.
    pub fn new(start: Point, end: Point, dbu_per_micron: i64) -> (r: Measurement)
        ensures
            r@.start == start,
            r@.end == end,
            r@.resolution == (if dbu_per_micron >= 1 {
                dbu_per_micron as int
            } else {
                1
            }),
    {
        Measurement {
            start,
            end,
            dbu_per_micron: if dbu_per_micron >= 1 {
                dbu_per_micron
            } else {
                1
            },
        }
    }

    /// The signed horizontal span, `end.x - start.x`, in DBU.
    pub fn dx(&self) -> (r: i64)
        ensures
            r == self@.end.x - self@.start.x,
    {
        self.end.x as i64 - self.start.x as i64
    }

    /// The signed vertical span, `end.y - start.y`, in DBU.
    pub fn dy(&self) -> (r: i64)
        ensures
            r == self@.end.y - self@.start.y,
    {
        self.end.y as i64 - self.start.y as i64
    }

    /// The squared Euclidean distance between the two points, in DBU².
    pub fn distance_squared(&self) -> (r: i128)
        ensures
            r == dist_sq(self@.start, self@.end),
    {
        self.start.distance_squared(self.end)
    }

    /// Database units per micron, at least 1.
    pub fn dbu_per_micron(&self) -> (r: i64)
        ensures
            r == self@.resolution,
    {
        self.dbu_per_micron
    }
}

} // verus!
