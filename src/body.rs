//! The two kinds of bodies: fixed planets and moving satellites.

use std::collections::VecDeque;
use vstd::prelude::*;
use crate::geometry::{COORD_MAX, VEL_MAX};

verus! {

/// A position on the plane.
#[derive(Clone, Copy, Debug, PartialEq, Eq, Structural)]
pub struct Point {
    pub x: i64,
    pub y: i64,
}

/// A display colour; the simulation never reads it.
#[derive(Clone, Copy, Debug, PartialEq, Eq, Structural)]
pub struct Color {
    pub r: u8,
    pub g: u8,
    pub b: u8,
}

/// A fixed attractor.
#[derive(Clone, Copy, Debug, PartialEq, Eq, Structural)]
pub struct Planet {
    pub x: i64,
    pub y: i64,
    pub mass: u32,
    pub radius: i64,
    pub color: Color,
}

pub open spec fn coord_ok(v: int) -> bool {
    -COORD_MAX <= v <= COORD_MAX
}

pub open spec fn vel_ok(v: int) -> bool {
    -VEL_MAX <= v <= VEL_MAX
}

impl Planet {
    pub open spec fn wf(&self) -> bool {
        coord_ok(self.x as int) && coord_ok(self.y as int) && 0 <= self.radius <= COORD_MAX
    }
}

/// A moving body with the trail of its recent positions, oldest first.
#[derive(Debug)]
pub struct Satellite {
    pub x: i64,
    pub y: i64,
    pub vx: i64,
    pub vy: i64,
    pub radius: i64,
    pub color: Color,
    pub dead: bool,
    pub trail: VecDeque<Point>,
}

/// What a satellite is, as a mathematical value.
pub struct SatelliteModel {
    pub x: int,
    pub y: int,
    pub vx: int,
    pub vy: int,
    pub radius: int,
    pub color: Color,
    pub dead: bool,
    pub trail: Seq<Point>,
}

impl SatelliteModel {
    /// Position, velocity and radius fit the fixed-point ranges.
    pub open spec fn motion_ok(&self) -> bool {
        &&& coord_ok(self.x)
        &&& coord_ok(self.y)
        &&& vel_ok(self.vx)
        &&& vel_ok(self.vy)
        &&& 0 <= self.radius <= COORD_MAX
    }

    /// In range, with a trail of at most `trail_length` positions.
    pub open spec fn wf(&self, trail_length: int) -> bool {
        &&& self.motion_ok()
        &&& self.trail.len() <= trail_length
    }
}

impl View for Satellite {
    type V = SatelliteModel;

    open spec fn view(&self) -> SatelliteModel {
        SatelliteModel {
            x: self.x as int,
            y: self.y as int,
            vx: self.vx as int,
            vy: self.vy as int,
            radius: self.radius as int,
            color: self.color,
            dead: self.dead,
            trail: self.trail@,
        }
    }
}

impl Satellite {
    /// A live satellite with an empty trail.
    pub fn new(x: i64, y: i64, vx: i64, vy: i64, radius: i64, color: Color) -> (s: Satellite)
        ensures
            s@ == (SatelliteModel {
                x: x as int,
                y: y as int,
                vx: vx as int,
                vy: vy as int,
                radius: radius as int,
                color,
                dead: false,
                trail: Seq::empty(),
            }),
    {
        Satellite { x, y, vx, vy, radius, color, dead: false, trail: VecDeque::new() }
    }

    /// The positions of the trail, oldest first.
    pub fn trail_points(&self) -> (r: Vec<Point>)
        ensures
            r@ == self.trail@,
    {
        let mut r: Vec<Point> = Vec::new();
        let n = self.trail.len();
        let mut i: usize = 0;
        while i < n
            invariant
                n == self.trail@.len(),
                i <= n,
                r@ == self.trail@.take(i as int),
            decreases n - i,
        {
            r.push(self.trail[i]);
            i = i + 1;
            assert(r@ =~= self.trail@.take(i as int));
        }
        assert(self.trail@.take(n as int) =~= self.trail@);
        r
    }
}

} // verus!
