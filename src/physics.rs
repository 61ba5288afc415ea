//! One tick of motion for a single satellite: the pull of every planet, the
//! move, the exit tests and the trail.

use vstd::prelude::*;
use crate::body::{coord_ok, vel_ok, Planet, Point, Satellite, SatelliteModel};
use crate::geometry::{
    clamp, discs_overlap, floor_sqrt, is_floor_sqrt, is_outside, isqrt, outside,
    overlap, tdiv, COORD_MAX, TICKS_PER_SECOND, VEL_MAX,
};

verus! {

/// The parameters that govern motion and the trail.
#[derive(Clone, Copy, Debug, PartialEq, Eq, Structural)]
pub struct Config {
    pub width: i64,
    pub height: i64,
    /// Chance, in parts per million, that a tick brings a new satellite.
    pub spawn_chance: u32,
    pub sat_radius: i64,
    pub sat_speed: i64,
    pub gravity: u32,
    pub trail_length: usize,
}

impl Config {
    pub open spec fn wf(&self) -> bool {
        &&& 0 <= self.width <= COORD_MAX
        &&& 0 <= self.height <= COORD_MAX
        &&& 0 <= self.sat_radius <= COORD_MAX
        &&& 0 <= self.sat_speed <= VEL_MAX
    }
}

/// The change of one velocity component that a planet causes: the impulse
/// `gmd / dist_sq` (with `gmd` the product of gravity, mass and time step),
/// along the unit vector from the planet to the satellite, reversed. A
/// satellite at the very centre of a planet feels no pull from it.
pub open spec fn impulse(gmd: int, d: int, dist_sq: int) -> int {
    if dist_sq == 0 {
        0
    } else {
        -tdiv(gmd * d, dist_sq * isqrt(dist_sq) * TICKS_PER_SECOND)
    }
}

pub open spec fn dist_sq(x: int, y: int, p: Planet) -> int {
    (x - p.x) * (x - p.x) + (y - p.y) * (y - p.y)
}

/// The velocity of `s` once the planets of `planets` have pulled on it, in
/// order, each addition clamped to the velocity range.
pub open spec fn pulled(s: SatelliteModel, planets: Seq<Planet>, gravity: int, dt: int) -> (int, int)
    decreases planets.len(),
{
    if planets.len() == 0 {
        (s.vx, s.vy)
    } else {
        let v = pulled(s, planets.drop_last(), gravity, dt);
        let p = planets.last();
        let gmd = gravity * p.mass * dt;
        let dsq = dist_sq(s.x, s.y, p);
        (
            clamp(v.0 + impulse(gmd, s.x - p.x, dsq), VEL_MAX as int),
            clamp(v.1 + impulse(gmd, s.y - p.y, dsq), VEL_MAX as int),
        )
    }
}

/// A body of radius `r` at `(x, y)` overlaps some planet.
pub open spec fn hits_planet(x: int, y: int, r: int, planets: Seq<Planet>) -> bool {
    exists|i: int|
        0 <= i < planets.len() && #[trigger] discs_overlap(
            x,
            y,
            r,
            planets[i].x as int,
            planets[i].y as int,
            planets[i].radius as int,
        )
}

/// The trail without its oldest entry, if it has one.
pub open spec fn pop_oldest(t: Seq<Point>) -> Seq<Point> {
    if t.len() == 0 {
        t
    } else {
        t.subrange(1, t.len() as int)
    }
}

/// One coordinate after a move at velocity `v` for `dt` microseconds.
pub open spec fn moved(c: int, v: int, dt: int) -> int {
    clamp(c + tdiv(v * dt, TICKS_PER_SECOND as int), COORD_MAX as int)
}

/// A satellite after one tick.
///
/// A dead one stays where it is and loses the oldest entry of its trail. A
/// live one is pulled by every planet, moves, and dies if its body is then
/// wholly outside the viewport or overlaps a planet. If it is still alive it
/// records its new position; its trail then loses the oldest entry if it has
/// grown beyond `trail_length`, or in any case once it has died.
pub open spec fn advance_one(s: SatelliteModel, planets: Seq<Planet>, cfg: Config, dt: int) -> SatelliteModel {
    if s.dead {
        SatelliteModel {
            x: s.x,
            y: s.y,
            vx: s.vx,
            vy: s.vy,
            radius: s.radius,
            color: s.color,
            dead: true,
            trail: pop_oldest(s.trail),
        }
    } else {
        let v = pulled(s, planets, cfg.gravity as int, dt);
        let x = moved(s.x, v.0, dt);
        let y = moved(s.y, v.1, dt);
        let dead = is_outside(x, y, s.radius, cfg.width as int, cfg.height as int)
            || hits_planet(x, y, s.radius, planets);
        let pushed = if dead {
            s.trail
        } else {
            s.trail.push(Point { x: x as i64, y: y as i64 })
        };
        let trail = if dead || pushed.len() > cfg.trail_length {
            pop_oldest(pushed)
        } else {
            pushed
        };
        SatelliteModel { x, y, vx: v.0, vy: v.1, radius: s.radius, color: s.color, dead, trail }
    }
}

pub open spec fn planets_wf(planets: Seq<Planet>) -> bool {
    forall|i: int| 0 <= i < planets.len() ==> #[trigger] planets[i].wf()
}

proof fn lemma_mul_bound(a: int, b: int, am: int, bm: int)
    requires
        0 <= a <= am,
        0 <= b <= bm,
    ensures
        0 <= a * b <= am * bm,
{
    assert(0 <= a * b <= am * bm) by (nonlinear_arith)
        requires
            0 <= a <= am,
            0 <= b <= bm,
    ;
}

/// The impulse of one planet on one velocity component.
fn planet_impulse(gmd: u128, d: i64, dsq: u128) -> (r: i128)
    requires
        gmd < 0x1_0000_0000_0000_0000_0000_0000,
        -0x8000_0000 <= d <= 0x8000_0000,
        d * d <= dsq <= 0x8000_0000_0000_0000,
    ensures
        r == impulse(gmd as int, d as int, dsq as int),
        -0x8000_0000_0000_0000_0000_0000_0000_0000 < r < 0x8000_0000_0000_0000_0000_0000_0000_0000,
{
    if dsq == 0 {
        return 0;
    }
    let dist = floor_sqrt(dsq);
    let mag: u128 = if d >= 0 { d as u128 } else { (-(d as i128)) as u128 };
    proof {
        assert(is_floor_sqrt(dist as int, dsq as int));
        assert(dist >= 1) by (nonlinear_arith)
            requires
                dsq >= 1,
                dsq < (dist + 1) * (dist + 1),
                dist >= 0,
        ;
        lemma_mul_bound(gmd as int, mag as int, 0xFFFF_FFFF_FFFF_FFFF_FFFF_FFFF, 0x8000_0000);
        lemma_mul_bound(dsq as int, dist as int, 0x8000_0000_0000_0000, 0x1_0000_0000);
        lemma_mul_bound(
            (dsq * dist) as int,
            TICKS_PER_SECOND as int,
            0x8000_0000_0000_0000_0000_0000,
            TICKS_PER_SECOND as int,
        );
        assert((dsq * dist) * TICKS_PER_SECOND >= 1) by (nonlinear_arith)
            requires
                dsq >= 1,
                dist >= 1,
        ;
    }
    let num: u128 = gmd * mag;
    let den: u128 = dsq * (dist as u128) * (TICKS_PER_SECOND as u128);
    let q: u128 = num / den;
    proof {
        vstd::arithmetic::div_mod::lemma_div_is_ordered_by_denominator(num as int, 1, den as int);
        vstd::arithmetic::div_mod::lemma_div_basics(num as int);
        assert(q <= num);
        if d >= 0 {
            assert(gmd * d == num) by (nonlinear_arith)
                requires
                    mag == d,
                    num == gmd * mag,
            ;
            assert(gmd * d >= 0) by (nonlinear_arith)
                requires
                    d >= 0,
            ;
        } else {
            assert(-(gmd * d) == num) by (nonlinear_arith)
                requires
                    mag == -d,
                    num == gmd * mag,
            ;
        }
    }
    if d >= 0 {
        -(q as i128)
    } else if q == 0 {
        0
    } else {
        q as i128
    }
}

/// `v + imp`, clamped to the velocity range.
fn add_clamped(v: i64, imp: i128) -> (r: i64)
    requires
        vel_ok(v as int),
        -0x8000_0000_0000_0000_0000_0000_0000_0000 < imp < 0x8000_0000_0000_0000_0000_0000_0000_0000,
    ensures
        r == clamp(v + imp, VEL_MAX as int),
{
    if imp > 2 * VEL_MAX as i128 {
        VEL_MAX
    } else if imp < -2 * VEL_MAX as i128 {
        -VEL_MAX
    } else {
        let w: i128 = v as i128 + imp;
        if w > VEL_MAX as i128 {
            VEL_MAX
        } else if w < -VEL_MAX as i128 {
            -VEL_MAX
        } else {
            w as i64
        }
    }
}

/// One coordinate after a move at velocity `v` for `dt` microseconds.
fn move_coord(c: i64, v: i64, dt: u32) -> (r: i64)
    requires
        coord_ok(c as int),
        vel_ok(v as int),
    ensures
        r == moved(c as int, v as int, dt as int),
        coord_ok(r as int),
{
    let mag: u128 = if v >= 0 { v as u128 } else { (-(v as i128)) as u128 };
    proof {
        lemma_mul_bound(mag as int, dt as int, VEL_MAX as int, 0xFFFF_FFFF);
    }
    let prod: u128 = mag * (dt as u128);
    let q: u128 = prod / (TICKS_PER_SECOND as u128);
    proof {
        vstd::arithmetic::div_mod::lemma_div_is_ordered_by_denominator(prod as int, 1, TICKS_PER_SECOND as int);
        vstd::arithmetic::div_mod::lemma_div_basics(prod as int);
        if v >= 0 {
            assert(v * dt == prod && v * dt >= 0) by (nonlinear_arith)
                requires
                    mag == v,
                    prod == mag * dt,
                    v >= 0,
            ;
        } else {
            assert(-(v * dt) == prod && (v * dt < 0 || prod == 0)) by (nonlinear_arith)
                requires
                    mag == -v,
                    prod == mag * dt,
                    v < 0,
            ;
        }
    }
    let step: i128 = if v >= 0 { q as i128 } else { -(q as i128) };
    let w: i128 = c as i128 + step;
    if w > COORD_MAX as i128 {
        COORD_MAX
    } else if w < -COORD_MAX as i128 {
        -COORD_MAX
    } else {
        w as i64
    }
}

/// Every planet pulls on the satellite's velocity, in order.
fn pull(s: &mut Satellite, planets: &Vec<Planet>, gravity: u32, dt: u32)
    requires
        old(s)@.motion_ok(),
        planets_wf(planets@),
    ensures
        (final(s)@.vx, final(s)@.vy) == pulled(old(s)@, planets@, gravity as int, dt as int),
        final(s)@.motion_ok(),
        final(s).x == old(s).x,
        final(s).y == old(s).y,
        final(s).radius == old(s).radius,
        final(s).color == old(s).color,
        final(s).dead == old(s).dead,
        final(s).trail == old(s).trail,
{
    let ghost s0 = s@;
    let n = planets.len();
    let mut i: usize = 0;
    while i < n
        invariant
            n == planets@.len(),
            i <= n,
            planets_wf(planets@),
            s0 == old(s)@,
            s.x == old(s).x,
            s.y == old(s).y,
            s.radius == old(s).radius,
            s.color == old(s).color,
            s.dead == old(s).dead,
            s.trail == old(s).trail,
            s@.motion_ok(),
            (s.vx as int, s.vy as int) == pulled(s0, planets@.take(i as int), gravity as int, dt as int),
        decreases n - i,
    {
        let p = planets[i];
        assert(p.wf());
        let dx: i64 = s.x - p.x;
        let dy: i64 = s.y - p.y;
        proof {
            lemma_mul_bound(gravity as int, p.mass as int, 0xFFFF_FFFF, 0xFFFF_FFFF);
            lemma_mul_bound((gravity * p.mass) as int, dt as int, 0xFFFF_FFFE_0000_0001, 0xFFFF_FFFF);
        }
        let gmd: u128 = (gravity as u128) * (p.mass as u128) * (dt as u128);
        proof {
            assert(0 <= dx * dx <= 0x4000_0000_0000_0000) by (nonlinear_arith)
                requires
                    -0x8000_0000 <= dx <= 0x8000_0000,
            ;
            assert(0 <= dy * dy <= 0x4000_0000_0000_0000) by (nonlinear_arith)
                requires
                    -0x8000_0000 <= dy <= 0x8000_0000,
            ;
        }
        let dsq_x: u128 = (dx as i128 * dx as i128) as u128;
        let dsq_y: u128 = (dy as i128 * dy as i128) as u128;
        let dsq: u128 = dsq_x + dsq_y;
        let ix = planet_impulse(gmd, dx, dsq);
        let iy = planet_impulse(gmd, dy, dsq);
        s.vx = add_clamped(s.vx, ix);
        s.vy = add_clamped(s.vy, iy);
        proof {
            let t = planets@.take(i as int + 1);
            assert(t.drop_last() =~= planets@.take(i as int));
            assert(t.last() == p);
        }
        i = i + 1;
    }
    assert(planets@.take(n as int) =~= planets@);
}

/// The body at `(x, y)` overlaps one of the planets.
fn hits_any(x: i64, y: i64, radius: i64, planets: &Vec<Planet>) -> (r: bool)
    requires
        coord_ok(x as int),
        coord_ok(y as int),
        0 <= radius <= COORD_MAX,
        planets_wf(planets@),
    ensures
        r == hits_planet(x as int, y as int, radius as int, planets@),
{
    let n = planets.len();
    let mut i: usize = 0;
    while i < n
        invariant
            n == planets@.len(),
            i <= n,
            planets_wf(planets@),
            coord_ok(x as int),
            coord_ok(y as int),
            0 <= radius <= COORD_MAX,
            forall|j: int|
                0 <= j < i ==> !#[trigger] discs_overlap(
                    x as int,
                    y as int,
                    radius as int,
                    planets@[j].x as int,
                    planets@[j].y as int,
                    planets@[j].radius as int,
                ),
        decreases n - i,
    {
        let p = planets[i];
        assert(p.wf());
        if overlap(x, y, radius, p.x, p.y, p.radius) {
            return true;
        }
        i = i + 1;
    }
    false
}

impl Satellite {
    /// Advances the satellite by one tick of `dt` microseconds.
    pub fn advance(&mut self, planets: &Vec<Planet>, cfg: &Config, dt: u32)
        requires
            old(self)@.wf(cfg.trail_length as int),
            planets_wf(planets@),
            cfg.wf(),
        ensures
            final(self)@ == advance_one(old(self)@, planets@, *cfg, dt as int),
            final(self)@.wf(cfg.trail_length as int),
    {
        if self.dead {
            let _ = self.trail.pop_front();
            return;
        }
        let ghost s0 = self@;
        pull(self, planets, cfg.gravity, dt);
        self.x = move_coord(self.x, self.vx, dt);
        self.y = move_coord(self.y, self.vy, dt);
        self.dead = outside(self.x, self.y, self.radius, cfg.width, cfg.height)
            || hits_any(self.x, self.y, self.radius, planets);
        if !self.dead {
            self.trail.push_back(Point { x: self.x, y: self.y });
        }
        if self.dead || self.trail.len() > cfg.trail_length {
            let _ = self.trail.pop_front();
        }
        proof {
            let m = advance_one(s0, planets@, *cfg, dt as int);
            assert(self@.trail =~= m.trail);
            assert(self@ == m);
        }
    }
}

} // verus!
