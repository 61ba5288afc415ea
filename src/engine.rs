//! The simulation: planets, the live satellites, the spawn policy and the
//! tick that advances them all and purges the drained ones.

use vstd::prelude::*;
use crate::body::{Color, Planet, Satellite, SatelliteModel};
use crate::geometry::{floor_sqrt, isqrt, lemma_isqrt_exists, VEL_MAX};
use crate::physics::{advance_one, planets_wf, Config};

verus! {

/// Relies on rand::random: a value drawn from the thread-local generator.
/// Nothing is known of which value comes.
pub assume_specification<T>[ rand::random::<T> ]() -> (r: T)
    where
        rand::distributions::Standard: rand::distributions::Distribution<T>,
;

/// The random values one tick's spawn decision is made from.
#[derive(Clone, Copy, Debug, PartialEq, Eq, Structural)]
pub struct SpawnDraws {
    pub chance: u32,
    pub x: u32,
    pub y: u32,
    pub heading_x: u32,
    pub heading_y: u32,
    pub color: Color,
}

/// Parts per million: the unit of `Config::spawn_chance`.
pub const CHANCE_SCALE: u32 = 1000000;

/// Half the side of the square that headings are drawn from.
pub const HEADING_SPAN: u32 = 1000;

/// How many headings `App::update` draws at most while looking for one in
/// the ring.
pub const HEADING_TRIES: u32 = 64;

/// A new satellite comes this tick.
pub open spec fn spawns(cfg: Config, d: SpawnDraws) -> bool {
    d.chance % CHANCE_SCALE < cfg.spawn_chance
}

/// A draw spread over `[0, extent)`, or 0 for an empty extent.
pub open spec fn spread(draw: int, extent: int) -> int {
    if extent <= 0 {
        0
    } else {
        draw % extent
    }
}

/// One component of a heading, in `[-HEADING_SPAN, HEADING_SPAN]`.
pub open spec fn heading(draw: int) -> int {
    draw % (2 * HEADING_SPAN + 1) - HEADING_SPAN
}

/// `m` with the sign of `h`.
pub open spec fn signed_like(h: int, m: int) -> int {
    if h < 0 {
        -m
    } else {
        m
    }
}

/// The initial velocity: `speed` along the heading `(hx, hy)`, or along the
/// x axis for the zero heading. Each component is `speed * h / |h|` with its
/// square rounded down before the root, so that the magnitude stays within
/// rounding of `speed` (see `lemma_launch_speed`).
pub open spec fn launch(speed: int, hx: int, hy: int) -> (int, int) {
    let n2 = hx * hx + hy * hy;
    if n2 == 0 {
        (speed, 0)
    } else {
        (
            signed_like(hx, isqrt(speed * speed * (hx * hx) / n2)),
            signed_like(hy, isqrt(speed * speed * (hy * hy) / n2)),
        )
    }
}

/// The launch velocity has the requested speed, up to rounding: its
/// squared magnitude is at most `speed^2` and above `(speed - 2)^2 - 8`.
pub proof fn lemma_launch_speed(speed: int, hx: int, hy: int)
    requires
        speed >= 0,
    ensures
        ({
            let v = launch(speed, hx, hy);
            &&& v.0 * v.0 + v.1 * v.1 <= speed * speed
            &&& v.0 * v.0 + v.1 * v.1 + 4 * speed + 4 > speed * speed
            &&& -speed <= v.0 <= speed
            &&& -speed <= v.1 <= speed
        }),
{
    let hx2 = hx * hx;
    let hy2 = hy * hy;
    let n2 = hx2 + hy2;
    let sq = speed * speed;
    assert(hx2 >= 0 && hy2 >= 0 && sq >= 0) by (nonlinear_arith)
        requires
            hx2 == hx * hx,
            hy2 == hy * hy,
            sq == speed * speed,
    ;
    if n2 == 0 {
        return;
    }
    let a_num = sq * hx2;
    let b_num = sq * hy2;
    assert(a_num >= 0 && b_num >= 0 && a_num + b_num == sq * n2) by (nonlinear_arith)
        requires
            hx2 >= 0,
            hy2 >= 0,
            sq >= 0,
            a_num == sq * hx2,
            b_num == sq * hy2,
            n2 == hx2 + hy2,
    ;
    let qa = a_num / n2;
    let qb = b_num / n2;
    vstd::arithmetic::div_mod::lemma_fundamental_div_mod(a_num, n2);
    vstd::arithmetic::div_mod::lemma_fundamental_div_mod(b_num, n2);
    vstd::arithmetic::div_mod::lemma_mod_bound(a_num, n2);
    vstd::arithmetic::div_mod::lemma_mod_bound(b_num, n2);
    let ra = a_num % n2;
    let rb = b_num % n2;
    let k = qa + qb - sq;
    assert(n2 * k == -(ra + rb)) by (nonlinear_arith)
        requires
            a_num == n2 * qa + ra,
            b_num == n2 * qb + rb,
            a_num + b_num == sq * n2,
            k == qa + qb - sq,
    ;
    if k >= 1 {
        assert(n2 * k >= n2) by (nonlinear_arith)
            requires
                k >= 1,
                n2 > 0,
        ;
    }
    if k <= -2 {
        assert(n2 * k <= -2 * n2) by (nonlinear_arith)
            requires
                k <= -2,
                n2 > 0,
        ;
    }
    assert(qa >= 0 && qb >= 0) by (nonlinear_arith)
        requires
            a_num >= 0,
            b_num >= 0,
            n2 > 0,
            a_num == n2 * qa + ra,
            b_num == n2 * qb + rb,
            ra < n2,
            rb < n2,
    ;
    let a = isqrt(qa);
    let b = isqrt(qb);
    lemma_isqrt_exists(qa);
    lemma_isqrt_exists(qb);
    assert(a <= speed && b <= speed) by (nonlinear_arith)
        requires
            a >= 0,
            b >= 0,
            speed >= 0,
            a * a + b * b <= speed * speed,
    ;
    let v = launch(speed, hx, hy);
    assert(v.0 * v.0 == a * a && v.1 * v.1 == b * b) by (nonlinear_arith)
        requires
            v.0 == a || v.0 == -a,
            v.1 == b || v.1 == -b,
    ;
    assert(a * a + b * b + 4 * speed + 4 > sq) by (nonlinear_arith)
        requires
            qa < (a + 1) * (a + 1),
            qb < (b + 1) * (b + 1),
            qa + qb >= sq - 1,
            0 <= a <= speed,
            0 <= b <= speed,
    ;
}

/// A heading in the ring between half the span and the span: such
/// headings point in every direction about equally often.
pub open spec fn in_ring(hx: int, hy: int) -> bool {
    let n2 = hx * hx + hy * hy;
    HEADING_SPAN * HEADING_SPAN <= 4 * n2 && n2 <= HEADING_SPAN * HEADING_SPAN
}

/// The heading that two draws give lies in the ring.
pub fn heading_in_ring(draw_x: u32, draw_y: u32) -> (r: bool)
    ensures
        r == in_ring(heading(draw_x as int), heading(draw_y as int)),
{
    let hx: i64 = (draw_x % (2 * HEADING_SPAN + 1)) as i64 - HEADING_SPAN as i64;
    let hy: i64 = (draw_y % (2 * HEADING_SPAN + 1)) as i64 - HEADING_SPAN as i64;
    assert(0 <= hx * hx <= 1000000 && 0 <= hy * hy <= 1000000) by (nonlinear_arith)
        requires
            -1000 <= hx <= 1000,
            -1000 <= hy <= 1000,
    ;
    let n2: i64 = hx * hx + hy * hy;
    let span: i64 = HEADING_SPAN as i64;
    span * span <= 4 * n2 && n2 <= span * span
}

/// The satellite that the draws would bring: somewhere in the viewport, at
/// the configured speed along the drawn heading, alive, with an empty trail.
pub open spec fn newcomer(cfg: Config, d: SpawnDraws) -> SatelliteModel {
    let v = launch(cfg.sat_speed as int, heading(d.heading_x as int), heading(d.heading_y as int));
    SatelliteModel {
        x: spread(d.x as int, cfg.width as int),
        y: spread(d.y as int, cfg.height as int),
        vx: v.0,
        vy: v.1,
        radius: cfg.sat_radius as int,
        color: d.color,
        dead: false,
        trail: Seq::empty(),
    }
}

/// The satellites that a tick with these draws adds: the newcomer, if the
/// chance draw falls below the spawn chance.
pub open spec fn spawned(cfg: Config, d: SpawnDraws) -> Seq<SatelliteModel> {
    if spawns(cfg, d) {
        seq![newcomer(cfg, d)]
    } else {
        Seq::empty()
    }
}

/// A satellite is purged once it is dead and its trail has drained.
pub open spec fn is_kept(s: SatelliteModel) -> bool {
    !(s.dead && s.trail.len() == 0)
}

/// Every satellite advanced by one tick, the drained ones left out, the
/// others in their order.
pub open spec fn advance_all(
    sats: Seq<SatelliteModel>,
    planets: Seq<Planet>,
    cfg: Config,
    dt: int,
) -> Seq<SatelliteModel> {
    sats.map_values(|s: SatelliteModel| advance_one(s, planets, cfg, dt)).filter(
        |s: SatelliteModel| is_kept(s),
    )
}

pub open spec fn models(v: Seq<Satellite>) -> Seq<SatelliteModel> {
    v.map_values(|s: Satellite| s@)
}

/// The initial velocity along a drawn heading.
pub fn launch_velocity(speed: i64, hx: i64, hy: i64) -> (r: (i64, i64))
    requires
        0 <= speed <= VEL_MAX,
        -(HEADING_SPAN as int) <= hx <= HEADING_SPAN,
        -(HEADING_SPAN as int) <= hy <= HEADING_SPAN,
    ensures
        (r.0 as int, r.1 as int) == launch(speed as int, hx as int, hy as int),
        r.0 * r.0 + r.1 * r.1 <= speed * speed,
        r.0 * r.0 + r.1 * r.1 + 4 * speed + 4 > speed * speed,
        -speed <= r.0 <= speed,
        -speed <= r.1 <= speed,
{
    proof {
        lemma_launch_speed(speed as int, hx as int, hy as int);
        assert(0 <= hx * hx <= 1000000 && 0 <= hy * hy <= 1000000) by (nonlinear_arith)
            requires
                -1000 <= hx <= 1000,
                -1000 <= hy <= 1000,
        ;
        assert(0 <= speed * speed <= 0x1_0000_0000_0000_0000_0000) by (nonlinear_arith)
            requires
                0 <= speed <= 0x100_0000_0000,
        ;
    }
    let hx2: u128 = (hx * hx) as u128;
    let hy2: u128 = (hy * hy) as u128;
    let n2: u128 = hx2 + hy2;
    if n2 == 0 {
        return (speed, 0);
    }
    let sq: u128 = (speed as u128) * (speed as u128);
    proof {
        assert(sq * hx2 <= 0x1_0000_0000_0000_0000_0000 * 1000000 && sq * hy2
            <= 0x1_0000_0000_0000_0000_0000 * 1000000) by (nonlinear_arith)
            requires
                sq <= 0x1_0000_0000_0000_0000_0000,
                hx2 <= 1000000,
                hy2 <= 1000000,
        ;
    }
    let qa: u128 = sq * hx2 / n2;
    let qb: u128 = sq * hy2 / n2;
    proof {
        vstd::arithmetic::div_mod::lemma_div_is_ordered_by_denominator((sq * hx2) as int, 1, n2 as int);
        vstd::arithmetic::div_mod::lemma_div_is_ordered_by_denominator((sq * hy2) as int, 1, n2 as int);
        vstd::arithmetic::div_mod::lemma_div_basics((sq * hx2) as int);
        vstd::arithmetic::div_mod::lemma_div_basics((sq * hy2) as int);
    }
    let a = floor_sqrt(qa);
    let b = floor_sqrt(qb);
    let vx: i64 = if hx < 0 { -(a as i64) } else { a as i64 };
    let vy: i64 = if hy < 0 { -(b as i64) } else { b as i64 };
    (vx, vy)
}

/// The satellite that the draws bring under the spawn policy, if any.
pub fn spawn(cfg: &Config, d: &SpawnDraws) -> (r: Option<Satellite>)
    requires
        cfg.wf(),
    ensures
        r.is_some() == spawns(*cfg, *d),
        r is Some ==> r->Some_0@ == newcomer(*cfg, *d),
        r is Some ==> r->Some_0@.wf(cfg.trail_length as int),
        r is Some ==> r->Some_0.vx * r->Some_0.vx + r->Some_0.vy * r->Some_0.vy <= cfg.sat_speed
            * cfg.sat_speed,
        r is Some ==> r->Some_0.vx * r->Some_0.vx + r->Some_0.vy * r->Some_0.vy + 4 * cfg.sat_speed
            + 4 > cfg.sat_speed * cfg.sat_speed,
{
    if d.chance % CHANCE_SCALE >= cfg.spawn_chance {
        return None;
    }
    let x: i64 = if cfg.width <= 0 { 0 } else { (d.x as i64) % cfg.width };
    let y: i64 = if cfg.height <= 0 { 0 } else { (d.y as i64) % cfg.height };
    let hx: i64 = (d.heading_x % (2 * HEADING_SPAN + 1)) as i64 - HEADING_SPAN as i64;
    let hy: i64 = (d.heading_y % (2 * HEADING_SPAN + 1)) as i64 - HEADING_SPAN as i64;
    let v = launch_velocity(cfg.sat_speed, hx, hy);
    let s = Satellite::new(x, y, v.0, v.1, cfg.sat_radius, d.color);
    Some(s)
}

/// The simulation state: the planets, the satellites still shown, and the
/// configuration.
#[derive(Debug)]
pub struct App {
    pub planets: Vec<Planet>,
    pub satellites: Vec<Satellite>,
    pub config: Config,
}

proof fn lemma_advance_all_push(
    sats: Seq<SatelliteModel>,
    s: SatelliteModel,
    planets: Seq<Planet>,
    cfg: Config,
    dt: int,
)
    ensures
        advance_all(sats.push(s), planets, cfg, dt) == if is_kept(advance_one(s, planets, cfg, dt)) {
            advance_all(sats, planets, cfg, dt).push(advance_one(s, planets, cfg, dt))
        } else {
            advance_all(sats, planets, cfg, dt)
        },
{
    let f = |m: SatelliteModel| advance_one(m, planets, cfg, dt);
    let mapped = sats.push(s).map_values(f);
    assert(mapped.drop_last() =~= sats.map_values(f));
    assert(mapped.last() == advance_one(s, planets, cfg, dt));
    reveal(Seq::filter);
}

impl App {
    /// The configuration and planets are in range, there is a planet, and
    /// every satellite is in range with a trail within the bound.
    pub open spec fn wf(&self) -> bool {
        &&& self.config.wf()
        &&& planets_wf(self.planets@)
        &&& self.planets@.len() > 0
        &&& forall|i: int|
            0 <= i < self.satellites@.len() ==> (#[trigger] self.satellites@[i])@.wf(
                self.config.trail_length as int,
            )
    }

    /// A simulation with the given planets and no satellites; `None` when
    /// there is no planet.
    pub fn new(config: Config, planets: Vec<Planet>) -> (r: Option<App>)
        requires
            config.wf(),
            planets_wf(planets@),
        ensures
            r.is_some() == (planets@.len() > 0),
            r is Some ==> r->Some_0.wf(),
            r is Some ==> r->Some_0.planets@ == planets@,
            r is Some ==> r->Some_0.config == config,
            r is Some ==> r->Some_0.satellites@.len() == 0,
    {
        if planets.len() == 0 {
            return None;
        }
        Some(App { planets, satellites: Vec::new(), config })
    }

    /// Puts a satellite at the end of the collection.
    pub fn add_satellite(&mut self, s: Satellite)
        requires
            old(self).wf(),
            s@.wf(old(self).config.trail_length as int),
        ensures
            final(self).wf(),
            models(final(self).satellites@) == models(old(self).satellites@).push(s@),
            final(self).planets@ == old(self).planets@,
            final(self).config == old(self).config,
    {
        self.satellites.push(s);
        assert(models(self.satellites@) =~= models(old(self).satellites@).push(s@));
    }

    /// Advances every satellite by one tick of `dt` microseconds, then
    /// purges those that are dead with a drained trail.
    pub fn advance(&mut self, dt: u32)
        requires
            old(self).wf(),
        ensures
            final(self).wf(),
            models(final(self).satellites@) == advance_all(
                models(old(self).satellites@),
                old(self).planets@,
                old(self).config,
                dt as int,
            ),
            final(self).planets@ == old(self).planets@,
            final(self).config == old(self).config,
    {
        let ghost orig = models(self.satellites@);
        let mut pending: Vec<Satellite> = Vec::new();
        std::mem::swap(&mut pending, &mut self.satellites);
        let ghost start = pending@;
        let n = pending.len();
        let mut kept: Vec<Satellite> = Vec::new();
        let mut i: usize = 0;
        while i < n
            invariant
                n == pending@.len(),
                i <= n,
                start.len() == n,
                orig == models(start),
                forall|j: int| i <= j < n ==> pending@[j] == start[j],
                forall|j: int|
                    0 <= j < n ==> (#[trigger] start[j])@.wf(self.config.trail_length as int),
                self.config == old(self).config,
                self.planets@ == old(self).planets@,
                self.config.wf(),
                planets_wf(self.planets@),
                forall|j: int|
                    0 <= j < kept@.len() ==> (#[trigger] kept@[j])@.wf(
                        self.config.trail_length as int,
                    ),
                models(kept@) == advance_all(
                    orig.take(i as int),
                    self.planets@,
                    self.config,
                    dt as int,
                ),
            decreases n - i,
        {
            let mut s = Satellite::new(0, 0, 0, 0, 0, Color { r: 0, g: 0, b: 0 });
            pending.set_and_swap(i, &mut s);
            assert(s == start[i as int]);
            let ghost before = s@;
            s.advance(&self.planets, &self.config, dt);
            let keep = !(s.dead && s.trail.len() == 0);
            proof {
                assert(orig.take(i as int + 1) =~= orig.take(i as int).push(before));
                lemma_advance_all_push(orig.take(i as int), before, self.planets@, self.config, dt as int);
            }
            let ghost kept_before = kept@;
            if keep {
                kept.push(s);
                assert(models(kept@) =~= models(kept_before).push(kept@.last()@));
            }
            i = i + 1;
        }
        assert(orig.take(n as int) =~= orig);
        self.satellites = kept;
    }

    /// One tick: a satellite may be spawned from the draws, then every
    /// satellite advances and the drained ones are purged.
    pub fn update_with(&mut self, dt: u32, draws: &SpawnDraws)
        requires
            old(self).wf(),
        ensures
            final(self).wf(),
            models(final(self).satellites@) == advance_all(
                models(old(self).satellites@) + spawned(old(self).config, *draws),
                old(self).planets@,
                old(self).config,
                dt as int,
            ),
            final(self).planets@ == old(self).planets@,
            final(self).config == old(self).config,
    {
        let ghost before = models(self.satellites@);
        match spawn(&self.config, draws) {
            Some(s) => {
                self.add_satellite(s);
                assert(spawned(old(self).config, *draws) =~= seq![s@]);
            },
            None => {},
        }
        assert(models(self.satellites@) =~= before + spawned(old(self).config, *draws));
        self.advance(dt);
    }

    /// One tick with fresh random draws for the spawn decision. The heading
    /// is drawn again until it falls in the ring (`in_ring`), so that the
    /// direction of a new satellite is close to uniform; after
    /// `HEADING_TRIES` draws the last one is taken.
    pub fn update(&mut self, dt: u32)
        requires
            old(self).wf(),
        ensures
            final(self).wf(),
            exists|d: SpawnDraws|
                models(final(self).satellites@) == advance_all(
                    models(old(self).satellites@) + #[trigger] spawned(old(self).config, d),
                    old(self).planets@,
                    old(self).config,
                    dt as int,
                ),
            final(self).planets@ == old(self).planets@,
            final(self).config == old(self).config,
    {
        let chance = rand::random::<u32>();
        let x = rand::random::<u32>();
        let y = rand::random::<u32>();
        let mut heading_x = rand::random::<u32>();
        let mut heading_y = rand::random::<u32>();
        let mut tries: u32 = 1;
        while tries < HEADING_TRIES && !heading_in_ring(heading_x, heading_y)
            invariant
                1 <= tries <= HEADING_TRIES,
            decreases HEADING_TRIES - tries,
        {
            heading_x = rand::random::<u32>();
            heading_y = rand::random::<u32>();
            tries = tries + 1;
        }
        let color = Color {
            r: rand::random::<u8>(),
            g: rand::random::<u8>(),
            b: rand::random::<u8>(),
        };
        let draws = SpawnDraws { chance, x, y, heading_x, heading_y, color };
        self.update_with(dt, &draws);
    }
}

} // verus!
