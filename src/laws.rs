//! What holds of every tick and of every run of ticks.

use vstd::prelude::*;
use crate::body::{Planet, SatelliteModel};
use crate::engine::{advance_all, heading, is_kept, launch, spawned, SpawnDraws};
use crate::geometry::{discs_overlap, is_outside, tdiv, COORD_MAX, TICKS_PER_SECOND, VEL_MAX};
use crate::physics::{advance_one, hits_planet, moved, pulled, Config};

verus! {

/// Where a tick leaves a satellite: moved by its pulled velocity when
/// alive, where it is when dead.
pub open spec fn position_after(s: SatelliteModel, planets: Seq<Planet>, cfg: Config, dt: int) -> (
    int,
    int,
) {
    if s.dead {
        (s.x, s.y)
    } else {
        let v = pulled(s, planets, cfg.gravity as int, dt);
        (moved(s.x, v.0, dt), moved(s.y, v.1, dt))
    }
}

/// The satellites after a run of ticks, each given by its time step and the
/// draws for its spawn decision.
pub open spec fn run(
    sats: Seq<SatelliteModel>,
    planets: Seq<Planet>,
    cfg: Config,
    steps: Seq<(u32, SpawnDraws)>,
) -> Seq<SatelliteModel>
    decreases steps.len(),
{
    if steps.len() == 0 {
        sats
    } else {
        run(
            advance_all(sats + spawned(cfg, steps[0].1), planets, cfg, steps[0].0 as int),
            planets,
            cfg,
            steps.drop_first(),
        )
    }
}

/// A satellite after `k` ticks of `dt` each, whether or not it is purged.
pub open spec fn advance_times(
    s: SatelliteModel,
    planets: Seq<Planet>,
    cfg: Config,
    dt: int,
    k: nat,
) -> SatelliteModel
    decreases k,
{
    if k == 0 {
        s
    } else {
        advance_one(advance_times(s, planets, cfg, dt, (k - 1) as nat), planets, cfg, dt)
    }
}

pub open spec fn all_wf(sats: Seq<SatelliteModel>, trail_length: int) -> bool {
    forall|i: int| 0 <= i < sats.len() ==> #[trigger] sats[i].wf(trail_length)
}

/// A satellite whose body the tick leaves wholly outside the viewport is
/// dead after the tick. The test applies where the tick puts the satellite,
/// so one that starts outside and is carried back in stays alive.
pub proof fn law_boundary_death(s: SatelliteModel, planets: Seq<Planet>, cfg: Config, dt: int)
    requires
        ({
            let p = position_after(s, planets, cfg, dt);
            is_outside(p.0, p.1, s.radius, cfg.width as int, cfg.height as int)
        }),
    ensures
        advance_one(s, planets, cfg, dt).dead,
{
}

proof fn lemma_moved_monotone(c: int, v: int, dt: int)
    requires
        -COORD_MAX <= c <= COORD_MAX,
        dt >= 0,
    ensures
        v <= 0 ==> moved(c, v, dt) <= c,
        v >= 0 ==> moved(c, v, dt) >= c,
{
    let t = TICKS_PER_SECOND as int;
    if v <= 0 {
        assert(v * dt <= 0) by (nonlinear_arith)
            requires
                v <= 0,
                dt >= 0,
        ;
        if v * dt < 0 {
            assert((-(v * dt)) / t >= 0) by (nonlinear_arith)
                requires
                    -(v * dt) > 0,
                    t > 0,
            ;
        }
        assert(tdiv(v * dt, t) <= 0);
    }
    if v >= 0 {
        assert(v * dt >= 0) by (nonlinear_arith)
            requires
                v >= 0,
                dt >= 0,
        ;
        assert((v * dt) / t >= 0) by (nonlinear_arith)
            requires
                v * dt >= 0,
                t > 0,
        ;
    }
}

/// A live satellite whose body lies wholly outside the viewport on one side,
/// and whose velocity after the pull does not head back across that side,
/// is dead after the tick.
pub proof fn law_outside_moving_away_dies(
    s: SatelliteModel,
    planets: Seq<Planet>,
    cfg: Config,
    dt: int,
)
    requires
        s.wf(cfg.trail_length as int),
        dt >= 0,
        ({
            let v = pulled(s, planets, cfg.gravity as int, dt);
            ||| (s.x + s.radius < 0 && v.0 <= 0)
            ||| (s.y + s.radius < 0 && v.1 <= 0)
            ||| (s.x - s.radius > cfg.width && v.0 >= 0)
            ||| (s.y - s.radius > cfg.height && v.1 >= 0)
        }),
    ensures
        advance_one(s, planets, cfg, dt).dead,
{
    let v = pulled(s, planets, cfg.gravity as int, dt);
    lemma_moved_monotone(s.x, v.0, dt);
    lemma_moved_monotone(s.y, v.1, dt);
}

/// A satellite whose body, where the tick leaves it, overlaps a planet (its
/// centre closer than the sum of the radii) is dead after the tick, wherever
/// it is relative to the viewport.
pub proof fn law_collision_death(
    s: SatelliteModel,
    planets: Seq<Planet>,
    cfg: Config,
    dt: int,
    i: int,
)
    requires
        0 <= i < planets.len(),
        ({
            let p = position_after(s, planets, cfg, dt);
            discs_overlap(
                p.0,
                p.1,
                s.radius,
                planets[i].x as int,
                planets[i].y as int,
                planets[i].radius as int,
            )
        }),
    ensures
        advance_one(s, planets, cfg, dt).dead,
{
    let p = position_after(s, planets, cfg, dt);
    assert(hits_planet(p.0, p.1, s.radius, planets));
}

/// A dead satellite neither moves nor changes velocity, and stays dead.
pub proof fn law_dead_freeze(s: SatelliteModel, planets: Seq<Planet>, cfg: Config, dt: int)
    requires
        s.dead,
    ensures
        ({
            let t = advance_one(s, planets, cfg, dt);
            t.dead && t.x == s.x && t.y == s.y && t.vx == s.vx && t.vy == s.vy
        }),
{
}

proof fn lemma_dead_drains(s: SatelliteModel, planets: Seq<Planet>, cfg: Config, dt: int, k: nat)
    requires
        s.dead,
        k <= s.trail.len(),
    ensures
        advance_times(s, planets, cfg, dt, k).dead,
        advance_times(s, planets, cfg, dt, k).trail.len() == s.trail.len() - k,
    decreases k,
{
    if k > 0 {
        lemma_dead_drains(s, planets, cfg, dt, (k - 1) as nat);
    }
}

/// A dead satellite whose trail holds `L > 0` positions loses one of them
/// per tick and gains none: it is kept through the first `L - 1` ticks and
/// purged by the `L`-th.
pub proof fn law_eventual_removal(s: SatelliteModel, planets: Seq<Planet>, cfg: Config, dt: int)
    requires
        s.dead,
        s.trail.len() > 0,
    ensures
        forall|k: nat|
            1 <= k < s.trail.len() ==> is_kept(#[trigger] advance_times(s, planets, cfg, dt, k)),
        !is_kept(advance_times(s, planets, cfg, dt, s.trail.len())),
{
    assert forall|k: nat| 1 <= k < s.trail.len() implies is_kept(
        #[trigger] advance_times(s, planets, cfg, dt, k),
    ) by {
        lemma_dead_drains(s, planets, cfg, dt, k);
    }
    lemma_dead_drains(s, planets, cfg, dt, s.trail.len());
}

/// A dead satellite with the first `k` entries of its trail gone.
pub open spec fn drained(s: SatelliteModel, k: int) -> SatelliteModel {
    SatelliteModel {
        x: s.x,
        y: s.y,
        vx: s.vx,
        vy: s.vy,
        radius: s.radius,
        color: s.color,
        dead: s.dead,
        trail: s.trail.subrange(k, s.trail.len() as int),
    }
}

proof fn lemma_kept_survives_tick(
    sats: Seq<SatelliteModel>,
    m: SatelliteModel,
    planets: Seq<Planet>,
    cfg: Config,
    dt: int,
    d: SpawnDraws,
)
    requires
        sats.contains(m),
        is_kept(advance_one(m, planets, cfg, dt)),
    ensures
        advance_all(sats + spawned(cfg, d), planets, cfg, dt).contains(advance_one(m, planets, cfg, dt)),
{
    let all = sats + spawned(cfg, d);
    let i = choose|i: int| 0 <= i < sats.len() && sats[i] == m;
    assert(all[i] == m);
    let mapped = all.map_values(|t: SatelliteModel| advance_one(t, planets, cfg, dt));
    assert(mapped[i] == advance_one(m, planets, cfg, dt));
    mapped.lemma_filter_contains(|t: SatelliteModel| is_kept(t), i);
}

proof fn lemma_dead_stays(
    sats: Seq<SatelliteModel>,
    planets: Seq<Planet>,
    cfg: Config,
    steps: Seq<(u32, SpawnDraws)>,
    s: SatelliteModel,
)
    requires
        s.dead,
        sats.contains(s),
        steps.len() < s.trail.len(),
    ensures
        run(sats, planets, cfg, steps).contains(drained(s, steps.len() as int)),
    decreases steps.len(),
{
    if steps.len() == 0 {
        assert(s.trail.subrange(0, s.trail.len() as int) =~= s.trail);
        assert(drained(s, 0) == s);
    } else {
        let dt = steps[0].0 as int;
        let next = advance_all(sats + spawned(cfg, steps[0].1), planets, cfg, dt);
        let s1 = advance_one(s, planets, cfg, dt);
        assert(s1.trail =~= s.trail.subrange(1, s.trail.len() as int));
        assert(s1 == drained(s, 1));
        lemma_kept_survives_tick(sats, s, planets, cfg, dt, steps[0].1);
        lemma_dead_stays(next, planets, cfg, steps.drop_first(), s1);
        assert(s1.trail.subrange(steps.len() - 1, s1.trail.len() as int) =~= s.trail.subrange(
            steps.len() as int,
            s.trail.len() as int,
        ));
        assert(drained(s1, steps.len() - 1) == drained(s, steps.len() as int));
    }
}

proof fn lemma_run_all_kept(
    sats: Seq<SatelliteModel>,
    planets: Seq<Planet>,
    cfg: Config,
    steps: Seq<(u32, SpawnDraws)>,
)
    requires
        steps.len() >= 1,
    ensures
        forall|i: int|
            0 <= i < run(sats, planets, cfg, steps).len() ==> is_kept(
                #[trigger] run(sats, planets, cfg, steps)[i],
            ),
    decreases steps.len(),
{
    let dt = steps[0].0 as int;
    let all = sats + spawned(cfg, steps[0].1);
    let next = advance_all(all, planets, cfg, dt);
    let mapped = all.map_values(|t: SatelliteModel| advance_one(t, planets, cfg, dt));
    assert forall|i: int| 0 <= i < next.len() implies is_kept(#[trigger] next[i]) by {
        mapped.lemma_filter_pred(|t: SatelliteModel| is_kept(t), i);
    }
    assert(run(sats, planets, cfg, steps) == run(next, planets, cfg, steps.drop_first()));
    if steps.len() > 1 {
        lemma_run_all_kept(next, planets, cfg, steps.drop_first());
    } else {
        assert(run(next, planets, cfg, steps.drop_first()) == next);
    }
}

/// Over a run of ticks, a dead satellite with a trail of `L` positions is
/// still present after each of the first `L - 1` ticks, with one more
/// position gone each tick, and after the `L`-th tick nothing of it is left:
/// no satellite in the collection is that satellite with its trail drained.
pub proof fn law_eventual_removal_in_run(
    sats: Seq<SatelliteModel>,
    planets: Seq<Planet>,
    cfg: Config,
    steps: Seq<(u32, SpawnDraws)>,
    s: SatelliteModel,
)
    requires
        s.dead,
        sats.contains(s),
        1 <= steps.len() <= s.trail.len(),
    ensures
        steps.len() < s.trail.len() ==> run(sats, planets, cfg, steps).contains(
            drained(s, steps.len() as int),
        ),
        steps.len() == s.trail.len() ==> !run(sats, planets, cfg, steps).contains(
            drained(s, steps.len() as int),
        ),
{
    if steps.len() < s.trail.len() {
        lemma_dead_stays(sats, planets, cfg, steps, s);
    } else {
        lemma_run_all_kept(sats, planets, cfg, steps);
        let r = run(sats, planets, cfg, steps);
        if r.contains(drained(s, steps.len() as int)) {
            let i = choose|i: int| 0 <= i < r.len() && r[i] == drained(s, steps.len() as int);
            assert(is_kept(r[i]));
        }
    }
}

proof fn lemma_pulled_ok(s: SatelliteModel, planets: Seq<Planet>, gravity: int, dt: int)
    requires
        s.motion_ok(),
    ensures
        -VEL_MAX <= pulled(s, planets, gravity, dt).0 <= VEL_MAX,
        -VEL_MAX <= pulled(s, planets, gravity, dt).1 <= VEL_MAX,
    decreases planets.len(),
{
    if planets.len() > 0 {
        lemma_pulled_ok(s, planets.drop_last(), gravity, dt);
    }
}

proof fn lemma_advance_one_wf(s: SatelliteModel, planets: Seq<Planet>, cfg: Config, dt: int)
    requires
        s.wf(cfg.trail_length as int),
    ensures
        advance_one(s, planets, cfg, dt).wf(cfg.trail_length as int),
{
    lemma_pulled_ok(s, planets, cfg.gravity as int, dt);
}

proof fn lemma_spawned_wf(cfg: Config, d: SpawnDraws)
    requires
        cfg.wf(),
    ensures
        all_wf(spawned(cfg, d), cfg.trail_length as int),
{
    if cfg.width > 0 {
        vstd::arithmetic::div_mod::lemma_mod_bound(d.x as int, cfg.width as int);
    }
    if cfg.height > 0 {
        vstd::arithmetic::div_mod::lemma_mod_bound(d.y as int, cfg.height as int);
    }
    let v = launch(cfg.sat_speed as int, heading(d.heading_x as int), heading(d.heading_y as int));
    crate::engine::lemma_launch_speed(
        cfg.sat_speed as int,
        heading(d.heading_x as int),
        heading(d.heading_y as int),
    );
    assert(-VEL_MAX <= v.0 <= VEL_MAX && -VEL_MAX <= v.1 <= VEL_MAX);
}

proof fn lemma_filter_all(sats: Seq<SatelliteModel>, n: int)
    requires
        all_wf(sats, n),
    ensures
        all_wf(sats.filter(|s: SatelliteModel| is_kept(s)), n),
    decreases sats.len(),
{
    reveal(Seq::filter);
    if sats.len() > 0 {
        lemma_filter_all(sats.drop_last(), n);
    }
}

proof fn lemma_tick_wf(
    sats: Seq<SatelliteModel>,
    planets: Seq<Planet>,
    cfg: Config,
    dt: int,
    d: SpawnDraws,
)
    requires
        cfg.wf(),
        all_wf(sats, cfg.trail_length as int),
    ensures
        all_wf(
            advance_all(sats + spawned(cfg, d), planets, cfg, dt),
            cfg.trail_length as int,
        ),
{
    let n = cfg.trail_length as int;
    let all = sats + spawned(cfg, d);
    lemma_spawned_wf(cfg, d);
    assert(all_wf(all, n)) by {
        assert forall|i: int| 0 <= i < all.len() implies #[trigger] all[i].wf(n) by {
            if i >= sats.len() {
                assert(all[i] == spawned(cfg, d)[i - sats.len()]);
            }
        }
    }
    let mapped = all.map_values(|s: SatelliteModel| advance_one(s, planets, cfg, dt));
    assert forall|i: int| 0 <= i < mapped.len() implies #[trigger] mapped[i].wf(n) by {
        lemma_advance_one_wf(all[i], planets, cfg, dt);
    }
    lemma_filter_all(mapped, n);
}

/// After any run of ticks, every satellite still present has a trail of at
/// most `trail_length` positions (and position and velocity in range).
pub proof fn law_trail_bound(
    sats: Seq<SatelliteModel>,
    planets: Seq<Planet>,
    cfg: Config,
    steps: Seq<(u32, SpawnDraws)>,
)
    requires
        cfg.wf(),
        all_wf(sats, cfg.trail_length as int),
    ensures
        forall|i: int|
            0 <= i < run(sats, planets, cfg, steps).len() ==> #[trigger] run(
                sats,
                planets,
                cfg,
                steps,
            )[i].trail.len() <= cfg.trail_length,
    decreases steps.len(),
{
    if steps.len() > 0 {
        let next = advance_all(sats + spawned(cfg, steps[0].1), planets, cfg, steps[0].0 as int);
        lemma_tick_wf(sats, planets, cfg, steps[0].0 as int, steps[0].1);
        law_trail_bound(next, planets, cfg, steps.drop_first());
        assert(run(sats, planets, cfg, steps) == run(next, planets, cfg, steps.drop_first()));
    }
    let r = run(sats, planets, cfg, steps);
    assert forall|i: int| 0 <= i < r.len() implies #[trigger] r[i].trail.len()
        <= cfg.trail_length by {
        if steps.len() == 0 {
            assert(sats[i].wf(cfg.trail_length as int));
        }
    }
}

} // verus!
