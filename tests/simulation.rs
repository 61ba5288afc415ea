use orbits::body::{Color, Planet, Point, Satellite};
use orbits::engine::{heading_in_ring, launch_velocity, spawn, App, SpawnDraws};
use orbits::geometry::{floor_sqrt, outside, overlap};
use orbits::physics::Config;

const WHITE: Color = Color { r: 255, g: 255, b: 255 };

// Lengths in hundredths of a pixel, gravity scaled to match.
fn config(trail_length: usize) -> Config {
    Config {
        width: 80000,
        height: 80000,
        spawn_chance: 10000,
        sat_radius: 500,
        sat_speed: 20000,
        gravity: 4_000_000_000,
        trail_length,
    }
}

fn centre_planet() -> Planet {
    Planet { x: 40000, y: 40000, mass: 1000, radius: 2500, color: WHITE }
}

fn app(trail_length: usize) -> App {
    App::new(config(trail_length), vec![centre_planet()]).unwrap()
}

fn no_spawn() -> SpawnDraws {
    SpawnDraws { chance: 999_999, x: 0, y: 0, heading_x: 0, heading_y: 0, color: WHITE }
}

#[test]
fn one_tick_pulls_toward_planet() {
    let mut a = app(100);
    a.add_satellite(Satellite::new(40000, 45000, 0, 0, 500, WHITE));
    a.update_with(10000, &no_spawn());
    assert_eq!(a.satellites.len(), 1);
    let s = &a.satellites[0];
    assert!(s.vy < 0);
    assert_eq!(s.vy, -1600);
    assert_eq!(s.vx, 0);
    assert_eq!(s.x, 40000);
    assert_eq!(s.y, 45000 + s.vy * 10000 / 1_000_000);
    assert_eq!(s.y, 44984);
    assert!(!s.dead);
    assert_eq!(s.trail_points(), vec![Point { x: 40000, y: 44984 }]);
}

#[test]
fn body_outside_viewport_dies_at_once() {
    let cfg = Config { width: 800, height: 800, gravity: 4000, ..config(100) };
    let planets = vec![Planet { x: 400, y: 400, mass: 1000, radius: 25, color: WHITE }];
    let mut s = Satellite::new(-10, -10, 0, 0, 5, WHITE);
    s.advance(&planets, &cfg, 10000);
    assert!(s.dead);
    assert_eq!((s.x, s.y), (-10, -10));
    assert_eq!(s.trail.len(), 0);

    let mut a = App::new(cfg, planets).unwrap();
    a.add_satellite(Satellite::new(-10, -10, 0, 0, 5, WHITE));
    a.update_with(10000, &no_spawn());
    assert!(a.satellites.is_empty());
}

#[test]
fn drained_satellite_is_purged_live_one_kept() {
    let mut a = app(100);
    let mut gone = Satellite::new(1000, 1000, 0, 0, 500, WHITE);
    gone.dead = true;
    a.add_satellite(gone);
    let mut live = Satellite::new(10000, 10000, 0, 0, 500, WHITE);
    live.trail.push_back(Point { x: 10000, y: 10000 });
    a.add_satellite(live);
    a.update_with(10000, &no_spawn());
    assert_eq!(a.satellites.len(), 1);
    assert!(!a.satellites[0].dead);
    assert_eq!(a.satellites[0].trail.len(), 2);
}

#[test]
fn overlapping_a_planet_kills() {
    let mut a = app(100);
    a.add_satellite(Satellite::new(40000, 42000, 0, 0, 500, WHITE));
    a.update_with(10000, &no_spawn());
    assert_eq!(a.satellites.len(), 0);

    let mut s = Satellite::new(40000, 42000, 0, 0, 500, WHITE);
    s.trail.push_back(Point { x: 40000, y: 42000 });
    s.advance(&a.planets, &a.config, 10000);
    assert!(s.dead);
    assert_eq!(s.trail.len(), 0);
}

#[test]
fn trail_never_exceeds_bound() {
    let mut a = app(3);
    a.add_satellite(Satellite::new(10000, 40000, 0, 20000, 500, WHITE));
    for tick in 0..10 {
        a.update_with(1000, &no_spawn());
        assert_eq!(a.satellites.len(), 1);
        assert_eq!(a.satellites[0].trail.len(), std::cmp::min(tick + 1, 3));
    }
    let pts = a.satellites[0].trail_points();
    assert_eq!(pts[2].x, a.satellites[0].x);
    assert_eq!(pts[2].y, a.satellites[0].y);
}

#[test]
fn zero_trail_length_keeps_trail_empty() {
    let mut a = app(0);
    a.add_satellite(Satellite::new(10000, 40000, 0, 0, 500, WHITE));
    a.update_with(1000, &no_spawn());
    assert_eq!(a.satellites.len(), 1);
    assert_eq!(a.satellites[0].trail.len(), 0);
}

#[test]
fn dead_satellite_is_frozen() {
    let a = app(100);
    let mut s = Satellite::new(30000, 30000, 700, -300, 500, WHITE);
    s.dead = true;
    for i in 0..5 {
        s.trail.push_back(Point { x: i, y: i });
    }
    s.advance(&a.planets, &a.config, 10000);
    assert!(s.dead);
    assert_eq!((s.x, s.y, s.vx, s.vy), (30000, 30000, 700, -300));
    assert_eq!(s.trail_points()[0], Point { x: 1, y: 1 });
}

#[test]
fn dead_satellite_removed_after_trail_length_ticks() {
    let mut a = app(100);
    let mut s = Satellite::new(30000, 30000, 0, 0, 500, WHITE);
    s.dead = true;
    for i in 0..3 {
        s.trail.push_back(Point { x: i, y: i });
    }
    a.add_satellite(s);
    a.update_with(10000, &no_spawn());
    assert_eq!(a.satellites.len(), 1);
    a.update_with(10000, &no_spawn());
    assert_eq!(a.satellites.len(), 1);
    assert_eq!(a.satellites[0].trail.len(), 1);
    a.update_with(10000, &no_spawn());
    assert_eq!(a.satellites.len(), 0);
}

#[test]
fn spawn_rate_follows_chance() {
    let cfg = config(100);
    let mut state: u64 = 0x2545_F491_4F6C_DD1D;
    let mut next = || {
        state = state.wrapping_mul(6364136223846793005).wrapping_add(1442695040888963407);
        (state >> 32) as u32
    };
    let ticks = 200_000;
    let mut count = 0;
    for _ in 0..ticks {
        let d = SpawnDraws {
            chance: next(),
            x: next(),
            y: next(),
            heading_x: next(),
            heading_y: next(),
            color: WHITE,
        };
        if spawn(&cfg, &d).is_some() {
            count += 1;
        }
    }
    let expected = ticks as f64 * cfg.spawn_chance as f64 / 1_000_000.0;
    assert!((count as f64 - expected).abs() < 0.1 * expected, "count {}", count);
}

#[test]
fn spawn_places_and_launches() {
    let cfg = config(100);
    let d = SpawnDraws { chance: 5, x: 80005, y: 123, heading_x: 1003, heading_y: 1004, color: WHITE };
    let s = spawn(&cfg, &d).unwrap();
    assert_eq!((s.x, s.y), (5, 123));
    assert_eq!((s.vx, s.vy), (12000, 16000));
    assert_eq!(s.radius, 500);
    assert!(!s.dead);
    assert!(s.trail.is_empty());
    let refused = SpawnDraws { chance: 10000, ..d };
    assert!(spawn(&cfg, &refused).is_none());
}

#[test]
fn launch_velocity_values() {
    assert_eq!(launch_velocity(20000, 3, 4), (12000, 16000));
    assert_eq!(launch_velocity(20000, -3, -4), (-12000, -16000));
    assert_eq!(launch_velocity(20000, 0, 0), (20000, 0));
    assert_eq!(launch_velocity(100, 1, 1), (70, 70));
    assert_eq!(launch_velocity(100, -1, 0), (-100, 0));
}

#[test]
fn launch_keeps_configured_speed() {
    for speed in [0i64, 1, 7, 100, 20000, 1 << 40] {
        for hx in (-1000i64..=1000).step_by(37) {
            for hy in (-1000i64..=1000).step_by(41) {
                let (vx, vy) = launch_velocity(speed, hx, hy);
                let m2 = vx as i128 * vx as i128 + vy as i128 * vy as i128;
                let s2 = speed as i128 * speed as i128;
                assert!(m2 <= s2, "{} {} {}", speed, hx, hy);
                assert!(m2 + 4 * speed as i128 + 4 > s2, "{} {} {}", speed, hx, hy);
                if hx != 0 || hy != 0 {
                    assert!(vx == 0 || (vx < 0) == (hx < 0));
                    assert!(vy == 0 || (vy < 0) == (hy < 0));
                }
            }
        }
    }
}

#[test]
fn heading_ring_membership() {
    assert!(!heading_in_ring(1003, 1004));
    assert!(heading_in_ring(1600, 1000));
    assert!(heading_in_ring(2000, 1000));
    assert!(!heading_in_ring(2000, 2000));
    assert!(!heading_in_ring(1000, 1000));
}

#[test]
fn floor_sqrt_values() {
    assert_eq!(floor_sqrt(0), 0);
    assert_eq!(floor_sqrt(1), 1);
    assert_eq!(floor_sqrt(24), 4);
    assert_eq!(floor_sqrt(25), 5);
    assert_eq!(floor_sqrt(0xFFFF_FFFF_FFFF_FFFF), 0xFFFF_FFFF);
}

#[test]
fn outside_and_overlap_tests() {
    assert!(outside(-6, 400, 5, 800, 800));
    assert!(!outside(-5, 400, 5, 800, 800));
    assert!(outside(400, 806, 5, 800, 800));
    assert!(!outside(805, 805, 5, 800, 800));
    assert!(overlap(0, 0, 3, 4, 0, 2));
    assert!(!overlap(0, 0, 3, 5, 0, 2));
}

#[test]
fn no_planets_is_refused() {
    assert!(App::new(config(100), Vec::new()).is_none());
}

#[test]
fn random_update_spawns_inside_viewport() {
    let cfg = Config { spawn_chance: 1_000_000, ..config(100) };
    let far = Planet { x: -1_000_000, y: -1_000_000, mass: 1, radius: 0, color: WHITE };
    let mut a = App::new(cfg, vec![far]).unwrap();
    a.update(1);
    assert_eq!(a.satellites.len(), 1);
    let s = &a.satellites[0];
    assert!(0 <= s.x && s.x <= 80000 && 0 <= s.y && s.y <= 80000);
    assert!(s.vx != 0 || s.vy != 0);
    let m2 = s.vx * s.vx + s.vy * s.vy;
    assert!(m2 <= 20000 * 20000 && m2 + 4 * 20000 + 4 > 20000 * 20000);
    assert!(!s.dead);
}

#[test]
fn outside_moving_away_dies() {
    let a = app(100);
    let mut s = Satellite::new(-1000, 40000, -5000, 0, 500, WHITE);
    s.advance(&a.planets, &a.config, 10000);
    assert!(s.dead);
    assert!(s.x < -1000);
}

#[test]
fn outside_carried_back_in_survives() {
    let a = app(100);
    let mut s = Satellite::new(-600, 10000, 1_000_000, 0, 500, WHITE);
    s.advance(&a.planets, &a.config, 10000);
    assert!(!s.dead);
    assert_eq!(s.trail.len(), 1);
}
