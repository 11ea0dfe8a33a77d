use drone_sim::drone::{Drone, Keys, FRICTION};
use drone_sim::environment::{Environment, Obstacle};
use drone_sim::geometry::{Rect, Vec2, UNIT};
use drone_sim::simulation::{spawn, DRONE_COUNT};

const NONE: Keys = Keys { left: false, right: false, forward: false, backward: false };

fn px(v: i64) -> i64 {
    v * UNIT
}

fn point(x: i64, y: i64) -> Vec2 {
    Vec2::new(px(x), px(y))
}

fn wall(x: i64) -> Environment {
    Environment { obstacles: vec![Obstacle { rect: Rect::new(px(x), px(-100), px(10), px(200)) }] }
}

#[test]
fn a_new_drone_rests() {
    let d = Drone::new(px(3), px(4));
    assert_eq!(d.position, point(3, 4));
    assert_eq!(d.velocity, point(0, 0));
    assert_eq!((d.heading, d.scan_radius, d.radius), (0, px(300), px(10)));
}

#[test]
fn keys_turn_the_drone() {
    let d = Drone::new(0, 0);
    let left = Keys { left: true, ..NONE };
    let right = Keys { right: true, ..NONE };
    assert_eq!(d.next_heading(true, left, UNIT / 4), 3 * UNIT / 4);
    assert_eq!(d.next_heading(true, right, UNIT / 4), -3 * UNIT / 4);
    assert_eq!(d.next_heading(false, left, UNIT / 4), 0);
    assert_eq!(d.next_heading(true, Keys { left: true, ..right }, UNIT / 4), 0);
    let mut d = d;
    d.update(true, left, Vec2::new(UNIT, 0), &wall(1000), UNIT / 4);
    assert_eq!(d.heading, 3 * UNIT / 4);
    assert_eq!(d.position, point(0, 0));
}

#[test]
fn thrust_and_friction_move_the_drone() {
    let mut d = Drone::new(0, 0);
    let go = Keys { forward: true, ..NONE };
    d.update(true, go, Vec2::new(UNIT, 0), &wall(1000), UNIT / 10);
    // 500 pixels per second and second for a tenth of a second, times 0.9.
    let v = 500 * (UNIT / 10) as i128 * FRICTION as i128 / UNIT as i128;
    assert_eq!(d.velocity, Vec2::new(v as i64, 0));
    assert!((d.velocity.x - px(45)).abs() < UNIT / 100);
    assert!((d.position.x - px(45) / 10).abs() < UNIT / 100);
    let before = d;
    d.update(false, go, Vec2::new(UNIT, 0), &wall(1000), UNIT / 10);
    assert!((d.velocity.x - px(405) / 10).abs() < UNIT / 100);
    assert!(d.position.x > before.position.x);
    let mut back = Drone::new(0, 0);
    back.update(true, Keys { backward: true, ..NONE }, Vec2::new(0, UNIT), &wall(1000), UNIT / 10);
    assert_eq!(back.velocity, Vec2::new(0, -v as i64));
    let mut still = Drone::new(0, 0);
    still.update(true, Keys { backward: true, ..go }, Vec2::new(0, UNIT), &wall(1000), UNIT / 10);
    assert_eq!(still, Drone::new(0, 0));
}

#[test]
fn the_speed_stays_below_its_limit() {
    let mut d = Drone::new(0, 0);
    let go = Keys { forward: true, ..NONE };
    for _ in 0..200 {
        d.update(true, go, Vec2::new(UNIT, -UNIT), &wall(-1000), UNIT / 9);
        assert!(d.velocity.x <= px(500) && d.velocity.y >= -px(500));
    }
    assert!(d.velocity.x > px(499));
}

#[test]
fn the_velocity_is_no_longer_than_the_limit() {
    let go = Keys { forward: true, ..NONE };
    for heading in [Vec2::new(3 * UNIT / 5, 4 * UNIT / 5), Vec2::new(UNIT, 0)] {
        let mut d = Drone::new(0, 0);
        for _ in 0..200 {
            d.update(true, go, heading, &wall(-1000), UNIT / 10);
            let (x, y) = (d.velocity.x as i128, d.velocity.y as i128);
            assert!(x * x + y * y <= (px(500) as i128) * (px(500) as i128));
        }
        let (x, y) = (d.velocity.x as i128, d.velocity.y as i128);
        assert!(x * x + y * y > (px(449) as i128) * (px(449) as i128));
    }
}

#[test]
fn a_wall_stops_the_drone() {
    let mut d = Drone::new(0, 0);
    let go = Keys { forward: true, ..NONE };
    let env = wall(50);
    let mut stopped = false;
    for _ in 0..200 {
        let before = d;
        d.update(true, go, Vec2::new(UNIT, 0), &env, UNIT / 60);
        assert!(!Drone::circle_rect_intersect(d.position, d.radius, env.obstacles[0].rect));
        if d.velocity == point(0, 0) {
            assert_eq!(d.position, before.position);
            stopped = true;
        }
    }
    assert!(stopped);
    assert!(d.position.x <= px(40) && d.position.x > px(35));
}

#[test]
fn circles_and_rectangles() {
    let r = Rect::new(0, 0, px(10), px(10));
    assert!(Drone::circle_rect_intersect(point(5, 5), 1, r));
    assert!(!Drone::circle_rect_intersect(point(5, 5), 0, r));
    assert!(!Drone::circle_rect_intersect(point(20, 5), px(10), r));
    assert!(Drone::circle_rect_intersect(point(20, 5), px(10) + 1, r));
    assert!(!Drone::circle_rect_intersect(point(13, 14), px(5), r));
    assert!(Drone::circle_rect_intersect(point(13, 14), px(5) + 1, r));
}

#[test]
fn drones_start_clear() {
    for seed in 0..10 {
        let env = Environment::new(seed);
        for id in 1..=DRONE_COUNT {
            let d = spawn(id);
            assert_eq!(d.position, point(5000 + 50 * id as i64, 5000));
            for o in &env.obstacles {
                assert!(!Drone::circle_rect_intersect(d.position, d.radius, o.rect));
            }
        }
    }
}

#[test]
fn drones_follow_their_waypoints() {
    let d = Drone::new(0, 0);
    assert!(d.has_reached(point(9, 12)));
    assert!(!d.has_reached(Vec2::new(px(15) + 1, 0)));
    assert_eq!(d.direction_to(point(3, 4)), Vec2::new(3 * UNIT / 5, 4 * UNIT / 5));
    assert_eq!(d.direction_to(point(-7, 0)), Vec2::new(-UNIT, 0));
    assert_eq!(d.direction_to(point(0, 0)), point(0, 0));
    let mut path = vec![point(1, 1), point(2, 2), point(50, 0)];
    d.follow(&mut path);
    assert_eq!(path, vec![point(2, 2), point(50, 0)]);
    d.follow(&mut path);
    d.follow(&mut path);
    assert_eq!(path, vec![point(50, 0)]);
    let mut none = vec![];
    d.follow(&mut none);
    assert!(none.is_empty());
}
