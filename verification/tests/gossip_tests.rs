use drone_sim::environment::Environment;
use drone_sim::geometry::{Rect, Vec2, COORD_LIMIT, UNIT};
use drone_sim::gossip::MAP_DEPTH;
use drone_sim::quadtree::{CellState, MapDiff, Quadtree};
use drone_sim::simulation::{absorb, new_master_map};
use drone_sim::single::{read_single, read_sum, write_single, WIRE_LIMIT};

fn px(v: i64) -> i64 {
    v * UNIT
}

#[test]
fn singles_are_read_in_units() {
    for (v, want) in [
        (0.0f32, Some(0)),
        (-0.0, Some(0)),
        (1.0, Some(UNIT)),
        (-1.5, Some(-UNIT - UNIT / 2)),
        (10000.0, Some(px(10000))),
        (19.53125, Some(83_886_080_000)),
        (0.1, Some(429_496_736)),
        (1e-30, Some(0)),
        (f32::MIN_POSITIVE, Some(0)),
        (536870880.0, Some(px(536870880))),
        (536870912.0, Some(WIRE_LIMIT)),
        (-536870912.0, Some(-WIRE_LIMIT)),
        (536870976.0, Some(WIRE_LIMIT)),
        (-1e30, Some(-WIRE_LIMIT)),
        (f32::MAX, Some(WIRE_LIMIT)),
        (f32::INFINITY, Some(WIRE_LIMIT)),
        (f32::NEG_INFINITY, Some(-WIRE_LIMIT)),
        (f32::NAN, None),
        (-f32::NAN, None),
    ] {
        assert_eq!(read_single(v.to_bits()), want, "{}", v);
    }
}

#[test]
fn sums_are_those_of_the_numbers_themselves() {
    for (a, d, want) in [
        (1.0f32, 2.5f32, px(7) / 2),
        (-10.0, 4.0, -px(6)),
        (-1e38, 2e38, WIRE_LIMIT),
        (-2e38, 1e38, -WIRE_LIMIT),
        (-1e38, 1e38, 0),
        (3e38, -3e38, 0),
        (-f32::MAX, f32::INFINITY, WIRE_LIMIT),
        (f32::MAX, f32::NEG_INFINITY, -WIRE_LIMIT),
        (1e30, 5.0, WIRE_LIMIT),
        (5.0, -1e30, -WIRE_LIMIT),
        (2147483648.0, -2147483648.0, 0),
        (2147483648.0, -2147483392.0, px(256)),
        (2147483648.0, -2147483520.0, px(128)),
        (-4294967296.0, 4294966784.0, -px(512)),
        (-1073741824.0, 1073741952.0, px(128)),
    ] {
        assert_eq!(read_sum(a.to_bits(), d.to_bits()), want, "{} {}", a, d);
        assert_eq!(read_sum(d.to_bits(), a.to_bits()), want, "{} {}", d, a);
    }
}

#[test]
fn units_are_written_as_singles() {
    for v in [0.0f32, 1.0, -1.5, 10000.0, 19.53125, 0.1, 4999.9995, -123.456, 536870912.0] {
        let units = read_single(v.to_bits()).unwrap();
        let bits = write_single(units);
        assert_eq!(read_single(bits), Some(units), "{}", v);
    }
    assert_eq!(write_single(UNIT), 1.0f32.to_bits());
    assert_eq!(write_single(-px(300)), (-300.0f32).to_bits());
    assert_eq!(write_single(1), (1.0f32 / 4294967296.0).to_bits());
    assert_eq!(write_single(0), 0);
    assert_eq!(write_single(-3), (-3.0f32 / 4294967296.0).to_bits());
    assert_eq!(write_single(0xff_ffff), (16777215.0f32 / 4294967296.0).to_bits());
    // More digits than a single-precision number has are cut off.
    assert_eq!(write_single(px(10000) + 1), 10000.0f32.to_bits());
    assert_eq!(write_single(-px(10000) - 1), (-10000.0f32).to_bits());
}

fn diff() -> MapDiff {
    MapDiff {
        timestamp: 9,
        updates: vec![(
            (px(1), px(-2), px(3), px(4)),
            CellState { explored: true, obstacle: false, last_seen: 258 },
        )],
    }
}

#[test]
fn diff_bytes_are_exact() {
    let mut want: Vec<u8> = Vec::new();
    want.extend_from_slice(&9u64.to_le_bytes());
    want.extend_from_slice(&1u64.to_le_bytes());
    for v in [1.0f32, -2.0, 3.0, 4.0] {
        want.extend_from_slice(&v.to_le_bytes());
    }
    want.extend_from_slice(&[1, 0]);
    want.extend_from_slice(&258u64.to_le_bytes());
    assert_eq!(diff().to_bytes().unwrap(), want);
}

#[test]
fn diffs_read_back() {
    let mut bytes = diff().to_bytes().unwrap();
    let back = MapDiff::from_bytes(&bytes).unwrap();
    assert_eq!(back.timestamp, 9);
    assert_eq!(back.updates, diff().updates);
    bytes.push(7);
    assert_eq!(MapDiff::from_bytes(&bytes).unwrap().updates, diff().updates);
    assert!(MapDiff::from_bytes(&bytes[..bytes.len() - 2]).is_none());
    assert!(MapDiff::from_bytes(&[]).is_none());
    // Neither flag may be anything but zero or one.
    bytes[32] = 2;
    assert!(MapDiff::from_bytes(&bytes).is_none());
}

#[test]
fn regions_out_of_range_are_clipped() {
    let read = |x: f32, w: f32| {
        let mut bytes = diff().to_bytes().unwrap();
        bytes[16..20].copy_from_slice(&x.to_le_bytes());
        bytes[24..28].copy_from_slice(&w.to_le_bytes());
        let back = MapDiff::from_bytes(&bytes).unwrap();
        assert_eq!(back.timestamp, 9);
        back.updates.first().map(|u| (u.0 .0, u.0 .2))
    };
    assert_eq!(read(1.0, 3.0), Some((px(1), px(3))));
    assert_eq!(read(f32::NAN, 3.0), None);
    assert_eq!(read(1.0, f32::NAN), None);
    // The limit is at 268435456 pixels.
    assert_eq!(read(0.0, 300000000.0), Some((0, COORD_LIMIT)));
    assert_eq!(read(-300000000.0, 300000032.0), Some((-COORD_LIMIT, COORD_LIMIT + px(32))));
    assert_eq!(read(-1e20, 2e20), Some((-COORD_LIMIT, 2 * COORD_LIMIT)));
    assert_eq!(read(-1e38, 2e38), Some((-COORD_LIMIT, 2 * COORD_LIMIT)));
    assert_eq!(read(-1e38, 1e38), Some((-COORD_LIMIT, COORD_LIMIT)));
    assert_eq!(read(5.0, f32::INFINITY), Some((px(5), COORD_LIMIT - px(5))));
    assert_eq!(read(-3e38, f32::INFINITY), Some((-COORD_LIMIT, 2 * COORD_LIMIT)));
    assert_eq!(read(268435456.0, 0.0), Some((COORD_LIMIT, 0)));
    assert_eq!(read(268435456.0, -8.0), Some((COORD_LIMIT, -px(8))));
    // What lies beyond the limits, or borders on them from outside, is off every map.
    assert_eq!(read(300000000.0, 5.0), None);
    assert_eq!(read(300000000.0, 0.0), None);
    assert_eq!(read(268435456.0, 8.0), None);
    assert_eq!(read(-268435488.0, 32.0), None);
    assert_eq!(read(-1e20, 5.0), None);
    assert_eq!(read(1.0, f32::NEG_INFINITY), None);
    // From minus infinity on there is no other edge.
    assert_eq!(read(f32::NEG_INFINITY, 1.0), None);
    assert_eq!(read(f32::NEG_INFINITY, f32::INFINITY), None);
    assert_eq!(read(f32::INFINITY, 1.0), None);
}

#[test]
fn a_region_larger_than_the_map_covers_it() {
    let mut map = new_master_map();
    let seen = CellState { explored: true, obstacle: false, last_seen: 2 };
    let mut bytes = MapDiff { timestamp: 0, updates: vec![((0, 0, 0, 0), seen)] }.to_bytes().unwrap();
    for size in [1e9f32, 1e38] {
        for (at, v) in [(16, -size), (20, -size), (24, 2.0 * size), (28, 2.0 * size)] {
            bytes[at..at + 4].copy_from_slice(&v.to_le_bytes());
        }
        assert!(absorb(&mut map, &bytes));
        assert_eq!(map.query_point(Vec2::new(px(1), px(9999))), Some(seen));
        assert_eq!(map.explored_area(), 100_000_000 * (UNIT as i128) * (UNIT as i128));
        map = new_master_map();
    }
}

#[test]
fn a_fresh_peer_ends_up_with_the_same_map() {
    let env = Environment::new(12345);
    let mut tree = new_master_map();
    for k in 0..5 {
        tree.insert_scan(Vec2::new(px(5000 + 170 * k), px(4800 - 90 * k)), px(300), &env, 3 + k as u64);
    }
    let sent = tree.diff_since(0);
    let bytes = sent.to_bytes().unwrap();
    let mut peer = new_master_map();
    assert!(absorb(&mut peer, &bytes));
    assert_eq!(peer.diff_since(0).updates, sent.updates);
    assert_eq!(peer.diff_since(0).to_bytes().unwrap(), bytes);
    assert_eq!(peer.explored_area(), tree.explored_area());
}

#[test]
fn a_map_survives_the_wire() {
    let env = Environment::new(12345);
    let mut tree = new_master_map();
    for k in 0..5 {
        tree.insert_scan(Vec2::new(px(5000 + 170 * k), px(4800 - 90 * k)), px(300), &env, 3 + k as u64);
    }
    for since in [0, 5, 8] {
        let sent = tree.diff_since(since);
        assert_eq!(sent.updates.is_empty(), since == 8);
        let read = MapDiff::from_bytes(&sent.to_bytes().unwrap()).unwrap();
        assert_eq!(read.timestamp, since);
        assert_eq!(read.updates, sent.updates);
    }
}

#[test]
fn absorb_merges_what_can_be_read() {
    let mut tree = new_master_map();
    tree.insert_scan(Vec2::new(px(5000), px(5000)), px(300), &Environment::new(1), 11);
    let bytes = tree.diff_since(0).to_bytes().unwrap();
    let mut other: Quadtree = new_master_map();
    assert_eq!(other.bounds, Rect::new(0, 0, px(10000), px(10000)));
    assert_eq!(other.max_depth, MAP_DEPTH);
    assert!(!absorb(&mut other, &bytes[1..3]));
    assert_eq!(other.explored_area(), 0);
    assert!(absorb(&mut other, &bytes));
    assert_eq!(other.query_point(Vec2::new(px(5000), px(5000))).unwrap().last_seen, 11);
}
