use drone_sim::geometry::{Vec2, COORD_LIMIT, UNIT};
use drone_sim::mesh::{
    classify, compose, read_point, should_initiate, write_point, Inbound, PeerTable,
    DEAD_PEER_TICKS,
};
use drone_sim::network::{Envelope, Message, MsgType, HANDSHAKE_TAG, TRANSPORT_TAG};

fn point(x: i64, y: i64) -> Vec2 {
    Vec2::new(x * UNIT, y * UNIT)
}

fn heartbeat(id: u32, position: Vec2, path: Option<Vec<Vec2>>) -> Message {
    compose(MsgType::Heartbeat, id, position, &path, &PeerTable::new(), vec![1, 2], 77)
}

#[test]
fn messages_carry_where_a_drone_is() {
    let mut table = PeerTable::new();
    table.hear(&heartbeat(4, point(0, 0), None), 1);
    table.hear(&heartbeat(9, point(0, 0), None), 1);
    let path = Some(vec![point(7, 8)]);
    let m = compose(MsgType::MapDiff, 3, point(1, -2), &path, &table, vec![5], 600);
    assert_eq!(m.msg_type, MsgType::MapDiff);
    assert_eq!(m.sender_id, 3);
    assert_eq!(m.sender_pos, (1.0f32.to_bits(), (-2.0f32).to_bits()));
    assert_eq!(m.path, Some(vec![(7.0f32.to_bits(), 8.0f32.to_bits())]));
    assert_eq!(m.peer_list, vec![4, 9]);
    assert_eq!(m.payload, vec![5]);
    assert_eq!(m.timestamp, 600);
    assert_eq!(read_point(m.sender_pos), Some(point(1, -2)));
    assert_eq!(read_point(write_point(point(4999, 1))), Some(point(4999, 1)));
}

#[test]
fn the_table_keeps_the_latest_news_of_each_peer() {
    let mut table = PeerTable::new();
    table.hear(&heartbeat(1, point(1, 1), None), 10);
    table.hear(&heartbeat(2, point(2, 2), Some(vec![point(3, 3)])), 11);
    table.hear(&heartbeat(1, point(5, 5), Some(vec![])), 12);
    assert_eq!(table.peers.len(), 2);
    assert_eq!(table.peers[0].id, 1);
    assert_eq!(table.peers[0].last_seen, 12);
    assert_eq!(table.positions(), vec![point(5, 5), point(2, 2)]);
    assert_eq!(table.paths(), vec![Some(vec![]), Some(vec![point(3, 3)])]);
}

#[test]
fn positions_that_are_no_points_are_left_out() {
    let mut table = PeerTable::new();
    let mut m = heartbeat(1, point(1, 1), Some(vec![point(1, 1), point(2, 2)]));
    m.sender_pos.0 = f32::NAN.to_bits();
    m.path.as_mut().unwrap()[0].1 = f32::NAN.to_bits();
    table.hear(&m, 10);
    table.hear(&heartbeat(2, point(3, 3), None), 10);
    assert_eq!(table.positions(), vec![point(3, 3)]);
    assert_eq!(table.paths(), vec![Some(vec![point(2, 2)]), None]);
    // What is too far away counts as far away.
    for (v, want) in [
        (268435456.0f32, COORD_LIMIT),
        (3e8, COORD_LIMIT),
        (-1e9, -COORD_LIMIT),
        (f32::INFINITY, COORD_LIMIT),
        (f32::NEG_INFINITY, -COORD_LIMIT),
    ] {
        assert_eq!(read_point((v.to_bits(), 0)), Some(Vec2::new(want, 0)));
        assert_eq!(read_point((0, v.to_bits())), Some(Vec2::new(0, want)));
    }
}

#[test]
fn messages_and_peers_are_copied_whole() {
    let m = heartbeat(4, point(3, -5), Some(vec![point(1, 2), point(6, 7)]));
    assert_eq!(m.clone().to_bytes().unwrap(), m.to_bytes().unwrap());
    let m = heartbeat(4, point(3, -5), None);
    assert_eq!(m.clone().to_bytes().unwrap(), m.to_bytes().unwrap());
    let mut table = PeerTable::new();
    table.hear(&heartbeat(2, point(2, 2), Some(vec![point(3, 3)])), 11);
    let (p, q) = (&table.peers[0], table.peers[0].clone());
    assert_eq!((p.id, p.last_seen, p.position, &p.path), (q.id, q.last_seen, q.position, &q.path));
}

#[test]
fn silent_peers_are_culled() {
    let mut table = PeerTable::new();
    for (id, tick) in [(1, 100), (2, 50), (3, 101), (4, 900)] {
        table.hear(&heartbeat(id, point(0, 0), None), tick);
    }
    table.cull(100 + DEAD_PEER_TICKS - 1);
    let ids: Vec<u32> = table.peers.iter().map(|p| p.id).collect();
    assert_eq!(ids, vec![1, 3, 4]);
    table.cull(100 + DEAD_PEER_TICKS);
    let ids: Vec<u32> = table.peers.iter().map(|p| p.id).collect();
    assert_eq!(ids, vec![3, 4]);
    table.cull(u64::MAX);
    assert!(table.peers.is_empty());
}

#[test]
fn the_higher_number_opens_the_session() {
    assert!(should_initiate(2, 1, false));
    assert!(!should_initiate(1, 2, false));
    assert!(!should_initiate(2, 1, true));
    assert!(!should_initiate(2, 2, false));
}

#[test]
fn arrivals_are_told_apart_by_their_tag() {
    let wrap = |tag: u8| Envelope { tag, sender_id: 5, payload: vec![1, 2, 3] }.to_bytes().unwrap();
    match classify(&wrap(HANDSHAKE_TAG)) {
        Inbound::Handshake(e) => assert_eq!((e.sender_id, e.payload), (5, vec![1, 2, 3])),
        _ => panic!(),
    }
    match classify(&wrap(TRANSPORT_TAG)) {
        Inbound::Transport(e) => assert_eq!((e.sender_id, e.payload), (5, vec![1, 2, 3])),
        _ => panic!(),
    }
    assert!(matches!(classify(&wrap(3)), Inbound::Unknown));
    assert!(matches!(classify(&[]), Inbound::Unknown));
    let bytes = heartbeat(2, point(5000, 5000), None).to_bytes().unwrap();
    match classify(&bytes) {
        Inbound::Plaintext(m) => {
            assert_eq!(m.sender_id, 2);
            assert_eq!(read_point(m.sender_pos), Some(point(5000, 5000)));
        }
        _ => panic!(),
    }
}
