//! What a drone knows of its peers, and what it does with what they send.
use crate::autonomy::all_in_range;
use crate::geometry::Vec2;
use crate::gossip::{clip, clipped};
use crate::network::{
    copy_path, Envelope, Message, MsgType, Peer, HANDSHAKE_TAG, TRANSPORT_TAG,
};
use crate::single::{
    is_single, law_single_reads_back, read_single, reading, stands_for, units_of, write_single,
};
use crate::wire::{law_envelope_reads_back, optional_view, EnvelopeView, MessageView};
use vstd::prelude::*;

verus! {

/// Drone `n` listens on the port with this number plus `n`.
pub const BASE_PORT: u32 = 8000;

/// How many drones a swarm can have.
pub const MAX_DRONES: u32 = 10;

/// A peer that has been silent for this many ticks is taken for dead.
pub const DEAD_PEER_TICKS: u64 = 625;

/// What is known of a peer, as a value.
pub struct PeerView {
    pub id: u32,
    pub last_seen: u64,
    pub position: (u32, u32),
    pub path: Option<Seq<(u32, u32)>>,
}

impl View for Peer {
    type V = PeerView;

    open spec fn view(&self) -> PeerView {
        PeerView {
            id: self.id,
            last_seen: self.last_seen,
            position: self.position,
            path: optional_view(self.path),
        }
    }
}

/// The peers that a drone has heard of lately.
pub struct PeerTable {
    pub peers: Vec<Peer>,
}

/// What a message tells of its sender.
pub open spec fn sender_of(m: MessageView, tick: u64) -> PeerView {
    PeerView { id: m.sender_id, last_seen: tick, position: m.sender_pos, path: m.path }
}

/// The peer has been heard of lately.
pub open spec fn is_alive(tick: u64) -> spec_fn(PeerView) -> bool {
    |p: PeerView| tick < p.last_seen + DEAD_PEER_TICKS
}

impl View for PeerTable {
    type V = Seq<PeerView>;

    open spec fn view(&self) -> Seq<PeerView> {
        self.peers@.map_values(|p: Peer| p@)
    }
}

/// Peer `i` of the list has the given number.
pub open spec fn is_peer(peers: Seq<PeerView>, i: int, id: u32) -> bool {
    0 <= i < peers.len() && peers[i].id == id
}

/// No peer is listed twice.
pub open spec fn ids_differ(peers: Seq<PeerView>) -> bool {
    forall|i: int, j: int|
        0 <= i < j < peers.len() ==> (#[trigger] peers[i]).id != (#[trigger] peers[j]).id
}

/// The list after news of a peer.
pub open spec fn heard(peers: Seq<PeerView>, p: PeerView) -> Seq<PeerView> {
    if exists|i: int| is_peer(peers, i, p.id) {
        peers.update(choose|i: int| is_peer(peers, i, p.id), p)
    } else {
        peers.push(p)
    }
}

impl PeerTable {
    pub open spec fn wf(self) -> bool {
        ids_differ(self@)
    }

    pub fn new() -> (table: Self)
        ensures
            table@ == Seq::<PeerView>::empty(),
            table.wf(),
    {
        let table = PeerTable { peers: Vec::new() };
        assert(table@ =~= Seq::empty());
        table
    }

    /// Finds a peer by its number.
    fn find(&self, id: u32) -> (res: Option<usize>)
        ensures
            match res {
                Some(i) => is_peer(self@, i as int, id),
                None => forall|i: int| !is_peer(self@, i, id),
            },
    {
        let mut i: usize = 0;
        while i < self.peers.len()
            invariant
                0 <= i <= self.peers@.len(),
                forall|k: int| 0 <= k < i ==> !is_peer(self@, k, id),
            decreases self.peers@.len() - i,
        {
            assert(self@[i as int] == self.peers@[i as int]@);
            if self.peers[i].id == id {
                return Some(i);
            }
            i = i + 1;
        }
        None
    }

    /// Notes what a message tells of its sender.
    pub fn hear(&mut self, message: &Message, tick: u64)
        requires
            old(self).wf(),
        ensures
            final(self).wf(),
            final(self)@ == heard(old(self)@, sender_of(message@, tick)),
    {
        let peer = Peer {
            id: message.sender_id,
            last_seen: tick,
            position: message.sender_pos,
            path: copy_path(&message.path),
        };
        let ghost before = self@;
        let ghost news = peer@;
        match self.find(peer.id) {
            Some(i) => {
                self.peers.set(i, peer);
                proof {
                    let c = choose|c: int| is_peer(before, c, news.id);
                    assert(is_peer(before, c, news.id));
                    assert(before[c].id == before[i as int].id);
                    assert(self@ =~= before.update(i as int, news));
                }
            },
            None => {
                self.peers.push(peer);
                proof {
                    assert(self@ =~= before.push(news));
                    assert forall|k: int| 0 <= k < before.len() implies (#[trigger] before[k]).id
                        != news.id by {
                        assert(!is_peer(before, k, news.id));
                    }
                }
            },
        }
    }

    /// Forgets the peers that have been silent for too long.
    pub fn cull(&mut self, tick: u64)
        requires
            old(self).wf(),
        ensures
            final(self).wf(),
            final(self)@ == old(self)@.filter(is_alive(tick)),
    {
        let ghost before = self@;
        let ghost alive = is_alive(tick);
        let ghost mut done: int = 0;
        let mut i: usize = 0;
        proof {
            reveal(Seq::filter);
            assert(before.take(0).filter(alive) =~= Seq::empty());
            assert(before.skip(0) =~= before);
            assert(self@ =~= before.take(0).filter(alive) + before.skip(0));
        }
        while i < self.peers.len()
            invariant
                alive == is_alive(tick),
                0 <= i <= self.peers@.len(),
                0 <= done <= before.len(),
                before.take(done).filter(alive).len() == i,
                self@ == before.take(done).filter(alive) + before.skip(done),
            decreases self.peers@.len() - i,
        {
            let ghost kept = before.take(done).filter(alive);
            let ghost now = self@;
            proof {
                assert(now.len() == kept.len() + before.skip(done).len());
                assert(now[i as int] == before.skip(done)[0]);
                assert(now[i as int] == self.peers@[i as int]@);
                assert(before.take(done + 1).drop_last() =~= before.take(done));
                reveal(Seq::filter);
            }
            let age: u64 = if tick >= self.peers[i].last_seen {
                tick - self.peers[i].last_seen
            } else {
                0
            };
            if age >= DEAD_PEER_TICKS {
                self.peers.remove(i);
                assert(self@ =~= now.remove(i as int));
                assert(self@ =~= kept + before.skip(done + 1));
            } else {
                i = i + 1;
                assert(self@ =~= kept.push(before[done]) + before.skip(done + 1));
            }
            proof {
                done = done + 1;
            }
        }
        proof {
            assert(before.skip(done).len() == 0);
            assert(before.take(done) =~= before);
            assert(self@ =~= before.filter(alive));
            lemma_filter_keeps_ids(before, alive);
        }
    }
}

proof fn lemma_filter_keeps_ids(peers: Seq<PeerView>, f: spec_fn(PeerView) -> bool)
    requires
        ids_differ(peers),
    ensures
        ids_differ(peers.filter(f)),
    decreases peers.len(),
{
    reveal(Seq::filter);
    if peers.len() > 0 {
        let rest = peers.drop_last();
        lemma_filter_keeps_ids(rest, f);
        assert forall|k: int| 0 <= k < rest.filter(f).len() implies (#[trigger] rest.filter(f)[k]).id
            != peers.last().id by {
            let p = rest.filter(f)[k];
            assert(rest.filter(f).contains(p));
            rest.lemma_filter_contains_rev(f, p);
            let j = choose|j: int| 0 <= j < rest.len() && rest[j] == p;
            assert(peers[j].id != peers[peers.len() - 1].id);
        }
    }
}

/// A point as it is read off the wire, clipped to the limits of coordinates. What is
/// not a number is no point.
pub open spec fn wire_point(bits: (u32, u32)) -> Option<Vec2> {
    match (reading(bits.0), reading(bits.1)) {
        (Some(x), Some(y)) => Some(Vec2 { x: clipped(x) as i64, y: clipped(y) as i64 }),
        _ => None,
    }
}

/// The points as they are read off the wire. What is no point is left out.
pub open spec fn readable_points(s: Seq<(u32, u32)>) -> Seq<Vec2>
    decreases s.len(),
{
    if s.len() == 0 {
        Seq::empty()
    } else {
        let before = readable_points(s.drop_last());
        match wire_point(s.last()) {
            Some(p) => before.push(p),
            None => before,
        }
    }
}

/// Reads a point off the wire.
pub fn read_point(bits: (u32, u32)) -> (res: Option<Vec2>)
    ensures
        res == wire_point(bits),
        res matches Some(p) ==> p.in_range(),
{
    let x = read_single(bits.0);
    let y = read_single(bits.1);
    match (x, y) {
        (Some(x), Some(y)) => Some(Vec2::new(clip(x), clip(y))),
        _ => None,
    }
}

/// Reads points off the wire.
fn read_points(s: &Vec<(u32, u32)>) -> (points: Vec<Vec2>)
    ensures
        points@ == readable_points(s@),
        all_in_range(points@),
{
    let mut points: Vec<Vec2> = Vec::new();
    let mut i: usize = 0;
    assert(s@.take(0) =~= Seq::empty());
    while i < s.len()
        invariant
            0 <= i <= s@.len(),
            points@ == readable_points(s@.take(i as int)),
            all_in_range(points@),
        decreases s@.len() - i,
    {
        assert(s@.take(i + 1).drop_last() =~= s@.take(i as int));
        if let Some(p) = read_point(s[i]) {
            points.push(p);
        }
        i = i + 1;
    }
    assert(s@.take(s@.len() as int) =~= s@);
    points
}

impl PeerTable {
    /// Where the peers are.
    pub fn positions(&self) -> (points: Vec<Vec2>)
        ensures
            points@ == readable_points(self@.map_values(|p: PeerView| p.position)),
            all_in_range(points@),
    {
        let mut bits: Vec<(u32, u32)> = Vec::new();
        let mut i: usize = 0;
        while i < self.peers.len()
            invariant
                0 <= i <= self.peers@.len(),
                bits@.len() == i,
                forall|k: int| 0 <= k < i ==> #[trigger] bits@[k] == self.peers@[k].position,
            decreases self.peers@.len() - i,
        {
            bits.push(self.peers[i].position);
            i = i + 1;
        }
        assert(bits@ =~= self@.map_values(|p: PeerView| p.position));
        read_points(&bits)
    }

    /// Where the peers are going.
    pub fn paths(&self) -> (paths: Vec<Option<Vec<Vec2>>>)
        ensures
            paths@.len() == self@.len(),
            forall|k: int|
                0 <= k < paths@.len() ==> match #[trigger] paths@[k] {
                    Some(path) => self@[k].path is Some && path@ == readable_points(
                        self@[k].path->Some_0,
                    ) && all_in_range(path@),
                    None => self@[k].path is None,
                },
    {
        let mut paths: Vec<Option<Vec<Vec2>>> = Vec::new();
        let mut i: usize = 0;
        while i < self.peers.len()
            invariant
                0 <= i <= self.peers@.len(),
                paths@.len() == i,
                forall|k: int|
                    0 <= k < i ==> match #[trigger] paths@[k] {
                        Some(path) => self@[k].path is Some && path@ == readable_points(
                            self@[k].path->Some_0,
                        ) && all_in_range(path@),
                        None => self@[k].path is None,
                    },
            decreases self.peers@.len() - i,
        {
            assert(self@[i as int] == self.peers@[i as int]@);
            match &self.peers[i].path {
                Some(points) => {
                    paths.push(Some(read_points(points)));
                },
                None => {
                    paths.push(None);
                },
            }
            i = i + 1;
        }
        paths
    }
}

/// Of two drones, the one with the higher number opens the session.
pub open spec fn opens_session(own_id: u32, peer_id: u32) -> bool {
    own_id > peer_id
}

/// Checks whether a drone is to open a session with a peer.
pub fn should_initiate(own_id: u32, peer_id: u32, has_session: bool) -> (res: bool)
    ensures
        res == (opens_session(own_id, peer_id) && !has_session),
        res == (own_id > peer_id && !has_session),
{
    own_id > peer_id && !has_session
}

/// A point as it goes over the wire.
pub open spec fn wires_point(bits: (u32, u32), p: Vec2) -> bool {
    stands_for(bits.0, p.x as int) && stands_for(bits.1, p.y as int)
}

/// Points as they go over the wire.
pub open spec fn wires_points(bits: Seq<(u32, u32)>, points: Seq<Vec2>) -> bool {
    &&& bits.len() == points.len()
    &&& forall|k: int| 0 <= k < bits.len() ==> wires_point(#[trigger] bits[k], points[k])
}

/// Writes a point for the wire.
pub fn write_point(p: Vec2) -> (bits: (u32, u32))
    requires
        p.in_range(),
    ensures
        wires_point(bits, p),
{
    (write_single(p.x), write_single(p.y))
}

/// Writes a message about a drone: where it is, where it is going and whom it knows.
pub fn compose(
    msg_type: MsgType,
    sender_id: u32,
    position: Vec2,
    path: &Option<Vec<Vec2>>,
    table: &PeerTable,
    payload: Vec<u8>,
    tick: u64,
) -> (m: Message)
    requires
        position.in_range(),
        path matches Some(points) ==> all_in_range(points@),
    ensures
        m.msg_type == msg_type,
        m.sender_id == sender_id,
        wires_point(m.sender_pos, position),
        match *path {
            Some(points) => m.path is Some && wires_points(m.path->Some_0@, points@),
            None => m.path is None,
        },
        m.peer_list@ == table@.map_values(|p: PeerView| p.id),
        m.payload@ == payload@,
        m.timestamp == tick,
{
    let mut peer_list: Vec<u32> = Vec::new();
    let mut i: usize = 0;
    while i < table.peers.len()
        invariant
            0 <= i <= table.peers@.len(),
            peer_list@.len() == i,
            forall|k: int| 0 <= k < i ==> #[trigger] peer_list@[k] == table.peers@[k].id,
        decreases table.peers@.len() - i,
    {
        peer_list.push(table.peers[i].id);
        i = i + 1;
    }
    assert(peer_list@ =~= table@.map_values(|p: PeerView| p.id));
    let wire_path: Option<Vec<(u32, u32)>> = match path {
        Some(points) => {
            let mut bits: Vec<(u32, u32)> = Vec::new();
            let mut i: usize = 0;
            while i < points.len()
                invariant
                    0 <= i <= points@.len(),
                    all_in_range(points@),
                    bits@.len() == i,
                    forall|k: int|
                        0 <= k < i ==> wires_point(#[trigger] bits@[k], points@[k]),
                decreases points@.len() - i,
            {
                bits.push(write_point(points[i]));
                i = i + 1;
            }
            Some(bits)
        },
        None => None,
    };
    Message {
        msg_type,
        sender_id,
        sender_pos: write_point(position),
        path: wire_path,
        peer_list,
        payload,
        timestamp: tick,
    }
}

/// What arrived over the network.
pub enum Inbound {
    /// A message of a handshake.
    Handshake(Envelope),
    /// An encrypted message.
    Transport(Envelope),
    /// A message that is not encrypted.
    Plaintext(Message),
    /// Nothing that a drone understands.
    Unknown,
}

/// Bytes that start with the given envelope.
pub open spec fn is_envelope(bytes: Seq<u8>, tag: u8) -> bool {
    exists|e: EnvelopeView|
        e.sendable() && e.tag == tag && (#[trigger] e.encoding()).is_prefix_of(bytes)
}

/// Tells what arrived by its tag.
pub fn classify(bytes: &[u8]) -> (res: Inbound)
    ensures
        match res {
            Inbound::Handshake(e) => e.tag == HANDSHAKE_TAG && e@.encoding().is_prefix_of(bytes@),
            Inbound::Transport(e) => e.tag == TRANSPORT_TAG && e@.encoding().is_prefix_of(bytes@),
            Inbound::Plaintext(m) => m@.encoding().is_prefix_of(bytes@),
            Inbound::Unknown => forall|m: MessageView|
                m.sendable() && m.kind < 3 ==> !(#[trigger] m.encoding()).is_prefix_of(bytes@),
        },
        res is Handshake <==> is_envelope(bytes@, HANDSHAKE_TAG),
        res is Transport <==> is_envelope(bytes@, TRANSPORT_TAG),
{
    if let Some(e) = Envelope::from_bytes(bytes) {
        proof {
            assert(e.payload.len() == e.payload@.len());
            assert(e@.sendable());
            assert(is_envelope(bytes@, e.tag));
            assert forall|tag: u8| #[trigger] is_envelope(bytes@, tag) implies tag == e.tag by {
                let f = choose|f: EnvelopeView|
                    f.sendable() && f.tag == tag && (#[trigger] f.encoding()).is_prefix_of(bytes@);
                law_envelope_reads_back(e@, f, bytes@);
            }
        }
        if e.tag == HANDSHAKE_TAG {
            return Inbound::Handshake(e);
        }
        if e.tag == TRANSPORT_TAG {
            return Inbound::Transport(e);
        }
    }
    match Message::from_bytes(bytes) {
        Some(m) => Inbound::Plaintext(m),
        None => Inbound::Unknown,
    }
}

/// Of two drones exactly one opens the session, so that never both wait and never
/// both begin.
pub proof fn law_one_side_initiates(a: u32, b: u32)
    requires
        a != b,
    ensures
        opens_session(a, b) != opens_session(b, a),
{
}

/// Whoever sends a message is known afterwards, with what the message tells.
pub proof fn law_sender_is_known(peers: Seq<PeerView>, p: PeerView)
    requires
        ids_differ(peers),
    ensures
        ids_differ(heard(peers, p)),
        heard(peers, p).contains(p),
        forall|q: PeerView| q.id != p.id ==> (heard(peers, p).contains(q) <==> peers.contains(q)),
{
    if exists|i: int| is_peer(peers, i, p.id) {
        let i = choose|i: int| is_peer(peers, i, p.id);
        assert(is_peer(peers, i, p.id));
        let after = peers.update(i, p);
        assert(after[i] == p);
        assert forall|q: PeerView| q.id != p.id implies (after.contains(q) <==> peers.contains(
            q,
        )) by {
            if after.contains(q) {
                let k = choose|k: int| 0 <= k < after.len() && after[k] == q;
                assert(peers[k] == q);
            }
            if peers.contains(q) {
                let k = choose|k: int| 0 <= k < peers.len() && peers[k] == q;
                assert(after[k] == q);
            }
        }
    } else {
        let after = peers.push(p);
        assert(after[peers.len() as int] == p);
        assert forall|k: int| 0 <= k < peers.len() implies (#[trigger] peers[k]).id != p.id by {
            assert(!is_peer(peers, k, p.id));
        }
        assert forall|q: PeerView| q.id != p.id implies (after.contains(q) <==> peers.contains(
            q,
        )) by {
            if after.contains(q) {
                let k = choose|k: int| 0 <= k < after.len() && after[k] == q;
                assert(peers[k] == q);
            }
            if peers.contains(q) {
                let k = choose|k: int| 0 <= k < peers.len() && peers[k] == q;
                assert(after[k] == q);
            }
        }
    }
}

/// Of two drones the one with the higher number opens the session.
pub proof fn law_the_higher_number_opens(own_id: u32, peer_id: u32)
    ensures
        opens_session(own_id, peer_id) <==> own_id - peer_id >= 1,
{
}

/// Culling keeps exactly the peers that were heard of less than 625 ticks ago, as they are.
/// One whose news are from a later tick is kept too.
pub proof fn law_only_silent_peers_are_culled(peers: Seq<PeerView>, tick: u64, p: PeerView)
    ensures
        peers.filter(is_alive(tick)).contains(p) <==> peers.contains(p) && tick - p.last_seen < 625,
{
    let f = is_alive(tick);
    let kept = peers.filter(f);
    if kept.contains(p) {
        peers.lemma_filter_contains_rev(f, p);
        let k = choose|k: int| 0 <= k < kept.len() && kept[k] == p;
        broadcast use vstd::seq_lib::group_filter_ensures;

        assert(f(kept[k]));
    }
    if peers.contains(p) && tick - p.last_seen < 625 {
        let i = choose|i: int| 0 <= i < peers.len() && peers[i] == p;
        broadcast use vstd::seq_lib::group_filter_ensures;

        assert(f(peers[i]));
    }
}

/// Who hears of a peer keeps the order of the peers: a known one stays at its place, and a
/// new one comes last.
pub proof fn law_peers_keep_their_places(peers: Seq<PeerView>, p: PeerView, i: int)
    requires
        ids_differ(peers),
        0 <= i < peers.len(),
    ensures
        heard(peers, p)[i] == (if peers[i].id == p.id {
            p
        } else {
            peers[i]
        }),
        peers.len() <= heard(peers, p).len() <= peers.len() + 1,
{
    if exists|k: int| is_peer(peers, k, p.id) {
        let k = choose|k: int| is_peer(peers, k, p.id);
        assert(is_peer(peers, k, p.id));
    } else {
        assert(!is_peer(peers, i, p.id));
    }
}

/// What is noted of a sender is what its message tells, and the tick at which it came.
pub proof fn law_news_are_noted_as_told(m: MessageView, tick: u64)
    ensures
        sender_of(m, tick).id == m.sender_id,
        sender_of(m, tick).last_seen == tick,
        sender_of(m, tick).position == m.sender_pos,
        sender_of(m, tick).path == m.path,
{
}

/// A point is read with its coordinates as they were sent, up to 2^60 units, and with that
/// where they are larger. It is no point where one of them is not a number.
pub proof fn law_points_are_read_as_sent(bits: (u32, u32))
    ensures
        wire_point(bits) is None <==> reading(bits.0) is None || reading(bits.1) is None,
        wire_point(bits) matches Some(p) ==> {
            let x = reading(bits.0)->0;
            let y = reading(bits.1)->0;
            let limit = 0x1000_0000_0000_0000int;
            &&& -limit <= x <= limit ==> p.x == x
            &&& -limit <= y <= limit ==> p.y == y
            &&& x > limit ==> p.x == limit
            &&& x < -limit ==> p.x == -limit
            &&& y > limit ==> p.y == limit
            &&& y < -limit ==> p.y == -limit
        },
{
}

/// The points that are read come in the order in which they were sent, and none but those
/// that are no points is passed over.
pub proof fn law_points_are_read_in_order(s: Seq<(u32, u32)>, bits: (u32, u32))
    ensures
        readable_points(Seq::empty()).len() == 0,
        wire_point(bits) is None ==> readable_points(s.push(bits)) == readable_points(s),
        wire_point(bits) matches Some(p) ==> readable_points(s.push(bits)) == readable_points(
            s,
        ).push(p),
{
    assert(s.push(bits).drop_last() =~= s);
}

/// A point within range whose coordinates are single-precision numbers is read as it was
/// written.
pub proof fn law_exact_points_read_back(bits: (u32, u32), p: Vec2)
    requires
        wires_point(bits, p),
        p.in_range(),
        is_single(p.x as int) && is_single(p.y as int),
    ensures
        wire_point(bits) == Some(p),
{
    let x = choose|b: u32| #[trigger] units_of(b) == Some(p.x as int);
    let y = choose|b: u32| #[trigger] units_of(b) == Some(p.y as int);
    law_single_reads_back(p.x as int, x, bits.0);
    law_single_reads_back(p.y as int, y, bits.1);
}

/// A path of such points is read as it was written, point by point.
pub proof fn law_exact_paths_read_back(bits: Seq<(u32, u32)>, points: Seq<Vec2>)
    requires
        wires_points(bits, points),
        forall|k: int|
            0 <= k < points.len() ==> (#[trigger] points[k]).in_range() && is_single(
                points[k].x as int,
            ) && is_single(points[k].y as int),
    ensures
        readable_points(bits) == points,
    decreases points.len(),
{
    if points.len() == 0 {
        assert(readable_points(bits) =~= points);
    } else {
        let last = points.len() - 1;
        assert(wires_point(bits[last], points[last]));
        law_exact_points_read_back(bits[last], points[last]);
        let front = bits.drop_last();
        assert forall|k: int| 0 <= k < front.len() implies wires_point(
            #[trigger] front[k],
            points.drop_last()[k],
        ) by {
            assert(wires_point(bits[k], points[k]));
        }
        law_exact_paths_read_back(front, points.drop_last());
        assert(readable_points(bits) =~= points);
    }
}

/// Peers are seen as they are, in the order of the table.
pub proof fn law_peers_are_seen_as_they_are(table: PeerTable, i: int)
    ensures
        table@.len() == table.peers@.len(),
        0 <= i < table.peers@.len() ==> {
            let p = table.peers@[i];
            &&& table@[i].id == p.id && table@[i].last_seen == p.last_seen
            &&& table@[i].position == p.position
            &&& p.path is None ==> table@[i].path is None
            &&& p.path matches Some(path) ==> table@[i].path == Some(path@)
        },
{
}

/// Up to ten drones listen on ports from 8000 on.
pub proof fn law_drones_listen_from_port_8000()
    ensures
        BASE_PORT == 8000 && MAX_DRONES == 10,
{
}

} // verus!
