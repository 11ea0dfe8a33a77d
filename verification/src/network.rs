//! Wire types, and the Noise sessions that a drone keeps with its peers.
use crate::wire::{
    deserialize_envelope, deserialize_message, optional_view, serialize_envelope,
    serialize_message, EnvelopeView, MessageView,
};
use snow::params::NoiseParams;
use snow::{HandshakeState, TransportState};
use std::collections::HashMap;
use vstd::prelude::*;

verus! {

broadcast use vstd::std_specs::hash::group_hash_axioms;

pub const HANDSHAKE_TAG: u8 = 0x01;

pub const TRANSPORT_TAG: u8 = 0x02;

/// The protocol that all drones speak: `Noise_XX_25519_AESGCM_SHA256`.
pub open spec fn noise_pattern() -> Seq<char> {
    "Noise_XX_25519_AESGCM_SHA256"@
}

/// The longest private key that the Diffie-Hellman function takes.
pub const KEY_LEN: usize = 32;

#[derive(Clone, Copy, Debug, PartialEq, Eq, Structural)]
pub enum MsgType {
    Hello,
    Heartbeat,
    MapDiff,
}

impl MsgType {
    /// The number of the message type on the wire.
    pub open spec fn number(self) -> u32 {
        match self {
            MsgType::Hello => 0,
            MsgType::Heartbeat => 1,
            MsgType::MapDiff => 2,
        }
    }

    fn to_number(&self) -> (n: u32)
        ensures
            n == self.number(),
    {
        match self {
            MsgType::Hello => 0,
            MsgType::Heartbeat => 1,
            MsgType::MapDiff => 2,
        }
    }

    fn from_number(n: u32) -> (res: Option<MsgType>)
        ensures
            match res {
                Some(t) => t.number() == n,
                None => forall|t: MsgType| t.number() != n,
            },
    {
        if n == 0 {
            Some(MsgType::Hello)
        } else if n == 1 {
            Some(MsgType::Heartbeat)
        } else if n == 2 {
            Some(MsgType::MapDiff)
        } else {
            None
        }
    }
}

/// Wire-level application message. Heartbeats are sent plaintext. Map diffs are
/// serialized into this struct, then encrypted via `NoiseSessionTable`.
///
/// A coordinate is kept as the bits of the single-precision number that goes
/// over the wire.
#[derive(Debug)]
pub struct Message {
    pub msg_type: MsgType,
    pub sender_id: u32,
    pub sender_pos: (u32, u32),
    pub path: Option<Vec<(u32, u32)>>,
    pub peer_list: Vec<u32>,
    pub payload: Vec<u8>,
    pub timestamp: u64,
}

impl View for Message {
    type V = MessageView;

    open spec fn view(&self) -> MessageView {
        MessageView {
            kind: self.msg_type.number(),
            sender_id: self.sender_id,
            sender_pos: self.sender_pos,
            path: optional_view(self.path),
            peer_list: self.peer_list@,
            payload: self.payload@,
            timestamp: self.timestamp,
        }
    }
}

impl Clone for Message {
    fn clone(&self) -> (copy: Self)
        ensures
            copy@ == self@,
    {
        let copy = Message {
            msg_type: self.msg_type,
            sender_id: self.sender_id,
            sender_pos: self.sender_pos,
            path: copy_path(&self.path),
            peer_list: self.peer_list.clone(),
            payload: self.payload.clone(),
            timestamp: self.timestamp,
        };
        assert(copy.peer_list@ =~= self.peer_list@);
        assert(copy.payload@ =~= self.payload@);
        copy
    }
}

/// Known live peer tracked in a drone's routing table.
#[derive(Debug)]
pub struct Peer {
    pub id: u32,
    pub last_seen: u64,
    pub position: (u32, u32),
    pub path: Option<Vec<(u32, u32)>>,
}

impl Clone for Peer {
    fn clone(&self) -> (copy: Self)
        ensures
            copy@ == self@,
    {
        Peer {
            id: self.id,
            last_seen: self.last_seen,
            position: self.position,
            path: copy_path(&self.path),
        }
    }
}

/// Copies a path.
pub(crate) fn copy_path(path: &Option<Vec<(u32, u32)>>) -> (copy: Option<Vec<(u32, u32)>>)
    ensures
        optional_view(copy) == optional_view(*path),
{
    match path {
        Some(points) => {
            let mut copy: Vec<(u32, u32)> = Vec::new();
            let mut i: usize = 0;
            while i < points.len()
                invariant
                    0 <= i <= points@.len(),
                    copy@ == points@.take(i as int),
                decreases points@.len() - i,
            {
                copy.push(points[i]);
                i = i + 1;
                assert(points@.take(i as int) =~= points@.take(i - 1).push(points@[i - 1]));
            }
            assert(points@.take(i as int) =~= points@);
            Some(copy)
        },
        None => None,
    }
}

impl Message {
    /// The bytes that stand for the message on the wire.
    pub fn to_bytes(&self) -> (res: Result<Vec<u8>, bincode::Error>)
        ensures
            res is Ok,
            res->Ok_0@ == self@.encoding(),
    {
        serialize_message(
            (self.msg_type.to_number(), self.sender_id, self.sender_pos),
            &self.path,
            &self.peer_list,
            &self.payload,
            self.timestamp,
        )
    }

    /// Reads a message off the front of the bytes. `None` where they do not start
    /// with the bytes of any message.
    pub fn from_bytes(bytes: &[u8]) -> (res: Option<Self>)
        ensures
            match res {
                Some(m) => m@.encoding().is_prefix_of(bytes@),
                None => forall|m: MessageView|
                    m.sendable() && m.kind < 3 ==> !(#[trigger] m.encoding()).is_prefix_of(bytes@),
            },
    {
        match deserialize_message(bytes) {
            Ok((kind, sender_id, sender_pos, path, peer_list, payload, timestamp)) => {
                match MsgType::from_number(kind) {
                    Some(msg_type) => Some(
                        Message {
                            msg_type,
                            sender_id,
                            sender_pos,
                            path,
                            peer_list,
                            payload,
                            timestamp,
                        },
                    ),
                    None => {
                        proof {
                            let read = MessageView {
                                kind,
                                sender_id,
                                sender_pos,
                                path: optional_view(path),
                                peer_list: peer_list@,
                                payload: payload@,
                                timestamp,
                            };
                            assert(peer_list.len() == peer_list@.len());
                            assert(payload.len() == payload@.len());
                            if let Some(waypoints) = path {
                                assert(waypoints.len() == waypoints@.len());
                            }
                            assert(MsgType::Hello.number() == 0);
                            assert(MsgType::Heartbeat.number() == 1);
                            assert(MsgType::MapDiff.number() == 2);
                            assert forall|m: MessageView|
                                m.sendable() && m.kind < 3 implies !(
                            #[trigger] m.encoding()).is_prefix_of(bytes@) by {
                                if m.encoding().is_prefix_of(bytes@) {
                                    crate::wire::law_message_reads_back(m, read, bytes@);
                                }
                            }
                        }
                        None
                    },
                }
            },
            Err(_) => None,
        }
    }
}

/// UDP wire envelope wrapping either a Noise handshake fragment or an encrypted
/// transport payload.
#[derive(Debug)]
pub struct Envelope {
    /// `HANDSHAKE_TAG` or `TRANSPORT_TAG`.
    pub tag: u8,
    pub sender_id: u32,
    pub payload: Vec<u8>,
}

impl View for Envelope {
    type V = EnvelopeView;

    open spec fn view(&self) -> EnvelopeView {
        EnvelopeView { tag: self.tag, sender_id: self.sender_id, payload: self.payload@ }
    }
}

impl Envelope {
    /// The bytes that stand for the envelope on the wire.
    pub fn to_bytes(&self) -> (res: Result<Vec<u8>, bincode::Error>)
        ensures
            res is Ok,
            res->Ok_0@ == self@.encoding(),
    {
        serialize_envelope(self.tag, self.sender_id, &self.payload)
    }

    /// Reads an envelope off the front of the bytes. `None` where they do not
    /// start with the bytes of any envelope.
    pub fn from_bytes(bytes: &[u8]) -> (res: Option<Self>)
        ensures
            match res {
                Some(e) => e@.encoding().is_prefix_of(bytes@),
                None => forall|e: EnvelopeView|
                    e.sendable() ==> !(#[trigger] e.encoding()).is_prefix_of(bytes@),
            },
    {
        match deserialize_envelope(bytes) {
            Ok((tag, sender_id, payload)) => Some(Envelope { tag, sender_id, payload }),
            Err(_) => None,
        }
    }
}

#[verifier::external_type_specification]
#[verifier::external_body]
pub struct ExNoiseParams(NoiseParams);

#[verifier::external_type_specification]
#[verifier::external_body]
pub struct ExHandshakeState(HandshakeState);

#[verifier::external_type_specification]
#[verifier::external_body]
pub struct ExTransportState(TransportState);

#[verifier::external_type_specification]
#[verifier::external_body]
pub struct ExNoiseError(snow::Error);

/// What went wrong with a session.
#[derive(Clone, Copy, Debug, PartialEq, Eq, Structural)]
pub enum NoiseError {
    /// The Noise pattern string is invalid.
    Pattern,
    /// No keypair could be generated.
    Keypair,
    /// No handshake state could be built from the local key.
    Build,
    /// A handshake message is malformed or fails cryptographic verification.
    Read,
    /// The next handshake message could not be written.
    Write,
    /// The finished handshake could not be turned into a session.
    Transport,
    /// There is no session with the peer.
    NoSession(u32),
    /// The payload is too long or the session is exhausted.
    Encrypt,
    /// The payload is too long or fails authentication, or the session is
    /// exhausted.
    Decrypt,
}

/// What a handshake stands at: its protocol, which side it is, the private key with
/// which it was built, how many of the three messages it has written or read and
/// which these were, and whether it has never refused one.
pub struct Progress {
    pub protocol: Seq<char>,
    pub initiator: bool,
    pub static_key: Seq<u8>,
    pub position: nat,
    pub transcript: Seq<Seq<u8>>,
    pub undisturbed: bool,
}

/// A handshake before its first message.
pub open spec fn started(initiator: bool, static_key: Seq<u8>) -> Progress {
    Progress {
        protocol: noise_pattern(),
        initiator,
        static_key,
        position: 0,
        transcript: Seq::empty(),
        undisturbed: true,
    }
}

impl Progress {
    /// The next message is to be written, not read.
    pub open spec fn must_write(self) -> bool {
        self.initiator == (self.position % 2 == 0)
    }

    /// All messages have been exchanged.
    pub open spec fn finished(self) -> bool {
        self.position == 3
    }

    /// The same handshake one message further.
    pub open spec fn next(self, message: Seq<u8>) -> Progress {
        Progress {
            position: self.position + 1,
            transcript: self.transcript.push(message),
            ..self
        }
    }

    /// The same handshake after it has refused a message.
    pub open spec fn disturbed(self) -> Progress {
        Progress { undisturbed: false, ..self }
    }
}

/// The two sides have exchanged the same messages without refusing any, and `m` is the
/// next: `writer` has written it, and `reader` waits for it.
pub open spec fn continues(writer: Progress, reader: Progress, m: Seq<u8>) -> bool {
    &&& writer.protocol == noise_pattern()
    &&& reader.protocol == noise_pattern()
    &&& writer.initiator != reader.initiator
    &&& writer.undisturbed && reader.undisturbed
    &&& !reader.must_write() && !reader.finished()
    &&& writer.position == reader.position + 1
    &&& writer.transcript == reader.transcript.push(m)
    &&& m.len() == handshake_message_len(reader.position)
}

/// The length of a handshake message without payload: the ephemeral key; then the
/// ephemeral key, the encrypted static key and a tag; then the encrypted static
/// key and a tag.
pub open spec fn handshake_message_len(position: nat) -> nat {
    if position == 0 {
        32
    } else if position == 1 {
        96
    } else {
        64
    }
}

/// The most bytes of payload that are accepted inside a handshake message.
pub const HANDSHAKE_PAYLOAD: usize = 256;

/// What a session holds: the protocol, and for each direction the key and the
/// number of messages so far.
pub struct Channel {
    pub protocol: Seq<char>,
    pub send_key: Seq<u8>,
    pub send_count: u64,
    pub receive_key: Seq<u8>,
    pub receive_count: u64,
}

/// The name with which the parameters were parsed.
pub uninterp spec fn params_protocol(params: NoiseParams) -> Seq<char>;

/// What a handshake state of `snow` stands at.
pub uninterp spec fn progress(hs: HandshakeState) -> Progress;

/// The keys that a finished handshake state of `snow` has split off: for what the
/// initiator sends and for what the responder sends.
pub uninterp spec fn split_keys(hs: HandshakeState) -> (Seq<u8>, Seq<u8>);

/// The session with which a finished handshake ends.
pub open spec fn fresh_channel(p: Progress, keys: (Seq<u8>, Seq<u8>)) -> Channel {
    Channel {
        protocol: p.protocol,
        send_key: if p.initiator {
            keys.0
        } else {
            keys.1
        },
        send_count: 0,
        receive_key: if p.initiator {
            keys.1
        } else {
            keys.0
        },
        receive_count: 0,
    }
}

/// The session is the one with which the handshake that stands at `end` ends.
pub open spec fn ends_with(c: Channel, end: Progress) -> bool {
    exists|hs: HandshakeState|
        fresh_channel(progress(hs), #[trigger] split_keys(hs)) == c && progress(hs) == end
            && end.finished()
}

/// The session as the other side sees it.
pub open spec fn mirrored(c: Channel) -> Channel {
    Channel {
        protocol: c.protocol,
        send_key: c.receive_key,
        send_count: c.receive_count,
        receive_key: c.send_key,
        receive_count: c.send_count,
    }
}

/// The public key of the ephemeral keypair that a handshake state of `snow` holds.
pub uninterp spec fn ephemeral(hs: HandshakeState) -> Seq<u8>;

/// The third message as `HandshakeState::write_message` makes it of a state, without
/// payload and without a fresh key.
pub uninterp spec fn closing_message(hs: HandshakeState) -> Seq<u8>;

/// The message closes the handshake that stands at `p`.
pub open spec fn closes(message: Seq<u8>, p: Progress) -> bool {
    exists|hs: HandshakeState| message == #[trigger] closing_message(hs) && progress(hs) == p
}

/// The public key that the Diffie-Hellman function derives from a private key.
pub uninterp spec fn public_of(private: Seq<u8>) -> Seq<u8>;

/// Whether `HandshakeState::read_message` takes a message with room for
/// `HANDSHAKE_PAYLOAD` bytes of payload.
pub uninterp spec fn accepts(hs: HandshakeState, message: Seq<u8>) -> bool;

/// What a transport state of `snow` holds.
pub uninterp spec fn channel(t: TransportState) -> Channel;

/// The ciphertext that AES-256-GCM makes of a plaintext under a key and a message
/// number.
pub uninterp spec fn sealed(key: Seq<u8>, count: u64, plaintext: Seq<u8>) -> Seq<u8>;

/// The plaintext that AES-256-GCM makes of a ciphertext under a key and a message
/// number, if its tag is valid.
pub uninterp spec fn opened(key: Seq<u8>, count: u64, ciphertext: Seq<u8>) -> Option<Seq<u8>>;

/// How much longer a ciphertext is than its plaintext.
pub const TAG_LEN: usize = 16;

/// The longest Noise message.
pub const MAX_NOISE_MESSAGE: usize = 65535;

/// Parses the pattern with `NoiseParams::from_str`. It knows the pattern that the
/// drones speak, and keeps the string as the name of the protocol.
#[verifier::external_body]
fn parse_params(pattern: &str) -> (res: Result<NoiseParams, snow::Error>)
    ensures
        res matches Ok(params) ==> params_protocol(params) == pattern@,
        pattern@ == noise_pattern() ==> res is Ok,
{
    pattern.parse()
}

/// Draws a keypair with `Builder::generate_keypair`; both keys of the Diffie-Hellman
/// function of the drones' protocol have 32 bytes, and the public key is derived from
/// the private one. Which keys come out is left to chance. There is no error for this
/// protocol; without any randomness from the operating system the call panics.
#[verifier::external_body]
fn draw_keypair(params: NoiseParams) -> (res: Result<(Vec<u8>, Vec<u8>), snow::Error>)
    requires
        params_protocol(params) == noise_pattern(),
    ensures
        res is Ok,
        res matches Ok(pair) ==> pair.0@.len() == KEY_LEN && pair.1@.len() == KEY_LEN && pair.1@
            == public_of(pair.0@),
{
    snow::Builder::new(params).generate_keypair().map(|pair| (pair.private, pair.public))
}

/// Starts a handshake with `Builder::build_initiator`, with the private key as its
/// static key. With a key of at most 32 bytes the drones' protocol has all it needs;
/// a longer key would make it panic.
#[verifier::external_body]
fn build_initiator(params: NoiseParams, private_key: &Vec<u8>) -> (res: Result<
    HandshakeState,
    snow::Error,
>)
    requires
        params_protocol(params) == noise_pattern(),
        private_key@.len() <= KEY_LEN,
    ensures
        res is Ok,
        progress(res->Ok_0) == started(true, private_key@),
{
    snow::Builder::new(params).local_private_key(private_key).build_initiator()
}

/// Starts the other side of a handshake with `Builder::build_responder`, with the
/// private key as its static key. With a key of at most 32 bytes the drones' protocol
/// has all it needs; a longer key would make it panic. The first message carries an
/// ephemeral key in the clear, so that any message of 32 bytes and a payload that
/// fits is taken.
#[verifier::external_body]
fn build_responder(params: NoiseParams, private_key: &Vec<u8>) -> (res: Result<
    HandshakeState,
    snow::Error,
>)
    requires
        params_protocol(params) == noise_pattern(),
        private_key@.len() <= KEY_LEN,
    ensures
        res is Ok,
        progress(res->Ok_0) == started(false, private_key@),
        forall|message: Seq<u8>|
            #[trigger] accepts(res->Ok_0, message) == (KEY_LEN <= message.len() <= KEY_LEN
                + HANDSHAKE_PAYLOAD),
{
    snow::Builder::new(params).local_private_key(private_key).build_responder()
}

/// Reads a handshake message with `HandshakeState::read_message`. It succeeds or
/// fails by the state and the message alone; only a state that waits for a
/// message succeeds, and it is then one message further. A failure leaves it
/// where it stands, but what it has computed so far is not all taken back. A message
/// that the other side of the same exchange has written is taken, and after the last
/// one both sides have split off the same keys: they have mixed the same messages,
/// and Diffie-Hellman gives both the same secrets.
#[verifier::external_body]
fn read_handshake(hs: &mut HandshakeState, message: &[u8]) -> (res: Result<usize, snow::Error>)
    requires
        progress(*old(hs)).protocol == noise_pattern(),
    ensures
        res is Ok == accepts(*old(hs), message@),
        res is Ok ==> !progress(*old(hs)).must_write() && !progress(*old(hs)).finished()
            && progress(*final(hs)) == progress(*old(hs)).next(message@),
        res is Err ==> progress(*final(hs)) == progress(*old(hs)).disturbed(),
        ephemeral(*final(hs)) == ephemeral(*old(hs)),
        forall|w: HandshakeState|
            continues(#[trigger] progress(w), progress(*old(hs)), message@) ==> res is Ok && (
            progress(*final(hs)).finished() ==> split_keys(*final(hs)) == split_keys(w)),
{
    let mut payload = [0u8; HANDSHAKE_PAYLOAD];
    hs.read_message(message, &mut payload)
}

/// Writes a handshake message without payload with `HandshakeState::write_message`.
/// It succeeds exactly if it is this side's turn and messages are left. The first two
/// messages start with the public key of a fresh ephemeral keypair, which is left to
/// chance; the third is a function of the state.
#[verifier::external_body]
fn write_handshake(hs: &mut HandshakeState) -> (res: Result<Vec<u8>, snow::Error>)
    requires
        progress(*old(hs)).protocol == noise_pattern(),
    ensures
        res is Ok == (progress(*old(hs)).must_write() && progress(*old(hs)).position < 3),
        res is Ok ==> res->Ok_0@.len() == handshake_message_len(progress(*old(hs)).position)
            && progress(*final(hs)) == progress(*old(hs)).next(res->Ok_0@),
        res is Ok && progress(*old(hs)).position < 2 ==> res->Ok_0@.take(32) == ephemeral(
            *final(hs),
        ),
        res is Ok && progress(*old(hs)).position == 2 ==> res->Ok_0@ == closing_message(*old(hs)),
        res is Err ==> progress(*final(hs)) == progress(*old(hs)),
{
    let mut message = vec![0u8; 1024];
    let len = hs.write_message(&[], &mut message)?;
    message.truncate(len);
    Ok(message)
}

/// Asks `HandshakeState::is_handshake_finished`, which compares the position with the
/// number of messages, three in the drones' protocol.
#[verifier::external_body]
fn handshake_finished(hs: &HandshakeState) -> (res: bool)
    requires
        progress(*hs).protocol == noise_pattern(),
    ensures
        res == progress(*hs).finished(),
{
    hs.is_handshake_finished()
}

/// Ends a handshake with `HandshakeState::into_transport_mode`, which succeeds exactly
/// if it is finished. Both directions start counting at zero, the initiator sends
/// with the first of the split keys and receives with the second, and the
/// responder the other way round.
#[verifier::external_body]
fn into_transport(hs: HandshakeState) -> (res: Result<TransportState, snow::Error>)
    requires
        progress(hs).protocol == noise_pattern(),
    ensures
        res is Ok == progress(hs).finished(),
        res matches Ok(t) ==> channel(t) == fresh_channel(
            progress(hs),
            split_keys(hs),
        ),
{
    hs.into_transport_mode()
}

/// Encrypts with `TransportState::write_message`. It succeeds exactly if the message
/// does not become longer than Noise allows and a message number is left; the
/// ciphertext is a function of key, number and plaintext.
#[verifier::external_body]
fn seal(t: &mut TransportState, plaintext: &[u8]) -> (res: Result<Vec<u8>, snow::Error>)
    requires
        channel(*old(t)).protocol == noise_pattern(),
    ensures
        res is Ok == (plaintext@.len() + TAG_LEN <= MAX_NOISE_MESSAGE && channel(*old(t)).send_count
            < u64::MAX),
        res is Ok ==> res->Ok_0@ == sealed(
            channel(*old(t)).send_key,
            channel(*old(t)).send_count,
            plaintext@,
        ) && res->Ok_0@.len() == plaintext@.len() + TAG_LEN && channel(*final(t)) == (Channel {
            send_count: (channel(*old(t)).send_count + 1) as u64,
            ..channel(*old(t))
        }),
        res is Err ==> channel(*final(t)) == channel(*old(t)),
{
    let mut buf = vec![0u8; plaintext.len() + 1024];
    let len = t.write_message(plaintext, &mut buf)?;
    buf.truncate(len);
    Ok(buf)
}

/// Decrypts with `TransportState::read_message`. It succeeds exactly if the message is
/// no longer than Noise allows, a message number is left and the tag is valid; the
/// plaintext is a function of key, number and ciphertext. What was sealed under
/// the same key and number opens to the plaintext of which it was made.
#[verifier::external_body]
fn open(t: &mut TransportState, ciphertext: &[u8]) -> (res: Result<Vec<u8>, snow::Error>)
    requires
        channel(*old(t)).protocol == noise_pattern(),
    ensures
        res is Ok == (TAG_LEN <= ciphertext@.len() <= MAX_NOISE_MESSAGE && channel(
            *old(t),
        ).receive_count < u64::MAX && opened(
            channel(*old(t)).receive_key,
            channel(*old(t)).receive_count,
            ciphertext@,
        ) is Some),
        res is Ok ==> opened(
            channel(*old(t)).receive_key,
            channel(*old(t)).receive_count,
            ciphertext@,
        ) == Some(res->Ok_0@),
        res is Ok ==> res->Ok_0@.len() + TAG_LEN == ciphertext@.len() && channel(*final(t)) == (
        Channel {
            receive_count: (channel(*old(t)).receive_count + 1) as u64,
            ..channel(*old(t))
        }),
        res is Err ==> channel(*final(t)) == channel(*old(t)),
        forall|plaintext: Seq<u8>|
            ciphertext@ == #[trigger] sealed(
                channel(*old(t)).receive_key,
                channel(*old(t)).receive_count,
                plaintext,
            ) && plaintext.len() + TAG_LEN <= MAX_NOISE_MESSAGE && channel(*old(t)).receive_count
                < u64::MAX ==> res is Ok && res->Ok_0@ == plaintext,
{
    let mut buf = vec![0u8; ciphertext.len() + 1024];
    let len = t.read_message(ciphertext, &mut buf)?;
    buf.truncate(len);
    Ok(buf)
}

/// Generates a fresh Noise static keypair for a drone instance: the private and the
/// public key.
pub fn generate_keypair() -> (res: Result<(Vec<u8>, Vec<u8>), NoiseError>)
    ensures
        res is Ok,
        res->Ok_0.0@.len() == KEY_LEN,
        res->Ok_0.1@.len() == KEY_LEN,
        res->Ok_0.1@ == public_of(res->Ok_0.0@),
{
    let params = match parse_params("Noise_XX_25519_AESGCM_SHA256") {
        Ok(params) => params,
        Err(_) => return Err(NoiseError::Pattern),
    };
    match draw_keypair(params) {
        Ok(pair) => Ok(pair),
        Err(_) => Err(NoiseError::Keypair),
    }
}

/// A completed Noise transport session with a specific peer. The transport state
/// is private: all crypto flows through `NoiseSessionTable::encrypt` and
/// `NoiseSessionTable::decrypt`.
pub struct NoiseSession {
    transport: TransportState,
}

impl View for NoiseSession {
    type V = Channel;

    closed spec fn view(&self) -> Channel {
        channel(self.transport)
    }
}

/// Tracks all per-peer Noise XX sessions for a single drone. Handles the 3-message
/// handshake and transitions to encrypted transport.
pub struct NoiseSessionTable {
    local_private_key: Vec<u8>,
    /// Completed encrypted sessions keyed by peer ID.
    pub sessions: HashMap<u32, NoiseSession>,
    /// In-progress XX handshake states keyed by peer ID.
    handshakes: HashMap<u32, HandshakeState>,
}

/// A handshake that waits for the peer: the initiator after the first message, the
/// responder after the second.
pub open spec fn awaits_peer(p: Progress) -> bool {
    &&& p.protocol == noise_pattern()
    &&& p.position == if p.initiator {
        1nat
    } else {
        2nat
    }
}

impl NoiseSessionTable {
    /// The completed sessions.
    pub closed spec fn established(self) -> Map<u32, NoiseSession> {
        self.sessions@
    }

    /// The handshakes in progress.
    pub closed spec fn pending(self) -> Map<u32, HandshakeState> {
        self.handshakes@
    }

    /// The private key of this drone.
    pub closed spec fn key(self) -> Seq<u8> {
        self.local_private_key@
    }

    /// The key has the right length, every handshake in progress was built with it and
    /// waits for its peer, and all sessions speak the drones' protocol.
    pub open spec fn wf(self) -> bool {
        &&& self.key().len() <= KEY_LEN
        &&& forall|p: u32|
            self.pending().contains_key(p) ==> awaits_peer(
                progress(#[trigger] self.pending()[p]),
            ) && progress(self.pending()[p]).static_key == self.key()
        &&& forall|p: u32|
            self.established().contains_key(p) ==> (#[trigger] self.established()[p])@.protocol
                == noise_pattern()
    }

    /// A table without sessions.
    pub fn new(local_private_key: Vec<u8>) -> (table: Self)
        requires
            local_private_key@.len() <= KEY_LEN,
        ensures
            table.wf(),
            table.key() == local_private_key@,
            table.established() == Map::<u32, NoiseSession>::empty(),
            table.pending() == Map::<u32, HandshakeState>::empty(),
    {
        Self { local_private_key, sessions: HashMap::new(), handshakes: HashMap::new() }
    }

    /// Returns true if we have a completed encrypted session with this peer.
    pub fn has_session(&self, peer_id: u32) -> (res: bool)
        ensures
            res == self.established().contains_key(peer_id),
    {
        self.sessions.contains_key(&peer_id)
    }

    /// Initiates an outbound Noise XX handshake. Returns the first handshake message
    /// bytes to send to the peer. A handshake with the peer that was in progress
    /// is given up.
    pub fn initiate_handshake(&mut self, peer_id: u32) -> (res: Result<Vec<u8>, NoiseError>)
        requires
            old(self).wf(),
        ensures
            res is Ok,
            res->Ok_0@.len() == handshake_message_len(0),
            final(self).wf(),
            final(self).key() == old(self).key(),
            final(self).established() == old(self).established(),
            final(self).pending().contains_key(peer_id),
            progress(final(self).pending()[peer_id]) == started(true, old(self).key()).next(
                res->Ok_0@,
            ),
            res->Ok_0@.take(32) == ephemeral(final(self).pending()[peer_id]),
            final(self).pending().remove(peer_id) == old(self).pending().remove(peer_id),
    {
        assert(self.pending() == self.handshakes@);
        assert(self.established() == self.sessions@);
        let params = match parse_params("Noise_XX_25519_AESGCM_SHA256") {
            Ok(params) => params,
            Err(_) => return Err(NoiseError::Pattern),
        };
        let mut hs = match build_initiator(params, &self.local_private_key) {
            Ok(hs) => hs,
            Err(_) => return Err(NoiseError::Build),
        };
        let message = match write_handshake(&mut hs) {
            Ok(message) => message,
            Err(_) => return Err(NoiseError::Write),
        };
        self.handshakes.insert(peer_id, hs);
        assert(self.handshakes@.remove(peer_id) =~= old(self).handshakes@.remove(peer_id));
        Ok(message)
    }

    /// Turns a finished handshake into the session with the peer.
    fn promote(&mut self, peer_id: u32, hs: HandshakeState) -> (res: Result<(), NoiseError>)
        requires
            old(self).wf(),
            progress(hs).protocol == noise_pattern(),
            progress(hs).finished(),
        ensures
            res is Ok,
            final(self).wf(),
            final(self).key() == old(self).key(),
            final(self).pending() == old(self).pending(),
            final(self).established().contains_key(peer_id),
            final(self).established()[peer_id]@ == fresh_channel(progress(hs), split_keys(hs)),
            final(self).established().remove(peer_id) == old(self).established().remove(peer_id),
    {
        assert(self.pending() == self.handshakes@);
        assert(self.established() == self.sessions@);
        match into_transport(hs) {
            Ok(transport) => {
                self.sessions.insert(peer_id, NoiseSession { transport });
                assert(self.sessions@.remove(peer_id) =~= old(self).sessions@.remove(peer_id));
                Ok(())
            },
            Err(_) => Err(NoiseError::Transport),
        }
    }

    /// Processes an inbound handshake message from a peer. Returns `Some(reply_bytes)`
    /// if a response needs to be sent back, and `None` if none does. The session is
    /// promoted as soon as the last of the three messages has been written or read.
    /// A message that is malformed or fails cryptographic verification is an error
    /// and leaves a handshake in progress where it stands; one from a peer with
    /// which there is a session already is ignored. What the other side of an
    /// exchange that nobody disturbed has written is taken, and the responder then
    /// has the session that mirrors the initiator's.
    pub fn process_handshake_msg(&mut self, peer_id: u32, incoming: &[u8]) -> (res: Result<
        Option<Vec<u8>>,
        NoiseError,
    >)
        requires
            old(self).wf(),
        ensures
            final(self).wf(),
            final(self).key() == old(self).key(),
            final(self).pending().remove(peer_id) == old(self).pending().remove(peer_id),
            final(self).established().remove(peer_id) == old(self).established().remove(peer_id),
            old(self).pending().contains_key(peer_id) && accepts(
                old(self).pending()[peer_id],
                incoming@,
            ) ==> {
                &&& res is Ok
                &&& res->Ok_0 is Some == progress(old(self).pending()[peer_id]).initiator
                &&& !final(self).pending().contains_key(peer_id)
                &&& final(self).established().contains_key(peer_id)
                &&& {
                    let read = progress(old(self).pending()[peer_id]).next(incoming@);
                    let session = final(self).established()[peer_id]@;
                    match res->Ok_0 {
                        Some(reply) => reply@.len() == handshake_message_len(2) && closes(
                            reply@,
                            read,
                        ) && ends_with(session, read.next(reply@)),
                        None => ends_with(session, read),
                    }
                }
            },
            old(self).pending().contains_key(peer_id) && !accepts(
                old(self).pending()[peer_id],
                incoming@,
            ) ==> {
                &&& res == Err::<Option<Vec<u8>>, NoiseError>(NoiseError::Read)
                &&& final(self).pending().contains_key(peer_id)
                &&& progress(final(self).pending()[peer_id]) == progress(
                    old(self).pending()[peer_id],
                ).disturbed()
                &&& final(self).established() == old(self).established()
            },
            !old(self).pending().contains_key(peer_id) && !old(self).established().contains_key(
                peer_id,
            ) && KEY_LEN <= incoming@.len() <= KEY_LEN + HANDSHAKE_PAYLOAD ==> {
                &&& res is Ok
                &&& res->Ok_0 is Some
                &&& res->Ok_0->0@.len() == handshake_message_len(1)
                &&& final(self).pending().contains_key(peer_id)
                &&& progress(final(self).pending()[peer_id]) == started(
                    false,
                    old(self).key(),
                ).next(incoming@).next(res->Ok_0->0@)
                &&& res->Ok_0->0@.take(32) == ephemeral(final(self).pending()[peer_id])
                &&& final(self).established() == old(self).established()
            },
            !old(self).pending().contains_key(peer_id) && !old(self).established().contains_key(
                peer_id,
            ) && !(KEY_LEN <= incoming@.len() <= KEY_LEN + HANDSHAKE_PAYLOAD) ==> {
                &&& res == Err::<Option<Vec<u8>>, NoiseError>(NoiseError::Read)
                &&& final(self).pending() == old(self).pending()
                &&& final(self).established() == old(self).established()
            },
            !old(self).pending().contains_key(peer_id) && old(self).established().contains_key(
                peer_id,
            ) ==> {
                &&& res == Ok::<Option<Vec<u8>>, NoiseError>(None)
                &&& final(self).pending() == old(self).pending()
                &&& final(self).established() == old(self).established()
            },
            forall|w: HandshakeState|
                old(self).pending().contains_key(peer_id) && continues(
                    #[trigger] progress(w),
                    progress(old(self).pending()[peer_id]),
                    incoming@,
                ) ==> {
                    &&& res is Ok
                    &&& res->Ok_0 is Some == progress(old(self).pending()[peer_id]).initiator
                    &&& final(self).established().contains_key(peer_id)
                    &&& !progress(old(self).pending()[peer_id]).initiator
                        ==> final(self).established()[peer_id]@ == mirrored(
                        fresh_channel(progress(w), split_keys(w)),
                    )
                },
    {
        assert(self.pending() == self.handshakes@);
        assert(self.established() == self.sessions@);
        if let Some(mut hs) = self.handshakes.remove(&peer_id) {
            if read_handshake(&mut hs, incoming).is_err() {
                self.handshakes.insert(peer_id, hs);
                assert(self.handshakes@.remove(peer_id) =~= old(self).handshakes@.remove(peer_id));
                return Err(NoiseError::Read);
            }
            if handshake_finished(&hs) {
                self.promote(peer_id, hs)?;
                return Ok(None);
            }
            let reply = match write_handshake(&mut hs) {
                Ok(reply) => reply,
                Err(_) => return Err(NoiseError::Write),
            };
            if handshake_finished(&hs) {
                self.promote(peer_id, hs)?;
            } else {
                self.handshakes.insert(peer_id, hs);
            }
            return Ok(Some(reply));
        }
        assert(self.handshakes@ =~= old(self).handshakes@);
        if !self.sessions.contains_key(&peer_id) {
            let params = match parse_params("Noise_XX_25519_AESGCM_SHA256") {
                Ok(params) => params,
                Err(_) => return Err(NoiseError::Pattern),
            };
            let mut hs = match build_responder(params, &self.local_private_key) {
                Ok(hs) => hs,
                Err(_) => return Err(NoiseError::Build),
            };
            if read_handshake(&mut hs, incoming).is_err() {
                return Err(NoiseError::Read);
            }
            let reply = match write_handshake(&mut hs) {
                Ok(reply) => reply,
                Err(_) => return Err(NoiseError::Write),
            };
            if handshake_finished(&hs) {
                self.promote(peer_id, hs)?;
                return Ok(Some(reply));
            }
            self.handshakes.insert(peer_id, hs);
            assert(self.handshakes@.remove(peer_id) =~= old(self).handshakes@.remove(peer_id));
            return Ok(Some(reply));
        }
        Ok(None)
    }

    /// Encrypts a plaintext payload for a peer using the established Noise transport.
    pub fn encrypt(&mut self, peer_id: u32, plaintext: &[u8]) -> (res: Result<Vec<u8>, NoiseError>)
        requires
            old(self).wf(),
        ensures
            final(self).wf(),
            final(self).key() == old(self).key(),
            final(self).pending() == old(self).pending(),
            final(self).established().dom() == old(self).established().dom(),
            final(self).established().remove(peer_id) == old(self).established().remove(peer_id),
            !old(self).established().contains_key(peer_id) ==> res == Err::<Vec<u8>, NoiseError>(
                NoiseError::NoSession(peer_id),
            ),
            old(self).established().contains_key(peer_id) ==> {
                let before = old(self).established()[peer_id]@;
                let after = final(self).established()[peer_id]@;
                if plaintext@.len() + TAG_LEN <= MAX_NOISE_MESSAGE && before.send_count < u64::MAX {
                    &&& res is Ok
                    &&& res->Ok_0@ == sealed(before.send_key, before.send_count, plaintext@)
                    &&& res->Ok_0@.len() == plaintext@.len() + TAG_LEN
                    &&& after == (Channel {
                        send_count: (before.send_count + 1) as u64,
                        ..before
                    })
                } else {
                    &&& res == Err::<Vec<u8>, NoiseError>(NoiseError::Encrypt)
                    &&& after == before
                }
            },
    {
        assert(self.pending() == self.handshakes@);
        assert(self.established() == self.sessions@);
        let mut session = match self.sessions.remove(&peer_id) {
            Some(session) => session,
            None => {
                assert(self.sessions@ =~= old(self).sessions@);
                return Err(NoiseError::NoSession(peer_id));
            },
        };
        let sealed_payload = seal(&mut session.transport, plaintext);
        self.sessions.insert(peer_id, session);
        assert(self.sessions@.dom() =~= old(self).sessions@.dom());
        assert(self.sessions@.remove(peer_id) =~= old(self).sessions@.remove(peer_id));
        match sealed_payload {
            Ok(ciphertext) => Ok(ciphertext),
            Err(_) => Err(NoiseError::Encrypt),
        }
    }

    /// Decrypts a ciphertext payload from a peer using the established Noise
    /// transport. What the peer sealed under the key and the message number that
    /// this side expects comes back as it was.
    pub fn decrypt(&mut self, peer_id: u32, ciphertext: &[u8]) -> (res: Result<Vec<u8>, NoiseError>)
        requires
            old(self).wf(),
        ensures
            final(self).wf(),
            final(self).key() == old(self).key(),
            final(self).pending() == old(self).pending(),
            final(self).established().dom() == old(self).established().dom(),
            final(self).established().remove(peer_id) == old(self).established().remove(peer_id),
            !old(self).established().contains_key(peer_id) ==> res == Err::<Vec<u8>, NoiseError>(
                NoiseError::NoSession(peer_id),
            ),
            old(self).established().contains_key(peer_id) ==> {
                let before = old(self).established()[peer_id]@;
                let after = final(self).established()[peer_id]@;
                let plaintext = opened(before.receive_key, before.receive_count, ciphertext@);
                if TAG_LEN <= ciphertext@.len() <= MAX_NOISE_MESSAGE && before.receive_count
                    < u64::MAX && plaintext is Some {
                    &&& res is Ok
                    &&& Some(res->Ok_0@) == plaintext
                    &&& res->Ok_0@.len() + TAG_LEN == ciphertext@.len()
                    &&& after == (Channel {
                        receive_count: (before.receive_count + 1) as u64,
                        ..before
                    })
                } else {
                    &&& res == Err::<Vec<u8>, NoiseError>(NoiseError::Decrypt)
                    &&& after == before
                }
            },
            forall|plaintext: Seq<u8>|
                old(self).established().contains_key(peer_id) && ciphertext@ == #[trigger] sealed(
                    old(self).established()[peer_id]@.receive_key,
                    old(self).established()[peer_id]@.receive_count,
                    plaintext,
                ) && plaintext.len() + TAG_LEN <= MAX_NOISE_MESSAGE
                    && old(self).established()[peer_id]@.receive_count < u64::MAX ==> res is Ok
                    && res->Ok_0@ == plaintext,
    {
        assert(self.pending() == self.handshakes@);
        assert(self.established() == self.sessions@);
        let mut session = match self.sessions.remove(&peer_id) {
            Some(session) => session,
            None => {
                assert(self.sessions@ =~= old(self).sessions@);
                return Err(NoiseError::NoSession(peer_id));
            },
        };
        let opened_payload = open(&mut session.transport, ciphertext);
        self.sessions.insert(peer_id, session);
        assert(self.sessions@.dom() =~= old(self).sessions@.dom());
        assert(self.sessions@.remove(peer_id) =~= old(self).sessions@.remove(peer_id));
        match opened_payload {
            Ok(plaintext) => Ok(plaintext),
            Err(_) => Err(NoiseError::Decrypt),
        }
    }
}

/// Three messages that reach the other side as they were written make a session on both
/// sides: the reply of the responder to the first message is one that the initiator
/// takes, and the reply of the initiator is one that the responder takes.
pub proof fn law_messages_follow_each_other(
    initiator_key: Seq<u8>,
    responder_key: Seq<u8>,
    first: Seq<u8>,
    second: Seq<u8>,
    third: Seq<u8>,
)
    requires
        first.len() == handshake_message_len(0),
        second.len() == handshake_message_len(1),
        third.len() == handshake_message_len(2),
    ensures
        ({
            let a = started(true, initiator_key).next(first);
            let b = started(false, responder_key).next(first).next(second);
            &&& continues(b, a, second)
            &&& continues(a.next(second).next(third), b, third)
            &&& a.next(second).next(third).finished()
            &&& b.next(third).finished()
        }),
{
    let a = started(true, initiator_key).next(first);
    let b = started(false, responder_key).next(first).next(second);
    assert(b.transcript =~= a.transcript.push(second));
    assert(a.next(second).next(third).transcript =~= b.transcript.push(third));
}

/// Each side of a session receives with the key with which the other sends, and expects
/// the number of the other's next message: it looks for what the other seals.
pub proof fn law_sessions_match(c: Channel, plaintext: Seq<u8>)
    ensures
        mirrored(mirrored(c)) == c,
        sealed(c.send_key, c.send_count, plaintext) == sealed(
            mirrored(c).receive_key,
            mirrored(c).receive_count,
            plaintext,
        ),
{
}

/// The three kinds of messages are told apart by the numbers 0, 1 and 2, and the two kinds
/// of envelopes by 1 and 2. A key has 32 bytes, and a sealed message 16 more than its text
/// and at most 65535; a handshake message carries at most 256 bytes of text.
pub proof fn law_kinds_have_their_numbers(a: MsgType, b: MsgType)
    ensures
        MsgType::Hello.number() == 0 && MsgType::Heartbeat.number() == 1
            && MsgType::MapDiff.number() == 2,
        a.number() == b.number() ==> a == b,
        HANDSHAKE_TAG == 1 && TRANSPORT_TAG == 2,
        KEY_LEN == 32 && TAG_LEN == 16 && MAX_NOISE_MESSAGE == 65_535,
        HANDSHAKE_PAYLOAD == 256,
{
}

/// A handshake takes three messages: the initiator writes the first and the third, and the
/// responder the second; each side reads what the other writes. Every message is added to
/// what was exchanged, and nothing else about the handshake changes.
pub proof fn law_handshake_takes_three_messages(
    initiator: bool,
    key: Seq<u8>,
    m1: Seq<u8>,
    m2: Seq<u8>,
    m3: Seq<u8>,
)
    ensures
        ({
            let p0 = started(initiator, key);
            let p1 = p0.next(m1);
            let p2 = p1.next(m2);
            let p3 = p2.next(m3);
            &&& p0.must_write() == initiator && !p0.finished()
            &&& p1.must_write() == !initiator && !p1.finished()
            &&& p2.must_write() == initiator && !p2.finished()
            &&& p3.finished()
            &&& p3.transcript == seq![m1, m2, m3]
            &&& p3.initiator == initiator && p3.static_key == key && p3.undisturbed
            &&& p3.protocol == "Noise_XX_25519_AESGCM_SHA256"@
            &&& handshake_message_len(0) == 32 && handshake_message_len(1) == 96
            &&& handshake_message_len(2) == 64
            &&& !p1.disturbed().undisturbed && p1.disturbed().transcript == p1.transcript
        }),
{
    let p3 = started(initiator, key).next(m1).next(m2).next(m3);
    assert(p3.transcript =~= seq![m1, m2, m3]);
}

/// Both sides of a finished handshake that have split off the same keys have sessions that
/// match: each sends with the key with which the other receives, and no message has been
/// counted yet.
pub proof fn law_finished_handshakes_match(a: Progress, b: Progress, keys: (Seq<u8>, Seq<u8>))
    requires
        a.initiator != b.initiator,
    ensures
        ({
            let c = fresh_channel(a, keys);
            let d = fresh_channel(b, keys);
            &&& c.send_key == d.receive_key && c.receive_key == d.send_key
            &&& c.send_count == 0 && c.receive_count == 0
            &&& d.send_count == 0 && d.receive_count == 0
            &&& a.protocol == b.protocol ==> mirrored(c) == d
            &&& a.initiator ==> c.send_key == keys.0 && c.receive_key == keys.1
        }),
{
}

/// A session that ends a handshake has counted no message yet, and uses the two keys that
/// were split off some handshake with the same messages: the initiator sends with the first
/// and the responder with the second. The message that closes a handshake is that of some
/// handshake with the same messages before it.
pub proof fn law_sessions_end_handshakes(c: Channel, end: Progress, message: Seq<u8>, p: Progress)
    ensures
        ends_with(c, end) ==> {
            &&& end.position == 3
            &&& c.protocol == end.protocol && c.send_count == 0 && c.receive_count == 0
            &&& exists|hs: HandshakeState|
                progress(hs) == end && {
                    let keys = #[trigger] split_keys(hs);
                    &&& end.initiator ==> c.send_key == keys.0 && c.receive_key == keys.1
                    &&& !end.initiator ==> c.send_key == keys.1 && c.receive_key == keys.0
                }
        },
        closes(message, p) ==> exists|hs: HandshakeState|
            #[trigger] progress(hs) == p && closing_message(hs) == message,
{
    if ends_with(c, end) {
        let hs = choose|hs: HandshakeState|
            fresh_channel(progress(hs), #[trigger] split_keys(hs)) == c && progress(hs) == end
                && end.finished();
        assert(progress(hs) == end);
        let keys = split_keys(hs);
    }
    if closes(message, p) {
        let hs = choose|hs: HandshakeState|
            message == #[trigger] closing_message(hs) && progress(hs) == p;
        assert(progress(hs) == p);
    }
}

/// Messages and envelopes are seen as they are.
pub proof fn law_messages_are_seen_as_they_are(m: Message, e: Envelope)
    ensures
        m@.kind == m.msg_type.number() && m@.sender_id == m.sender_id,
        m@.sender_pos == m.sender_pos && m@.timestamp == m.timestamp,
        m@.peer_list == m.peer_list@ && m@.payload == m.payload@,
        m.path is None ==> m@.path is None,
        m.path matches Some(path) ==> m@.path == Some(path@),
        e@.tag == e.tag && e@.sender_id == e.sender_id && e@.payload == e.payload@,
{
}

} // verus!
