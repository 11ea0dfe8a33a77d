//! The byte format of everything that drones send: little-endian integers of
//! fixed width, and lengths of eight bytes in front of lists.
use vstd::arithmetic::div_mod::lemma_div_denominator;
use vstd::arithmetic::power2::{lemma2_to64, lemma_pow2_adds, lemma_pow2_pos, pow2};
use vstd::prelude::*;

verus! {

/// The `width` low bytes of `v`, the lowest first.
pub open spec fn le_bytes(v: nat, width: nat) -> Seq<u8>
    decreases width,
{
    if width == 0 {
        Seq::empty()
    } else {
        seq![(v % 256) as u8] + le_bytes(v / 256, (width - 1) as nat)
    }
}

/// A list of bytes behind its length.
pub open spec fn byte_list(s: Seq<u8>) -> Seq<u8> {
    le_bytes(s.len(), 8) + s
}

/// Numbers of four bytes, one behind the other.
pub open spec fn words(s: Seq<u32>) -> Seq<u8>
    decreases s.len(),
{
    if s.len() == 0 {
        Seq::empty()
    } else {
        le_bytes(s[0] as nat, 4) + words(s.drop_first())
    }
}

/// A list of numbers behind its length.
pub open spec fn word_list(s: Seq<u32>) -> Seq<u8> {
    le_bytes(s.len(), 8) + words(s)
}

/// A pair of numbers.
pub open spec fn pair(p: (u32, u32)) -> Seq<u8> {
    le_bytes(p.0 as nat, 4) + le_bytes(p.1 as nat, 4)
}

/// Pairs of numbers, one behind the other.
pub open spec fn pairs(s: Seq<(u32, u32)>) -> Seq<u8>
    decreases s.len(),
{
    if s.len() == 0 {
        Seq::empty()
    } else {
        pair(s[0]) + pairs(s.drop_first())
    }
}

/// A list of pairs that may be missing: a zero byte, or a one and the list
/// behind its length.
pub open spec fn optional_pairs(s: Option<Seq<(u32, u32)>>) -> Seq<u8> {
    match s {
        None => seq![0u8],
        Some(v) => seq![1u8] + (le_bytes(v.len(), 8) + pairs(v)),
    }
}

/// What an envelope holds.
pub struct EnvelopeView {
    pub tag: u8,
    pub sender_id: u32,
    pub payload: Seq<u8>,
}

impl EnvelopeView {
    /// The bytes of the envelope.
    pub open spec fn encoding(self) -> Seq<u8> {
        seq![self.tag] + (le_bytes(self.sender_id as nat, 4) + byte_list(self.payload))
    }

    /// The length fits into its eight bytes.
    pub open spec fn sendable(self) -> bool {
        self.payload.len() <= u64::MAX
    }
}

/// What a message holds; the kind is the number of its `MsgType`.
pub struct MessageView {
    pub kind: u32,
    pub sender_id: u32,
    pub sender_pos: (u32, u32),
    pub path: Option<Seq<(u32, u32)>>,
    pub peer_list: Seq<u32>,
    pub payload: Seq<u8>,
    pub timestamp: u64,
}

impl MessageView {
    /// The bytes of the message.
    pub open spec fn encoding(self) -> Seq<u8> {
        le_bytes(self.kind as nat, 4) + (le_bytes(self.sender_id as nat, 4) + (pair(self.sender_pos)
            + (optional_pairs(self.path) + (word_list(self.peer_list) + (byte_list(self.payload)
            + le_bytes(self.timestamp as nat, 8))))))
    }

    /// All lengths fit into their eight bytes.
    pub open spec fn sendable(self) -> bool {
        &&& (self.path matches Some(v) ==> v.len() <= u64::MAX)
        &&& self.peer_list.len() <= u64::MAX
        &&& self.payload.len() <= u64::MAX
    }
}

/// A region and the state of a cell, as they go over the wire: four coordinates,
/// whether the cell is explored, whether it holds an obstacle, and when it was seen.
pub type WireUpdate = ((u32, u32, u32, u32), (bool, bool, u64));

/// A truth value in one byte.
pub open spec fn flag(b: bool) -> Seq<u8> {
    if b {
        seq![1u8]
    } else {
        seq![0u8]
    }
}

/// The bytes of a region and the state of a cell.
pub open spec fn update_bytes(u: WireUpdate) -> Seq<u8> {
    pair((u.0.0, u.0.1)) + (pair((u.0.2, u.0.3)) + (flag(u.1.0) + (flag(u.1.1) + le_bytes(
        u.1.2 as nat,
        8,
    ))))
}

/// The bytes of regions and states of cells, one behind the other.
pub open spec fn updates_bytes(s: Seq<WireUpdate>) -> Seq<u8>
    decreases s.len(),
{
    if s.len() == 0 {
        Seq::empty()
    } else {
        update_bytes(s[0]) + updates_bytes(s.drop_first())
    }
}

/// What a part of a map holds when it goes over the wire.
pub struct DiffView {
    pub timestamp: u64,
    pub updates: Seq<WireUpdate>,
}

impl DiffView {
    /// The bytes of the part of a map.
    pub open spec fn encoding(self) -> Seq<u8> {
        le_bytes(self.timestamp as nat, 8) + (le_bytes(self.updates.len(), 8) + updates_bytes(
            self.updates,
        ))
    }

    /// The length fits into its eight bytes.
    pub open spec fn sendable(self) -> bool {
        self.updates.len() <= u64::MAX
    }
}

/// The contents of a vector that may be missing.
pub open spec fn optional_view(path: Option<Vec<(u32, u32)>>) -> Option<Seq<(u32, u32)>> {
    match path {
        Some(v) => Some(v@),
        None => None,
    }
}

#[verifier::external_type_specification]
#[verifier::external_body]
pub struct ExBincodeErrorKind(bincode::ErrorKind);

/// Calls `bincode::serialize` on the fields of an envelope as a tuple, which has
/// the same bytes as a struct of these fields. It has no size limit, writes
/// integers in fixed width and little-endian order and a list behind its length
/// in eight bytes, and cannot fail on such values.
#[verifier::external_body]
pub(crate) fn serialize_envelope(tag: u8, sender_id: u32, payload: &Vec<u8>) -> (res: Result<
    Vec<u8>,
    bincode::Error,
>)
    ensures
        res is Ok,
        res->Ok_0@ == (EnvelopeView {
            tag,
            sender_id,
            payload: payload@,
        }).encoding(),
{
    bincode::serialize(&(tag, sender_id, payload))
}

/// Calls `bincode::deserialize` for the fields of an envelope. It reads the value
/// off the front of the bytes and ignores what follows, and fails exactly where
/// the bytes do not start with the encoding of any value.
#[verifier::external_body]
pub(crate) fn deserialize_envelope(bytes: &[u8]) -> (res: Result<
    (u8, u32, Vec<u8>),
    bincode::Error,
>)
    ensures
        match res {
            Ok(e) => (EnvelopeView {
                tag: e.0,
                sender_id: e.1,
                payload: e.2@,
            }).encoding().is_prefix_of(bytes@),
            Err(_) => forall|e: EnvelopeView|
                e.sendable() ==> !(#[trigger] e.encoding()).is_prefix_of(bytes@),
        },
{
    bincode::deserialize(bytes)
}

/// Calls `bincode::serialize` on the fields of a message as a tuple, which has the
/// same bytes as a struct of these fields: a unit variant is written as its
/// number in four bytes, a coordinate as its four bytes, and an option as a byte
/// that is zero, or one in front of the value. It cannot fail on such values.
#[verifier::external_body]
pub(crate) fn serialize_message(
    head: (u32, u32, (u32, u32)),
    path: &Option<Vec<(u32, u32)>>,
    peer_list: &Vec<u32>,
    payload: &Vec<u8>,
    timestamp: u64,
) -> (res: Result<Vec<u8>, bincode::Error>)
    ensures
        res is Ok,
        res->Ok_0@ == (MessageView {
            kind: head.0,
            sender_id: head.1,
            sender_pos: head.2,
            path: optional_view(*path),
            peer_list: peer_list@,
            payload: payload@,
            timestamp,
        }).encoding(),
{
    bincode::serialize(&(head.0, head.1, head.2, path, peer_list, payload, timestamp))
}

/// Calls `bincode::deserialize` for the fields of a message, with the kind as a
/// plain number. It reads the value off the front of the bytes and ignores what
/// follows, and fails exactly where the bytes do not start with the encoding of
/// any value.
#[verifier::external_body]
pub(crate) fn deserialize_message(bytes: &[u8]) -> (res: Result<
    (u32, u32, (u32, u32), Option<Vec<(u32, u32)>>, Vec<u32>, Vec<u8>, u64),
    bincode::Error,
>)
    ensures
        match res {
            Ok(m) => (MessageView {
                kind: m.0,
                sender_id: m.1,
                sender_pos: m.2,
                path: optional_view(m.3),
                peer_list: m.4@,
                payload: m.5@,
                timestamp: m.6,
            }).encoding().is_prefix_of(bytes@),
            Err(_) => forall|m: MessageView|
                m.sendable() ==> !(#[trigger] m.encoding()).is_prefix_of(bytes@),
        },
{
    bincode::deserialize(bytes)
}

/// Calls `bincode::serialize` on a time and a list of tuples, which has the same
/// bytes as a struct of these fields whose list holds pairs of a tuple and a
/// struct: a truth value is written as a byte that is zero or one. It cannot fail
/// on such values.
#[verifier::external_body]
pub(crate) fn serialize_diff(timestamp: u64, updates: &Vec<WireUpdate>) -> (res: Result<
    Vec<u8>,
    bincode::Error,
>)
    ensures
        res is Ok,
        res->Ok_0@ == (DiffView { timestamp, updates: updates@ }).encoding(),
{
    bincode::serialize(&(timestamp, updates))
}

/// Calls `bincode::deserialize` for a time and a list of tuples. It reads the value
/// off the front of the bytes and ignores what follows, and fails exactly where
/// the bytes do not start with the encoding of any value.
#[verifier::external_body]
pub(crate) fn deserialize_diff(bytes: &[u8]) -> (res: Result<
    (u64, Vec<WireUpdate>),
    bincode::Error,
>)
    ensures
        match res {
            Ok(d) => (DiffView { timestamp: d.0, updates: d.1@ }).encoding().is_prefix_of(bytes@),
            Err(_) => forall|d: DiffView|
                d.sendable() ==> !(#[trigger] d.encoding()).is_prefix_of(bytes@),
        },
{
    bincode::deserialize(bytes)
}

/// Two splittings of one sequence at the same place are the same.
proof fn lemma_same_split(a: Seq<u8>, x: Seq<u8>, b: Seq<u8>, y: Seq<u8>)
    requires
        a + x == b + y,
        a.len() == b.len(),
    ensures
        a == b,
        x == y,
{
    assert forall|i: int| 0 <= i < a.len() implies a[i] == b[i] by {
        assert((a + x)[i] == a[i] && (b + y)[i] == b[i]);
    }
    assert(a =~= b);
    assert((a + x).len() == a.len() + x.len());
    assert((b + y).len() == b.len() + y.len());
    assert(x.len() == y.len());
    assert forall|i: int| 0 <= i < x.len() implies x[i] == y[i] by {
        assert((a + x)[a.len() + i] == x[i]);
        assert((b + y)[b.len() + i] == y[i]);
    }
    assert(x =~= y);
}

/// How many values the given number of bytes can tell apart.
pub open spec fn byte_range(width: nat) -> nat
    decreases width,
{
    if width == 0 {
        1
    } else {
        256 * byte_range((width - 1) as nat)
    }
}

proof fn lemma_byte_ranges()
    ensures
        byte_range(4) == 0x1_0000_0000,
        byte_range(8) == 0x1_0000_0000_0000_0000,
{
    reveal_with_fuel(byte_range, 9);
}

proof fn lemma_le_len(v: nat, width: nat)
    ensures
        le_bytes(v, width).len() == width,
    decreases width,
{
    if width > 0 {
        lemma_le_len(v / 256, (width - 1) as nat);
    }
}

/// The bytes of a number that fits tell which number it is.
proof fn lemma_le_injective(a: nat, b: nat, width: nat)
    requires
        a < byte_range(width),
        b < byte_range(width),
        le_bytes(a, width) == le_bytes(b, width),
    ensures
        a == b,
    decreases width,
{
    if width > 0 {
        let w = (width - 1) as nat;
        lemma_le_len(a / 256, w);
        lemma_le_len(b / 256, w);
        lemma_same_split(
            seq![(a % 256) as u8],
            le_bytes(a / 256, w),
            seq![(b % 256) as u8],
            le_bytes(b / 256, w),
        );
        assert(seq![(a % 256) as u8][0] == seq![(b % 256) as u8][0]);
        lemma_le_injective(a / 256, b / 256, w);
    }
}

/// A number of fixed width at the front of a sequence can be read back.
proof fn lemma_number_front(a: nat, x: Seq<u8>, b: nat, y: Seq<u8>, width: nat)
    requires
        a < byte_range(width),
        b < byte_range(width),
        le_bytes(a, width) + x == le_bytes(b, width) + y,
    ensures
        a == b,
        x == y,
{
    lemma_le_len(a, width);
    lemma_le_len(b, width);
    lemma_same_split(le_bytes(a, width), x, le_bytes(b, width), y);
    lemma_le_injective(a, b, width);
}

proof fn lemma_assoc(a: Seq<u8>, b: Seq<u8>, c: Seq<u8>)
    ensures
        (a + b) + c == a + (b + c),
{
    assert((a + b) + c =~= a + (b + c));
}

proof fn lemma_byte_list_front(a: Seq<u8>, x: Seq<u8>, b: Seq<u8>, y: Seq<u8>)
    requires
        a.len() <= u64::MAX,
        b.len() <= u64::MAX,
        byte_list(a) + x == byte_list(b) + y,
    ensures
        a == b,
        x == y,
{
    lemma_byte_ranges();
    lemma_assoc(le_bytes(a.len(), 8), a, x);
    lemma_assoc(le_bytes(b.len(), 8), b, y);
    lemma_number_front(a.len(), a + x, b.len(), b + y, 8);
    lemma_same_split(a, x, b, y);
}

proof fn lemma_words_front(a: Seq<u32>, x: Seq<u8>, b: Seq<u32>, y: Seq<u8>)
    requires
        a.len() == b.len(),
        words(a) + x == words(b) + y,
    ensures
        a == b,
        x == y,
    decreases a.len(),
{
    if a.len() == 0 {
        assert(words(a) + x =~= x);
        assert(words(b) + y =~= y);
        assert(a =~= b);
    } else {
        lemma_byte_ranges();
        lemma_assoc(le_bytes(a[0] as nat, 4), words(a.drop_first()), x);
        lemma_assoc(le_bytes(b[0] as nat, 4), words(b.drop_first()), y);
        lemma_number_front(
            a[0] as nat,
            words(a.drop_first()) + x,
            b[0] as nat,
            words(b.drop_first()) + y,
            4,
        );
        lemma_words_front(a.drop_first(), x, b.drop_first(), y);
        assert(a =~= seq![a[0]] + a.drop_first());
        assert(b =~= seq![b[0]] + b.drop_first());
    }
}

proof fn lemma_word_list_front(a: Seq<u32>, x: Seq<u8>, b: Seq<u32>, y: Seq<u8>)
    requires
        a.len() <= u64::MAX,
        b.len() <= u64::MAX,
        word_list(a) + x == word_list(b) + y,
    ensures
        a == b,
        x == y,
{
    lemma_byte_ranges();
    lemma_assoc(le_bytes(a.len(), 8), words(a), x);
    lemma_assoc(le_bytes(b.len(), 8), words(b), y);
    lemma_number_front(a.len(), words(a) + x, b.len(), words(b) + y, 8);
    lemma_words_front(a, x, b, y);
}

proof fn lemma_pair_front(a: (u32, u32), x: Seq<u8>, b: (u32, u32), y: Seq<u8>)
    requires
        pair(a) + x == pair(b) + y,
    ensures
        a == b,
        x == y,
{
    lemma_byte_ranges();
    lemma_assoc(le_bytes(a.0 as nat, 4), le_bytes(a.1 as nat, 4), x);
    lemma_assoc(le_bytes(b.0 as nat, 4), le_bytes(b.1 as nat, 4), y);
    lemma_number_front(
        a.0 as nat,
        le_bytes(a.1 as nat, 4) + x,
        b.0 as nat,
        le_bytes(b.1 as nat, 4) + y,
        4,
    );
    lemma_number_front(a.1 as nat, x, b.1 as nat, y, 4);
}

proof fn lemma_pairs_front(a: Seq<(u32, u32)>, x: Seq<u8>, b: Seq<(u32, u32)>, y: Seq<u8>)
    requires
        a.len() == b.len(),
        pairs(a) + x == pairs(b) + y,
    ensures
        a == b,
        x == y,
    decreases a.len(),
{
    if a.len() == 0 {
        assert(pairs(a) + x =~= x);
        assert(pairs(b) + y =~= y);
        assert(a =~= b);
    } else {
        lemma_assoc(pair(a[0]), pairs(a.drop_first()), x);
        lemma_assoc(pair(b[0]), pairs(b.drop_first()), y);
        lemma_pair_front(a[0], pairs(a.drop_first()) + x, b[0], pairs(b.drop_first()) + y);
        lemma_pairs_front(a.drop_first(), x, b.drop_first(), y);
        assert(a =~= seq![a[0]] + a.drop_first());
        assert(b =~= seq![b[0]] + b.drop_first());
    }
}

proof fn lemma_optional_pairs_front(
    a: Option<Seq<(u32, u32)>>,
    x: Seq<u8>,
    b: Option<Seq<(u32, u32)>>,
    y: Seq<u8>,
)
    requires
        a matches Some(v) ==> v.len() <= u64::MAX,
        b matches Some(v) ==> v.len() <= u64::MAX,
        optional_pairs(a) + x == optional_pairs(b) + y,
    ensures
        a == b,
        x == y,
{
    assert((optional_pairs(a) + x)[0] == optional_pairs(a)[0]);
    assert((optional_pairs(b) + y)[0] == optional_pairs(b)[0]);
    match (a, b) {
        (None, None) => {
            lemma_same_split(seq![0u8], x, seq![0u8], y);
        },
        (Some(v), Some(w)) => {
            lemma_byte_ranges();
            let lv = le_bytes(v.len(), 8);
            let lw = le_bytes(w.len(), 8);
            lemma_assoc(seq![1u8], lv + pairs(v), x);
            lemma_assoc(seq![1u8], lw + pairs(w), y);
            lemma_same_split(seq![1u8], (lv + pairs(v)) + x, seq![1u8], (lw + pairs(w)) + y);
            lemma_assoc(lv, pairs(v), x);
            lemma_assoc(lw, pairs(w), y);
            lemma_number_front(v.len(), pairs(v) + x, w.len(), pairs(w) + y, 8);
            lemma_pairs_front(v, x, w, y);
        },
        _ => {},
    }
}

/// A sequence starts with the encoding of one envelope at most, so what is read
/// off it is what was written.
pub proof fn law_envelope_reads_back(a: EnvelopeView, b: EnvelopeView, bytes: Seq<u8>)
    requires
        a.sendable(),
        b.sendable(),
        a.encoding().is_prefix_of(bytes),
        b.encoding().is_prefix_of(bytes),
    ensures
        a == b,
{
    let x = bytes.skip(a.encoding().len() as int);
    let y = bytes.skip(b.encoding().len() as int);
    assert(a.encoding() + x =~= bytes);
    assert(b.encoding() + y =~= bytes);
    lemma_byte_ranges();
    let ra = le_bytes(a.sender_id as nat, 4) + byte_list(a.payload);
    let rb = le_bytes(b.sender_id as nat, 4) + byte_list(b.payload);
    lemma_assoc(seq![a.tag], ra, x);
    lemma_assoc(seq![b.tag], rb, y);
    lemma_same_split(seq![a.tag], ra + x, seq![b.tag], rb + y);
    assert(seq![a.tag][0] == seq![b.tag][0]);
    lemma_assoc(le_bytes(a.sender_id as nat, 4), byte_list(a.payload), x);
    lemma_assoc(le_bytes(b.sender_id as nat, 4), byte_list(b.payload), y);
    lemma_number_front(
        a.sender_id as nat,
        byte_list(a.payload) + x,
        b.sender_id as nat,
        byte_list(b.payload) + y,
        4,
    );
    lemma_byte_list_front(a.payload, x, b.payload, y);
}

/// A sequence starts with the encoding of one message at most, so what is read
/// off it is what was written.
pub proof fn law_message_reads_back(a: MessageView, b: MessageView, bytes: Seq<u8>)
    requires
        a.sendable(),
        b.sendable(),
        a.encoding().is_prefix_of(bytes),
        b.encoding().is_prefix_of(bytes),
    ensures
        a == b,
{
    let x = bytes.skip(a.encoding().len() as int);
    let y = bytes.skip(b.encoding().len() as int);
    assert(a.encoding() + x =~= bytes);
    assert(b.encoding() + y =~= bytes);
    lemma_byte_ranges();
    let a7 = le_bytes(a.timestamp as nat, 8);
    let b7 = le_bytes(b.timestamp as nat, 8);
    let a6 = byte_list(a.payload) + a7;
    let b6 = byte_list(b.payload) + b7;
    let a5 = word_list(a.peer_list) + a6;
    let b5 = word_list(b.peer_list) + b6;
    let a4 = optional_pairs(a.path) + a5;
    let b4 = optional_pairs(b.path) + b5;
    let a3 = pair(a.sender_pos) + a4;
    let b3 = pair(b.sender_pos) + b4;
    let a2 = le_bytes(a.sender_id as nat, 4) + a3;
    let b2 = le_bytes(b.sender_id as nat, 4) + b3;
    lemma_assoc(le_bytes(a.kind as nat, 4), a2, x);
    lemma_assoc(le_bytes(b.kind as nat, 4), b2, y);
    lemma_number_front(a.kind as nat, a2 + x, b.kind as nat, b2 + y, 4);
    lemma_assoc(le_bytes(a.sender_id as nat, 4), a3, x);
    lemma_assoc(le_bytes(b.sender_id as nat, 4), b3, y);
    lemma_number_front(a.sender_id as nat, a3 + x, b.sender_id as nat, b3 + y, 4);
    lemma_assoc(pair(a.sender_pos), a4, x);
    lemma_assoc(pair(b.sender_pos), b4, y);
    lemma_pair_front(a.sender_pos, a4 + x, b.sender_pos, b4 + y);
    lemma_assoc(optional_pairs(a.path), a5, x);
    lemma_assoc(optional_pairs(b.path), b5, y);
    lemma_optional_pairs_front(a.path, a5 + x, b.path, b5 + y);
    lemma_assoc(word_list(a.peer_list), a6, x);
    lemma_assoc(word_list(b.peer_list), b6, y);
    lemma_word_list_front(a.peer_list, a6 + x, b.peer_list, b6 + y);
    lemma_assoc(byte_list(a.payload), a7, x);
    lemma_assoc(byte_list(b.payload), b7, y);
    lemma_byte_list_front(a.payload, a7 + x, b.payload, b7 + y);
    lemma_number_front(a.timestamp as nat, x, b.timestamp as nat, y, 8);
}

proof fn lemma_flag_front(a: bool, x: Seq<u8>, b: bool, y: Seq<u8>)
    requires
        flag(a) + x == flag(b) + y,
    ensures
        a == b,
        x == y,
{
    lemma_same_split(flag(a), x, flag(b), y);
    assert(flag(a)[0] == flag(b)[0]);
}

proof fn lemma_update_front(a: WireUpdate, x: Seq<u8>, b: WireUpdate, y: Seq<u8>)
    requires
        update_bytes(a) + x == update_bytes(b) + y,
    ensures
        a == b,
        x == y,
{
    lemma_byte_ranges();
    let a5 = le_bytes(a.1.2 as nat, 8);
    let b5 = le_bytes(b.1.2 as nat, 8);
    let a4 = flag(a.1.1) + a5;
    let b4 = flag(b.1.1) + b5;
    let a3 = flag(a.1.0) + a4;
    let b3 = flag(b.1.0) + b4;
    let a2 = pair((a.0.2, a.0.3)) + a3;
    let b2 = pair((b.0.2, b.0.3)) + b3;
    lemma_assoc(pair((a.0.0, a.0.1)), a2, x);
    lemma_assoc(pair((b.0.0, b.0.1)), b2, y);
    lemma_pair_front((a.0.0, a.0.1), a2 + x, (b.0.0, b.0.1), b2 + y);
    lemma_assoc(pair((a.0.2, a.0.3)), a3, x);
    lemma_assoc(pair((b.0.2, b.0.3)), b3, y);
    lemma_pair_front((a.0.2, a.0.3), a3 + x, (b.0.2, b.0.3), b3 + y);
    lemma_assoc(flag(a.1.0), a4, x);
    lemma_assoc(flag(b.1.0), b4, y);
    lemma_flag_front(a.1.0, a4 + x, b.1.0, b4 + y);
    lemma_assoc(flag(a.1.1), a5, x);
    lemma_assoc(flag(b.1.1), b5, y);
    lemma_flag_front(a.1.1, a5 + x, b.1.1, b5 + y);
    lemma_number_front(a.1.2 as nat, x, b.1.2 as nat, y, 8);
}

proof fn lemma_updates_front(a: Seq<WireUpdate>, x: Seq<u8>, b: Seq<WireUpdate>, y: Seq<u8>)
    requires
        a.len() == b.len(),
        updates_bytes(a) + x == updates_bytes(b) + y,
    ensures
        a == b,
        x == y,
    decreases a.len(),
{
    if a.len() == 0 {
        assert(updates_bytes(a) + x =~= x);
        assert(updates_bytes(b) + y =~= y);
        assert(a =~= b);
    } else {
        let ra = updates_bytes(a.drop_first());
        let rb = updates_bytes(b.drop_first());
        lemma_assoc(update_bytes(a[0]), ra, x);
        lemma_assoc(update_bytes(b[0]), rb, y);
        lemma_update_front(a[0], ra + x, b[0], rb + y);
        lemma_updates_front(a.drop_first(), x, b.drop_first(), y);
        assert(a =~= seq![a[0]] + a.drop_first());
        assert(b =~= seq![b[0]] + b.drop_first());
    }
}

/// A sequence starts with the encoding of one part of a map at most, so what is
/// read off it is what was written.
pub proof fn law_diff_reads_back(a: DiffView, b: DiffView, bytes: Seq<u8>)
    requires
        a.sendable(),
        b.sendable(),
        a.encoding().is_prefix_of(bytes),
        b.encoding().is_prefix_of(bytes),
    ensures
        a == b,
{
    let x = bytes.skip(a.encoding().len() as int);
    let y = bytes.skip(b.encoding().len() as int);
    assert(a.encoding() + x =~= bytes);
    assert(b.encoding() + y =~= bytes);
    lemma_byte_ranges();
    let la = le_bytes(a.updates.len(), 8);
    let lb = le_bytes(b.updates.len(), 8);
    let ua = updates_bytes(a.updates);
    let ub = updates_bytes(b.updates);
    lemma_assoc(le_bytes(a.timestamp as nat, 8), la + ua, x);
    lemma_assoc(le_bytes(b.timestamp as nat, 8), lb + ub, y);
    lemma_number_front(a.timestamp as nat, (la + ua) + x, b.timestamp as nat, (lb + ub) + y, 8);
    lemma_assoc(la, ua, x);
    lemma_assoc(lb, ub, y);
    lemma_number_front(a.updates.len(), ua + x, b.updates.len(), ub + y, 8);
    lemma_updates_front(a.updates, x, b.updates, y);
}

/// A number is written in its low bytes, the lowest first.
pub proof fn law_numbers_are_written_from_the_lowest_byte(v: nat, width: nat, i: int)
    requires
        0 <= i < width,
    ensures
        le_bytes(v, width).len() == width,
        le_bytes(v, width)[i] == (v as int / pow2((8 * i) as nat) as int) % 256,
    decreases width,
{
    lemma_le_len(v, width);
    if i == 0 {
        lemma2_to64();
        assert(pow2((8 * i) as nat) == 1);
        assert(v as int / 1 == v);
        assert(le_bytes(v, width)[0] == v % 256);
    } else {
        law_numbers_are_written_from_the_lowest_byte(v / 256, (width - 1) as nat, i - 1);
        let p = pow2((8 * (i - 1)) as nat) as int;
        lemma_pow2_adds(8, (8 * (i - 1)) as nat);
        lemma2_to64();
        lemma_pow2_pos((8 * (i - 1)) as nat);
        lemma_div_denominator(v as int, 256, p);
        let rest = le_bytes(v / 256, (width - 1) as nat);
        assert(le_bytes(v, width)[i] == rest[i - 1]);
        assert((8 + 8 * (i - 1)) as nat == (8 * i) as nat);
        assert(pow2((8 * i) as nat) as int == 256 * p);
        assert((v / 256) as int / p == v as int / (256 * p));
    }
}

/// An envelope starts with its tag; four bytes with the number of the sender and eight with
/// the length of the payload follow, and then the payload.
pub proof fn law_envelopes_are_laid_out(e: EnvelopeView)
    ensures
        ({
            let bytes = e.encoding();
            &&& bytes.len() == 13 + e.payload.len()
            &&& bytes[0] == e.tag
            &&& bytes.subrange(1, 5) == le_bytes(e.sender_id as nat, 4)
            &&& bytes.subrange(5, 13) == le_bytes(e.payload.len(), 8)
            &&& bytes.skip(13) == e.payload
        }),
{
    lemma_le_len(e.sender_id as nat, 4);
    lemma_le_len(e.payload.len(), 8);
    let bytes = e.encoding();
    assert(bytes.subrange(1, 5) =~= le_bytes(e.sender_id as nat, 4));
    assert(bytes.subrange(5, 13) =~= le_bytes(e.payload.len(), 8));
    assert(bytes.skip(13) =~= e.payload);
}

/// An update takes 26 bytes: four numbers of four bytes each, a byte for each of the two
/// flags, which is one or zero, and the tick in eight.
pub proof fn law_updates_are_laid_out(u: WireUpdate)
    ensures
        ({
            let bytes = update_bytes(u);
            &&& bytes.len() == 26
            &&& bytes.subrange(0, 4) == le_bytes(u.0.0 as nat, 4)
            &&& bytes.subrange(4, 8) == le_bytes(u.0.1 as nat, 4)
            &&& bytes.subrange(8, 12) == le_bytes(u.0.2 as nat, 4)
            &&& bytes.subrange(12, 16) == le_bytes(u.0.3 as nat, 4)
            &&& bytes[16] == (if u.1.0 {
                1
            } else {
                0u8
            })
            &&& bytes[17] == (if u.1.1 {
                1
            } else {
                0u8
            })
            &&& bytes.subrange(18, 26) == le_bytes(u.1.2 as nat, 8)
        }),
{
    lemma_le_len(u.0.0 as nat, 4);
    lemma_le_len(u.0.1 as nat, 4);
    lemma_le_len(u.0.2 as nat, 4);
    lemma_le_len(u.0.3 as nat, 4);
    lemma_le_len(u.1.2 as nat, 8);
    let bytes = update_bytes(u);
    assert(bytes.subrange(0, 4) =~= le_bytes(u.0.0 as nat, 4));
    assert(bytes.subrange(4, 8) =~= le_bytes(u.0.1 as nat, 4));
    assert(bytes.subrange(8, 12) =~= le_bytes(u.0.2 as nat, 4));
    assert(bytes.subrange(12, 16) =~= le_bytes(u.0.3 as nat, 4));
    assert(bytes.subrange(18, 26) =~= le_bytes(u.1.2 as nat, 8));
}

} // verus!
