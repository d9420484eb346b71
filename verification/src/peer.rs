//! The peer wire protocol: compact peer lists, the handshake, message
//! framing and the decisions taken while talking to a peer.
use bytes::BufMut;
use bytes::Bytes;
use bytes::BytesMut;
use crate::decoder::bencode_encode;
use crate::decoder::bencode_to_bytes;
use crate::decoder::same_tree;
use crate::decoder::BencodeTree;
use crate::decoder::BencodeValue;
use vstd::prelude::*;

verus! {

/// The address of a peer: an IPv4 address and a TCP port.
#[derive(Debug, Clone, Copy, PartialEq, Eq)]
pub struct PeerAddr {
    pub ip: [u8; 4],
    pub port: u16,
}

/// A list of peers, as a tracker hands them out.
#[derive(Debug, Clone)]
pub struct Peers(pub Vec<PeerAddr>);

/// True when `p` is the peer that the six bytes at `start` describe.
pub open spec fn is_compact_peer(p: PeerAddr, bytes: Seq<u8>, start: int) -> bool {
    &&& p.ip@ == bytes.subrange(start, start + 4)
    &&& p.port as int == bytes[start + 4] * 256 + bytes[start + 5]
}

impl Peers {
    /// Reads a compact peer list: every six bytes are one peer.
    pub fn new(bytes: &[u8]) -> (peers: Peers)
        requires
            bytes@.len() % 6 == 0,
        ensures
            peers.0@.len() == bytes@.len() / 6,
            forall|k: int|
                0 <= k < peers.0@.len() ==> is_compact_peer(#[trigger] peers.0@[k], bytes@, 6 * k),
    {
        let mut out: Vec<PeerAddr> = Vec::new();
        let mut i: usize = 0;
        while i < bytes.len()
            invariant
                bytes@.len() % 6 == 0,
                i % 6 == 0,
                i <= bytes@.len(),
                out@.len() == i / 6,
                forall|k: int| 0 <= k < out@.len() ==> is_compact_peer(#[trigger] out@[k], bytes@, 6 * k),
            decreases bytes.len() - i,
        {
            let ip: [u8; 4] = [bytes[i], bytes[i + 1], bytes[i + 2], bytes[i + 3]];
            let port: u16 = (bytes[i + 4] as u16) * 256 + (bytes[i + 5] as u16);
            let peer = PeerAddr { ip, port };
            assert(peer.ip@ =~= bytes@.subrange(i as int, i + 4));
            out.push(peer);
            i = i + 6;
        }
        Peers(out)
    }
}


/// The 19-byte protocol name that opens every handshake.
pub open spec fn protocol_name() -> Seq<u8> {
    seq![66u8, 105, 116, 84, 111, 114, 114, 101, 110, 116, 32, 112, 114, 111, 116, 111, 99, 111, 108]
}

/// The reserved byte that carries the extension-protocol bit (BEP 10).
pub const EXTENSION_SUPPORT_BYTE: usize = 5;

/// The extension-protocol bit within that byte: the 20th bit from the
/// right of the reserved bytes.
pub const EXTENSION_SUPPORT_MASK: u8 = 0x10;

/// The 68-byte message that opens a connection between two peers.
#[derive(Debug, Clone, Copy)]
pub struct Handshake {
    pub length: u8,
    pub protocol: [u8; 19],
    pub reserved: [u8; 8],
    pub info_hash: [u8; 20],
    pub peer_id: [u8; 20],
}

/// The fields of a handshake as plain values.
pub struct HandshakeView {
    pub length: u8,
    pub protocol: Seq<u8>,
    pub reserved: Seq<u8>,
    pub info_hash: Seq<u8>,
    pub peer_id: Seq<u8>,
}

impl View for Handshake {
    type V = HandshakeView;

    open spec fn view(&self) -> HandshakeView {
        HandshakeView {
            length: self.length,
            protocol: self.protocol@,
            reserved: self.reserved@,
            info_hash: self.info_hash@,
            peer_id: self.peer_id@,
        }
    }
}

/// True when the fields have the lengths that a handshake's fields have.
pub open spec fn handshake_fields_sized(h: HandshakeView) -> bool {
    &&& h.protocol.len() == 19
    &&& h.reserved.len() == 8
    &&& h.info_hash.len() == 20
    &&& h.peer_id.len() == 20
}

/// The wire form of a handshake: the length byte, the protocol name, the
/// reserved bytes, the info hash and the peer id, in that order.
pub open spec fn handshake_bytes(h: HandshakeView) -> Seq<u8> {
    seq![h.length] + h.protocol + h.reserved + h.info_hash + h.peer_id
}

/// The handshake that 68 bytes on the wire describe.
pub open spec fn handshake_from_bytes(b: Seq<u8>) -> HandshakeView {
    HandshakeView {
        length: b[0],
        protocol: b.subrange(1, 20),
        reserved: b.subrange(20, 28),
        info_hash: b.subrange(28, 48),
        peer_id: b.subrange(48, 68),
    }
}

/// True when the extension-protocol bit is set in these reserved bytes.
pub open spec fn extension_bit_set(reserved: Seq<u8>) -> bool {
    reserved[5] & 0x10 != 0
}

/// The contents of a `BytesMut` buffer.
pub uninterp spec fn bytes_mut_contents(b: BytesMut) -> Seq<u8>;

/// The contents of a `Bytes` buffer.
pub uninterp spec fn bytes_contents(b: Bytes) -> Seq<u8>;

#[verifier::external_type_specification]
#[verifier::external_body]
pub struct ExBytesMut(BytesMut);

#[verifier::external_type_specification]
#[verifier::external_body]
pub struct ExBytes(Bytes);

/// Calls `BytesMut::with_capacity`: a new buffer that holds nothing.
#[verifier::external_body]
fn bytes_mut_with_capacity(capacity: usize) -> (b: BytesMut)
    ensures
        bytes_mut_contents(b) == Seq::<u8>::empty(),
{
    BytesMut::with_capacity(capacity)
}

/// Calls `BufMut::put_u8` on a `BytesMut`: appends one byte. The buffer
/// grows as needed; the length bound keeps its capacity from overflowing.
#[verifier::external_body]
fn bytes_mut_put_u8(b: &mut BytesMut, n: u8)
    requires
        bytes_mut_contents(*old(b)).len() + 1 <= isize::MAX,
    ensures
        bytes_mut_contents(*final(b)) == bytes_mut_contents(*old(b)).push(n),
{
    b.put_u8(n)
}

/// Calls `BufMut::put_slice` on a `BytesMut`: appends the bytes of `src`.
#[verifier::external_body]
fn bytes_mut_put_slice(b: &mut BytesMut, src: &[u8])
    requires
        bytes_mut_contents(*old(b)).len() + src@.len() <= isize::MAX,
    ensures
        bytes_mut_contents(*final(b)) == bytes_mut_contents(*old(b)) + src@,
{
    b.put_slice(src)
}

/// Calls `BytesMut::freeze`: an immutable buffer with the same contents.
#[verifier::external_body]
fn bytes_mut_freeze(b: BytesMut) -> (r: Bytes)
    ensures
        bytes_contents(r) == bytes_mut_contents(b),
{
    b.freeze()
}

impl Handshake {
    /// A handshake for the given torrent and peer id, with all reserved
    /// bytes zero.
    pub fn new(info_hash: [u8; 20], peer_id: [u8; 20]) -> (h: Handshake)
        ensures
            h.length == 19,
            h.protocol@ == protocol_name(),
            h.reserved@ == seq![0u8, 0, 0, 0, 0, 0, 0, 0],
            h.info_hash == info_hash,
            h.peer_id == peer_id,
    {
        let h = Handshake {
            length: 19,
            protocol: [66, 105, 116, 84, 111, 114, 114, 101, 110, 116, 32, 112, 114, 111, 116, 111, 99, 111, 108],
            reserved: [0; 8],
            info_hash,
            peer_id,
        };
        assert(h.protocol@ =~= protocol_name());
        assert(h.reserved@ =~= seq![0u8, 0, 0, 0, 0, 0, 0, 0]);
        h
    }

    /// The same handshake with the extension-protocol bit set.
    pub fn with_extension_support(self) -> (h: Handshake)
        ensures
            h.length == self.length,
            h.protocol == self.protocol,
            h.info_hash == self.info_hash,
            h.peer_id == self.peer_id,
            h.reserved@ == self.reserved@.update(5, self.reserved[5] | 0x10),
    {
        let mut h = self;
        h.reserved[EXTENSION_SUPPORT_BYTE] = h.reserved[EXTENSION_SUPPORT_BYTE] | EXTENSION_SUPPORT_MASK;
        h
    }

    /// Whether the extension-protocol bit is set.
    pub fn supports_extensions(&self) -> (b: bool)
        ensures
            b == extension_bit_set(self.reserved@),
    {
        self.reserved[EXTENSION_SUPPORT_BYTE] & EXTENSION_SUPPORT_MASK != 0
    }

    /// The 68 bytes that this handshake is on the wire.
    pub fn to_bytes(&self) -> (b: Bytes)
        ensures
            bytes_contents(b) == handshake_bytes(self@),
    {
        let mut buf = bytes_mut_with_capacity(68);
        bytes_mut_put_u8(&mut buf, self.length);
        bytes_mut_put_slice(&mut buf, self.protocol.as_slice());
        bytes_mut_put_slice(&mut buf, self.reserved.as_slice());
        bytes_mut_put_slice(&mut buf, self.info_hash.as_slice());
        bytes_mut_put_slice(&mut buf, self.peer_id.as_slice());
        bytes_mut_freeze(buf)
    }

    /// The handshake that 68 bytes received from a peer describe.
    pub fn from_bytes(value: &[u8; 68]) -> (h: Handshake)
        ensures
            h@ == handshake_from_bytes(value@),
    {
        let mut protocol: [u8; 19] = [0; 19];
        let mut i: usize = 0;
        while i < 19
            invariant
                i <= 19,
                forall|k: int| 0 <= k < i ==> protocol@[k] == value@[k + 1],
            decreases 19 - i,
        {
            protocol[i] = value[i + 1];
            i = i + 1;
        }
        let mut reserved: [u8; 8] = [0; 8];
        let mut i: usize = 0;
        while i < 8
            invariant
                i <= 8,
                forall|k: int| 0 <= k < i ==> reserved@[k] == value@[k + 20],
            decreases 8 - i,
        {
            reserved[i] = value[i + 20];
            i = i + 1;
        }
        let mut info_hash: [u8; 20] = [0; 20];
        let mut i: usize = 0;
        while i < 20
            invariant
                i <= 20,
                forall|k: int| 0 <= k < i ==> info_hash@[k] == value@[k + 28],
            decreases 20 - i,
        {
            info_hash[i] = value[i + 28];
            i = i + 1;
        }
        let mut peer_id: [u8; 20] = [0; 20];
        let mut i: usize = 0;
        while i < 20
            invariant
                i <= 20,
                forall|k: int| 0 <= k < i ==> peer_id@[k] == value@[k + 48],
            decreases 20 - i,
        {
            peer_id[i] = value[i + 48];
            i = i + 1;
        }
        let h = Handshake { length: value[0], protocol, reserved, info_hash, peer_id };
        assert(h.protocol@ =~= value@.subrange(1, 20));
        assert(h.reserved@ =~= value@.subrange(20, 28));
        assert(h.info_hash@ =~= value@.subrange(28, 48));
        assert(h.peer_id@ =~= value@.subrange(48, 68));
        h
    }
}

/// The wire layout of a handshake: 68 bytes, the length byte first, the
/// protocol name at bytes 1 to 19, the reserved bytes at 20 to 27, the
/// info hash at 28 to 47 and the peer id at 48 to 67.
pub proof fn lemma_handshake_layout(h: HandshakeView)
    requires
        handshake_fields_sized(h),
    ensures
        handshake_bytes(h).len() == 68,
        handshake_bytes(h)[0] == h.length,
        forall|k: int| 0 <= k < 19 ==> #[trigger] handshake_bytes(h)[1 + k] == h.protocol[k],
        forall|k: int| 0 <= k < 8 ==> #[trigger] handshake_bytes(h)[20 + k] == h.reserved[k],
        forall|k: int| 0 <= k < 20 ==> #[trigger] handshake_bytes(h)[28 + k] == h.info_hash[k],
        forall|k: int| 0 <= k < 20 ==> #[trigger] handshake_bytes(h)[48 + k] == h.peer_id[k],
{
}

/// Reading back the bytes of a handshake gives the same handshake.
pub proof fn lemma_handshake_bytes_roundtrip(h: HandshakeView)
    requires
        handshake_fields_sized(h),
    ensures
        handshake_bytes(h).len() == 68,
        handshake_from_bytes(handshake_bytes(h)) == h,
{
    let b = handshake_bytes(h);
    assert(b.subrange(1, 20) =~= h.protocol);
    assert(b.subrange(20, 28) =~= h.reserved);
    assert(b.subrange(28, 48) =~= h.info_hash);
    assert(b.subrange(48, 68) =~= h.peer_id);
}

/// Writing out the handshake read from 68 bytes gives those bytes back.
pub proof fn lemma_handshake_from_bytes_roundtrip(b: Seq<u8>)
    requires
        b.len() == 68,
    ensures
        handshake_fields_sized(handshake_from_bytes(b)),
        handshake_bytes(handshake_from_bytes(b)) == b,
{
    assert(handshake_bytes(handshake_from_bytes(b)) =~= b);
}

/// A handshake announces the extension protocol exactly when the bit of
/// value 16 in reserved byte 5 is set: the other reserved bytes and the
/// other bits of byte 5 play no part.
pub proof fn lemma_extension_bit_is_bit_four_of_byte_five(reserved: Seq<u8>)
    requires
        reserved.len() == 8,
    ensures
        extension_bit_set(reserved) <==> (reserved[5] as int / 16) % 2 == 1,
{
    let x = reserved[5];
    assert((x & 0x10u8 != 0) == ((x / 16) % 2 == 1)) by (bit_vector);
}

/// Setting the extension bit makes the handshake announce extension
/// support, and keeps every other reserved bit.
pub proof fn lemma_extension_bit_after_set(reserved: Seq<u8>)
    requires
        reserved.len() == 8,
    ensures
        extension_bit_set(reserved.update(5, reserved[5] | 0x10)),
        forall|k: int| 0 <= k < 8 && k != 5 ==> reserved.update(5, reserved[5] | 0x10)[k] == reserved[k],
{
    let x = reserved[5];
    assert((x | 0x10u8) & 0x10u8 != 0) by (bit_vector);
}


/// The four bytes of `x` in big-endian order.
pub open spec fn be32(x: u32) -> Seq<u8> {
    seq![(x / 0x1000000) as u8, ((x / 0x10000) % 0x100) as u8, ((x / 0x100) % 0x100) as u8, (x % 0x100) as u8]
}

/// The number that four bytes give in big-endian order.
pub open spec fn be32_value(b: Seq<u8>) -> int {
    b[0] * 0x1000000 + b[1] * 0x10000 + b[2] * 0x100 + b[3]
}

/// The four bytes of `be32(x)` are the base-256 digits of `x`, most
/// significant first, each below 256.
pub proof fn lemma_be32_most_significant_first(x: u32)
    ensures
        be32(x).len() == 4,
        be32(x)[0] as int == x as int / 0x1000000,
        be32(x)[1] as int == (x as int / 0x10000) % 0x100,
        be32(x)[2] as int == (x as int / 0x100) % 0x100,
        be32(x)[3] as int == x as int % 0x100,
        x as int == be32(x)[0] as int * 0x1000000 + be32(x)[1] as int * 0x10000 + be32(x)[2] as int * 0x100
            + be32(x)[3] as int,
{
}

/// Reading four big-endian bytes back gives the number they were made from.
pub proof fn lemma_be32_roundtrip(x: u32)
    ensures
        be32(x).len() == 4,
        be32_value(be32(x)) == x,
{
}

fn be32_bytes(x: u32) -> (b: [u8; 4])
    ensures
        b@ == be32(x),
{
    let b: [u8; 4] = [(x / 0x1000000) as u8, ((x / 0x10000) % 0x100) as u8, ((x / 0x100) % 0x100) as u8, (x % 0x100) as u8];
    assert(b@ =~= be32(x));
    b
}

fn be32_read(b0: u8, b1: u8, b2: u8, b3: u8) -> (x: u32)
    ensures
        x == be32_value(seq![b0, b1, b2, b3]),
{
    (b0 as u32) * 0x1000000 + (b1 as u32) * 0x10000 + (b2 as u32) * 0x100 + (b3 as u32)
}

/// The key `m` of an extension handshake.
pub open spec fn key_m() -> Seq<u8> {
    seq![109u8]
}

/// The key `ut_metadata`.
pub open spec fn key_ut_metadata() -> Seq<u8> {
    seq![117u8, 116, 95, 109, 101, 116, 97, 100, 97, 116, 97]
}

/// The key `msg_type`.
pub open spec fn key_msg_type() -> Seq<u8> {
    seq![109u8, 115, 103, 95, 116, 121, 112, 101]
}

/// The key `piece`.
pub open spec fn key_piece() -> Seq<u8> {
    seq![112u8, 105, 101, 99, 101]
}

/// The dictionary of an extension handshake that offers metadata exchange
/// (`ut_metadata`) under the given id: `{m: {ut_metadata: id}}`.
pub open spec fn extension_handshake_tree(ut_metadata_id: u8) -> BencodeTree {
    BencodeTree::Dict(
        map![key_m() => BencodeTree::Dict(map![key_ut_metadata() => BencodeTree::Int(ut_metadata_id as int)])],
    )
}

/// The dictionary of a request for a piece of metadata:
/// `{msg_type: 0, piece: piece}`.
pub open spec fn metadata_request_tree(piece: u32) -> BencodeTree {
    BencodeTree::Dict(map![key_msg_type() => BencodeTree::Int(0), key_piece() => BencodeTree::Int(piece as int)])
}

/// What went wrong in an exchange with a peer.
#[derive(Debug, Clone, Copy, PartialEq, Eq)]
pub enum PeerError {
    /// A message of another kind arrived than the one the exchange needs.
    UnexpectedMessage { expected: u8, got: u8 },
    /// An extension message arrived that is not an extension handshake;
    /// the extended message id it carried, if any.
    NotExtensionHandshake { extended_id: Option<u8> },
    /// A metadata message arrived whose type is not "data".
    UnexpectedMetadataType { msg_type: i64 },
    /// A metadata message is shorter than the size it declares.
    MetadataTooShort,
}

/// A message of the peer wire protocol: its id and its payload.
#[derive(Debug, Clone)]
pub struct Message {
    pub id: u8,
    pub payload: Vec<u8>,
}

impl Message {
    pub const UNCHOKE: u8 = 1;
    pub const INTERESTED: u8 = 2;
    pub const BITFIELD: u8 = 5;
    pub const REQUEST: u8 = 6;
    pub const PIECE: u8 = 7;
    pub const EXTENSION: u8 = 20;

    /// The payload of a request for `length` bytes at `begin` of piece
    /// `index`: the three numbers as big-endian 32-bit integers.
    pub fn request_payload(index: u32, begin: u32, length: u32) -> (payload: Vec<u8>)
        ensures
            payload@ == be32(index) + be32(begin) + be32(length),
    {
        let mut payload: Vec<u8> = Vec::new();
        let a = be32_bytes(index);
        let b = be32_bytes(begin);
        let c = be32_bytes(length);
        payload.push(a[0]);
        payload.push(a[1]);
        payload.push(a[2]);
        payload.push(a[3]);
        payload.push(b[0]);
        payload.push(b[1]);
        payload.push(b[2]);
        payload.push(b[3]);
        payload.push(c[0]);
        payload.push(c[1]);
        payload.push(c[2]);
        payload.push(c[3]);
        assert(payload@ =~= be32(index) + be32(begin) + be32(length));
        payload
    }

    /// An extension message (BEP 10): the extended message id followed by
    /// its bencoded dictionary.
    pub fn extension(extended_id: u8, dictionary: &[u8]) -> (m: Message)
        ensures
            m.id == Message::EXTENSION,
            m.payload@ == seq![extended_id] + dictionary@,
    {
        let mut payload: Vec<u8> = Vec::new();
        payload.push(extended_id);
        let mut i: usize = 0;
        while i < dictionary.len()
            invariant
                i <= dictionary@.len(),
                payload@ == seq![extended_id] + dictionary@.take(i as int),
            decreases dictionary.len() - i,
        {
            payload.push(dictionary[i]);
            i = i + 1;
            assert(payload@ =~= seq![extended_id] + dictionary@.take(i as int));
        }
        assert(dictionary@.take(i as int) =~= dictionary@);
        Message { id: Message::EXTENSION, payload }
    }

    /// The extension handshake (extended message id 0) that offers
    /// metadata exchange under the given id.
    pub fn extension_handshake(ut_metadata_id: u8) -> (m: Message)
        ensures
            m.id == Message::EXTENSION,
            m.payload@ == seq![0u8] + bencode_encode(extension_handshake_tree(ut_metadata_id)),
    {
        let inner_key: Vec<u8> = vec![117, 116, 95, 109, 101, 116, 97, 100, 97, 116, 97];
        let inner = BencodeValue::Dict(vec![(inner_key, BencodeValue::Int(ut_metadata_id as i64))]);
        let ghost gi = inner;
        let outer_key: Vec<u8> = vec![109];
        let dict = BencodeValue::Dict(vec![(outer_key, inner)]);
        proof {
            let it = BencodeTree::Dict(map![key_ut_metadata() => BencodeTree::Int(ut_metadata_id as int)]);
            assert(gi->Dict_0@[0].0@ =~= key_ut_metadata());
            assert(same_tree(gi->Dict_0@[0].1, BencodeTree::Int(ut_metadata_id as int)));
            assert(same_tree(gi, it));
            assert(dict->Dict_0@[0].0@ =~= key_m());
            assert(dict->Dict_0@[0].1 == gi);
            assert(same_tree(dict, extension_handshake_tree(ut_metadata_id)));
        }
        let bytes = bencode_to_bytes(&dict);
        Message::extension(0, bytes.as_slice())
    }

    /// A request (under the peer's metadata extension id) for piece `piece`
    /// of the torrent's metadata.
    pub fn metadata_request(peer_metadata_id: u8, piece: u32) -> (m: Message)
        ensures
            m.id == Message::EXTENSION,
            m.payload@ == seq![peer_metadata_id] + bencode_encode(metadata_request_tree(piece)),
    {
        let k1: Vec<u8> = vec![109, 115, 103, 95, 116, 121, 112, 101];
        let k2: Vec<u8> = vec![112, 105, 101, 99, 101];
        let dict = BencodeValue::Dict(vec![(k1, BencodeValue::Int(0)), (k2, BencodeValue::Int(piece as i64))]);
        proof {
            let d = dict->Dict_0;
            assert(d@[0].0@ =~= key_msg_type());
            assert(d@[1].0@ =~= key_piece());
            assert(key_msg_type() != key_piece()) by {
                assert(key_msg_type()[0] != key_piece()[0]);
            }
            let m = map![key_msg_type() => BencodeTree::Int(0), key_piece() => BencodeTree::Int(piece as int)];
            assert(m[key_msg_type()] == BencodeTree::Int(0));
            assert(m[key_piece()] == BencodeTree::Int(piece as int));
            assert(same_tree(d@[0].1, m[d@[0].0@]));
            assert(same_tree(d@[1].1, m[d@[1].0@]));
            assert forall|k: Seq<u8>| m.contains_key(k) <==> exists|i: int| 0 <= i < d@.len() && (#[trigger] d@[i]).0@ == k by {
                if m.contains_key(k) {
                    if k == key_msg_type() {
                        assert(d@[0].0@ == k);
                    } else {
                        assert(d@[1].0@ == k);
                    }
                }
            }
            assert(metadata_request_tree(piece) == BencodeTree::Dict(m));
            assert(same_tree(dict, metadata_request_tree(piece)));
        }
        let bytes = bencode_to_bytes(&dict);
        Message::extension(peer_metadata_id, bytes.as_slice())
    }

    /// Checks that this message has the given id.
    pub fn expect(&self, id: u8) -> (r: Result<(), PeerError>)
        ensures
            r is Ok <==> self.id == id,
            r is Err ==> r == Err::<(), PeerError>(PeerError::UnexpectedMessage { expected: id, got: self.id }),
    {
        if self.id == id {
            Ok(())
        } else {
            Err(PeerError::UnexpectedMessage { expected: id, got: self.id })
        }
    }

    /// The bencoded dictionary of an extension handshake: the payload after
    /// the extended message id 0. Any other message is refused.
    pub fn extension_handshake_dictionary(&self) -> (r: Result<Vec<u8>, PeerError>)
        ensures
            self.id != Message::EXTENSION ==> r == Err::<Vec<u8>, PeerError>(
                PeerError::UnexpectedMessage { expected: Message::EXTENSION, got: self.id },
            ),
            self.id == Message::EXTENSION && self.payload@.len() == 0 ==> r == Err::<Vec<u8>, PeerError>(
                PeerError::NotExtensionHandshake { extended_id: None },
            ),
            self.id == Message::EXTENSION && self.payload@.len() > 0 && self.payload@[0] != 0 ==> r
                == Err::<Vec<u8>, PeerError>(
                PeerError::NotExtensionHandshake { extended_id: Some(self.payload@[0]) },
            ),
            self.id == Message::EXTENSION && self.payload@.len() > 0 && self.payload@[0] == 0 ==> (r matches Ok(
                d,
            ) && d@ == self.payload@.drop_first()),
    {
        self.expect(Message::EXTENSION)?;
        if self.payload.len() == 0 {
            return Err(PeerError::NotExtensionHandshake { extended_id: None });
        }
        if self.payload[0] != 0 {
            return Err(PeerError::NotExtensionHandshake { extended_id: Some(self.payload[0]) });
        }
        Ok(slice_tail(self.payload.as_slice(), 1))
    }

    /// The body of a metadata message: the payload after the extended
    /// message id. Any message that is not an extension message is refused.
    pub fn metadata_body(&self) -> (r: Result<Vec<u8>, PeerError>)
        requires
            self.id == Message::EXTENSION ==> self.payload@.len() >= 1,
        ensures
            self.id != Message::EXTENSION ==> r == Err::<Vec<u8>, PeerError>(
                PeerError::UnexpectedMessage { expected: Message::EXTENSION, got: self.id },
            ),
            self.id == Message::EXTENSION ==> (r matches Ok(b) && b@ == self.payload@.drop_first()),
    {
        self.expect(Message::EXTENSION)?;
        Ok(slice_tail(self.payload.as_slice(), 1))
    }

    /// The four length bytes that precede this message on the wire: the
    /// payload length plus one for the id, as a big-endian 32-bit number
    /// (cut to 32 bits).
    pub fn length_prefix(&self) -> (b: [u8; 4])
        ensures
            b@ == be32(#[verifier::truncate] ((self.payload@.len() + 1) as u32)),
    {
        let n = self.payload.len();
        let low = #[verifier::truncate] (n as u32);
        let length: u32 = if low == u32::MAX { 0 } else { low + 1 };
        assert(length == (n + 1) as u32) by (bit_vector)
            requires
                low == n as u32,
                low == 0xffff_ffffu32 ==> length == 0,
                low != 0xffff_ffffu32 ==> length == low + 1,
        ;
        be32_bytes(length)
    }

    /// The payload length that four length bytes announce: one less than
    /// their value, which counts the id byte too.
    pub fn payload_length(prefix: [u8; 4]) -> (n: usize)
        requires
            be32_value(prefix@) >= 1,
        ensures
            n == be32_value(prefix@) - 1,
    {
        let length = be32_read(prefix[0], prefix[1], prefix[2], prefix[3]);
        (length - 1) as usize
    }
}

/// The piece of metadata that a metadata data message carries: the last
/// `total_size` bytes of its body, once the header says it is a data
/// message (type 1).
pub fn metadata_piece(body: &[u8], msg_type: i64, total_size: usize) -> (r: Result<Vec<u8>, PeerError>)
    ensures
        msg_type != 1 ==> r == Err::<Vec<u8>, PeerError>(PeerError::UnexpectedMetadataType { msg_type }),
        msg_type == 1 && body@.len() < total_size ==> r == Err::<Vec<u8>, PeerError>(PeerError::MetadataTooShort),
        msg_type == 1 && body@.len() >= total_size ==> (r matches Ok(p) && p@ == body@.subrange(
            body@.len() - total_size,
            body@.len() as int,
        )),
{
    if msg_type != 1 {
        return Err(PeerError::UnexpectedMetadataType { msg_type });
    }
    if body.len() < total_size {
        return Err(PeerError::MetadataTooShort);
    }
    let piece = slice_tail(body, body.len() - total_size);
    assert(piece@ =~= body@.subrange(body@.len() - total_size, body@.len() as int));
    Ok(piece)
}

/// The bytes of `s` from position `start` on.
fn slice_tail(s: &[u8], start: usize) -> (t: Vec<u8>)
    requires
        start <= s@.len(),
    ensures
        t@ == s@.subrange(start as int, s@.len() as int),
{
    let mut t: Vec<u8> = Vec::new();
    let mut i: usize = start;
    while i < s.len()
        invariant
            start <= i <= s@.len(),
            t@ == s@.subrange(start as int, i as int),
        decreases s.len() - i,
    {
        t.push(s[i]);
        i = i + 1;
        assert(t@ =~= s@.subrange(start as int, i as int));
    }
    t
}

/// An extension message carries its dictionary unchanged after its
/// extended message id: what `Message::extension` frames with id 0,
/// `extension_handshake_dictionary` gives back, and what it frames with any
/// id, `metadata_body` gives back.
pub proof fn lemma_extension_framing_roundtrip(extended_id: u8, dictionary: Seq<u8>)
    ensures
        (seq![extended_id] + dictionary).len() > 0,
        (seq![extended_id] + dictionary)[0] == extended_id,
        (seq![extended_id] + dictionary).drop_first() == dictionary,
{
    assert((seq![extended_id] + dictionary).drop_first() =~= dictionary);
}

/// The length prefix of a message announces exactly its payload, whenever
/// the length fits in 32 bits.
pub proof fn lemma_length_prefix_roundtrip(payload_len: nat)
    requires
        payload_len + 1 <= u32::MAX,
    ensures
        be32_value(be32((payload_len + 1) as u32)) - 1 == payload_len,
{
    lemma_be32_roundtrip((payload_len + 1) as u32);
}


/// The largest block that one request asks for.
pub const BLOCK_SIZE: u32 = 16384;

/// How many requests may be outstanding at once.
pub const PIPELINE_DEPTH: u32 = 5;

/// The size of the block that starts at `requested` in a piece of `length`
/// bytes: a whole block, or what is left of the piece.
pub open spec fn block_length_at(length: int, requested: int) -> int {
    if length - requested < BLOCK_SIZE {
        length - requested
    } else {
        BLOCK_SIZE as int
    }
}

/// Where the `k`-th request of a piece of `length` bytes ends; requests
/// stop once the whole piece has been asked for.
pub open spec fn offset_after(length: int, k: nat) -> int
    decreases k,
{
    if k == 0 {
        0
    } else {
        let r = offset_after(length, (k - 1) as nat);
        if r < length {
            r + block_length_at(length, r)
        } else {
            r
        }
    }
}

/// The requests for a piece tile it: after `k` requests, exactly the first
/// `min(k * BLOCK_SIZE, length)` bytes have been asked for, in consecutive
/// blocks of `BLOCK_SIZE` bytes with a shorter last one.
pub proof fn lemma_requests_tile_piece(length: nat, k: nat)
    ensures
        offset_after(length as int, k) == if k * BLOCK_SIZE <= length {
            k * BLOCK_SIZE
        } else {
            length as int
        },
    decreases k,
{
    if k > 0 {
        lemma_requests_tile_piece(length, (k - 1) as nat);
        assert(k * BLOCK_SIZE == (k - 1) * BLOCK_SIZE + BLOCK_SIZE) by (nonlinear_arith);
    }
}

/// The requests of a download, one after another, ask for disjoint
/// consecutive blocks: request `k` (counting from zero) asks for the bytes
/// from `offset_after(length, k)` to `offset_after(length, k + 1)`, which is
/// between 1 and `BLOCK_SIZE` bytes while the piece is not wholly asked for,
/// and the first `ceil(length / BLOCK_SIZE)` requests cover the whole piece.
pub proof fn lemma_request_ranges(length: nat, k: nat)
    ensures
        0 <= offset_after(length as int, k) <= offset_after(length as int, k + 1) <= length,
        offset_after(length as int, k) < length ==> 0 < offset_after(length as int, k + 1) - offset_after(
            length as int,
            k,
        ) <= BLOCK_SIZE,
        offset_after(length as int, k) == length ==> offset_after(length as int, k + 1) == length,
        offset_after(length as int, ((length + BLOCK_SIZE - 1) / (BLOCK_SIZE as int)) as nat) == length,
{
    lemma_requests_tile_piece(length, k);
    lemma_requests_tile_piece(length, k + 1);
    assert((k + 1) * BLOCK_SIZE == k * BLOCK_SIZE + BLOCK_SIZE) by (nonlinear_arith);
    let n = ((length + BLOCK_SIZE - 1) / (BLOCK_SIZE as int)) as nat;
    lemma_requests_tile_piece(length, n);
    vstd::arithmetic::div_mod::lemma_fundamental_div_mod((length + BLOCK_SIZE - 1) as int, BLOCK_SIZE as int);
    assert(n * BLOCK_SIZE >= length) by (nonlinear_arith)
        requires
            length + BLOCK_SIZE - 1 == (BLOCK_SIZE as int) * ((length + BLOCK_SIZE - 1) / (BLOCK_SIZE as int))
                + (length + BLOCK_SIZE - 1) % (BLOCK_SIZE as int),
            0 <= (length + BLOCK_SIZE - 1) % (BLOCK_SIZE as int) < BLOCK_SIZE,
            n == (length + BLOCK_SIZE - 1) / (BLOCK_SIZE as int),
    ;
}

/// The piece's bytes after a block arrives at `begin`: the block replaces
/// the bytes it covers (as `PieceDownload::receive` states).
pub open spec fn write_block(c: Seq<u8>, begin: int, block: Seq<u8>) -> Seq<u8> {
    c.subrange(0, begin) + block + c.subrange(begin + block.len(), c.len() as int)
}

/// The piece's bytes after the answers to the first `k` requests have
/// arrived, each answer carrying the bytes of `piece` that its request asks
/// for.
pub open spec fn after_answers(c: Seq<u8>, piece: Seq<u8>, k: nat) -> Seq<u8>
    decreases k,
{
    if k == 0 {
        c
    } else {
        let length = piece.len() as int;
        let b = offset_after(length, (k - 1) as nat);
        let e = offset_after(length, k);
        write_block(after_answers(c, piece, (k - 1) as nat), b, piece.subrange(b, e))
    }
}

/// A peer that answers every request with the right bytes yields the
/// piece: after the answers to the first `k` requests, the buffer holds the
/// piece up to `offset_after(length, k)` and is untouched beyond, so after
/// `ceil(length / BLOCK_SIZE)` answers it holds exactly the piece; the bytes
/// received add up to the same offset.
pub proof fn lemma_correct_answers_yield_piece(c: Seq<u8>, piece: Seq<u8>, k: nat)
    requires
        c.len() == piece.len(),
    ensures
        after_answers(c, piece, k) == piece.subrange(0, offset_after(piece.len() as int, k)) + c.subrange(
            offset_after(piece.len() as int, k),
            c.len() as int,
        ),
        after_answers(c, piece, ((piece.len() + BLOCK_SIZE - 1) / (BLOCK_SIZE as int)) as nat) == piece,
{
    let length = piece.len();
    let n = ((length + BLOCK_SIZE - 1) / (BLOCK_SIZE as int)) as nat;
    lemma_answers_prefix(c, piece, k);
    lemma_answers_prefix(c, piece, n);
    lemma_request_ranges(length, 0);
    assert(piece.subrange(0, length as int) + c.subrange(length as int, c.len() as int) =~= piece);
}

proof fn lemma_answers_prefix(c: Seq<u8>, piece: Seq<u8>, k: nat)
    requires
        c.len() == piece.len(),
    ensures
        after_answers(c, piece, k) == piece.subrange(0, offset_after(piece.len() as int, k)) + c.subrange(
            offset_after(piece.len() as int, k),
            c.len() as int,
        ),
    decreases k,
{
    let length = piece.len();
    if k > 0 {
        lemma_answers_prefix(c, piece, (k - 1) as nat);
        lemma_request_ranges(length, (k - 1) as nat);
        let b = offset_after(length as int, (k - 1) as nat);
        let e = offset_after(length as int, k);
        let prev = after_answers(c, piece, (k - 1) as nat);
        assert(write_block(prev, b, piece.subrange(b, e)) =~= piece.subrange(0, e) + c.subrange(e, c.len() as int));
    } else {
        assert(piece.subrange(0, 0) + c.subrange(0, c.len() as int) =~= c);
    }
}

/// The download of one piece, block by block, with several requests
/// outstanding at a time. The caller sends the requests it hands out and
/// passes back every message that arrives, until the piece is complete.
pub struct PieceDownload {
    index: u32,
    length: usize,
    requested: u32,
    received: usize,
    in_flight: u32,
    data: Vec<u8>,
    /// How many requests have been handed out so far.
    issued: Ghost<nat>,
    /// How many piece messages have been taken in so far.
    accepted: Ghost<nat>,
}

impl PieceDownload {
    /// The index of the piece.
    pub closed spec fn piece_index(self) -> u32 {
        self.index
    }

    /// The length of the piece in bytes.
    pub closed spec fn piece_length(self) -> nat {
        self.length as nat
    }

    /// How many bytes of the piece have been asked for.
    pub closed spec fn requested_bytes(self) -> nat {
        self.requested as nat
    }

    /// How many bytes have arrived.
    pub closed spec fn received_bytes(self) -> nat {
        self.received as nat
    }

    /// How many requests are outstanding.
    pub closed spec fn outstanding(self) -> nat {
        self.in_flight as nat
    }

    /// How many requests have been handed out so far.
    pub closed spec fn requests_issued(self) -> nat {
        self.issued@
    }

    /// How many piece messages have been taken in so far.
    pub closed spec fn pieces_accepted(self) -> nat {
        self.accepted@
    }

    /// The piece's bytes as they stand: zero where nothing has arrived.
    pub closed spec fn contents(self) -> Seq<u8> {
        self.data@
    }

    /// The bounds that every download keeps: the requests handed out are
    /// the consecutive blocks of `offset_after`, never more than
    /// `PIPELINE_DEPTH` of them unanswered (requests handed out less piece
    /// messages taken in), never a byte asked for beyond the piece, and the
    /// buffer exactly as long as the piece.
    pub open spec fn bounded(self) -> bool {
        &&& self.piece_length() <= u32::MAX
        &&& self.requested_bytes() <= self.piece_length()
        &&& self.requested_bytes() == offset_after(self.piece_length() as int, self.requests_issued())
        &&& self.outstanding() <= PIPELINE_DEPTH
        &&& self.outstanding() + self.pieces_accepted() == self.requests_issued()
        &&& self.contents().len() == self.piece_length()
    }

    /// A download of piece `index`, `length` bytes long, with nothing asked
    /// for yet.
    pub fn new(index: u32, length: usize) -> (d: PieceDownload)
        requires
            length <= u32::MAX,
        ensures
            d.bounded(),
            d.piece_index() == index,
            d.piece_length() == length,
            d.requested_bytes() == 0,
            d.requests_issued() == 0,
            d.pieces_accepted() == 0,
            d.received_bytes() == 0,
            d.outstanding() == 0,
            d.contents() == Seq::new(length as nat, |i: int| 0u8),
    {
        let mut data: Vec<u8> = Vec::new();
        let mut i: usize = 0;
        while i < length
            invariant
                i <= length,
                data@ == Seq::new(i as nat, |k: int| 0u8),
            decreases length - i,
        {
            data.push(0);
            i = i + 1;
            assert(data@ =~= Seq::new(i as nat, |k: int| 0u8));
        }
        PieceDownload { index, length, requested: 0, received: 0, in_flight: 0, data, issued: Ghost(0), accepted: Ghost(0) }
    }

    /// Whether every byte of the piece has arrived.
    pub fn is_complete(&self) -> (b: bool)
        ensures
            b == (self.received_bytes() >= self.piece_length()),
    {
        self.received >= self.length
    }

    /// The next request to send, if the pipeline has room and part of the
    /// piece has not been asked for yet: a request for the next block,
    /// which is then counted as outstanding.
    pub fn next_request(&mut self) -> (r: Option<Message>)
        requires
            old(self).bounded(),
        ensures
            final(self).bounded(),
            final(self).piece_index() == old(self).piece_index(),
            final(self).piece_length() == old(self).piece_length(),
            final(self).received_bytes() == old(self).received_bytes(),
            final(self).contents() == old(self).contents(),
            final(self).pieces_accepted() == old(self).pieces_accepted(),
            old(self).outstanding() < PIPELINE_DEPTH && old(self).requested_bytes() < old(self).piece_length()
                ==> ({
                let begin = old(self).requested_bytes() as int;
                let len = block_length_at(old(self).piece_length() as int, begin);
                &&& r matches Some(m)
                &&& m.id == Message::REQUEST
                &&& m.payload@ == be32(old(self).piece_index()) + be32(begin as u32) + be32(len as u32)
                &&& final(self).requested_bytes() == begin + len
                &&& final(self).requests_issued() == old(self).requests_issued() + 1
                &&& final(self).outstanding() == old(self).outstanding() + 1
            }),
            !(old(self).outstanding() < PIPELINE_DEPTH && old(self).requested_bytes() < old(self).piece_length())
                ==> {
                &&& r is None
                &&& final(self).requested_bytes() == old(self).requested_bytes()
                &&& final(self).requests_issued() == old(self).requests_issued()
                &&& final(self).outstanding() == old(self).outstanding()
            },
    {
        if self.in_flight < PIPELINE_DEPTH && (self.requested as usize) < self.length {
            let rest = self.length as u32 - self.requested;
            let block_length = if BLOCK_SIZE < rest { BLOCK_SIZE } else { rest };
            let payload = Message::request_payload(self.index, self.requested, block_length);
            self.requested = self.requested + block_length;
            self.in_flight = self.in_flight + 1;
            self.issued = Ghost(self.issued@ + 1);
            Some(Message { id: Message::REQUEST, payload })
        } else {
            None
        }
    }

    /// Takes in a message from the peer. A piece message carries, after
    /// the piece index, the offset of its block as a big-endian 32-bit
    /// number and then the block, which is copied into place; any other
    /// message is refused.
    pub fn receive(&mut self, msg: &Message) -> (r: Result<(), PeerError>)
        requires
            old(self).bounded(),
            msg.id == Message::PIECE ==> {
                &&& msg.payload@.len() >= 8
                &&& be32_value(msg.payload@.subrange(4, 8)) + (msg.payload@.len() - 8) <= old(self).piece_length()
                &&& old(self).outstanding() > 0
                &&& old(self).received_bytes() + (msg.payload@.len() - 8) <= usize::MAX
            },
        ensures
            final(self).bounded(),
            final(self).piece_index() == old(self).piece_index(),
            final(self).piece_length() == old(self).piece_length(),
            final(self).requested_bytes() == old(self).requested_bytes(),
            final(self).requests_issued() == old(self).requests_issued(),
            msg.id != Message::PIECE ==> {
                &&& r == Err::<(), PeerError>(PeerError::UnexpectedMessage { expected: Message::PIECE, got: msg.id })
                &&& final(self).received_bytes() == old(self).received_bytes()
                &&& final(self).outstanding() == old(self).outstanding()
                &&& final(self).pieces_accepted() == old(self).pieces_accepted()
                &&& final(self).contents() == old(self).contents()
            },
            msg.id == Message::PIECE ==> ({
                let begin = be32_value(msg.payload@.subrange(4, 8));
                let block = msg.payload@.subrange(8, msg.payload@.len() as int);
                &&& r is Ok
                &&& final(self).received_bytes() == old(self).received_bytes() + block.len()
                &&& final(self).outstanding() == old(self).outstanding() - 1
                &&& final(self).pieces_accepted() == old(self).pieces_accepted() + 1
                &&& final(self).contents() == write_block(old(self).contents(), begin, block)
            }),
    {
        msg.expect(Message::PIECE)?;
        let p = &msg.payload;
        let begin = be32_read(p[4], p[5], p[6], p[7]) as usize;
        let block_len = p.len() - 8;
        let ghost old_data = self.data@;
        let ghost block = p@.subrange(8, p@.len() as int);
        proof {
            assert(p@.subrange(4, 8) =~= seq![p@[4], p@[5], p@[6], p@[7]]);
        }
        let mut j: usize = 0;
        while j < block_len
            invariant
                p@.len() >= 8,
                block_len == p@.len() - 8,
                block == p@.subrange(8, p@.len() as int),
                begin + block_len <= self.data@.len(),
                self.data@.len() == old_data.len(),
                self.length == old_data.len(),
                self.length <= u32::MAX,
                self.requested <= self.length,
                self.in_flight <= PIPELINE_DEPTH,
                self.in_flight == old(self).in_flight,
                self.received == old(self).received,
                self.index == old(self).index,
                self.requested == old(self).requested,
                self.issued == old(self).issued,
                self.accepted == old(self).accepted,
                self.in_flight > 0,
                self.received + block_len <= usize::MAX,
                8 + block_len == p@.len(),
                p@.len() <= usize::MAX,
                j <= block_len,
                forall|k: int| 0 <= k < begin ==> self.data@[k] == old_data[k],
                forall|k: int| begin <= k < begin + j ==> self.data@[k] == block[k - begin],
                forall|k: int| begin + j <= k < old_data.len() ==> self.data@[k] == old_data[k],
            decreases block_len - j,
        {
            self.data.set(begin + j, p[8 + j]);
            j = j + 1;
        }
        assert(self.data@ =~= old_data.subrange(0, begin as int) + block + old_data.subrange(
            begin + block.len(),
            old_data.len() as int,
        ));
        self.received = self.received + block_len;
        self.in_flight = self.in_flight - 1;
        self.accepted = Ghost(self.accepted@ + 1);
        Ok(())
    }

    /// The length of the piece in bytes.
    pub fn length(&self) -> (n: usize)
        ensures
            n == self.piece_length(),
    {
        self.length
    }

    /// How many bytes have arrived.
    pub fn received(&self) -> (n: usize)
        ensures
            n == self.received_bytes(),
    {
        self.received
    }

    /// How many requests are outstanding.
    pub fn in_flight(&self) -> (n: u32)
        ensures
            n == self.outstanding(),
    {
        self.in_flight
    }

    /// The piece's bytes.
    pub fn into_data(self) -> (data: Vec<u8>)
        ensures
            data@ == self.contents(),
    {
        self.data
    }
}


/// Where the opening of a download connection stands, after the
/// handshake: the peer first sends its bitfield, we answer that we are
/// interested, and the peer then unchokes us.
#[derive(Debug, Clone, Copy, PartialEq, Eq)]
pub enum ConnectState {
    AwaitingBitfield,
    AwaitingUnchoke,
    Ready,
}

impl ConnectState {
    /// The state right after the handshake.
    pub fn start() -> (s: ConnectState)
        ensures
            s is AwaitingBitfield,
    {
        ConnectState::AwaitingBitfield
    }

    /// Takes in the next message from the peer: the new state and the
    /// message to send in reply, if any, or the error that ends the
    /// connection. Once ready, further messages change nothing.
    pub fn on_message(self, msg: &Message) -> (r: Result<(ConnectState, Option<Message>), PeerError>)
        ensures
            self is Ready ==> (r matches Ok((s, None)) && s is Ready),
            self is AwaitingBitfield && msg.id == Message::BITFIELD ==> (r matches Ok((s, Some(reply)))
                && s is AwaitingUnchoke && reply.id == Message::INTERESTED && reply.payload@.len() == 0),
            self is AwaitingBitfield && msg.id != Message::BITFIELD ==> r == Err::<(ConnectState, Option<Message>), PeerError>(
                PeerError::UnexpectedMessage { expected: Message::BITFIELD, got: msg.id },
            ),
            self is AwaitingUnchoke && msg.id == Message::UNCHOKE ==> (r matches Ok((s, None)) && s is Ready),
            self is AwaitingUnchoke && msg.id != Message::UNCHOKE ==> r == Err::<(ConnectState, Option<Message>), PeerError>(
                PeerError::UnexpectedMessage { expected: Message::UNCHOKE, got: msg.id },
            ),
    {
        match self {
            ConnectState::AwaitingBitfield => {
                msg.expect(Message::BITFIELD)?;
                let interested = Message { id: Message::INTERESTED, payload: Vec::new() };
                Ok((ConnectState::AwaitingUnchoke, Some(interested)))
            },
            ConnectState::AwaitingUnchoke => {
                msg.expect(Message::UNCHOKE)?;
                Ok((ConnectState::Ready, None))
            },
            ConnectState::Ready => Ok((ConnectState::Ready, None)),
        }
    }
}

/// The outcome of a handshake with extension support: the peer's
/// handshake and the id under which the peer takes metadata requests, if
/// it announced one.
#[derive(Debug, Clone, Copy)]
pub struct ExtendedHandshake {
    pub handshake: Handshake,
    pub peer_metadata_id: Option<u8>,
}

impl ExtendedHandshake {
    /// Checks the message that follows the handshake, which must be the
    /// bitfield, and tells whether extension handshakes are to be
    /// exchanged next: exactly when the peer's handshake announces
    /// extension support.
    pub fn after_bitfield(handshake: &Handshake, bitfield: &Message) -> (r: Result<bool, PeerError>)
        ensures
            bitfield.id != Message::BITFIELD ==> r == Err::<bool, PeerError>(
                PeerError::UnexpectedMessage { expected: Message::BITFIELD, got: bitfield.id },
            ),
            bitfield.id == Message::BITFIELD ==> r == Ok::<bool, PeerError>(extension_bit_set(handshake.reserved@)),
    {
        bitfield.expect(Message::BITFIELD)?;
        Ok(handshake.supports_extensions())
    }

    /// The outcome, given the id that the peer's extension handshake gives
    /// `ut_metadata`, if it gives one; the id is cut to its low byte.
    pub fn new(handshake: Handshake, ut_metadata: Option<i64>) -> (e: ExtendedHandshake)
        ensures
            e.handshake == handshake,
            ut_metadata is None ==> e.peer_metadata_id is None,
            ut_metadata matches Some(id) ==> e.peer_metadata_id == Some(#[verifier::truncate] (id as u8)),
    {
        let peer_metadata_id = match ut_metadata {
            Some(id) => Some(#[verifier::truncate] (id as u8)),
            None => None,
        };
        ExtendedHandshake { handshake, peer_metadata_id }
    }
}

} // verus!
