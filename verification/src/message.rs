//! The binary wire codec: the 4-byte frame header and the four payload
//! kinds (Alive, MemberRequest, MemberResponse, Chat).
//!
//! Frame layout, all multi-byte integers big-endian:
//!
//! ```text
//! Header:         byte0=magic  byte1=(version:4|type:4)  bytes2-3=payload size
//! MemberRequest:  bytes0-31=group (zero-padded)  bytes32-63=peer id (zero-padded)
//! MemberResponse: bytes0-31=group  byte32=count  count * { peer id(32) | ipv4(4) | port(2) }
//! Chat:           bytes0-31=peer id  byte32=msg length  then the message bytes
//! Alive:          bytes0-31=peer id
//! ```
//!
//! Every encoder states the exact bytes it produces; every decoder states
//! exactly which byte strings it accepts and what it recovers from them.
//! Over-length fields fail encoding with a `FormatError` and produce no
//! bytes; truncated, ill-shaped or non-UTF-8 input fails decoding with a
//! `FormatError`; an unknown message-type code fails header decoding with a
//! `ProtocolError`. Decoding never panics.

use vstd::prelude::*;
use vstd::string::StrSliceExecFns;
use vstd::string::StringExecFns;
use vstd::utf8::{valid_utf8, decode_utf8, encode_utf8};
use vstd::utf8::{encode_utf8_valid_utf8, encode_utf8_decode_utf8};
use crate::errors::{FormatError, ProtocolError, DecodeError};
use crate::addr::PeerAddr;

verus! {

/// The magic constant that prefixes every frame.
pub const MAGIC_HEADER: u8 = 0x9D;

/// Byte width of a zero-padded name field (group name or peer id).
pub const NAME_FIELD_BYTES: usize = 32;

/// Protocol cap on the number of peers in one MemberResponse.
pub const MAX_RESPONSE_PEERS: usize = 5;

/// Cap on the byte length of one chat message.
pub const MAX_CHAT_BYTES: usize = 255;

// ------------------------------------------------------------------
// Spec-level building blocks shared by the payload codecs.
// ------------------------------------------------------------------

/// The UTF-8 bytes of a string value.
pub open spec fn str_utf8(s: Seq<char>) -> Seq<u8> {
    encode_utf8(s)
}

/// `b` padded with zero bytes up to the 32-byte name field width.
pub open spec fn zero_pad32(b: Seq<u8>) -> Seq<u8>
    recommends
        b.len() <= 32,
{
    b + Seq::new((32 - b.len()) as nat, |i: int| 0u8)
}

/// `b` with every zero byte removed, in order: how a receiver strips the
/// padding from a 32-byte name field.
pub open spec fn strip_zeros(b: Seq<u8>) -> Seq<u8>
    decreases b.len(),
{
    if b.len() == 0 {
        Seq::empty()
    } else if b[0] == 0 {
        strip_zeros(b.drop_first())
    } else {
        seq![b[0]] + strip_zeros(b.drop_first())
    }
}

/// Appending one byte on the right appends its stripped form on the right.
pub proof fn lemma_strip_zeros_push(b: Seq<u8>, x: u8)
    ensures
        strip_zeros(b.push(x)) == strip_zeros(b) + (if x != 0 {
            seq![x]
        } else {
            Seq::<u8>::empty()
        }),
    decreases b.len(),
{
    if b.len() == 0 {
        assert(b.push(x)[0] == x);
        assert(b.push(x).drop_first() =~= Seq::<u8>::empty());
        assert(strip_zeros(Seq::<u8>::empty()) == Seq::<u8>::empty());
        assert(strip_zeros(b.push(x)) =~= strip_zeros(b) + (if x != 0 {
            seq![x]
        } else {
            Seq::<u8>::empty()
        }));
    } else {
        assert(b.push(x).drop_first() =~= b.drop_first().push(x));
        lemma_strip_zeros_push(b.drop_first(), x);
        assert(strip_zeros(b.push(x)) =~= strip_zeros(b) + (if x != 0 {
            seq![x]
        } else {
            Seq::<u8>::empty()
        }));
    }
}

/// Stripping distributes over concatenation.
pub proof fn lemma_strip_zeros_concat(a: Seq<u8>, b: Seq<u8>)
    ensures
        strip_zeros(a + b) == strip_zeros(a) + strip_zeros(b),
    decreases a.len(),
{
    if a.len() == 0 {
        assert(a + b =~= b);
        assert(strip_zeros(a) + strip_zeros(b) =~= strip_zeros(b));
    } else {
        assert((a + b).drop_first() =~= a.drop_first() + b);
        lemma_strip_zeros_concat(a.drop_first(), b);
        assert(strip_zeros(a + b) =~= strip_zeros(a) + strip_zeros(b));
    }
}

/// A byte string without zero bytes is left unchanged by stripping.
pub proof fn lemma_strip_zeros_id(b: Seq<u8>)
    requires
        forall|i: int| 0 <= i < b.len() ==> #[trigger] b[i] != 0,
    ensures
        strip_zeros(b) == b,
    decreases b.len(),
{
    if b.len() > 0 {
        lemma_strip_zeros_id(b.drop_first());
        assert(seq![b[0]] + b.drop_first() =~= b);
    }
}

/// A byte string of zeros strips to nothing.
pub proof fn lemma_strip_zeros_empty(b: Seq<u8>)
    requires
        forall|i: int| 0 <= i < b.len() ==> #[trigger] b[i] == 0,
    ensures
        strip_zeros(b) == Seq::<u8>::empty(),
    decreases b.len(),
{
    if b.len() > 0 {
        lemma_strip_zeros_empty(b.drop_first());
    }
}

/// Stripping zero bytes never lengthens a byte string.
pub proof fn lemma_strip_zeros_len(b: Seq<u8>)
    ensures
        strip_zeros(b).len() <= b.len(),
    decreases b.len(),
{
    if b.len() > 0 {
        lemma_strip_zeros_len(b.drop_first());
    }
}

/// What a 32-byte name field decodes to: the string whose UTF-8 bytes are
/// the field minus its zero bytes, or nothing if those bytes are not valid
/// UTF-8.
pub open spec fn spec_decode_name(b: Seq<u8>) -> Option<Seq<char>> {
    if valid_utf8(strip_zeros(b)) {
        Some(decode_utf8(strip_zeros(b)))
    } else {
        None
    }
}

/// A string whose characters are all printable ASCII (space through tilde).
/// Such strings are one byte per character on the wire, contain no zero
/// byte, and so survive the zero-padded name fields unchanged.
pub open spec fn printable_ascii(s: Seq<char>) -> bool {
    forall|i: int| 0 <= i < s.len() ==> ' ' <= #[trigger] s[i] <= '~'
}

// ------------------------------------------------------------------
// MessageType
// ------------------------------------------------------------------

/// The four message kinds, one type-code nibble each on the wire.
#[derive(Clone, Copy, PartialEq, Eq, Structural, Debug)]
pub enum MessageType {
    Alive,
    MemberReq,
    MemberRes,
    Chat,
}

impl MessageType {
    /// The wire code of this message type.
    pub open spec fn spec_code(self) -> u8 {
        match self {
            MessageType::Alive => 0x01,
            MessageType::MemberReq => 0x02,
            MessageType::MemberRes => 0x04,
            MessageType::Chat => 0x08,
        }
    }

    /// The message type a wire code names, if any.
    pub open spec fn spec_from_code(code: u8) -> Option<MessageType> {
        if code == 0x01 {
            Some(MessageType::Alive)
        } else if code == 0x02 {
            Some(MessageType::MemberReq)
        } else if code == 0x04 {
            Some(MessageType::MemberRes)
        } else if code == 0x08 {
            Some(MessageType::Chat)
        } else {
            None
        }
    }

    pub fn code(self) -> (r: u8)
        ensures
            r == self.spec_code(),
    {
        match self {
            MessageType::Alive => 0x01,
            MessageType::MemberReq => 0x02,
            MessageType::MemberRes => 0x04,
            MessageType::Chat => 0x08,
        }
    }

    /// Recognize a type-code nibble. An unknown value yields `None`, never
    /// a fault.
    pub fn from_code(code: u8) -> (r: Option<MessageType>)
        ensures
            r == Self::spec_from_code(code),
    {
        if code == 0x01 {
            Some(MessageType::Alive)
        } else if code == 0x02 {
            Some(MessageType::MemberReq)
        } else if code == 0x04 {
            Some(MessageType::MemberRes)
        } else if code == 0x08 {
            Some(MessageType::Chat)
        } else {
            None
        }
    }
}

// ------------------------------------------------------------------
// Header
// ------------------------------------------------------------------

/// The 4-byte frame header: magic byte, protocol version (4 bits), message
/// type (4 bits) and payload size (16 bits, big-endian).
#[derive(Clone, Copy, PartialEq, Eq, Structural, Debug)]
pub struct Header {
    pub magic_bytes: u8,
    pub version: u8,
    pub msg_type: MessageType,
    pub size: u16,
}

impl Header {
    /// A well-formed header carries the magic constant and a version that
    /// fits its 4-bit field.
    pub open spec fn wf(self) -> bool {
        self.magic_bytes == MAGIC_HEADER && self.version < 16
    }

    /// The exact 4 bytes this header encodes to.
    pub open spec fn spec_encoding(self) -> Seq<u8> {
        seq![
            self.magic_bytes,
            (self.version * 16 + self.msg_type.spec_code()) as u8,
            (self.size / 256) as u8,
            (self.size % 256) as u8,
        ]
    }

    /// The header a 4-byte string decodes to: the magic byte must match and
    /// the type nibble must name a known message type.
    pub open spec fn spec_decode(b: Seq<u8>) -> Option<Header> {
        if b.len() == 4 && b[0] == MAGIC_HEADER && MessageType::spec_from_code(b[1] % 16) is Some {
            Some(Header {
                magic_bytes: b[0],
                version: b[1] / 16,
                msg_type: MessageType::spec_from_code(b[1] % 16)->Some_0,
                size: (b[2] * 256 + b[3]) as u16,
            })
        } else {
            None
        }
    }

    pub fn new(version: u8, msg_type: MessageType, size: u16) -> (h: Header)
        requires
            version < 16,
        ensures
            h == (Header { magic_bytes: MAGIC_HEADER, version, msg_type, size }),
            h.wf(),
    {
        Header { magic_bytes: MAGIC_HEADER, version, msg_type, size }
    }

    pub fn msg_type(&self) -> (t: MessageType)
        ensures
            t == self.msg_type,
    {
        self.msg_type
    }

    pub fn msg_size(&self) -> (s: u16)
        ensures
            s == self.size,
    {
        self.size
    }

    /// Produce the 4 header bytes.
    pub fn encode(&self) -> (r: Vec<u8>)
        requires
            self.wf(),
        ensures
            r@ == self.spec_encoding(),
    {
        let mut buf: Vec<u8> = Vec::new();
        buf.push(self.magic_bytes);
        buf.push(self.version * 16 + self.msg_type.code());
        buf.push((self.size / 256) as u8);
        buf.push((self.size % 256) as u8);
        assert(buf@ =~= self.spec_encoding());
        buf
    }

    /// Decode a 4-byte header. Fails with a `FormatError` on a wrong length
    /// or missing magic byte, and with a `ProtocolError` on an unknown
    /// message-type code.
    pub fn decode(bytes: &Vec<u8>) -> (r: Result<Header, DecodeError>)
        ensures
            r is Ok <==> Self::spec_decode(bytes@) is Some,
            r is Ok ==> r->Ok_0 == Self::spec_decode(bytes@)->Some_0,
            r is Err ==> (r->Err_0 is Protocol <==> bytes@.len() == 4 && bytes@[0]
                == MAGIC_HEADER),
    {
        if bytes.len() != 4 {
            return Err(DecodeError::Format(FormatError {
                error: String::from_str("header must be exactly 4 bytes"),
            }));
        }
        if bytes[0] != MAGIC_HEADER {
            return Err(DecodeError::Format(FormatError {
                error: String::from_str("missing magic byte"),
            }));
        }
        let vt = bytes[1];
        match MessageType::from_code(vt % 16) {
            None => Err(DecodeError::Protocol(ProtocolError {
                error: String::from_str("unknown message type code"),
            })),
            Some(t) => Ok(Header {
                magic_bytes: bytes[0],
                version: vt / 16,
                msg_type: t,
                size: bytes[2] as u16 * 256 + bytes[3] as u16,
            }),
        }
    }
}

/// Lossless header framing: decoding the encoding of any well-formed header
/// gives back that header, for every version in the 4-bit range, every known
/// message type, and every 16-bit payload size.
pub proof fn lemma_header_round_trip(h: Header)
    requires
        h.wf(),
    ensures
        Header::spec_decode(h.spec_encoding()) == Some(h),
{
    let e = h.spec_encoding();
    assert(e[1] == h.version * 16 + h.msg_type.spec_code());
    assert(h.msg_type.spec_code() < 16);
    assert(e[1] / 16 == h.version) by (nonlinear_arith)
        requires
            e[1] == h.version * 16 + h.msg_type.spec_code(),
            h.version < 16,
            h.msg_type.spec_code() < 16,
    ;
    assert(e[1] % 16 == h.msg_type.spec_code()) by (nonlinear_arith)
        requires
            e[1] == h.version * 16 + h.msg_type.spec_code(),
            h.version < 16,
            h.msg_type.spec_code() < 16,
    ;
    assert((e[2] * 256 + e[3]) as u16 == h.size);
}

// ------------------------------------------------------------------
// Printable-ASCII strings and their bytes
// ------------------------------------------------------------------

/// A printable-ASCII string encodes to one nonzero byte per character.
pub proof fn lemma_printable_ascii_bytes(s: Seq<char>)
    requires
        printable_ascii(s),
    ensures
        str_utf8(s).len() == s.len(),
        forall|i: int| 0 <= i < str_utf8(s).len() ==> #[trigger] str_utf8(s)[i] != 0,
{
    assert forall|i: int| 0 <= i < s.len() implies '\0' <= #[trigger] s[i] <= '\u{7f}' by {
        assert(' ' <= s[i] <= '~');
    }
    assert(vstd::utf8::is_ascii_chars(s));
    vstd::utf8::is_ascii_chars_encode_utf8(s);
    assert forall|i: int| 0 <= i < str_utf8(s).len() implies #[trigger] str_utf8(s)[i] != 0 by {
        assert(str_utf8(s)[i] == s[i] as u8);
        assert(' ' <= s[i] <= '~');
    }
}

// ------------------------------------------------------------------
// Executable helpers shared by the payload codecs
// ------------------------------------------------------------------

/// Relies on `String::from_utf8`: it returns `Ok` exactly when the bytes are
/// valid UTF-8, and the returned string's UTF-8 encoding is those bytes.
#[verifier::external_body]
fn bytes_to_string(bytes: Vec<u8>) -> (r: Option<String>)
    ensures
        r is Some <==> valid_utf8(bytes@),
        r is Some ==> str_utf8(r->Some_0@) == bytes@,
{
    String::from_utf8(bytes).ok()
}

/// Byte-for-byte string equality, which coincides with string equality.
pub fn str_eq(a: &str, b: &str) -> (r: bool)
    ensures
        r == (a@ == b@),
{
    proof {
        vstd::utf8::encode_utf8_decode_utf8(a@);
        vstd::utf8::encode_utf8_decode_utf8(b@);
    }
    let ab = a.as_bytes_vec();
    let bb = b.as_bytes_vec();
    if ab.len() != bb.len() {
        return false;
    }
    let mut i: usize = 0;
    while i < ab.len()
        invariant
            i <= ab@.len(),
            ab@.len() == bb@.len(),
            ab@ == str_utf8(a@),
            bb@ == str_utf8(b@),
            forall|j: int| 0 <= j < i ==> ab@[j] == bb@[j],
        decreases ab@.len() - i,
    {
        if ab[i] != bb[i] {
            return false;
        }
        i = i + 1;
    }
    proof {
        assert(ab@ =~= bb@);
    }
    true
}

/// Append the 32-byte zero-padded form of `s` to `buf`.
fn push_name_field(buf: &mut Vec<u8>, s: &str)
    requires
        str_utf8(s@).len() <= 32,
    ensures
        final(buf)@ == old(buf)@ + zero_pad32(str_utf8(s@)),
{
    let bytes = s.as_bytes_vec();
    let mut i: usize = 0;
    while i < bytes.len()
        invariant
            i <= bytes@.len(),
            bytes@ == str_utf8(s@),
            bytes@.len() <= 32,
            buf@ == old(buf)@ + bytes@.subrange(0, i as int),
        decreases bytes@.len() - i,
    {
        buf.push(bytes[i]);
        proof {
            assert(bytes@.subrange(0, i + 1 as int) =~= bytes@.subrange(0, i as int).push(
                bytes@[i as int],
            ));
            assert(buf@ =~= old(buf)@ + bytes@.subrange(0, i + 1 as int));
        }
        i = i + 1;
    }
    proof {
        assert(bytes@.subrange(0, bytes@.len() as int) =~= bytes@);
    }
    let pad: usize = 32 - bytes.len();
    let mut k: usize = 0;
    while k < pad
        invariant
            k <= pad,
            pad == 32 - str_utf8(s@).len(),
            buf@ == old(buf)@ + str_utf8(s@) + Seq::new(k as nat, |i: int| 0u8),
        decreases pad - k,
    {
        buf.push(0);
        proof {
            assert(Seq::new((k + 1) as nat, |i: int| 0u8) =~= Seq::new(k as nat, |i: int| 0u8)
                .push(0u8));
            assert(buf@ =~= old(buf)@ + str_utf8(s@) + Seq::new((k + 1) as nat, |i: int| 0u8));
        }
        k = k + 1;
    }
    proof {
        assert(final(buf)@ =~= old(buf)@ + zero_pad32(str_utf8(s@)));
    }
}

/// Read the 32-byte name field at `offset`: strip the zero bytes and decode
/// the rest as UTF-8.
fn read_name_field(bytes: &Vec<u8>, offset: usize) -> (r: Option<String>)
    requires
        offset + 32 <= bytes@.len(),
    ensures
        r is Some <==> spec_decode_name(bytes@.subrange(offset as int, offset + 32)) is Some,
        r is Some ==> r->Some_0@ == spec_decode_name(
            bytes@.subrange(offset as int, offset + 32),
        )->Some_0,
{
    let ghost field = bytes@.subrange(offset as int, offset + 32);
    let n = bytes.len();
    let mut stripped: Vec<u8> = Vec::new();
    let mut i: usize = 0;
    while i < 32
        invariant
            i <= 32,
            n == bytes@.len(),
            offset + 32 <= bytes@.len(),
            field == bytes@.subrange(offset as int, offset + 32),
            stripped@ == strip_zeros(field.subrange(0, i as int)),
        decreases 32 - i,
    {
        let b = bytes[offset + i];
        proof {
            assert(field.subrange(0, i + 1 as int) =~= field.subrange(0, i as int).push(b));
            lemma_strip_zeros_push(field.subrange(0, i as int), b);
        }
        if b != 0 {
            stripped.push(b);
            proof {
                assert(stripped@ =~= strip_zeros(field.subrange(0, i + 1 as int)));
            }
        } else {
            proof {
                assert(stripped@ =~= strip_zeros(field.subrange(0, i + 1 as int)));
            }
        }
        i = i + 1;
    }
    proof {
        assert(field.subrange(0, 32) =~= field);
    }
    let r = bytes_to_string(stripped);
    proof {
        if valid_utf8(strip_zeros(field)) {
            vstd::utf8::encode_utf8_decode_utf8(r->Some_0@);
        }
    }
    r
}

/// The zero bytes that pad a name field strip away, leaving the name's own
/// bytes, provided those are themselves nonzero.
proof fn lemma_strip_pad32(b: Seq<u8>)
    requires
        b.len() <= 32,
        forall|i: int| 0 <= i < b.len() ==> #[trigger] b[i] != 0,
    ensures
        strip_zeros(zero_pad32(b)) == b,
{
    let pad = zero_pad32(b).subrange(b.len() as int, 32);
    assert(zero_pad32(b) =~= b + pad);
    assert(forall|i: int| 0 <= i < pad.len() ==> #[trigger] pad[i] == 0);
    lemma_strip_zeros_concat(b, pad);
    lemma_strip_zeros_id(b);
    lemma_strip_zeros_empty(pad);
    assert(strip_zeros(zero_pad32(b)) =~= b);
}

/// Copy the byte range `[from, to)` of `v` into a fresh vector.
pub fn subvec(v: &Vec<u8>, from: usize, to: usize) -> (r: Vec<u8>)
    requires
        from <= to <= v@.len(),
    ensures
        r@ == v@.subrange(from as int, to as int),
{
    let mut out: Vec<u8> = Vec::new();
    let mut i: usize = from;
    while i < to
        invariant
            from <= i <= to <= v@.len(),
            out@ == v@.subrange(from as int, i as int),
        decreases to - i,
    {
        out.push(v[i]);
        proof {
            assert(v@.subrange(from as int, i + 1 as int) =~= v@.subrange(from as int, i as int)
                .push(v@[i as int]));
        }
        i = i + 1;
    }
    out
}

/// Append the UTF-8 bytes of `s` to `buf`, unpadded.
fn push_str_bytes(buf: &mut Vec<u8>, s: &str)
    ensures
        final(buf)@ == old(buf)@ + str_utf8(s@),
{
    let bytes = s.as_bytes_vec();
    let mut i: usize = 0;
    while i < bytes.len()
        invariant
            i <= bytes@.len(),
            bytes@ == str_utf8(s@),
            buf@ == old(buf)@ + bytes@.subrange(0, i as int),
        decreases bytes@.len() - i,
    {
        buf.push(bytes[i]);
        proof {
            assert(bytes@.subrange(0, i + 1 as int) =~= bytes@.subrange(0, i as int).push(
                bytes@[i as int],
            ));
            assert(buf@ =~= old(buf)@ + bytes@.subrange(0, i + 1 as int));
        }
        i = i + 1;
    }
    proof {
        assert(bytes@.subrange(0, bytes@.len() as int) =~= bytes@);
    }
}

// ------------------------------------------------------------------
// MessageContent: the common contract of the four payload codecs
// ------------------------------------------------------------------

/// A payload that can be framed inside a message. Each implementor fixes,
/// at the specification level, which values are encodable (`wf_view`), the
/// exact bytes a value encodes to (`encoding_of`), and the exact value, if
/// any, a byte string decodes to (`decoding_of`); the executable `encode`
/// and `decode` are proved against those. `lemma_round_trip` is the framing
/// law: for every encodable value whose name fields are `faithful` (free of
/// the padding byte), decoding the encoding gives the value back.
pub trait MessageContent: View + Sized {
    /// Which values fit the wire format's field limits.
    spec fn wf_view(v: Self::V) -> bool;

    /// The exact payload bytes an encodable value produces.
    spec fn encoding_of(v: Self::V) -> Seq<u8>;

    /// The value a payload byte string decodes to, if it is well-shaped.
    spec fn decoding_of(b: Seq<u8>) -> Option<Self::V>;

    /// Values that the zero-padded name fields carry without loss.
    spec fn faithful(v: Self::V) -> bool;

    /// Encode the payload, or fail with a `FormatError` exactly when a
    /// field exceeds its wire limit, producing no bytes.
    fn encode(&self) -> (r: Result<Vec<u8>, FormatError>)
        ensures
            r is Ok <==> Self::wf_view(self@),
            r is Ok ==> r->Ok_0@ == Self::encoding_of(self@),
    ;

    /// Decode a payload, or fail with a `FormatError` exactly when the
    /// bytes are not a well-shaped payload of this kind.
    fn decode(bytes: &Vec<u8>) -> (r: Result<Self, FormatError>)
        ensures
            r is Ok <==> Self::decoding_of(bytes@) is Some,
            r is Ok ==> r->Ok_0@ == Self::decoding_of(bytes@)->Some_0,
    ;

    /// Lossless framing: decoding the encoding of an encodable, faithful
    /// value gives back exactly that value.
    proof fn lemma_round_trip(v: Self::V)
        requires
            Self::wf_view(v),
            Self::faithful(v),
        ensures
            Self::decoding_of(Self::encoding_of(v)) == Some(v),
    ;
}

// ------------------------------------------------------------------
// MemberRequest
// ------------------------------------------------------------------

/// A request to join a group and learn its members: the sender's peer id
/// and the group name, each at most 32 bytes.
#[derive(Clone, PartialEq, Eq, Debug)]
pub struct MemberRequest {
    pub peer_id: String,
    pub group: String,
}

/// The mathematical value of a `MemberRequest`: its two strings.
#[verifier::ext_equal]
pub struct MemberRequestV {
    pub peer_id: Seq<char>,
    pub group: Seq<char>,
}

impl View for MemberRequest {
    type V = MemberRequestV;

    open spec fn view(&self) -> MemberRequestV {
        MemberRequestV { peer_id: self.peer_id@, group: self.group@ }
    }
}

impl MemberRequest {
    /// Build a request, rejecting a group name or peer id longer than the
    /// 32-byte wire field.
    pub fn new(peer_id: &str, group: &str) -> (r: Result<MemberRequest, FormatError>)
        ensures
            r is Ok <==> (str_utf8(group@).len() <= 32 && str_utf8(peer_id@).len() <= 32),
            r is Ok ==> r->Ok_0@ == (MemberRequestV { peer_id: peer_id@, group: group@ }),
    {
        if group.as_bytes().len() > NAME_FIELD_BYTES {
            return Err(FormatError { error: String::from_str("group name exceeds 32 bytes") });
        }
        if peer_id.as_bytes().len() > NAME_FIELD_BYTES {
            return Err(FormatError { error: String::from_str("peer id exceeds 32 bytes") });
        }
        Ok(MemberRequest { group: group.to_owned(), peer_id: peer_id.to_owned() })
    }

    pub fn group_name(&self) -> (r: String)
        ensures
            r@ == self.group@,
    {
        self.group.clone()
    }

    pub fn peer_id(&self) -> (r: String)
        ensures
            r@ == self.peer_id@,
    {
        self.peer_id.clone()
    }
}

impl MessageContent for MemberRequest {
    open spec fn wf_view(v: MemberRequestV) -> bool {
        str_utf8(v.group).len() <= 32 && str_utf8(v.peer_id).len() <= 32
    }

    open spec fn encoding_of(v: MemberRequestV) -> Seq<u8> {
        zero_pad32(str_utf8(v.group)) + zero_pad32(str_utf8(v.peer_id))
    }

    open spec fn decoding_of(b: Seq<u8>) -> Option<MemberRequestV> {
        if b.len() == 64 {
            let g = spec_decode_name(b.subrange(0, 32));
            let p = spec_decode_name(b.subrange(32, 64));
            if g is Some && p is Some {
                Some(MemberRequestV { peer_id: p->Some_0, group: g->Some_0 })
            } else {
                None
            }
        } else {
            None
        }
    }

    open spec fn faithful(v: MemberRequestV) -> bool {
        printable_ascii(v.group) && printable_ascii(v.peer_id)
    }

    fn encode(&self) -> (r: Result<Vec<u8>, FormatError>)
        ensures
            r is Ok <==> Self::wf_view(self@),
            r is Ok ==> r->Ok_0@ == Self::encoding_of(self@),
    {
        if self.group.as_str().as_bytes().len() > NAME_FIELD_BYTES {
            return Err(FormatError { error: String::from_str("group name exceeds 32 bytes") });
        }
        if self.peer_id.as_str().as_bytes().len() > NAME_FIELD_BYTES {
            return Err(FormatError { error: String::from_str("peer id exceeds 32 bytes") });
        }
        let mut buf: Vec<u8> = Vec::new();
        push_name_field(&mut buf, self.group.as_str());
        push_name_field(&mut buf, self.peer_id.as_str());
        proof {
            assert(buf@ =~= Self::encoding_of(self@));
        }
        Ok(buf)
    }

    fn decode(bytes: &Vec<u8>) -> (r: Result<Self, FormatError>)
        ensures
            r is Ok <==> Self::decoding_of(bytes@) is Some,
            r is Ok ==> r->Ok_0@ == Self::decoding_of(bytes@)->Some_0,
    {
        if bytes.len() != 64 {
            return Err(FormatError {
                error: String::from_str("member request must be exactly 64 bytes"),
            });
        }
        let group = match read_name_field(bytes, 0) {
            Some(g) => g,
            None => {
                return Err(FormatError { error: String::from_str("group name is not UTF-8") });
            },
        };
        let peer_id = match read_name_field(bytes, 32) {
            Some(p) => p,
            None => {
                return Err(FormatError { error: String::from_str("peer id is not UTF-8") });
            },
        };
        let r = MemberRequest { peer_id, group };
        proof {
            assert(r@ =~= Self::decoding_of(bytes@)->Some_0);
        }
        Ok(r)
    }

    proof fn lemma_round_trip(v: MemberRequestV) {
        let gb = str_utf8(v.group);
        let pb = str_utf8(v.peer_id);
        let e = Self::encoding_of(v);
        lemma_printable_ascii_bytes(v.group);
        lemma_printable_ascii_bytes(v.peer_id);
        assert(e.subrange(0, 32) =~= zero_pad32(gb));
        assert(e.subrange(32, 64) =~= zero_pad32(pb));
        lemma_strip_pad32(gb);
        lemma_strip_pad32(pb);
        encode_utf8_valid_utf8(v.group);
        encode_utf8_valid_utf8(v.peer_id);
        encode_utf8_decode_utf8(v.group);
        encode_utf8_decode_utf8(v.peer_id);
        assert(Self::decoding_of(e)->Some_0 =~= v);
    }
}

// ------------------------------------------------------------------
// Alive
// ------------------------------------------------------------------

/// A liveness heartbeat: the sender's peer id only. The datagram's source
/// address, never any payload field, is the sender's authoritative
/// location.
#[derive(Clone, PartialEq, Eq, Debug)]
pub struct Alive {
    pub peer_id: String,
}

/// The mathematical value of an `Alive`: the peer id.
#[verifier::ext_equal]
pub struct AliveV {
    pub peer_id: Seq<char>,
}

impl View for Alive {
    type V = AliveV;

    open spec fn view(&self) -> AliveV {
        AliveV { peer_id: self.peer_id@ }
    }
}

impl Alive {
    pub fn new(peer_id: String) -> (r: Alive)
        ensures
            r@ == (AliveV { peer_id: peer_id@ }),
    {
        Alive { peer_id }
    }

    pub fn peer_id(&self) -> (r: String)
        ensures
            r@ == self.peer_id@,
    {
        self.peer_id.clone()
    }
}

impl MessageContent for Alive {
    open spec fn wf_view(v: AliveV) -> bool {
        str_utf8(v.peer_id).len() <= 32
    }

    open spec fn encoding_of(v: AliveV) -> Seq<u8> {
        zero_pad32(str_utf8(v.peer_id))
    }

    open spec fn decoding_of(b: Seq<u8>) -> Option<AliveV> {
        if b.len() == 32 {
            match spec_decode_name(b.subrange(0, 32)) {
                Some(p) => Some(AliveV { peer_id: p }),
                None => None,
            }
        } else {
            None
        }
    }

    open spec fn faithful(v: AliveV) -> bool {
        printable_ascii(v.peer_id)
    }

    fn encode(&self) -> (r: Result<Vec<u8>, FormatError>)
        ensures
            r is Ok <==> Self::wf_view(self@),
            r is Ok ==> r->Ok_0@ == Self::encoding_of(self@),
    {
        if self.peer_id.as_str().as_bytes().len() > NAME_FIELD_BYTES {
            return Err(FormatError { error: String::from_str("peer id exceeds 32 bytes") });
        }
        let mut buf: Vec<u8> = Vec::new();
        push_name_field(&mut buf, self.peer_id.as_str());
        proof {
            assert(buf@ =~= Self::encoding_of(self@));
        }
        Ok(buf)
    }

    fn decode(bytes: &Vec<u8>) -> (r: Result<Self, FormatError>)
        ensures
            r is Ok <==> Self::decoding_of(bytes@) is Some,
            r is Ok ==> r->Ok_0@ == Self::decoding_of(bytes@)->Some_0,
    {
        if bytes.len() != 32 {
            return Err(FormatError {
                error: String::from_str("alive payload must be exactly 32 bytes"),
            });
        }
        let peer_id = match read_name_field(bytes, 0) {
            Some(p) => p,
            None => {
                return Err(FormatError { error: String::from_str("peer id is not UTF-8") });
            },
        };
        let r = Alive { peer_id };
        proof {
            assert(bytes@.subrange(0, 32) =~= bytes@);
            assert(r@ =~= Self::decoding_of(bytes@)->Some_0);
        }
        Ok(r)
    }

    proof fn lemma_round_trip(v: AliveV) {
        let pb = str_utf8(v.peer_id);
        let e = Self::encoding_of(v);
        lemma_printable_ascii_bytes(v.peer_id);
        assert(e.subrange(0, 32) =~= zero_pad32(pb));
        lemma_strip_pad32(pb);
        encode_utf8_valid_utf8(v.peer_id);
        encode_utf8_decode_utf8(v.peer_id);
        assert(Self::decoding_of(e)->Some_0 =~= v);
    }
}

// ------------------------------------------------------------------
// Chat
// ------------------------------------------------------------------

/// A chat line: the sender's peer id (at most 32 bytes) and the message
/// text (at most 255 bytes).
#[derive(Clone, PartialEq, Eq, Debug)]
pub struct Chat {
    pub peer_id: String,
    pub msg: String,
}

/// The mathematical value of a `Chat`: its two strings.
#[verifier::ext_equal]
pub struct ChatV {
    pub peer_id: Seq<char>,
    pub msg: Seq<char>,
}

impl View for Chat {
    type V = ChatV;

    open spec fn view(&self) -> ChatV {
        ChatV { peer_id: self.peer_id@, msg: self.msg@ }
    }
}

impl Chat {
    pub fn new(peer_id: String, msg: &String) -> (r: Chat)
        ensures
            r@ == (ChatV { peer_id: peer_id@, msg: msg@ }),
    {
        Chat { peer_id, msg: msg.clone() }
    }

    pub fn msg(&self) -> (r: &str)
        ensures
            r@ == self.msg@,
    {
        self.msg.as_str()
    }

    pub fn peer_id(&self) -> (r: String)
        ensures
            r@ == self.peer_id@,
    {
        self.peer_id.clone()
    }
}

impl MessageContent for Chat {
    open spec fn wf_view(v: ChatV) -> bool {
        str_utf8(v.peer_id).len() <= 32 && str_utf8(v.msg).len() <= 255
    }

    open spec fn encoding_of(v: ChatV) -> Seq<u8> {
        zero_pad32(str_utf8(v.peer_id)) + seq![str_utf8(v.msg).len() as u8] + str_utf8(v.msg)
    }

    open spec fn decoding_of(b: Seq<u8>) -> Option<ChatV> {
        if b.len() >= 33 && b.len() == 33 + b[32] {
            let p = spec_decode_name(b.subrange(0, 32));
            let mb = b.subrange(33, b.len() as int);
            if p is Some && valid_utf8(mb) {
                Some(ChatV { peer_id: p->Some_0, msg: decode_utf8(mb) })
            } else {
                None
            }
        } else {
            None
        }
    }

    open spec fn faithful(v: ChatV) -> bool {
        printable_ascii(v.peer_id)
    }

    fn encode(&self) -> (r: Result<Vec<u8>, FormatError>)
        ensures
            r is Ok <==> Self::wf_view(self@),
            r is Ok ==> r->Ok_0@ == Self::encoding_of(self@),
    {
        if self.peer_id.as_str().as_bytes().len() > NAME_FIELD_BYTES {
            return Err(FormatError { error: String::from_str("peer id exceeds 32 bytes") });
        }
        let msg_len = self.msg.as_str().as_bytes().len();
        if msg_len > MAX_CHAT_BYTES {
            return Err(FormatError { error: String::from_str("chat message exceeds 255 bytes") });
        }
        let mut buf: Vec<u8> = Vec::new();
        push_name_field(&mut buf, self.peer_id.as_str());
        buf.push(msg_len as u8);
        push_str_bytes(&mut buf, self.msg.as_str());
        proof {
            assert(buf@ =~= Self::encoding_of(self@));
        }
        Ok(buf)
    }

    fn decode(bytes: &Vec<u8>) -> (r: Result<Self, FormatError>)
        ensures
            r is Ok <==> Self::decoding_of(bytes@) is Some,
            r is Ok ==> r->Ok_0@ == Self::decoding_of(bytes@)->Some_0,
    {
        if bytes.len() < 33 {
            return Err(FormatError { error: String::from_str("chat payload is too short") });
        }
        let msg_len = bytes[32] as usize;
        if bytes.len() != 33 + msg_len {
            return Err(FormatError {
                error: String::from_str("chat payload length does not match its length byte"),
            });
        }
        let peer_id = match read_name_field(bytes, 0) {
            Some(p) => p,
            None => {
                return Err(FormatError { error: String::from_str("peer id is not UTF-8") });
            },
        };
        let msg_bytes = subvec(bytes, 33, bytes.len());
        let msg = match bytes_to_string(msg_bytes) {
            Some(m) => m,
            None => {
                return Err(FormatError { error: String::from_str("chat message is not UTF-8") });
            },
        };
        let r = Chat { peer_id, msg };
        proof {
            encode_utf8_decode_utf8(r.msg@);
            assert(r@ =~= Self::decoding_of(bytes@)->Some_0);
        }
        Ok(r)
    }

    proof fn lemma_round_trip(v: ChatV) {
        let pb = str_utf8(v.peer_id);
        let mb = str_utf8(v.msg);
        let e = Self::encoding_of(v);
        lemma_printable_ascii_bytes(v.peer_id);
        assert(e.len() == 33 + mb.len());
        assert(e[32] == mb.len() as u8);
        assert(e.subrange(0, 32) =~= zero_pad32(pb));
        assert(e.subrange(33, e.len() as int) =~= mb);
        lemma_strip_pad32(pb);
        encode_utf8_valid_utf8(v.peer_id);
        encode_utf8_decode_utf8(v.peer_id);
        encode_utf8_valid_utf8(v.msg);
        encode_utf8_decode_utf8(v.msg);
        assert(Self::decoding_of(e)->Some_0 =~= v);
    }
}

// ------------------------------------------------------------------
// MemberResponse
// ------------------------------------------------------------------

/// The exact 38 bytes one response entry encodes to: the zero-padded peer
/// id, the four address octets, and the big-endian port.
pub open spec fn peer_entry_bytes(p: (Seq<char>, PeerAddr)) -> Seq<u8> {
    zero_pad32(str_utf8(p.0)) + seq![
        p.1.ip0,
        p.1.ip1,
        p.1.ip2,
        p.1.ip3,
        (p.1.port / 256) as u8,
        (p.1.port % 256) as u8,
    ]
}

/// The concatenated encodings of a list of response entries.
pub open spec fn peers_bytes(ps: Seq<(Seq<char>, PeerAddr)>) -> Seq<u8>
    decreases ps.len(),
{
    if ps.len() == 0 {
        Seq::empty()
    } else {
        peer_entry_bytes(ps[0]) + peers_bytes(ps.drop_first())
    }
}

/// Appending one entry appends its 38 bytes.
pub proof fn lemma_peers_bytes_push(ps: Seq<(Seq<char>, PeerAddr)>, p: (Seq<char>, PeerAddr))
    ensures
        peers_bytes(ps.push(p)) == peers_bytes(ps) + peer_entry_bytes(p),
    decreases ps.len(),
{
    if ps.len() == 0 {
        assert(ps.push(p)[0] == p);
        assert(ps.push(p).drop_first() =~= Seq::<(Seq<char>, PeerAddr)>::empty());
        assert(peers_bytes(Seq::<(Seq<char>, PeerAddr)>::empty()) == Seq::<u8>::empty());
        assert(peers_bytes(ps.push(p)) =~= peers_bytes(ps) + peer_entry_bytes(p));
    } else {
        assert(ps.push(p)[0] == ps[0]);
        assert(ps.push(p).drop_first() =~= ps.drop_first().push(p));
        lemma_peers_bytes_push(ps.drop_first(), p);
        assert(peers_bytes(ps.push(p)) =~= peers_bytes(ps) + peer_entry_bytes(p));
    }
}

/// Every entry whose peer id fits its field takes exactly 38 bytes.
pub proof fn lemma_peers_bytes_len(ps: Seq<(Seq<char>, PeerAddr)>)
    requires
        forall|i: int| 0 <= i < ps.len() ==> str_utf8(#[trigger] ps[i].0).len() <= 32,
    ensures
        peers_bytes(ps).len() == 38 * ps.len(),
    decreases ps.len(),
{
    if ps.len() > 0 {
        assert(str_utf8(ps[0].0).len() <= 32);
        lemma_peers_bytes_len(ps.drop_first());
    }
}

/// What `n` consecutive 38-byte response entries decode to, if `b` is
/// exactly their bytes.
pub open spec fn spec_decode_peers(b: Seq<u8>, n: nat) -> Option<Seq<(Seq<char>, PeerAddr)>>
    decreases n,
{
    if n == 0 {
        if b.len() == 0 {
            Some(Seq::empty())
        } else {
            None
        }
    } else if b.len() < 38 {
        None
    } else {
        match spec_decode_name(b.subrange(0, 32)) {
            Some(id) => match spec_decode_peers(b.skip(38), (n - 1) as nat) {
                Some(rest) => Some(
                    seq![
                        (
                            id,
                            PeerAddr {
                                ip0: b[32],
                                ip1: b[33],
                                ip2: b[34],
                                ip3: b[35],
                                port: (b[36] * 256 + b[37]) as u16,
                            },
                        ),
                    ] + rest,
                ),
                None => None,
            },
            None => None,
        }
    }
}

/// The string views of an entry list.
pub open spec fn peers_view(ps: Seq<(String, PeerAddr)>) -> Seq<(Seq<char>, PeerAddr)> {
    ps.map_values(|p: (String, PeerAddr)| (p.0@, p.1))
}

/// A membership answer: the group name and up to five (peer id, address)
/// pairs. A directory larger than the cap needs several responses; one
/// response never carries more.
#[derive(Clone, PartialEq, Eq, Debug)]
pub struct MemberResponse {
    pub group: String,
    pub member_number: u8,
    pub peers: Vec<(String, PeerAddr)>,
}

/// The mathematical value of a `MemberResponse`: the group name and the
/// entry list. The stored count byte is derived, not part of the value.
#[verifier::ext_equal]
pub struct MemberResponseV {
    pub group: Seq<char>,
    pub peers: Seq<(Seq<char>, PeerAddr)>,
}

impl View for MemberResponse {
    type V = MemberResponseV;

    open spec fn view(&self) -> MemberResponseV {
        MemberResponseV { group: self.group@, peers: peers_view(self.peers@) }
    }
}

impl MemberResponse {
    /// Build a response, rejecting more than five peers or an over-length
    /// group name.
    pub fn new(group: &str, peers: Vec<(String, PeerAddr)>) -> (r: Result<
        MemberResponse,
        FormatError,
    >)
        ensures
            r is Ok <==> (peers@.len() <= 5 && str_utf8(group@).len() <= 32),
            r is Ok ==> r->Ok_0@ == (MemberResponseV {
                group: group@,
                peers: peers_view(peers@),
            }) && r->Ok_0.member_number == peers@.len(),
    {
        if peers.len() > MAX_RESPONSE_PEERS {
            return Err(FormatError { error: String::from_str("more than 5 peer addresses") });
        }
        if group.as_bytes().len() > NAME_FIELD_BYTES {
            return Err(FormatError { error: String::from_str("group name exceeds 32 bytes") });
        }
        let member_number = peers.len() as u8;
        Ok(MemberResponse { group: group.to_owned(), member_number, peers })
    }

    pub fn group_name(&self) -> (r: String)
        ensures
            r@ == self.group@,
    {
        self.group.clone()
    }

    pub fn peers(&self) -> (r: &Vec<(String, PeerAddr)>)
        ensures
            r == &self.peers,
    {
        &self.peers
    }
}

impl MessageContent for MemberResponse {
    open spec fn wf_view(v: MemberResponseV) -> bool {
        str_utf8(v.group).len() <= 32 && v.peers.len() <= 5 && forall|i: int|
            0 <= i < v.peers.len() ==> str_utf8(#[trigger] v.peers[i].0).len() <= 32
    }

    open spec fn encoding_of(v: MemberResponseV) -> Seq<u8> {
        zero_pad32(str_utf8(v.group)) + seq![v.peers.len() as u8] + peers_bytes(v.peers)
    }

    open spec fn decoding_of(b: Seq<u8>) -> Option<MemberResponseV> {
        if b.len() >= 33 && b[32] <= 5 && b.len() == 33 + 38 * b[32] {
            let g = spec_decode_name(b.subrange(0, 32));
            let ps = spec_decode_peers(b.skip(33), b[32] as nat);
            if g is Some && ps is Some {
                Some(MemberResponseV { group: g->Some_0, peers: ps->Some_0 })
            } else {
                None
            }
        } else {
            None
        }
    }

    open spec fn faithful(v: MemberResponseV) -> bool {
        printable_ascii(v.group) && forall|i: int|
            0 <= i < v.peers.len() ==> printable_ascii(#[trigger] v.peers[i].0)
    }

    fn encode(&self) -> (r: Result<Vec<u8>, FormatError>)
        ensures
            r is Ok <==> Self::wf_view(self@),
            r is Ok ==> r->Ok_0@ == Self::encoding_of(self@),
    {
        if self.group.as_str().as_bytes().len() > NAME_FIELD_BYTES {
            return Err(FormatError { error: String::from_str("group name exceeds 32 bytes") });
        }
        if self.peers.len() > MAX_RESPONSE_PEERS {
            return Err(FormatError { error: String::from_str("more than 5 peer addresses") });
        }
        let mut buf: Vec<u8> = Vec::new();
        push_name_field(&mut buf, self.group.as_str());
        buf.push(self.peers.len() as u8);
        let ghost prefix = buf@;
        let mut i: usize = 0;
        while i < self.peers.len()
            invariant
                i <= self.peers@.len(),
                self.peers@.len() <= 5,
                prefix == zero_pad32(str_utf8(self.group@)) + seq![self.peers@.len() as u8],
                buf@ == prefix + peers_bytes(peers_view(self.peers@).subrange(0, i as int)),
                forall|j: int| 0 <= j < i ==> str_utf8(
                    #[trigger] peers_view(self.peers@)[j].0,
                ).len() <= 32,
            decreases self.peers@.len() - i,
        {
            let p = &self.peers[i];
            proof {
                assert(peers_view(self.peers@)[i as int] == (self.peers@[i as int].0@,
                self.peers@[i as int].1));
            }
            if p.0.as_str().as_bytes().len() > NAME_FIELD_BYTES {
                proof {
                    assert(str_utf8(peers_view(self.peers@)[i as int].0).len() > 32);
                    assert(!Self::wf_view(self@));
                }
                return Err(FormatError { error: String::from_str("peer id exceeds 32 bytes") });
            }
            push_name_field(&mut buf, p.0.as_str());
            buf.push(p.1.ip0);
            buf.push(p.1.ip1);
            buf.push(p.1.ip2);
            buf.push(p.1.ip3);
            buf.push((p.1.port / 256) as u8);
            buf.push((p.1.port % 256) as u8);
            proof {
                let pv = peers_view(self.peers@);
                assert(pv.subrange(0, i + 1 as int) =~= pv.subrange(0, i as int).push(
                    pv[i as int],
                ));
                lemma_peers_bytes_push(pv.subrange(0, i as int), pv[i as int]);
                assert(buf@ =~= prefix + peers_bytes(pv.subrange(0, i + 1 as int)));
            }
            i = i + 1;
        }
        proof {
            assert(peers_view(self.peers@).subrange(0, self.peers@.len() as int) =~= peers_view(
                self.peers@,
            ));
            assert(buf@ =~= Self::encoding_of(self@));
        }
        Ok(buf)
    }

    fn decode(bytes: &Vec<u8>) -> (r: Result<Self, FormatError>)
        ensures
            r is Ok <==> Self::decoding_of(bytes@) is Some,
            r is Ok ==> r->Ok_0@ == Self::decoding_of(bytes@)->Some_0,
    {
        if bytes.len() < 33 {
            return Err(FormatError {
                error: String::from_str("member response payload is too short"),
            });
        }
        let count = bytes[32];
        if count as usize > MAX_RESPONSE_PEERS {
            return Err(FormatError { error: String::from_str("more than 5 peer addresses") });
        }
        if bytes.len() != 33 + 38 * (count as usize) {
            return Err(FormatError {
                error: String::from_str("member response length does not match its count byte"),
            });
        }
        let group = match read_name_field(bytes, 0) {
            Some(g) => g,
            None => {
                return Err(FormatError { error: String::from_str("group name is not UTF-8") });
            },
        };
        let peers = decode_peers(bytes, 33, count)?;
        let r = MemberResponse { group, member_number: count, peers };
        proof {
            assert(r@ =~= Self::decoding_of(bytes@)->Some_0);
        }
        Ok(r)
    }

    proof fn lemma_round_trip(v: MemberResponseV) {
        let gb = str_utf8(v.group);
        let e = Self::encoding_of(v);
        lemma_printable_ascii_bytes(v.group);
        lemma_peers_bytes_len(v.peers);
        assert(e.len() == 33 + 38 * v.peers.len());
        assert(e[32] == v.peers.len() as u8);
        assert(e.subrange(0, 32) =~= zero_pad32(gb));
        lemma_strip_pad32(gb);
        encode_utf8_valid_utf8(v.group);
        encode_utf8_decode_utf8(v.group);
        assert(e.skip(33) =~= peers_bytes(v.peers));
        lemma_peers_round_trip(v.peers);
        assert(Self::decoding_of(e)->Some_0 =~= v);
    }
}

/// Decoding the concatenated entry encodings gives back the entries.
proof fn lemma_peers_round_trip(ps: Seq<(Seq<char>, PeerAddr)>)
    requires
        forall|i: int| 0 <= i < ps.len() ==> str_utf8(#[trigger] ps[i].0).len() <= 32,
        forall|i: int| 0 <= i < ps.len() ==> printable_ascii(#[trigger] ps[i].0),
    ensures
        spec_decode_peers(peers_bytes(ps), ps.len()) == Some(ps),
    decreases ps.len(),
{
    if ps.len() > 0 {
        let e = peers_bytes(ps);
        let e0 = peer_entry_bytes(ps[0]);
        let idb = str_utf8(ps[0].0);
        lemma_printable_ascii_bytes(ps[0].0);
        lemma_peers_bytes_len(ps.drop_first());
        assert(e0.len() == 38);
        assert(e.subrange(0, 32) =~= zero_pad32(idb));
        lemma_strip_pad32(idb);
        encode_utf8_valid_utf8(ps[0].0);
        encode_utf8_decode_utf8(ps[0].0);
        assert(e[32] == ps[0].1.ip0);
        assert(e[33] == ps[0].1.ip1);
        assert(e[34] == ps[0].1.ip2);
        assert(e[35] == ps[0].1.ip3);
        assert(e[36] == (ps[0].1.port / 256) as u8);
        assert(e[37] == (ps[0].1.port % 256) as u8);
        assert((e[36] * 256 + e[37]) as u16 == ps[0].1.port);
        assert(e.skip(38) =~= peers_bytes(ps.drop_first()));
        lemma_peers_round_trip(ps.drop_first());
        assert(spec_decode_peers(e, ps.len())->Some_0 =~= ps);
    }
}

/// Decode `n` consecutive 38-byte response entries starting at `offset`,
/// which reach exactly to the end of `bytes`.
fn decode_peers(bytes: &Vec<u8>, offset: usize, n: u8) -> (r: Result<
    Vec<(String, PeerAddr)>,
    FormatError,
>)
    requires
        offset + 38 * (n as int) == bytes@.len(),
    ensures
        r is Ok <==> spec_decode_peers(bytes@.skip(offset as int), n as nat) is Some,
        r is Ok ==> peers_view(r->Ok_0@) == spec_decode_peers(
            bytes@.skip(offset as int),
            n as nat,
        )->Some_0,
    decreases n,
{
    let ghost tail = bytes@.skip(offset as int);
    if n == 0 {
        let r: Vec<(String, PeerAddr)> = Vec::new();
        proof {
            assert(peers_view(r@) =~= Seq::<(Seq<char>, PeerAddr)>::empty());
        }
        return Ok(r);
    }
    let total = bytes.len();
    proof {
        assert(offset + 38 <= total);
        assert(tail.subrange(0, 32) =~= bytes@.subrange(offset as int, offset + 32));
        assert(tail.skip(38) =~= bytes@.skip(offset + 38));
    }
    let id = match read_name_field(bytes, offset) {
        Some(p) => p,
        None => {
            return Err(FormatError { error: String::from_str("peer id is not UTF-8") });
        },
    };
    let addr = PeerAddr {
        ip0: bytes[offset + 32],
        ip1: bytes[offset + 33],
        ip2: bytes[offset + 34],
        ip3: bytes[offset + 35],
        port: bytes[offset + 36] as u16 * 256 + bytes[offset + 37] as u16,
    };
    let rest = decode_peers(bytes, offset + 38, n - 1)?;
    let mut out: Vec<(String, PeerAddr)> = Vec::new();
    out.push((id, addr));
    let mut rest_mut = rest;
    out.append(&mut rest_mut);
    proof {
        let full = spec_decode_peers(tail, n as nat);
        assert(full is Some);
        assert(peers_view(out@) =~= full->Some_0);
    }
    Ok(out)
}

// ------------------------------------------------------------------
// Decoded values fit back into their own fields
// ------------------------------------------------------------------

/// A name read from a 32-byte field takes at most 32 bytes itself.
pub proof fn lemma_decode_name_len(b: Seq<u8>)
    requires
        b.len() == 32,
        spec_decode_name(b) is Some,
    ensures
        str_utf8(spec_decode_name(b)->Some_0).len() <= 32,
{
    vstd::utf8::decode_utf8_encode_utf8(strip_zeros(b));
    lemma_strip_zeros_len(b);
}

/// Every value a member request decodes to is itself encodable.
pub proof fn lemma_member_request_decoding_wf(b: Seq<u8>)
    requires
        MemberRequest::decoding_of(b) is Some,
    ensures
        MemberRequest::wf_view(MemberRequest::decoding_of(b)->Some_0),
{
    lemma_decode_name_len(b.subrange(0, 32));
    lemma_decode_name_len(b.subrange(32, 64));
}

/// Every value an alive payload decodes to is itself encodable.
pub proof fn lemma_alive_decoding_wf(b: Seq<u8>)
    requires
        Alive::decoding_of(b) is Some,
    ensures
        Alive::wf_view(Alive::decoding_of(b)->Some_0),
{
    lemma_decode_name_len(b.subrange(0, 32));
}

/// Every value a chat payload decodes to is itself encodable.
pub proof fn lemma_chat_decoding_wf(b: Seq<u8>)
    requires
        Chat::decoding_of(b) is Some,
    ensures
        Chat::wf_view(Chat::decoding_of(b)->Some_0),
{
    lemma_decode_name_len(b.subrange(0, 32));
    let mb = b.subrange(33, b.len() as int);
    vstd::utf8::decode_utf8_encode_utf8(mb);
}

/// Every peer id in a decoded entry list takes at most 32 bytes, and the
/// list has exactly the announced number of entries.
pub proof fn lemma_decode_peers_wf(b: Seq<u8>, n: nat)
    requires
        spec_decode_peers(b, n) is Some,
    ensures
        spec_decode_peers(b, n)->Some_0.len() == n,
        forall|i: int| 0 <= i < n ==> str_utf8(
            #[trigger] spec_decode_peers(b, n)->Some_0[i].0,
        ).len() <= 32,
    decreases n,
{
    if n > 0 {
        lemma_decode_name_len(b.subrange(0, 32));
        lemma_decode_peers_wf(b.skip(38), (n - 1) as nat);
        let ps = spec_decode_peers(b, n)->Some_0;
        let rest = spec_decode_peers(b.skip(38), (n - 1) as nat)->Some_0;
        assert forall|i: int| 0 <= i < n implies str_utf8(#[trigger] ps[i].0).len() <= 32 by {
            if i > 0 {
                assert(ps[i] == rest[i - 1]);
            }
        }
    }
}

/// Every value a member response decodes to is itself encodable.
pub proof fn lemma_member_response_decoding_wf(b: Seq<u8>)
    requires
        MemberResponse::decoding_of(b) is Some,
    ensures
        MemberResponse::wf_view(MemberResponse::decoding_of(b)->Some_0),
        MemberResponse::decoding_of(b)->Some_0.peers.len() <= 5,
{
    lemma_decode_name_len(b.subrange(0, 32));
    lemma_decode_peers_wf(b.skip(33), b[32] as nat);
}

// ------------------------------------------------------------------
// Message: a header together with an optional payload
// ------------------------------------------------------------------

/// One protocol message: the frame header and, when present, the payload.
#[derive(Clone, Debug)]
pub struct Message<T: MessageContent> {
    pub header: Header,
    pub content: Option<T>,
}

impl<T: MessageContent> Message<T> {
    /// What a full frame decodes to: the header read from the first 4
    /// bytes, whose size field must equal the payload length, and the
    /// payload value read from the rest.
    pub open spec fn spec_frame_decoding(b: Seq<u8>) -> Option<(Header, T::V)> {
        if b.len() >= 4 {
            match Header::spec_decode(b.subrange(0, 4)) {
                Some(h) => {
                    if b.len() - 4 == h.size {
                        match T::decoding_of(b.skip(4)) {
                            Some(c) => Some((h, c)),
                            None => None,
                        }
                    } else {
                        None
                    }
                },
                None => None,
            }
        } else {
            None
        }
    }

    pub fn new(header: Header, content: Option<T>) -> (m: Message<T>)
        ensures
            m.header == header,
            m.content == content,
    {
        Message { header, content }
    }

    pub fn header(&self) -> (h: &Header)
        ensures
            *h == self.header,
    {
        &self.header
    }

    pub fn content(&self) -> (c: Option<&T>)
        ensures
            c is Some <==> self.content is Some,
            c is Some ==> *c->Some_0 == self.content->Some_0,
    {
        self.content.as_ref()
    }

    /// Encode the header as given followed by the payload's bytes, if a
    /// payload is present. The header's size field is written as it
    /// stands; `encode_datagram` builds frames whose size field matches.
    pub fn encode(&self) -> (r: Result<Vec<u8>, FormatError>)
        requires
            self.header.wf(),
        ensures
            r is Ok <==> (self.content is Some ==> T::wf_view(self.content->Some_0@)),
            r is Ok ==> r->Ok_0@ == self.header.spec_encoding() + (if self.content is Some {
                T::encoding_of(self.content->Some_0@)
            } else {
                Seq::<u8>::empty()
            }),
    {
        let mut buf = self.header.encode();
        match self.content.as_ref() {
            None => {
                proof {
                    assert(buf@ =~= self.header.spec_encoding() + Seq::<u8>::empty());
                }
                Ok(buf)
            },
            Some(content) => {
                let mut payload = content.encode()?;
                buf.append(&mut payload);
                Ok(buf)
            },
        }
    }

    /// Decode a full frame: header first, then the payload, which must
    /// span exactly the size the header declares.
    pub fn decode(bytes: &Vec<u8>) -> (r: Result<Message<T>, DecodeError>)
        ensures
            r is Ok <==> Self::spec_frame_decoding(bytes@) is Some,
            r is Ok ==> r->Ok_0.header == Self::spec_frame_decoding(bytes@)->Some_0.0
                && r->Ok_0.content is Some && r->Ok_0.content->Some_0@ == Self::spec_frame_decoding(
                bytes@,
            )->Some_0.1,
    {
        let n = bytes.len();
        if n < 4 {
            return Err(DecodeError::Format(FormatError {
                error: String::from_str("frame is shorter than its header"),
            }));
        }
        let header_bytes = subvec(bytes, 0, 4);
        let header = match Header::decode(&header_bytes) {
            Ok(h) => h,
            Err(e) => {
                return Err(e);
            },
        };
        if n - 4 != header.msg_size() as usize {
            return Err(DecodeError::Format(FormatError {
                error: String::from_str("payload length does not match the header size field"),
            }));
        }
        let payload = subvec(bytes, 4, n);
        proof {
            assert(payload@ =~= bytes@.skip(4));
        }
        let content = match T::decode(&payload) {
            Ok(c) => c,
            Err(e) => {
                return Err(DecodeError::Format(e));
            },
        };
        Ok(Message { header, content: Some(content) })
    }
}

/// Build one complete frame for `content`: a version-`version` header of
/// `content`'s kind whose size field is the payload's true length,
/// followed by the payload bytes.
pub fn encode_datagram<T: MessageContent>(version: u8, msg_type: MessageType, content: &T) -> (r:
    Result<Vec<u8>, FormatError>)
    requires
        version < 16,
    ensures
        r is Ok <==> (T::wf_view(content@) && T::encoding_of(content@).len() <= u16::MAX),
        r is Ok ==> r->Ok_0@ == (Header {
            magic_bytes: MAGIC_HEADER,
            version,
            msg_type,
            size: T::encoding_of(content@).len() as u16,
        }).spec_encoding() + T::encoding_of(content@),
{
    let payload = content.encode()?;
    if payload.len() > 65535 {
        return Err(FormatError {
            error: String::from_str("payload does not fit the 16-bit size field"),
        });
    }
    let header = Header::new(version, msg_type, payload.len() as u16);
    let mut buf = header.encode();
    let mut payload_mut = payload;
    buf.append(&mut payload_mut);
    Ok(buf)
}

/// Lossless framing end to end: a complete frame built for an encodable,
/// faithful payload — the bytes `encode_datagram` produces — decodes back
/// to its header and exactly that payload value.
pub proof fn lemma_datagram_round_trip<T: MessageContent>(
    version: u8,
    msg_type: MessageType,
    v: T::V,
)
    requires
        version < 16,
        T::wf_view(v),
        T::faithful(v),
        T::encoding_of(v).len() <= u16::MAX,
    ensures
        ({
            let h = Header {
                magic_bytes: MAGIC_HEADER,
                version,
                msg_type,
                size: T::encoding_of(v).len() as u16,
            };
            Message::<T>::spec_frame_decoding(h.spec_encoding() + T::encoding_of(v)) == Some(
                (h, v),
            )
        }),
{
    let h = Header {
        magic_bytes: MAGIC_HEADER,
        version,
        msg_type,
        size: T::encoding_of(v).len() as u16,
    };
    let b = h.spec_encoding() + T::encoding_of(v);
    assert(b.subrange(0, 4) =~= h.spec_encoding());
    lemma_header_round_trip(h);
    assert(b.skip(4) =~= T::encoding_of(v));
    T::lemma_round_trip(v);
    assert(b.len() - 4 == h.size);
}

} // verus!
