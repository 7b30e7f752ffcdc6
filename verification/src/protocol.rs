//! The packet protocol spoken between client and server.
//!
//! A packet starts with one flag byte for its type:
//! `<` (0x3C) get request, `>` (0x3E) set request, `-` (0x2D) delete
//! request, `$` (0x24) ok response, `&` (0x26) error response.
//!
//! An error response carries only its message, prefixed with its length as a
//! big-endian `u16`. Every other packet then has two flag bytes (`1` or `0`)
//! telling whether the key and the value follow, and then those fields: the
//! key prefixed with its length as a big-endian `u16`, the value (in its text
//! form) prefixed with its length as a big-endian `u32`. Lengths count bytes;
//! text goes out as UTF-8 and each byte read back becomes one character.
//!
//! On the stream, each packet is preceded by its own length as a big-endian
//! `u32`.
use vstd::prelude::*;
use vstd::utf8::{encode_utf8, is_ascii_chars};

use crate::error::Error;
use crate::item::{canonical, item_from_text, item_text, law_item_text_roundtrip, Item, ItemView};

verus! {

/// Types that write themselves as text.
pub trait Serialize {
    fn serialize(&self) -> String;
}

/// The type of a packet.
#[derive(Debug, PartialEq, Eq)]
pub enum PacketType {
    RequestGet,
    RequestSet,
    RequestDelete,
    ResponseOk,
    ResponseError(String),
}

/// The mathematical value of a [`PacketType`].
pub enum PacketTypeView {
    RequestGet,
    RequestSet,
    RequestDelete,
    ResponseOk,
    ResponseError(Seq<char>),
}

impl View for PacketType {
    type V = PacketTypeView;

    open spec fn view(&self) -> PacketTypeView {
        match self {
            PacketType::RequestGet => PacketTypeView::RequestGet,
            PacketType::RequestSet => PacketTypeView::RequestSet,
            PacketType::RequestDelete => PacketTypeView::RequestDelete,
            PacketType::ResponseOk => PacketTypeView::ResponseOk,
            PacketType::ResponseError(m) => PacketTypeView::ResponseError(m@),
        }
    }
}

/// A protocol packet: a type, and optionally a key and a value.
#[derive(Debug, PartialEq, Eq)]
pub struct Packet {
    pub key: Option<String>,
    pub value: Option<Item>,
    pub packet_type: PacketType,
}

/// The mathematical value of a [`Packet`].
pub struct PacketView {
    pub key: Option<Seq<char>>,
    pub value: Option<ItemView>,
    pub packet_type: PacketTypeView,
}

impl View for Packet {
    type V = PacketView;

    open spec fn view(&self) -> PacketView {
        PacketView {
            key: match self.key {
                Some(k) => Some(k@),
                None => None,
            },
            value: match self.value {
                Some(v) => Some(v@),
                None => None,
            },
            packet_type: self.packet_type@,
        }
    }
}

// ---------------------------------------------------------------------------
// Wire format
// ---------------------------------------------------------------------------

/// The flag byte of each packet type.
pub open spec fn tag(t: PacketTypeView) -> u8 {
    match t {
        PacketTypeView::RequestGet => 0x3C,
        PacketTypeView::RequestSet => 0x3E,
        PacketTypeView::RequestDelete => 0x2D,
        PacketTypeView::ResponseOk => 0x24,
        PacketTypeView::ResponseError(_) => 0x26,
    }
}

/// `n` as two big-endian bytes.
pub open spec fn be16(n: nat) -> Seq<u8> {
    seq![(n / 0x100) as u8, (n % 0x100) as u8]
}

/// `n` as four big-endian bytes.
pub open spec fn be32(n: nat) -> Seq<u8> {
    seq![
        (n / 0x1000000) as u8,
        (n / 0x10000 % 0x100) as u8,
        (n / 0x100 % 0x100) as u8,
        (n % 0x100) as u8,
    ]
}

/// `1` for present, `0` for absent.
pub open spec fn flag(present: bool) -> u8 {
    if present {
        1
    } else {
        0
    }
}

/// The key's bytes, where there is a key.
pub open spec fn key_bytes(p: PacketView) -> Seq<u8> {
    match p.key {
        Some(k) => encode_utf8(k),
        None => Seq::empty(),
    }
}

/// The bytes of the value's text form, where there is a value.
pub open spec fn value_bytes(p: PacketView) -> Seq<u8> {
    match p.value {
        Some(v) => encode_utf8(item_text(v)),
        None => Seq::empty(),
    }
}

/// The lengths that a `u16` prefix must hold do fit: that of an error
/// message, and that of a key.
pub open spec fn fits(p: PacketView) -> bool {
    match p.packet_type {
        PacketTypeView::ResponseError(m) => encode_utf8(m).len() <= 0xFFFF,
        _ => key_bytes(p).len() <= 0xFFFF,
    }
}

/// The value is too long for its `u32` length prefix.
pub open spec fn value_too_long(p: PacketView) -> bool {
    !(p.packet_type is ResponseError) && value_bytes(p).len() > 0xFFFF_FFFF
}

/// The bytes of a packet.
pub open spec fn encode_packet(p: PacketView) -> Seq<u8> {
    match p.packet_type {
        PacketTypeView::ResponseError(m) => seq![0x26u8] + be16(encode_utf8(m).len()) + encode_utf8(
            m,
        ),
        _ => {
            let key_field = if p.key is Some {
                be16(key_bytes(p).len()) + key_bytes(p)
            } else {
                Seq::empty()
            };
            let value_field = if p.value is Some {
                be32(value_bytes(p).len()) + value_bytes(p)
            } else {
                Seq::empty()
            };
            seq![tag(p.packet_type), flag(p.key is Some), flag(p.value is Some)] + key_field
                + value_field
        },
    }
}

/// Each byte read as the character with that number.
pub open spec fn decode_latin1(b: Seq<u8>) -> Seq<char> {
    b.map_values(|x: u8| x as char)
}

/// The big-endian `u16` at `pos`.
pub open spec fn read16(b: Seq<u8>, pos: int) -> nat {
    (b[pos] * 0x100 + b[pos + 1]) as nat
}

/// The big-endian `u32` at `pos`.
pub open spec fn read32(b: Seq<u8>, pos: int) -> nat {
    (b[pos] * 0x1000000 + b[pos + 1] * 0x10000 + b[pos + 2] * 0x100 + b[pos + 3]) as nat
}

/// The field at `pos` with a `u16` length prefix, and the position after
/// it; nothing where the bytes end first.
pub open spec fn take_field16(b: Seq<u8>, pos: int) -> Option<(Seq<u8>, int)> {
    if pos + 2 > b.len() {
        None
    } else if pos + 2 + read16(b, pos) > b.len() {
        None
    } else {
        Some((b.subrange(pos + 2, pos + 2 + read16(b, pos)), pos + 2 + read16(b, pos)))
    }
}

/// The field at `pos` with a `u32` length prefix; nothing where the bytes end
/// first.
pub open spec fn take_field32(b: Seq<u8>, pos: int) -> Option<Seq<u8>> {
    if pos + 4 > b.len() {
        None
    } else if pos + 4 + read32(b, pos) > b.len() {
        None
    } else {
        Some(b.subrange(pos + 4, pos + 4 + read32(b, pos)))
    }
}

/// The packet type that a flag byte stands for, other than the error
/// response.
pub open spec fn request_or_ok(t: u8) -> Option<PacketTypeView> {
    if t == 0x3C {
        Some(PacketTypeView::RequestGet)
    } else if t == 0x3E {
        Some(PacketTypeView::RequestSet)
    } else if t == 0x2D {
        Some(PacketTypeView::RequestDelete)
    } else if t == 0x24 {
        Some(PacketTypeView::ResponseOk)
    } else {
        None
    }
}

/// The body of a packet whose type `t` is not an error response: the two
/// presence flags, then the key and the value that they announce.
pub open spec fn decode_body(b: Seq<u8>, t: PacketTypeView) -> Option<PacketView> {
    if b.len() < 3 || b[1] > 1 || b[2] > 1 {
        None
    } else {
        let key_part: Option<(Option<Seq<char>>, int)> = if b[1] == 1 {
            match take_field16(b, 3) {
                Some((k, next)) => Some((Some(decode_latin1(k)), next)),
                None => None,
            }
        } else {
            Some((None, 3))
        };
        match key_part {
            None => None,
            Some((key, pos)) => if b[2] == 1 {
                match take_field32(b, pos) {
                    Some(v) => Some(
                        PacketView {
                            key,
                            value: Some(item_from_text(decode_latin1(v))),
                            packet_type: t,
                        },
                    ),
                    None => None,
                }
            } else {
                Some(PacketView { key, value: None, packet_type: t })
            },
        }
    }
}

/// The packet that bytes stand for; nothing where they are not a packet.
/// Bytes after the packet are ignored.
pub open spec fn decode_packet(b: Seq<u8>) -> Option<PacketView> {
    if b.len() == 0 {
        None
    } else if b[0] == 0x26 {
        match take_field16(b, 1) {
            Some((m, _)) => Some(
                PacketView {
                    key: None,
                    value: None,
                    packet_type: PacketTypeView::ResponseError(decode_latin1(m)),
                },
            ),
            None => None,
        }
    } else {
        match request_or_ok(b[0]) {
            Some(t) => decode_body(b, t),
            None => None,
        }
    }
}

// ---------------------------------------------------------------------------
// Executable operations
// ---------------------------------------------------------------------------

impl PacketType {
    /// The flag byte of this packet type.
    pub fn to_tag(&self) -> (t: u8)
        ensures
            t == tag(self@),
    {
        match self {
            PacketType::RequestGet => 0x3C,
            PacketType::RequestSet => 0x3E,
            PacketType::RequestDelete => 0x2D,
            PacketType::ResponseOk => 0x24,
            PacketType::ResponseError(_) => 0x26,
        }
    }
}

impl Default for PacketType {
    fn default() -> (t: Self)
        ensures
            t@ == PacketTypeView::ResponseOk,
    {
        PacketType::ResponseOk
    }
}

impl Clone for PacketType {
    fn clone(&self) -> (t: Self)
        ensures
            t@ == self@,
    {
        match self {
            PacketType::RequestGet => PacketType::RequestGet,
            PacketType::RequestSet => PacketType::RequestSet,
            PacketType::RequestDelete => PacketType::RequestDelete,
            PacketType::ResponseOk => PacketType::ResponseOk,
            PacketType::ResponseError(m) => PacketType::ResponseError(m.clone()),
        }
    }
}

impl Default for Packet {
    fn default() -> (p: Self)
        ensures
            p@ == (PacketView { key: None, value: None, packet_type: PacketTypeView::ResponseOk }),
    {
        Packet { key: None, value: None, packet_type: PacketType::default() }
    }
}

impl Clone for Packet {
    fn clone(&self) -> (p: Self)
        ensures
            p@ == self@,
    {
        let key = match &self.key {
            Some(k) => Some(k.clone()),
            None => None,
        };
        let value = match &self.value {
            Some(v) => Some(v.clone()),
            None => None,
        };
        Packet { key, value, packet_type: self.packet_type.clone() }
    }
}

/// Appends bytes to a buffer.
fn append_bytes(buf: &mut Vec<u8>, b: &[u8])
    ensures
        final(buf)@ == old(buf)@ + b@,
{
    let ghost start = buf@;
    for i in 0..b.len()
        invariant
            buf@ == start + b@.take(i as int),
    {
        buf.push(b[i]);
        proof {
            assert(buf@ =~= start + b@.take(i + 1));
        }
    }
    proof {
        assert(b@.take(b@.len() as int) =~= b@);
    }
}

/// Appends `n` as two big-endian bytes.
fn push_be16(buf: &mut Vec<u8>, n: usize)
    requires
        n <= 0xFFFF,
    ensures
        final(buf)@ == old(buf)@ + be16(n as nat),
{
    buf.push((n / 0x100) as u8);
    buf.push((n % 0x100) as u8);
    proof {
        assert(final(buf)@ =~= old(buf)@ + be16(n as nat));
    }
}

/// Appends `n` as four big-endian bytes.
fn push_be32(buf: &mut Vec<u8>, n: u32)
    ensures
        final(buf)@ == old(buf)@ + be32(n as nat),
{
    buf.push((n / 0x1000000) as u8);
    buf.push((n / 0x10000 % 0x100) as u8);
    buf.push((n / 0x100 % 0x100) as u8);
    buf.push((n % 0x100) as u8);
    proof {
        assert(final(buf)@ =~= old(buf)@ + be32(n as nat));
    }
}

/// The string whose characters are the numbers of `b[lo..hi]`.
fn latin1_string(b: &[u8], lo: usize, hi: usize) -> (s: String)
    requires
        lo <= hi <= b@.len(),
    ensures
        s@ == decode_latin1(b@.subrange(lo as int, hi as int)),
{
    let mut s = String::new();
    let mut i = lo;
    while i < hi
        invariant
            lo <= i <= hi <= b@.len(),
            s@ == decode_latin1(b@.subrange(lo as int, i as int)),
        decreases hi - i,
    {
        let c = b[i] as char;
        s.push(c);
        proof {
            assert(s@ =~= decode_latin1(b@.subrange(lo as int, i + 1)));
        }
        i = i + 1;
    }
    s
}

/// The big-endian `u16` at `pos`.
fn get16(b: &[u8], pos: usize) -> (n: usize)
    requires
        pos + 2 <= b@.len(),
    ensures
        n == read16(b@, pos as int),
{
    (b[pos] as usize) * 0x100 + (b[pos + 1] as usize)
}

/// The big-endian `u32` at `pos`.
fn get32(b: &[u8], pos: usize) -> (n: u32)
    requires
        pos + 4 <= b@.len(),
    ensures
        n == read32(b@, pos as int),
{
    (b[pos] as u32) * 0x1000000 + (b[pos + 1] as u32) * 0x10000 + (b[pos + 2] as u32) * 0x100 + (b[pos
        + 3] as u32)
}

impl Packet {
    /// An ok response with no key and no value.
    pub fn ok_response() -> (p: Self)
        ensures
            p@ == (PacketView { key: None, value: None, packet_type: PacketTypeView::ResponseOk }),
    {
        Self { key: None, value: None, packet_type: PacketType::ResponseOk }
    }

    /// An error response carrying the message of `error`.
    pub fn error_response(error: Error) -> (p: Self)
        ensures
            p@ == (PacketView {
                key: None,
                value: None,
                packet_type: PacketTypeView::ResponseError(crate::error::error_message(error)),
            }),
    {
        Self { key: None, value: None, packet_type: PacketType::ResponseError(error.to_string()) }
    }

    /// A request for the value under `key`.
    pub fn get_request(key: String) -> (p: Self)
        ensures
            p@ == (PacketView {
                key: Some(key@),
                value: None,
                packet_type: PacketTypeView::RequestGet,
            }),
    {
        Self { key: Some(key), value: None, packet_type: PacketType::RequestGet }
    }

    /// A request to store `value` under `key`.
    pub fn set_request(key: String, value: Item) -> (p: Self)
        ensures
            p@ == (PacketView {
                key: Some(key@),
                value: Some(value@),
                packet_type: PacketTypeView::RequestSet,
            }),
    {
        Self { key: Some(key), value: Some(value), packet_type: PacketType::RequestSet }
    }

    /// A request to delete `key`.
    pub fn delete_request(key: String) -> (p: Self)
        ensures
            p@ == (PacketView {
                key: Some(key@),
                value: None,
                packet_type: PacketTypeView::RequestDelete,
            }),
    {
        Self { key: Some(key), value: None, packet_type: PacketType::RequestDelete }
    }

    /// The bytes of this packet; fails with `ValueLengthTooLong` where the
    /// value's text is longer than a `u32` can count.
    pub fn serialize(&self) -> (r: Result<Vec<u8>, Error>)
        requires
            fits(self@),
        ensures
            r is Ok <==> !value_too_long(self@),
            r matches Ok(b) ==> b@ == encode_packet(self@),
            r matches Err(e) ==> e == Error::ValueLengthTooLong,
    {
        let mut buf: Vec<u8> = Vec::new();
        buf.push(self.packet_type.to_tag());
        if let PacketType::ResponseError(error) = &self.packet_type {
            let bytes = error.as_str().as_bytes();
            push_be16(&mut buf, bytes.len());
            append_bytes(&mut buf, bytes);
            proof {
                assert(buf@ =~= encode_packet(self@));
            }
            return Ok(buf);
        }
        buf.push(if self.key.is_some() { 1 } else { 0 });
        buf.push(if self.value.is_some() { 1 } else { 0 });
        let ghost head = buf@;
        if let Some(key) = &self.key {
            let bytes = key.as_str().as_bytes();
            push_be16(&mut buf, bytes.len());
            append_bytes(&mut buf, bytes);
        }
        let ghost with_key = buf@;
        if let Some(value) = &self.value {
            let text = value.to_string();
            let bytes = text.as_str().as_bytes();
            if bytes.len() > 0xFFFF_FFFF {
                return Err(Error::ValueLengthTooLong);
            }
            push_be32(&mut buf, bytes.len() as u32);
            append_bytes(&mut buf, bytes);
        }
        proof {
            assert(buf@ =~= encode_packet(self@));
        }
        Ok(buf)
    }

    /// The packet that `bytes` stand for; fails with `UnableToDeserialize`
    /// where the type flag is unknown, a presence flag is neither `0` nor `1`,
    /// or the bytes end before a field does. Bytes after the packet are
    /// ignored.
    pub fn deserialize(bytes: &[u8]) -> (r: Result<Packet, Error>)
        ensures
            r is Ok <==> decode_packet(bytes@) is Some,
            r matches Ok(p) ==> decode_packet(bytes@) == Some(p@) && (p.value matches Some(
                v,
            ) ==> v.wf()),
            r matches Err(e) ==> e == Error::UnableToDeserialize,
    {
        let len = bytes.len();
        if len == 0 {
            return Err(Error::UnableToDeserialize);
        }
        let t = bytes[0];
        if t == 0x26 {
            if len < 3 {
                return Err(Error::UnableToDeserialize);
            }
            let n = get16(bytes, 1);
            if n > len - 3 {
                return Err(Error::UnableToDeserialize);
            }
            let message = latin1_string(bytes, 3, 3 + n);
            return Ok(
                Packet { key: None, value: None, packet_type: PacketType::ResponseError(message) },
            );
        }
        let packet_type = if t == 0x3C {
            PacketType::RequestGet
        } else if t == 0x3E {
            PacketType::RequestSet
        } else if t == 0x2D {
            PacketType::RequestDelete
        } else if t == 0x24 {
            PacketType::ResponseOk
        } else {
            return Err(Error::UnableToDeserialize);
        };
        if len < 3 || bytes[1] > 1 || bytes[2] > 1 {
            return Err(Error::UnableToDeserialize);
        }
        let mut pos: usize = 3;
        let mut key: Option<String> = None;
        if bytes[1] == 1 {
            if len - pos < 2 {
                return Err(Error::UnableToDeserialize);
            }
            let n = get16(bytes, pos);
            if n > len - pos - 2 {
                return Err(Error::UnableToDeserialize);
            }
            key = Some(latin1_string(bytes, pos + 2, pos + 2 + n));
            pos = pos + 2 + n;
        }
        let mut value: Option<Item> = None;
        if bytes[2] == 1 {
            if len - pos < 4 {
                return Err(Error::UnableToDeserialize);
            }
            let n = get32(bytes, pos) as usize;
            if n > len - pos - 4 {
                return Err(Error::UnableToDeserialize);
            }
            let text = latin1_string(bytes, pos + 4, pos + 4 + n);
            value = Some(Item::from_string(text));
        }
        Ok(Packet { key, value, packet_type })
    }
}

/// The bytes that go on the stream for a packet: its length as a
/// big-endian `u32` (wrapping where it does not fit), then the packet.
pub open spec fn frame(p: PacketView) -> Seq<u8> {
    be32(encode_packet(p).len() % 0x1_0000_0000) + encode_packet(p)
}

/// The bytes that go on the stream for a packet: its length as a
/// big-endian `u32` (wrapping where it does not fit), then the packet.
pub fn encode_frame(packet: &Packet) -> (r: Result<Vec<u8>, Error>)
    requires
        fits(packet@),
    ensures
        r is Ok <==> !value_too_long(packet@),
        r matches Ok(b) ==> b@ == frame(packet@),
        r matches Err(e) ==> e == Error::ValueLengthTooLong,
{
    let payload = packet.serialize()?;
    let n = payload.len();
    let mut frame: Vec<u8> = Vec::new();
    push_be32(&mut frame, (n as u64 % 0x1_0000_0000) as u32);
    append_bytes(&mut frame, payload.as_slice());
    Ok(frame)
}

/// The packet length that a frame header announces.
pub fn frame_length(header: [u8; 4]) -> (n: usize)
    ensures
        n == read32(header@, 0),
{
    get32(&header, 0) as usize
}

// ---------------------------------------------------------------------------
// Laws
// ---------------------------------------------------------------------------

/// What reading back a written packet gives: an error response keeps only
/// its message; any other packet keeps its type and key, and its value comes
/// back as the value its text form stands for.
pub open spec fn read_back(p: PacketView) -> PacketView {
    match p.packet_type {
        PacketTypeView::ResponseError(_) => PacketView {
            key: None,
            value: None,
            packet_type: p.packet_type,
        },
        _ => PacketView {
            key: p.key,
            value: match p.value {
                Some(v) => Some(item_from_text(item_text(v))),
                None => None,
            },
            packet_type: p.packet_type,
        },
    }
}

/// The text that a packet carries is ASCII: its error message, its key and
/// its value's text form.
pub open spec fn ascii_text(p: PacketView) -> bool {
    match p.packet_type {
        PacketTypeView::ResponseError(m) => is_ascii_chars(m),
        _ => (p.key matches Some(k) ==> is_ascii_chars(k)) && (p.value matches Some(v)
            ==> is_ascii_chars(item_text(v))),
    }
}

/// ASCII text read back byte by byte is the same text.
proof fn lemma_ascii_latin1(s: Seq<char>)
    requires
        is_ascii_chars(s),
    ensures
        decode_latin1(encode_utf8(s)) == s,
{
    vstd::utf8::is_ascii_chars_encode_utf8(s);
    vstd::utf8::is_ascii_chars_nat_bound(s);
    let b = encode_utf8(s);
    assert forall|i: int| 0 <= i < s.len() implies decode_latin1(b)[i] == s[i] by {
        assert(b[i] == s[i] as u8);
        assert((s[i] as u8) as char == s[i]);
    }
    assert(decode_latin1(b) =~= s);
}

/// A field written with its `u16` length reads back.
proof fn lemma_field16(pre: Seq<u8>, body: Seq<u8>, rest: Seq<u8>)
    requires
        body.len() <= 0xFFFF,
    ensures
        take_field16(pre + be16(body.len()) + body + rest, pre.len() as int) == Some(
            (body, (pre.len() + 2 + body.len()) as int),
        ),
{
    let b = pre + be16(body.len()) + body + rest;
    let n = body.len();
    let i = pre.len() as int;
    assert(b[i] == (n / 0x100) as u8);
    assert(b[i + 1] == (n % 0x100) as u8);
    assert(read16(b, i) == n);
    assert(b.subrange(i + 2, i + 2 + n) =~= body);
}

/// A field written with its `u32` length reads back.
proof fn lemma_field32(pre: Seq<u8>, body: Seq<u8>)
    requires
        body.len() <= 0xFFFF_FFFF,
    ensures
        take_field32(pre + be32(body.len()) + body, pre.len() as int) == Some(body),
{
    let b = pre + be32(body.len()) + body;
    let n = body.len();
    let i = pre.len() as int;
    assert(b[i] == (n / 0x1000000) as u8);
    assert(b[i + 1] == (n / 0x10000 % 0x100) as u8);
    assert(b[i + 2] == (n / 0x100 % 0x100) as u8);
    assert(b[i + 3] == (n % 0x100) as u8);
    assert(read32(b, i) == n);
    assert(b.subrange(i + 4, i + 4 + n) =~= body);
}

proof fn lemma_read_back_error(p: PacketView)
    requires
        p.packet_type is ResponseError,
        fits(p),
        ascii_text(p),
    ensures
        decode_packet(encode_packet(p)) == Some(read_back(p)),
{
    let m = p.packet_type->ResponseError_0;
    let b = encode_packet(p);
    let mb = encode_utf8(m);
    lemma_field16(seq![0x26u8], mb, Seq::empty());
    assert(seq![0x26u8] + be16(mb.len()) + mb + Seq::<u8>::empty() =~= b);
    lemma_ascii_latin1(m);
}

/// The fields of a packet body, given as bytes, read back.
#[verifier::spinoff_prover]
#[verifier::rlimit(40)]
proof fn lemma_decode_fields(t: PacketTypeView, key: Option<Seq<u8>>, val: Option<Seq<u8>>)
    requires
        !(t is ResponseError),
        key matches Some(kb) ==> kb.len() <= 0xFFFF,
        val matches Some(vb) ==> vb.len() <= 0xFFFF_FFFF,
    ensures
        ({
            let head = seq![tag(t), flag(key is Some), flag(val is Some)];
            let kf = match key {
                Some(kb) => be16(kb.len()) + kb,
                None => Seq::empty(),
            };
            let vf = match val {
                Some(vb) => be32(vb.len()) + vb,
                None => Seq::empty(),
            };
            decode_body(head + kf + vf, t) == Some(
                PacketView {
                    key: match key {
                        Some(kb) => Some(decode_latin1(kb)),
                        None => None,
                    },
                    value: match val {
                        Some(vb) => Some(item_from_text(decode_latin1(vb))),
                        None => None,
                    },
                    packet_type: t,
                },
            )
        }),
{
    let head = seq![tag(t), flag(key is Some), flag(val is Some)];
    let kf = match key {
        Some(kb) => be16(kb.len()) + kb,
        None => Seq::empty(),
    };
    let vf = match val {
        Some(vb) => be32(vb.len()) + vb,
        None => Seq::empty(),
    };
    let b = head + kf + vf;
    assert(b[1] == flag(key is Some));
    assert(b[2] == flag(val is Some));
    match key {
        Some(kb) => {
            lemma_field16(head, kb, vf);
            assert(head + be16(kb.len()) + kb + vf =~= b);
            assert(take_field16(b, 3) == Some((kb, 3 + kf.len() as int)));
        },
        None => {},
    }
    match val {
        Some(vb) => {
            lemma_field32(head + kf, vb);
            assert(head + kf + be32(vb.len()) + vb =~= b);
            assert(take_field32(b, 3 + kf.len() as int) == Some(vb));
        },
        None => {},
    }
}

#[verifier::spinoff_prover]
#[verifier::rlimit(40)]
proof fn lemma_read_back_body(p: PacketView)
    requires
        !(p.packet_type is ResponseError),
        fits(p),
        !value_too_long(p),
        ascii_text(p),
    ensures
        decode_packet(encode_packet(p)) == Some(read_back(p)),
{
    let key = match p.key {
        Some(k) => Some(encode_utf8(k)),
        None => None,
    };
    let val = match p.value {
        Some(v) => Some(encode_utf8(item_text(v))),
        None => None,
    };
    lemma_decode_fields(p.packet_type, key, val);
    let b = encode_packet(p);
    assert(b[0] == tag(p.packet_type));
    assert(request_or_ok(b[0]) == Some(p.packet_type));
    if let Some(k) = p.key {
        lemma_ascii_latin1(k);
    }
    if let Some(v) = p.value {
        lemma_ascii_latin1(item_text(v));
    }
}

/// Deserializing the bytes of a packet whose text is ASCII gives the packet
/// back, as [`read_back`] describes.
pub proof fn law_deserialize_serialize(p: PacketView)
    requires
        fits(p),
        !value_too_long(p),
        ascii_text(p),
    ensures
        decode_packet(encode_packet(p)) == Some(read_back(p)),
{
    if p.packet_type is ResponseError {
        lemma_read_back_error(p);
    } else {
        lemma_read_back_body(p);
    }
}

/// A packet with ASCII text and a canonical value (an error response with
/// neither key nor value) comes back unchanged from its bytes.
pub proof fn law_packet_roundtrip(p: PacketView)
    requires
        fits(p),
        !value_too_long(p),
        ascii_text(p),
        p.value matches Some(v) ==> canonical(v),
        p.packet_type is ResponseError ==> p.key is None && p.value is None,
    ensures
        decode_packet(encode_packet(p)) == Some(p),
{
    law_deserialize_serialize(p);
    if let Some(v) = p.value {
        law_item_text_roundtrip(v);
    }
}

/// The header of a frame holding `e` announces the length of `e`, and the
/// bytes after it are `e`.
proof fn lemma_frame_bytes(e: Seq<u8>)
    requires
        e.len() <= 0xFFFF_FFFF,
    ensures
        ({
            let f = be32(e.len() % 0x1_0000_0000) + e;
            let n = read32(f.take(4), 0);
            &&& n == e.len()
            &&& f.subrange(4, 4 + n as int) == e
        }),
{
    let f = be32(e.len() % 0x1_0000_0000) + e;
    assert(e.len() % 0x1_0000_0000 == e.len());
    lemma_field32(Seq::empty(), e);
    assert(Seq::<u8>::empty() + be32(e.len()) + e =~= f);
    assert(read32(f.take(4), 0) == read32(f, 0));
    assert(f.subrange(4, 4 + e.len() as int) =~= e);
}

/// A frame read back: its four header bytes announce the packet's length,
/// that many bytes after the header are the packet's bytes, and they
/// deserialize as [`read_back`] describes (packet text in ASCII, packet
/// shorter than 2^32 bytes).
pub proof fn law_frame_roundtrip(p: PacketView)
    requires
        fits(p),
        !value_too_long(p),
        ascii_text(p),
        encode_packet(p).len() <= 0xFFFF_FFFF,
    ensures
        ({
            let f = frame(p);
            let n = read32(f.take(4), 0);
            &&& n == encode_packet(p).len()
            &&& f.subrange(4, 4 + n as int) == encode_packet(p)
            &&& decode_packet(f.subrange(4, 4 + n as int)) == Some(read_back(p))
        }),
{
    lemma_frame_bytes(encode_packet(p));
    law_deserialize_serialize(p);
}

/// No strict prefix of an error response's bytes is a packet.
proof fn lemma_prefix_error(mb: Seq<u8>, n: int)
    requires
        mb.len() <= 0xFFFF,
        0 <= n < 3 + mb.len(),
    ensures
        decode_packet((seq![0x26u8] + be16(mb.len()) + mb).take(n)) is None,
{
    let b = seq![0x26u8] + be16(mb.len()) + mb;
    let c = b.take(n);
    lemma_field16(seq![0x26u8], mb, Seq::empty());
    assert(seq![0x26u8] + be16(mb.len()) + mb + Seq::<u8>::empty() =~= b);
    if n >= 3 {
        assert(c[0] == b[0] && c[1] == b[1] && c[2] == b[2]);
        assert(read16(c, 1) == read16(b, 1));
    }
    if n >= 1 {
        assert(c[0] == 0x26u8);
    }
}

/// No strict prefix of the bytes of a packet body is a packet.
#[verifier::spinoff_prover]
#[verifier::rlimit(40)]
proof fn lemma_prefix_body(t: PacketTypeView, key: Option<Seq<u8>>, val: Option<Seq<u8>>, n: int)
    requires
        !(t is ResponseError),
        key matches Some(kb) ==> kb.len() <= 0xFFFF,
        val matches Some(vb) ==> vb.len() <= 0xFFFF_FFFF,
        0 <= n < 3 + (match key {
            Some(kb) => be16(kb.len()) + kb,
            None => Seq::<u8>::empty(),
        }).len() + (match val {
            Some(vb) => be32(vb.len()) + vb,
            None => Seq::<u8>::empty(),
        }).len(),
    ensures
        ({
            let head = seq![tag(t), flag(key is Some), flag(val is Some)];
            let kf = match key {
                Some(kb) => be16(kb.len()) + kb,
                None => Seq::empty(),
            };
            let vf = match val {
                Some(vb) => be32(vb.len()) + vb,
                None => Seq::empty(),
            };
            decode_packet((head + kf + vf).take(n)) is None
        }),
{
    let head = seq![tag(t), flag(key is Some), flag(val is Some)];
    let kf = match key {
        Some(kb) => be16(kb.len()) + kb,
        None => Seq::empty(),
    };
    let vf = match val {
        Some(vb) => be32(vb.len()) + vb,
        None => Seq::empty(),
    };
    let b = head + kf + vf;
    let c = b.take(n);
    if n >= 1 {
        assert(c[0] == tag(t));
        assert(request_or_ok(c[0]) == Some(t));
    }
    if n >= 3 {
        assert(c[1] == flag(key is Some));
        assert(c[2] == flag(val is Some));
        let pos: int = 3 + kf.len() as int;
        match key {
            Some(kb) => {
                lemma_field16(head, kb, vf);
                assert(head + be16(kb.len()) + kb + vf =~= b);
                if n >= 5 {
                    assert(c[3] == b[3] && c[4] == b[4]);
                    assert(read16(c, 3) == read16(b, 3));
                    assert(read16(b, 3) == kb.len());
                }
            },
            None => {},
        }
        match val {
            Some(vb) => {
                lemma_field32(head + kf, vb);
                assert(head + kf + be32(vb.len()) + vb =~= b);
                if n >= pos + 4 {
                    assert(c[pos] == b[pos] && c[pos + 1] == b[pos + 1] && c[pos + 2] == b[pos
                        + 2] && c[pos + 3] == b[pos + 3]);
                    assert(read32(c, pos) == read32(b, pos));
                    assert(read32(b, pos) == vb.len());
                }
            },
            None => {},
        }
    }
}

/// No strict prefix of a packet's bytes is a packet: a packet cut short is
/// always rejected.
pub proof fn law_prefix_rejected(p: PacketView, n: int)
    requires
        fits(p),
        !value_too_long(p),
        0 <= n < encode_packet(p).len(),
    ensures
        decode_packet(encode_packet(p).take(n)) is None,
{
    match p.packet_type {
        PacketTypeView::ResponseError(m) => {
            lemma_prefix_error(encode_utf8(m), n);
        },
        _ => {
            let key = match p.key {
                Some(k) => Some(encode_utf8(k)),
                None => None,
            };
            let val = match p.value {
                Some(v) => Some(encode_utf8(item_text(v))),
                None => None,
            };
            lemma_prefix_body(p.packet_type, key, val, n);
        },
    }
}

} // verus!
