//! WebSocket frames (RFC 6455 section 5.2) and the opening handshake.
use vstd::prelude::*;
use vstd::string::*;
use vstd::utf8::encode_utf8;

use crate::http::{lookup, upsert, HeaderList, Method, Request, Response, Status, Version};
use crate::text::{
    chars_of, eq_ignore_case, slice_eq_ignore_case, split, split_all, string_from_chars, trim,
    trim_chars,
};

verus! {

/// Which end of the connection is encoding or decoding.
#[derive(Debug, PartialEq, Eq, Clone, Copy, Structural)]
pub enum Role {
    Server,
    Client,
}

/// Why bytes could not be decoded as a frame.
#[derive(Debug, PartialEq, Eq, Clone, Copy, Structural)]
pub enum FrameError {
    /// Fewer bytes than the frame's header declares.
    Truncated,
    /// A masking-policy breach, or a 64-bit length with its top bit set.
    ProtocolViolation,
}

pub open spec fn bit(b: bool, value: u8) -> u8 {
    if b {
        value
    } else {
        0u8
    }
}

/// FIN, RSV1-3 and the opcode packed into the first header byte.
pub open spec fn first_byte(fin: bool, rsv1: bool, rsv2: bool, rsv3: bool, opcode: u8) -> u8 {
    bit(fin, 0x80u8) | bit(rsv1, 0x40u8) | bit(rsv2, 0x20u8) | bit(rsv3, 0x10u8) | (opcode & 0x0fu8)
}

/// The MASK bit and the 7-bit length selector packed into the second header byte.
pub open spec fn second_byte(mask: bool, selector: u8) -> u8 {
    bit(mask, 0x80u8) | (selector & 0x7fu8)
}

/// A 16-bit value, most significant byte first.
pub open spec fn be16(x: u16) -> Seq<u8> {
    seq![(x >> 8u16) as u8, x as u8]
}

/// A 64-bit value, most significant byte first.
pub open spec fn be64(x: u64) -> Seq<u8> {
    seq![
        (x >> 56u64) as u8,
        (x >> 48u64) as u8,
        (x >> 40u64) as u8,
        (x >> 32u64) as u8,
        (x >> 24u64) as u8,
        (x >> 16u64) as u8,
        (x >> 8u64) as u8,
        x as u8,
    ]
}

/// The 16-bit value of two bytes, most significant first.
pub open spec fn u16_from(a: u8, b: u8) -> u16 {
    ((a as u16) << 8u16) | (b as u16)
}

/// The 64-bit value of `b[i..i + 8]`, most significant byte first.
pub open spec fn u64_from(b: Seq<u8>, i: int) -> u64 {
    ((b[i] as u64) << 56u64) | ((b[i + 1] as u64) << 48u64) | ((b[i + 2] as u64) << 40u64) | ((b[i
        + 3] as u64) << 32u64) | ((b[i + 4] as u64) << 24u64) | ((b[i + 5] as u64) << 16u64) | ((b[i
        + 6] as u64) << 8u64) | (b[i + 7] as u64)
}

/// `p` XORed with `key`, the key cycled every four bytes. Applying it twice restores `p`.
pub open spec fn apply_mask(p: Seq<u8>, key: Seq<u8>) -> Seq<u8> {
    Seq::new(p.len(), |i: int| p[i] ^ key[i % 4])
}

/// The bytes of a frame with the given fields; the payload is masked when a key is present.
pub open spec fn wire_of(
    fin: bool,
    rsv1: bool,
    rsv2: bool,
    rsv3: bool,
    opcode: u8,
    mask: bool,
    selector: u8,
    ext_a: Option<u16>,
    ext_b: Option<u64>,
    key: Option<[u8; 4]>,
    payload: Seq<u8>,
) -> Seq<u8> {
    seq![first_byte(fin, rsv1, rsv2, rsv3, opcode), second_byte(mask, selector)] + match ext_a {
        Some(x) => be16(x),
        None => Seq::empty(),
    } + match ext_b {
        Some(x) => be64(x),
        None => Seq::empty(),
    } + match key {
        Some(k) => k@,
        None => Seq::empty(),
    } + match key {
        Some(k) => apply_mask(payload, k@),
        None => payload,
    }
}

/// The shortest length selector for a payload of `n` bytes.
pub open spec fn selector_for(n: nat) -> u8 {
    if n <= 125 {
        n as u8
    } else if n <= 65535 {
        126
    } else {
        127
    }
}

pub open spec fn ext_a_for(n: nat) -> Option<u16> {
    if 126 <= n <= 65535 {
        Some(n as u16)
    } else {
        None
    }
}

pub open spec fn ext_b_for(n: nat) -> Option<u64> {
    if n > 65535 {
        Some(n as u64)
    } else {
        None
    }
}

pub open spec fn max_payload() -> nat {
    0x8000_0000_0000_0000
}

/// One WebSocket frame. `payload_data` holds the payload unmasked.
#[derive(Debug, PartialEq, Clone)]
pub struct Frame {
    pub fin: bool,
    pub rsv1: bool,
    pub rsv2: bool,
    pub rsv3: bool,
    pub opcode: u8,
    pub mask: bool,
    pub payload_length: u8,
    pub extended_payload_length_a: Option<u16>,
    pub extended_payload_length_b: Option<u64>,
    pub masking_key: Option<[u8; 4]>,
    pub payload_data: Vec<u8>,
}

impl Frame {
    /// The opcode fits in four bits, the selector in seven; the selector and the extended
    /// length fields agree with the payload's length; a key is present exactly when masked.
    pub open spec fn wf(&self) -> bool {
        let n = self.payload_data@.len();
        &&& self.opcode < 16
        &&& self.payload_length < 128
        &&& self.mask == self.masking_key is Some
        &&& if self.payload_length <= 125 {
            &&& self.extended_payload_length_a is None
            &&& self.extended_payload_length_b is None
            &&& n == self.payload_length
        } else if self.payload_length == 126 {
            &&& self.extended_payload_length_a == Some(n as u16)
            &&& n <= 65535
            &&& self.extended_payload_length_b is None
        } else {
            &&& self.extended_payload_length_a is None
            &&& self.extended_payload_length_b == Some(n as u64)
            &&& n < max_payload()
        }
    }

    /// The frame's bytes on the wire.
    pub open spec fn wire(&self) -> Seq<u8> {
        wire_of(
            self.fin,
            self.rsv1,
            self.rsv2,
            self.rsv3,
            self.opcode,
            self.mask,
            self.payload_length,
            self.extended_payload_length_a,
            self.extended_payload_length_b,
            self.masking_key,
            self.payload_data@,
        )
    }
}

/// Bytes taken by the extended length field for a selector.
pub open spec fn ext_len(selector: u8) -> int {
    if selector == 126 {
        2
    } else if selector == 127 {
        8
    } else {
        0
    }
}

pub open spec fn is_masked(b: Seq<u8>) -> bool {
    b[1] & 0x80u8 != 0
}

pub open spec fn selector_of(b: Seq<u8>) -> u8 {
    b[1] & 0x7fu8
}

/// Where the masking key starts.
pub open spec fn key_start(b: Seq<u8>) -> int {
    2 + ext_len(selector_of(b))
}

/// Where the payload starts.
pub open spec fn payload_start(b: Seq<u8>) -> int {
    key_start(b) + if is_masked(b) {
        4int
    } else {
        0int
    }
}

/// The payload length that the header of `b` declares.
pub open spec fn declared_len(b: Seq<u8>) -> int {
    let s = selector_of(b);
    if s == 126 {
        u16_from(b[2], b[3]) as int
    } else if s == 127 {
        u64_from(b, 2) as int
    } else {
        s as int
    }
}

/// Servers receive masked frames only, clients unmasked ones only.
pub open spec fn expects_mask(role: Role) -> bool {
    role == Role::Server
}

/// Why decoding the front of `b` in `role` fails, if it does.
pub open spec fn decode_error(b: Seq<u8>, role: Role) -> Option<FrameError> {
    if b.len() < 2 {
        Some(FrameError::Truncated)
    } else if is_masked(b) != expects_mask(role) {
        Some(FrameError::ProtocolViolation)
    } else if b.len() < key_start(b) {
        Some(FrameError::Truncated)
    } else if selector_of(b) == 127 && b[2] & 0x80u8 != 0 {
        Some(FrameError::ProtocolViolation)
    } else if b.len() < payload_start(b) + declared_len(b) {
        Some(FrameError::Truncated)
    } else {
        None
    }
}

/// Whether `f` holds the header fields of `b` and its payload, unmasked.
pub open spec fn decodes_to(b: Seq<u8>, f: Frame) -> bool {
    let s = selector_of(b);
    let start = payload_start(b);
    let body = b.subrange(start, start + declared_len(b));
    &&& f.fin == (b[0] & 0x80u8 != 0)
    &&& f.rsv1 == (b[0] & 0x40u8 != 0)
    &&& f.rsv2 == (b[0] & 0x20u8 != 0)
    &&& f.rsv3 == (b[0] & 0x10u8 != 0)
    &&& f.opcode == b[0] & 0x0fu8
    &&& f.mask == is_masked(b)
    &&& f.payload_length == s
    &&& f.extended_payload_length_a == if s == 126 {
        Some(u16_from(b[2], b[3]))
    } else {
        None
    }
    &&& f.extended_payload_length_b == if s == 127 {
        Some(u64_from(b, 2))
    } else {
        None
    }
    &&& match f.masking_key {
        Some(k) => f.mask && k@ == b.subrange(key_start(b), key_start(b) + 4),
        None => !f.mask,
    }
    &&& f.payload_data@ == match f.masking_key {
        Some(k) => apply_mask(body, k@),
        None => body,
    }
}

proof fn lemma_first_byte(fin: bool, rsv1: bool, rsv2: bool, rsv3: bool, opcode: u8)
    requires
        opcode < 16,
    ensures
        (first_byte(fin, rsv1, rsv2, rsv3, opcode) & 0x80u8 != 0) == fin,
        (first_byte(fin, rsv1, rsv2, rsv3, opcode) & 0x40u8 != 0) == rsv1,
        (first_byte(fin, rsv1, rsv2, rsv3, opcode) & 0x20u8 != 0) == rsv2,
        (first_byte(fin, rsv1, rsv2, rsv3, opcode) & 0x10u8 != 0) == rsv3,
        first_byte(fin, rsv1, rsv2, rsv3, opcode) & 0x0fu8 == opcode,
{
    let a = bit(fin, 0x80u8);
    let b = bit(rsv1, 0x40u8);
    let c = bit(rsv2, 0x20u8);
    let d = bit(rsv3, 0x10u8);
    assert(((a | b | c | d | (opcode & 0x0fu8)) & 0x80u8 != 0) == fin) by (bit_vector)
        requires
            a == (if fin { 0x80u8 } else { 0u8 }),
            b == (if rsv1 { 0x40u8 } else { 0u8 }),
            c == (if rsv2 { 0x20u8 } else { 0u8 }),
            d == (if rsv3 { 0x10u8 } else { 0u8 }),
    ;
    assert(((a | b | c | d | (opcode & 0x0fu8)) & 0x40u8 != 0) == rsv1) by (bit_vector)
        requires
            a == (if fin { 0x80u8 } else { 0u8 }),
            b == (if rsv1 { 0x40u8 } else { 0u8 }),
            c == (if rsv2 { 0x20u8 } else { 0u8 }),
            d == (if rsv3 { 0x10u8 } else { 0u8 }),
    ;
    assert(((a | b | c | d | (opcode & 0x0fu8)) & 0x20u8 != 0) == rsv2) by (bit_vector)
        requires
            a == (if fin { 0x80u8 } else { 0u8 }),
            b == (if rsv1 { 0x40u8 } else { 0u8 }),
            c == (if rsv2 { 0x20u8 } else { 0u8 }),
            d == (if rsv3 { 0x10u8 } else { 0u8 }),
    ;
    assert(((a | b | c | d | (opcode & 0x0fu8)) & 0x10u8 != 0) == rsv3) by (bit_vector)
        requires
            a == (if fin { 0x80u8 } else { 0u8 }),
            b == (if rsv1 { 0x40u8 } else { 0u8 }),
            c == (if rsv2 { 0x20u8 } else { 0u8 }),
            d == (if rsv3 { 0x10u8 } else { 0u8 }),
    ;
    assert(((a | b | c | d | (opcode & 0x0fu8)) & 0x0fu8) == opcode) by (bit_vector)
        requires
            a == (if fin { 0x80u8 } else { 0u8 }),
            b == (if rsv1 { 0x40u8 } else { 0u8 }),
            c == (if rsv2 { 0x20u8 } else { 0u8 }),
            d == (if rsv3 { 0x10u8 } else { 0u8 }),
            opcode < 16u8,
    ;
}

proof fn lemma_second_byte(mask: bool, selector: u8)
    requires
        selector < 128,
    ensures
        (second_byte(mask, selector) & 0x80u8 != 0) == mask,
        second_byte(mask, selector) & 0x7fu8 == selector,
{
    let a = bit(mask, 0x80u8);
    assert(((a | (selector & 0x7fu8)) & 0x80u8 != 0) == mask) by (bit_vector)
        requires
            a == (if mask { 0x80u8 } else { 0u8 }),
    ;
    assert(((a | (selector & 0x7fu8)) & 0x7fu8) == selector) by (bit_vector)
        requires
            a == (if mask { 0x80u8 } else { 0u8 }),
            selector < 128u8,
    ;
}

proof fn lemma_be16(x: u16)
    ensures
        u16_from(be16(x)[0], be16(x)[1]) == x,
{
    assert((((((x >> 8u16) as u8) as u16) << 8u16) | ((x as u8) as u16)) == x) by (bit_vector);
}

proof fn lemma_be64(x: u64, b: Seq<u8>, i: int)
    requires
        0 <= i,
        i + 8 <= b.len(),
        b.subrange(i, i + 8) == be64(x),
    ensures
        u64_from(b, i) == x,
        (b[i] & 0x80u8 != 0) == (x >= 0x8000_0000_0000_0000u64),
{
    assert(b[i] == be64(x)[0]);
    assert(b[i + 1] == be64(x)[1]);
    assert(b[i + 2] == be64(x)[2]);
    assert(b[i + 3] == be64(x)[3]);
    assert(b[i + 4] == be64(x)[4]);
    assert(b[i + 5] == be64(x)[5]);
    assert(b[i + 6] == be64(x)[6]);
    assert(b[i + 7] == be64(x)[7]);
    assert(((((x >> 56u64) as u8) as u64) << 56u64) | ((((x >> 48u64) as u8) as u64) << 48u64) | ((
    ((x >> 40u64) as u8) as u64) << 40u64) | ((((x >> 32u64) as u8) as u64) << 32u64) | ((((x
        >> 24u64) as u8) as u64) << 24u64) | ((((x >> 16u64) as u8) as u64) << 16u64) | ((((x
        >> 8u64) as u8) as u64) << 8u64) | ((x as u8) as u64) == x) by (bit_vector);
    assert(((((x >> 56u64) as u8) & 0x80u8) != 0) == (x >= 0x8000_0000_0000_0000u64)) by (bit_vector);
}

proof fn lemma_unmask(p: Seq<u8>, key: Seq<u8>)
    requires
        key.len() == 4,
    ensures
        apply_mask(apply_mask(p, key), key) == p,
{
    assert forall|i: int| 0 <= i < p.len() implies apply_mask(apply_mask(p, key), key)[i] == p[i] by {
        let a = p[i];
        let k = key[i % 4];
        assert((a ^ k) ^ k == a) by (bit_vector);
    }
    assert(apply_mask(apply_mask(p, key), key) =~= p);
}

/// A well-formed frame decodes, in the role that expects its masking, to exactly its own
/// fields and payload.
pub proof fn lemma_frame_round_trip(f: Frame, role: Role)
    requires
        f.wf(),
        f.mask == expects_mask(role),
    ensures
        decode_error(f.wire(), role) is None,
        decodes_to(f.wire(), f),
        payload_start(f.wire()) + declared_len(f.wire()) == f.wire().len(),
{
    let w = f.wire();
    let n = f.payload_data@.len();
    lemma_first_byte(f.fin, f.rsv1, f.rsv2, f.rsv3, f.opcode);
    lemma_second_byte(f.mask, f.payload_length);
    assert(w[0] == first_byte(f.fin, f.rsv1, f.rsv2, f.rsv3, f.opcode));
    assert(w[1] == second_byte(f.mask, f.payload_length));
    let e = ext_len(f.payload_length);
    let key_bytes = match f.masking_key {
        Some(k) => k@,
        None => Seq::<u8>::empty(),
    };
    let body = match f.masking_key {
        Some(k) => apply_mask(f.payload_data@, k@),
        None => f.payload_data@,
    };
    let ext = match f.extended_payload_length_a {
        Some(x) => be16(x),
        None => Seq::empty(),
    } + match f.extended_payload_length_b {
        Some(x) => be64(x),
        None => Seq::empty(),
    };
    assert(ext.len() == e);
    assert(w == seq![w[0], w[1]] + ext + key_bytes + body);
    assert(w.subrange(2, 2 + e) == ext);
    assert(w.subrange(2 + e, 2 + e + key_bytes.len()) == key_bytes);
    assert(w.subrange(2 + e + key_bytes.len(), w.len() as int) == body);
    if f.payload_length == 126 {
        let x = f.extended_payload_length_a->0;
        lemma_be16(x);
        assert(w[2] == be16(x)[0]);
        assert(w[3] == be16(x)[1]);
    } else if f.payload_length == 127 {
        let x = f.extended_payload_length_b->0;
        assert(w.subrange(2, 10) == be64(x));
        lemma_be64(x, w, 2);
    }
    assert(declared_len(w) == n);
    match f.masking_key {
        Some(k) => {
            lemma_unmask(f.payload_data@, k@);
        },
        None => {},
    }
}

} // verus!

verus! {

fn length_fields(n: usize) -> (r: (u8, Option<u16>, Option<u64>))
    requires
        n < max_payload(),
    ensures
        r == (selector_for(n as nat), ext_a_for(n as nat), ext_b_for(n as nat)),
{
    if n <= 125 {
        (n as u8, None, None)
    } else if n <= 65535 {
        (126, Some(n as u16), None)
    } else {
        (127, None, Some(n as u64))
    }
}

fn first_byte_of(fin: bool, rsv1: bool, rsv2: bool, rsv3: bool, opcode: u8) -> (r: u8)
    ensures
        r == first_byte(fin, rsv1, rsv2, rsv3, opcode),
{
    (if fin {
        0x80u8
    } else {
        0u8
    }) | (if rsv1 {
        0x40u8
    } else {
        0u8
    }) | (if rsv2 {
        0x20u8
    } else {
        0u8
    }) | (if rsv3 {
        0x10u8
    } else {
        0u8
    }) | (opcode & 0x0f)
}

fn second_byte_of(mask: bool, selector: u8) -> (r: u8)
    ensures
        r == second_byte(mask, selector),
{
    (if mask {
        0x80u8
    } else {
        0u8
    }) | (selector & 0x7f)
}

fn push_be16(out: &mut Vec<u8>, x: u16)
    ensures
        final(out)@ == old(out)@ + be16(x),
{
    out.push((x >> 8) as u8);
    out.push(x as u8);
    assert(out@ =~= old(out)@ + be16(x));
}

fn push_be64(out: &mut Vec<u8>, x: u64)
    ensures
        final(out)@ == old(out)@ + be64(x),
{
    out.push((x >> 56) as u8);
    out.push((x >> 48) as u8);
    out.push((x >> 40) as u8);
    out.push((x >> 32) as u8);
    out.push((x >> 24) as u8);
    out.push((x >> 16) as u8);
    out.push((x >> 8) as u8);
    out.push(x as u8);
    assert(out@ =~= old(out)@ + be64(x));
}

fn push_key(out: &mut Vec<u8>, k: [u8; 4])
    ensures
        final(out)@ == old(out)@ + k@,
{
    out.push(k[0]);
    out.push(k[1]);
    out.push(k[2]);
    out.push(k[3]);
    assert(out@ =~= old(out)@ + k@);
}

fn push_masked(out: &mut Vec<u8>, payload: &Vec<u8>, key: Option<[u8; 4]>)
    ensures
        final(out)@ == old(out)@ + match key {
            Some(k) => apply_mask(payload@, k@),
            None => payload@,
        },
{
    let ghost body = match key {
        Some(k) => apply_mask(payload@, k@),
        None => payload@,
    };
    let mut i: usize = 0;
    while i < payload.len()
        invariant
            i <= payload@.len(),
            body.len() == payload@.len(),
            body == match key {
                Some(k) => apply_mask(payload@, k@),
                None => payload@,
            },
            out@ == old(out)@ + body.take(i as int),
        decreases payload@.len() - i,
    {
        let byte = match key {
            Some(k) => payload[i] ^ k[i % 4],
            None => payload[i],
        };
        out.push(byte);
        assert(body.take(i + 1) =~= body.take(i as int).push(byte));
        i += 1;
    }
    assert(body.take(i as int) =~= body);
}

impl Frame {
    /// An unmasked final frame with opcode 0 whose payload is `ext_data` then `app_data`,
    /// its length in the shortest form.
    pub fn new(ext_data: &[u8], app_data: &[u8]) -> (r: Frame)
        requires
            ext_data@.len() + app_data@.len() < max_payload(),
        ensures
            r.wf(),
            r.fin && !r.rsv1 && !r.rsv2 && !r.rsv3,
            r.opcode == 0,
            !r.mask,
            r.masking_key is None,
            r.payload_data@ == ext_data@ + app_data@,
            r.payload_length == selector_for(r.payload_data@.len()),
            r.extended_payload_length_a == ext_a_for(r.payload_data@.len()),
            r.extended_payload_length_b == ext_b_for(r.payload_data@.len()),
    {
        let mut payload: Vec<u8> = Vec::new();
        payload.extend_from_slice(ext_data);
        payload.extend_from_slice(app_data);
        let (payload_length, a, b) = length_fields(payload.len());
        Frame {
            fin: true,
            rsv1: false,
            rsv2: false,
            rsv3: false,
            opcode: 0,
            mask: false,
            payload_length,
            extended_payload_length_a: a,
            extended_payload_length_b: b,
            masking_key: None,
            payload_data: payload,
        }
    }

    /// A final frame carrying `payload` as sent by `role`: a client masks with
    /// `masking_key`; a server never masks, whatever key it is given.
    pub fn with_role(opcode: u8, payload: &[u8], role: Role, masking_key: [u8; 4]) -> (r: Frame)
        requires
            opcode < 16,
            payload@.len() < max_payload(),
        ensures
            r.wf(),
            r.fin && !r.rsv1 && !r.rsv2 && !r.rsv3,
            r.opcode == opcode,
            r.mask == (role == Role::Client),
            r.masking_key == if role == Role::Client {
                Some(masking_key)
            } else {
                None
            },
            r.payload_data@ == payload@,
            r.payload_length == selector_for(payload@.len()),
            r.extended_payload_length_a == ext_a_for(payload@.len()),
            r.extended_payload_length_b == ext_b_for(payload@.len()),
    {
        let mut data: Vec<u8> = Vec::new();
        data.extend_from_slice(payload);
        let (payload_length, a, b) = length_fields(data.len());
        let client = role == Role::Client;
        Frame {
            fin: true,
            rsv1: false,
            rsv2: false,
            rsv3: false,
            opcode,
            mask: client,
            payload_length,
            extended_payload_length_a: a,
            extended_payload_length_b: b,
            masking_key: if client {
                Some(masking_key)
            } else {
                None
            },
            payload_data: data,
        }
    }

    /// The frame's bytes: header, extended length, masking key, then the payload, masked
    /// when a key is present.
    pub fn as_bytes(&self) -> (r: Vec<u8>)
        requires
            self.wf(),
        ensures
            r@ == self.wire(),
    {
        let mut bytes: Vec<u8> = Vec::new();
        bytes.push(first_byte_of(self.fin, self.rsv1, self.rsv2, self.rsv3, self.opcode));
        bytes.push(second_byte_of(self.mask, self.payload_length));
        let ghost s0 = bytes@;
        match self.extended_payload_length_a {
            Some(x) => push_be16(&mut bytes, x),
            None => {},
        }
        match self.extended_payload_length_b {
            Some(x) => push_be64(&mut bytes, x),
            None => {},
        }
        match self.masking_key {
            Some(k) => push_key(&mut bytes, k),
            None => {},
        }
        push_masked(&mut bytes, &self.payload_data, self.masking_key);
        proof {
            assert(s0 =~= seq![
                first_byte(self.fin, self.rsv1, self.rsv2, self.rsv3, self.opcode),
                second_byte(self.mask, self.payload_length),
            ]);
        }
        bytes
    }

    /// The fields of the two header bytes at the front of `buffer`, with no extended
    /// length, no key and an empty payload yet.
    fn read_header(buffer: &[u8]) -> (r: Frame)
        requires
            buffer@.len() >= 2,
        ensures
            r.fin == (buffer@[0] & 0x80u8 != 0),
            r.rsv1 == (buffer@[0] & 0x40u8 != 0),
            r.rsv2 == (buffer@[0] & 0x20u8 != 0),
            r.rsv3 == (buffer@[0] & 0x10u8 != 0),
            r.opcode == buffer@[0] & 0x0fu8,
            r.mask == (buffer@[1] & 0x80u8 != 0),
            r.payload_length == buffer@[1] & 0x7fu8,
            r.extended_payload_length_a is None,
            r.extended_payload_length_b is None,
            r.masking_key is None,
            r.payload_data@.len() == 0,
    {
        let b0 = buffer[0];
        let b1 = buffer[1];
        Frame {
            fin: b0 & 0x80 != 0,
            rsv1: b0 & 0x40 != 0,
            rsv2: b0 & 0x20 != 0,
            rsv3: b0 & 0x10 != 0,
            opcode: b0 & 0x0f,
            mask: b1 & 0x80 != 0,
            payload_length: b1 & 0x7f,
            extended_payload_length_a: None,
            extended_payload_length_b: None,
            masking_key: None,
            payload_data: Vec::new(),
        }
    }

    /// Decodes the frame at the front of `bytes`, received in `role`: Truncated when the
    /// bytes end before the frame does; ProtocolViolation when the mask bit breaks the
    /// role's policy or a 64-bit length has its top bit set. The payload comes back
    /// unmasked.
    pub fn from_buffer(bytes: &[u8], role: Role) -> (r: Result<Frame, FrameError>)
        ensures
            match r {
                Ok(f) => decode_error(bytes@, role) is None && decodes_to(bytes@, f) && f.wf(),
                Err(e) => decode_error(bytes@, role) == Some(e),
            },
    {
        let b = bytes;
        let total = b.len();
        if total < 2 {
            return Err(FrameError::Truncated);
        }
        let mut frame = Frame::read_header(b);
        if frame.mask != (role == Role::Server) {
            return Err(FrameError::ProtocolViolation);
        }
        let mut pos: usize = 2;
        let len: usize;
        if frame.payload_length == 126 {
            if total < 4 {
                return Err(FrameError::Truncated);
            }
            let x = ((b[2] as u16) << 8) | (b[3] as u16);
            frame.extended_payload_length_a = Some(x);
            len = x as usize;
            pos = 4;
        } else if frame.payload_length == 127 {
            if total < 10 {
                return Err(FrameError::Truncated);
            }
            let (b2, b3, b4, b5, b6, b7, b8, b9) = (b[2], b[3], b[4], b[5], b[6], b[7], b[8], b[9]);
            if b2 & 0x80 != 0 {
                return Err(FrameError::ProtocolViolation);
            }
            let x = ((b2 as u64) << 56) | ((b3 as u64) << 48) | ((b4 as u64) << 40) | ((
            b5 as u64) << 32) | ((b6 as u64) << 24) | ((b7 as u64) << 16) | ((b8 as u64) << 8)
                | (b9 as u64);
            assert(x == u64_from(b@, 2));
            assert(x < 0x8000_0000_0000_0000u64) by (bit_vector)
                requires
                    x == ((b2 as u64) << 56) | ((b3 as u64) << 48) | ((b4 as u64) << 40) | ((
                    b5 as u64) << 32) | ((b6 as u64) << 24) | ((b7 as u64) << 16) | ((b8 as u64)
                        << 8) | (b9 as u64),
                    b2 & 0x80u8 == 0,
            ;
            if ((total - 10) as u64) < x {
                return Err(FrameError::Truncated);
            }
            frame.extended_payload_length_b = Some(x);
            len = x as usize;
            pos = 10;
        } else {
            len = frame.payload_length as usize;
        }
        assert(pos == key_start(b@));
        if frame.mask {
            if total - pos < 4 {
                return Err(FrameError::Truncated);
            }
            let key = [b[pos], b[pos + 1], b[pos + 2], b[pos + 3]];
            assert(key@ =~= b@.subrange(pos as int, pos + 4));
            frame.masking_key = Some(key);
            pos = pos + 4;
        }
        assert(pos == payload_start(b@));
        assert(len == declared_len(b@));
        if total - pos < len {
            return Err(FrameError::Truncated);
        }
        let mut body: Vec<u8> = Vec::new();
        let mut i: usize = 0;
        while i < len
            invariant
                pos + len <= total == b@.len(),
                i <= len,
                body@ == b@.subrange(pos as int, pos + i),
            decreases len - i,
        {
            body.push(b[pos + i]);
            i += 1;
        }
        let mut payload: Vec<u8> = Vec::new();
        push_masked(&mut payload, &body, frame.masking_key);
        assert(payload@ =~= match frame.masking_key {
            Some(k) => apply_mask(body@, k@),
            None => body@,
        });
        frame.payload_data = payload;
        proof {
            let b0 = b@[0];
            let b1 = b@[1];
            assert(b0 & 0x0fu8 < 16) by (bit_vector);
            assert(b1 & 0x7fu8 < 128) by (bit_vector);
        }
        Ok(frame)
    }

    /// The bytes of a final frame carrying `payload` as sent by `role`; see `with_role`.
    pub fn encode(opcode: u8, payload: &[u8], role: Role, masking_key: [u8; 4]) -> (r: Vec<u8>)
        requires
            opcode < 16,
            payload@.len() < max_payload(),
        ensures
            r@ == wire_of(
                true,
                false,
                false,
                false,
                opcode,
                role == Role::Client,
                selector_for(payload@.len()),
                ext_a_for(payload@.len()),
                ext_b_for(payload@.len()),
                if role == Role::Client {
                    Some(masking_key)
                } else {
                    None
                },
                payload@,
            ),
    {
        Frame::with_role(opcode, payload, role, masking_key).as_bytes()
    }
}

} // verus!

verus! {

/// Bit `i` of `x`, counted from the most significant.
pub open spec fn bit_at(x: u8, i: int) -> bool {
    (x >> ((7 - i) as u8)) & 1u8 == 1u8
}

/// The eight bits of `x`, most significant first.
pub open spec fn bits_of(x: u8) -> Seq<bool> {
    Seq::new(8, |i: int| bit_at(x, i))
}

/// The bits of each byte in turn.
pub open spec fn bits_of_bytes(b: Seq<u8>) -> Seq<bool>
    decreases b.len(),
{
    if b.len() == 0 {
        Seq::empty()
    } else {
        bits_of_bytes(b.drop_last()) + bits_of(b.last())
    }
}

/// The number that a sequence of bits spells, most significant first.
pub open spec fn bits_value(s: Seq<bool>) -> nat
    decreases s.len(),
{
    if s.len() == 0 {
        0
    } else {
        2 * bits_value(s.drop_last()) + if s.last() {
            1nat
        } else {
            0nat
        }
    }
}

proof fn lemma_bits_value_bound(s: Seq<bool>)
    ensures
        bits_value(s) < vstd::arithmetic::power2::pow2(s.len()),
    decreases s.len(),
{
    if s.len() > 0 {
        lemma_bits_value_bound(s.drop_last());
        vstd::arithmetic::power2::lemma_pow2_unfold(s.len());
    } else {
        vstd::arithmetic::power2::lemma2_to64();
    }
}

/// A sequence of bits.
#[derive(Debug, PartialEq, Clone)]
pub struct BitVec(pub Vec<bool>);

impl BitVec {
    pub fn new() -> (r: BitVec)
        ensures
            r.0@ == Seq::<bool>::empty(),
    {
        BitVec(Vec::new())
    }

    /// The bits of each byte, most significant first.
    pub fn from_bytes(bytes: &[u8]) -> (r: BitVec)
        ensures
            r.0@ == bits_of_bytes(bytes@),
    {
        let mut bit_vec = BitVec::new();
        let mut i: usize = 0;
        while i < bytes.len()
            invariant
                i <= bytes@.len(),
                bit_vec.0@ == bits_of_bytes(bytes@.take(i as int)),
            decreases bytes@.len() - i,
        {
            let mut current = Self::from_u8(bytes[i]);
            bit_vec.0.append(&mut current.0);
            assert(bytes@.take(i + 1).drop_last() =~= bytes@.take(i as int));
            i += 1;
        }
        assert(bytes@.take(i as int) =~= bytes@);
        bit_vec
    }

    /// The eight bits of `x`, most significant first.
    pub fn from_u8(x: u8) -> (r: BitVec)
        ensures
            r.0@ == bits_of(x),
    {
        let mut v: Vec<bool> = Vec::new();
        let mut i: u8 = 0;
        while i < 8
            invariant
                i <= 8,
                v@ == bits_of(x).take(i as int),
            decreases 8 - i,
        {
            v.push((x >> (7 - i)) & 1 == 1);
            assert(bits_of(x).take(i + 1) =~= bits_of(x).take(i as int).push(bit_at(x, i as int)));
            i += 1;
        }
        assert(v@ =~= bits_of(x));
        BitVec(v)
    }

    /// The byte that eight bits spell, most significant first.
    pub fn to_u8(&self) -> (r: u8)
        requires
            self.0@.len() == 8,
        ensures
            r as nat == bits_value(self.0@),
    {
        let bits = &self.0;
        let mut byte: u8 = 0;
        let mut i: usize = 0;
        while i < 8
            invariant
                bits@.len() == 8,
                i <= 8,
                byte as nat == bits_value(bits@.take(i as int)),
            decreases 8 - i,
        {
            proof {
                lemma_bits_value_bound(bits@.take(i as int));
                vstd::arithmetic::power2::lemma2_to64();
                if i < 7 {
                    vstd::arithmetic::power2::lemma_pow2_strictly_increases(i as nat, 7);
                }
                assert(bits@.take(i + 1).drop_last() =~= bits@.take(i as int));
            }
            byte = byte * 2 + if bits[i] {
                1u8
            } else {
                0u8
            };
            i += 1;
        }
        assert(bits@.take(8) =~= bits@);
        byte
    }

    /// The eight bits as an array.
    pub fn to_8bit_arr(&self) -> (r: [bool; 8])
        requires
            self.0@.len() == 8,
        ensures
            r@ == self.0@,
    {
        let mut arr = [false; 8];
        let mut i: usize = 0;
        while i < 8
            invariant
                self.0@.len() == 8,
                i <= 8,
                arr@.len() == 8,
                forall|j: int| 0 <= j < i ==> arr@[j] == self.0@[j],
            decreases 8 - i,
        {
            arr[i] = self.0[i];
            i += 1;
        }
        assert(arr@ =~= self.0@);
        arr
    }
}

} // verus!

verus! {

/// The SHA-1 digest of `data`.
pub uninterp spec fn sha1_digest(data: Seq<u8>) -> Seq<u8>;

/// The standard padded base64 text of `data`.
pub uninterp spec fn base64_text(data: Seq<u8>) -> Seq<char>;

/// The bytes that the standard padded base64 `text` stands for, or None when it is not
/// valid base64.
pub uninterp spec fn base64_bytes(text: Seq<u8>) -> Option<Seq<u8>>;

/// Relies on `sha1::Sha1` through `Digest::digest`: the 20-byte SHA-1 of the input.
#[verifier::external_body]
fn sha1(data: &[u8]) -> (r: Vec<u8>)
    ensures
        r@ == sha1_digest(data@),
        r@.len() == 20,
{
    <sha1::Sha1 as sha1::Digest>::digest(data).to_vec()
}

/// Relies on `base64::Engine::encode` with the `STANDARD` engine.
#[verifier::external_body]
fn base64_encode(data: &[u8]) -> (r: String)
    ensures
        r@ == base64_text(data@),
{
    base64::Engine::encode(&base64::engine::general_purpose::STANDARD, data)
}

/// Relies on `base64::Engine::decode` with the `STANDARD` engine; an error becomes None.
#[verifier::external_body]
fn base64_decode(text: &[u8]) -> (r: Option<Vec<u8>>)
    ensures
        match r {
            Some(v) => base64_bytes(text@) == Some(v@),
            None => base64_bytes(text@) is None,
        },
{
    base64::Engine::decode(&base64::engine::general_purpose::STANDARD, text).ok()
}

} // verus!

verus! {

/// Where a connection stands in the upgrade.
#[derive(Debug, PartialEq, Eq, Clone, Copy, Structural)]
pub enum State {
    AwaitingHandshake,
    Open,
    Closed,
}

/// Why an upgrade request was refused.
#[derive(Debug, PartialEq, Eq, Clone, Copy, Structural)]
pub enum WebSocketError {
    /// A required header is missing or invalid.
    BadRequest,
    /// `Sec-WebSocket-Version` is missing or not 13; the client may retry.
    VersionMismatch,
    MethodNotAllowed,
    VersionNotSupported,
}

/// The GUID that RFC 6455 appends to the client's key.
pub open spec fn guid() -> Seq<char> {
    "258EAFA5-E914-47DA-95CA-C5AB0DC85B11"@
}

/// `Sec-WebSocket-Accept` for a client key.
pub open spec fn accept_for(key: Seq<char>) -> Seq<char> {
    base64_text(sha1_digest(encode_utf8(key + guid())))
}

/// The comma-separated tokens of a header value, trimmed.
pub open spec fn offered(value: Seq<char>) -> Seq<Seq<char>> {
    split(value, seq![',']).map_values(|t: Seq<char>| trim(t))
}

/// Whether `value` lists `token`, compared up to ASCII case.
pub open spec fn has_token(value: Seq<char>, token: Seq<char>) -> bool {
    exists|i: int| 0 <= i < offered(value).len() && eq_ignore_case(#[trigger] offered(value)[i], token)
}

/// Whether header `name` is present and lists `token`.
pub open spec fn lists(h: HeaderList, name: Seq<char>, token: Seq<char>) -> bool {
    match lookup(h, name) {
        Some(v) => has_token(v, token),
        None => false,
    }
}

/// Why `req` cannot be upgraded, given what its key decodes to, or None when it can.
pub open spec fn handshake_error(req: Request, nonce: Option<Seq<u8>>) -> Option<WebSocketError> {
    let h = req.headers@;
    if req.method != Method::Get {
        Some(WebSocketError::MethodNotAllowed)
    } else if req.version != Version::OneDotOne {
        Some(WebSocketError::VersionNotSupported)
    } else if lookup(h, "Host"@) is None {
        Some(WebSocketError::BadRequest)
    } else if !lists(h, "Upgrade"@, "websocket"@) {
        Some(WebSocketError::BadRequest)
    } else if !lists(h, "Connection"@, "Upgrade"@) {
        Some(WebSocketError::BadRequest)
    } else if lookup(h, "Sec-WebSocket-Key"@) is None {
        Some(WebSocketError::BadRequest)
    } else if !(nonce matches Some(n) && n.len() == 16) {
        Some(WebSocketError::BadRequest)
    } else if lookup(h, "Sec-WebSocket-Version"@) != Some("13"@) {
        Some(WebSocketError::VersionMismatch)
    } else {
        None
    }
}

/// The headers of a 101 answer: the upgrade, the accept value, and the offered
/// sub-protocols and extensions echoed back.
pub open spec fn upgrade_headers(requested: HeaderList, accept: Seq<char>) -> HeaderList {
    let h = upsert(
        upsert(upsert(Seq::empty(), "Upgrade"@, "websocket"@), "Connection"@, "Upgrade"@),
        "Sec-WebSocket-Accept"@,
        accept,
    );
    let h = match lookup(requested, "Sec-WebSocket-Protocol"@) {
        Some(p) => upsert(h, "Sec-WebSocket-Protocol"@, p),
        None => h,
    };
    match lookup(requested, "Sec-WebSocket-Extensions"@) {
        Some(x) => upsert(h, "Sec-WebSocket-Extensions"@, x),
        None => h,
    }
}

pub open spec fn refusal_status(e: WebSocketError) -> Status {
    match e {
        WebSocketError::BadRequest => Status::BadRequest,
        WebSocketError::VersionMismatch => Status::UpgradeRequired,
        WebSocketError::MethodNotAllowed => Status::MethodNotAllowed,
        WebSocketError::VersionNotSupported => Status::VersionNotSupported,
    }
}

/// Whether `r` answers the upgrade request `req` whose key decodes to `nonce` and whose
/// accept value is `accept`.
pub open spec fn answers_handshake(req: Request, nonce: Option<Seq<u8>>, accept: Seq<char>, r: Response) -> bool {
    &&& r.version == Version::OneDotOne
    &&& r.body@.len() == 0
    &&& match handshake_error(req, nonce) {
        None => r.status == Status::SwitchingProtocols && r.headers@ == upgrade_headers(
            req.headers@,
            accept,
        ),
        Some(WebSocketError::VersionMismatch) => r.status == Status::UpgradeRequired
            && r.headers@ == upsert(Seq::empty(), "Sec-WebSocket-Version"@, "13"@),
        Some(e) => r.status == refusal_status(e) && r.headers@.len() == 0,
    }
}

/// The tokens of header `name`, or none when it is absent.
pub open spec fn offered_in(h: HeaderList, name: Seq<char>) -> Seq<Seq<char>> {
    match lookup(h, name) {
        Some(v) => offered(v),
        None => Seq::empty(),
    }
}

pub open spec fn strings_view(v: Seq<String>) -> Seq<Seq<char>> {
    v.map_values(|s: String| s@)
}

pub open spec fn bytes_view(o: Option<Vec<u8>>) -> Option<Seq<u8>> {
    match o {
        Some(v) => Some(v@),
        None => None,
    }
}

/// A WebSocket connection's negotiated state.
#[derive(Debug, PartialEq, Clone)]
pub struct WebSocket {
    pub state: State,
    pub protocol: Vec<String>,
    pub extensions: Vec<String>,
}

/// Whether `after` is the connection `before` once it has handled `req` (key decoding to
/// `nonce`): open with the offered sub-protocols and extensions on success, still waiting
/// after a version mismatch, closed after any other refusal.
pub open spec fn handshake_transition(
    before: WebSocket,
    after: WebSocket,
    req: Request,
    nonce: Option<Seq<u8>>,
) -> bool {
    match handshake_error(req, nonce) {
        None => {
            &&& after.state == State::Open
            &&& strings_view(after.protocol@) == offered_in(req.headers@, "Sec-WebSocket-Protocol"@)
            &&& strings_view(after.extensions@) == offered_in(
                req.headers@,
                "Sec-WebSocket-Extensions"@,
            )
        },
        Some(e) => {
            &&& after.state == if e == WebSocketError::VersionMismatch {
                State::AwaitingHandshake
            } else {
                State::Closed
            }
            &&& after.protocol@ == before.protocol@
            &&& after.extensions@ == before.extensions@
        },
    }
}

/// What the key of `req` decodes to, None when it has no key.
pub open spec fn nonce_of(req: Request) -> Option<Seq<u8>> {
    match lookup(req.headers@, "Sec-WebSocket-Key"@) {
        Some(k) => base64_bytes(encode_utf8(k)),
        None => None,
    }
}

/// The accept value for the key of `req`.
pub open spec fn accept_of(req: Request) -> Seq<char> {
    match lookup(req.headers@, "Sec-WebSocket-Key"@) {
        Some(k) => accept_for(k),
        None => Seq::empty(),
    }
}

/// Whether `value` lists `token`, compared up to ASCII case.
fn lists_token(value: &String, token: &[char]) -> (r: bool)
    ensures
        r == has_token(value@, token@),
{
    let chars = chars_of(value.as_str());
    let comma = [','];
    assert(comma@ == seq![',']);
    let pieces = split_all(&chars, &comma);
    let ghost tokens = offered(value@);
    let mut i: usize = 0;
    while i < pieces.len()
        invariant
            i <= pieces@.len(),
            pieces.deep_view() == split(value@, seq![',']),
            tokens == offered(value@),
            tokens.len() == pieces@.len(),
            forall|j: int| 0 <= j < i ==> !eq_ignore_case(#[trigger] tokens[j], token@),
        decreases pieces@.len() - i,
    {
        assert(pieces@[i as int].deep_view() =~= pieces@[i as int]@);
        let t = trim_chars(&pieces[i]);
        assert(t@ == tokens[i as int]);
        if slice_eq_ignore_case(t.as_slice(), token) {
            return true;
        }
        i += 1;
    }
    false
}

/// The trimmed comma-separated tokens of `value`.
fn token_list(value: &String) -> (r: Vec<String>)
    ensures
        strings_view(r@) == offered(value@),
{
    let chars = chars_of(value.as_str());
    let comma = [','];
    assert(comma@ == seq![',']);
    let pieces = split_all(&chars, &comma);
    let ghost tokens = offered(value@);
    let mut out: Vec<String> = Vec::new();
    let mut i: usize = 0;
    while i < pieces.len()
        invariant
            i <= pieces@.len(),
            pieces.deep_view() == split(value@, seq![',']),
            tokens == offered(value@),
            tokens.len() == pieces@.len(),
            strings_view(out@) == tokens.take(i as int),
        decreases pieces@.len() - i,
    {
        assert(pieces@[i as int].deep_view() =~= pieces@[i as int]@);
        let t = trim_chars(&pieces[i]);
        assert(t@ == tokens[i as int]);
        let piece = string_from_chars(&t);
        let ghost before = out@;
        out.push(piece);
        assert(strings_view(out@) =~= strings_view(before).push(piece@));
        assert(tokens.take(i + 1) =~= tokens.take(i as int).push(tokens[i as int]));
        i += 1;
    }
    assert(tokens.take(i as int) =~= tokens);
    out
}

/// Whether `value` is exactly `13`.
fn is_thirteen(value: &String) -> (r: bool)
    ensures
        r == (value@ == "13"@),
{
    proof {
        reveal_strlit("13");
    }
    let chars = chars_of(value.as_str());
    let digits = ['1', '3'];
    assert(digits@ =~= seq!['1', '3']);
    assert("13"@ =~= seq!['1', '3']);
    crate::http::same_chars(&chars, &digits)
}

/// `Sec-WebSocket-Accept` for `key`: base64 of the SHA-1 of the key followed by the GUID.
fn accept_key(key: &str) -> (r: String)
    ensures
        r@ == accept_for(key@),
{
    let mut chars = chars_of(key);
    crate::http::push_str(&mut chars, "258EAFA5-E914-47DA-95CA-C5AB0DC85B11");
    let joined = string_from_chars(&chars);
    let digest = sha1(joined.as_str().as_bytes());
    base64_encode(digest.as_slice())
}

impl WebSocket {
    /// A connection waiting for its handshake, with nothing negotiated.
    pub fn new() -> (r: Self)
        ensures
            r.state == State::AwaitingHandshake,
            r.protocol@.len() == 0,
            r.extensions@.len() == 0,
    {
        WebSocket { state: State::AwaitingHandshake, protocol: Vec::new(), extensions: Vec::new() }
    }

    /// Answers the upgrade request `req`, given what its key decodes to (`nonce`) and the
    /// accept value computed from that key, and moves the connection on.
    pub fn negotiate(&mut self, req: &Request, nonce: Option<Vec<u8>>, accept: &str) -> (r: Response)
        ensures
            answers_handshake(
                *req,
                bytes_view(nonce),
                accept@,
                r,
            ),
            handshake_transition(
                *old(self),
                *final(self),
                *req,
                bytes_view(nonce),
            ),
    {
        proof {
            reveal_strlit("Host");
            reveal_strlit("websocket");
            reveal_strlit("Upgrade");
        }
        let refusal = self.check(req, &nonce);
        match refusal {
            Some(e) => {
                self.state = if e == WebSocketError::VersionMismatch {
                    State::AwaitingHandshake
                } else {
                    State::Closed
                };
                let status = match e {
                    WebSocketError::BadRequest => Status::BadRequest,
                    WebSocketError::VersionMismatch => Status::UpgradeRequired,
                    WebSocketError::MethodNotAllowed => Status::MethodNotAllowed,
                    WebSocketError::VersionNotSupported => Status::VersionNotSupported,
                };
                let res = Response::new(status);
                if e == WebSocketError::VersionMismatch {
                    res.header(("Sec-WebSocket-Version", "13"))
                } else {
                    res
                }
            },
            None => {
                let mut res = Response::new(Status::SwitchingProtocols).header(
                    ("Upgrade", "websocket"),
                ).header(("Connection", "Upgrade")).header(("Sec-WebSocket-Accept", accept));
                let mut protocol: Vec<String> = Vec::new();
                let mut extensions: Vec<String> = Vec::new();
                match req.headers.get("Sec-WebSocket-Protocol") {
                    Some(p) => {
                        protocol = token_list(p);
                        res = res.header(("Sec-WebSocket-Protocol", p.as_str()));
                    },
                    None => {},
                }
                match req.headers.get("Sec-WebSocket-Extensions") {
                    Some(x) => {
                        extensions = token_list(x);
                        res = res.header(("Sec-WebSocket-Extensions", x.as_str()));
                    },
                    None => {},
                }
                assert(strings_view(protocol@) =~= offered_in(req.headers@, "Sec-WebSocket-Protocol"@));
                assert(strings_view(extensions@) =~= offered_in(req.headers@, "Sec-WebSocket-Extensions"@));
                self.state = State::Open;
                self.protocol = protocol;
                self.extensions = extensions;
                res
            },
        }
    }

    fn check(&self, req: &Request, nonce: &Option<Vec<u8>>) -> (r: Option<WebSocketError>)
        ensures
            r == handshake_error(
                *req,
                bytes_view(*nonce),
            ),
    {
        if req.method != Method::Get {
            return Some(WebSocketError::MethodNotAllowed);
        }
        if req.version != Version::OneDotOne {
            return Some(WebSocketError::VersionNotSupported);
        }
        if req.headers.get("Host").is_none() {
            return Some(WebSocketError::BadRequest);
        }
        proof {
            reveal_strlit("websocket");
            reveal_strlit("Upgrade");
        }
        let upgrade_ok = match req.headers.get("Upgrade") {
            Some(v) => lists_token(v, &['w', 'e', 'b', 's', 'o', 'c', 'k', 'e', 't']),
            None => false,
        };
        assert(['w', 'e', 'b', 's', 'o', 'c', 'k', 'e', 't']@ =~= "websocket"@);
        if !upgrade_ok {
            return Some(WebSocketError::BadRequest);
        }
        let connection_ok = match req.headers.get("Connection") {
            Some(v) => lists_token(v, &['U', 'p', 'g', 'r', 'a', 'd', 'e']),
            None => false,
        };
        assert(['U', 'p', 'g', 'r', 'a', 'd', 'e']@ =~= "Upgrade"@);
        if !connection_ok {
            return Some(WebSocketError::BadRequest);
        }
        if req.headers.get("Sec-WebSocket-Key").is_none() {
            return Some(WebSocketError::BadRequest);
        }
        match nonce {
            Some(n) => {
                if n.len() != 16 {
                    return Some(WebSocketError::BadRequest);
                }
            },
            None => return Some(WebSocketError::BadRequest),
        }
        let version_ok = match req.headers.get("Sec-WebSocket-Version") {
            Some(v) => is_thirteen(v),
            None => false,
        };
        if !version_ok {
            return Some(WebSocketError::VersionMismatch);
        }
        None
    }

    /// Answers the upgrade request `req`: decodes its key, computes the accept value, and
    /// negotiates as `negotiate` does.
    pub fn try_init(&mut self, req: &Request) -> (r: Response)
        ensures
            answers_handshake(*req, nonce_of(*req), accept_of(*req), r),
            handshake_transition(*old(self), *final(self), *req, nonce_of(*req)),
    {
        match req.headers.get("Sec-WebSocket-Key") {
            None => self.negotiate(req, None, ""),
            Some(key) => {
                let nonce = base64_decode(key.as_str().as_bytes());
                let accept = accept_key(key.as_str());
                self.negotiate(req, nonce, accept.as_str())
            },
        }
    }
}

} // verus!

verus! {

/// Whether `req` asks for a protocol upgrade, and so goes to the handshake rather than
/// the handler chain.
pub fn requests_upgrade(req: &Request) -> (r: bool)
    ensures
        r == (lookup(req.headers@, "Upgrade"@) is Some),
{
    req.headers.get("Upgrade").is_some()
}

/// The opcode an echoing server answers with: a pong for a ping, else the same opcode.
pub open spec fn reply_opcode(opcode: u8) -> u8 {
    if opcode == 0x9 {
        0xA
    } else {
        opcode
    }
}

/// What an echoing server sends back for a received frame, and whether the session ends:
/// a close is answered by an empty close and ends it; a ping gets a pong with the same
/// payload; any other frame comes back unchanged. Server frames are never masked.
pub fn echo_reply(frame: &Frame) -> (r: (Vec<u8>, bool))
    requires
        frame.wf(),
    ensures
        r.1 == (frame.opcode == 0x8),
        r.1 ==> r.0@ == wire_of(true, false, false, false, 0x8, false, 0, None, None, None, Seq::empty()),
        !r.1 ==> r.0@ == wire_of(
            true,
            false,
            false,
            false,
            reply_opcode(frame.opcode),
            false,
            selector_for(frame.payload_data@.len()),
            ext_a_for(frame.payload_data@.len()),
            ext_b_for(frame.payload_data@.len()),
            None,
            frame.payload_data@,
        ),
{
    if frame.opcode == 0x8 {
        let empty: [u8; 0] = [];
        let bytes = Frame::encode(0x8, &empty, Role::Server, [0; 4]);
        assert(empty@ =~= Seq::<u8>::empty());
        (bytes, true)
    } else {
        let opcode = if frame.opcode == 0x9 {
            0xA
        } else {
            frame.opcode
        };
        (Frame::encode(opcode, frame.payload_data.as_slice(), Role::Server, [0; 4]), false)
    }
}

} // verus!
