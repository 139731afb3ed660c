use vstd::prelude::*;
use vstd::string::StrSliceExecFns;
use vstd::utf8::{encode_utf8, valid_utf8};
use crate::errors::SocketError;

verus! {

/// The kind of a frame.
#[derive(Clone, Copy, Debug, PartialEq, Eq, Structural)]
pub enum Opcode {
    Continuation,
    Text,
    Binary,
    ConnectionClosed,
    Ping,
    Pong,
}

impl Opcode {
    /// The 4-bit code of the kind on the wire.
    pub open spec fn code(self) -> u8 {
        match self {
            Opcode::Continuation => 0,
            Opcode::Text => 1,
            Opcode::Binary => 2,
            Opcode::ConnectionClosed => 8,
            Opcode::Ping => 9,
            Opcode::Pong => 10,
        }
    }

    pub fn to_u8(self) -> (r: u8)
        ensures
            r == self.code(),
    {
        match self {
            Opcode::Continuation => 0,
            Opcode::Text => 1,
            Opcode::Binary => 2,
            Opcode::ConnectionClosed => 8,
            Opcode::Ping => 9,
            Opcode::Pong => 10,
        }
    }

    /// The kind with this code, if the protocol defines one.
    pub open spec fn of_code(v: u8) -> Option<Opcode> {
        if v == 0 {
            Some(Opcode::Continuation)
        } else if v == 1 {
            Some(Opcode::Text)
        } else if v == 2 {
            Some(Opcode::Binary)
        } else if v == 8 {
            Some(Opcode::ConnectionClosed)
        } else if v == 9 {
            Some(Opcode::Ping)
        } else if v == 10 {
            Some(Opcode::Pong)
        } else {
            None
        }
    }

    pub fn from_u8(v: u8) -> (r: Option<Opcode>)
        ensures
            r == Opcode::of_code(v),
    {
        match v {
            0 => Some(Opcode::Continuation),
            1 => Some(Opcode::Text),
            2 => Some(Opcode::Binary),
            8 => Some(Opcode::ConnectionClosed),
            9 => Some(Opcode::Ping),
            10 => Some(Opcode::Pong),
            _ => None,
        }
    }
}

/// The body of a frame: text for `Text` frames, bytes otherwise.
#[derive(Debug)]
pub enum Payload {
    Text(String),
    Binary(Vec<u8>),
}

/// The bytes of a payload: the UTF-8 encoding of a text.
pub open spec fn payload_bytes(p: Payload) -> Seq<u8> {
    match p {
        Payload::Text(s) => encode_utf8(s@),
        Payload::Binary(b) => b@,
    }
}

impl Payload {
    /// The text of a text payload.
    pub fn string(self) -> (r: Option<String>)
        ensures
            match self {
                Payload::Text(s) => r == Some(s),
                Payload::Binary(_) => r is None,
            },
    {
        match self {
            Payload::Text(s) => Some(s),
            Payload::Binary(_) => None,
        }
    }

    /// The bytes of the payload.
    pub fn bytes(self) -> (r: Vec<u8>)
        ensures
            r@ == payload_bytes(self),
    {
        self.to_bytes()
    }

    /// The bytes of the payload, copied.
    pub fn to_bytes(&self) -> (r: Vec<u8>)
        ensures
            r@ == payload_bytes(*self),
    {
        match self {
            Payload::Text(s) => s.as_str().as_bytes_vec(),
            Payload::Binary(b) => vstd::slice::slice_to_vec(b.as_slice()),
        }
    }

    /// The byte length of the payload.
    pub fn byte_len(&self) -> (r: usize)
        ensures
            r == payload_bytes(*self).len(),
    {
        match self {
            Payload::Text(s) => s.as_str().as_bytes().len(),
            Payload::Binary(b) => b.len(),
        }
    }
}

/// A frame as read from a connection.
#[derive(Debug)]
pub struct DataFrame {
    pub flags: u8,
    pub opcode: Opcode,
    pub length: usize,
    pub mask: Option<[u8; 4]>,
    pub payload: Payload,
}

/// What a frame says, in plain values.
pub struct WireFrame {
    pub flags: u8,
    pub opcode: Opcode,
    pub length: nat,
    pub mask: Option<Seq<u8>>,
    pub payload: Seq<u8>,
}

pub open spec fn mask_view(m: Option<[u8; 4]>) -> Option<Seq<u8>> {
    match m {
        Some(a) => Some(a@),
        None => None,
    }
}

impl DataFrame {
    pub open spec fn wire(self) -> WireFrame {
        WireFrame {
            flags: self.flags,
            opcode: self.opcode,
            length: self.length as nat,
            mask: mask_view(self.mask),
            payload: payload_bytes(self.payload),
        }
    }
}

/// Value of big-endian bytes.
pub open spec fn be_value(b: Seq<u8>) -> nat
    decreases b.len(),
{
    if b.len() == 0 {
        0
    } else {
        be_value(b.drop_last()) * 256 + b.last() as nat
    }
}

/// The `k` low bytes of `n`, most significant first.
pub open spec fn be_bytes(n: nat, k: nat) -> Seq<u8>
    decreases k,
{
    if k == 0 {
        Seq::empty()
    } else {
        be_bytes(n / 256, (k - 1) as nat).push((n % 256) as u8)
    }
}

/// The bytes XOR-ed with the mask, byte `i` with `m[i mod 4]`.
pub open spec fn apply_mask(p: Seq<u8>, m: Seq<u8>) -> Seq<u8> {
    Seq::new(p.len(), |i: int| p[i] ^ m[i % 4])
}

/// Reads one frame that fills `d` exactly.
pub open spec fn parse_wire(d: Seq<u8>) -> Result<WireFrame, SocketError> {
    if d.len() < 2 {
        Err(SocketError::CannotReadPayload)
    } else {
        let code = d[1] & 0x7f;
        let masked = d[1] & 0x80 != 0;
        let at: int = if code == 126 { 4 } else if code == 127 { 10 } else { 2 };
        let body_at: int = if masked { at + 4 } else { at };
        if d.len() < body_at {
            Err(SocketError::CannotReadPayload)
        } else {
            let length = if code == 126 || code == 127 { be_value(d.subrange(2, at)) } else { code as nat };
            let body = d.subrange(body_at, d.len() as int);
            match Opcode::of_code(d[0] & 0x0f) {
                None => Err(SocketError::InvalidFrame),
                Some(op) => if body.len() != length {
                    Err(SocketError::InvalidFrame)
                } else {
                    let mask = if masked { Some(d.subrange(at, at + 4)) } else { None };
                    let payload = if masked { apply_mask(body, d.subrange(at, at + 4)) } else { body };
                    if op == Opcode::Text && !valid_utf8(payload) {
                        Err(SocketError::InvalidFrame)
                    } else {
                        Ok(WireFrame { flags: d[0] & 0xf0, opcode: op, length, mask, payload })
                    }
                },
            }
        }
    }
}

/// Relies on `String::from_utf8`: it accepts exactly the valid UTF-8 byte
/// sequences, and the text it gives encodes to those bytes.
#[verifier::external_body]
fn text_of_utf8(b: Vec<u8>) -> (r: Option<String>)
    ensures
        r is Some <==> valid_utf8(b@),
        r matches Some(s) ==> encode_utf8(s@) == b@,
{
    String::from_utf8(b).ok()
}

/// Appends the `k` low bytes of `n`, most significant first.
pub(crate) fn push_be(out: &mut Vec<u8>, n: u64, k: usize)
    ensures
        final(out)@ == old(out)@ + be_bytes(n as nat, k as nat),
    decreases k,
{
    if k > 0 {
        push_be(out, n / 256, k - 1);
        out.push((n % 256) as u8);
        assert(final(out)@ =~= old(out)@ + be_bytes(n as nat, k as nat));
    } else {
        assert(final(out)@ =~= old(out)@ + be_bytes(n as nat, k as nat));
    }
}

pub proof fn lemma_be_bytes_len(n: nat, k: nat)
    ensures
        be_bytes(n, k).len() == k,
    decreases k,
{
    if k > 0 {
        lemma_be_bytes_len(n / 256, (k - 1) as nat);
    }
}

pub open spec fn p256(k: nat) -> nat
    decreases k,
{
    if k == 0 {
        1
    } else {
        256 * p256((k - 1) as nat)
    }
}

/// Reads `d[from..to]` (at most 8 bytes) as a big-endian number.
fn read_be(d: &[u8], from: usize, to: usize) -> (r: u64)
    requires
        from <= to <= d@.len(),
        to - from <= 8,
    ensures
        r as nat == be_value(d@.subrange(from as int, to as int)),
{
    let mut acc: u64 = 0;
    let mut i: usize = from;
    proof {
        reveal_with_fuel(p256, 9);
    }
    while i < to
        invariant
            from <= i <= to <= d@.len(),
            to - from <= 8,
            acc as nat == be_value(d@.subrange(from as int, i as int)),
            acc < p256((i - from) as nat),
            p256((i - from) as nat) <= p256(8),
            p256(8) == 18446744073709551616,
        decreases to - i,
    {
        let ghost k = (i - from) as nat;
        assert(d@.subrange(from as int, i + 1).drop_last() =~= d@.subrange(from as int, i as int));
        proof {
            reveal_with_fuel(p256, 9);
            assert(p256(k + 1) == 256 * p256(k));
            assert(acc * 256 + d@[i as int] < 256 * p256(k)) by (nonlinear_arith)
                requires
                    acc < p256(k),
                    d@[i as int] < 256,
            ;
            assert(p256(k + 1) <= p256(8)) by {
                reveal_with_fuel(p256, 9);
                assert(k + 1 <= 8);
                if k + 1 == 1 {} else if k + 1 == 2 {} else if k + 1 == 3 {} else if k + 1 == 4 {}
                else if k + 1 == 5 {} else if k + 1 == 6 {} else if k + 1 == 7 {} else {}
            }
        }
        acc = acc * 256 + d[i] as u64;
        i = i + 1;
    }
    acc
}

/// How many bytes the header of a frame takes, by its second byte: 2, then
/// 2 or 8 for an extended length, then 4 for a mask.
pub open spec fn header_size_of(b1: u8) -> nat {
    let code = b1 & 0x7f;
    let at: nat = if code == 126 { 4 } else if code == 127 { 10 } else { 2 };
    if b1 & 0x80 != 0 { at + 4 } else { at }
}

pub fn header_size(b1: u8) -> (r: usize)
    ensures
        r == header_size_of(b1),
{
    let code = b1 & 0x7f;
    let at: usize = if code == 126 { 4 } else if code == 127 { 10 } else { 2 };
    if b1 & 0x80 != 0 { at + 4 } else { at }
}

/// The payload length that a complete header declares.
pub fn declared_length(h: &[u8]) -> (r: u64)
    requires
        h@.len() >= 2,
        h@.len() >= header_size_of(h@[1]),
    ensures
        r as nat == if h@[1] & 0x7f == 126 {
            be_value(h@.subrange(2, 4))
        } else if h@[1] & 0x7f == 127 {
            be_value(h@.subrange(2, 10))
        } else {
            (h@[1] & 0x7f) as nat
        },
{
    let code = h[1] & 0x7f;
    if code == 126 {
        read_be(h, 2, 4)
    } else if code == 127 {
        read_be(h, 2, 10)
    } else {
        code as u64
    }
}

/// Reads a frame from the bytes that it fills exactly: the header, the
/// extended length, the mask and the payload, which is unmasked.
pub fn decode_frame(d: &[u8]) -> (r: Result<DataFrame, SocketError>)
    ensures
        match parse_wire(d@) {
            Ok(w) => r is Ok && r->Ok_0.wire() == w,
            Err(e) => r == Err::<DataFrame, SocketError>(e),
        },
        r matches Ok(f) ==> (f.payload is Text <==> f.opcode == Opcode::Text),
{
    let n = d.len();
    if n < 2 {
        return Err(SocketError::CannotReadPayload);
    }
    let b0 = d[0];
    let b1 = d[1];
    let code = b1 & 0x7f;
    let masked = b1 & 0x80 != 0;
    let at: usize = if code == 126 { 4 } else if code == 127 { 10 } else { 2 };
    let body_at: usize = if masked { at + 4 } else { at };
    if n < body_at {
        return Err(SocketError::CannotReadPayload);
    }
    let length: u64 = if code == 126 || code == 127 { read_be(d, 2, at) } else { code as u64 };
    let opcode = match Opcode::from_u8(b0 & 0x0f) {
        None => {
            return Err(SocketError::InvalidFrame);
        },
        Some(op) => op,
    };
    if (n - body_at) as u64 != length {
        return Err(SocketError::InvalidFrame);
    }
    let m: [u8; 4] = if masked { [d[at], d[at + 1], d[at + 2], d[at + 3]] } else { [0, 0, 0, 0] };
    let ghost body = d@.subrange(body_at as int, n as int);
    let mut payload: Vec<u8> = Vec::new();
    let mut i: usize = body_at;
    while i < n
        invariant
            body_at <= i <= n == d@.len(),
            body == d@.subrange(body_at as int, n as int),
            masked ==> payload@ == apply_mask(body, m@).subrange(0, i - body_at),
            !masked ==> payload@ == body.subrange(0, i - body_at),
        decreases n - i,
    {
        let b = if masked { d[i] ^ m[(i - body_at) % 4] } else { d[i] };
        payload.push(b);
        proof {
            if masked {
                assert(payload@ =~= apply_mask(body, m@).subrange(0, i + 1 - body_at));
            } else {
                assert(payload@ =~= body.subrange(0, i + 1 - body_at));
            }
        }
        i = i + 1;
    }
    proof {
        if masked {
            assert(m@ =~= d@.subrange(at as int, at + 4));
            assert(payload@ =~= apply_mask(body, d@.subrange(at as int, at + 4)));
        } else {
            assert(payload@ =~= body);
        }
    }
    let body_payload = if opcode == Opcode::Text {
        match text_of_utf8(payload) {
            None => {
                return Err(SocketError::InvalidFrame);
            },
            Some(t) => Payload::Text(t),
        }
    } else {
        Payload::Binary(payload)
    };
    Ok(DataFrame {
        flags: b0 & 0xf0,
        opcode,
        length: length as usize,
        mask: if masked { Some(m) } else { None },
        payload: body_payload,
    })
}

} // verus!
