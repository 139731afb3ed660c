use vstd::prelude::*;
use crate::frame::{DataFrame, Opcode, Payload, apply_mask, be_bytes, mask_view, payload_bytes, push_be};

verus! {

/// The bytes of a frame: the first byte, the length (inline up to 125, else
/// the marker 126 and 2 bytes, or 127 and 8 bytes, big-endian) with the mask
/// bit, the mask if any, and the payload XOR-ed with the mask.
pub open spec fn frame_bytes(first: u8, length: nat, mask: Option<Seq<u8>>, payload: Seq<u8>) -> Seq<u8> {
    let mbit: u8 = if mask is Some { 0x80 } else { 0 };
    let head = if length <= 125 {
        seq![first, (length as u8) | mbit]
    } else if length <= 65535 {
        seq![first, 126u8 | mbit] + be_bytes(length, 2)
    } else {
        seq![first, 127u8 | mbit] + be_bytes(length, 8)
    };
    match mask {
        Some(m) => head + m + apply_mask(payload, m),
        None => head + payload,
    }
}

/// An outgoing frame, built step by step.
pub struct Response {
    pub flags: u8,
    pub opcode: Opcode,
    pub length: usize,
    pub mask: Option<[u8; 4]>,
    pub payload: Payload,
}

impl Payload {
    /// A copy of the payload.
    pub fn duplicate(&self) -> (r: Payload)
        ensures
            payload_bytes(r) == payload_bytes(*self),
            r is Text <==> self is Text,
    {
        match self {
            Payload::Text(s) => Payload::Text(s.clone()),
            Payload::Binary(b) => Payload::Binary(vstd::slice::slice_to_vec(b.as_slice())),
        }
    }
}

impl Response {
    /// The bytes that `build` gives for this response.
    pub open spec fn spec_bytes(self) -> Seq<u8> {
        frame_bytes(
            self.flags | self.opcode.code(),
            self.length as nat,
            mask_view(self.mask),
            payload_bytes(self.payload),
        )
    }

    /// A final binary frame with an empty payload and no mask.
    pub fn builder() -> (r: Self)
        ensures
            r.flags == 0x80,
            r.opcode == Opcode::Binary,
            r.length == 0,
            r.mask is None,
            payload_bytes(r.payload) == Seq::<u8>::empty(),
            r.payload is Binary,
    {
        Response { flags: 0x80, opcode: Opcode::Binary, length: 0, mask: None, payload: Payload::Binary(Vec::new()) }
    }

    /// Sets the payload, its byte length, and the kind: `Text` for text,
    /// `Binary` for bytes.
    pub fn set_body(self, payload: Payload) -> (r: Self)
        ensures
            r.flags == self.flags,
            r.mask == self.mask,
            r.payload == payload,
            r.length == payload_bytes(payload).len(),
            r.opcode == if payload is Text { Opcode::Text } else { Opcode::Binary },
    {
        let mut r = self;
        r.length = payload.byte_len();
        r.opcode = match &payload {
            Payload::Text(_) => Opcode::Text,
            Payload::Binary(_) => Opcode::Binary,
        };
        r.payload = payload;
        r
    }

    /// Sets the mask that the payload is sent under.
    pub fn set_mask(self, mask: [u8; 4]) -> (r: Self)
        ensures
            r.flags == self.flags,
            r.opcode == self.opcode,
            r.length == self.length,
            r.payload == self.payload,
            r.mask == Some(mask),
    {
        let mut r = self;
        r.mask = Some(mask);
        r
    }

    /// The bytes of the frame.
    pub fn build(self) -> (r: Vec<u8>)
        ensures
            r@ == self.spec_bytes(),
    {
        let mut buff: Vec<u8> = Vec::new();
        let first = self.flags | self.opcode.to_u8();
        buff.push(first);
        let mbit: u8 = if self.mask.is_some() { 0x80 } else { 0 };
        if self.length <= 125 {
            buff.push((self.length as u8) | mbit);
        } else if self.length <= 65535 {
            buff.push(126u8 | mbit);
            push_be(&mut buff, self.length as u64, 2);
        } else {
            buff.push(127u8 | mbit);
            push_be(&mut buff, self.length as u64, 8);
        }
        let ghost head = buff@;
        let payload = self.payload.to_bytes();
        match self.mask {
            Some(m) => {
                buff.push(m[0]);
                buff.push(m[1]);
                buff.push(m[2]);
                buff.push(m[3]);
                let ghost start = buff@;
                assert(start =~= head + m@);
                let mut i: usize = 0;
                while i < payload.len()
                    invariant
                        i <= payload@.len(),
                        buff@ == start + apply_mask(payload@, m@).subrange(0, i as int),
                    decreases payload@.len() - i,
                {
                    buff.push(payload[i] ^ m[i % 4]);
                    assert(buff@ =~= start + apply_mask(payload@, m@).subrange(0, i + 1));
                    i = i + 1;
                }
                assert(apply_mask(payload@, m@).subrange(0, i as int) =~= apply_mask(payload@, m@));
            },
            None => {
                let ghost start = buff@;
                let mut i: usize = 0;
                while i < payload.len()
                    invariant
                        i <= payload@.len(),
                        buff@ == start + payload@.subrange(0, i as int),
                    decreases payload@.len() - i,
                {
                    buff.push(payload[i]);
                    assert(buff@ =~= start + payload@.subrange(0, i + 1));
                    i = i + 1;
                }
                assert(payload@.subrange(0, i as int) =~= payload@);
            },
        }
        proof {
            let mview = mask_view(self.mask);
            if self.length <= 125 {
                assert(head =~= seq![first, (self.length as u8) | mbit]);
            } else if self.length <= 65535 {
                assert(head =~= seq![first, 126u8 | mbit] + be_bytes(self.length as nat, 2));
            } else {
                assert(head =~= seq![first, 127u8 | mbit] + be_bytes(self.length as nat, 8));
            }
        }
        assert(buff@ =~= self.spec_bytes());
        buff
    }

    /// The `Pong` frame that answers a ping: the ping's payload under the
    /// ping's mask.
    pub fn pong(ping: &DataFrame) -> (r: Vec<u8>)
        ensures
            r@ == frame_bytes(
                0x80u8 | 10u8,
                payload_bytes(ping.payload).len(),
                mask_view(ping.mask),
                payload_bytes(ping.payload),
            ),
    {
        let mut response = Response::builder().set_body(ping.payload.duplicate());
        match ping.mask {
            Some(m) => {
                response = response.set_mask(m);
            },
            None => {},
        }
        response.opcode = Opcode::Pong;
        response.build()
    }
}

} // verus!
