use vstd::prelude::*;
use crate::frame::{be_bytes, push_be};

verus! {

pub type State = (u32, u32, u32, u32, u32);

pub open spec fn rotl(x: u32, n: u32) -> u32 {
    (x << n) | (x >> (32 - n) as u32)
}

pub open spec fn add32(a: u32, b: u32) -> u32 {
    ((a as nat + b as nat) % 0x1_0000_0000) as u32
}

/// The big-endian 32-bit word at `b[at..at + 4]`.
pub open spec fn be32(b: Seq<u8>, at: int) -> u32 {
    ((b[at] as u32) << 24u32) | ((b[at + 1] as u32) << 16u32) | ((b[at + 2] as u32) << 8u32) | (b[at + 3] as u32)
}

/// Word `t` of the message schedule of a 64-byte block.
pub open spec fn schedule(block: Seq<u8>, t: nat) -> u32
    decreases t,
{
    if t < 16 {
        be32(block, 4 * t as int)
    } else {
        rotl(
            schedule(block, (t - 3) as nat) ^ schedule(block, (t - 8) as nat) ^ schedule(block, (t - 14) as nat)
                ^ schedule(block, (t - 16) as nat),
            1,
        )
    }
}

/// The round function and constant of round `t`.
pub open spec fn round_fk(t: nat, b: u32, c: u32, d: u32) -> (u32, u32) {
    if t < 20 {
        ((b & c) | (!b & d), 0x5A827999u32)
    } else if t < 40 {
        (b ^ c ^ d, 0x6ED9EBA1u32)
    } else if t < 60 {
        ((b & c) | (b & d) | (c & d), 0x8F1BBCDCu32)
    } else {
        (b ^ c ^ d, 0xCA62C1D6u32)
    }
}

/// The working variables after the first `t` rounds on a block.
pub open spec fn rounds(block: Seq<u8>, h: State, t: nat) -> State
    decreases t,
{
    if t == 0 {
        h
    } else {
        let s = rounds(block, h, (t - 1) as nat);
        let (f, k) = round_fk((t - 1) as nat, s.1, s.2, s.3);
        let temp = add32(add32(add32(add32(rotl(s.0, 5), f), s.4), k), schedule(block, (t - 1) as nat));
        (temp, s.0, rotl(s.1, 30), s.2, s.3)
    }
}

pub open spec fn compress(h: State, block: Seq<u8>) -> State {
    let s = rounds(block, h, 80);
    (add32(h.0, s.0), add32(h.1, s.1), add32(h.2, s.2), add32(h.3, s.3), add32(h.4, s.4))
}

pub open spec fn initial_state() -> State {
    (0x67452301u32, 0xEFCDAB89u32, 0x98BADCFEu32, 0x10325476u32, 0xC3D2E1F0u32)
}

/// The message, a 1 bit, zeros up to 8 bytes short of a multiple of 64
/// bytes, and the bit length in 8 big-endian bytes.
pub open spec fn pad(m: Seq<u8>) -> Seq<u8> {
    let z = ((64 - (m.len() + 9) % 64) % 64) as nat;
    m + seq![0x80u8] + Seq::new(z, |i: int| 0u8) + be_bytes(8 * m.len(), 8)
}

/// The state after the first `n` blocks of `p`.
pub open spec fn hash_blocks(p: Seq<u8>, n: nat) -> State
    decreases n,
{
    if n == 0 {
        initial_state()
    } else {
        compress(hash_blocks(p, (n - 1) as nat), p.subrange(64 * (n - 1), 64 * n as int))
    }
}

pub open spec fn digest(h: State) -> Seq<u8> {
    be_bytes(h.0 as nat, 4) + be_bytes(h.1 as nat, 4) + be_bytes(h.2 as nat, 4) + be_bytes(h.3 as nat, 4)
        + be_bytes(h.4 as nat, 4)
}

/// The SHA-1 digest of a message.
pub open spec fn sha1_spec(m: Seq<u8>) -> Seq<u8> {
    let p = pad(m);
    digest(hash_blocks(p, p.len() / 64))
}

fn rotl_exec(x: u32, n: u32) -> (r: u32)
    requires
        0 < n < 32,
    ensures
        r == rotl(x, n),
{
    (x << n) | (x >> (32 - n))
}

fn add_wrap(a: u32, b: u32) -> (r: u32)
    ensures
        r == add32(a, b),
{
    ((a as u64 + b as u64) % 0x1_0000_0000) as u32
}

/// One block of the compression: the state after it.
fn compress_block(h: State, p: &Vec<u8>, at: usize) -> (r: State)
    requires
        at + 64 <= p.len(),
    ensures
        r == compress(h, p@.subrange(at as int, at + 64)),
{
    let ghost block = p@.subrange(at as int, at + 64);
    let mut words: Vec<u32> = Vec::new();
    let mut t: usize = 0;
    while t < 80
        invariant
            at + 64 <= p.len(),
            block == p@.subrange(at as int, at + 64),
            t <= 80,
            words@.len() == t,
            forall|k: int| 0 <= k < t ==> #[trigger] words@[k] == schedule(block, k as nat),
        decreases 80 - t,
    {
        if t < 16 {
            let o = at + 4 * t;
            assert(block[4 * t as int] == p@[o as int] && block[4 * t + 1] == p@[o + 1] && block[4 * t + 2]
                == p@[o + 2] && block[4 * t + 3] == p@[o + 3]);
            let w = ((p[o] as u32) << 24u32) | ((p[o + 1] as u32) << 16u32) | ((p[o + 2] as u32) << 8u32) | (p[o + 3] as u32);
            words.push(w);
        } else {
            let x = words[t - 3] ^ words[t - 8] ^ words[t - 14] ^ words[t - 16];
            words.push(rotl_exec(x, 1));
        }
        t = t + 1;
    }
    let mut s: State = h;
    let mut i: usize = 0;
    while i < 80
        invariant
            i <= 80,
            words@.len() == 80,
            forall|k: int| 0 <= k < 80 ==> #[trigger] words@[k] == schedule(block, k as nat),
            s == rounds(block, h, i as nat),
        decreases 80 - i,
    {
        let (a, b, c, d, e) = s;
        let (f, k) = if i < 20 {
            ((b & c) | (!b & d), 0x5A827999u32)
        } else if i < 40 {
            (b ^ c ^ d, 0x6ED9EBA1u32)
        } else if i < 60 {
            ((b & c) | (b & d) | (c & d), 0x8F1BBCDCu32)
        } else {
            (b ^ c ^ d, 0xCA62C1D6u32)
        };
        let temp = add_wrap(add_wrap(add_wrap(add_wrap(rotl_exec(a, 5), f), e), k), words[i]);
        s = (temp, a, rotl_exec(b, 30), c, d);
        i = i + 1;
    }
    let (a, b, c, d, e) = s;
    (add_wrap(h.0, a), add_wrap(h.1, b), add_wrap(h.2, c), add_wrap(h.3, d), add_wrap(h.4, e))
}

/// The SHA-1 digest of the bytes.
pub fn sha1(data: &[u8]) -> (r: [u8; 20])
    requires
        data@.len() < 0x2000_0000_0000_0000,
    ensures
        r@ == sha1_spec(data@),
{
    let len = data.len();
    let mut prepared: Vec<u8> = Vec::new();
    let mut i: usize = 0;
    while i < len
        invariant
            i <= len == data@.len(),
            prepared@ == data@.subrange(0, i as int),
        decreases len - i,
    {
        prepared.push(data[i]);
        assert(prepared@ =~= data@.subrange(0, i + 1));
        i = i + 1;
    }
    prepared.push(0x80u8);
    let z: usize = (64 - (len % 64 + 9) % 64) % 64;
    assert((len % 64 + 9) % 64 == (len + 9) % 64) by (nonlinear_arith);
    let ghost zeros_start = prepared@;
    let mut j: usize = 0;
    while j < z
        invariant
            j <= z < 64,
            prepared@ == zeros_start + Seq::new(j as nat, |k: int| 0u8),
        decreases z - j,
    {
        prepared.push(0u8);
        assert(prepared@ =~= zeros_start + Seq::new((j + 1) as nat, |k: int| 0u8));
        j = j + 1;
    }
    push_be(&mut prepared, (len as u64) * 8, 8);
    assert(prepared@ =~= pad(data@));
    let blocks = prepared.len() / 64;
    let mut h: State = (0x67452301u32, 0xEFCDAB89u32, 0x98BADCFEu32, 0x10325476u32, 0xC3D2E1F0u32);
    let mut b: usize = 0;
    while b < blocks
        invariant
            b <= blocks == prepared.len() / 64,
            prepared@ == pad(data@),
            h == hash_blocks(prepared@, b as nat),
        decreases blocks - b,
    {
        assert(64 * b + 64 <= prepared@.len()) by (nonlinear_arith)
            requires
                b < blocks,
                blocks == prepared@.len() / 64,
        ;
        h = compress_block(h, &prepared, 64 * b);
        b = b + 1;
    }
    let mut out: Vec<u8> = Vec::new();
    push_be(&mut out, h.0 as u64, 4);
    push_be(&mut out, h.1 as u64, 4);
    push_be(&mut out, h.2 as u64, 4);
    push_be(&mut out, h.3 as u64, 4);
    push_be(&mut out, h.4 as u64, 4);
    assert(out@ =~= digest(h));
    proof {
        crate::frame::lemma_be_bytes_len(h.0 as nat, 4);
        crate::frame::lemma_be_bytes_len(h.1 as nat, 4);
        crate::frame::lemma_be_bytes_len(h.2 as nat, 4);
        crate::frame::lemma_be_bytes_len(h.3 as nat, 4);
        crate::frame::lemma_be_bytes_len(h.4 as nat, 4);
    }
    let ret: [u8; 20] = [
        out[0], out[1], out[2], out[3], out[4], out[5], out[6], out[7], out[8], out[9],
        out[10], out[11], out[12], out[13], out[14], out[15], out[16], out[17], out[18], out[19],
    ];
    assert(ret@ =~= out@);
    ret
}

} // verus!
