//! SHA-256 as the hash collaborator: an arbitrary-length byte sequence in, a
//! fixed 32-byte digest out, processed in 64-byte blocks with standard bit
//! padding. The compression schedule itself is outside the arithmetic core's
//! contracts; the interface promises the streaming shape and the digest width.

use vstd::prelude::*;

verus! {

/// Streaming SHA-256 state: the eight working words, the current partial
/// block, and the running bit count of everything absorbed so far.
pub struct Sha256 {
    pub(crate) state: Vec<u32>,
    pub(crate) buf: Vec<u8>,
    pub(crate) bit_len: u64,
    pub(crate) message: Ghost<Seq<u8>>,
}

/// Truncating 32-bit addition.
fn wadd(a: u32, b: u32) -> (r: u32) {
    (((a as u64) + (b as u64)) % 0x1_0000_0000) as u32
}

/// Rotate right within 32 bits.
fn rotr(x: u32, n: u32) -> (r: u32)
    requires
        1 <= n < 32,
{
    (x >> n) | (x << ((32 - n) as u32))
}

/// One compression round over a 64-byte block.
fn compress(state: &Vec<u32>, chunk: &Vec<u8>) -> (r: Vec<u32>)
    requires
        state@.len() == 8,
        chunk@.len() == 64,
    ensures
        r@.len() == 8,
{
    let kt: [u32; 64] = [
        0x428a2f98, 0x71374491, 0xb5c0fbcf, 0xe9b5dba5, 0x3956c25b, 0x59f111f1, 0x923f82a4,
        0xab1c5ed5, 0xd807aa98, 0x12835b01, 0x243185be, 0x550c7dc3, 0x72be5d74, 0x80deb1fe,
        0x9bdc06a7, 0xc19bf174, 0xe49b69c1, 0xefbe4786, 0x0fc19dc6, 0x240ca1cc, 0x2de92c6f,
        0x4a7484aa, 0x5cb0a9dc, 0x76f988da, 0x983e5152, 0xa831c66d, 0xb00327c8, 0xbf597fc7,
        0xc6e00bf3, 0xd5a79147, 0x06ca6351, 0x14292967, 0x27b70a85, 0x2e1b2138, 0x4d2c6dfc,
        0x53380d13, 0x650a7354, 0x766a0abb, 0x81c2c92e, 0x92722c85, 0xa2bfe8a1, 0xa81a664b,
        0xc24b8b70, 0xc76c51a3, 0xd192e819, 0xd6990624, 0xf40e3585, 0x106aa070, 0x19a4c116,
        0x1e376c08, 0x2748774c, 0x34b0bcb5, 0x391c0cb3, 0x4ed8aa4a, 0x5b9cca4f, 0x682e6ff3,
        0x748f82ee, 0x78a5636f, 0x84c87814, 0x8cc70208, 0x90befffa, 0xa4506ceb, 0xbef9a3f7,
        0xc67178f2,
    ];
    let mut w: Vec<u32> = Vec::new();
    let mut i: usize = 0;
    while i < 16
        invariant
            i <= 16,
            w@.len() == i,
            chunk@.len() == 64,
        decreases 16 - i,
    {
        let word: u32 = (chunk[4 * i] as u32) * 0x100_0000 + (chunk[4 * i + 1] as u32) * 0x1_0000
            + (chunk[4 * i + 2] as u32) * 0x100 + (chunk[4 * i + 3] as u32);
        w.push(word);
        i = i + 1;
    }
    while i < 64
        invariant
            16 <= i <= 64,
            w@.len() == i,
        decreases 64 - i,
    {
        let s0 = rotr(w[i - 15], 7) ^ rotr(w[i - 15], 18) ^ (w[i - 15] >> 3u32);
        let s1 = rotr(w[i - 2], 17) ^ rotr(w[i - 2], 19) ^ (w[i - 2] >> 10u32);
        let word = wadd(wadd(w[i - 16], s0), wadd(w[i - 7], s1));
        w.push(word);
        i = i + 1;
    }
    let mut a = state[0];
    let mut b = state[1];
    let mut c = state[2];
    let mut d = state[3];
    let mut e = state[4];
    let mut f = state[5];
    let mut g = state[6];
    let mut h = state[7];
    let mut t: usize = 0;
    while t < 64
        invariant
            t <= 64,
            w@.len() == 64,
        decreases 64 - t,
    {
        let s1 = rotr(e, 6) ^ rotr(e, 11) ^ rotr(e, 25);
        let ch = (e & f) ^ ((!e) & g);
        let temp1 = wadd(wadd(wadd(h, s1), wadd(ch, kt[t])), w[t]);
        let s0 = rotr(a, 2) ^ rotr(a, 13) ^ rotr(a, 22);
        let maj = (a & b) ^ (a & c) ^ (b & c);
        let temp2 = wadd(s0, maj);
        h = g;
        g = f;
        f = e;
        e = wadd(d, temp1);
        d = c;
        c = b;
        b = a;
        a = wadd(temp1, temp2);
        t = t + 1;
    }
    let mut out: Vec<u32> = Vec::new();
    out.push(wadd(state[0], a));
    out.push(wadd(state[1], b));
    out.push(wadd(state[2], c));
    out.push(wadd(state[3], d));
    out.push(wadd(state[4], e));
    out.push(wadd(state[5], f));
    out.push(wadd(state[6], g));
    out.push(wadd(state[7], h));
    out
}

impl Sha256 {
    /// The hasher's structural invariant: eight state words and a partial
    /// block below the block size.
    pub open(crate) spec fn wf(&self) -> bool {
        self.state@.len() == 8 && self.buf@.len() < 64
    }

    /// The bytes absorbed so far, as a specification-level view.
    pub open(crate) spec fn absorbed(&self) -> Seq<u8> {
        self.message@
    }

    /// Bits absorbed so far.
    pub open(crate) spec fn bits(&self) -> nat {
        self.bit_len as nat
    }

    /// A fresh hasher with the standard initial state.
    pub fn new() -> (r: Sha256)
        ensures
            r.wf(),
            r.absorbed() == Seq::<u8>::empty(),
            r.bits() == 0,
    {
        let mut state: Vec<u32> = Vec::new();
        state.push(0x6a09e667);
        state.push(0xbb67ae85);
        state.push(0x3c6ef372);
        state.push(0xa54ff53a);
        state.push(0x510e527f);
        state.push(0x9b05688c);
        state.push(0x1f83d9ab);
        state.push(0x5be0cd19);
        Sha256 { state, buf: Vec::new(), bit_len: 0, message: Ghost(Seq::empty()) }
    }

    /// Absorb bytes, compressing each full 64-byte block as it completes.
    pub fn update(&mut self, data: &[u8])
        requires
            old(self).wf(),
            old(self).bits() + data@.len() * 8 <= u64::MAX,
        ensures
            final(self).wf(),
            final(self).absorbed() == old(self).absorbed() + data@,
            final(self).bits() == old(self).bits() + data@.len() * 8,
    {
        let mut i: usize = 0;
        while i < data.len()
            invariant
                i <= data@.len(),
                self.wf(),
                self.absorbed() == old(self).absorbed() + data@.take(i as int),
                self.bits() == old(self).bits() + i * 8,
                old(self).bits() + data@.len() * 8 <= u64::MAX,
            decreases data@.len() - i,
        {
            self.buf.push(data[i]);
            self.bit_len = self.bit_len + 8;
            proof {
                self.message@ = self.message@.push(data@[i as int]);
                assert(old(self).absorbed() + data@.take(i + 1) =~= (old(self).absorbed()
                    + data@.take(i as int)).push(data@[i as int]));
            }
            if self.buf.len() == 64 {
                let next = compress(&self.state, &self.buf);
                self.state = next;
                self.buf = Vec::new();
            }
            i = i + 1;
        }
        proof {
            assert(data@.take(data@.len() as int) =~= data@);
        }
    }

    /// Pad with a single 1 bit, zeros, and the 64-bit big-endian bit length,
    /// compress what remains, and emit the 32-byte digest.
    pub fn finalize(self) -> (r: Vec<u8>)
        requires
            self.wf(),
        ensures
            r@.len() == 32,
    {
        let mut buf = self.buf;
        let mut state = self.state;
        buf.push(0x80);
        while buf.len() % 64 != 56
            invariant
                1 <= buf@.len() <= 120,
            decreases 120 - buf@.len(),
        {
            proof {
                if buf@.len() >= 120 {
                    assert(buf@.len() == 120);
                    assert(buf@.len() % 64 == 56);
                    assert(false);
                }
            }
            buf.push(0);
        }
        // append the bit length, most significant byte first
        let mut tmp: Vec<u8> = Vec::new();
        let mut bl: u64 = self.bit_len;
        let mut c: usize = 0;
        while c < 8
            invariant
                c <= 8,
                tmp@.len() == c,
            decreases 8 - c,
        {
            tmp.push((bl % 256) as u8);
            bl = bl / 256;
            c = c + 1;
        }
        let mut c2: usize = 8;
        while c2 > 0
            invariant
                c2 <= 8,
                tmp@.len() == 8,
                buf@.len() == 56 + (8 - c2) || buf@.len() == 120 + (8 - c2),
            decreases c2,
        {
            c2 = c2 - 1;
            buf.push(tmp[c2]);
        }
        // one or two remaining blocks
        let mut pos: usize = 0;
        while pos + 64 <= buf.len()
            invariant
                state@.len() == 8,
                buf@.len() == 64 || buf@.len() == 128,
                pos <= buf@.len(),
                pos % 64 == 0,
            decreases buf@.len() - pos,
        {
            let mut block: Vec<u8> = Vec::new();
            let mut j: usize = 0;
            while j < 64
                invariant
                    j <= 64,
                    block@.len() == j,
                    pos + 64 <= buf@.len(),
                    buf@.len() == 64 || buf@.len() == 128,
                decreases 64 - j,
            {
                block.push(buf[pos + j]);
                j = j + 1;
            }
            let next = compress(&state, &block);
            state = next;
            pos = pos + 64;
        }
        let mut out: Vec<u8> = Vec::new();
        let mut k: usize = 0;
        while k < 8
            invariant
                k <= 8,
                state@.len() == 8,
                out@.len() == 4 * k,
            decreases 8 - k,
        {
            let word = state[k];
            out.push(((word / 0x100_0000) % 256) as u8);
            out.push(((word / 0x1_0000) % 256) as u8);
            out.push(((word / 0x100) % 256) as u8);
            out.push((word % 256) as u8);
            k = k + 1;
        }
        out
    }
}

} // verus!
