//! The 128-bit hash that selects a key's page and probe bits.
use vstd::prelude::*;
use vstd::wrapping::u64_specs;

verus! {

/// The constant that seeds two accumulators and pads messages whose length is a multiple of 16.
pub const MAGIC: u64 = 0xdeadbeefdeadbeef;

/// Left rotation of a 64-bit word, for `0 < k < 64`.
pub open spec fn rotl64(x: u64, k: u64) -> u64 {
    (x << k) | (x >> (64 - k) as u64)
}

/// Wrapping addition of two 64-bit words.
pub open spec fn wadd(x: u64, y: u64) -> u64 {
    u64_specs::wrapping_add(x, y)
}

fn rot(x: u64, k: u64) -> (r: u64)
    requires
        0 < k < 64,
    ensures
        r == rotl64(x, k),
{
    (x << k) | (x >> (64 - k))
}

/// The four accumulators of one hash computation.
#[derive(Clone, Copy)]
pub struct State {
    pub a: u64,
    pub b: u64,
    pub c: u64,
    pub d: u64,
}

/// The block transform: twelve rotate-add-xor rounds over `c, d, a, b` in turn.
pub open spec fn mix_spec(s: State) -> State {
    let c = wadd(rotl64(s.c, 50), s.d);
    let a = s.a ^ c;
    let d = wadd(rotl64(s.d, 52), a);
    let b = s.b ^ d;
    let a = wadd(rotl64(a, 30), b);
    let c = c ^ a;
    let b = wadd(rotl64(b, 41), c);
    let d = d ^ b;
    let c = wadd(rotl64(c, 54), d);
    let a = a ^ c;
    let d = wadd(rotl64(d, 48), a);
    let b = b ^ d;
    let a = wadd(rotl64(a, 38), b);
    let c = c ^ a;
    let b = wadd(rotl64(b, 37), c);
    let d = d ^ b;
    let c = wadd(rotl64(c, 62), d);
    let a = a ^ c;
    let d = wadd(rotl64(d, 34), a);
    let b = b ^ d;
    let a = wadd(rotl64(a, 5), b);
    let c = c ^ a;
    let b = wadd(rotl64(b, 36), c);
    let d = d ^ b;
    State { a, b, c, d }
}

/// The finalisation: eleven xor-rotate-add rounds over the pairs `(d,c), (a,d), (b,a), (c,b)` in turn.
pub open spec fn end_spec(s: State) -> State {
    let d = s.d ^ s.c;
    let c = rotl64(s.c, 15);
    let d = wadd(d, c);
    let a = s.a ^ d;
    let d = rotl64(d, 52);
    let a = wadd(a, d);
    let b = s.b ^ a;
    let a = rotl64(a, 26);
    let b = wadd(b, a);
    let c = c ^ b;
    let b = rotl64(b, 51);
    let c = wadd(c, b);
    let d = d ^ c;
    let c = rotl64(c, 28);
    let d = wadd(d, c);
    let a = a ^ d;
    let d = rotl64(d, 9);
    let a = wadd(a, d);
    let b = b ^ a;
    let a = rotl64(a, 47);
    let b = wadd(b, a);
    let c = c ^ b;
    let b = rotl64(b, 54);
    let c = wadd(c, b);
    let d = d ^ c;
    let c = rotl64(c, 32);
    let d = wadd(d, c);
    let a = a ^ d;
    let d = rotl64(d, 25);
    let a = wadd(a, d);
    let b = b ^ a;
    let a = rotl64(a, 63);
    let b = wadd(b, a);
    State { a, b, c, d }
}

impl State {
    /// Applies the block transform in place.
    pub fn mix(&mut self)
        ensures
            *final(self) == mix_spec(*old(self)),
    {
        self.c = rot(self.c, 50);
        self.c = self.c.wrapping_add(self.d);
        self.a = self.a ^ self.c;
        self.d = rot(self.d, 52);
        self.d = self.d.wrapping_add(self.a);
        self.b = self.b ^ self.d;
        self.a = rot(self.a, 30);
        self.a = self.a.wrapping_add(self.b);
        self.c = self.c ^ self.a;
        self.b = rot(self.b, 41);
        self.b = self.b.wrapping_add(self.c);
        self.d = self.d ^ self.b;
        self.c = rot(self.c, 54);
        self.c = self.c.wrapping_add(self.d);
        self.a = self.a ^ self.c;
        self.d = rot(self.d, 48);
        self.d = self.d.wrapping_add(self.a);
        self.b = self.b ^ self.d;
        self.a = rot(self.a, 38);
        self.a = self.a.wrapping_add(self.b);
        self.c = self.c ^ self.a;
        self.b = rot(self.b, 37);
        self.b = self.b.wrapping_add(self.c);
        self.d = self.d ^ self.b;
        self.c = rot(self.c, 62);
        self.c = self.c.wrapping_add(self.d);
        self.a = self.a ^ self.c;
        self.d = rot(self.d, 34);
        self.d = self.d.wrapping_add(self.a);
        self.b = self.b ^ self.d;
        self.a = rot(self.a, 5);
        self.a = self.a.wrapping_add(self.b);
        self.c = self.c ^ self.a;
        self.b = rot(self.b, 36);
        self.b = self.b.wrapping_add(self.c);
        self.d = self.d ^ self.b;
    }

    /// Applies the finalisation in place.
    pub fn end(&mut self)
        ensures
            *final(self) == end_spec(*old(self)),
    {
        self.d = self.d ^ self.c;
        self.c = rot(self.c, 15);
        self.d = self.d.wrapping_add(self.c);
        self.a = self.a ^ self.d;
        self.d = rot(self.d, 52);
        self.a = self.a.wrapping_add(self.d);
        self.b = self.b ^ self.a;
        self.a = rot(self.a, 26);
        self.b = self.b.wrapping_add(self.a);
        self.c = self.c ^ self.b;
        self.b = rot(self.b, 51);
        self.c = self.c.wrapping_add(self.b);
        self.d = self.d ^ self.c;
        self.c = rot(self.c, 28);
        self.d = self.d.wrapping_add(self.c);
        self.a = self.a ^ self.d;
        self.d = rot(self.d, 9);
        self.a = self.a.wrapping_add(self.d);
        self.b = self.b ^ self.a;
        self.a = rot(self.a, 47);
        self.b = self.b.wrapping_add(self.a);
        self.c = self.c ^ self.b;
        self.b = rot(self.b, 54);
        self.c = self.c.wrapping_add(self.b);
        self.d = self.d ^ self.c;
        self.c = rot(self.c, 32);
        self.d = self.d.wrapping_add(self.c);
        self.a = self.a ^ self.d;
        self.d = rot(self.d, 25);
        self.a = self.a.wrapping_add(self.d);
        self.b = self.b ^ self.a;
        self.a = rot(self.a, 63);
        self.b = self.b.wrapping_add(self.a);
    }
}


/// `256^k`.
pub open spec fn pow256(k: nat) -> nat
    decreases k,
{
    if k == 0 {
        1
    } else {
        256 * pow256((k - 1) as nat)
    }
}

/// The little-endian value of a byte sequence.
pub open spec fn le_value(s: Seq<u8>) -> nat
    decreases s.len(),
{
    if s.len() == 0 {
        0
    } else {
        s[0] as nat + 256 * le_value(s.drop_first())
    }
}

/// The little-endian word made of `msg[lo..hi]` (at most eight bytes).
pub open spec fn le_word(msg: Seq<u8>, lo: int, hi: int) -> u64 {
    le_value(msg.subrange(lo, hi)) as u64
}

/// Adds the 16 bytes at `off` to `c` and `d`, then mixes.
pub open spec fn absorb_half(s: State, msg: Seq<u8>, off: int) -> State {
    mix_spec(
        State {
            c: wadd(s.c, le_word(msg, off, off + 8)),
            d: wadd(s.d, le_word(msg, off + 8, off + 16)),
            ..s
        },
    )
}

/// Absorbs the 32-byte block at `off`.
pub open spec fn absorb_block(s: State, msg: Seq<u8>, off: int) -> State {
    let t = absorb_half(s, msg, off);
    State {
        a: wadd(t.a, le_word(msg, off + 16, off + 24)),
        b: wadd(t.b, le_word(msg, off + 24, off + 32)),
        ..t
    }
}

/// The starting state.
pub open spec fn init_state() -> State {
    State { a: 0, b: 0, c: MAGIC, d: MAGIC }
}

/// The state after the first `n` 32-byte blocks of `msg`.
pub open spec fn absorb_blocks(msg: Seq<u8>, n: nat) -> State
    decreases n,
{
    if n == 0 {
        init_state()
    } else {
        absorb_block(absorb_blocks(msg, (n - 1) as nat), msg, 32 * (n - 1))
    }
}

/// Folds the last `len % 16` bytes (starting at `off`) into `c` and `d`.
pub open spec fn absorb_tail(s: State, msg: Seq<u8>, off: int) -> State {
    let len = msg.len() as int;
    if len == off {
        State { c: wadd(s.c, MAGIC), d: wadd(s.d, MAGIC), ..s }
    } else if len - off < 8 {
        State { c: wadd(s.c, le_word(msg, off, len)), ..s }
    } else {
        State {
            c: wadd(s.c, le_word(msg, off, off + 8)),
            d: wadd(s.d, le_word(msg, off + 8, len)),
            ..s
        }
    }
}

/// The 128-bit hash of `msg`, as its two 64-bit words.
pub open spec fn hash_spec(msg: Seq<u8>) -> (u64, u64) {
    let len = msg.len() as int;
    let off = 32 * (len / 32);
    let s = absorb_blocks(msg, (len / 32) as nat);
    let s = if len - off >= 16 {
        absorb_half(s, msg, off)
    } else {
        s
    };
    let off = if len - off >= 16 {
        off + 16
    } else {
        off
    };
    let s = State { d: wadd(s.d, (msg.len() as u64) << 56u64), ..s };
    let s = end_spec(absorb_tail(s, msg, off));
    (s.a, s.b)
}

proof fn lemma_pow256_mono(a: nat, b: nat)
    requires
        a <= b,
    ensures
        pow256(a) <= pow256(b),
    decreases b,
{
    if a < b {
        lemma_pow256_mono(a, (b - 1) as nat);
    }
}

proof fn lemma_le_value_bound(s: Seq<u8>)
    ensures
        le_value(s) < pow256(s.len()),
    decreases s.len(),
{
    if s.len() > 0 {
        lemma_le_value_bound(s.drop_first());
        let v = le_value(s.drop_first());
        let p = pow256(s.drop_first().len());
        let b = s[0] as nat;
        assert(b + 256 * v < 256 * p) by (nonlinear_arith)
            requires
                v < p,
                b < 256,
        ;
    }
}

/// Reads `n <= 8` bytes at `lo` as a little-endian word.
fn load_le(data: &[u8], lo: usize, n: usize) -> (r: u64)
    requires
        n <= 8,
        lo + n <= data.len(),
    ensures
        r == le_word(data@, lo as int, lo + n),
{
    let mut v: u64 = 0;
    let mut i: usize = n;
    while i > 0
        invariant
            i <= n <= 8,
            lo + n <= data.len(),
            v as nat == le_value(data@.subrange(lo + i, lo + n)),
        decreases i,
    {
        i -= 1;
        let ghost tail = data@.subrange(lo + i + 1, lo + n);
        proof {
            assert(data@.subrange(lo + i, lo + n).drop_first() =~= tail);
            lemma_le_value_bound(tail);
            lemma_pow256_mono(tail.len(), 7);
            reveal_with_fuel(pow256, 8);
            assert(pow256(7) == 0x100000000000000);
        }
        v = v * 256 + data[lo + i] as u64;
    }
    v
}

/// The 128-bit hash of `msg`: two 64-bit words.
pub fn hash128(msg: &[u8]) -> (r: [u64; 2])
    ensures
        r[0] == hash_spec(msg@).0,
        r[1] == hash_spec(msg@).1,
{
    let len = msg.len();
    let mut s = State { a: 0, b: 0, c: MAGIC, d: MAGIC };
    let mut off: usize = 0;
    let ghost mut k: nat = 0;
    while len - off >= 32
        invariant
            len == msg@.len(),
            off <= len,
            off == 32 * k,
            s == absorb_blocks(msg@, k),
        decreases len - off,
    {
        s.c = s.c.wrapping_add(load_le(msg, off, 8));
        s.d = s.d.wrapping_add(load_le(msg, off + 8, 8));
        s.mix();
        s.a = s.a.wrapping_add(load_le(msg, off + 16, 8));
        s.b = s.b.wrapping_add(load_le(msg, off + 24, 8));
        off += 32;
        proof {
            k = k + 1;
        }
    }
    assert(k == len as int / 32);
    if len - off >= 16 {
        s.c = s.c.wrapping_add(load_le(msg, off, 8));
        s.d = s.d.wrapping_add(load_le(msg, off + 8, 8));
        s.mix();
        off += 16;
    }
    s.d = s.d.wrapping_add((len as u64) << 56);
    let rest = len - off;
    if rest == 0 {
        s.c = s.c.wrapping_add(MAGIC);
        s.d = s.d.wrapping_add(MAGIC);
    } else if rest < 8 {
        s.c = s.c.wrapping_add(load_le(msg, off, rest));
    } else {
        s.c = s.c.wrapping_add(load_le(msg, off, 8));
        s.d = s.d.wrapping_add(load_le(msg, off + 8, rest - 8));
    }
    s.end();
    [s.a, s.b]
}

/// The hash is a function of the message bytes alone: equal messages hash equally, on every call.
pub proof fn lemma_hash_deterministic(m1: Seq<u8>, m2: Seq<u8>)
    requires
        m1 == m2,
    ensures
        hash_spec(m1) == hash_spec(m2),
{
}

} // verus!
