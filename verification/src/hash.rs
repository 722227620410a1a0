//! A 128-bit hash of byte strings (SpookyHash V2, short-message form) used to
//! place map keys in the perfect-hash index.

use vstd::prelude::*;
use vstd::wrapping::u64_specs::wrapping_add;

verus! {

/// The constant that seeds two of the four lanes.
pub open spec fn magic() -> u64 {
    0xdead_beef_dead_beef
}

/// The four 64-bit lanes of the hash state.
pub type State = (u64, u64, u64, u64);

/// Left rotation of a 64-bit word by `k` bits, `0 < k < 64`.
pub open spec fn rot(x: u64, k: u64) -> u64 {
    (x << k) | (x >> (64 - k) as u64)
}

/// One mixing round: rotate, add and xor across the four lanes.
pub open spec fn spec_mix(s: State) -> State {
    let (a, b, c, d) = s;
    let c = wrapping_add(rot(c, 50), d);
    let a = a ^ c;
    let d = wrapping_add(rot(d, 52), a);
    let b = b ^ d;
    let a = wrapping_add(rot(a, 30), b);
    let c = c ^ a;
    let b = wrapping_add(rot(b, 41), c);
    let d = d ^ b;
    let c = wrapping_add(rot(c, 54), d);
    let a = a ^ c;
    let d = wrapping_add(rot(d, 48), a);
    let b = b ^ d;
    let a = wrapping_add(rot(a, 38), b);
    let c = c ^ a;
    let b = wrapping_add(rot(b, 37), c);
    let d = d ^ b;
    let c = wrapping_add(rot(c, 62), d);
    let a = a ^ c;
    let d = wrapping_add(rot(d, 34), a);
    let b = b ^ d;
    let a = wrapping_add(rot(a, 5), b);
    let c = c ^ a;
    let b = wrapping_add(rot(b, 36), c);
    let d = d ^ b;
    (a, b, c, d)
}

/// The final avalanche over the four lanes.
pub open spec fn spec_end(s: State) -> State {
    let (a, b, c, d) = s;
    let d = d ^ c;
    let c = rot(c, 15);
    let d = wrapping_add(d, c);
    let a = a ^ d;
    let d = rot(d, 52);
    let a = wrapping_add(a, d);
    let b = b ^ a;
    let a = rot(a, 26);
    let b = wrapping_add(b, a);
    let c = c ^ b;
    let b = rot(b, 51);
    let c = wrapping_add(c, b);
    let d = d ^ c;
    let c = rot(c, 28);
    let d = wrapping_add(d, c);
    let a = a ^ d;
    let d = rot(d, 9);
    let a = wrapping_add(a, d);
    let b = b ^ a;
    let a = rot(a, 47);
    let b = wrapping_add(b, a);
    let c = c ^ b;
    let b = rot(b, 54);
    let c = wrapping_add(c, b);
    let d = d ^ c;
    let c = rot(c, 32);
    let d = wrapping_add(d, c);
    let a = a ^ d;
    let d = rot(d, 25);
    let a = wrapping_add(a, d);
    let b = b ^ a;
    let a = rot(a, 63);
    let b = wrapping_add(b, a);
    (a, b, c, d)
}

/// The `n` bytes of `msg` from `start` read as a little-endian integer.
pub open spec fn le_bytes(msg: Seq<u8>, start: int, n: nat) -> u64
    decreases n,
{
    if n == 0 {
        0
    } else {
        (msg[start] as u64) | (le_bytes(msg, start + 1, (n - 1) as nat) << 8u64)
    }
}

/// The state after the first `k` 32-byte blocks of `msg`.
pub open spec fn spec_blocks(msg: Seq<u8>, seed: u64, k: nat) -> State
    decreases k,
{
    if k == 0 {
        (seed, seed, magic(), magic())
    } else {
        let (a, b, c, d) = spec_blocks(msg, seed, (k - 1) as nat);
        let off = 32 * (k - 1);
        let c = wrapping_add(c, le_bytes(msg, off, 8));
        let d = wrapping_add(d, le_bytes(msg, off + 8int, 8));
        let (a, b, c, d) = spec_mix((a, b, c, d));
        let a = wrapping_add(a, le_bytes(msg, off + 16, 8));
        let b = wrapping_add(b, le_bytes(msg, off + 24, 8));
        (a, b, c, d)
    }
}

/// The final state of the hash of `msg` under `seed`.
pub open spec fn spec_hash_state(msg: Seq<u8>, seed: u64) -> State {
    let n = msg.len();
    let k = n / 32;
    let s0 = spec_blocks(msg, seed, k);
    let off = 32 * k;
    let s1 = if n % 32 >= 16 {
        let (a, b, c, d) = s0;
        let c = wrapping_add(c, le_bytes(msg, off as int, 8));
        let d = wrapping_add(d, le_bytes(msg, off + 8int, 8));
        spec_mix((a, b, c, d))
    } else {
        s0
    };
    let off2 = if n % 32 >= 16 {
        off + 16
    } else {
        off
    };
    let rem = (n - off2) as nat;
    let (a, b, c, d) = s1;
    let d = wrapping_add(d, (n as u64) << 56u64);
    let (c, d) = if rem == 0 {
        (wrapping_add(c, magic()), wrapping_add(d, magic()))
    } else if rem > 8 {
        (wrapping_add(c, le_bytes(msg, off2 as int, 8)), wrapping_add(d, le_bytes(msg, off2 + 8int, (rem - 8) as nat)))
    } else {
        (wrapping_add(c, le_bytes(msg, off2 as int, rem)), d)
    };
    spec_end((a, b, c, d))
}

/// The 128-bit hash of `msg` under `seed`, as four 32-bit words.
pub open spec fn spec_hash128(msg: Seq<u8>, seed: u64) -> Seq<u32> {
    let (a, b, c, d) = spec_hash_state(msg, seed);
    seq![(a & 0xffff_ffff) as u32, (a >> 32u64) as u32, (b & 0xffff_ffff) as u32, (b >> 32u64) as u32]
}

/// Hashing starts with the seed in both of the first two lanes and the
/// constant 0xdeadbeefdeadbeef in the other two; the 32-byte blocks are folded
/// in from that state.
pub proof fn lemma_hash_initial_state(msg: Seq<u8>, seed: u64)
    ensures
        spec_blocks(msg, seed, 0) == (seed, seed, 0xdead_beef_dead_beef_u64, 0xdead_beef_dead_beef_u64),
{
}

/// A message shorter than 16 bytes runs no mixing round before the final
/// avalanche, so the seed enters its hash only as the starting value of the
/// first two lanes: under any two seeds the avalanche starts from the same
/// last two lanes, with both first lanes at the seed.
pub proof fn lemma_short_hash_seed_lanes(msg: Seq<u8>, s1: u64, s2: u64)
    requires
        msg.len() < 16,
    ensures
        exists|c: u64, d: u64|
            #![trigger spec_end((s1, s1, c, d))]
            spec_hash_state(msg, s1) == spec_end((s1, s1, c, d)) && spec_hash_state(msg, s2)
                == spec_end((s2, s2, c, d)),
{
    let n = msg.len();
    let d0 = wrapping_add(magic(), (n as u64) << 56u64);
    let (c, d) = if n == 0 {
        (wrapping_add(magic(), magic()), wrapping_add(d0, magic()))
    } else if n > 8 {
        (wrapping_add(magic(), le_bytes(msg, 0, 8)), wrapping_add(d0, le_bytes(msg, 8, (n - 8) as nat)))
    } else {
        (wrapping_add(magic(), le_bytes(msg, 0, n)), d0)
    };
    assert(spec_hash_state(msg, s1) == spec_end((s1, s1, c, d)));
    assert(spec_hash_state(msg, s2) == spec_end((s2, s2, c, d)));
}

fn rot64(x: u64, k: u64) -> (r: u64)
    requires
        0 < k < 64,
    ensures
        r == rot(x, k),
{
    (x << k) | (x >> (64 - k))
}

fn mix(s: State) -> (r: State)
    ensures
        r == spec_mix(s),
{
    let (a, b, c, d) = s;
    let c = rot64(c, 50).wrapping_add(d);
    let a = a ^ c;
    let d = rot64(d, 52).wrapping_add(a);
    let b = b ^ d;
    let a = rot64(a, 30).wrapping_add(b);
    let c = c ^ a;
    let b = rot64(b, 41).wrapping_add(c);
    let d = d ^ b;
    let c = rot64(c, 54).wrapping_add(d);
    let a = a ^ c;
    let d = rot64(d, 48).wrapping_add(a);
    let b = b ^ d;
    let a = rot64(a, 38).wrapping_add(b);
    let c = c ^ a;
    let b = rot64(b, 37).wrapping_add(c);
    let d = d ^ b;
    let c = rot64(c, 62).wrapping_add(d);
    let a = a ^ c;
    let d = rot64(d, 34).wrapping_add(a);
    let b = b ^ d;
    let a = rot64(a, 5).wrapping_add(b);
    let c = c ^ a;
    let b = rot64(b, 36).wrapping_add(c);
    let d = d ^ b;
    (a, b, c, d)
}

fn end(s: State) -> (r: State)
    ensures
        r == spec_end(s),
{
    let (a, b, c, d) = s;
    let d = d ^ c;
    let c = rot64(c, 15);
    let d = d.wrapping_add(c);
    let a = a ^ d;
    let d = rot64(d, 52);
    let a = a.wrapping_add(d);
    let b = b ^ a;
    let a = rot64(a, 26);
    let b = b.wrapping_add(a);
    let c = c ^ b;
    let b = rot64(b, 51);
    let c = c.wrapping_add(b);
    let d = d ^ c;
    let c = rot64(c, 28);
    let d = d.wrapping_add(c);
    let a = a ^ d;
    let d = rot64(d, 9);
    let a = a.wrapping_add(d);
    let b = b ^ a;
    let a = rot64(a, 47);
    let b = b.wrapping_add(a);
    let c = c ^ b;
    let b = rot64(b, 54);
    let c = c.wrapping_add(b);
    let d = d ^ c;
    let c = rot64(c, 32);
    let d = d.wrapping_add(c);
    let a = a ^ d;
    let d = rot64(d, 25);
    let a = a.wrapping_add(d);
    let b = b ^ a;
    let a = rot64(a, 63);
    let b = b.wrapping_add(a);
    (a, b, c, d)
}

fn read_le(msg: &[u8], start: usize, n: usize) -> (r: u64)
    requires
        start + n <= msg@.len(),
        n <= 8,
    ensures
        r == le_bytes(msg@, start as int, n as nat),
    decreases n,
{
    if n == 0 {
        0
    } else {
        (msg[start] as u64) | (read_le(msg, start + 1, n - 1) << 8u64)
    }
}

/// The 128-bit hash of `msg` under `seed`, as four 32-bit words.
pub fn hash128(msg: &[u8], seed: u64) -> (r: [u32; 4])
    ensures
        r@ == spec_hash128(msg@, seed),
{
    let n: usize = msg.len();
    let k: usize = n / 32;
    let mut s: State = (seed, seed, 0xdead_beef_dead_beef, 0xdead_beef_dead_beef);
    let mut i: usize = 0;
    while i < k
        invariant
            n == msg@.len(),
            k == n / 32,
            i <= k,
            s == spec_blocks(msg@, seed, i as nat),
        decreases k - i,
    {
        let off: usize = 32 * i;
        let (a, b, c, d) = s;
        let c = c.wrapping_add(read_le(msg, off, 8));
        let d = d.wrapping_add(read_le(msg, off + 8, 8));
        let (a, b, c, d) = mix((a, b, c, d));
        let a = a.wrapping_add(read_le(msg, off + 16, 8));
        let b = b.wrapping_add(read_le(msg, off + 24, 8));
        s = (a, b, c, d);
        i += 1;
    }
    let mut off: usize = 32 * k;
    if n % 32 >= 16 {
        let (a, b, c, d) = s;
        let c = c.wrapping_add(read_le(msg, off, 8));
        let d = d.wrapping_add(read_le(msg, off + 8, 8));
        s = mix((a, b, c, d));
        off = off + 16;
    }
    let rem: usize = n - off;
    let (a, b, c, d) = s;
    let d = d.wrapping_add((n as u64) << 56u64);
    let (c, d) = if rem == 0 {
        (c.wrapping_add(0xdead_beef_dead_beef), d.wrapping_add(0xdead_beef_dead_beef))
    } else if rem > 8 {
        (c.wrapping_add(read_le(msg, off, 8)), d.wrapping_add(read_le(msg, off + 8, rem - 8)))
    } else {
        (c.wrapping_add(read_le(msg, off, rem)), d)
    };
    let (a, b, _c, _d) = end((a, b, c, d));
    let r: [u32; 4] = [(a & 0xffff_ffff) as u32, (a >> 32u64) as u32, (b & 0xffff_ffff) as u32, (b >> 32u64) as u32];
    assert(r@ =~= spec_hash128(msg@, seed));
    r
}

} // verus!
