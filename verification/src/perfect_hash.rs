//! The perfect-hash index that places map keys: its reader and its builder.

use vstd::prelude::*;
use vstd::string::StringSliceAdditionalSpecFns;
use vstd::arithmetic::div_mod::lemma_fundamental_div_mod_converse;

use crate::hash::{hash128, le_bytes, spec_hash128};
use crate::utils::{CorruptionKind, ReadError};
use crate::words::ByteSource;

verus! {

/// `2^64`.
pub open spec fn pow64() -> int {
    0x1_0000_0000_0000_0000
}

/// The multiplier that turns a remainder by `divisor` into two multiplications.
pub open spec fn spec_fast_mod_magic(divisor: u32) -> u64 {
    (u64::MAX / divisor as u64 + 1) as u64
}

/// The multiplier that turns a remainder by `divisor` into two multiplications.
pub fn fast_mod_magic(divisor: u32) -> (r: u64)
    requires
        divisor >= 2,
    ensures
        r == spec_fast_mod_magic(divisor),
{
    assert(u64::MAX / (divisor as u64) <= u64::MAX / 2) by (nonlinear_arith)
        requires
            divisor >= 2,
    ;
    u64::MAX / divisor as u64 + 1
}

/// `value % divisor` computed from the multiplier of `divisor`.
pub fn fast_mod_u32(value: u32, divisor: u32, magic: u64) -> (r: u32)
    ensures
        r == (((((magic as int) * (value as int)) % pow64()) * (divisor as int)) / pow64()) as u32,
{
    let low: u64 = magic.wrapping_mul(value as u64);
    assert(low == ((magic as int) * (value as int)) % pow64());
    assert((low as int) * (divisor as int) < 0x1_0000_0000_0000_0000_0000_0000) by (nonlinear_arith)
        requires
            low <= u64::MAX,
            divisor <= u32::MAX,
    ;
    let prod: u128 = (low as u128) * (divisor as u128);
    (prod / 0x1_0000_0000_0000_0000u128) as u32
}

/// The multiplier computes exact remainders: for every 32-bit value and every
/// divisor of at least 2, `fast_mod_u32(v, d, fast_mod_magic(d)) == v % d`.
pub proof fn lemma_fast_mod(value: u32, divisor: u32)
    requires
        divisor >= 2,
    ensures
        (((((spec_fast_mod_magic(divisor) as int) * (value as int)) % pow64()) * (divisor as int))
            / pow64()) == (value as int) % (divisor as int),
{
    let d: int = divisor as int;
    let v: int = value as int;
    let p: int = pow64();
    let q0: int = (p - 1) / d;
    let r0: int = (p - 1) % d;
    assert(p - 1 == q0 * d + r0 && 0 <= r0 < d) by (nonlinear_arith)
        requires
            q0 == (p - 1) / d,
            r0 == (p - 1) % d,
            d >= 2,
    ;
    let m: int = q0 + 1;
    assert(q0 <= (p - 1) / 2) by (nonlinear_arith)
        requires
            q0 == (p - 1) / d,
            d >= 2,
            p > 1,
    ;
    assert(spec_fast_mod_magic(divisor) as int == m) by {
        assert(u64::MAX as int == p - 1);
        assert((u64::MAX / (divisor as u64)) as int == q0);
    }
    let e: int = d - 1 - r0;
    assert(m * d == p + e) by (nonlinear_arith)
        requires
            p - 1 == q0 * d + r0,
            m == q0 + 1,
            e == d - 1 - r0,
    ;
    let k: int = (m * v) / p;
    let low: int = (m * v) % p;
    assert(m * v == k * p + low && 0 <= low < p) by (nonlinear_arith)
        requires
            k == (m * v) / p,
            low == (m * v) % p,
            p > 0,
    ;
    assert(low * d == p * (v - k * d) + e * v) by (nonlinear_arith)
        requires
            m * v == k * p + low,
            m * d == p + e,
    ;
    assert(0 <= e * v < p) by (nonlinear_arith)
        requires
            0 <= e < d,
            d <= 0xffff_ffff,
            0 <= v <= 0xffff_ffff,
            p == 0x1_0000_0000_0000_0000,
    ;
    let res: int = (low * d) / p;
    assert(res == v - k * d) by (nonlinear_arith)
        requires
            low * d == p * (v - k * d) + e * v,
            0 <= e * v < p,
            res == (low * d) / p,
            p > 0,
    ;
    assert(0 <= res < d) by (nonlinear_arith)
        requires
            res == (low * d) / p,
            0 <= low < p,
            d > 0,
            p > 0,
    ;
    lemma_fundamental_div_mod_converse(v, d, k, res);
}

/// Number of keys recorded in an index.
pub open spec fn ph_len(data: Seq<u8>) -> nat {
    (le_bytes(data, 0, 4) & 0x0fff_ffff) as nat
}

/// Number of slots in each of the three sections for `len` keys.
pub open spec fn ph_section(len: nat) -> nat {
    let s = (len * 105 + 255) / 256;
    if s < 10 {
        10
    } else {
        s
    }
}

/// Size in bytes of the 2-bit-per-slot bitmap.
pub open spec fn ph_bitmap_size(section: nat) -> nat {
    (section * 3 + 31) / 32 * 8
}

/// Width in bytes of each entry of the rank table.
pub open spec fn ph_table_width(len: nat) -> nat {
    if len > 0xffff {
        4
    } else if len > 0xff {
        2
    } else if len > 24 {
        1
    } else {
        0
    }
}

/// Size in bytes of an index over `len` keys.
pub open spec fn ph_bytes(len: nat) -> nat {
    if len <= 1 {
        4
    } else {
        let bm = ph_bitmap_size(ph_section(len));
        8 + bm + bm / 8 * ph_table_width(len)
    }
}

/// Whether `data` starts with a complete index.
pub open spec fn ph_complete(data: Seq<u8>) -> bool {
    data.len() >= 4 && data.len() >= ph_bytes(ph_len(data))
}

/// The 2-bit value of slot `p` in the bitmap.
pub open spec fn bit2(data: Seq<u8>, p: nat) -> nat {
    ((data[8 + (p / 4) as int] >> (2 * (p % 4)) as u8) & 3u8) as nat
}

/// Number of the slots `32 * block .. 32 * block + n` whose value is not 3.
pub open spec fn count_valid(data: Seq<u8>, block: nat, n: nat) -> nat
    decreases n,
{
    if n == 0 {
        0
    } else {
        count_valid(data, block, (n - 1) as nat) + if bit2(data, 32 * block + (n - 1) as nat) != 3 {
            1nat
        } else {
            0nat
        }
    }
}

/// The three candidate slots of a key, one per section.
pub open spec fn ph_slots(data: Seq<u8>, key: Seq<u8>) -> (nat, nat, nat) {
    let sec = ph_section(ph_len(data));
    let code = spec_hash128(key, le_bytes(data, 4, 4));
    (
        (code[0] as nat) % sec,
        (code[1] as nat) % sec + sec,
        (code[2] as nat) % sec + 2 * sec,
    )
}

/// The slot a key is stored in: the candidate picked by the sum of the three
/// candidates' 2-bit values modulo 3.
pub open spec fn ph_chosen(data: Seq<u8>, key: Seq<u8>) -> nat {
    let (s0, s1, s2) = ph_slots(data, key);
    let m = bit2(data, s0) + bit2(data, s1) + bit2(data, s2);
    if m % 3 == 0 {
        s0
    } else if m % 3 == 1 {
        s1
    } else {
        s2
    }
}

/// The position an index gives a key: the rank of its slot among the used
/// slots (those whose value is not 3).
pub open spec fn spec_locate(data: Seq<u8>, key: Seq<u8>) -> Option<nat> {
    let len = ph_len(data);
    if len == 0 {
        None
    } else if len == 1 {
        Some(0)
    } else {
        let bm = ph_bitmap_size(ph_section(len));
        let tw = ph_table_width(len);
        let slot = ph_chosen(data, key);
        let a = slot / 32;
        let tstart = 8 + bm + a * tw;
        let pos = le_bytes(data, tstart as int, tw) as nat + count_valid(data, a, slot % 32);
        if tstart + tw > ph_bytes(len) || a * 8 + 8 > bm || pos > usize::MAX {
            None
        } else {
            Some(pos)
        }
    }
}

/// A read-only perfect-hash index.
#[derive(Clone, Copy, Debug)]
pub struct PerfectHashView<'a> {
    src: ByteSource<'a>,
    size: usize,
    len: usize,
}

impl<'a> View for PerfectHashView<'a> {
    type V = Seq<u8>;

    /// The bytes of the index.
    closed spec fn view(&self) -> Seq<u8> {
        self.src@.subrange(0, self.size as int)
    }
}

pub proof fn lemma_layout_bounds(len: nat)
    requires
        2 <= len < 0x1000_0000,
    ensures
        10 <= ph_section(len) <= 0x0a80_0000,
        ph_section(len) * 3 <= ph_bitmap_size(ph_section(len)) * 4,
        ph_bytes(len) <= 0x1000_0000,
{
}

fn read_le_src(src: &ByteSource, start: usize, n: usize) -> (r: u64)
    requires
        start + n <= src@.len(),
        start + n <= usize::MAX,
        n <= 8,
    ensures
        r == le_bytes(src@, start as int, n as nat),
    decreases n,
{
    if n == 0 {
        0
    } else {
        (src.byte(start) as u64) | (read_le_src(src, start + 1, n - 1) << 8u64)
    }
}

pub proof fn lemma_le_prefix(a: Seq<u8>, b: Seq<u8>, start: int, n: nat)
    requires
        0 <= start,
        start + n <= a.len(),
        start + n <= b.len(),
        forall|i: int| start <= i < start + n ==> a[i] == b[i],
    ensures
        le_bytes(a, start, n) == le_bytes(b, start, n),
    decreases n,
{
    if n > 0 {
        lemma_le_prefix(a, b, start + 1, (n - 1) as nat);
    }
}

fn section_of(len: u64) -> (r: u64)
    requires
        len < 0x1000_0000,
    ensures
        r == ph_section(len as nat),
{
    let s: u64 = (len * 105 + 255) / 256;
    if s < 10 {
        10
    } else {
        s
    }
}

fn table_width_of(len: u64) -> (r: u64)
    ensures
        r == ph_table_width(len as nat),
{
    if len > 0xffff {
        4
    } else if len > 0xff {
        2
    } else if len > 24 {
        1
    } else {
        0
    }
}

impl<'a> PerfectHashView<'a> {
    #[verifier::type_invariant]
    closed spec fn inv(self) -> bool {
        &&& self.size <= self.src@.len()
        &&& self.size >= 4
        &&& self.len == ph_len(self.src@)
        &&& self.len < 0x1000_0000
        &&& self.size == ph_bytes(self.len as nat)
    }

    fn open(src: ByteSource<'a>) -> (r: Result<Self, ReadError>)
        ensures
            match r {
                Ok(v) => ph_complete(src@) && v@ == src@.subrange(0, ph_bytes(ph_len(src@)) as int),
                Err(e) => !ph_complete(src@) && e.kind == CorruptionKind::Truncated,
            },
    {
        let avail: usize = src.len();
        if avail < 4 {
            return Err(ReadError::new(CorruptionKind::Truncated));
        }
        let header: u64 = read_le_src(&src, 0, 4);
        assert(header & 0x0fff_ffff < 0x1000_0000) by (bit_vector);
        let len: u64 = header & 0x0fff_ffff;
        let size: u64;
        if len <= 1 {
            size = 4;
        } else {
            proof {
                lemma_layout_bounds(len as nat);
            }
            let section: u64 = section_of(len);
            let bitmap_size: u64 = (section * 3 + 31) / 32 * 8;
            let width: u64 = table_width_of(len);
            size = 8 + bitmap_size + bitmap_size / 8 * width;
        }
        if (avail as u64) < size {
            return Err(ReadError::new(CorruptionKind::Truncated));
        }
        Ok(PerfectHashView { src, size: size as usize, len: len as usize })
    }

    /// Reads the index at the start of `data`.
    pub fn new(data: &'a [u8]) -> (r: Result<Self, ReadError>)
        ensures
            match r {
                Ok(v) => ph_complete(data@) && v@ == data@.subrange(0, ph_bytes(ph_len(data@)) as int),
                Err(e) => !ph_complete(data@) && e.kind == CorruptionKind::Truncated,
            },
    {
        Self::open(ByteSource::Bytes(data))
    }

    /// Reads the index at the start of the little-endian bytes of `words`.
    pub fn from_words(words: &'a [u32]) -> (r: Result<Self, ReadError>)
        ensures
            match r {
                Ok(v) => ph_complete(crate::words::bytes_of(words@)) && v@
                    == crate::words::bytes_of(words@).subrange(
                    0,
                    ph_bytes(ph_len(crate::words::bytes_of(words@))) as int,
                ),
                Err(e) => !ph_complete(crate::words::bytes_of(words@)) && e.kind
                    == CorruptionKind::Truncated,
            },
    {
        Self::open(ByteSource::Words(words))
    }

    /// Size of the index in bytes.
    pub fn data_size(&self) -> (r: usize)
        ensures
            r == self@.len(),
            r == ph_bytes(ph_len(self@)),
    {
        proof {
            use_type_invariant(self);
            lemma_le_prefix(self.src@, self@, 0, 4);
        }
        self.size
    }

    /// Number of keys in the index.
    pub fn len(&self) -> (r: usize)
        ensures
            r == ph_len(self@),
            r < 0x1000_0000,
    {
        proof {
            use_type_invariant(self);
            lemma_le_prefix(self.src@, self@, 0, 4);
        }
        self.len
    }

    /// Whether the index holds no key.
    pub fn is_empty(&self) -> (r: bool)
        ensures
            r == (ph_len(self@) == 0),
    {
        self.len() == 0
    }

    fn bit2_at(&self, p: u64) -> (r: u64)
        requires
            8 + p / 4 < self@.len(),
        ensures
            r == bit2(self@, p as nat),
            r <= 3,
    {
        proof {
            use_type_invariant(self);
        }
        let byte: u8 = self.src.byte((8 + p / 4) as usize);
        let shift: u8 = (2 * (p % 4)) as u8;
        let v: u8 = (byte >> shift) & 3u8;
        assert(v <= 3) by (bit_vector)
            requires
                v == (byte >> shift) & 3u8,
        ;
        v as u64
    }

    fn chosen_slot(&self, key: &[u8]) -> (r: u64)
        requires
            2 <= ph_len(self@) < 0x1000_0000,
            self@.len() == ph_bytes(ph_len(self@)),
        ensures
            r == ph_chosen(self@, key@),
            r < 3 * ph_section(ph_len(self@)),
    {
        proof {
            use_type_invariant(self);
            lemma_le_prefix(self.src@, self@, 0, 4);
            lemma_le_prefix(self.src@, self@, 4, 4);
            lemma_layout_bounds(ph_len(self@));
        }
        let len: u64 = self.len as u64;
        let section: u64 = section_of(len);
        let seed: u64 = read_le_src(&self.src, 4, 4);
        let code: [u32; 4] = hash128(key, seed);
        let magic: u64 = fast_mod_magic(section as u32);
        proof {
            lemma_fast_mod(code[0], section as u32);
            lemma_fast_mod(code[1], section as u32);
            lemma_fast_mod(code[2], section as u32);
        }
        let s0: u64 = fast_mod_u32(code[0], section as u32, magic) as u64;
        let s1: u64 = fast_mod_u32(code[1], section as u32, magic) as u64 + section;
        let s2: u64 = fast_mod_u32(code[2], section as u32, magic) as u64 + section * 2;
        let m: u64 = self.bit2_at(s0) + self.bit2_at(s1) + self.bit2_at(s2);
        if m % 3 == 0 {
            s0
        } else if m % 3 == 1 {
            s1
        } else {
            s2
        }
    }

    /// The position of `key` among the keys the index was built from; for a
    /// key outside that set the result is some position or none.
    pub fn locate(&self, key: &[u8]) -> (r: Option<usize>)
        ensures
            match r {
                Some(p) => spec_locate(self@, key@) == Some(p as nat),
                None => spec_locate(self@, key@) is None,
            },
    {
        proof {
            use_type_invariant(self);
            lemma_le_prefix(self.src@, self@, 0, 4);
        }
        if self.len == 0 {
            return None;
        }
        if self.len == 1 {
            return Some(0);
        }
        let len: u64 = self.len as u64;
        proof {
            lemma_layout_bounds(len as nat);
        }
        let section: u64 = section_of(len);
        let bitmap_size: u64 = (section * 3 + 31) / 32 * 8;
        let width: u64 = table_width_of(len);
        let slot: u64 = self.chosen_slot(key);
        let a: u64 = slot / 32;
        let b: u64 = slot % 32;
        assert(a * width <= 0x100_0000 * 4) by (nonlinear_arith)
            requires
                a < 0x100_0000,
                width <= 4,
        ;
        let tstart: u64 = 8 + bitmap_size + a * width;
        if tstart + width > self.size as u64 || a * 8 + 8 > bitmap_size {
            return None;
        }
        proof {
            lemma_le_prefix(self.src@, self@, tstart as int, width as nat);
        }
        let off: u64 = read_le_src(&self.src, tstart as usize, width as usize);
        let mut valid: u64 = 0;
        let mut j: u64 = 0;
        while j < b
            invariant
                j <= b < 32,
                a < 0x800_0000,
                a * 8 + 8 <= bitmap_size,
                8 + bitmap_size <= self@.len(),
                valid == count_valid(self@, a as nat, j as nat),
                valid <= j,
            decreases b - j,
        {
            if self.bit2_at(32 * a + j) != 3 {
                valid += 1;
            }
            j += 1;
        }
        assert(off < 0x1_0000_0000) by {
            assert(width <= 4);
            lemma_le_bound(self@, tstart as int, width as nat);
        }
        if off + valid > usize::MAX as u64 {
            return None;
        }
        Some((off + valid) as usize)
    }
}

proof fn lemma_le_bound(data: Seq<u8>, start: int, n: nat)
    requires
        n <= 4,
    ensures
        le_bytes(data, start, n) < pow2_8n(n),
    decreases n,
{
    if n > 0 {
        lemma_le_bound(data, start + 1, (n - 1) as nat);
        let rest: u64 = le_bytes(data, start + 1, (n - 1) as nat);
        let b: u8 = data[start];
        if n == 1 {
            assert(rest == 0);
            assert((b as u64) | (0u64 << 8u64) < 0x100) by (bit_vector);
        } else if n == 2 {
            assert(rest < 0x100 ==> (b as u64) | (rest << 8u64) < 0x1_0000) by (bit_vector);
        } else if n == 3 {
            assert(rest < 0x1_0000 ==> (b as u64) | (rest << 8u64) < 0x100_0000) by (bit_vector);
        } else {
            assert(rest < 0x100_0000 ==> (b as u64) | (rest << 8u64) < 0x1_0000_0000)
                by (bit_vector);
        }
    }
}

/// `2^(8n)` for `n <= 4`.
pub open spec fn pow2_8n(n: nat) -> int {
    if n == 0 {
        1
    } else if n == 1 {
        0x100
    } else if n == 2 {
        0x1_0000
    } else if n == 3 {
        0x100_0000
    } else {
        0x1_0000_0000
    }
}

} // verus!

verus! {

/// A key given to the index builder as bytes.
pub trait KeyBytes {
    /// The bytes of the key.
    spec fn spec_key(&self) -> Seq<u8>;

    /// The bytes of the key.
    fn key_bytes(&self) -> (r: &[u8])
        ensures
            r@ == self.spec_key(),
    ;
}

impl KeyBytes for Vec<u8> {
    open spec fn spec_key(&self) -> Seq<u8> {
        self@
    }

    fn key_bytes(&self) -> (r: &[u8]) {
        self.as_slice()
    }
}

impl<'a> KeyBytes for &'a [u8] {
    open spec fn spec_key(&self) -> Seq<u8> {
        (*self)@
    }

    fn key_bytes(&self) -> (r: &[u8]) {
        *self
    }
}

impl<'a> KeyBytes for &'a str {
    open spec fn spec_key(&self) -> Seq<u8> {
        (*self).spec_bytes()
    }

    fn key_bytes(&self) -> (r: &[u8]) {
        (*self).as_bytes()
    }
}

impl KeyBytes for String {
    open spec fn spec_key(&self) -> Seq<u8> {
        vstd::utf8::encode_utf8(self@)
    }

    fn key_bytes(&self) -> (r: &[u8]) {
        self.as_str().as_bytes()
    }
}

/// `SystemTime::now()` since the Unix epoch (or before it), in nanoseconds
/// truncated to 32 bits: a seed that varies from run to run. Nothing is
/// stated of the value.
#[verifier::external_body]
fn clock_seed() -> (r: u32) {
    std::time::SystemTime::now().duration_since(std::time::UNIX_EPOCH).unwrap_or_else(
        |error| error.duration(),
    ).as_nanos() as u32
}

/// The xorshift step: the state shifts by one word, and the new last word
/// is returned.
pub open spec fn spec_next_state(s: Seq<u32>) -> Seq<u32> {
    let t = s[0] ^ (s[0] << 11u32);
    seq![s[1], s[2], s[3], s[3] ^ (s[3] >> 19u32) ^ t ^ (t >> 8u32)]
}

fn next_seed(state: &mut [u32; 4]) -> (r: u32)
    ensures
        final(state)@ == spec_next_state(old(state)@),
        r == final(state)@[3],
{
    let t: u32 = state[0] ^ (state[0] << 11u32);
    state[0] = state[1];
    state[1] = state[2];
    state[2] = state[3];
    let s3: u32 = state[3];
    state[3] = s3 ^ (s3 >> 19u32) ^ t ^ (t >> 8u32);
    assert(state@ =~= spec_next_state(old(state)@));
    state[3]
}

/// The three slots of a key for `seed`, one in each section.
pub open spec fn key_slots(key: Seq<u8>, seed: u32, section: nat) -> Seq<nat> {
    let code = spec_hash128(key, seed as u64);
    seq![
        (code[0] as nat) % section,
        (code[1] as nat) % section + section,
        (code[2] as nat) % section + 2 * section,
    ]
}

/// The bytes of each key.
pub open spec fn key_seqs<K: KeyBytes>(keys: Seq<K>) -> Seq<Seq<u8>> {
    keys.map_values(|k: K| k.spec_key())
}

/// The slots of each key for `seed`.
pub open spec fn key_graph(keys: Seq<Seq<u8>>, seed: u32, section: nat) -> Seq<Seq<nat>> {
    Seq::new(keys.len(), |i: int| key_slots(keys[i], seed, section))
}

/// Whether `order` and `free` peel `graph`, which gives each key its three
/// slots: every key comes once, each with a slot that no later key uses.
pub open spec fn peels_by(graph: Seq<Seq<nat>>, order: Seq<usize>, free: Seq<nat>) -> bool {
    &&& order.len() == graph.len()
    &&& forall|t: int| 0 <= t < order.len() ==> #[trigger] order[t] < graph.len()
    &&& forall|t: int, u: int| 0 <= t < u < order.len() ==> #[trigger] order[t] != #[trigger] order[u]
    &&& free.len() == order.len()
    &&& forall|t: int| 0 <= t < order.len() ==> #[trigger] free[t] < 3
    &&& forall|t: int, u: int, j: int|
        0 <= t < u < order.len() && 0 <= j < 3 ==> #[trigger] graph[order[u] as int][j]
            != #[trigger] graph[order[t] as int][free[t] as int]
    &&& forall|e: int| 0 <= e < graph.len() ==> #[trigger] removed_upto(order, order.len() - 1, e)
}

/// Whether some order peels `graph`.
pub open spec fn graph_peels(graph: Seq<Seq<nat>>) -> bool {
    exists|order: Seq<usize>, free: Seq<nat>| peels_by(graph, order, free)
}

/// The generator's state after `n` steps from `s`.
pub open spec fn state_after(s: Seq<u32>, n: nat) -> Seq<u32>
    decreases n,
{
    if n == 0 {
        s
    } else {
        spec_next_state(state_after(s, (n - 1) as nat))
    }
}

/// The seed of the `i`-th try, counted from 0, from state `s`.
pub open spec fn seed_at(s: Seq<u32>, i: int) -> u32 {
    state_after(s, (i + 1) as nat)[3]
}

/// Whether none of the first `tries` seeds drawn from `state` gives a
/// graph of the keys that peels.
#[verifier::opaque]
pub open spec fn seeds_fail(keys: Seq<Seq<u8>>, state: Seq<u32>, tries: nat, section: nat) -> bool {
    forall|i: int| 0 <= i < tries ==> !graph_peels(key_graph(keys, #[trigger] seed_at(state, i), section))
}

/// A key that occurs twice shares all three slots with itself, so no order
/// peels the keys' graph, whatever the seed.
pub proof fn lemma_repeated_keys_never_peel(keys: Seq<Seq<u8>>, seed: u32, section: nat, i: int, j: int)
    requires
        0 <= i < j < keys.len(),
        keys[i] == keys[j],
    ensures
        !graph_peels(key_graph(keys, seed, section)),
{
    let g = key_graph(keys, seed, section);
    if graph_peels(g) {
        let (o, f) = choose|o: Seq<usize>, f: Seq<nat>| peels_by(g, o, f);
        assert(removed_upto(o, o.len() - 1, i));
        assert(removed_upto(o, o.len() - 1, j));
        let ui = choose|u: int| 0 <= u <= o.len() - 1 && o[u] == i;
        let uj = choose|u: int| 0 <= u <= o.len() - 1 && o[u] == j;
        assert(g[i] == g[j]);
        if ui < uj {
            assert(g[o[uj] as int][f[ui] as int] != g[o[ui] as int][f[ui] as int]);
        } else {
            assert(g[o[ui] as int][f[uj] as int] != g[o[uj] as int][f[uj] as int]);
        }
    }
}

/// The generator's state before the first seed, with `clock` from the
/// clock.
pub open spec fn ph_start(clock: u32) -> Seq<u32> {
    seq![0x6c07_8965u32, 0x9908_b0dfu32, 0x9d2c_5680u32, clock]
}

/// How many seeds are tried for `n` keys.
pub open spec fn ph_tries(n: nat) -> nat {
    if n <= 0xff {
        40
    } else {
        16
    }
}

/// A key's three slots.
#[derive(Clone, Copy)]
struct Edge {
    slots: [usize; 3],
}

fn edge_of(key: &[u8], seed: u32, section: usize, magic: u64) -> (r: Edge)
    requires
        10 <= section <= 0x0a80_0000,
        magic == spec_fast_mod_magic(section as u32),
    ensures
        r.slots@ =~= key_slots(key@, seed, section as nat).map_values(|v: nat| v as usize),
        forall|k: int| 0 <= k < 3 ==> #[trigger] r.slots@[k] < 3 * section,
{
    let code: [u32; 4] = hash128(key, seed as u64);
    proof {
        lemma_fast_mod(code[0], section as u32);
        lemma_fast_mod(code[1], section as u32);
        lemma_fast_mod(code[2], section as u32);
    }
    let a: usize = fast_mod_u32(code[0], section as u32, magic) as usize;
    let b: usize = fast_mod_u32(code[1], section as u32, magic) as usize + section;
    let c: usize = fast_mod_u32(code[2], section as u32, magic) as usize + section * 2;
    Edge { slots: [a, b, c] }
}

/// No vertex.
const NONE: usize = usize::MAX;

/// A key's slot in the list of the keys that share the slot.
#[derive(Clone, Copy)]
struct Vertex {
    slot: usize,
    prev: usize,
    next: usize,
}

/// The head of slot `s`'s list, when there is one, is a live vertex of
/// that slot with no predecessor.
spec fn head_ok(heads: Seq<usize>, vs: Seq<Vertex>, s: int) -> bool {
    heads[s] == NONE || (heads[s] < vs.len() && vs[heads[s] as int].slot == s && vs[heads[s] as int].prev
        == NONE)
}

/// The neighbours of live vertex `x` are live vertices of the same slot that
/// point back at it, and it heads its list when it has no predecessor.
spec fn vertex_ok(heads: Seq<usize>, vs: Seq<Vertex>, slot_cnt: nat, x: int) -> bool {
    &&& vs[x].slot < slot_cnt
    &&& vs[x].next == NONE || (vs[x].next < vs.len() && vs[vs[x].next as int].slot == vs[x].slot
        && vs[vs[x].next as int].prev == x)
    &&& if vs[x].prev == NONE {
        heads[vs[x].slot as int] == x
    } else {
        vs[x].prev < vs.len() && vs[vs[x].prev as int].slot == vs[x].slot && vs[vs[x].prev as int].next
            == x
    }
}

/// The slot lists are doubly linked.
spec fn lists_ok(heads: Seq<usize>, vs: Seq<Vertex>, slot_cnt: nat) -> bool {
    &&& heads.len() == slot_cnt
    &&& slot_cnt < NONE
    &&& vs.len() < NONE
    &&& forall|s: int| 0 <= s < slot_cnt ==> #[trigger] head_ok(heads, vs, s)
    &&& forall|x: int|
        0 <= x < vs.len() && vs[x].slot != NONE ==> #[trigger] vertex_ok(heads, vs, slot_cnt, x)
}

/// The depth of live vertex `x` in its slot's list: none for the head, one
/// more than its predecessor's otherwise.
spec fn depth_step(vs: Seq<Vertex>, d: Seq<nat>, x: int) -> bool {
    if vs[x].prev == NONE {
        d[x] == 0
    } else {
        vs[x].prev < vs.len() && d[x] == d[vs[x].prev as int] + 1
    }
}

/// Every live vertex has its depth, so no list runs in a circle.
spec fn depth_ok(vs: Seq<Vertex>, d: Seq<nat>) -> bool {
    &&& d.len() == vs.len()
    &&& forall|x: int| 0 <= x < vs.len() && vs[x].slot != NONE ==> #[trigger] depth_step(vs, d, x)
}

/// Whether exactly one live vertex has slot `s`.
#[verifier::opaque]
spec fn one_live(vs: Seq<Vertex>, s: int) -> bool {
    exists|x: int|
        0 <= x < vs.len() && vs[x].slot == s && forall|y: int|
            0 <= y < vs.len() && #[trigger] vs[y].slot == s ==> y == x
}

/// Whether slot `s` waits in the queue at or after place `from`.
spec fn queued_from(q: Seq<usize>, from: int, s: int) -> bool {
    exists|t: int| from <= t < q.len() && q[t] == s
}

/// The slot of vertex `k` of key `e`.
spec fn slot_of(vs: Seq<Vertex>, e: int, k: int) -> usize {
    vs[3 * e + k].slot
}

/// Whether a vertex of key `e`, from the `from`-th on, has slot `s`.
spec fn edge_holds(vs: Seq<Vertex>, e: int, from: int, s: int) -> bool {
    exists|k: int| from <= k < 3 && #[trigger] slot_of(vs, e, k) == s
}

/// Whether `order` and `free` peel the key graph: every key once, each
/// with a slot that no later key uses.
spec fn is_peeling(edges: Seq<Edge>, order: Seq<usize>, free: Seq<nat>) -> bool {
    &&& order.len() == edges.len()
    &&& forall|t: int| 0 <= t < order.len() ==> #[trigger] order[t] < edges.len()
    &&& forall|t: int, u: int| 0 <= t < u < order.len() ==> #[trigger] order[t] != #[trigger] order[u]
    &&& free.len() == order.len()
    &&& forall|t: int| 0 <= t < order.len() ==> #[trigger] free[t] < 3
    &&& forall|t: int, u: int, j: int|
        0 <= t < u < order.len() && 0 <= j < 3 ==> #[trigger] edges[order[u] as int].slots@[j]
            != #[trigger] edges[order[t] as int].slots@[free[t] as int]
    &&& forall|ee: int| 0 <= ee < edges.len() ==> #[trigger] removed_upto(order, order.len() - 1, ee)
}

/// A slot that exactly one live vertex has heads a list of one.
proof fn lemma_single_head(heads: Seq<usize>, vs: Seq<Vertex>, slot_cnt: nat, d: Seq<nat>, s: int)
    requires
        lists_ok(heads, vs, slot_cnt),
        depth_ok(vs, d),
        0 <= s < slot_cnt,
        one_live(vs, s),
    ensures
        heads[s] != NONE,
        heads[s] < vs.len(),
        vs[heads[s] as int].next == NONE,
{
    reveal(one_live);
    let x = choose|x: int|
        0 <= x < vs.len() && vs[x].slot == s && forall|y: int|
            0 <= y < vs.len() && #[trigger] vs[y].slot == s ==> y == x;
    assert(vs[x].slot != NONE);
    assert(vertex_ok(heads, vs, slot_cnt, x));
    assert(depth_step(vs, d, x));
    if vs[x].prev != NONE {
        let p = vs[x].prev as int;
        assert(vs[p].slot == s);
        assert(p == x);
        assert(false);
    }
    assert(heads[s] == x);
    if vs[x].next != NONE {
        let n = vs[x].next as int;
        assert(vs[n].slot == s);
        assert(n == x);
        assert(false);
    }
}

/// Changing only the slot of `node`, away from `s` on both sides, keeps
/// whether exactly one live vertex has slot `s`.
proof fn lemma_one_live_frame(vs0: Seq<Vertex>, vs1: Seq<Vertex>, node: int, s: int)
    requires
        vs0.len() == vs1.len(),
        0 <= node < vs0.len(),
        forall|x: int| 0 <= x < vs0.len() && x != node ==> #[trigger] vs1[x].slot == vs0[x].slot,
        vs0[node].slot != s,
        vs1[node].slot != s,
    ensures
        one_live(vs1, s) == one_live(vs0, s),
{
    reveal(one_live);
    if one_live(vs0, s) {
        let x = choose|x: int|
            0 <= x < vs0.len() && vs0[x].slot == s && forall|y: int|
                0 <= y < vs0.len() && #[trigger] vs0[y].slot == s ==> y == x;
        assert(vs1[x].slot == s);
        assert forall|y: int| 0 <= y < vs1.len() && #[trigger] vs1[y].slot == s implies y == x by {
            if y != node {
                assert(vs0[y].slot == s);
            }
        }
    }
    if one_live(vs1, s) {
        let x = choose|x: int|
            0 <= x < vs1.len() && vs1[x].slot == s && forall|y: int|
                0 <= y < vs1.len() && #[trigger] vs1[y].slot == s ==> y == x;
        assert(vs0[x].slot == s);
        assert forall|y: int| 0 <= y < vs0.len() && #[trigger] vs0[y].slot == s implies y == x by {
            if y != node {
                assert(vs1[y].slot == s);
            }
        }
    }
}

/// Some entry is false when the count of false entries is not zero.
proof fn lemma_count_false_pos(s: Seq<bool>) -> (i: int)
    requires
        count_false(s) > 0,
    ensures
        0 <= i < s.len(),
        !s[i],
    decreases s.len(),
{
    if !s.last() {
        (s.len() - 1) as int
    } else {
        lemma_count_false_pos(s.drop_last())
    }
}

/// The first place of `order`, from `i` on, that holds an unpeeled key.
proof fn lemma_first_unpeeled(order: Seq<usize>, peeled: Seq<bool>, i: int) -> (t: int)
    requires
        0 <= i <= order.len(),
        forall|u: int| 0 <= u < order.len() ==> #[trigger] order[u] < peeled.len(),
        forall|u: int| 0 <= u < i ==> peeled[#[trigger] order[u] as int],
        exists|u: int| i <= u < order.len() && !peeled[#[trigger] order[u] as int],
    ensures
        i <= t < order.len(),
        !peeled[order[t] as int],
        forall|u: int| 0 <= u < t ==> peeled[#[trigger] order[u] as int],
    decreases order.len() - i,
{
    if !peeled[order[i] as int] {
        i
    } else {
        lemma_first_unpeeled(order, peeled, i + 1)
    }
}

/// When no slot has exactly one live vertex and some key is left, no order
/// peels the graph: the first remaining key of any order shares its free
/// slot with another remaining key, which comes later.
proof fn lemma_no_peeling(
    edges: Seq<Edge>,
    vs: Seq<Vertex>,
    peeled: Seq<bool>,
    slot_cnt: nat,
    e0: int,
    order: Seq<usize>,
    free: Seq<nat>,
)
    requires
        vs.len() == 3 * edges.len(),
        peeled.len() == edges.len(),
        slot_cnt < NONE,
        forall|x: int| 0 <= x < vs.len() ==> (#[trigger] vs[x].slot != NONE <==> !peeled[x / 3]),
        forall|x: int|
            0 <= x < vs.len() && vs[x].slot != NONE ==> #[trigger] vs[x].slot == edges[x / 3].slots@[x % 3],
        forall|e: int, k: int| 0 <= e < edges.len() && 0 <= k < 3 ==> #[trigger] edges[e].slots@[k] < slot_cnt,
        forall|e: int|
            0 <= e < edges.len() ==> (#[trigger] edges[e].slots@[0]) != edges[e].slots@[1]
                && edges[e].slots@[0] != edges[e].slots@[2] && edges[e].slots@[1] != edges[e].slots@[2],
        forall|s: int| 0 <= s < slot_cnt ==> !#[trigger] one_live(vs, s),
        0 <= e0 < edges.len(),
        !peeled[e0],
    ensures
        !is_peeling(edges, order, free),
{
    if is_peeling(edges, order, free) {
        assert(removed_upto(order, order.len() - 1, e0));
        let u0 = choose|u: int| 0 <= u <= order.len() - 1 && order[u] == e0;
        assert(!peeled[order[u0] as int]);
        let t = lemma_first_unpeeled(order, peeled, 0);
        let e = order[t] as int;
        let j = free[t] as int;
        let x = 3 * e + j;
        assert(x / 3 == e && x % 3 == j);
        assert(vs[x].slot != NONE);
        let s = vs[x].slot as int;
        assert(s == edges[e].slots@[j]);
        assert(s < slot_cnt);
        assert(!one_live(vs, s));
        let y = lemma_second_live(vs, s, x);
        let e1 = y / 3;
        let j1 = y % 3;
        assert(vs[y].slot != NONE);
        assert(!peeled[e1]);
        assert(vs[y].slot == edges[e1].slots@[j1]);
        if e1 == e {
            assert(j1 != j);
            assert(edges[e].slots@[0] != edges[e].slots@[1]);
        } else {
            assert(removed_upto(order, order.len() - 1, e1));
            let u = choose|u: int| 0 <= u <= order.len() - 1 && order[u] == e1;
            assert(u != t);
            if u < t {
                assert(peeled[order[u] as int]);
            } else {
                assert(edges[order[u] as int].slots@[j1] != edges[order[t] as int].slots@[free[t] as int]);
            }
        }
    }
}

/// An order that peels the keys' edges peels their slots.
proof fn lemma_peeling_edges(edges: Seq<Edge>, graph: Seq<Seq<nat>>, order: Seq<usize>, free: Seq<nat>)
    requires
        edges.len() == graph.len(),
        forall|e: int, k: int| 0 <= e < graph.len() && 0 <= k < 3 ==> #[trigger] graph[e][k] == edges[e].slots@[k] as nat,
        is_peeling(edges, order, free),
    ensures
        peels_by(graph, order, free),
        graph_peels(graph),
{
    assert forall|t: int, u: int, j: int|
        0 <= t < u < order.len() && 0 <= j < 3 implies #[trigger] graph[order[u] as int][j]
            != #[trigger] graph[order[t] as int][free[t] as int] by {
        assert(edges[order[u] as int].slots@[j] != edges[order[t] as int].slots@[free[t] as int]);
    }
    assert(peels_by(graph, order, free));
}

/// A slot that does not have exactly one live vertex, and has live vertex
/// `x`, has another.
proof fn lemma_second_live(vs: Seq<Vertex>, s: int, x: int) -> (y: int)
    requires
        0 <= x < vs.len(),
        vs[x].slot == s,
        !one_live(vs, s),
    ensures
        0 <= y < vs.len(),
        vs[y].slot == s,
        y != x,
{
    reveal(one_live);
    if forall|y: int| 0 <= y < vs.len() && #[trigger] vs[y].slot == s ==> y == x {
        assert(one_live(vs, s));
    }
    choose|y: int| 0 <= y < vs.len() && #[trigger] vs[y].slot == s && y != x
}

/// An order that peels the keys' slots peels their edges.
proof fn lemma_edges_peeling(edges: Seq<Edge>, graph: Seq<Seq<nat>>, order: Seq<usize>, free: Seq<nat>)
    requires
        edges.len() == graph.len(),
        forall|e: int| 0 <= e < graph.len() ==> (#[trigger] graph[e]).len() == 3,
        forall|e: int, k: int| 0 <= e < graph.len() && 0 <= k < 3 ==> #[trigger] graph[e][k] == edges[e].slots@[k] as nat,
        peels_by(graph, order, free),
    ensures
        is_peeling(edges, order, free),
{
    assert forall|t: int, u: int, j: int|
        0 <= t < u < order.len() && 0 <= j < 3 implies #[trigger] edges[order[u] as int].slots@[j]
            != #[trigger] edges[order[t] as int].slots@[free[t] as int] by {
        assert(graph[order[u] as int][j] != graph[order[t] as int][free[t] as int]);
    }
}

/// When the head of a slot's list has no successor, it is the only live
/// vertex of that slot.
proof fn lemma_only_head(heads: Seq<usize>, vs: Seq<Vertex>, slot_cnt: nat, d: Seq<nat>, x: int)
    requires
        lists_ok(heads, vs, slot_cnt),
        depth_ok(vs, d),
        0 <= x < vs.len(),
        vs[x].slot != NONE,
        heads[vs[x].slot as int] != NONE,
        vs[heads[vs[x].slot as int] as int].next == NONE,
    ensures
        x == heads[vs[x].slot as int],
    decreases d[x],
{
    assert(vertex_ok(heads, vs, slot_cnt, x));
    assert(depth_step(vs, d, x));
    if vs[x].prev != NONE {
        let p = vs[x].prev as int;
        assert(vertex_ok(heads, vs, slot_cnt, p));
        lemma_only_head(heads, vs, slot_cnt, d, p);
    }
}

/// Two live vertices of one slot at the same depth are the same vertex.
proof fn lemma_depth_unique(
    heads: Seq<usize>,
    vs: Seq<Vertex>,
    slot_cnt: nat,
    d: Seq<nat>,
    x: int,
    y: int,
)
    requires
        lists_ok(heads, vs, slot_cnt),
        depth_ok(vs, d),
        0 <= x < vs.len(),
        0 <= y < vs.len(),
        vs[x].slot != NONE,
        vs[x].slot == vs[y].slot,
        d[x] == d[y],
    ensures
        x == y,
    decreases d[x],
{
    assert(vertex_ok(heads, vs, slot_cnt, x));
    assert(vertex_ok(heads, vs, slot_cnt, y));
    assert(depth_step(vs, d, x));
    assert(depth_step(vs, d, y));
    if vs[x].prev != NONE && vs[y].prev != NONE {
        lemma_depth_unique(heads, vs, slot_cnt, d, vs[x].prev as int, vs[y].prev as int);
    }
}

/// Number of entries of `s` that are false.
spec fn count_false(s: Seq<bool>) -> nat
    decreases s.len(),
{
    if s.len() == 0 {
        0
    } else {
        count_false(s.drop_last()) + if s.last() {
            0nat
        } else {
            1nat
        }
    }
}

proof fn lemma_count_false_all(m: nat)
    ensures
        count_false(Seq::new(m, |i: int| false)) == m,
    decreases m,
{
    if m > 0 {
        assert(Seq::new(m, |i: int| false).drop_last() =~= Seq::new((m - 1) as nat, |i: int| false));
        lemma_count_false_all((m - 1) as nat);
    }
}

proof fn lemma_count_false_zero(s: Seq<bool>, i: int)
    requires
        count_false(s) == 0,
        0 <= i < s.len(),
    ensures
        s[i],
    decreases s.len(),
{
    if i < s.len() - 1 {
        lemma_count_false_zero(s.drop_last(), i);
    }
}

proof fn lemma_count_false_update(s: Seq<bool>, i: int)
    requires
        0 <= i < s.len(),
        !s[i],
    ensures
        count_false(s.update(i, true)) + 1 == count_false(s),
    decreases s.len(),
{
    if i < s.len() - 1 {
        assert(s.update(i, true).drop_last() =~= s.drop_last().update(i, true));
        lemma_count_false_update(s.drop_last(), i);
    } else {
        assert(s.update(i, true).drop_last() =~= s.drop_last());
    }
}

/// Puts the dead vertex `node` at the front of the list of `slot`.
fn link_front(
    heads: &mut Vec<usize>,
    vertices: &mut Vec<Vertex>,
    node: usize,
    slot: usize,
    Ghost(slot_cnt): Ghost<nat>,
    Ghost(depth): Ghost<Seq<nat>>,
) -> (r: Ghost<Seq<nat>>)
    requires
        lists_ok(old(heads)@, old(vertices)@, slot_cnt),
        depth_ok(old(vertices)@, depth),
        node < old(vertices)@.len(),
        old(vertices)@[node as int].slot == NONE,
        slot < slot_cnt,
    ensures
        lists_ok(final(heads)@, final(vertices)@, slot_cnt),
        depth_ok(final(vertices)@, r@),
        final(vertices)@.len() == old(vertices)@.len(),
        final(vertices)@[node as int].slot == slot,
        forall|x: int|
            0 <= x < old(vertices)@.len() && x != node ==> #[trigger] final(vertices)@[x].slot
                == old(vertices)@[x].slot,
{
    proof {
        assert(head_ok(old(heads)@, old(vertices)@, slot as int));
    }
    let head: usize = heads[slot];
    vertices.set(node, Vertex { slot, prev: NONE, next: head });
    if head != NONE {
        let mut h: Vertex = vertices[head];
        h.prev = node;
        vertices.set(head, h);
    }
    heads.set(slot, node);
    proof {
        let h0 = old(heads)@;
        let v0 = old(vertices)@;
        let h1 = heads@;
        let v1 = vertices@;
        assert forall|s: int| 0 <= s < slot_cnt implies #[trigger] head_ok(h1, v1, s) by {
            assert(head_ok(h0, v0, s));
            if s != slot && h0[s] != NONE {
                assert(v0[h0[s] as int].slot == s);
                assert(h0[s] != head);
                assert(h0[s] != node);
                assert(v1[h0[s] as int] == v0[h0[s] as int]);
            }
        }
        assert forall|y: int| 0 <= y < v1.len() && v1[y].slot != NONE implies #[trigger] vertex_ok(
            h1,
            v1,
            slot_cnt,
            y,
        ) by {
            if y != node {
                assert(v0[y].slot != NONE);
                assert(vertex_ok(h0, v0, slot_cnt, y));
                if v0[y].next != NONE {
                    assert(vertex_ok(h0, v0, slot_cnt, v0[y].next as int));
                }
                if v0[y].prev != NONE {
                    assert(vertex_ok(h0, v0, slot_cnt, v0[y].prev as int));
                }
            }
        }
    }
    let ghost d0 = depth;
    let ghost v0 = old(vertices)@;
    let ghost d1 = Seq::new(
        d0.len(),
        |y: int|
            if y == node {
                0nat
            } else if v0[y].slot == slot {
                d0[y] + 1
            } else {
                d0[y]
            },
    );
    proof {
        let v1 = vertices@;
        let h0 = old(heads)@;
        assert forall|y: int| 0 <= y < v1.len() && v1[y].slot != NONE implies #[trigger] depth_step(
            v1,
            d1,
            y,
        ) by {
            if y != node {
                assert(v0[y].slot != NONE);
                assert(depth_step(v0, d0, y));
                assert(vertex_ok(h0, v0, slot_cnt, y));
                if v0[y].prev != NONE {
                    assert(vertex_ok(h0, v0, slot_cnt, v0[y].prev as int));
                }
            }
        }
    }
    Ghost(d1)
}

/// Removes the live vertex `node` from its slot's list.
fn unlink(
    heads: &mut Vec<usize>,
    vertices: &mut Vec<Vertex>,
    node: usize,
    Ghost(slot_cnt): Ghost<nat>,
    Ghost(depth): Ghost<Seq<nat>>,
) -> (r: Ghost<Seq<nat>>)
    requires
        lists_ok(old(heads)@, old(vertices)@, slot_cnt),
        depth_ok(old(vertices)@, depth),
        node < old(vertices)@.len(),
        old(vertices)@[node as int].slot != NONE,
    ensures
        lists_ok(final(heads)@, final(vertices)@, slot_cnt),
        depth_ok(final(vertices)@, r@),
        final(vertices)@.len() == old(vertices)@.len(),
        final(vertices)@[node as int].slot == NONE,
        forall|x: int|
            0 <= x < old(vertices)@.len() && x != node ==> #[trigger] final(vertices)@[x].slot
                == old(vertices)@[x].slot,
{
    proof {
        assert(vertex_ok(old(heads)@, old(vertices)@, slot_cnt, node as int));
    }
    let vertex: Vertex = vertices[node];
    if vertex.prev != NONE {
        let mut p: Vertex = vertices[vertex.prev];
        p.next = vertex.next;
        vertices.set(vertex.prev, p);
    } else {
        heads.set(vertex.slot, vertex.next);
    }
    if vertex.next != NONE {
        let mut n: Vertex = vertices[vertex.next];
        n.prev = vertex.prev;
        vertices.set(vertex.next, n);
    }
    let mut dead: Vertex = vertices[node];
    dead.slot = NONE;
    vertices.set(node, dead);
    proof {
        let h0 = old(heads)@;
        let v0 = old(vertices)@;
        let h1 = heads@;
        let v1 = vertices@;
        let x = node as int;
        let sx = vertex.slot as int;
        assert(vertex_ok(h0, v0, slot_cnt, x));
        assert forall|s: int| 0 <= s < slot_cnt implies #[trigger] head_ok(h1, v1, s) by {
            assert(head_ok(h0, v0, s));
            if h0[s] != NONE {
                assert(v0[h0[s] as int].slot != NONE);
                assert(vertex_ok(h0, v0, slot_cnt, h0[s] as int));
            }
            if s == sx && vertex.prev == NONE && vertex.next != NONE {
                assert(vertex_ok(h0, v0, slot_cnt, vertex.next as int));
            }
        }
        assert forall|y: int| 0 <= y < v1.len() && v1[y].slot != NONE implies #[trigger] vertex_ok(
            h1,
            v1,
            slot_cnt,
            y,
        ) by {
            assert(v0[y].slot != NONE);
            assert(vertex_ok(h0, v0, slot_cnt, y));
            if v0[y].next != NONE {
                assert(vertex_ok(h0, v0, slot_cnt, v0[y].next as int));
            }
            if v0[y].prev != NONE {
                assert(vertex_ok(h0, v0, slot_cnt, v0[y].prev as int));
            }
        }
    }
    let ghost d0 = depth;
    let ghost v0 = old(vertices)@;
    let ghost x = node as int;
    let ghost sx = v0[x].slot;
    let ghost d1 = Seq::new(
        d0.len(),
        |y: int|
            if v0[y].slot == sx && d0[y] > d0[x] {
                (d0[y] - 1) as nat
            } else {
                d0[y]
            },
    );
    proof {
        let v1 = vertices@;
        let h0 = old(heads)@;
        assert(depth_step(v0, d0, x));
        assert forall|y: int| 0 <= y < v1.len() && v1[y].slot != NONE implies #[trigger] depth_step(
            v1,
            d1,
            y,
        ) by {
            assert(y != x);
            assert(v0[y].slot != NONE);
            assert(depth_step(v0, d0, y));
            assert(vertex_ok(h0, v0, slot_cnt, y));
            if v0[y].prev != NONE {
                let q = v0[y].prev as int;
                assert(vertex_ok(h0, v0, slot_cnt, q));
                assert(depth_step(v0, d0, q));
                if q != x && v0[y].slot == sx && d0[q] == d0[x] {
                    lemma_depth_unique(h0, v0, slot_cnt, d0, q, x);
                }
            }
        }
    }
    Ghost(d1)
}

/// Whether key `e` is among the first `t + 1` keys of `order`.
pub open spec fn removed_upto(order: Seq<usize>, t: int, e: int) -> bool {
    exists|u: int| 0 <= u <= t && order[u] == e
}

/// Peels the key graph: repeatedly takes a slot that only one remaining key
/// uses and removes that key. Gives the keys in the order they were
/// removed, when all of them were, and for each the slot (0, 1 or 2) that no
/// key removed after it uses. Gives none only when no order peels the graph.
fn peel_graph(edges: &Vec<Edge>, slot_cnt: usize) -> (r: Option<(Vec<usize>, Ghost<Seq<nat>>)>)
    requires
        edges@.len() < 0x1000_0000,
        slot_cnt < 0x2000_0000,
        forall|e: int, k: int|
            0 <= e < edges@.len() && 0 <= k < 3 ==> #[trigger] edges@[e].slots@[k] < slot_cnt,
        forall|e: int|
            0 <= e < edges@.len() ==> (#[trigger] edges@[e].slots@[0]) != edges@[e].slots@[1]
                && edges@[e].slots@[0] != edges@[e].slots@[2] && edges@[e].slots@[1]
                != edges@[e].slots@[2],
    ensures
        r is None ==> forall|order: Seq<usize>, free: Seq<nat>| !#[trigger] is_peeling(edges@, order, free),
        r matches Some((order, free)) ==> {
            &&& order@.len() == edges@.len()
            &&& forall|t: int| 0 <= t < order@.len() ==> #[trigger] order@[t] < edges@.len()
            &&& forall|t: int, u: int|
                0 <= t < u < order@.len() ==> #[trigger] order@[t] != #[trigger] order@[u]
            &&& free@.len() == order@.len()
            &&& forall|t: int| 0 <= t < order@.len() ==> #[trigger] free@[t] < 3
            &&& forall|t: int, u: int, j: int|
                0 <= t < u < order@.len() && 0 <= j < 3 ==> #[trigger] edges@[order@[u] as int].slots@[j]
                    != #[trigger] edges@[order@[t] as int].slots@[free@[t] as int]
            &&& forall|ee: int| 0 <= ee < edges@.len() ==> #[trigger] removed_upto(order@, order@.len() - 1, ee)
        },
{
    let m: usize = edges.len();
    let mut heads: Vec<usize> = vec![NONE; slot_cnt];
    let mut vertices: Vec<Vertex> = vec![Vertex { slot: NONE, prev: NONE, next: NONE }; m * 3];
    let ghost mut depth: Seq<nat> = Seq::new((m * 3) as nat, |i: int| 0nat);
    proof {
        assert(lists_ok(heads@, vertices@, slot_cnt as nat));
        assert(depth_ok(vertices@, depth));
    }
    let mut e: usize = 0;
    while e < m
        invariant
            m == edges@.len() < 0x1000_0000,
            e <= m,
            vertices@.len() == 3 * m,
            lists_ok(heads@, vertices@, slot_cnt as nat),
            depth_ok(vertices@, depth),
            forall|x: int| 0 <= x < 3 * m ==> (#[trigger] vertices@[x].slot != NONE <==> x < 3 * e),
            forall|x: int|
                0 <= x < 3 * e ==> #[trigger] vertices@[x].slot == edges@[x / 3].slots@[x % 3],
            forall|ee: int, k: int|
                0 <= ee < edges@.len() && 0 <= k < 3 ==> #[trigger] edges@[ee].slots@[k] < slot_cnt,
        decreases m - e,
    {
        let mut k: usize = 0;
        while k < 3
            invariant
                m == edges@.len() < 0x1000_0000,
                e < m,
                k <= 3,
                vertices@.len() == 3 * m,
                lists_ok(heads@, vertices@, slot_cnt as nat),
                depth_ok(vertices@, depth),
                forall|x: int|
                    0 <= x < 3 * m ==> (#[trigger] vertices@[x].slot != NONE <==> x < 3 * e + k),
                forall|x: int|
                    0 <= x < 3 * e + k ==> #[trigger] vertices@[x].slot == edges@[x / 3].slots@[x
                        % 3],
                forall|ee: int, kk: int|
                    0 <= ee < edges@.len() && 0 <= kk < 3 ==> #[trigger] edges@[ee].slots@[kk]
                        < slot_cnt,
            decreases 3 - k,
        {
            let slot: usize = edges[e].slots[k];
            let node: usize = e * 3 + k;
            let Ghost(d) = link_front(
                &mut heads,
                &mut vertices,
                node,
                slot,
                Ghost(slot_cnt as nat),
                Ghost(depth),
            );
            proof {
                depth = d;
                assert((node as int) / 3 == e && (node as int) % 3 == k);
            }
            k += 1;
        }
        e += 1;
    }
    let mut queue: Vec<usize> = Vec::new();
    let mut s: usize = 0;
    while s < slot_cnt
        invariant
            s <= slot_cnt,
            heads@.len() == slot_cnt,
            forall|t: int| 0 <= t < queue@.len() ==> #[trigger] queue@[t] < slot_cnt,
            lists_ok(heads@, vertices@, slot_cnt as nat),
            depth_ok(vertices@, depth),
            vertices@.len() == 3 * m,
            forall|s2: int| 0 <= s2 < s && #[trigger] one_live(vertices@, s2) ==> queued_from(queue@, 0, s2),
        decreases slot_cnt - s,
    {
        let head: usize = heads[s];
        proof {
            assert(head_ok(heads@, vertices@, s as int));
        }
        let ghost q0 = queue@;
        if head != NONE && vertices[head].next == NONE {
            queue.push(s);
        }
        proof {
            assert forall|s2: int| 0 <= s2 < s + 1 && #[trigger] one_live(vertices@, s2) implies queued_from(
                queue@,
                0,
                s2,
            ) by {
                if s2 == s {
                    lemma_single_head(heads@, vertices@, slot_cnt as nat, depth, s2);
                    assert(queue@[queue@.len() - 1] == s2);
                } else {
                    let t = choose|t: int| 0 <= t < q0.len() && q0[t] == s2;
                    assert(queue@[t] == s2);
                }
            }
        }
        s += 1;
    }
    let mut queue_head: usize = 0;
    let mut order: Vec<usize> = Vec::new();
    let ghost mut peeled: Seq<bool> = Seq::new(m as nat, |i: int| false);
    let ghost mut unpeeled: nat = m as nat;
    let ghost mut free: Seq<nat> = Seq::empty();
    proof {
        lemma_count_false_all(m as nat);
    }
    while queue_head < queue.len()
        invariant
            m == edges@.len() < 0x1000_0000,
            vertices@.len() == 3 * m,
            heads@.len() == slot_cnt,
            lists_ok(heads@, vertices@, slot_cnt as nat),
            depth_ok(vertices@, depth),
            peeled.len() == m,
            forall|x: int|
                0 <= x < 3 * m ==> (#[trigger] vertices@[x].slot != NONE <==> !peeled[x / 3]),
            forall|x: int|
                0 <= x < 3 * m && vertices@[x].slot != NONE ==> #[trigger] vertices@[x].slot
                    == edges@[x / 3].slots@[x % 3],
            forall|t: int| 0 <= t < queue@.len() ==> #[trigger] queue@[t] < slot_cnt,
            queue_head <= queue@.len(),
            forall|t: int| 0 <= t < order@.len() ==> #[trigger] order@[t] < m && peeled[order@[t] as int],
            forall|t: int, u: int|
                0 <= t < u < order@.len() ==> #[trigger] order@[t] != #[trigger] order@[u],
            forall|ee: int| 0 <= ee < m && #[trigger] peeled[ee] ==> removed_upto(order@, order@.len() - 1, ee),
            free.len() == order@.len(),
            forall|t: int| 0 <= t < order@.len() ==> #[trigger] free[t] < 3,
            forall|t: int, ee: int, j: int|
                0 <= t < order@.len() && 0 <= ee < m && 0 <= j < 3 && !removed_upto(order@, t, ee)
                    ==> #[trigger] edges@[ee].slots@[j] != #[trigger] edges@[order@[t] as int].slots@[free[t] as int],
            unpeeled == count_false(peeled),
            order@.len() + unpeeled == m,
            forall|s2: int|
                0 <= s2 < slot_cnt && #[trigger] one_live(vertices@, s2) ==> queued_from(
                    queue@,
                    queue_head as int,
                    s2,
                ),
        decreases queue@.len() - queue_head + 3 * unpeeled,
    {
        let slot: usize = queue[queue_head];
        let ghost qh0 = queue_head as int;
        queue_head += 1;
        let head: usize = heads[slot];
        proof {
            assert(head_ok(heads@, vertices@, slot as int));
            assert forall|s2: int|
                0 <= s2 < slot_cnt && #[trigger] one_live(vertices@, s2) && s2 != slot implies queued_from(
                queue@,
                queue_head as int,
                s2,
            ) by {
                let t = choose|t: int| qh0 <= t < queue@.len() && queue@[t] == s2;
                assert(t != qh0);
            }
        }
        if head == NONE || vertices[head].next != NONE {
            proof {
                if one_live(vertices@, slot as int) {
                    lemma_single_head(heads@, vertices@, slot_cnt as nat, depth, slot as int);
                }
            }
            continue;
        }
        let edge_idx: usize = head / 3;
        let ghost h = head as int;
        let ghost o0 = order@;
        proof {
            assert(vertices@[h].slot != NONE);
            assert(!peeled[edge_idx as int]);
            assert(vertices@[h].slot == edges@[h / 3].slots@[h % 3]);
            assert forall|x: int|
                0 <= x < 3 * m && vertices@[x].slot != NONE && x / 3 != edge_idx implies #[trigger] vertices@[x].slot
                    != slot by {
                if vertices@[x].slot == slot {
                    lemma_only_head(heads@, vertices@, slot_cnt as nat, depth, x);
                }
            }
            lemma_count_false_update(peeled, edge_idx as int);
            peeled = peeled.update(edge_idx as int, true);
            unpeeled = (unpeeled - 1) as nat;
            free = free.push((h % 3) as nat);
        }
        order.push(edge_idx);
        proof {
            let o1 = order@;
            assert forall|ee: int| 0 <= ee < m && #[trigger] peeled[ee] implies removed_upto(
                o1,
                o1.len() - 1,
                ee,
            ) by {
                if ee == edge_idx {
                    assert(o1[o1.len() - 1] == ee);
                } else {
                    assert(removed_upto(o0, o0.len() - 1, ee));
                    let u = choose|u: int| 0 <= u <= o0.len() - 1 && o0[u] == ee;
                    assert(o1[u] == ee);
                }
            }
            assert forall|t: int, ee: int|
                0 <= t < o0.len() && 0 <= ee < m implies removed_upto(o1, t, ee) == removed_upto(
                o0,
                t,
                ee,
            ) by {
                if removed_upto(o1, t, ee) {
                    let u = choose|u: int| 0 <= u <= t && o1[u] == ee;
                    assert(o0[u] == ee);
                }
                if removed_upto(o0, t, ee) {
                    let u = choose|u: int| 0 <= u <= t && o0[u] == ee;
                    assert(o1[u] == ee);
                }
            }
        }
        proof {
            assert(vertices@[h].slot == slot);
            assert(h == 3 * edge_idx + h % 3);
            assert forall|s2: int|
                0 <= s2 < slot_cnt && #[trigger] one_live(vertices@, s2) implies queued_from(
                queue@,
                queue_head as int,
                s2,
            ) || edge_holds(vertices@, edge_idx as int, 0, s2) by {
                if s2 == slot {
                    assert(slot_of(vertices@, edge_idx as int, h % 3) == s2);
                }
            }
        }
        let ghost q0 = queue@.len();
        let mut off: usize = 0;
        while off < 3
            invariant
                m == edges@.len() < 0x1000_0000,
                edge_idx < m,
                off <= 3,
                vertices@.len() == 3 * m,
                heads@.len() == slot_cnt,
                lists_ok(heads@, vertices@, slot_cnt as nat),
                depth_ok(vertices@, depth),
                peeled.len() == m,
                peeled[edge_idx as int],
                forall|x: int|
                    0 <= x < 3 * m && x / 3 != edge_idx ==> (#[trigger] vertices@[x].slot != NONE
                        <==> !peeled[x / 3]),
                forall|x: int|
                    0 <= x < 3 * m && x / 3 == edge_idx && x % 3 < off ==> #[trigger] vertices@[x].slot
                        == NONE,
                forall|x: int|
                    0 <= x < 3 * m && vertices@[x].slot != NONE ==> #[trigger] vertices@[x].slot
                        == edges@[x / 3].slots@[x % 3],
                forall|x: int|
                    0 <= x < 3 * m && vertices@[x].slot != NONE && x / 3 != edge_idx
                        ==> #[trigger] vertices@[x].slot != slot,
                forall|t: int| 0 <= t < queue@.len() ==> #[trigger] queue@[t] < slot_cnt,
                q0 <= queue@.len() <= q0 + off,
                queue_head <= queue@.len(),
                forall|s2: int|
                    0 <= s2 < slot_cnt && #[trigger] one_live(vertices@, s2) ==> queued_from(
                        queue@,
                        queue_head as int,
                        s2,
                    ) || edge_holds(vertices@, edge_idx as int, off as int, s2),
            decreases 3 - off,
        {
            let node: usize = edge_idx * 3 + off;
            let vslot: usize = vertices[node].slot;
            let ghost v0 = vertices@;
            let ghost qa = queue@;
            proof {
                if vslot != NONE {
                    assert(vertex_ok(heads@, vertices@, slot_cnt as nat, node as int));
                }
                assert((node as int) / 3 == edge_idx && (node as int) % 3 == off);
            }
            if vslot != NONE {
                let Ghost(d) = unlink(
                    &mut heads,
                    &mut vertices,
                    node,
                    Ghost(slot_cnt as nat),
                    Ghost(depth),
                );
                proof {
                    depth = d;
                }
                let head: usize = heads[vslot];
                proof {
                    assert(vslot < slot_cnt);
                    assert(head_ok(heads@, vertices@, vslot as int));
                }
                if head != NONE && vertices[head].next == NONE {
                    queue.push(vslot);
                }
            }
            proof {
                assert forall|s2: int|
                    0 <= s2 < slot_cnt && #[trigger] one_live(vertices@, s2) implies queued_from(
                    queue@,
                    queue_head as int,
                    s2,
                ) || edge_holds(vertices@, edge_idx as int, off + 1, s2) by {
                    if vslot != NONE && s2 == vslot {
                        lemma_single_head(heads@, vertices@, slot_cnt as nat, depth, s2);
                        assert(queue@[queue@.len() - 1] == s2);
                    } else {
                        if vslot != NONE {
                            lemma_one_live_frame(v0, vertices@, node as int, s2);
                        }
                        if queued_from(qa, queue_head as int, s2) {
                            let t = choose|t: int| queue_head <= t < qa.len() && qa[t] == s2;
                            assert(queue@[t] == s2);
                        } else {
                            let k = choose|k: int| off <= k < 3 && #[trigger] slot_of(v0, edge_idx as int, k) == s2;
                            assert(k != off);
                            assert(slot_of(vertices@, edge_idx as int, k) == s2);
                        }
                    }
                }
            }
            off += 1;
        }
        proof {
            let o1 = order@;
            let t0 = o0.len() as int;
            assert(edges@[o1[t0] as int].slots@[free[t0] as int] == slot);
            assert forall|ee: int, j: int|
                0 <= ee < m && 0 <= j < 3 && !removed_upto(o1, t0, ee) implies #[trigger] edges@[ee].slots@[j]
                    != slot by {
                if ee == edge_idx {
                    assert(o1[t0] == ee);
                }
                if peeled[ee] {
                    assert(removed_upto(o1, o1.len() - 1, ee));
                }
                let x = 3 * ee + j;
                assert(x / 3 == ee && x % 3 == j);
                assert(vertices@[x].slot != NONE);
            }
        }
    }
    if order.len() == m {
        proof {
            let o = order@;
            assert forall|ee: int| 0 <= ee < m implies #[trigger] removed_upto(o, o.len() - 1, ee) by {
                lemma_count_false_zero(peeled, ee);
            }
            assert forall|t: int, u: int, j: int|
                0 <= t < u < o.len() && 0 <= j < 3 implies #[trigger] edges@[o[u] as int].slots@[j]
                    != #[trigger] edges@[o[t] as int].slots@[free[t] as int] by {
                if removed_upto(o, t, o[u] as int) {
                    let w = choose|w: int| 0 <= w <= t && o[w] == o[u];
                    assert(o[w] != o[u]);
                }
            }
        }
        Some((order, Ghost(free)))
    } else {
        proof {
            assert forall|s2: int| 0 <= s2 < slot_cnt implies !#[trigger] one_live(vertices@, s2) by {
                if one_live(vertices@, s2) {
                    assert(queued_from(queue@, queue_head as int, s2));
                }
            }
            let e0 = lemma_count_false_pos(peeled);
            assert forall|o: Seq<usize>, f: Seq<nat>| !#[trigger] is_peeling(edges@, o, f) by {
                lemma_no_peeling(edges@, vertices@, peeled, slot_cnt as nat, e0, o, f);
            }
        }
        None
    }
}

} // verus!

verus! {

/// The 2-bit value of slot `p` in a bitmap.
pub open spec fn bm2(bitmap: Seq<u8>, p: nat) -> u8 {
    (bitmap[(p / 4) as int] >> (2 * (p % 4)) as u8) & 3u8
}

fn get_bit2(bitmap: &Vec<u8>, pos: usize) -> (r: u8)
    requires
        pos / 4 < bitmap@.len(),
    ensures
        r == bm2(bitmap@, pos as nat),
        r <= 3,
{
    let byte: u8 = bitmap[pos / 4];
    let shift: u8 = (2 * (pos % 4)) as u8;
    let r: u8 = (byte >> shift) & 3u8;
    assert(r <= 3) by (bit_vector)
        requires
            r == (byte >> shift) & 3u8,
    ;
    r
}

fn set_bit2(bitmap: &mut Vec<u8>, pos: usize, val: u8)
    requires
        pos / 4 < old(bitmap)@.len(),
        val <= 3,
    ensures
        final(bitmap)@.len() == old(bitmap)@.len(),
        bm2(final(bitmap)@, pos as nat) == val,
        forall|q: nat| q != pos && q / 4 < old(bitmap)@.len() ==> #[trigger] bm2(final(bitmap)@, q)
            == bm2(old(bitmap)@, q),
{
    let idx: usize = pos / 4;
    let shift: u8 = (2 * (pos % 4)) as u8;
    let old_byte: u8 = bitmap[idx];
    let new_byte: u8 = (old_byte & !(3u8 << shift)) | ((val & 3u8) << shift);
    bitmap.set(idx, new_byte);
    proof {
        assert(shift <= 6 && val <= 3 ==> (((old_byte & !(3u8 << shift)) | ((val & 3u8) << shift))
            >> shift) & 3u8 == val) by (bit_vector);
        assert forall|q: nat| q != pos && q / 4 < old(bitmap)@.len() implies #[trigger] bm2(
            bitmap@,
            q,
        ) == bm2(old(bitmap)@, q) by {
            if q / 4 == idx {
                let t: u8 = (2 * (q % 4)) as u8;
                assert(q % 4 != pos % 4);
                assert(t != shift);
                assert(shift <= 6 && t <= 6 && t != shift && (t == 0 || t == 2 || t == 4 || t == 6)
                    && (shift == 0 || shift == 2 || shift == 4 || shift == 6) ==> (((old_byte & !(3u8
                    << shift)) | ((val & 3u8) << shift)) >> t) & 3u8 == (old_byte >> t) & 3u8)
                    by (bit_vector);
            }
        }
    }
}

proof fn lemma_le_u32_header(v: u32, data: Seq<u8>)
    requires
        data.len() >= 4,
        data.subrange(0, 4) == crate::access::le_bytes_u32(v),
    ensures
        le_bytes(data, 0, 4) == v as u64,
{
    lemma_le_u32_at(v, data, 0);
}

proof fn lemma_le_u32_at(v: u32, data: Seq<u8>, start: int)
    requires
        0 <= start,
        data.len() >= start + 4,
        data.subrange(start, start + 4) == crate::access::le_bytes_u32(v),
    ensures
        le_bytes(data, start, 4) == v as u64,
{
    reveal_with_fuel(le_bytes, 5);
    assert(data[start] == crate::access::le_bytes_u32(v)[0]);
    assert(data[start + 1] == crate::access::le_bytes_u32(v)[1]);
    assert(data[start + 2] == crate::access::le_bytes_u32(v)[2]);
    assert(data[start + 3] == crate::access::le_bytes_u32(v)[3]);
    let b0: u8 = (v & 0xff) as u8;
    let b1: u8 = ((v >> 8u32) & 0xff) as u8;
    let b2: u8 = ((v >> 16u32) & 0xff) as u8;
    let b3: u8 = (v >> 24u32) as u8;
    assert(((b0 as u64) | (((b1 as u64) | (((b2 as u64) | (((b3 as u64) | (0u64 << 8u64))
        << 8u64)) << 8u64)) << 8u64)) == v as u64) by (bit_vector)
        requires
            b0 == (v & 0xff) as u8,
            b1 == ((v >> 8u32) & 0xff) as u8,
            b2 == ((v >> 16u32) & 0xff) as u8,
            b3 == (v >> 24u32) as u8,
    ;
}

/// One or two little-endian bytes give back a count small enough for them.
proof fn lemma_le_small_bits(cnt: u64)
    by (bit_vector)
    ensures
        cnt < 0x100 ==> (((cnt & 0xff) as u8) as u64 | (0u64 << 8u64)) == cnt,
        cnt < 0x10000 ==> (((cnt & 0xff) as u8) as u64 | ((((((cnt >> 8u64) & 0xff) as u8) as u64)
            | (0u64 << 8u64)) << 8u64)) == cnt,
{
}

/// Number of slots before slot `n` whose 2-bit value is not 3.
spec fn bm_valid_before(bitmap: Seq<u8>, n: nat) -> nat
    decreases n,
{
    if n == 0 {
        0
    } else {
        bm_valid_before(bitmap, (n - 1) as nat) + if bm2(bitmap, (n - 1) as nat) != 3 {
            1nat
        } else {
            0nat
        }
    }
}

proof fn lemma_valid_before_monotone(bitmap: Seq<u8>, a: nat, b: nat)
    requires
        a <= b,
    ensures
        bm_valid_before(bitmap, a) <= bm_valid_before(bitmap, b),
    decreases b,
{
    if a < b {
        lemma_valid_before_monotone(bitmap, a, (b - 1) as nat);
    }
}

/// Number of valid slots (value not 3) among the 32 slots of `block`.
fn block_valid(bitmap: &Vec<u8>, block: usize) -> (r: u64)
    requires
        block * 8 + 8 <= bitmap@.len(),
        bitmap@.len() <= 0x1000_0000,
    ensures
        r <= 32,
        bm_valid_before(bitmap@, (32 * block) as nat) + r == bm_valid_before(
            bitmap@,
            (32 * block + 32) as nat,
        ),
{
    let mut cnt: u64 = 0;
    let mut j: usize = 0;
    while j < 32
        invariant
            j <= 32,
            cnt <= j,
            block * 8 + 8 <= bitmap@.len(),
            bitmap@.len() <= 0x1000_0000,
            bm_valid_before(bitmap@, (32 * block) as nat) + cnt == bm_valid_before(
                bitmap@,
                (32 * block + j) as nat,
            ),
        decreases 32 - j,
    {
        assert((block * 32 + j) / 4 < bitmap@.len()) by (nonlinear_arith)
            requires
                block * 8 + 8 <= bitmap@.len(),
                j < 32,
        ;
        if get_bit2(bitmap, block * 32 + j) != 3 {
            cnt += 1;
        }
        j += 1;
    }
    cnt
}

/// The keys' slots for `seed`.
fn edges_for<K: KeyBytes>(keys: &[K], seed: u32, section: usize, magic: u64) -> (r: Vec<Edge>)
    requires
        10 <= section <= 0x0a80_0000,
        magic == spec_fast_mod_magic(section as u32),
    ensures
        r@.len() == keys@.len(),
        forall|e: int, k: int|
            0 <= e < keys@.len() && 0 <= k < 3 ==> #[trigger] r@[e].slots@[k] < 3 * section,
        forall|e: int|
            0 <= e < keys@.len() ==> #[trigger] r@[e].slots@ == key_slots(
                keys@[e].spec_key(),
                seed,
                section as nat,
            ).map_values(|v: nat| v as usize),
{
    let total: usize = keys.len();
    let mut edges: Vec<Edge> = Vec::with_capacity(total);
    let mut i: usize = 0;
    while i < total
        invariant
            i <= total,
            total == keys@.len(),
            10 <= section <= 0x0a80_0000,
            magic == spec_fast_mod_magic(section as u32),
            edges@.len() == i,
            forall|e: int, k: int|
                0 <= e < i && 0 <= k < 3 ==> #[trigger] edges@[e].slots@[k] < 3 * section,
            forall|e: int|
                0 <= e < i ==> #[trigger] edges@[e].slots@ == key_slots(
                    keys@[e].spec_key(),
                    seed,
                    section as nat,
                ).map_values(|v: nat| v as usize),
        decreases total - i,
    {
        let edge: Edge = edge_of(keys[i].key_bytes(), seed, section, magic);
        let ghost prev = edges@;
        edges.push(edge);
        proof {
            assert forall|e: int, k: int| 0 <= e < i + 1 && 0 <= k < 3 implies #[trigger] edges@[e].slots@[k]
                < 3 * section by {
                if e == i {
                    assert(edges@[e] == edge);
                    assert(edge.slots@[k] < 3 * section);
                } else {
                    assert(edges@[e] == prev[e]);
                    assert(prev[e].slots@[k] < 3 * section);
                }
            }
            assert(edges@[i as int] == edge);
            assert forall|e: int| 0 <= e < i implies #[trigger] edges@[e].slots@ == key_slots(
                keys@[e].spec_key(),
                seed,
                section as nat,
            ).map_values(|v: nat| v as usize) by {
                assert(edges@[e] == prev[e]);
            }
        }
        i += 1;
    }
    edges
}

/// Tries seeds from the generator until one separates the keys: gives the
/// seed, the keys' slots for it, the order in which the keys peel, and for
/// each place of that order the slot no later key uses. Gives none only
/// when none of the `tries` seeds drawn gives a graph that peels.
#[verifier::rlimit(60)]
fn find_seed<K: KeyBytes>(keys: &[K], section: usize, magic: u64, tries: usize, rand32: &mut [u32; 4]) -> (r:
    Option<(u32, Vec<Edge>, Vec<usize>, Ghost<Seq<nat>>)>)
    requires
        10 <= section <= 0x0a80_0000,
        magic == spec_fast_mod_magic(section as u32),
        keys@.len() < 0x1000_0000,
    ensures
        r is None <==> seeds_fail(key_seqs(keys@), old(rand32)@, tries as nat, section as nat),
        r matches Some((seed, edges, order, free)) ==> {
            &&& edges@.len() == keys@.len()
            &&& order@.len() == keys@.len()
            &&& forall|t: int| 0 <= t < order@.len() ==> #[trigger] order@[t] < keys@.len()
            &&& forall|t: int, u: int|
                0 <= t < u < order@.len() ==> #[trigger] order@[t] != #[trigger] order@[u]
            &&& forall|e: int, k: int|
                0 <= e < keys@.len() && 0 <= k < 3 ==> #[trigger] edges@[e].slots@[k] < 3 * section
            &&& forall|e: int|
                0 <= e < keys@.len() ==> #[trigger] edges@[e].slots@ == key_slots(
                    keys@[e].spec_key(),
                    seed,
                    section as nat,
                ).map_values(|v: nat| v as usize)
            &&& free@.len() == order@.len()
            &&& forall|t: int| 0 <= t < order@.len() ==> #[trigger] free@[t] < 3
            &&& forall|t: int, u: int, j: int|
                0 <= t < u < order@.len() && 0 <= j < 3 ==> #[trigger] edges@[order@[u] as int].slots@[j]
                    != #[trigger] edges@[order@[t] as int].slots@[free@[t] as int]
            &&& forall|ee: int| 0 <= ee < keys@.len() ==> #[trigger] removed_upto(order@, order@.len() - 1, ee)
        },
{
    let mut attempt: usize = 0;
    while attempt < tries
        invariant
            10 <= section <= 0x0a80_0000,
            magic == spec_fast_mod_magic(section as u32),
            keys@.len() < 0x1000_0000,
            attempt <= tries,
            rand32@ == state_after(old(rand32)@, attempt as nat),
            forall|i: int|
                0 <= i < attempt ==> !graph_peels(
                    key_graph(key_seqs(keys@), #[trigger] seed_at(old(rand32)@, i), section as nat),
                ),
        decreases tries - attempt,
    {
        let seed: u32 = next_seed(rand32);
        let edges: Vec<Edge> = edges_for(keys, seed, section, magic);
        match peel_graph(&edges, section * 3) {
            Some((order, free)) => {
                proof {
                    let g = key_graph(key_seqs(keys@), seed, section as nat);
                    assert(seed == seed_at(old(rand32)@, attempt as int));
                    assert forall|e: int, k: int| 0 <= e < g.len() && 0 <= k < 3 implies #[trigger] g[e][k]
                        == edges@[e].slots@[k] as nat by {
                        assert(edges@[e].slots@ == key_slots(keys@[e].spec_key(), seed, section as nat).map_values(
                            |v: nat| v as usize,
                        ));
                    }
                    lemma_peeling_edges(edges@, g, order@, free@);
                    reveal(seeds_fail);
                    assert(graph_peels(key_graph(key_seqs(keys@), seed_at(old(rand32)@, attempt as int), section as nat)));
                }
                return Some((seed, edges, order, free));
            },
            None => {
                proof {
                    let g = key_graph(key_seqs(keys@), seed, section as nat);
                    assert(seed == seed_at(old(rand32)@, attempt as int));
                    assert forall|e: int, k: int| 0 <= e < g.len() && 0 <= k < 3 implies #[trigger] g[e][k]
                        == edges@[e].slots@[k] as nat by {
                        assert(edges@[e].slots@ == key_slots(keys@[e].spec_key(), seed, section as nat).map_values(
                            |v: nat| v as usize,
                        ));
                    }
                    if graph_peels(g) {
                        let (o, f) = choose|o: Seq<usize>, f: Seq<nat>| peels_by(g, o, f);
                        lemma_edges_peeling(edges@, g, o, f);
                    }
                }
            },
        }
        attempt += 1;
    }
    proof {
        reveal(seeds_fail);
    }
    None
}

/// Slot `j` of the key at place `u` of `order`.
spec fn edge_slot(edges: Seq<Edge>, order: Seq<usize>, u: int, j: int) -> nat {
    edges[order[u] as int].slots@[j] as nat
}

/// The sum of the 2-bit values of the three slots of the key at place `u`.
spec fn edge_sum(bitmap: Seq<u8>, edges: Seq<Edge>, order: Seq<usize>, u: int) -> nat {
    bm2(bitmap, edge_slot(edges, order, u, 0)) as nat + bm2(bitmap, edge_slot(edges, order, u, 1))
        as nat + bm2(bitmap, edge_slot(edges, order, u, 2)) as nat
}

/// The slot the key at place `u` is given.
spec fn chosen_slot(edges: Seq<Edge>, order: Seq<usize>, cidx: Seq<nat>, u: int) -> nat {
    edge_slot(edges, order, u, cidx[u] as int)
}

/// Whether slot `p` is the slot of one of the keys.
spec fn is_chosen(edges: Seq<Edge>, order: Seq<usize>, cidx: Seq<nat>, p: nat) -> bool {
    exists|u: int| 0 <= u < order.len() && p == #[trigger] chosen_slot(edges, order, cidx, u)
}

proof fn lemma_full_byte()
    by (bit_vector)
    ensures
        forall|sh: u8| sh <= 6 ==> #[trigger] ((0xffu8 >> sh) & 3u8) == 3u8,
{
}

/// Gives each key, in reverse peeling order, its first slot not taken by a
/// key placed before it, and sets that slot's 2-bit value so that the three
/// values of the key's slots add up to the slot's place among them. Gives
/// the bitmap and, for each place of `order`, which of the key's slots it
/// got: the sums pick the slots, the slots picked are distinct, and they
/// are the only slots whose value is not 3.
fn assign_bitmap(
    edges: &Vec<Edge>,
    order: &Vec<usize>,
    Ghost(free): Ghost<Seq<nat>>,
    slot_cnt: usize,
    bitmap_size: usize,
) -> (r: (Vec<u8>, Ghost<Seq<nat>>))
    requires
        order@.len() == edges@.len(),
        forall|t: int| 0 <= t < order@.len() ==> #[trigger] order@[t] < edges@.len(),
        forall|e: int, k: int|
            0 <= e < edges@.len() && 0 <= k < 3 ==> #[trigger] edges@[e].slots@[k] < slot_cnt,
        forall|e: int|
            0 <= e < edges@.len() ==> (#[trigger] edges@[e].slots@[0]) != edges@[e].slots@[1]
                && edges@[e].slots@[0] != edges@[e].slots@[2] && edges@[e].slots@[1]
                != edges@[e].slots@[2],
        slot_cnt <= bitmap_size * 4,
        free.len() == order@.len(),
        forall|t: int| 0 <= t < order@.len() ==> #[trigger] free[t] < 3,
        forall|t: int, u: int, j: int|
            0 <= t < u < order@.len() && 0 <= j < 3 ==> #[trigger] edges@[order@[u] as int].slots@[j]
                != #[trigger] edges@[order@[t] as int].slots@[free[t] as int],
    ensures
        r.0@.len() == bitmap_size,
        r.1@.len() == order@.len(),
        forall|u: int| 0 <= u < order@.len() ==> #[trigger] r.1@[u] < 3,
        forall|u: int|
            0 <= u < order@.len() ==> #[trigger] edge_sum(r.0@, edges@, order@, u) % 3 == r.1@[u],
        forall|u: int|
            0 <= u < order@.len() ==> bm2(r.0@, #[trigger] chosen_slot(edges@, order@, r.1@, u))
                != 3,
        forall|u: int, v: int|
            0 <= u < v < order@.len() ==> #[trigger] chosen_slot(edges@, order@, r.1@, u)
                != #[trigger] chosen_slot(edges@, order@, r.1@, v),
        forall|p: nat|
            p < bitmap_size * 4 && #[trigger] bm2(r.0@, p) != 3 ==> is_chosen(
                edges@,
                order@,
                r.1@,
                p,
            ),
{
    let total: usize = order.len();
    let mut bitmap: Vec<u8> = vec![0xffu8; bitmap_size];
    let mut taken: Vec<bool> = vec![false; slot_cnt];
    let ghost mut cidx: Seq<nat> = Seq::new(total as nat, |i: int| 0nat);
    proof {
        lemma_full_byte();
        assert forall|p: nat| p < bitmap_size * 4 implies #[trigger] bm2(bitmap@, p) == 3 by {
            assert(bitmap@[(p / 4) as int] == 0xffu8);
        }
    }
    let mut t: usize = total;
    while t > 0
        invariant
            t <= total,
            edges@.len() == total,
            order@.len() == total,
            forall|u: int| 0 <= u < order@.len() ==> #[trigger] order@[u] < total,
            forall|e: int, k: int|
                0 <= e < total && 0 <= k < 3 ==> #[trigger] edges@[e].slots@[k] < slot_cnt,
            forall|e: int|
                0 <= e < total ==> (#[trigger] edges@[e].slots@[0]) != edges@[e].slots@[1]
                    && edges@[e].slots@[0] != edges@[e].slots@[2] && edges@[e].slots@[1]
                    != edges@[e].slots@[2],
            free.len() == total,
            forall|u: int| 0 <= u < total ==> #[trigger] free[u] < 3,
            forall|w: int, u: int, j: int|
                0 <= w < u < total && 0 <= j < 3 ==> #[trigger] edges@[order@[u] as int].slots@[j]
                    != #[trigger] edges@[order@[w] as int].slots@[free[w] as int],
            taken@.len() == slot_cnt,
            bitmap@.len() == bitmap_size,
            slot_cnt <= bitmap_size * 4,
            cidx.len() == total,
            forall|u: int| t <= u < total ==> #[trigger] cidx[u] < 3,
            forall|u: int, j: int|
                t <= u < total && 0 <= j < 3 ==> taken@[#[trigger] edge_slot(edges@, order@, u, j) as int],
            forall|p: int|
                0 <= p < slot_cnt && #[trigger] taken@[p] ==> exists|u: int, j: int|
                    t <= u < total && 0 <= j < 3 && p == #[trigger] edge_slot(edges@, order@, u, j),
            forall|u: int|
                t <= u < total ==> #[trigger] edge_sum(bitmap@, edges@, order@, u) % 3 == cidx[u],
            forall|u: int|
                t <= u < total ==> bm2(bitmap@, #[trigger] chosen_slot(edges@, order@, cidx, u)) != 3,
            forall|u: int, v: int|
                t <= u < v < total ==> #[trigger] chosen_slot(edges@, order@, cidx, u)
                    != #[trigger] chosen_slot(edges@, order@, cidx, v),
            forall|p: nat|
                p < bitmap_size * 4 && #[trigger] bm2(bitmap@, p) != 3 ==> exists|u: int|
                    t <= u < total && p == #[trigger] chosen_slot(edges@, order@, cidx, u),
        decreases t,
    {
        t -= 1;
        let e: usize = order[t];
        let a: usize = edges[e].slots[0];
        let b: usize = edges[e].slots[1];
        let c: usize = edges[e].slots[2];
        let ghost taken0 = taken@;
        let ghost bm0 = bitmap@;
        let ghost ti = t as int;
        proof {
            assert(edge_slot(edges@, order@, ti, 0) == a);
            assert(edge_slot(edges@, order@, ti, 1) == b);
            assert(edge_slot(edges@, order@, ti, 2) == c);
            let f = edges@[e as int].slots@[free[ti] as int];
            if taken0[f as int] {
                let (u, j) = choose|u: int, j: int|
                    ti + 1 <= u < total && 0 <= j < 3 && f == #[trigger] edge_slot(
                        edges@,
                        order@,
                        u,
                        j,
                    );
                assert(edges@[order@[u] as int].slots@[j] != edges@[order@[ti] as int].slots@[free[ti] as int]);
            }
        }
        let chosen: usize;
        let target: u16;
        if !taken[a] {
            taken.set(a, true);
            taken.set(b, true);
            taken.set(c, true);
            chosen = a;
            target = 0;
        } else if !taken[b] {
            taken.set(b, true);
            taken.set(c, true);
            chosen = b;
            target = 1;
        } else {
            taken.set(c, true);
            chosen = c;
            target = 2;
        }
        let sum: u16 = if chosen == a {
            get_bit2(&bitmap, b) as u16 + get_bit2(&bitmap, c) as u16
        } else if chosen == b {
            get_bit2(&bitmap, a) as u16 + get_bit2(&bitmap, c) as u16
        } else {
            get_bit2(&bitmap, a) as u16 + get_bit2(&bitmap, b) as u16
        };
        let val: u8 = ((target + 3 - sum % 3) % 3) as u8;
        set_bit2(&mut bitmap, chosen, val);
        let ghost cidx0 = cidx;
        proof {
            cidx = cidx.update(ti, target as nat);
            assert(!taken0[chosen as int]);
            assert forall|u: int| ti < u < total implies #[trigger] chosen_slot(edges@, order@, cidx, u)
                == chosen_slot(edges@, order@, cidx0, u) && cidx[u] == cidx0[u] by {}
            assert(chosen_slot(edges@, order@, cidx, ti) == chosen);
            let bm1 = bitmap@;
            // slots of keys placed earlier keep their values
            assert forall|u: int, j: int|
                ti + 1 <= u < total && 0 <= j < 3 implies bm2(bm1, #[trigger] edge_slot(edges@, order@, u, j))
                    == bm2(bm0, edge_slot(edges@, order@, u, j)) by {
                assert(taken0[edge_slot(edges@, order@, u, j) as int]);
            }
            assert(bm2(bm1, chosen as nat) == val);
            assert(val < 3);
            if chosen == a {
                assert(bm2(bm1, b as nat) == bm2(bm0, b as nat));
                assert(bm2(bm1, c as nat) == bm2(bm0, c as nat));
                assert(sum == bm2(bm0, b as nat) + bm2(bm0, c as nat));
            } else if chosen == b {
                assert(bm2(bm1, a as nat) == bm2(bm0, a as nat));
                assert(bm2(bm1, c as nat) == bm2(bm0, c as nat));
                assert(sum == bm2(bm0, a as nat) + bm2(bm0, c as nat));
            } else {
                assert(bm2(bm1, a as nat) == bm2(bm0, a as nat));
                assert(bm2(bm1, b as nat) == bm2(bm0, b as nat));
                assert(sum == bm2(bm0, a as nat) + bm2(bm0, b as nat));
            }
            assert((val as nat + sum as nat) % 3 == target as nat);
            assert(edge_sum(bm1, edges@, order@, ti) % 3 == cidx[ti]);
            assert forall|u: int| ti <= u < total implies #[trigger] edge_sum(bitmap@, edges@, order@, u) % 3
                == cidx[u] by {
                if u > ti {
                    assert(bm2(bm1, edge_slot(edges@, order@, u, 0)) == bm2(bm0, edge_slot(edges@, order@, u, 0)));
                    assert(bm2(bm1, edge_slot(edges@, order@, u, 1)) == bm2(bm0, edge_slot(edges@, order@, u, 1)));
                    assert(bm2(bm1, edge_slot(edges@, order@, u, 2)) == bm2(bm0, edge_slot(edges@, order@, u, 2)));
                    assert(edge_sum(bm0, edges@, order@, u) % 3 == cidx0[u]);
                }
            }
            assert forall|u: int| ti <= u < total implies bm2(
                bitmap@,
                #[trigger] chosen_slot(edges@, order@, cidx, u),
            ) != 3 by {
                if u > ti {
                    assert(bm2(bm1, edge_slot(edges@, order@, u, cidx[u] as int)) == bm2(
                        bm0,
                        edge_slot(edges@, order@, u, cidx[u] as int),
                    ));
                    assert(bm2(bm0, chosen_slot(edges@, order@, cidx0, u)) != 3);
                }
            }
            assert forall|u: int, v: int|
                ti <= u < v < total implies #[trigger] chosen_slot(edges@, order@, cidx, u)
                    != #[trigger] chosen_slot(edges@, order@, cidx, v) by {
                if u == ti {
                    assert(taken0[edge_slot(edges@, order@, v, cidx[v] as int) as int]);
                } else {
                    assert(chosen_slot(edges@, order@, cidx0, u) != chosen_slot(edges@, order@, cidx0, v));
                }
            }
            assert forall|u: int, j: int|
                ti <= u < total && 0 <= j < 3 implies taken@[#[trigger] edge_slot(edges@, order@, u, j) as int] by {
                if u > ti {
                    assert(taken0[edge_slot(edges@, order@, u, j) as int]);
                }
            }
            assert forall|p: int|
                0 <= p < slot_cnt && #[trigger] taken@[p] implies exists|u: int, j: int|
                    ti <= u < total && 0 <= j < 3 && p == #[trigger] edge_slot(edges@, order@, u, j) by {
                if p == a {
                    assert(edge_slot(edges@, order@, ti, 0) == p);
                } else if p == b {
                    assert(edge_slot(edges@, order@, ti, 1) == p);
                } else if p == c {
                    assert(edge_slot(edges@, order@, ti, 2) == p);
                } else {
                    assert(taken0[p]);
                    let (u, j) = choose|u: int, j: int|
                        ti + 1 <= u < total && 0 <= j < 3 && p == #[trigger] edge_slot(
                            edges@,
                            order@,
                            u,
                            j,
                        );
                    assert(edge_slot(edges@, order@, u, j) == p);
                }
            }
            assert forall|p: nat|
                p < bitmap_size * 4 && #[trigger] bm2(bitmap@, p) != 3 implies exists|u: int|
                    ti <= u < total && p == #[trigger] chosen_slot(edges@, order@, cidx, u) by {
                if p == chosen {
                    assert(chosen_slot(edges@, order@, cidx, ti) == p);
                } else {
                    assert(bm2(bm0, p) != 3);
                    let u = choose|u: int|
                        ti + 1 <= u < total && p == #[trigger] chosen_slot(edges@, order@, cidx0, u);
                    assert(chosen_slot(edges@, order@, cidx, u) == p);
                }
            }
        }
    }
    proof {
        assert forall|p: nat|
            p < bitmap_size * 4 && #[trigger] bm2(bitmap@, p) != 3 implies is_chosen(
                edges@,
                order@,
                cidx,
                p,
            ) by {
            let u = choose|u: int| 0 <= u < total && p == #[trigger] chosen_slot(edges@, order@, cidx, u);
            assert(chosen_slot(edges@, order@, cidx, u) == p);
        }
    }
    (bitmap, Ghost(cidx))
}

/// The index bytes: the key count, the seed, the bitmap, and for each
/// 32-slot block the number of valid slots before it.
fn write_index(total: usize, seed: u32, bitmap: &Vec<u8>) -> (r: Vec<u8>)
    requires
        2 <= total < 0x1000_0000,
        bitmap@.len() == ph_bitmap_size(ph_section(total as nat)),
        bm_valid_before(bitmap@, bitmap@.len() * 4) <= total,
    ensures
        r@.len() == ph_bytes(total as nat),
        r@.subrange(0, 4) == crate::access::le_bytes_u32(total as u32),
        r@.subrange(4, 8) == crate::access::le_bytes_u32(seed),
        forall|i: int| 0 <= i < bitmap@.len() ==> #[trigger] r@[8 + i] == bitmap@[i],
        forall|a: int|
            0 <= a < bitmap@.len() / 8 ==> #[trigger] le_bytes(
                r@,
                8 + bitmap@.len() + a * ph_table_width(total as nat),
                ph_table_width(total as nat),
            ) == bm_valid_before(bitmap@, (32 * a) as nat),
{
    proof {
        lemma_layout_bounds(total as nat);
    }
    let bitmap_size: usize = bitmap.len();
    let width: usize = table_width_of(total as u64) as usize;
    let mut out: Vec<u8> = Vec::new();
    crate::access::le_bytes_of_u32(total as u32, &mut out);
    crate::access::le_bytes_of_u32(seed, &mut out);
    let ghost head = out@;
    proof {
        assert(head.subrange(0, 4) =~= crate::access::le_bytes_u32(total as u32));
        assert(head.subrange(4, 8) =~= crate::access::le_bytes_u32(seed));
    }
    let mut k: usize = 0;
    while k < bitmap_size
        invariant
            k <= bitmap_size,
            bitmap@.len() == bitmap_size,
            out@.len() == 8 + k,
            head.len() == 8,
            out@.subrange(0, 8) == head,
            forall|i: int| 0 <= i < k ==> #[trigger] out@[8 + i] == bitmap@[i],
        decreases bitmap_size - k,
    {
        let ghost prev = out@;
        out.push(bitmap[k]);
        k += 1;
        proof {
            assert(out@.subrange(0, 8) =~= prev.subrange(0, 8));
        }
    }
    let ghost body = out@;
    let mut cnt: u64 = 0;
    let mut block: usize = 0;
    while block < bitmap_size / 8
        invariant
            block <= bitmap_size / 8,
            bitmap@.len() == bitmap_size,
            bitmap_size % 8 == 0,
            bitmap_size <= 0x1000_0000,
            width == ph_table_width(total as nat),
            width == 0 || width == 1 || width == 2 || width == 4,
            width == 1 ==> total <= 0xff,
            width == 2 ==> total <= 0xffff,
            width == 0 ==> bitmap_size == 8,
            bm_valid_before(bitmap@, bitmap@.len() * 4) <= total,
            cnt <= 32 * block,
            cnt == bm_valid_before(bitmap@, (32 * block) as nat),
            body.len() == 8 + bitmap_size,
            out@.len() == 8 + bitmap_size + block * width,
            out@.subrange(0, 8 + bitmap_size as int) == body,
            forall|a: int|
                0 <= a < block ==> #[trigger] le_bytes(out@, 8 + bitmap_size + a * width, width as nat)
                    == bm_valid_before(bitmap@, (32 * a) as nat),
        decreases bitmap_size / 8 - block,
    {
        let ghost prev = out@;
        proof {
            lemma_valid_before_monotone(bitmap@, (32 * block) as nat, (bitmap_size * 4) as nat);
            lemma_le_small_bits(cnt);
        }
        let ghost start: int = 8 + bitmap_size + block * width;
        if width == 4 {
            crate::access::le_bytes_of_u32(cnt as u32, &mut out);
            proof {
                assert(out@.subrange(start, start + 4) =~= crate::access::le_bytes_u32(cnt as u32));
                lemma_le_u32_at(cnt as u32, out@, start);
            }
        } else if width == 2 {
            let lo: u8 = (cnt & 0xff) as u8;
            let hi: u8 = ((cnt >> 8u64) & 0xff) as u8;
            out.push(lo);
            out.push(hi);
            proof {
                reveal_with_fuel(le_bytes, 3);
                assert(out@[start] == lo);
                assert(out@[start + 1] == hi);
                assert(le_bytes(out@, start + 2, 0) == 0);
                assert(le_bytes(out@, start + 1, 1) == (hi as u64) | (0u64 << 8u64));
                assert(le_bytes(out@, start, 2) == (lo as u64) | (le_bytes(out@, start + 1, 1) << 8u64));
            }
        } else if width == 1 {
            let lo: u8 = (cnt & 0xff) as u8;
            out.push(lo);
            proof {
                reveal_with_fuel(le_bytes, 2);
                assert(out@[start] == lo);
                assert(le_bytes(out@, start + 1, 0) == 0);
                assert(le_bytes(out@, start, 1) == (lo as u64) | (0u64 << 8u64));
            }
        } else {
            proof {
                assert(block == 0);
            }
        }
        proof {
            assert(le_bytes(out@, start, width as nat) == cnt);
            assert(out@.subrange(0, 8 + bitmap_size as int) =~= prev.subrange(0, 8 + bitmap_size as int));
            assert((block + 1) * width == block * width + width) by (nonlinear_arith);
            assert forall|a: int| 0 <= a < block implies #[trigger] le_bytes(
                out@,
                8 + bitmap_size + a * width,
                width as nat,
            ) == bm_valid_before(bitmap@, (32 * a) as nat) by {
                assert(a * width + width <= block * width) by (nonlinear_arith)
                    requires
                        a < block,
                ;
                lemma_le_prefix(out@, prev, 8 + bitmap_size + a * width, width as nat);
            }
        }
        cnt = cnt + block_valid(bitmap, block);
        block += 1;
    }
    proof {
        assert(bitmap_size / 8 * width == block * width);
        assert forall|i: int| 0 <= i < bitmap@.len() implies #[trigger] out@[8 + i] == bitmap@[i] by {
            assert(out@[8 + i] == body[8 + i]);
        }
        assert(out@.subrange(0, 4) =~= head.subrange(0, 4));
        assert(out@.subrange(4, 8) =~= head.subrange(4, 8));
    }
    out
}

/// Number of entries of `f` below `n`.
spec fn cnt_lt(f: Seq<nat>, n: nat) -> nat
    decreases f.len(),
{
    if f.len() == 0 {
        0
    } else {
        cnt_lt(f.drop_last(), n) + if f.last() < n {
            1nat
        } else {
            0nat
        }
    }
}

/// Number of entries of `f` equal to `n`.
spec fn cnt_eq(f: Seq<nat>, n: nat) -> nat
    decreases f.len(),
{
    if f.len() == 0 {
        0
    } else {
        cnt_eq(f.drop_last(), n) + if f.last() == n {
            1nat
        } else {
            0nat
        }
    }
}

proof fn lemma_cnt_step(f: Seq<nat>, n: nat)
    ensures
        cnt_lt(f, n + 1) == cnt_lt(f, n) + cnt_eq(f, n),
        cnt_lt(f, n) + cnt_eq(f, n) <= f.len(),
    decreases f.len(),
{
    if f.len() > 0 {
        lemma_cnt_step(f.drop_last(), n);
    }
}

proof fn lemma_cnt_eq_member(f: Seq<nat>, n: nat, u: int)
    requires
        0 <= u < f.len(),
        f[u] == n,
    ensures
        cnt_eq(f, n) >= 1,
    decreases f.len(),
{
    if u < f.len() - 1 {
        lemma_cnt_eq_member(f.drop_last(), n, u);
    }
}

/// When every valid slot is an entry of `f`, there are no more valid slots
/// below `n` than entries of `f` below `n`.
proof fn lemma_valid_le_cnt(bitmap: Seq<u8>, f: Seq<nat>, n: nat)
    requires
        forall|p: nat| p < n && bm2(bitmap, p) != 3 ==> exists|u: int| 0 <= u < f.len() && f[u] == p,
    ensures
        bm_valid_before(bitmap, n) <= cnt_lt(f, n),
    decreases n,
{
    if n > 0 {
        let k = (n - 1) as nat;
        lemma_valid_le_cnt(bitmap, f, k);
        lemma_cnt_step(f, k);
        if bm2(bitmap, k) != 3 {
            let u = choose|u: int| 0 <= u < f.len() && f[u] == k;
            lemma_cnt_eq_member(f, k, u);
        }
    }
}

/// A bitmap whose valid slots are all slots given to keys has no more valid
/// slots than keys.
proof fn lemma_valid_at_most_keys(bitmap: Seq<u8>, edges: Seq<Edge>, order: Seq<usize>, cidx: Seq<nat>)
    requires
        forall|p: nat|
            p < bitmap.len() * 4 && #[trigger] bm2(bitmap, p) != 3 ==> is_chosen(edges, order, cidx, p),
    ensures
        bm_valid_before(bitmap, bitmap.len() * 4) <= order.len(),
{
    let f = Seq::new(order.len(), |u: int| chosen_slot(edges, order, cidx, u));
    assert forall|p: nat| p < bitmap.len() * 4 && bm2(bitmap, p) != 3 implies exists|u: int|
        0 <= u < f.len() && f[u] == p by {
        assert(is_chosen(edges, order, cidx, p));
        let u = choose|u: int| 0 <= u < order.len() && p == #[trigger] chosen_slot(edges, order, cidx, u);
        assert(f[u] == p);
    }
    lemma_valid_le_cnt(bitmap, f, bitmap.len() * 4);
    lemma_cnt_step(f, bitmap.len() * 4);
}

/// Valid slots counted block by block in the index bytes agree with the
/// bitmap they were copied from.
proof fn lemma_count_valid_bitmap(data: Seq<u8>, bitmap: Seq<u8>, block: nat, r: nat)
    requires
        r <= 32,
        32 * block + r <= bitmap.len() * 4,
        data.len() >= 8 + bitmap.len(),
        forall|i: int| 0 <= i < bitmap.len() ==> #[trigger] data[8 + i] == bitmap[i],
    ensures
        bm_valid_before(bitmap, 32 * block) + count_valid(data, block, r) == bm_valid_before(
            bitmap,
            32 * block + r,
        ),
    decreases r,
{
    if r > 0 {
        lemma_count_valid_bitmap(data, bitmap, block, (r - 1) as nat);
        let p = 32 * block + (r - 1) as nat;
        assert(data[8 + (p / 4) as int] == bitmap[(p / 4) as int]);
        assert(bit2(data, p) == bm2(bitmap, p) as nat);
    }
}

/// Counting valid slots over more slots counts no fewer.
proof fn lemma_valid_before_mono(bitmap: Seq<u8>, n: nat, k: nat)
    requires
        n <= k,
    ensures
        bm_valid_before(bitmap, n) <= bm_valid_before(bitmap, k),
    decreases k - n,
{
    if n < k {
        lemma_valid_before_mono(bitmap, n, (k - 1) as nat);
    }
}

/// At most `n` of `n` slots are valid.
proof fn lemma_count_valid_le(data: Seq<u8>, block: nat, n: nat)
    ensures
        count_valid(data, block, n) <= n,
    decreases n,
{
    if n > 0 {
        lemma_count_valid_le(data, block, (n - 1) as nat);
    }
}

/// The index a builder writes gives every key some position: its slot and
/// the slot's rank entry lie inside the index, and the rank is small.
proof fn lemma_built_locates(index: Seq<u8>, bitmap: Seq<u8>, key: Seq<u8>, m: nat)
    requires
        2 <= m < 0x1000_0000,
        ph_len(index) == m,
        index.len() == ph_bytes(m),
        bitmap.len() == ph_bitmap_size(ph_section(m)),
        bm_valid_before(bitmap, bitmap.len() * 4) <= m,
        forall|a: int|
            0 <= a < bitmap.len() / 8 ==> #[trigger] le_bytes(
                index,
                8 + bitmap.len() + a * ph_table_width(m),
                ph_table_width(m),
            ) == bm_valid_before(bitmap, (32 * a) as nat),
    ensures
        spec_locate(index, key) is Some,
{
    lemma_layout_bounds(m);
    let sec = ph_section(m);
    let bm = ph_bitmap_size(sec);
    let tw = ph_table_width(m);
    let slot = ph_chosen(index, key);
    assert(slot < 3 * sec);
    let a = slot / 32;
    assert(a * 8 + 8 <= bm) by (nonlinear_arith)
        requires
            slot < 3 * sec,
            a == slot / 32,
            bm == (sec * 3 + 31) / 32 * 8,
    ;
    assert((a + 1) * tw <= bm / 8 * tw) by (nonlinear_arith)
        requires
            a * 8 + 8 <= bm,
    ;
    assert(le_bytes(index, (8 + bm + a * tw) as int, tw) == bm_valid_before(bitmap, (32 * a) as nat));
    lemma_valid_before_mono(bitmap, (32 * a) as nat, bitmap.len() * 4);
    lemma_count_valid_le(index, a, slot % 32);
}

/// When the seeds drawn after one clock value fail, some clock value makes
/// them fail.
proof fn lemma_clock_fails(keys: Seq<Seq<u8>>, clock: u32, tries: nat, section: nat)
    requires
        seeds_fail(keys, ph_start(clock), tries, section),
    ensures
        exists|c: u32| #[trigger] seeds_fail(keys, ph_start(c), tries, section),
{
}

/// What the builder's steps leave: the index bytes, the keys' slots, the
/// peeling order, the slot each key got, and the positions read back.
#[verifier::opaque]
spec fn build_facts<K: KeyBytes>(
    keys: Seq<K>,
    seed: u32,
    section: nat,
    edges: Seq<Edge>,
    order: Seq<usize>,
    cidx: Seq<nat>,
    bitmap: Seq<u8>,
    index: Seq<u8>,
    positions: Seq<usize>,
) -> bool {
    &&& 2 <= keys.len() < 0x1000_0000
    &&& section == ph_section(keys.len())
    &&& ph_len(index) == keys.len()
    &&& index.len() == ph_bytes(keys.len())
    &&& le_bytes(index, 4, 4) == seed as u64
    &&& bitmap.len() == ph_bitmap_size(section)
    &&& forall|i: int| 0 <= i < bitmap.len() ==> #[trigger] index[8 + i] == bitmap[i]
    &&& forall|a: int|
        0 <= a < bitmap.len() / 8 ==> #[trigger] le_bytes(
            index,
            8 + bitmap.len() + a * ph_table_width(keys.len()),
            ph_table_width(keys.len()),
        ) == bm_valid_before(bitmap, (32 * a) as nat)
    &&& edges.len() == keys.len()
    &&& forall|e: int|
        0 <= e < keys.len() ==> #[trigger] edges[e].slots@ == key_slots(
            keys[e].spec_key(),
            seed,
            section,
        ).map_values(|v: nat| v as usize)
    &&& order.len() == keys.len()
    &&& forall|t: int| 0 <= t < order.len() ==> #[trigger] order[t] < keys.len()
    &&& forall|ee: int| 0 <= ee < keys.len() ==> #[trigger] removed_upto(order, order.len() - 1, ee)
    &&& cidx.len() == order.len()
    &&& forall|u: int| 0 <= u < order.len() ==> #[trigger] cidx[u] < 3
    &&& forall|u: int| 0 <= u < order.len() ==> #[trigger] edge_sum(bitmap, edges, order, u) % 3 == cidx[u]
    &&& forall|u: int|
        0 <= u < order.len() ==> bm2(bitmap, #[trigger] chosen_slot(edges, order, cidx, u)) != 3
    &&& forall|u: int, v: int|
        0 <= u < v < order.len() ==> #[trigger] chosen_slot(edges, order, cidx, u)
            != #[trigger] chosen_slot(edges, order, cidx, v)
    &&& forall|p: nat|
        p < bitmap.len() * 4 && #[trigger] bm2(bitmap, p) != 3 ==> is_chosen(edges, order, cidx, p)
    &&& positions.len() == keys.len()
    &&& forall|i: int|
        0 <= i < keys.len() ==> spec_locate(index, #[trigger] keys[i].spec_key()) == Some(
            positions[i] as nat,
        )
}

/// The slots an index gives a key are the key's slots for the index's seed.
proof fn lemma_index_slots(index: Seq<u8>, key: Seq<u8>, seed: u32, section: nat, slots: Seq<usize>)
    requires
        2 <= ph_len(index) < 0x1000_0000,
        section == ph_section(ph_len(index)),
        le_bytes(index, 4, 4) == seed as u64,
        slots == key_slots(key, seed, section).map_values(|v: nat| v as usize),
    ensures
        ph_slots(index, key) == (slots[0] as nat, slots[1] as nat, slots[2] as nat),
{
    let ks = key_slots(key, seed, section);
    assert(slots[0] == ks[0] as usize && slots[1] == ks[1] as usize && slots[2] == ks[2] as usize);
}

/// A key's slot, read back through the index bytes, is the slot it got, and
/// its position is the number of valid slots before that slot.
proof fn lemma_locate_rank(
    index: Seq<u8>,
    key: Seq<u8>,
    bitmap: Seq<u8>,
    s: (nat, nat, nat),
    c: nat,
    pos: nat,
)
    requires
        2 <= ph_len(index) < 0x1000_0000,
        bitmap.len() == ph_bitmap_size(ph_section(ph_len(index))),
        index.len() >= 8 + bitmap.len(),
        forall|i: int| 0 <= i < bitmap.len() ==> #[trigger] index[8 + i] == bitmap[i],
        ph_slots(index, key) == s,
        s.0 < bitmap.len() * 4 && s.1 < bitmap.len() * 4 && s.2 < bitmap.len() * 4,
        c == if (bm2(bitmap, s.0) as nat + bm2(bitmap, s.1) as nat + bm2(bitmap, s.2) as nat) % 3
            == 0 {
            s.0
        } else if (bm2(bitmap, s.0) as nat + bm2(bitmap, s.1) as nat + bm2(bitmap, s.2) as nat)
            % 3 == 1 {
            s.1
        } else {
            s.2
        },
        spec_locate(index, key) == Some(pos),
        forall|a: int|
            0 <= a < bitmap.len() / 8 ==> #[trigger] le_bytes(
                index,
                8 + bitmap.len() + a * ph_table_width(ph_len(index)),
                ph_table_width(ph_len(index)),
            ) == bm_valid_before(bitmap, (32 * a) as nat),
    ensures
        pos == bm_valid_before(bitmap, c),
{
    let bs = bitmap.len();
    lemma_layout_bounds(ph_len(index));
    assert(index[8 + (s.0 / 4) as int] == bitmap[(s.0 / 4) as int]);
    assert(index[8 + (s.1 / 4) as int] == bitmap[(s.1 / 4) as int]);
    assert(index[8 + (s.2 / 4) as int] == bitmap[(s.2 / 4) as int]);
    assert(bit2(index, s.0) == bm2(bitmap, s.0) as nat);
    assert(bit2(index, s.1) == bm2(bitmap, s.1) as nat);
    assert(bit2(index, s.2) == bm2(bitmap, s.2) as nat);
    assert(ph_chosen(index, key) == c);
    let tw = ph_table_width(ph_len(index));
    let a = c / 32;
    assert(a * 8 + 8 <= bs);
    assert(le_bytes(index, (8 + bs + a * tw) as int, tw) == bm_valid_before(bitmap, (32 * a) as nat));
    lemma_count_valid_bitmap(index, bitmap, a, c % 32);
}

/// A built index gives a key the number of valid slots before the slot the
/// key was given.
#[verifier::rlimit(100)]
#[verifier::spinoff_prover]
proof fn lemma_position_is_rank<K: KeyBytes>(
    keys: Seq<K>,
    seed: u32,
    section: nat,
    edges: Seq<Edge>,
    order: Seq<usize>,
    cidx: Seq<nat>,
    bitmap: Seq<u8>,
    index: Seq<u8>,
    positions: Seq<usize>,
    i: int,
) -> (u: int)
    requires
        0 <= i < keys.len(),
        build_facts(keys, seed, section, edges, order, cidx, bitmap, index, positions),
    ensures
        0 <= u < keys.len(),
        order[u] == i,
        positions[i] as nat == bm_valid_before(bitmap, chosen_slot(edges, order, cidx, u)),
        chosen_slot(edges, order, cidx, u) < bitmap.len() * 4,
        bm2(bitmap, chosen_slot(edges, order, cidx, u)) != 3,
{
    let m = keys.len();
    let bs = bitmap.len();
    let key = keys[i].spec_key();
    assert(2 <= m < 0x1000_0000 && section == ph_section(m) && ph_len(index) == m && index.len()
        == ph_bytes(m) && le_bytes(index, 4, 4) == seed as u64 && bs == ph_bitmap_size(section)
        && order.len() == m && cidx.len() == m && positions.len() == m && edges.len() == m) by {
        reveal(build_facts);
    }
    lemma_layout_bounds(m);
    assert(removed_upto(order, order.len() - 1, i)) by {
        reveal(build_facts);
    }
    let u = choose|u: int| 0 <= u <= order.len() - 1 && order[u] == i;
    assert(edges[i].slots@ == key_slots(key, seed, section).map_values(|v: nat| v as usize)) by {
        reveal(build_facts);
    }
    assert(forall|e: int, k: int| 0 <= e < m && 0 <= k < 3 ==> #[trigger] edges[e].slots@[k] < 3 * section) by {
        reveal(build_facts);
        assert forall|e: int, k: int| 0 <= e < m && 0 <= k < 3 implies #[trigger] edges[e].slots@[k] < 3 * section by {
            let ks = key_slots(keys[e].spec_key(), seed, section);
            assert(edges[e].slots@ == ks.map_values(|v: nat| v as usize));
        }
    }
    lemma_index_slots(index, key, seed, section, edges[i].slots@);
    let s = (edge_slot(edges, order, u, 0), edge_slot(edges, order, u, 1), edge_slot(edges, order, u, 2));
    assert(edge_sum(bitmap, edges, order, u) % 3 == cidx[u] && cidx[u] < 3 && bm2(
        bitmap,
        chosen_slot(edges, order, cidx, u),
    ) != 3) by {
        reveal(build_facts);
    }
    let c = chosen_slot(edges, order, cidx, u);
    assert(spec_locate(index, key) == Some(positions[i] as nat)) by {
        reveal(build_facts);
    }
    assert(forall|j: int| 0 <= j < bitmap.len() ==> #[trigger] index[8 + j] == bitmap[j]) by {
        reveal(build_facts);
    }
    assert(forall|a: int|
        0 <= a < bitmap.len() / 8 ==> #[trigger] le_bytes(
            index,
            8 + bitmap.len() + a * ph_table_width(ph_len(index)),
            ph_table_width(ph_len(index)),
        ) == bm_valid_before(bitmap, (32 * a) as nat)) by {
        reveal(build_facts);
    }
    lemma_locate_rank(index, key, bitmap, s, c, positions[i] as nat);
    u
}

/// The index a builder writes places its keys at distinct positions below
/// the key count.
#[verifier::rlimit(80)]
proof fn lemma_built_positions<K: KeyBytes>(
    keys: Seq<K>,
    seed: u32,
    section: nat,
    edges: Seq<Edge>,
    order: Seq<usize>,
    cidx: Seq<nat>,
    bitmap: Seq<u8>,
    index: Seq<u8>,
    positions: Seq<usize>,
)
    requires
        build_facts(keys, seed, section, edges, order, cidx, bitmap, index, positions),
    ensures
        forall|i: int| 0 <= i < keys.len() ==> #[trigger] positions[i] < keys.len(),
        forall|i: int, j: int|
            0 <= i < j < keys.len() ==> #[trigger] positions[i] != #[trigger] positions[j],
{
    let m = keys.len();
    let bs = bitmap.len();
    let f = Seq::new(m, |u: int| chosen_slot(edges, order, cidx, u));
    assert(bs == ph_bitmap_size(section) && m == order.len() && 2 <= m < 0x1000_0000
        && positions.len() == m) by {
        reveal(build_facts);
    }
    lemma_layout_bounds(m);
    assert forall|p: nat| p < bs * 4 && bm2(bitmap, p) != 3 implies exists|u: int|
        0 <= u < f.len() && f[u] == p by {
        reveal(build_facts);
        assert(is_chosen(edges, order, cidx, p));
        let u = choose|u: int| 0 <= u < order.len() && p == #[trigger] chosen_slot(edges, order, cidx, u);
        assert(f[u] == p);
    }
    assert forall|i: int| 0 <= i < m implies #[trigger] positions[i] < m by {
        let u = lemma_position_is_rank(keys, seed, section, edges, order, cidx, bitmap, index, positions, i);
        let c = chosen_slot(edges, order, cidx, u);
        assert forall|p: nat| p < c && bm2(bitmap, p) != 3 implies exists|w: int|
            0 <= w < f.len() && f[w] == p by {
            assert(p < bs * 4);
        }
        lemma_valid_le_cnt(bitmap, f, c);
        lemma_cnt_eq_member(f, c, u);
        lemma_cnt_step(f, c);
    }
    assert forall|i: int, j: int| 0 <= i < j < m implies #[trigger] positions[i] != #[trigger] positions[j] by {
        let ui = lemma_position_is_rank(keys, seed, section, edges, order, cidx, bitmap, index, positions, i);
        let uj = lemma_position_is_rank(keys, seed, section, edges, order, cidx, bitmap, index, positions, j);
        let ci = chosen_slot(edges, order, cidx, ui);
        let cj = chosen_slot(edges, order, cidx, uj);
        assert(ui != uj);
        assert(ci != cj) by {
            reveal(build_facts);
            if ui > uj {
                assert(chosen_slot(edges, order, cidx, uj) != chosen_slot(edges, order, cidx, ui));
            }
        }
        if ci < cj {
            lemma_valid_before_monotone(bitmap, ci + 1, cj);
            assert(bm_valid_before(bitmap, ci + 1) == bm_valid_before(bitmap, ci) + 1);
        } else {
            lemma_valid_before_monotone(bitmap, cj + 1, ci);
            assert(bm_valid_before(bitmap, cj + 1) == bm_valid_before(bitmap, cj) + 1);
        }
    }
}

/// Builds a perfect-hash index over the keys and gives each key's position:
/// none for `2^28` keys or more, or when no seed tried separates the keys
/// (as for repeated keys). The seeds are drawn from a generator started
/// with a value read from the clock.
pub fn build_perfect_hash_index_with_positions<K: KeyBytes>(keys: &[K]) -> (r: Option<
    (Vec<u8>, Vec<usize>),
>)
    ensures
        forall|i: int, j: int|
            0 <= i < j < keys@.len() && #[trigger] keys@[i].spec_key() == #[trigger] keys@[j].spec_key() ==> r is None,
        r is None ==> keys@.len() >= 0x1000_0000 || exists|clock: u32|
            #[trigger] seeds_fail(
                key_seqs(keys@),
                ph_start(clock),
                ph_tries(keys@.len()),
                ph_section(keys@.len()),
            ),
        keys@.len() >= 0x1000_0000 ==> r is None,
        keys@.len() <= 1 ==> r is Some,
        r matches Some((index, positions)) ==> {
            &&& ph_len(index@) == keys@.len()
            &&& index@.len() == ph_bytes(keys@.len())
            &&& positions@.len() == keys@.len()
            &&& forall|i: int|
                0 <= i < keys@.len() ==> spec_locate(index@, #[trigger] keys@[i].spec_key())
                    == Some(positions@[i] as nat)
            &&& forall|i: int| 0 <= i < keys@.len() ==> #[trigger] positions@[i] < keys@.len()
            &&& forall|i: int, j: int|
                0 <= i < j < keys@.len() ==> #[trigger] positions@[i] != #[trigger] positions@[j]
        },
{
    let clock: u32 = clock_seed();
    let r = build_perfect_hash_index_seeded(keys, clock);
    proof {
        if r is None && keys@.len() < 0x1000_0000 {
            lemma_clock_fails(key_seqs(keys@), clock, ph_tries(keys@.len()), ph_section(keys@.len()));
        }
    }
    r
}

/// Builds a perfect-hash index over the keys, drawing seeds from the
/// generator started with `clock`, and gives each key's position: none for
/// `2^28` keys or more, or when none of the seeds tried separates the keys
/// (as for repeated keys).
#[verifier::rlimit(100)]
pub fn build_perfect_hash_index_seeded<K: KeyBytes>(keys: &[K], clock: u32) -> (r: Option<
    (Vec<u8>, Vec<usize>),
>)
    ensures
        forall|i: int, j: int|
            0 <= i < j < keys@.len() && #[trigger] keys@[i].spec_key() == #[trigger] keys@[j].spec_key() ==> r is None,
        r is None <==> keys@.len() >= 0x1000_0000 || (keys@.len() >= 2 && seeds_fail(
            key_seqs(keys@),
            ph_start(clock),
            ph_tries(keys@.len()),
            ph_section(keys@.len()),
        )),
        r matches Some((index, positions)) ==> {
            &&& ph_len(index@) == keys@.len()
            &&& index@.len() == ph_bytes(keys@.len())
            &&& positions@.len() == keys@.len()
            &&& forall|i: int|
                0 <= i < keys@.len() ==> spec_locate(index@, #[trigger] keys@[i].spec_key())
                    == Some(positions@[i] as nat)
            &&& forall|i: int| 0 <= i < keys@.len() ==> #[trigger] positions@[i] < keys@.len()
            &&& forall|i: int, j: int|
                0 <= i < j < keys@.len() ==> #[trigger] positions@[i] != #[trigger] positions@[j]
        },
{
    let total: usize = keys.len();
    if total >= 0x1000_0000 {
        return None;
    }
    if total <= 1 {
        let mut index: Vec<u8> = Vec::new();
        crate::access::le_bytes_of_u32(total as u32, &mut index);
        let positions: Vec<usize> = vec![0usize; total];
        proof {
            assert(index@.subrange(0, 4) =~= crate::access::le_bytes_u32(total as u32));
            lemma_le_u32_header(total as u32, index@);
            assert((total as u32) & 0x0fff_ffff == total as u32) by (bit_vector)
                requires
                    total <= 1,
            ;
        }
        return Some((index, positions));
    }
    proof {
        lemma_layout_bounds(total as nat);
    }
    let section: usize = section_of(total as u64) as usize;
    let magic: u64 = fast_mod_magic(section as u32);
    let slot_cnt: usize = section * 3;
    let bitmap_size: usize = (section * 3 + 31) / 32 * 8;
    let mut rand32: [u32; 4] = [0x6c07_8965u32, 0x9908_b0dfu32, 0x9d2c_5680u32, clock];
    let ghost start = rand32@;
    let tries: usize = if total <= 0xff {
        40
    } else {
        16
    };
    let (seed, edges, order, free) = match find_seed(keys, section, magic, tries, &mut rand32) {
        Some(f) => f,
        None => {
            proof {
                assert(start =~= ph_start(clock));
            }
            return None;
        },
    };
    proof {
        assert(start =~= ph_start(clock));
    }
    proof {
        assert forall|e: int|
            0 <= e < edges@.len() implies (#[trigger] edges@[e].slots@[0]) != edges@[e].slots@[1]
                && edges@[e].slots@[0] != edges@[e].slots@[2] && edges@[e].slots@[1]
                != edges@[e].slots@[2] by {
            let ks = key_slots(keys@[e].spec_key(), seed, section as nat);
            assert(edges@[e].slots@[0] == ks[0] as usize);
            assert(edges@[e].slots@[1] == ks[1] as usize);
            assert(edges@[e].slots@[2] == ks[2] as usize);
        }
    }
    let (bitmap, cidx) = assign_bitmap(&edges, &order, free, slot_cnt, bitmap_size);
    proof {
        lemma_valid_at_most_keys(bitmap@, edges@, order@, cidx@);
    }
    let out: Vec<u8> = write_index(total, seed, &bitmap);
    proof {
        lemma_le_u32_header(total as u32, out@);
        assert((total as u32) & 0x0fff_ffff == total as u32) by (bit_vector)
            requires
                total < 0x1000_0000,
        ;
    }
    proof {
        assert forall|i: int| 0 <= i < keys@.len() implies spec_locate(out@, #[trigger] keys@[i].spec_key()) is Some by {
            lemma_built_locates(out@, bitmap@, keys@[i].spec_key(), total as nat);
        }
    }
    let positions: Vec<usize> = match positions_of(keys, out.as_slice()) {
        Some(p) => p,
        None => {
            return None;
        },
    };
    proof {
        assert(out@.subrange(4, 8) == crate::access::le_bytes_u32(seed));
        lemma_le_u32_at(seed, out@, 4);
        assert(build_facts(
            keys@,
            seed,
            section as nat,
            edges@,
            order@,
            cidx@,
            bitmap@,
            out@,
            positions@,
        )) by {
            reveal(build_facts);
        }
        lemma_built_positions(
            keys@,
            seed,
            section as nat,
            edges@,
            order@,
            cidx@,
            bitmap@,
            out@,
            positions@,
        );
        lemma_located_keys_differ(out@, key_seqs(keys@), positions@);
        assert forall|i: int, j: int| 0 <= i < j < keys@.len() implies #[trigger] keys@[i].spec_key()
            != #[trigger] keys@[j].spec_key() by {
            assert(key_seqs(keys@)[i] != key_seqs(keys@)[j]);
        }
    }
    Some((out, positions))
}

/// Keys that an index places at distinct positions are distinct.
proof fn lemma_located_keys_differ(index: Seq<u8>, keys: Seq<Seq<u8>>, positions: Seq<usize>)
    requires
        positions.len() == keys.len(),
        forall|i: int| 0 <= i < keys.len() ==> spec_locate(index, #[trigger] keys[i]) == Some(positions[i] as nat),
        forall|i: int, j: int| 0 <= i < j < keys.len() ==> #[trigger] positions[i] != #[trigger] positions[j],
    ensures
        forall|i: int, j: int| 0 <= i < j < keys.len() ==> #[trigger] keys[i] != #[trigger] keys[j],
{
    assert forall|i: int, j: int| 0 <= i < j < keys.len() implies #[trigger] keys[i] != #[trigger] keys[j] by {
        if keys[i] == keys[j] {
            assert(spec_locate(index, keys[i]) == Some(positions[i] as nat));
            assert(spec_locate(index, keys[j]) == Some(positions[j] as nat));
        }
    }
}

/// The position the index gives each key, when it gives all of them one.
fn positions_of<K: KeyBytes>(keys: &[K], index: &[u8]) -> (r: Option<Vec<usize>>)
    requires
        ph_complete(index@),
        index@.len() == ph_bytes(ph_len(index@)),
    ensures
        r matches Some(p) ==> p@.len() == keys@.len() && forall|i: int|
            0 <= i < keys@.len() ==> spec_locate(index@, #[trigger] keys@[i].spec_key()) == Some(
                p@[i] as nat,
            ),
        r is Some == forall|i: int|
            0 <= i < keys@.len() ==> spec_locate(index@, #[trigger] keys@[i].spec_key()) is Some,
{
    let view = match PerfectHashView::new(index) {
        Ok(v) => v,
        Err(_) => {
            return None;
        },
    };
    assert(view@ =~= index@);
    let mut out: Vec<usize> = Vec::new();
    let mut i: usize = 0;
    while i < keys.len()
        invariant
            i <= keys@.len(),
            view@ == index@,
            out@.len() == i,
            forall|j: int|
                0 <= j < i ==> spec_locate(index@, #[trigger] keys@[j].spec_key()) == Some(
                    out@[j] as nat,
                ),
        decreases keys@.len() - i,
    {
        let p: usize = match view.locate(keys[i].key_bytes()) {
            Some(p) => p,
            None => {
                assert(spec_locate(index@, keys@[i as int].spec_key()) is None);
                return None;
            },
        };
        out.push(p);
        i += 1;
    }
    Some(out)
}

/// Builds a perfect-hash index over the keys: none for `2^28` keys or more,
/// or when no seed tried separates the keys (as for repeated keys).
pub fn build_perfect_hash_index<K: KeyBytes>(keys: &[K]) -> (r: Option<Vec<u8>>)
    ensures
        forall|i: int, j: int|
            0 <= i < j < keys@.len() && #[trigger] keys@[i].spec_key() == #[trigger] keys@[j].spec_key() ==> r is None,
        r is None ==> keys@.len() >= 0x1000_0000 || exists|clock: u32|
            #[trigger] seeds_fail(
                key_seqs(keys@),
                ph_start(clock),
                ph_tries(keys@.len()),
                ph_section(keys@.len()),
            ),
        keys@.len() >= 0x1000_0000 ==> r is None,
        keys@.len() <= 1 ==> r is Some,
        r matches Some(index) ==> {
            &&& ph_len(index@) == keys@.len()
            &&& index@.len() == ph_bytes(keys@.len())
            &&& exists|positions: Seq<usize>|
                #![trigger positions.len()]
                positions.len() == keys@.len() && (forall|i: int|
                    0 <= i < keys@.len() ==> spec_locate(index@, #[trigger] keys@[i].spec_key())
                        == Some(positions[i] as nat)) && (forall|i: int|
                    0 <= i < keys@.len() ==> #[trigger] positions[i] < keys@.len()) && (forall|
                    i: int,
                    j: int,
                | 0 <= i < j < keys@.len() ==> #[trigger] positions[i] != #[trigger] positions[j])
        },
{
    match build_perfect_hash_index_with_positions(keys) {
        Some((index, positions)) => {
            assert(positions@.len() == keys@.len());
            Some(index)
        },
        None => None,
    }
}

} // verus!

verus! {

proof fn lemma_count_valid_congruent(d1: Seq<u8>, d2: Seq<u8>, block: nat, n: nat)
    requires
        n <= 32,
        8 + 8 * block + 8 <= d1.len(),
        8 + 8 * block + 8 <= d2.len(),
        d1.subrange((8 + 8 * block) as int, (16 + 8 * block) as int) == d2.subrange(
            (8 + 8 * block) as int,
            (16 + 8 * block) as int,
        ),
    ensures
        count_valid(d1, block, n) == count_valid(d2, block, n),
    decreases n,
{
    if n > 0 {
        lemma_count_valid_congruent(d1, d2, block, (n - 1) as nat);
        let p = 32 * block + (n - 1) as nat;
        let k: int = p / 4 - 8 * block;
        let lo: int = (8 + 8 * block) as int;
        assert(0 <= k < 8);
        assert(d1[lo + k] == d1.subrange(lo, lo + 8)[k]);
        assert(d2[lo + k] == d2.subrange(lo, lo + 8)[k]);
        assert(bit2(d1, p) == bit2(d2, p));
    }
}

/// The position an index gives a key depends on the key count and on the
/// bytes after the first four only.
pub proof fn lemma_locate_congruent(d1: Seq<u8>, d2: Seq<u8>, key: Seq<u8>)
    requires
        d1.len() == d2.len(),
        d1.len() >= ph_bytes(ph_len(d1)),
        ph_len(d1) == ph_len(d2),
        ph_len(d1) < 0x1000_0000,
        forall|i: int| 4 <= i < d1.len() ==> d1[i] == d2[i],
    ensures
        spec_locate(d1, key) == spec_locate(d2, key),
{
    let len = ph_len(d1);
    if len >= 2 {
        lemma_layout_bounds(len);
        let sec = ph_section(len);
        let bm = ph_bitmap_size(sec);
        lemma_le_prefix(d1, d2, 4, 4);
        let (s0, s1, s2) = ph_slots(d1, key);
        assert(ph_slots(d2, key) == (s0, s1, s2));
        assert(s0 < 3 * sec && s1 < 3 * sec && s2 < 3 * sec);
        assert(8 + s0 / 4 < 8 + bm && 8 + s1 / 4 < 8 + bm && 8 + s2 / 4 < 8 + bm);
        assert(bit2(d1, s0) == bit2(d2, s0));
        assert(bit2(d1, s1) == bit2(d2, s1));
        assert(bit2(d1, s2) == bit2(d2, s2));
        assert(ph_chosen(d1, key) == ph_chosen(d2, key));
        let slot = ph_chosen(d1, key);
        let tw = ph_table_width(len);
        let a = slot / 32;
        let tstart = 8 + bm + a * tw;
        if !(tstart + tw > ph_bytes(len) || a * 8 + 8 > bm) {
            lemma_le_prefix(d1, d2, tstart as int, tw);
            let lo: int = (8 + 8 * a) as int;
            assert(d1.subrange(lo, lo + 8) =~= d2.subrange(lo, lo + 8));
            lemma_count_valid_congruent(d1, d2, a, slot % 32);
        }
    }
}

} // verus!
