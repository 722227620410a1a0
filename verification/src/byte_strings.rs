//! What encoding a byte string gives back.

use vstd::prelude::*;

use crate::access::spec_string_bytes;
use crate::roundtrip::{lemma_string_roundtrip, lemma_varint_bytes_len};
use crate::serialize::{pad4, pow128, spec_encode_bytes, spec_serialize_bytes_result, spec_varint_bytes, Unit};

verus! {

/// A byte string shorter than `2^30` bytes encodes into at least one and
/// fewer than `2^29` words.
pub proof fn lemma_encode_bytes_len(bytes: Seq<u8>)
    requires
        bytes.len() < 0x4000_0000,
    ensures
        1 <= spec_encode_bytes(bytes).len() < 0x2000_0000,
{
    let n = bytes.len() * 4;
    reveal_with_fuel(pow128, 6);
    lemma_varint_bytes_len(n, 5);
    let v = spec_varint_bytes(n);
    assert(v.len() >= 1) by {
        reveal_with_fuel(spec_varint_bytes, 1);
    }
    let p = pad4(v + bytes);
    assert(p.len() == (v + bytes).len() + (4 - (v + bytes).len() % 4) % 4);
    assert(p.len() >= 4);
}

/// What `serialize_bytes` gives back reads as the bytes it was given: an
/// inline unit's words, or else the words it put in front of the buffer,
/// after which the buffer's earlier content follows unchanged. The unit is
/// inline exactly when the encoding takes one word.
pub proof fn lemma_serialize_bytes_reads_back(bytes: Seq<u8>, before: Seq<u32>, u: Unit, after: Seq<u32>)
    requires
        spec_serialize_bytes_result(bytes, before, Some(u), after),
    ensures
        bytes.len() < 0x4000_0000,
        (u.spec_inline().len() != 0) == (spec_encode_bytes(bytes).len() == 1),
        u.spec_inline().len() != 0 ==> spec_string_bytes(u.spec_inline()) == Some(bytes) && after == before,
        u.spec_inline().len() == 0 ==> {
            let n = u.spec_segment().len as int;
            &&& 0 < n <= after.len()
            &&& spec_string_bytes(after.subrange(0, n)) == Some(bytes)
            &&& after.subrange(n, after.len() as int) == before
        },
{
    let enc = spec_encode_bytes(bytes);
    lemma_encode_bytes_len(bytes);
    lemma_string_roundtrip(bytes, Seq::empty());
    assert(enc + Seq::<u32>::empty() =~= enc);
    if enc.len() != 1 {
        let n = u.spec_segment().len as int;
        assert(n == enc.len());
        assert(after.subrange(0, n) =~= enc);
        assert(after.subrange(n, after.len() as int) =~= before);
    }
}

} // verus!
