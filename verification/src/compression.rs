//! A byte-run compressor: runs of zero or `0xff` bytes become one nibble,
//! other bytes are copied in runs of up to seven.

use vstd::prelude::*;

use crate::serialize::spec_varint_bytes;
use crate::utils::{CorruptionKind, ReadError};

verus! {

/// Bit facts on marks.
pub proof fn lemma_nibble_bits()
    by (bit_vector)
    ensures
        forall|m: u8| #![trigger (m & 3u8)] (m & 3u8) <= 3u8,
        forall|a: u8, b: u8|
            #![trigger (a | (b << 4u8))]
            a < 16u8 && b < 16u8 ==> ((a | (b << 4u8)) & 0x0fu8) == a && ((a | (b << 4u8)) >> 4u8)
                == b,
        forall|x: u8|
            #![trigger (8u8 | x)]
            x <= 3u8 ==> (8u8 | x) & 8u8 != 0u8 && ((8u8 | x) & 3u8) == x && ((8u8 | x) & 4u8) == 0u8
                && (8u8 | x) < 16u8,
        forall|x: u8|
            #![trigger (12u8 | x)]
            x <= 3u8 ==> (12u8 | x) & 8u8 != 0u8 && ((12u8 | x) & 3u8) == x && ((12u8 | x) & 4u8)
                != 0u8 && (12u8 | x) < 16u8,
        forall|x: u8|
            #![trigger (x & 7u8)]
            #![trigger (x & 8u8)]
            1u8 <= x && x <= 7u8 ==> (x & 8u8) == 0u8 && (x & 7u8) == x,
        forall|a: u8| #![trigger (a >> 4u8)] a < 16u8 ==> (a >> 4u8) == 0u8 && (a & 0x0fu8) == a,
{
}

/// The mark of the run that starts at `pos` and the index just past it: up
/// to four zero bytes (`8 | n - 1`), up to four `0xff` bytes (`0xc | n - 1`),
/// or up to seven other bytes (`n`).
pub open spec fn spec_pick(src: Seq<u8>, pos: nat) -> (u8, nat)
    recommends
        pos < src.len(),
{
    let first = src[pos as int];
    if first == 0 {
        let n = run_len(src, pos, 0u8, 4);
        (8u8 | ((n - 1) as u8), pos + n)
    } else if first == 0xff {
        let n = run_len(src, pos, 0xffu8, 4);
        (0xcu8 | ((n - 1) as u8), pos + n)
    } else {
        let n = plain_len(src, pos, 7);
        (n as u8, pos + n)
    }
}

/// Length of the run of `b` bytes at `pos`, at most `max`.
pub open spec fn run_len(src: Seq<u8>, pos: nat, b: u8, max: nat) -> nat
    decreases max,
{
    if max == 0 || pos >= src.len() || src[pos as int] != b {
        0
    } else {
        1 + run_len(src, pos + 1, b, (max - 1) as nat)
    }
}

/// Length of the run of bytes other than zero and `0xff` at `pos`, at most
/// `max`.
pub open spec fn plain_len(src: Seq<u8>, pos: nat, max: nat) -> nat
    decreases max,
{
    if max == 0 || pos >= src.len() || src[pos as int] == 0 || src[pos as int] == 0xff {
        0
    } else {
        1 + plain_len(src, pos + 1, (max - 1) as nat)
    }
}

/// The bytes a run contributes after its mark: the run itself when it is
/// copied, nothing for a zero or `0xff` run.
pub open spec fn literal(src: Seq<u8>, start: nat, end: nat, mark: u8) -> Seq<u8> {
    if mark & 8 == 0 {
        src.subrange(start as int, end as int)
    } else {
        Seq::empty()
    }
}

/// The compressed body from `pos` on: runs are taken two at a time, their
/// marks packed in one byte (the first in the low nibble) followed by their
/// copied bytes.
pub open spec fn spec_body(src: Seq<u8>, pos: nat) -> Seq<u8>
    decreases src.len() - pos,
{
    if pos >= src.len() {
        Seq::empty()
    } else {
        let (a, p1) = spec_pick(src, pos);
        if p1 <= pos {
            Seq::empty()
        } else if p1 >= src.len() {
            seq![a] + literal(src, pos, p1, a)
        } else {
            let (b, p2) = spec_pick(src, p1);
            if p2 <= p1 || p2 > src.len() {
                Seq::empty()
            } else {
                seq![a | (b << 4u8)] + literal(src, pos, p1, a) + literal(src, p1, p2, b) + spec_body(
                    src,
                    p2,
                )
            }
        }
    }
}

/// The compressed form of `src`: nothing for no bytes, else the length in
/// base 128 and the body.
pub open spec fn spec_compress(src: Seq<u8>) -> Seq<u8> {
    if src.len() == 0 {
        Seq::empty()
    } else {
        spec_varint_bytes(src.len()) + spec_body(src, 0)
    }
}

proof fn lemma_run_len(src: Seq<u8>, pos: nat, b: u8, max: nat)
    ensures
        run_len(src, pos, b, max) <= max,
        pos + run_len(src, pos, b, max) <= src.len() || run_len(src, pos, b, max) == 0,
        forall|i: int|
            pos <= i < pos + run_len(src, pos, b, max) ==> #[trigger] src[i] == b,
    decreases max,
{
    if !(max == 0 || pos >= src.len() || src[pos as int] != b) {
        lemma_run_len(src, pos + 1, b, (max - 1) as nat);
    }
}

proof fn lemma_plain_len(src: Seq<u8>, pos: nat, max: nat)
    ensures
        plain_len(src, pos, max) <= max,
        pos + plain_len(src, pos, max) <= src.len() || plain_len(src, pos, max) == 0,
        forall|i: int|
            pos <= i < pos + plain_len(src, pos, max) ==> #[trigger] src[i] != 0 && src[i] != 0xff,
    decreases max,
{
    if !(max == 0 || pos >= src.len() || src[pos as int] == 0 || src[pos as int] == 0xff) {
        lemma_plain_len(src, pos + 1, (max - 1) as nat);
    }
}

/// A run at a valid position is one to seven bytes long and lies in `src`.
pub proof fn lemma_pick(src: Seq<u8>, pos: nat)
    requires
        pos < src.len(),
    ensures
        pos < spec_pick(src, pos).1 <= src.len(),
        spec_pick(src, pos).1 - pos <= 7,
        spec_pick(src, pos).0 < 16,
{
    let first = src[pos as int];
    lemma_nibble_bits();
    if first == 0 {
        lemma_run_len(src, pos, 0u8, 4);
        reveal_with_fuel(run_len, 2);
    } else if first == 0xff {
        lemma_run_len(src, pos, 0xffu8, 4);
        reveal_with_fuel(run_len, 2);
    } else {
        lemma_plain_len(src, pos, 7);
        reveal_with_fuel(plain_len, 2);
    }
}

fn pick(src: &[u8], pos: &mut usize) -> (r: u8)
    requires
        *old(pos) < src@.len(),
    ensures
        (r, *final(pos) as nat) == spec_pick(src@, *old(pos) as nat),
{
    let start: usize = *pos;
    let first: u8 = src[start];
    *pos = *pos + 1;
    proof {
        lemma_pick(src@, start as nat);
    }
    if first == 0 {
        while *pos < src.len() && *pos - start < 4 && src[*pos] == 0
            invariant
                start < *pos <= src@.len(),
                *pos - start <= 4,
                run_len(src@, start as nat, 0u8, 4) == (*pos - start) + run_len(
                    src@,
                    *pos as nat,
                    0u8,
                    (4 - (*pos - start)) as nat,
                ),
            decreases src@.len() - *pos,
        {
            *pos = *pos + 1;
        }
        8u8 | ((*pos - start - 1) as u8)
    } else if first == 0xff {
        while *pos < src.len() && *pos - start < 4 && src[*pos] == 0xff
            invariant
                start < *pos <= src@.len(),
                *pos - start <= 4,
                run_len(src@, start as nat, 0xffu8, 4) == (*pos - start) + run_len(
                    src@,
                    *pos as nat,
                    0xffu8,
                    (4 - (*pos - start)) as nat,
                ),
            decreases src@.len() - *pos,
        {
            *pos = *pos + 1;
        }
        0xcu8 | ((*pos - start - 1) as u8)
    } else {
        while *pos < src.len() && *pos - start < 7 && src[*pos] != 0 && src[*pos] != 0xff
            invariant
                start < *pos <= src@.len(),
                *pos - start <= 7,
                plain_len(src@, start as nat, 7) == (*pos - start) + plain_len(
                    src@,
                    *pos as nat,
                    (7 - (*pos - start)) as nat,
                ),
            decreases src@.len() - *pos,
        {
            *pos = *pos + 1;
        }
        (*pos - start) as u8
    }
}

/// Appends the copied bytes of a run.
fn emit(src: &[u8], start: usize, end: usize, mark: u8, out: &mut Vec<u8>)
    requires
        start <= end <= src@.len(),
    ensures
        final(out)@ == old(out)@ + literal(src@, start as nat, end as nat, mark),
{
    let ghost o = out@;
    if (mark & 8u8) == 0 {
        let mut i: usize = start;
        while i < end
            invariant
                start <= i <= end <= src@.len(),
                out@ == o + src@.subrange(start as int, i as int),
            decreases end - i,
        {
            out.push(src[i]);
            i += 1;
            assert(out@ =~= o + src@.subrange(start as int, i as int));
        }
    } else {
        assert(out@ =~= o + Seq::<u8>::empty());
    }
}

/// Appends the base-128 encoding of `n`.
fn push_varint(out: &mut Vec<u8>, n: usize)
    ensures
        final(out)@ == old(out)@ + spec_varint_bytes(n as nat),
{
    let ghost o = out@;
    let mut size: usize = n;
    proof {
        assert(out@ + spec_varint_bytes(size as nat) =~= o + spec_varint_bytes(n as nat));
    }
    while size >= 128
        invariant
            out@ + spec_varint_bytes(size as nat) == o + spec_varint_bytes(n as nat),
        decreases size,
    {
        let ghost prev = out@;
        out.push((0x80 + size % 128) as u8);
        proof {
            assert(out@ + spec_varint_bytes((size / 128) as nat) =~= prev + spec_varint_bytes(
                size as nat,
            ));
        }
        size = size / 128;
    }
    let ghost prev = out@;
    out.push(size as u8);
    assert(out@ =~= prev + spec_varint_bytes(size as nat));
}

/// Compresses `src` into `out`, which it replaces.
pub fn compress_into(src: &[u8], out: &mut Vec<u8>)
    ensures
        final(out)@ == spec_compress(src@),
{
    if src.len() == 0 {
        out.clear();
        return;
    }
    out.clear();
    let extra: usize = src.len() / 14 + if src.len() % 14 != 0 {
        1usize
    } else {
        0usize
    };
    if src.len() <= usize::MAX - 16 - extra {
        out.reserve(10 + src.len() + extra);
    }
    push_varint(out, src.len());
    let ghost head = out@;
    let mut pos: usize = 0;
    while pos < src.len()
        invariant
            pos <= src@.len(),
            head == spec_varint_bytes(src@.len()),
            head + spec_body(src@, 0) == out@ + spec_body(src@, pos as nat),
        ensures
            pos == src@.len(),
            head == spec_varint_bytes(src@.len()),
            head + spec_body(src@, 0) == out@ + spec_body(src@, pos as nat),
        decreases src@.len() - pos,
    {
        let a_start: usize = pos;
        proof {
            lemma_pick(src@, a_start as nat);
        }
        let a: u8 = pick(src, &mut pos);
        let ghost prev = out@;
        if pos == src.len() {
            out.push(a);
            emit(src, a_start, pos, a, out);
            proof {
                assert(out@ =~= prev + spec_body(src@, a_start as nat));
                assert(spec_body(src@, pos as nat) =~= Seq::<u8>::empty());
                assert(out@ + spec_body(src@, pos as nat) =~= prev + spec_body(
                    src@,
                    a_start as nat,
                ));
            }
            break;
        }
        let b_start: usize = pos;
        proof {
            lemma_pick(src@, b_start as nat);
        }
        let b: u8 = pick(src, &mut pos);
        out.push(a | (b << 4u8));
        emit(src, a_start, b_start, a, out);
        emit(src, b_start, pos, b, out);
        proof {
            assert(out@ + spec_body(src@, pos as nat) =~= prev + spec_body(src@, a_start as nat));
        }
    }
    proof {
        assert(out@ + spec_body(src@, pos as nat) == head + spec_body(src@, 0));
        assert(spec_body(src@, pos as nat) =~= Seq::<u8>::empty());
        assert(out@ =~= spec_compress(src@));
    }
}

/// The compressed form of `src`.
pub fn compress(src: &[u8]) -> (r: Vec<u8>)
    ensures
        r@ == spec_compress(src@),
{
    let mut out: Vec<u8> = Vec::new();
    compress_into(src, &mut out);
    out
}

} // verus!

verus! {

/// The length header that starts at byte `k`: its value from `k` on and the
/// index after it; the input must not end first, and at most five bytes
/// (counted from byte 0) may carry it.
pub open spec fn spec_header(src: Seq<u8>, k: nat) -> Result<(nat, nat), CorruptionKind>
    decreases 5 - k,
{
    if k >= 5 {
        Err(CorruptionKind::InvalidHeader)
    } else if k >= src.len() {
        Err(CorruptionKind::Truncated)
    } else if src[k as int] < 0x80 {
        Ok((src[k as int] as nat, k + 1))
    } else {
        match spec_header(src, k + 1) {
            Ok((v, e)) => Ok(((src[k as int] - 0x80) as nat + 128 * v, e)),
            Err(x) => Err(x),
        }
    }
}

/// `n` bytes of `b`.
pub open spec fn fill(n: nat, b: u8) -> Seq<u8> {
    Seq::new(n, |i: int| b)
}

/// Decodes one nibble mark at input index `pos` with the bytes `w` written
/// so far out of `t`: nothing once all `t` are written; a run of one to four
/// zero or `0xff` bytes; or one to seven bytes copied from the input.
pub open spec fn spec_unpack(mark: u8, src: Seq<u8>, pos: nat, w: Seq<u8>, t: nat) -> Result<
    (nat, Seq<u8>),
    (CorruptionKind, Seq<u8>),
> {
    if w.len() == t {
        Ok((pos, w))
    } else if mark & 8 != 0 {
        let count = ((mark & 3) + 1) as nat;
        if w.len() + count > usize::MAX {
            Err((CorruptionKind::IntegerOverflow, w))
        } else if w.len() + count > t {
            Err((CorruptionKind::Truncated, w))
        } else {
            Ok((pos, w + fill(count, if mark & 4 != 0 { 0xffu8 } else { 0u8 })))
        }
    } else {
        let len = (mark & 7) as nat;
        if pos + len > usize::MAX || w.len() + len > usize::MAX {
            Err((CorruptionKind::IntegerOverflow, w))
        } else if pos + len > src.len() || w.len() + len > t {
            Err((CorruptionKind::Truncated, w))
        } else {
            Ok((pos + len, w + src.subrange(pos as int, (pos + len) as int)))
        }
    }
}

pub proof fn lemma_unpack_bounds(mark: u8, src: Seq<u8>, pos: nat, w: Seq<u8>, t: nat)
    requires
        pos <= src.len(),
    ensures
        spec_unpack(mark, src, pos, w, t) matches Ok((p, w1)) ==> pos <= p <= src.len(),
{
}

/// Decodes the marks from input index `pos` on, with the bytes `w` written
/// so far out of `t`; all `t` must be written when the input ends.
pub open spec fn spec_decode(src: Seq<u8>, pos: nat, w: Seq<u8>, t: nat) -> Result<
    Seq<u8>,
    (CorruptionKind, Seq<u8>),
>
    decreases src.len() - pos,
{
    if pos >= src.len() {
        if w.len() == t {
            Ok(w)
        } else {
            Err((CorruptionKind::Truncated, w))
        }
    } else {
        let mark = src[pos as int];
        match spec_unpack(mark & 0x0f, src, pos + 1, w, t) {
            Err(e) => Err(e),
            Ok((p1, w1)) => {
                proof {
                    lemma_unpack_bounds(mark & 0x0f, src, pos + 1, w, t);
                }
                match spec_unpack(mark >> 4u8, src, p1, w1, t) {
                    Err(e) => Err(e),
                    Ok((p2, w2)) => {
                        proof {
                            lemma_unpack_bounds(mark >> 4u8, src, p1, w1, t);
                        }
                        spec_decode(src, p2, w2, t)
                    },
                }
            },
        }
    }
}

proof fn lemma_header_end(src: Seq<u8>, k: nat)
    ensures
        spec_header(src, k) matches Ok((v, e)) ==> e <= src.len(),
    decreases 5 - k,
{
    if k < 5 && k < src.len() && src[k as int] >= 0x80 {
        lemma_header_end(src, k + 1);
    }
}

fn parse_header(src: &[u8]) -> (r: Result<(usize, usize), ReadError>)
    ensures
        match r {
            Ok((v, e)) => spec_header(src@, 0) matches Ok((sv, se)) && v == sv as usize && e == se
                && e <= src@.len(),
            Err(err) => spec_header(src@, 0) matches Err(kind) && err.kind == kind,
        },
{
    proof {
        lemma_header_end(src@, 0);
    }
    let mut size: u64 = 0;
    let mut pos: usize = 0;
    let mut mult: u64 = 1;
    proof {
        reveal_with_fuel(crate::serialize::pow128, 6);
    }
    while pos < 5
        invariant
            pos <= 5,
            mult == crate::serialize::pow128(pos as nat),
            pos < 5 ==> mult <= 0x1000_0000,
            size < mult,
            match spec_header(src@, pos as nat) {
                Ok((v, e)) => spec_header(src@, 0) == Ok::<(nat, nat), CorruptionKind>(
                    ((size + mult * v) as nat, e),
                ),
                Err(k) => spec_header(src@, 0) == Err::<(nat, nat), CorruptionKind>(k),
            },
        decreases 5 - pos,
    {
        proof {
            reveal_with_fuel(crate::serialize::pow128, 6);
        }
        if pos >= src.len() {
            return Err(ReadError::new(CorruptionKind::Truncated));
        }
        let byte: u8 = src[pos];
        pos += 1;
        if byte < 0x80 {
            proof {
                assert(mult * (byte as u64) < 0x8_0000_0000) by (nonlinear_arith)
                    requires
                        mult <= 0x1000_0000,
                        byte < 0x80,
                ;
            }
            let total: u64 = size + mult * (byte as u64);
            return Ok((total as usize, pos));
        }
        let bb: u64 = (byte - 0x80) as u64;
        proof {
            assert(size + mult * bb < mult * 128) by (nonlinear_arith)
                requires
                    size < mult,
                    bb < 0x80,
            ;
            match spec_header(src@, pos as nat) {
                Ok((v, e)) => {
                    assert(spec_header(src@, (pos - 1) as nat) == Ok::<(nat, nat), CorruptionKind>(
                        ((byte - 0x80) as nat + 128 * v, e),
                    ));
                    assert(size + mult * (bb + 128 * v) == (size + mult * bb) + (mult * 128) * v)
                        by (nonlinear_arith);
                },
                Err(k) => {},
            }
        }
        size = size + mult * bb;
        mult = mult * 128;
    }
    Err(ReadError::new(CorruptionKind::InvalidHeader))
}

} // verus!

verus! {

/// The written bytes followed by zeros up to `t` bytes.
pub open spec fn padded(w: Seq<u8>, t: nat) -> Seq<u8> {
    w + fill((t - w.len()) as nat, 0u8)
}

fn unpack(
    mark: u8,
    src: &[u8],
    pos: &mut usize,
    out: &mut Vec<u8>,
    out_pos: &mut usize,
    Ghost(w): Ghost<Seq<u8>>,
) -> (r: Result<(), ReadError>)
    requires
        *old(pos) <= src@.len(),
        w.len() == *old(out_pos),
        w.len() <= old(out)@.len(),
        old(out)@ == padded(w, old(out)@.len()),
    ensures
        final(out)@.len() == old(out)@.len(),
        match spec_unpack(mark, src@, *old(pos) as nat, w, old(out)@.len()) {
            Ok((p, w1)) => r is Ok && *final(pos) == p && *final(out_pos) == w1.len() && final(out)@
                == padded(w1, old(out)@.len()),
            Err((k, w1)) => r matches Err(e) && e.kind == k && final(out)@ == padded(
                w1,
                old(out)@.len(),
            ),
        },
{
    let t: usize = out.len();
    if *out_pos == t {
        return Ok(());
    }
    if (mark & 8u8) != 0 {
        proof {
            lemma_nibble_bits();
        }
        assert(mark & 3u8 <= 3);
        let count: usize = ((mark & 3u8) as usize) + 1;
        if *out_pos > usize::MAX - count {
            return Err(ReadError::new(CorruptionKind::IntegerOverflow));
        }
        let end: usize = *out_pos + count;
        if end > t {
            return Err(ReadError::new(CorruptionKind::Truncated));
        }
        let b: u8 = if (mark & 4u8) != 0 {
            0xffu8
        } else {
            0u8
        };
        let start: usize = *out_pos;
        let mut i: usize = start;
        while i < end
            invariant
                start <= i <= end <= t,
                out@.len() == t,
                w.len() == start,
                out@ == padded(w + fill((i - start) as nat, b), t as nat),
            decreases end - i,
        {
            out.set(i, b);
            i += 1;
            assert(out@ =~= padded(w + fill((i - start) as nat, b), t as nat));
        }
        *out_pos = end;
        return Ok(());
    }
    let len: usize = (mark & 7u8) as usize;
    if *pos > usize::MAX - len {
        return Err(ReadError::new(CorruptionKind::IntegerOverflow));
    }
    let end: usize = *pos + len;
    if *out_pos > usize::MAX - len {
        return Err(ReadError::new(CorruptionKind::IntegerOverflow));
    }
    let out_end: usize = *out_pos + len;
    if end > src.len() || out_end > t {
        return Err(ReadError::new(CorruptionKind::Truncated));
    }
    let start: usize = *out_pos;
    let p0: usize = *pos;
    let slen: usize = src.len();
    let mut i: usize = 0;
    while i < len
        invariant
            i <= len,
            p0 + len <= slen,
            slen == src@.len(),
            start + len <= t,
            out@.len() == t,
            w.len() == start,
            out@ == padded(w + src@.subrange(p0 as int, (p0 + i) as int), t as nat),
        decreases len - i,
    {
        out.set(start + i, src[p0 + i]);
        i += 1;
        assert(out@ =~= padded(w + src@.subrange(p0 as int, (p0 + i) as int), t as nat));
    }
    *pos = end;
    *out_pos = out_end;
    Ok(())
}

/// Decompresses `src` into `out`, which it replaces. On an error, `out` is
/// left as it was when the length header is bad, else it holds the bytes
/// decoded so far followed by zeros up to the announced length.
pub fn decompress_into(src: &[u8], out: &mut Vec<u8>) -> (r: Result<(), ReadError>)
    ensures
        src@.len() == 0 ==> r is Ok && final(out)@ == Seq::<u8>::empty(),
        src@.len() > 0 ==> match spec_header(src@, 0) {
            Err(k) => r matches Err(e) && e.kind == k && final(out)@ == old(out)@,
            Ok((v, e)) => match spec_decode(src@, e, Seq::empty(), (v as usize) as nat) {
                Ok(w) => r is Ok && final(out)@ == w,
                Err((k, w)) => r matches Err(err) && err.kind == k && final(out)@ == padded(
                    w,
                    (v as usize) as nat,
                ),
            },
        },
{
    if src.len() == 0 {
        out.clear();
        return Ok(());
    }
    let (target, mut pos) = parse_header(src)?;
    out.clear();
    let mut k: usize = 0;
    while k < target
        invariant
            k <= target,
            out@ == fill(k as nat, 0u8),
        decreases target - k,
    {
        out.push(0u8);
        k += 1;
        assert(out@ =~= fill(k as nat, 0u8));
    }
    let ghost start = pos as nat;
    let ghost mut w: Seq<u8> = Seq::empty();
    let mut out_pos: usize = 0;
    proof {
        assert(out@ =~= padded(w, target as nat));
    }
    while pos < src.len()
        invariant
            pos <= src@.len(),
            out@.len() == target,
            w.len() == out_pos,
            out_pos <= target,
            out@ == padded(w, target as nat),
            spec_decode(src@, start, Seq::empty(), target as nat) == spec_decode(
                src@,
                pos as nat,
                w,
                target as nat,
            ),
            src@.len() > 0,
            spec_header(src@, 0) matches Ok((sv, se)) && target == sv as usize && start == se,
        decreases src@.len() - pos,
    {
        let mark: u8 = src[pos];
        let ghost p_mark = pos as nat;
        pos += 1;
        let ghost w0 = w;
        let ghost p0 = pos as nat;
        let ghost t = target as nat;
        match unpack(mark & 0x0f, src, &mut pos, out, &mut out_pos, Ghost(w0)) {
            Err(e) => {
                return Err(e);
            },
            Ok(()) => {},
        }
        let ghost w1 = match spec_unpack(mark & 0x0f, src@, p0, w0, t) {
            Ok((p, ww)) => ww,
            Err((k, ww)) => ww,
        };
        let ghost p1 = pos as nat;
        proof {
            lemma_unpack_bounds(mark & 0x0f, src@, p0, w0, t);
        }
        match unpack(mark >> 4u8, src, &mut pos, out, &mut out_pos, Ghost(w1)) {
            Err(e) => {
                return Err(e);
            },
            Ok(()) => {},
        }
        proof {
            lemma_unpack_bounds(mark >> 4u8, src@, p1, w1, t);
            w = match spec_unpack(mark >> 4u8, src@, p1, w1, t) {
                Ok((p, ww)) => ww,
                Err((k, ww)) => ww,
            };
        }
    }
    if out_pos != target {
        return Err(ReadError::new(CorruptionKind::Truncated));
    }
    Ok(())
}

} // verus!

verus! {

/// What decompressing `src` gives: the bytes, or the kind of corruption.
pub open spec fn spec_decompress(src: Seq<u8>) -> Result<Seq<u8>, CorruptionKind> {
    if src.len() == 0 {
        Ok(Seq::empty())
    } else {
        match spec_header(src, 0) {
            Err(k) => Err(k),
            Ok((v, e)) => match spec_decode(src, e, Seq::empty(), (v as usize) as nat) {
                Ok(w) => Ok(w),
                Err((k, w)) => Err(k),
            },
        }
    }
}

/// Decompresses `src`.
pub fn decompress(src: &[u8]) -> (r: Result<Vec<u8>, ReadError>)
    ensures
        match spec_decompress(src@) {
            Ok(w) => r matches Ok(out) && out@ == w,
            Err(k) => r matches Err(e) && e.kind == k,
        },
{
    let mut out: Vec<u8> = Vec::new();
    match decompress_into(src, &mut out) {
        Ok(()) => Ok(out),
        Err(e) => Err(e),
    }
}

} // verus!

verus! {

proof fn lemma_varint_len(n: nat, j: nat)
    requires
        j >= 1,
        n < crate::serialize::pow128(j),
    ensures
        spec_varint_bytes(n).len() <= j,
        spec_varint_bytes(n).len() >= 1,
    decreases n,
{
    if n >= 128 {
        assert(j >= 2) by {
            if j == 1 {
                reveal_with_fuel(crate::serialize::pow128, 2);
            }
        }
        assert(crate::serialize::pow128(j) == 128 * crate::serialize::pow128((j - 1) as nat));
        lemma_varint_len(n / 128, (j - 1) as nat);
    }
}

proof fn lemma_header_varint(n: nat, pre: Seq<u8>, rest: Seq<u8>)
    requires
        pre.len() + spec_varint_bytes(n).len() <= 5,
    ensures
        spec_header(pre + spec_varint_bytes(n) + rest, pre.len()) == Ok::<(nat, nat), CorruptionKind>(
            (n, pre.len() + spec_varint_bytes(n).len()),
        ),
    decreases n,
{
    let s = pre + spec_varint_bytes(n) + rest;
    if n < 128 {
        assert(s[pre.len() as int] == n as u8);
    } else {
        let b = (0x80 + n % 128) as u8;
        let pre2 = pre.push(b);
        assert(spec_varint_bytes(n) == seq![b] + spec_varint_bytes(n / 128));
        assert(pre2 + spec_varint_bytes(n / 128) + rest =~= s);
        lemma_header_varint(n / 128, pre2, rest);
        assert(s[pre.len() as int] == b);
    }
}

proof fn lemma_nibbles(a: u8, b: u8)
    requires
        a < 16,
        b < 16,
    ensures
        (a | (b << 4u8)) & 0x0f == a,
        (a | (b << 4u8)) >> 4u8 == b,
{
    lemma_nibble_bits();
    assert((a | (b << 4u8)) & 0x0fu8 == a && (a | (b << 4u8)) >> 4u8 == b);
}

/// Decoding the run that starts at `pos` from its mark and copied bytes
/// writes the run.
proof fn lemma_unpack_token(src: Seq<u8>, pos: nat, c: Seq<u8>, at: nat)
    requires
        pos < src.len() <= usize::MAX,
        c.len() <= usize::MAX,
        at + literal(src, pos, spec_pick(src, pos).1, spec_pick(src, pos).0).len() <= c.len(),
        c.subrange(
            at as int,
            (at + literal(src, pos, spec_pick(src, pos).1, spec_pick(src, pos).0).len()) as int,
        ) == literal(src, pos, spec_pick(src, pos).1, spec_pick(src, pos).0),
    ensures
        spec_unpack(spec_pick(src, pos).0, c, at, src.subrange(0, pos as int), src.len()) == Ok::<
            (nat, Seq<u8>),
            (CorruptionKind, Seq<u8>),
        >(
            (
                at + literal(src, pos, spec_pick(src, pos).1, spec_pick(src, pos).0).len(),
                src.subrange(0, spec_pick(src, pos).1 as int),
            ),
        ),
{
    lemma_pick(src, pos);
    let (mark, p1) = spec_pick(src, pos);
    let w = src.subrange(0, pos as int);
    let len = (p1 - pos) as nat;
    let first = src[pos as int];
    if first == 0 {
        lemma_run_len(src, pos, 0u8, 4);
        let x = (len - 1) as u8;
        lemma_nibble_bits();
        assert((8u8 | x) & 8u8 != 0u8 && ((8u8 | x) & 3u8) == x && ((8u8 | x) & 4u8) == 0u8);
        assert(mark == (8u8 | x));
        assert(w + fill(len, 0u8) =~= src.subrange(0, p1 as int));
    } else if first == 0xff {
        lemma_run_len(src, pos, 0xffu8, 4);
        let x = (len - 1) as u8;
        lemma_nibble_bits();
        assert((12u8 | x) & 8u8 != 0u8 && ((12u8 | x) & 3u8) == x && ((12u8 | x) & 4u8) != 0u8);
        assert(mark == (12u8 | x));
        assert(w + fill(len, 0xffu8) =~= src.subrange(0, p1 as int));
    } else {
        lemma_plain_len(src, pos, 7);
        let x = len as u8;
        assert(1 <= len <= 7);
        assert(x as nat == len);
        assert(1u8 <= x && x <= 7u8);
        lemma_nibble_bits();
        assert((x & 8u8) == 0u8);
        assert((x & 7u8) == x);
        assert(mark == x);
        assert(w + src.subrange(pos as int, p1 as int) =~= src.subrange(0, p1 as int));
        assert(c.subrange(at as int, (at + len) as int) == src.subrange(pos as int, p1 as int));
    }
}

proof fn lemma_decode_body(src: Seq<u8>, pos: nat, q: Seq<u8>)
    requires
        pos <= src.len() <= usize::MAX,
        q.len() + spec_body(src, pos).len() <= usize::MAX,
    ensures
        spec_decode(q + spec_body(src, pos), q.len(), src.subrange(0, pos as int), src.len())
            == Ok::<Seq<u8>, (CorruptionKind, Seq<u8>)>(src),
    decreases src.len() - pos,
{
    let n = src.len();
    let c = q + spec_body(src, pos);
    if pos == n {
        assert(spec_body(src, pos) =~= Seq::<u8>::empty());
        assert(src.subrange(0, pos as int) =~= src);
    } else {
        lemma_pick(src, pos);
        let (a, p1) = spec_pick(src, pos);
        let la = literal(src, pos, p1, a);
        if p1 >= n {
            assert(spec_body(src, pos) == seq![a] + la);
            assert(c =~= q + seq![a] + la);
            assert(c[q.len() as int] == a);
            lemma_nibble_bits();
            assert((a >> 4u8) == 0u8 && (a & 0x0fu8) == a);
            assert(c.subrange((q.len() + 1) as int, (q.len() + 1 + la.len()) as int) =~= la);
            lemma_unpack_token(src, pos, c, q.len() + 1);
            let w1 = src.subrange(0, p1 as int);
            let pe = q.len() + 1 + la.len();
            assert(spec_unpack(a, c, q.len() + 1, src.subrange(0, pos as int), n) == Ok::<
                (nat, Seq<u8>),
                (CorruptionKind, Seq<u8>),
            >((pe, w1)));
            assert(w1.len() == n);
            assert(spec_unpack(0u8, c, pe, w1, n) == Ok::<(nat, Seq<u8>), (CorruptionKind, Seq<u8>)>(
                (pe, w1),
            ));
            assert(pe == c.len());
            assert(spec_decode(c, pe, w1, n) == Ok::<Seq<u8>, (CorruptionKind, Seq<u8>)>(w1));
            assert(w1 =~= src);
        } else {
            lemma_pick(src, p1);
            let (b, p2) = spec_pick(src, p1);
            let lb = literal(src, p1, p2, b);
            let m = a | (b << 4u8);
            let q2 = q + seq![m] + la + lb;
            assert(spec_body(src, pos) == seq![m] + la + lb + spec_body(src, p2));
            assert(c =~= q2 + spec_body(src, p2));
            assert(c[q.len() as int] == m);
            lemma_nibbles(a, b);
            assert(c.subrange((q.len() + 1) as int, (q.len() + 1 + la.len()) as int) =~= la);
            lemma_unpack_token(src, pos, c, q.len() + 1);
            assert(c.subrange(
                (q.len() + 1 + la.len()) as int,
                (q.len() + 1 + la.len() + lb.len()) as int,
            ) =~= lb);
            lemma_unpack_token(src, p1, c, q.len() + 1 + la.len());
            lemma_decode_body(src, p2, q2);
        }
    }
}

/// Decompressing what compression gives yields the input back, for every
/// input shorter than `2^35` bytes, the most the length header can carry.
pub proof fn lemma_compress_roundtrip(src: Seq<u8>)
    requires
        src.len() < 0x8_0000_0000,
        src.len() <= usize::MAX,
        spec_compress(src).len() <= usize::MAX,
    ensures
        spec_decompress(spec_compress(src)) == Ok::<Seq<u8>, CorruptionKind>(src),
{
    if src.len() > 0 {
        let n = src.len();
        let h = spec_varint_bytes(n);
        let c = spec_compress(src);
        reveal_with_fuel(crate::serialize::pow128, 6);
        lemma_varint_len(n, 5);
        lemma_header_varint(n, Seq::empty(), spec_body(src, 0));
        assert(Seq::<u8>::empty() + h + spec_body(src, 0) =~= c);
        assert(spec_header(c, 0) == Ok::<(nat, nat), CorruptionKind>((n, h.len())));
        lemma_decode_body(src, 0, h);
        assert(src.subrange(0, 0) =~= Seq::<u8>::empty());
        assert(h + spec_body(src, 0) =~= c);
        assert((n as usize) as nat == n);
        assert(spec_decode(c, h.len(), Seq::empty(), n) == Ok::<Seq<u8>, (CorruptionKind, Seq<u8>)>(
            src,
        ));
    } else {
        assert(src =~= Seq::<u8>::empty());
    }
}

} // verus!
