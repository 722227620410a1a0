//! What the readers give back of what the encoders wrote.

use vstd::prelude::*;

use crate::utils::{hi_word, join_words, lemma_join_split, lo_word};
use crate::access::{
    cell_object, cell_raw, group_sum, group_width, section_mark, spec_message_field,
    spec_message_layout,
};
use crate::serialize::{
    body_offset, cell_width, cell_words, lemma_body_len, lemma_message_words_len,
    lemma_section_words_len, lemma_used_len_bound,
    message_body, message_encodable, message_head, message_mark, message_sections,
    message_segments_behind, message_words, offset_word, section_words, used_len, width_bits,
    Unit, array_cell, array_cells, array_head, array_payload, array_spill, array_words,
    best_size, best_width, lemma_array_cells_len, lemma_array_payload_len, unit_words_at,
    unit_words_in, units_present,
};
use crate::access::spec_array_header;

verus! {

proof fn lemma_cell_width_le3(u: Unit)
    ensures
        cell_width(u) <= 3,
{
    u.lemma_inline_len();
}

proof fn lemma_width_bits_bound(f: Seq<Unit>, start: nat, k: nat)
    requires
        k <= 25,
    ensures
        width_bits(f, start, k) < (1u64 << ((2 * k) as u64)),
    decreases k,
{
    if k == 0 {
        assert(0u64 < (1u64 << 0u64)) by (bit_vector);
    } else {
        lemma_width_bits_bound(f, start, (k - 1) as nat);
        let a = width_bits(f, start, (k - 1) as nat);
        lemma_cell_width_le3(f[start + k - 1]);
        let w = cell_width(f[start + k - 1]) as u64;
        let s = (2 * (k - 1)) as u64;
        assert(a < (1u64 << s) && w <= 3 && s <= 48 ==> (a | (w << s)) < (1u64 << (s + 2)))
            by (bit_vector);
        assert((s + 2) as u64 == (2 * k) as u64);
    }
}

proof fn lemma_width_bits_group(f: Seq<Unit>, start: nat, k: nat, i: nat)
    requires
        k <= 25,
        i < 32,
    ensures
        group_width(width_bits(f, start, k), i) == if i < k {
            cell_width(f[(start + i) as int])
        } else {
            0
        },
    decreases k,
{
    if k == 0 {
        let t = (2 * i) as u64;
        assert((0u64 >> t) & 3u64 == 0u64) by (bit_vector);
    } else {
        lemma_width_bits_group(f, start, (k - 1) as nat, i);
        lemma_width_bits_bound(f, start, (k - 1) as nat);
        let a = width_bits(f, start, (k - 1) as nat);
        lemma_cell_width_le3(f[start + k - 1]);
        let w = cell_width(f[start + k - 1]) as u64;
        let s = (2 * (k - 1)) as u64;
        let t = (2 * i) as u64;
        assert(a < (1u64 << s) && w <= 3 && s <= 48 && t <= 62 && t == s ==> ((a | (w << s)) >> t)
            & 3u64 == w) by (bit_vector);
        assert(a < (1u64 << s) && w <= 3 && s <= 48 && t <= 62 && t + 2 <= s ==> ((a | (w << s))
            >> t) & 3u64 == (a >> t) & 3u64) by (bit_vector);
        assert(a < (1u64 << s) && w <= 3 && s <= 48 && t <= 62 && s + 2 <= t ==> ((a | (w << s))
            >> t) & 3u64 == 0u64) by (bit_vector);
        assert(a < (1u64 << s) && s <= 48 && t <= 62 && s <= t ==> (a >> t) & 3u64 == 0u64)
            by (bit_vector);
    }
}

proof fn lemma_width_bits_sum(f: Seq<Unit>, start: nat, k: nat, i: nat)
    requires
        k <= 25,
        i <= k,
    ensures
        group_sum(width_bits(f, start, k), i) + body_offset(f, start) == body_offset(f, start + i),
    decreases i,
{
    if i > 0 {
        lemma_width_bits_sum(f, start, k, (i - 1) as nat);
        lemma_width_bits_group(f, start, k, (i - 1) as nat);
    }
}


proof fn lemma_group_sum_ext(x: u64, y: u64, b: nat)
    requires
        forall|j: nat| j < b ==> group_width(x, j) == group_width(y, j),
    ensures
        group_sum(x, b) == group_sum(y, b),
    decreases b,
{
    if b > 0 {
        lemma_group_sum_ext(x, y, (b - 1) as nat);
        assert(group_width(x, (b - 1) as nat) == group_width(y, (b - 1) as nat));
    }
}

proof fn lemma_cell_words_len(u: Unit, pos: int)
    ensures
        cell_words(u, pos).len() == cell_width(u),
{
}

proof fn lemma_body_prefix(f: Seq<Unit>, i: nat, n: nat, top: int)
    requires
        i <= n,
    ensures
        body_offset(f, i) <= message_body(f, n, top).len(),
        message_body(f, n, top).subrange(0, body_offset(f, i) as int) == message_body(f, i, top),
    decreases n,
{
    lemma_body_len(f, n, top);
    lemma_body_len(f, i, top);
    if i == n {
        assert(message_body(f, n, top).subrange(0, body_offset(f, i) as int) =~= message_body(
            f,
            i,
            top,
        ));
    } else {
        lemma_body_prefix(f, i, (n - 1) as nat, top);
        lemma_body_len(f, (n - 1) as nat, top);
        let prev = message_body(f, (n - 1) as nat, top);
        let c = cell_words(f[n - 1], top - body_offset(f, (n - 1) as nat));
        assert(message_body(f, n, top) == prev + c);
        assert((prev + c).subrange(0, body_offset(f, i) as int) =~= prev.subrange(
            0,
            body_offset(f, i) as int,
        ));
    }
}

/// The cell of field `id` inside the body of an encoded message.
proof fn lemma_body_cell(f: Seq<Unit>, id: nat, n: nat, top: int)
    requires
        id < n,
    ensures
        body_offset(f, id) + cell_width(f[id as int]) <= message_body(f, n, top).len(),
        message_body(f, n, top).subrange(
            body_offset(f, id) as int,
            (body_offset(f, id) + cell_width(f[id as int])) as int,
        ) == cell_words(f[id as int], top - body_offset(f, id)),
{
    lemma_body_prefix(f, id + 1, n, top);
    lemma_body_len(f, id, top);
    let whole = message_body(f, n, top);
    let upto = message_body(f, id + 1, top);
    let c = cell_words(f[id as int], top - body_offset(f, id));
    lemma_cell_words_len(f[id as int], top - body_offset(f, id));
    assert(upto == message_body(f, id, top) + c);
    assert(whole.subrange(body_offset(f, id) as int, (body_offset(f, id) + cell_width(f[id as int])) as int)
        =~= upto.subrange(body_offset(f, id) as int, upto.len() as int));
    assert(upto.subrange(body_offset(f, id) as int, upto.len() as int) =~= c);
}

proof fn lemma_section_words_at(f: Seq<Unit>, n: nat, total: nat, s: nat)
    requires
        s < total,
    ensures
        section_words(f, n, total)[2 * s as int] == lo_word(message_mark(f, n, s)),
        section_words(f, n, total)[(2 * s + 1) as int] == hi_word(message_mark(f, n, s)),
    decreases total,
{
    lemma_section_words_len(f, n, (total - 1) as nat);
    if s < total - 1 {
        lemma_section_words_at(f, n, (total - 1) as nat, s);
    }
}

proof fn lemma_mark_bits(c: u64, bits: u64, b: nat)
    requires
        bits < (1u64 << 50u64),
        c < 0x4000,
        b < 25,
    ensures
        group_width((c << 50u64) | bits, b) == group_width(bits, b),
        ((c << 50u64) | bits) >> 50u64 == c,
{
    let t = (2 * b) as u64;
    assert(bits < (1u64 << 50u64) && c < 0x4000 && t <= 48 ==> ((((c << 50u64) | bits) >> t) & 3u64)
        == ((bits >> t) & 3u64)) by (bit_vector);
    assert(bits < (1u64 << 50u64) && c < 0x4000 ==> ((c << 50u64) | bits) >> 50u64 == c)
        by (bit_vector);
}

proof fn lemma_offset_word(d: nat)
    requires
        d < 0x4000_0000,
    ensures
        offset_word(d) & 3 == 3,
        (offset_word(d) >> 2u32) as nat == d,
{
    let x = d as u32;
    assert(x < 0x4000_0000 ==> (((x << 2u32) | 3u32) & 3u32) == 3u32) by (bit_vector);
    assert(x < 0x4000_0000 ==> (((x << 2u32) | 3u32) >> 2u32) == x) by (bit_vector);
}

/// Start of the extra section that holds field `id` (at least 12).
pub open spec fn section_start(id: nat) -> nat {
    12 + 25 * (((id - 12) as nat) / 25)
}

/// Reading an encoded message gives back its fields: a field that was set
/// is found with the width of its unit at the unit's place in the body, and
/// its cell holds the unit's inline words or refers to the unit's segment;
/// a field that was not set reads as absent.
pub proof fn lemma_message_roundtrip(f: Seq<Unit>, before: Seq<u32>, id: nat)
    requires
        message_encodable(f),
        message_segments_behind(f, before.len()),
        id >= 12 && section_start(id) < used_len(f) ==> body_offset(f, section_start(id)) < 0x4000,
        id < used_len(f) && f[id as int].spec_is_segment() ==> before.len() + body_offset(
            f,
            used_len(f),
        ) - body_offset(f, id) - f[id as int].spec_segment().pos < 0x4000_0000,
    ensures
        ({
            let words = message_words(f, before.len()) + before;
            let start = 1 + 2 * message_sections(used_len(f)) + body_offset(f, id);
            if id < used_len(f) && cell_width(f[id as int]) != 0 {
                &&& spec_message_field(words, id) == Some((start, cell_width(f[id as int])))
                &&& f[id as int].spec_inline().len() != 0 ==> cell_raw(
                    words.subrange(start as int, words.len() as int),
                    cell_width(f[id as int]),
                ) == Some(f[id as int].spec_inline())
                &&& f[id as int].spec_is_segment() ==> cell_object(
                    words.subrange(start as int, words.len() as int),
                ) == Some(
                    words.subrange(
                        words.len() - f[id as int].spec_segment().pos,
                        words.len() as int,
                    ),
                )
            } else {
                spec_message_field(words, id) is None
            }
        }),
{
    let n = used_len(f);
    let sc = message_sections(n);
    let old_len = before.len();
    let top = (old_len + body_offset(f, n)) as int;
    let enc = message_words(f, old_len);
    let words = enc + before;
    lemma_message_words_len(f, old_len);
    lemma_used_len_bound(f);
    lemma_body_len(f, n, top);
    lemma_section_words_len(f, n, sc);
    let k: nat = if n < 12 {
        n
    } else {
        12
    };
    let v = width_bits(f, 0, k);
    lemma_width_bits_bound(f, 0, k);
    let head0 = message_head(f, n);
    assert(words[0] == head0);
    let sv = sc as u32;
    assert((1u64 << ((2 * k) as u64)) <= (1u64 << 24u64)) by {
        let e = (2 * k) as u64;
        assert(e <= 24 ==> (1u64 << e) <= (1u64 << 24u64)) by (bit_vector);
    }
    assert(sv <= 0xff && v < (1u64 << 24u64) ==> ((sv | ((v as u32) << 8u32)) & 0xff) == sv)
        by (bit_vector);
    assert(sv <= 0xff && v < (1u64 << 24u64) ==> (((sv | ((v as u32) << 8u32)) >> 8u32) as u64)
        == v) by (bit_vector);
    assert(spec_message_layout(words) == Some((head0, sc, 1 + 2 * sc)));
    let idx = 1 + 2 * sc + body_offset(f, id);
    if id < 12 {
        lemma_width_bits_group(f, 0, k, id);
        assert((head0 >> 8u32) as u64 == v);
        if id < k {
            lemma_width_bits_sum(f, 0, k, id);
        }
    } else {
        let s = ((id - 12) as nat) / 25;
        let b = ((id - 12) as nat) % 25;
        if s < sc {
            let start: nat = 12 + 25 * s;
            assert(start == section_start(id));
            let end: nat = if n < start + 25 {
                n
            } else {
                start + 25
            };
            let m = message_mark(f, n, s);
            lemma_section_words_at(f, n, sc, s);
            assert(words[(1 + 2 * s) as int] == lo_word(m));
            assert(words[(2 + 2 * s) as int] == hi_word(m));
            lemma_join_split(m);
            assert(section_mark(words, s) == m);
            let bits = width_bits(f, start, (end - start) as nat);
            lemma_width_bits_bound(f, start, (end - start) as nat);
            assert((1u64 << ((2 * (end - start)) as u64)) <= (1u64 << 50u64)) by {
                let e = (2 * (end - start)) as u64;
                assert(e <= 50 ==> (1u64 << e) <= (1u64 << 50u64)) by (bit_vector);
            }
            let c = body_offset(f, start) as u64;
            lemma_mark_bits(c, bits, b);
            lemma_width_bits_group(f, start, (end - start) as nat, b);
            assert forall|j: nat| j < b implies group_width(m, j) == group_width(bits, j) by {
                lemma_mark_bits(c, bits, j);
            }
            lemma_group_sum_ext(m, bits, b);
            if b < end - start {
                lemma_width_bits_sum(f, start, (end - start) as nat, b);
            }
        }
    }
    if id < n && cell_width(f[id as int]) != 0 {
        lemma_body_cell(f, id, n, top);
        let tail = words.subrange(idx as int, words.len() as int);
        let u = f[id as int];
        assert(tail.subrange(0, cell_width(u) as int) =~= cell_words(u, top - body_offset(f, id)));
        if u.spec_is_segment() {
            let d = (top - body_offset(f, id) - u.spec_segment().pos) as nat;
            lemma_offset_word(d);
            assert(cell_words(u, top - body_offset(f, id)) == seq![offset_word(d)]);
            assert(cell_width(u) == 1);
            assert(tail.subrange(0, 1)[0] == tail[0]);
            assert(tail[0] == offset_word(d));
            assert(tail.subrange(d as int, tail.len() as int) =~= words.subrange(
                words.len() - u.spec_segment().pos,
                words.len() as int,
            ));
        }
    }
}


proof fn lemma_cells_prefix(f: Seq<Unit>, content: Seq<u32>, i: nat, m: nat, w: nat, n: nat)
    requires
        i <= m,
        w >= 1,
    ensures
        i * w <= m * w,
        array_cells(f, content, m, w, n).subrange(0, (i * w) as int) == array_cells(
            f,
            content,
            i,
            w,
            n,
        ),
    decreases m,
{
    lemma_array_cells_len(f, content, m, w, n);
    lemma_array_cells_len(f, content, i, w, n);
    assert(i * w <= m * w) by (nonlinear_arith)
        requires
            i <= m,
    ;
    if i == m {
        assert(array_cells(f, content, m, w, n).subrange(0, (i * w) as int) =~= array_cells(
            f,
            content,
            i,
            w,
            n,
        ));
    } else {
        let j = (m - 1) as nat;
        lemma_cells_prefix(f, content, i, j, w, n);
        lemma_array_cells_len(f, content, j, w, n);
        let prev = array_cells(f, content, j, w, n);
        let c = array_cell(
            unit_words_at(f, content, j as int),
            w,
            (n * w + array_spill(f, j, w) - j * w) as nat,
        );
        assert(array_cells(f, content, m, w, n) == prev + c);
        assert((prev + c).subrange(0, (i * w) as int) =~= prev.subrange(0, (i * w) as int));
    }
}

proof fn lemma_payload_prefix(f: Seq<Unit>, content: Seq<u32>, i: nat, m: nat, w: nat)
    requires
        i <= m <= f.len(),
        units_present(f, content),
    ensures
        array_spill(f, i, w) <= array_spill(f, m, w),
        array_payload(f, content, m, w).subrange(0, array_spill(f, i, w) as int) == array_payload(
            f,
            content,
            i,
            w,
        ),
    decreases m,
{
    lemma_array_payload_len(f, content, m, w);
    lemma_array_payload_len(f, content, i, w);
    if i == m {
        assert(array_payload(f, content, m, w).subrange(0, array_spill(f, i, w) as int)
            =~= array_payload(f, content, i, w));
    } else {
        let j = (m - 1) as nat;
        lemma_payload_prefix(f, content, i, j, w);
        lemma_array_payload_len(f, content, j, w);
        let prev = array_payload(f, content, j, w);
        let c = if f[j as int].spec_size() > w {
            unit_words_at(f, content, j as int)
        } else {
            Seq::empty()
        };
        assert(array_payload(f, content, m, w) == prev + c);
        assert((prev + c).subrange(0, array_spill(f, i, w) as int) =~= prev.subrange(
            0,
            array_spill(f, i, w) as int,
        ));
    }
}

/// Reading an encoded array gives back its units: the header holds their
/// number and the cell width, a unit that fits its cell is read from the
/// cell padded with zeros, and a unit that does not is reached through the
/// cell's offset.
pub proof fn lemma_array_roundtrip(f: Seq<Unit>, content: Seq<u32>, rest: Seq<u32>, i: nat)
    requires
        f.len() > 0,
        best_size(f) < 0x4000_0000,
        units_present(f, content),
        i < f.len(),
    ensures
        ({
            let words = array_words(f, content) + rest;
            let w = best_width(f);
            let tail = words.subrange((1 + i * w) as int, words.len() as int);
            let ws = unit_words_at(f, content, i as int);
            &&& spec_array_header(words) == Some((f.len(), w))
            &&& ws.len() <= w ==> cell_raw(tail, w) == Some(
                ws + Seq::new((w - ws.len()) as nat, |k: int| 0u32),
            )
            &&& ws.len() > w ==> (cell_object(tail) matches Some(obj) && ws.len() <= obj.len()
                && obj.subrange(0, ws.len() as int) == ws)
        }),
{
    let n = f.len();
    let w = best_width(f);
    let words = array_words(f, content) + rest;
    crate::serialize::lemma_array_words_len(f, content);
    crate::serialize::lemma_array_size_split(f, n, w);
    lemma_array_cells_len(f, content, n, w, n);
    lemma_array_payload_len(f, content, n, w);
    let nn = n as u32;
    let ww = w as u32;
    assert(n * w >= n) by (nonlinear_arith)
        requires
            w >= 1,
    ;
    assert(nn < 0x4000_0000 && 1 <= ww <= 3 ==> ((nn << 2u32) | ww) >> 2u32 == nn && ((nn << 2u32)
        | ww) & 3u32 == ww) by (bit_vector);
    assert(words[0] == array_head(n, w));
    assert(spec_array_header(words) == Some((n, w)));
    let cells = array_cells(f, content, n, w, n);
    lemma_cells_prefix(f, content, i + 1, n, w, n);
    lemma_array_cells_len(f, content, i, w, n);
    assert((i + 1) * w == i * w + w) by (nonlinear_arith);
    let d = (n * w + array_spill(f, i, w) - i * w) as nat;
    let ws = unit_words_at(f, content, i as int);
    let c = array_cell(ws, w, d);
    assert(array_cells(f, content, i + 1, w, n) == array_cells(f, content, i, w, n) + c);
    let tail = words.subrange((1 + i * w) as int, words.len() as int);
    assert(tail.subrange(0, w as int) =~= c) by {
        assert(cells.subrange(0, ((i + 1) * w) as int) == array_cells(f, content, i, w, n) + c);
        assert forall|k: int| 0 <= k < w implies tail.subrange(0, w as int)[k] == c[k] by {
            assert(tail[k] == words[1 + i * w + k]);
            assert(words[1 + i * w + k] == cells[i * w + k]);
            assert(cells[i * w + k] == cells.subrange(0, ((i + 1) * w) as int)[i * w + k]);
        }
    }
    assert(unit_words_in(f[i as int], content) is Some);
    crate::serialize::lemma_unit_words_len(f[i as int], content);
    if ws.len() > w {
        assert(i * w + w <= n * w) by (nonlinear_arith)
            requires
                i < n,
        ;
        assert(d < 0x4000_0000) by {
            crate::serialize::lemma_array_spill_monotone(f, i, n, w);
        }
        lemma_offset_word(d);
        assert(tail[0] == c[0]);
        let payload = array_payload(f, content, n, w);
        lemma_payload_prefix(f, content, i + 1, n, w);
        lemma_payload_prefix(f, content, i, n, w);
        let sp = array_spill(f, i, w);
        assert(array_payload(f, content, i + 1, w) == array_payload(f, content, i, w) + ws);
        let obj = tail.subrange(d as int, tail.len() as int);
        assert forall|k: int| 0 <= k < ws.len() implies obj[k] == ws[k] by {
            assert(obj[k] == words[1 + n * w + sp + k]);
            assert(words[1 + n * w + sp + k] == payload[sp + k]);
            assert(payload[sp + k] == payload.subrange(0, array_spill(f, i + 1, w) as int)[sp + k]);
        }
        assert(obj.subrange(0, ws.len() as int) =~= ws);
    }
}

} // verus!

verus! {

/// The bytes of two word sequences one after the other.
pub proof fn lemma_bytes_of_append(a: Seq<u32>, b: Seq<u32>)
    ensures
        crate::words::bytes_of(a + b) == crate::words::bytes_of(a) + crate::words::bytes_of(b),
{
    let l = crate::words::bytes_of(a + b);
    let r = crate::words::bytes_of(a) + crate::words::bytes_of(b);
    assert forall|i: int| 0 <= i < l.len() implies l[i] == r[i] by {
        if i < a.len() * 4 {
            assert((a + b)[i / 4] == a[i / 4]);
        } else {
            let j = i - a.len() * 4;
            assert(i / 4 == a.len() + j / 4 && i % 4 == j % 4);
            assert((a + b)[i / 4] == b[j / 4]);
        }
    }
    assert(l =~= r);
}

/// Bytes a multiple of four long read back from their words.
pub proof fn lemma_bytes_of_words_of_bytes(b: Seq<u8>)
    requires
        b.len() % 4 == 0,
    ensures
        crate::words::bytes_of(crate::serialize::words_of_bytes(b)) == b,
{
    let ws = crate::serialize::words_of_bytes(b);
    let l = crate::words::bytes_of(ws);
    assert forall|i: int| 0 <= i < l.len() implies l[i] == b[i] by {
        let k = i / 4;
        crate::words::lemma_bytes_word(b[4 * k], b[4 * k + 1], b[4 * k + 2], b[4 * k + 3]);
        assert(i == 4 * k + i % 4);
    }
    assert(l =~= b);
}

proof fn lemma_mark_prefix(r1: Seq<u8>, r2: Seq<u8>, k: nat)
    requires
        crate::access::spec_mark(r1, k) is Some,
    ensures
        crate::access::spec_mark(r1 + r2, k) == crate::access::spec_mark(r1, k),
        crate::access::spec_mark(r1, k) matches Some((v, used)) && used <= r1.len(),
    decreases 5 - k,
{
    assert((r1 + r2)[k as int] == r1[k as int]);
    if r1[k as int] >= 0x80 {
        lemma_mark_prefix(r1, r2, k + 1);
    }
}

/// A string encoding keeps its bytes when more words follow it.
pub proof fn lemma_string_prefix(ws: Seq<u32>, more: Seq<u32>)
    requires
        crate::access::spec_string_bytes(ws) is Some,
    ensures
        crate::access::spec_string_bytes(ws + more) == crate::access::spec_string_bytes(ws),
{
    let r1 = crate::words::bytes_of(ws);
    let r2 = crate::words::bytes_of(more);
    lemma_bytes_of_append(ws, more);
    lemma_mark_prefix(r1, r2, 0);
    assert((r1 + r2)[0] == r1[0]);
    let (mark, used) = crate::access::spec_mark(r1, 0).unwrap();
    assert((r1 + r2).subrange(used as int, (used + mark / 4) as int) =~= r1.subrange(
        used as int,
        (used + mark / 4) as int,
    ));
}

} // verus!

verus! {

/// A base-128 length mark written at byte `p` reads back as its value.
proof fn lemma_mark_varint(raw: Seq<u8>, p: nat, n: nat)
    requires
        p + crate::serialize::spec_varint_bytes(n).len() <= 5,
        p + crate::serialize::spec_varint_bytes(n).len() <= raw.len(),
        raw.subrange(p as int, (p + crate::serialize::spec_varint_bytes(n).len()) as int)
            == crate::serialize::spec_varint_bytes(n),
    ensures
        crate::access::spec_mark(raw, p) == Some((n, p + crate::serialize::spec_varint_bytes(n).len())),
    decreases n,
{
    let v = crate::serialize::spec_varint_bytes(n);
    assert(raw[p as int] == v[0]);
    if n >= 128 {
        let v2 = crate::serialize::spec_varint_bytes(n / 128);
        assert(v == seq![(0x80 + n % 128) as u8] + v2);
        assert(raw.subrange((p + 1) as int, (p + 1 + v2.len()) as int) =~= v2) by {
            assert forall|i: int| 0 <= i < v2.len() implies raw[p + 1 + i] == v2[i] by {
                assert(raw[p + 1 + i] == v[1 + i]);
            }
        }
        lemma_mark_varint(raw, p + 1, n / 128);
    }
}

/// The base-128 mark of a number below `128^k` takes at most `k` bytes.
pub(crate) proof fn lemma_varint_bytes_len(n: nat, k: nat)
    requires
        k >= 1,
        n < crate::serialize::pow128(k),
    ensures
        crate::serialize::spec_varint_bytes(n).len() <= k,
    decreases k,
{
    reveal_with_fuel(crate::serialize::pow128, 2);
    if n >= 128 {
        if k == 1 {
            assert(crate::serialize::pow128(1) == 128);
        }
        assert(n / 128 < crate::serialize::pow128((k - 1) as nat)) by (nonlinear_arith)
            requires
                n < 128 * crate::serialize::pow128((k - 1) as nat),
        ;
        lemma_varint_bytes_len(n / 128, (k - 1) as nat);
    }
}

/// A string or byte string read back from its encoding, whatever words
/// follow it, gives the bytes that were written.
pub proof fn lemma_string_roundtrip(b: Seq<u8>, rest: Seq<u32>)
    requires
        b.len() < 0x4000_0000,
    ensures
        crate::access::spec_string_bytes(crate::serialize::spec_encode_bytes(b) + rest) == Some(b),
{
    let n = b.len() * 4;
    let v = crate::serialize::spec_varint_bytes(n);
    reveal_with_fuel(crate::serialize::pow128, 6);
    lemma_varint_bytes_len(n, 5);
    let body = v + b;
    let padded = crate::serialize::pad4(body);
    assert(padded.len() % 4 == 0);
    let ws = crate::serialize::spec_encode_bytes(b);
    lemma_bytes_of_words_of_bytes(padded);
    let raw = crate::words::bytes_of(ws);
    assert(raw == padded);
    assert(raw.subrange(0, v.len() as int) =~= v) by {
        assert forall|i: int| 0 <= i < v.len() implies raw[i] == v[i] by {
            assert(padded[i] == body[i]);
        }
    }
    lemma_mark_varint(raw, 0, n);
    assert(raw[0] == v[0]);
    if n < 128 {
        assert(v[0] == n as u8);
    } else {
        assert(v[0] == (0x80 + n % 128) as u8);
        assert((0x80 + n % 128) % 4 == 0) by (nonlinear_arith)
            requires
                n % 4 == 0,
        ;
    }
    assert(raw[0] % 4 == 0);
    assert(raw.subrange(v.len() as int, (v.len() + b.len()) as int) =~= b) by {
        assert forall|i: int| 0 <= i < b.len() implies raw[v.len() + i] == b[i] by {
            assert(padded[v.len() + i] == body[v.len() + i]);
        }
    }
    assert(crate::access::spec_string_bytes(ws) == Some(b));
    lemma_string_prefix(ws, rest);
}

proof fn lemma_map_cells_prefix(
    keys: Seq<Unit>,
    values: Seq<Unit>,
    content: Seq<u32>,
    i: nat,
    m: nat,
    kw: nat,
    vw: nat,
    n: nat,
)
    requires
        i <= m,
        kw >= 1,
        vw >= 1,
    ensures
        i * (kw + vw) <= m * (kw + vw),
        crate::serialize::map_cells(keys, values, content, m, kw, vw, n).subrange(
            0,
            (i * (kw + vw)) as int,
        ) == crate::serialize::map_cells(keys, values, content, i, kw, vw, n),
    decreases m,
{
    crate::serialize::lemma_map_cells_len(keys, values, content, m, kw, vw, n);
    crate::serialize::lemma_map_cells_len(keys, values, content, i, kw, vw, n);
    assert(i * (kw + vw) <= m * (kw + vw)) by (nonlinear_arith)
        requires
            i <= m,
    ;
    if i == m {
        assert(crate::serialize::map_cells(keys, values, content, m, kw, vw, n).subrange(
            0,
            (i * (kw + vw)) as int,
        ) =~= crate::serialize::map_cells(keys, values, content, i, kw, vw, n));
    } else {
        let j = (m - 1) as nat;
        lemma_map_cells_prefix(keys, values, content, i, j, kw, vw, n);
        crate::serialize::lemma_map_cells_len(keys, values, content, j, kw, vw, n);
        crate::serialize::lemma_map_step(keys, values, content, j, kw, vw, n);
        let prev = crate::serialize::map_cells(keys, values, content, j, kw, vw, n);
        let whole = crate::serialize::map_cells(keys, values, content, m, kw, vw, n);
        assert(whole.subrange(0, (i * (kw + vw)) as int) =~= prev.subrange(
            0,
            (i * (kw + vw)) as int,
        ));
    }
}

proof fn lemma_map_payload_prefix(
    keys: Seq<Unit>,
    values: Seq<Unit>,
    content: Seq<u32>,
    i: nat,
    m: nat,
    kw: nat,
    vw: nat,
)
    requires
        i <= m <= keys.len(),
        m <= values.len(),
        units_present(keys, content),
        units_present(values, content),
    ensures
        crate::serialize::map_spill(keys, values, i, kw, vw) <= crate::serialize::map_spill(
            keys,
            values,
            m,
            kw,
            vw,
        ),
        crate::serialize::map_payload(keys, values, content, m, kw, vw).subrange(
            0,
            crate::serialize::map_spill(keys, values, i, kw, vw) as int,
        ) == crate::serialize::map_payload(keys, values, content, i, kw, vw),
    decreases m,
{
    crate::serialize::lemma_map_payload_len(keys, values, content, m, kw, vw);
    crate::serialize::lemma_map_payload_len(keys, values, content, i, kw, vw);
    crate::serialize::lemma_map_spill_monotone(keys, values, i, m, kw, vw);
    if i == m {
        assert(crate::serialize::map_payload(keys, values, content, m, kw, vw).subrange(
            0,
            crate::serialize::map_spill(keys, values, i, kw, vw) as int,
        ) =~= crate::serialize::map_payload(keys, values, content, i, kw, vw));
    } else {
        let j = (m - 1) as nat;
        lemma_map_payload_prefix(keys, values, content, i, j, kw, vw);
        crate::serialize::lemma_map_payload_len(keys, values, content, j, kw, vw);
        crate::serialize::lemma_map_step(keys, values, content, j, kw, vw, 0);
        let prev = crate::serialize::map_payload(keys, values, content, j, kw, vw);
        let whole = crate::serialize::map_payload(keys, values, content, m, kw, vw);
        let sp = crate::serialize::map_spill(keys, values, i, kw, vw);
        assert(whole.subrange(0, sp as int) =~= prev.subrange(0, sp as int));
    }
}

/// Bit facts about the first word of a map.
proof fn lemma_map_head_bits(w0: u32, kw: u32, vw: u32)
    requires
        w0 < 0x1000_0000,
        1 <= kw <= 3,
        1 <= vw <= 3,
    ensures
        ((w0 | ((kw << 30u32) | (vw << 28u32))) >> 30u32) & 3u32 == kw,
        ((w0 | ((kw << 30u32) | (vw << 28u32))) >> 28u32) & 3u32 == vw,
        ((w0 | ((kw << 30u32) | (vw << 28u32))) as u64) & 0x0fff_ffffu64 == w0 as u64,
        (w0 as u64) & 0x0fff_ffffu64 == w0 as u64,
{
    assert(((w0 | ((kw << 30u32) | (vw << 28u32))) >> 30u32) & 3u32 == kw && ((w0 | ((kw << 30u32)
        | (vw << 28u32))) >> 28u32) & 3u32 == vw && ((w0 | ((kw << 30u32) | (vw << 28u32))) as u64)
        & 0x0fff_ffffu64 == w0 as u64 && (w0 as u64) & 0x0fff_ffffu64 == w0 as u64) by (bit_vector)
        requires
            w0 < 0x1000_0000,
            1 <= kw <= 3,
            1 <= vw <= 3,
    ;
}

/// The little-endian value of four bytes is the word they make.
proof fn lemma_le_word(b0: u8, b1: u8, b2: u8, b3: u8)
    ensures
        (((b0 as u64) | (((b1 as u64) | (((b2 as u64) | (((b3 as u64) | (0u64 << 8u64)) << 8u64))
            << 8u64)) << 8u64))) == crate::words::word_of_bytes(b0, b1, b2, b3) as u64,
{
    assert((((b0 as u64) | (((b1 as u64) | (((b2 as u64) | (((b3 as u64) | (0u64 << 8u64))
        << 8u64)) << 8u64)) << 8u64))) == ((b0 as u32) | ((b1 as u32) << 8u32) | ((b2 as u32)
        << 16u32) | ((b3 as u32) << 24u32)) as u64) by (bit_vector);
}

proof fn lemma_le4(d: Seq<u8>, start: int)
    requires
        0 <= start,
        start + 4 <= d.len(),
    ensures
        crate::hash::le_bytes(d, start, 4) == crate::words::word_of_bytes(
            d[start],
            d[start + 1],
            d[start + 2],
            d[start + 3],
        ) as u64,
{
    reveal_with_fuel(crate::hash::le_bytes, 5);
    lemma_le_word(d[start], d[start + 1], d[start + 2], d[start + 3]);
}


/// The parts of a map encoding.
pub open spec fn map_parts(
    index: Seq<u8>,
    keys: Seq<Unit>,
    values: Seq<Unit>,
    content: Seq<u32>,
) -> (Seq<u32>, Seq<u32>, Seq<u32>) {
    let n = keys.len();
    let kw = best_width(keys);
    let vw = best_width(values);
    (
        crate::serialize::map_head(index, kw, vw),
        crate::serialize::map_cells(keys, values, content, n, kw, vw, n),
        crate::serialize::map_payload(keys, values, content, n, kw, vw),
    )
}

/// What a map needs for its encoding to be read back: as many keys as
/// values, at least one pair, fewer than `2^30` words, the units' words in
/// the buffer, and a complete index over that many keys whose count leaves
/// the top bits of its first word free.
pub open spec fn map_readable(
    index: Seq<u8>,
    keys: Seq<Unit>,
    values: Seq<Unit>,
    content: Seq<u32>,
) -> bool {
    &&& keys.len() == values.len()
    &&& keys.len() > 0
    &&& crate::serialize::map_size(index, keys, values) < 0x4000_0000
    &&& units_present(keys, content)
    &&& units_present(values, content)
    &&& crate::perfect_hash::ph_len(index) == keys.len()
    &&& index.len() == crate::perfect_hash::ph_bytes(keys.len())
    &&& crate::hash::le_bytes(index, 0, 4) < 0x1000_0000
    &&& keys.len() < 0x1000_0000
}

/// The head words of a map hold the index bytes after the first four, and
/// a first word whose low bits are the index's key count and whose top bits
/// are the widths.
proof fn lemma_map_head(index: Seq<u8>, kw: nat, vw: nat)
    requires
        index.len() >= 4,
        crate::hash::le_bytes(index, 0, 4) < 0x1000_0000,
        1 <= kw <= 3,
        1 <= vw <= 3,
    ensures
        ({
            let h = crate::serialize::map_head(index, kw, vw);
            let hb = crate::words::bytes_of(h);
            &&& h.len() == (index.len() + 3) / 4
            &&& forall|i: int| 4 <= i < index.len() ==> #[trigger] hb[i] == index[i]
            &&& (h[0] >> 30u32) & 3u32 == kw
            &&& (h[0] >> 28u32) & 3u32 == vw
            &&& (crate::hash::le_bytes(hb, 0, 4) & 0x0fff_ffff) == (crate::hash::le_bytes(index, 0, 4)
                & 0x0fff_ffff)
        }),
{
    let pad = crate::serialize::pad4(index);
    let ws = crate::serialize::words_of_bytes(pad);
    let h = crate::serialize::map_head(index, kw, vw);
    let hb = crate::words::bytes_of(h);
    assert(pad.len() % 4 == 0) by {
        assert(pad.len() == index.len() + (4 - index.len() % 4) % 4);
    }
    lemma_bytes_of_words_of_bytes(pad);
    assert(ws.len() == pad.len() / 4);
    assert(pad.len() / 4 == (index.len() + 3) / 4);
    let w0 = ws[0];
    assert(w0 == crate::words::word_of_bytes(index[0], index[1], index[2], index[3]));
    lemma_le4(index, 0);
    let w1 = h[0];
    lemma_map_head_bits(w0, kw as u32, vw as u32);
    assert forall|i: int| 4 <= i < index.len() implies #[trigger] hb[i] == index[i] by {
        assert(h[i / 4] == ws[i / 4]);
        assert(hb[i] == crate::words::bytes_of(ws)[i]);
    }
    crate::words::lemma_word_bytes(w1);
    lemma_le4(hb, 0);
    assert(hb[0] == crate::words::byte_of_word(w1, 0));
    assert(hb[1] == crate::words::byte_of_word(w1, 1));
    assert(hb[2] == crate::words::byte_of_word(w1, 2));
    assert(hb[3] == crate::words::byte_of_word(w1, 3));
}

/// Words that start with a map head read, as bytes, as the index, the top
/// bits of the first word aside.
proof fn lemma_head_prefix(index: Seq<u8>, kw: nat, vw: nat, tail: Seq<u32>)
    requires
        index.len() >= 4,
        crate::hash::le_bytes(index, 0, 4) < 0x1000_0000,
        1 <= kw <= 3,
        1 <= vw <= 3,
    ensures
        ({
            let h = crate::serialize::map_head(index, kw, vw);
            let raw = crate::words::bytes_of(h + tail);
            &&& h.len() == (index.len() + 3) / 4
            &&& raw.len() >= index.len()
            &&& forall|i: int| 4 <= i < index.len() ==> #[trigger] raw[i] == index[i]
            &&& crate::perfect_hash::ph_len(raw) == crate::perfect_hash::ph_len(index)
            &&& ((h + tail)[0] >> 30u32) & 3u32 == kw
            &&& ((h + tail)[0] >> 28u32) & 3u32 == vw
        }),
{
    let h = crate::serialize::map_head(index, kw, vw);
    lemma_map_head(index, kw, vw);
    lemma_bytes_of_append(h, tail);
    let raw = crate::words::bytes_of(h + tail);
    let hb = crate::words::bytes_of(h);
    assert(raw.subrange(0, hb.len() as int) =~= hb);
    assert forall|i: int| 4 <= i < index.len() implies #[trigger] raw[i] == index[i] by {
        assert(raw[i] == raw.subrange(0, hb.len() as int)[i]);
    }
    crate::perfect_hash::lemma_le_prefix(raw, hb, 0, 4);
    assert((h + tail)[0] == h[0]);
}

/// The bytes of an encoded map start with its index, the top bits of the
/// first word aside.
proof fn lemma_map_raw(
    index: Seq<u8>,
    keys: Seq<Unit>,
    values: Seq<Unit>,
    content: Seq<u32>,
    rest: Seq<u32>,
)
    requires
        map_readable(index, keys, values, content),
    ensures
        ({
            let words = crate::serialize::map_words(index, keys, values, content) + rest;
            let raw = crate::words::bytes_of(words);
            let (h, c, pl) = map_parts(index, keys, values, content);
            &&& words == h + (c + pl + rest)
            &&& h.len() == (index.len() + 3) / 4
            &&& c.len() == keys.len() * (best_width(keys) + best_width(values))
            &&& raw.len() >= index.len()
            &&& forall|i: int| 4 <= i < index.len() ==> #[trigger] raw[i] == index[i]
            &&& crate::perfect_hash::ph_len(raw) == keys.len()
            &&& (words[0] >> 30u32) & 3u32 == best_width(keys)
            &&& (words[0] >> 28u32) & 3u32 == best_width(values)
        }),
{
    let n = keys.len();
    let kw = best_width(keys);
    let vw = best_width(values);
    let words = crate::serialize::map_words(index, keys, values, content) + rest;
    let (h, c, pl) = map_parts(index, keys, values, content);
    assert(index.len() >= 4) by {
        if n >= 2 {
            crate::perfect_hash::lemma_layout_bounds(n);
        }
    }
    lemma_head_prefix(index, kw, vw, c + pl + rest);
    assert(words =~= h + (c + pl + rest));
    crate::serialize::lemma_map_cells_len(keys, values, content, n, kw, vw, n);
}

/// Reading an encoded map finds its layout.
#[verifier::rlimit(40)]
pub proof fn lemma_map_layout(
    index: Seq<u8>,
    keys: Seq<Unit>,
    values: Seq<Unit>,
    content: Seq<u32>,
    rest: Seq<u32>,
)
    requires
        map_readable(index, keys, values, content),
    ensures
        crate::access::spec_map_layout(
            crate::serialize::map_words(index, keys, values, content) + rest,
        ) == Some((keys.len(), best_width(keys), best_width(values), (index.len() + 3) / 4)),
{
    lemma_map_raw(index, keys, values, content, rest);
    if keys.len() >= 2 {
        crate::perfect_hash::lemma_layout_bounds(keys.len());
    }
}

/// Bytes that start with a complete index, the first four aside, locate
/// keys as that index does.
proof fn lemma_index_of_prefix(raw: Seq<u8>, index: Seq<u8>, key: Seq<u8>)
    requires
        index.len() == crate::perfect_hash::ph_bytes(crate::perfect_hash::ph_len(index)),
        crate::perfect_hash::ph_len(index) < 0x1000_0000,
        raw.len() >= index.len(),
        forall|i: int| 4 <= i < index.len() ==> #[trigger] raw[i] == index[i],
        crate::perfect_hash::ph_len(raw) == crate::perfect_hash::ph_len(index),
    ensures
        crate::perfect_hash::spec_locate(
            raw.subrange(
                0,
                crate::perfect_hash::ph_bytes(crate::perfect_hash::ph_len(raw)) as int,
            ),
            key,
        ) == crate::perfect_hash::spec_locate(index, key),
{
    let mi = raw.subrange(0, index.len() as int);
    let n = crate::perfect_hash::ph_len(index);
    if n >= 2 {
        crate::perfect_hash::lemma_layout_bounds(n);
    }
    assert(index.len() >= 4);
    assert forall|i: int| 4 <= i < index.len() implies index[i] == mi[i] by {
        assert(mi[i] == raw[i]);
    }
    crate::perfect_hash::lemma_le_prefix(raw, mi, 0, 4);
    crate::perfect_hash::lemma_locate_congruent(index, mi, key);
}

/// An encoded map's index places every key where the index it was built
/// from does.
pub proof fn lemma_map_index_locates(
    index: Seq<u8>,
    keys: Seq<Unit>,
    values: Seq<Unit>,
    content: Seq<u32>,
    rest: Seq<u32>,
    key: Seq<u8>,
)
    requires
        map_readable(index, keys, values, content),
    ensures
        crate::perfect_hash::spec_locate(
            crate::access::spec_map_index(
                crate::serialize::map_words(index, keys, values, content) + rest,
            ),
            key,
        ) == crate::perfect_hash::spec_locate(index, key),
{
    let words = crate::serialize::map_words(index, keys, values, content) + rest;
    lemma_map_raw(index, keys, values, content, rest);
    lemma_index_of_prefix(crate::words::bytes_of(words), index, key);
}

} // verus!

verus! {

/// The cells of pair `p` in an encoded map.
#[verifier::rlimit(40)]
proof fn lemma_map_pair_cells(
    index: Seq<u8>,
    keys: Seq<Unit>,
    values: Seq<Unit>,
    content: Seq<u32>,
    rest: Seq<u32>,
    p: nat,
)
    requires
        map_readable(index, keys, values, content),
        p < keys.len(),
    ensures
        ({
            let words = crate::serialize::map_words(index, keys, values, content) + rest;
            let n = keys.len();
            let kw = best_width(keys);
            let vw = best_width(values);
            let pw = kw + vw;
            let off = (index.len() + 3) / 4;
            let sp = crate::serialize::map_spill(keys, values, p, kw, vw);
            let ks = crate::serialize::spill_of(keys[p as int], kw);
            let kws = unit_words_at(keys, content, p as int);
            let vws = unit_words_at(values, content, p as int);
            let tail = words.subrange((off + p * pw) as int, words.len() as int);
            let dk = (n * pw + sp - p * pw) as nat;
            let dv = (n * pw + sp + ks - (p * pw + kw)) as nat;
            &&& off + p * pw + pw <= words.len()
            &&& tail.subrange(0, kw as int) == array_cell(kws, kw, dk)
            &&& tail.subrange(kw as int, pw as int) == array_cell(vws, vw, dv)
        }),
{
    let n = keys.len();
    let kw = best_width(keys);
    let vw = best_width(values);
    let pw = kw + vw;
    let words = crate::serialize::map_words(index, keys, values, content) + rest;
    let (h, c, pl) = map_parts(index, keys, values, content);
    lemma_map_raw(index, keys, values, content, rest);
    let off = h.len();
    crate::serialize::lemma_map_step(keys, values, content, p, kw, vw, n);
    lemma_map_cells_prefix(keys, values, content, p + 1, n, kw, vw, n);
    crate::serialize::lemma_map_cells_len(keys, values, content, p, kw, vw, n);
    assert((p + 1) * pw == p * pw + pw) by (nonlinear_arith);
    let sp = crate::serialize::map_spill(keys, values, p, kw, vw);
    let ks = crate::serialize::spill_of(keys[p as int], kw);
    let kws = unit_words_at(keys, content, p as int);
    let vws = unit_words_at(values, content, p as int);
    let dk = (n * pw + sp - p * pw) as nat;
    let dv = (n * pw + sp + ks - (p * pw + kw)) as nat;
    let ck = array_cell(kws, kw, dk);
    let cv = array_cell(vws, vw, dv);
    let prefix = crate::serialize::map_cells(keys, values, content, p, kw, vw, n);
    let cp = c.subrange(0, (p * pw + pw) as int);
    assert(cp == prefix + ck + cv);
    let tail = words.subrange((off + p * pw) as int, words.len() as int);
    assert forall|k: int| 0 <= k < pw implies #[trigger] tail[k] == cp[p * pw + k] by {
        assert(words[off + p * pw + k] == c[p * pw + k]);
    }
    assert(tail.subrange(0, kw as int) =~= ck) by {
        assert forall|k: int| 0 <= k < kw implies tail.subrange(0, kw as int)[k] == ck[k] by {
            assert(tail[k] == cp[p * pw + k]);
        }
    }
    assert(tail.subrange(kw as int, pw as int) =~= cv) by {
        assert forall|k: int| 0 <= k < vw implies tail.subrange(kw as int, pw as int)[k] == cv[k] by {
            assert(tail[kw + k] == cp[p * pw + kw + k]);
        }
    }
}

/// The payload of pair `p` in an encoded map.
#[verifier::rlimit(40)]
proof fn lemma_map_pair_payload(
    index: Seq<u8>,
    keys: Seq<Unit>,
    values: Seq<Unit>,
    content: Seq<u32>,
    rest: Seq<u32>,
    p: nat,
)
    requires
        map_readable(index, keys, values, content),
        p < keys.len(),
    ensures
        ({
            let words = crate::serialize::map_words(index, keys, values, content) + rest;
            let n = keys.len();
            let kw = best_width(keys);
            let vw = best_width(values);
            let pw = kw + vw;
            let off = (index.len() + 3) / 4;
            let sp = crate::serialize::map_spill(keys, values, p, kw, vw);
            let ks = crate::serialize::spill_of(keys[p as int], kw);
            let kws = unit_words_at(keys, content, p as int);
            let vws = unit_words_at(values, content, p as int);
            &&& n * pw + sp + ks < 0x4000_0000
            &&& vws.len() > vw ==> n * pw + sp + ks + vws.len() < 0x4000_0000
            &&& kws.len() == keys[p as int].spec_size()
            &&& vws.len() == values[p as int].spec_size()
            &&& kws.len() > kw ==> off + n * pw + sp + kws.len() <= words.len() && words.subrange(
                (off + n * pw + sp) as int,
                (off + n * pw + sp + kws.len()) as int,
            ) == kws && ks == kws.len()
            &&& vws.len() > vw ==> off + n * pw + sp + ks + vws.len() <= words.len()
                && words.subrange(
                (off + n * pw + sp + ks) as int,
                (off + n * pw + sp + ks + vws.len()) as int,
            ) == vws
        }),
{
    let n = keys.len();
    let kw = best_width(keys);
    let vw = best_width(values);
    let pw = kw + vw;
    let words = crate::serialize::map_words(index, keys, values, content) + rest;
    let (h, c, pl) = map_parts(index, keys, values, content);
    lemma_map_raw(index, keys, values, content, rest);
    let off = h.len();
    let sp = crate::serialize::map_spill(keys, values, p, kw, vw);
    let ks = crate::serialize::spill_of(keys[p as int], kw);
    let kws = unit_words_at(keys, content, p as int);
    let vws = unit_words_at(values, content, p as int);
    assert(unit_words_in(keys[p as int], content) is Some);
    assert(unit_words_in(values[p as int], content) is Some);
    crate::serialize::lemma_unit_words_len(keys[p as int], content);
    crate::serialize::lemma_unit_words_len(values[p as int], content);
    crate::serialize::lemma_map_step(keys, values, content, p, kw, vw, n);
    lemma_map_payload_prefix(keys, values, content, p + 1, n, kw, vw);
    crate::serialize::lemma_map_payload_len(keys, values, content, p, kw, vw);
    crate::serialize::lemma_map_payload_len(keys, values, content, n, kw, vw);
    crate::serialize::lemma_map_spill_split(keys, values, n, kw, vw);
    crate::serialize::lemma_array_size_split(keys, n, kw);
    crate::serialize::lemma_array_size_split(values, n, vw);
    crate::serialize::lemma_map_cells_len(keys, values, content, n, kw, vw, n);
    assert(n * pw == n * kw + n * vw) by (nonlinear_arith)
        requires
            pw == kw + vw,
    ;
    let ksw = if keys[p as int].spec_size() > kw {
        kws
    } else {
        Seq::empty()
    };
    let vsw = if values[p as int].spec_size() > vw {
        vws
    } else {
        Seq::empty()
    };
    let pp = pl.subrange(0, (sp + ksw.len() + vsw.len()) as int);
    assert(pp == crate::serialize::map_payload(keys, values, content, p, kw, vw) + ksw + vsw);
    crate::serialize::lemma_map_spill_monotone(keys, values, p + 1, n, kw, vw);
    assert forall|k: int| 0 <= k < ksw.len() + vsw.len() implies #[trigger] words[off + n * pw + sp
        + k] == pp[sp + k] by {
        assert(words[off + n * pw + sp + k] == pl[sp + k]);
    }
    if kws.len() > kw {
        assert(words.subrange((off + n * pw + sp) as int, (off + n * pw + sp + kws.len()) as int)
            =~= kws) by {
            assert forall|k: int| 0 <= k < kws.len() implies words.subrange(
                (off + n * pw + sp) as int,
                (off + n * pw + sp + kws.len()) as int,
            )[k] == kws[k] by {
                assert(words[off + n * pw + sp + k] == pp[sp + k]);
            }
        }
    }
    if vws.len() > vw {
        assert(words.subrange(
            (off + n * pw + sp + ks) as int,
            (off + n * pw + sp + ks + vws.len()) as int,
        ) =~= vws) by {
            assert forall|k: int| 0 <= k < vws.len() implies words.subrange(
                (off + n * pw + sp + ks) as int,
                (off + n * pw + sp + ks + vws.len()) as int,
            )[k] == vws[k] by {
                assert(words[off + n * pw + sp + ks + k] == pp[sp + ks + k]);
            }
        }
    }
}

} // verus!

verus! {

proof fn lemma_string_word_not_offset(w: u32)
    requires
        ((w & 0xff) as u8) % 4 == 0,
    ensures
        w & 3 != 3,
{
    assert(((w & 0xff) as u8) % 4 == 0 ==> w & 3 != 3) by (bit_vector);
}

/// A key cell that holds or refers to a string encoding reads as that
/// string.
proof fn lemma_key_cell(tail: Seq<u32>, kws: Seq<u32>, kw: nat, dk: nat, key: Seq<u8>)
    requires
        1 <= kw <= 3,
        kw <= tail.len(),
        tail.subrange(0, kw as int) == array_cell(kws, kw, dk),
        crate::access::spec_string_bytes(kws) == Some(key),
        kws.len() > kw ==> dk < 0x4000_0000 && dk + kws.len() <= tail.len() && tail.subrange(
            dk as int,
            (dk + kws.len()) as int,
        ) == kws,
    ensures
        crate::access::key_string_is(tail, key),
{
    let raw = crate::words::bytes_of(kws);
    assert(raw.len() > 0 && raw[0] % 4 == 0);
    assert(kws.len() > 0);
    if kws.len() <= kw {
        assert(tail[0] == kws[0]) by {
            assert(tail.subrange(0, kw as int)[0] == array_cell(kws, kw, dk)[0]);
        }
        assert(raw[0] == crate::words::byte_of_word(kws[0], 0));
        lemma_string_word_not_offset(kws[0]);
        assert(tail =~= kws + tail.subrange(kws.len() as int, tail.len() as int)) by {
            assert forall|k: int| 0 <= k < kws.len() implies tail[k] == kws[k] by {
                assert(tail.subrange(0, kw as int)[k] == array_cell(kws, kw, dk)[k]);
            }
        }
        lemma_string_prefix(kws, tail.subrange(kws.len() as int, tail.len() as int));
    } else {
        lemma_offset_word(dk);
        assert(tail[0] == offset_word(dk)) by {
            assert(tail.subrange(0, kw as int)[0] == array_cell(kws, kw, dk)[0]);
        }
        let obj = tail.subrange(dk as int, tail.len() as int);
        assert(obj =~= kws + obj.subrange(kws.len() as int, obj.len() as int)) by {
            assert forall|k: int| 0 <= k < kws.len() implies obj[k] == kws[k] by {
                assert(obj[k] == tail.subrange(dk as int, (dk + kws.len()) as int)[k]);
            }
        }
        lemma_string_prefix(kws, obj.subrange(kws.len() as int, obj.len() as int));
    }
}

/// A value cell holds the value's words padded with zeros, or refers to
/// them.
proof fn lemma_value_cell(vt: Seq<u32>, vws: Seq<u32>, vw: nat, dv: nat)
    requires
        1 <= vw <= 3,
        vw <= vt.len(),
        vt.subrange(0, vw as int) == array_cell(vws, vw, dv),
        vws.len() > vw ==> dv < 0x4000_0000 && dv + vws.len() <= vt.len() && vt.subrange(
            dv as int,
            (dv + vws.len()) as int,
        ) == vws,
    ensures
        vws.len() <= vw ==> cell_raw(vt, vw) == Some(
            vws + Seq::new((vw - vws.len()) as nat, |k: int| 0u32),
        ),
        vws.len() > vw ==> (cell_object(vt) matches Some(obj) && vws.len() <= obj.len()
            && obj.subrange(0, vws.len() as int) == vws),
{
    if vws.len() > vw {
        lemma_offset_word(dv);
        assert(vt[0] == offset_word(dv)) by {
            assert(vt.subrange(0, vw as int)[0] == array_cell(vws, vw, dv)[0]);
        }
        let obj = vt.subrange(dv as int, vt.len() as int);
        assert(obj.subrange(0, vws.len() as int) =~= vws) by {
            assert forall|k: int| 0 <= k < vws.len() implies obj.subrange(0, vws.len() as int)[k]
                == vws[k] by {
                assert(obj[k] == vt.subrange(dv as int, (dv + vws.len()) as int)[k]);
            }
        }
    }
}

proof fn lemma_find_from_parts(words: Seq<u32>, key: Seq<u8>, p: nat, n: nat, kw: nat, vw: nat, off: nat)
    requires
        crate::access::spec_map_layout(words) == Some((n, kw, vw, off)),
        crate::perfect_hash::spec_locate(crate::access::spec_map_index(words), key) == Some(p),
        p < n,
        crate::access::key_string_is(crate::access::spec_pair_tail(words, p), key),
    ensures
        crate::access::spec_map_find_bytes(words, key) == Some(p),
{
}

/// Looking a key up in an encoded map finds its pair: when the index the
/// map was built from places `key` at `p`, and the key unit at `p` encodes
/// the string `key`, the map's lookup gives pair `p`; the value cell of that
/// pair holds the value unit's words padded with zeros, or refers to them.
#[verifier::rlimit(100)]
pub proof fn lemma_map_roundtrip(
    index: Seq<u8>,
    keys: Seq<Unit>,
    values: Seq<Unit>,
    content: Seq<u32>,
    rest: Seq<u32>,
    key: Seq<u8>,
    p: nat,
)
    requires
        map_readable(index, keys, values, content),
        p < keys.len(),
        crate::perfect_hash::spec_locate(index, key) == Some(p),
        crate::access::spec_string_bytes(unit_words_at(keys, content, p as int)) == Some(key),
    ensures
        ({
            let words = crate::serialize::map_words(index, keys, values, content) + rest;
            let vw = best_width(values);
            let tail = crate::access::spec_pair_tail(words, p);
            let vt = tail.subrange(best_width(keys) as int, tail.len() as int);
            let vws = unit_words_at(values, content, p as int);
            &&& crate::access::spec_map_find_bytes(words, key) == Some(p)
            &&& best_width(keys) <= tail.len()
            &&& vws.len() <= vw ==> cell_raw(vt, vw) == Some(
                vws + Seq::new((vw - vws.len()) as nat, |k: int| 0u32),
            )
            &&& vws.len() > vw ==> (cell_object(vt) matches Some(obj) && vws.len() <= obj.len()
                && obj.subrange(0, vws.len() as int) == vws)
        }),
{
    let n = keys.len();
    let kw = best_width(keys);
    let vw = best_width(values);
    let pw = kw + vw;
    let words = crate::serialize::map_words(index, keys, values, content) + rest;
    let off = (index.len() + 3) / 4;
    lemma_map_layout(index, keys, values, content, rest);
    lemma_map_index_locates(index, keys, values, content, rest, key);
    lemma_map_pair_cells(index, keys, values, content, rest, p);
    lemma_map_pair_payload(index, keys, values, content, rest, p);
    let sp = crate::serialize::map_spill(keys, values, p, kw, vw);
    let ks = crate::serialize::spill_of(keys[p as int], kw);
    let kws = unit_words_at(keys, content, p as int);
    let vws = unit_words_at(values, content, p as int);
    let tail = crate::access::spec_pair_tail(words, p);
    assert(tail == words.subrange((off + p * pw) as int, words.len() as int));
    let dk = (n * pw + sp - p * pw) as nat;
    let dv = (n * pw + sp + ks - (p * pw + kw)) as nat;
    assert(p * pw + pw <= n * pw) by (nonlinear_arith)
        requires
            p < n,
    ;
    if kws.len() > kw {
        assert(tail.subrange(dk as int, (dk + kws.len()) as int) =~= words.subrange(
            (off + n * pw + sp) as int,
            (off + n * pw + sp + kws.len()) as int,
        ));
    }
    lemma_key_cell(tail, kws, kw, dk, key);
    lemma_find_from_parts(words, key, p, n, kw, vw, off);
    let vt = tail.subrange(kw as int, tail.len() as int);
    assert(vt.subrange(0, vw as int) =~= tail.subrange(kw as int, pw as int));
    if vws.len() > vw {
        assert(vt.subrange(dv as int, (dv + vws.len()) as int) =~= words.subrange(
            (off + n * pw + sp + ks) as int,
            (off + n * pw + sp + ks + vws.len()) as int,
        ));
    }
    lemma_value_cell(vt, vws, vw, dv);
}

} // verus!
