//! Where a message's first twelve fields lie, read from its header word.

use vstd::prelude::*;

use crate::access::{group_sum, group_width, spec_message_field};

verus! {

/// The width of field `i` (below twelve) given by header word `h`: the
/// 2-bit group `i` after the low eight bits.
pub open spec fn head_width(h: u32, i: nat) -> nat {
    ((h >> ((8 + 2 * i) as u32)) & 3u32) as nat
}

/// The sum of the widths of fields `0..n` given by header word `h`.
pub open spec fn head_sum(h: u32, n: nat) -> nat
    decreases n,
{
    if n == 0 {
        0
    } else {
        head_sum(h, (n - 1) as nat) + head_width(h, (n - 1) as nat)
    }
}

proof fn lemma_head_width(h: u32, i: nat)
    requires
        i < 12,
    ensures
        group_width((h >> 8u32) as u64, i) == head_width(h, i),
{
    let j = i as u64;
    let k = i as u32;
    assert(((((h >> 8u32) as u64) >> (2 * j)) & 3u64) as nat == ((h >> (8 + 2 * k)) & 3u32) as nat) by (bit_vector)
        requires
            j < 12,
            k == j,
    ;
}

proof fn lemma_head_sum(h: u32, n: nat)
    requires
        n <= 12,
    ensures
        group_sum((h >> 8u32) as u64, n) == head_sum(h, n),
    decreases n,
{
    if n > 0 {
        lemma_head_sum(h, (n - 1) as nat);
        lemma_head_width(h, (n - 1) as nat);
    }
}

/// Field `id` (below twelve) of a message whose header word `h` and section
/// count fit the words is there exactly when its width in `h` is not zero
/// and its cells, which start after the header, the section marks and the
/// cells of the fields before it, begin within the words.
pub proof fn lemma_low_field_place(words: Seq<u32>, id: nat)
    requires
        words.len() > 0,
        1 + 2 * (words[0] & 0xffu32) <= words.len(),
        id < 12,
    ensures
        ({
            let h = words[0];
            let start = 1 + 2 * (h & 0xffu32) + head_sum(h, id);
            &&& (spec_message_field(words, id) is Some) == (head_width(h, id) != 0 && start <= words.len())
            &&& spec_message_field(words, id) matches Some((s, w)) ==> s == start && w == head_width(h, id)
        }),
{
    let h = words[0];
    lemma_head_width(h, id);
    lemma_head_sum(h, id);
    assert(((h >> 8u32) as u64) == (h >> 8u32) as u64);
}

} // verus!
