//! Raw blocks: one bit per sample, low bit of each byte first.

use vstd::prelude::*;

verus! {

/// Samples in one full block: 2 MiB of single-bit samples.
pub const SAMPLES_PER_BLOCK: u64 = 16_777_216;

/// Longest raw block whose bit offsets all fit in `u32`.
pub const MAX_RAW_BYTES: usize = 0x2000_0000;

/// Level of bit `i` of a raw block, counted from the low end of its first byte.
pub open spec fn raw_bit(raw: Seq<u8>, i: int) -> u8 {
    (raw[i / 8] >> ((i % 8) as u8)) & 1
}

/// Offsets below `n` at which a raw block differs from the bit before.
pub open spec fn flips(raw: Seq<u8>, n: int) -> Seq<u32>
    decreases n,
{
    if n <= 1 {
        Seq::empty()
    } else if raw_bit(raw, n - 1) != raw_bit(raw, n - 2) {
        flips(raw, n - 1).push((n - 1) as u32)
    } else {
        flips(raw, n - 1)
    }
}

/// Whether the offsets of all flips fit in `u32`: from the first bit on whose
/// offset does not, the block keeps its level.
pub open spec fn indexable(raw: Seq<u8>) -> bool {
    forall|i: int|
        0x1_0000_0000 <= i < 8 * raw.len() ==> #[trigger] raw_bit(raw, i) == raw_bit(
            raw,
            0xFFFF_FFFF,
        )
}

/// Bits behind the last offset that fits add no flips.
pub proof fn lemma_flips_indexable(raw: Seq<u8>, n: int)
    requires
        indexable(raw),
        0x1_0000_0000 <= n <= 8 * raw.len(),
    ensures
        flips(raw, n) == flips(raw, 0x1_0000_0000),
    decreases n,
{
    if n > 0x1_0000_0000 {
        lemma_flips_indexable(raw, n - 1);
        assert(raw_bit(raw, n - 1) == raw_bit(raw, 0xFFFF_FFFF));
        if n - 2 >= 0x1_0000_0000 {
            assert(raw_bit(raw, n - 2) == raw_bit(raw, 0xFFFF_FFFF));
        }
    }
}

/// Whether the offsets of all flips fit in `u32`.
pub fn offsets_fit(raw: &[u8]) -> (b: bool)
    ensures
        b == indexable(raw@),
{
    if raw.len() <= MAX_RAW_BYTES {
        return true;
    }
    let last: u8 = raw[MAX_RAW_BYTES - 1];
    let level: u8 = (last >> 7) & 1;
    let want: u8 = if level == 1 {
        0xFF
    } else {
        0x00
    };
    assert(level == raw_bit(raw@, 0xFFFF_FFFF));
    proof {
        lemma_raw_bit_range(raw@, 0xFFFF_FFFF);
    }
    let mut i: usize = MAX_RAW_BYTES;
    while i < raw.len()
        invariant
            MAX_RAW_BYTES <= i <= raw@.len(),
            level == raw_bit(raw@, 0xFFFF_FFFF),
            level <= 1,
            want == if level == 1 {
                0xFFu8
            } else {
                0x00u8
            },
            forall|k: int|
                0x1_0000_0000 <= k < 8 * i ==> #[trigger] raw_bit(raw@, k) == level,
        decreases raw@.len() - i,
    {
        let byte: u8 = raw[i];
        if byte != want {
            proof {
                if indexable(raw@) {
                    lemma_uniform_byte(raw@, i as int, level);
                }
            }
            return false;
        }
        proof {
            assert forall|k: int| 8 * i <= k < 8 * i + 8 implies #[trigger] raw_bit(raw@, k)
                == level by {
                let j = (k % 8) as u8;
                assert(raw@[k / 8] == byte);
                assert((byte >> j) & 1 == byte & 1) by (bit_vector)
                    requires
                        byte == 0u8 || byte == 0xFFu8,
                        j < 8,
                ;
                assert(byte & 1 == level) by (bit_vector)
                    requires
                        byte == 0xFFu8 && level == 1 || byte == 0u8 && level == 0,
                ;
            }
        }
        i = i + 1;
    }
    true
}

/// A byte of eight equal bits is 0x00 or 0xFF.
proof fn lemma_uniform_byte(raw: Seq<u8>, i: int, level: u8)
    requires
        0x2000_0000 <= i < raw.len(),
        level <= 1,
        level == raw_bit(raw, 0xFFFF_FFFF),
        indexable(raw),
    ensures
        raw[i] == if level == 1 {
            0xFFu8
        } else {
            0x00u8
        },
{
    let b = raw[i];
    assert((b >> 0u8) & 1 == level) by {
        assert(raw_bit(raw, 8 * i) == level);
    }
    assert((b >> 1u8) & 1 == level) by {
        assert(raw_bit(raw, 8 * i + 1) == level);
    }
    assert((b >> 2u8) & 1 == level) by {
        assert(raw_bit(raw, 8 * i + 2) == level);
    }
    assert((b >> 3u8) & 1 == level) by {
        assert(raw_bit(raw, 8 * i + 3) == level);
    }
    assert((b >> 4u8) & 1 == level) by {
        assert(raw_bit(raw, 8 * i + 4) == level);
    }
    assert((b >> 5u8) & 1 == level) by {
        assert(raw_bit(raw, 8 * i + 5) == level);
    }
    assert((b >> 6u8) & 1 == level) by {
        assert(raw_bit(raw, 8 * i + 6) == level);
    }
    assert((b >> 7u8) & 1 == level) by {
        assert(raw_bit(raw, 8 * i + 7) == level);
    }
    assert(level == 1 && b == 0xFFu8 || level == 0 && b == 0u8) by (bit_vector)
        requires
            level <= 1,
            (b >> 0u8) & 1 == level,
            (b >> 1u8) & 1 == level,
            (b >> 2u8) & 1 == level,
            (b >> 3u8) & 1 == level,
            (b >> 4u8) & 1 == level,
            (b >> 5u8) & 1 == level,
            (b >> 6u8) & 1 == level,
            (b >> 7u8) & 1 == level,
    ;
}

/// A flip whose offset does not fit is none.
proof fn lemma_flip_fits(raw: Seq<u8>, i: int)
    requires
        indexable(raw),
        0 < i < 8 * raw.len(),
        raw_bit(raw, i) != raw_bit(raw, i - 1),
    ensures
        i <= 0xFFFF_FFFF,
{
    if i >= 0x1_0000_0000 {
        assert(raw_bit(raw, i) == raw_bit(raw, 0xFFFF_FFFF));
        if i - 1 >= 0x1_0000_0000 {
            assert(raw_bit(raw, i - 1) == raw_bit(raw, 0xFFFF_FFFF));
        }
    }
}

/// Level at the start of a raw block; an empty block counts as low.
pub open spec fn raw_first_value(raw: Seq<u8>) -> u8 {
    if raw.len() == 0 {
        0
    } else {
        raw_bit(raw, 0)
    }
}

/// A byte of equal bits has no flips after its first bit.
proof fn lemma_flips_uniform(raw: Seq<u8>, n: int, m: int, prev: u8)
    requires
        0 <= n < m,
        n == 0 ==> prev == raw_bit(raw, 0),
        n > 0 ==> prev == raw_bit(raw, n - 1),
        forall|i: int| n <= i < m ==> #[trigger] raw_bit(raw, i) == raw_bit(raw, n),
    ensures
        flips(raw, m) == if raw_bit(raw, n) != prev {
            flips(raw, n).push(n as u32)
        } else {
            flips(raw, n)
        },
    decreases m,
{
    if m > n + 1 {
        lemma_flips_uniform(raw, n, m - 1, prev);
        assert(raw_bit(raw, m - 1) == raw_bit(raw, n));
        assert(raw_bit(raw, m - 2) == raw_bit(raw, n));
    }
}

/// A raw bit is 0 or 1.
pub proof fn lemma_raw_bit_range(raw: Seq<u8>, i: int)
    ensures
        raw_bit(raw, i) <= 1,
{
    let b = raw[i / 8] >> ((i % 8) as u8);
    assert(b & 1 <= 1) by (bit_vector);
}

/// The flips of the first `n` bits strictly increase within (0, n).
pub proof fn lemma_flips_ascend(raw: Seq<u8>, n: int)
    requires
        0 <= n <= 0x1_0000_0000,
    ensures
        forall|i: int| 0 <= i < flips(raw, n).len() ==> 0 < #[trigger] flips(raw, n)[i] < n,
        forall|i: int, j: int|
            0 <= i < j < flips(raw, n).len() ==> flips(raw, n)[i] < flips(raw, n)[j],
    decreases n,
{
    if n > 1 {
        lemma_flips_ascend(raw, n - 1);
        let shorter = flips(raw, n - 1);
        let all = flips(raw, n);
        assert forall|i: int| 0 <= i < all.len() implies 0 < #[trigger] all[i] < n by {
            if i < shorter.len() {
                assert(all[i] == shorter[i]);
            }
        }
        assert forall|i: int, j: int| 0 <= i < j < all.len() implies all[i] < all[j] by {
            assert(all[i] == shorter[i]);
            if j < shorter.len() {
                assert(all[j] == shorter[j]);
            }
        }
    }
}

/// Extract transitions (bit offsets within the block) from raw bytes.
/// Returns (first_value, transitions) where first_value is the signal level at bit 0.
pub fn extract_block_transitions(raw: &[u8]) -> (r: (u8, Vec<u32>))
    requires
        indexable(raw@),
    ensures
        r.0 == raw_first_value(raw@),
        r.1@ == flips(raw@, 8 * raw@.len() as int),
{
    if raw.len() == 0 {
        return (0, Vec::new());
    }
    let first_value: u8 = raw[0] & 1;
    proof {
        let b = raw@[0];
        assert((b >> 0u8) & 1 == b & 1) by (bit_vector);
    }
    let mut transitions: Vec<u32> = Vec::new();
    let mut prev_bit: u8 = first_value;
    let mut byte_idx: usize = 0;
    while byte_idx < raw.len()
        invariant
            byte_idx <= raw@.len(),
            indexable(raw@),
            raw@.len() > 0,
            transitions@ == flips(raw@, 8 * byte_idx),
            byte_idx == 0 ==> prev_bit == raw_bit(raw@, 0),
            byte_idx > 0 ==> prev_bit == raw_bit(raw@, 8 * byte_idx - 1),
            first_value == raw_bit(raw@, 0),
        decreases raw@.len() - byte_idx,
    {
        let byte: u8 = raw[byte_idx];
        let base: u128 = byte_idx as u128 * 8;
        if byte == 0x00 || byte == 0xFF {
            let value: u8 = byte & 1;
            proof {
                assert forall|i: int| base <= i < base + 8 implies #[trigger] raw_bit(raw@, i)
                    == value by {
                    let k = (i % 8) as u8;
                    assert(raw@[i / 8] == byte);
                    assert((byte >> k) & 1 == byte & 1) by (bit_vector)
                        requires
                            byte == 0u8 || byte == 0xFFu8,
                            k < 8,
                    ;
                }
                lemma_flips_uniform(raw@, base as int, base + 8, prev_bit);
                assert(raw_bit(raw@, base as int) == value);
                assert(raw_bit(raw@, base + 7) == value);
            }
            if prev_bit != value {
                proof {
                    lemma_flip_fits(raw@, base as int);
                }
                transitions.push(base as u32);
                prev_bit = value;
            }
        } else {
            let mut bit: u32 = 0;
            while bit < 8
                invariant
                    bit <= 8,
                    byte_idx < raw@.len(),
                    indexable(raw@),
                    byte == raw@[byte_idx as int],
                    base == 8 * byte_idx,
                    transitions@ == flips(raw@, base + bit),
                    base + bit == 0 ==> prev_bit == raw_bit(raw@, 0),
                    base + bit > 0 ==> prev_bit == raw_bit(raw@, base + bit - 1),
                decreases 8 - bit,
            {
                let v: u8 = (byte >> bit) & 1;
                proof {
                    let k = ((base + bit) % 8) as u8;
                    assert(k == bit);
                    assert((base + bit) / 8 == byte_idx);
                    assert((byte >> bit) & 1 == (byte >> k) & 1);
                    assert(v == raw_bit(raw@, base + bit));
                }
                if v != prev_bit {
                    proof {
                        lemma_flip_fits(raw@, base + bit);
                    }
                    transitions.push((base + bit as u128) as u32);
                    prev_bit = v;
                }
                bit = bit + 1;
            }
        }
        byte_idx = byte_idx + 1;
    }
    (first_value, transitions)
}

/// The bits of a raw block are those of its bytes, eight each, lowest first.
pub proof fn law_bits_make_up_bytes(raw: Seq<u8>, k: int)
    requires
        0 <= k < raw.len(),
    ensures
        raw[k] == raw_bit(raw, 8 * k) + 2 * raw_bit(raw, 8 * k + 1) + 4 * raw_bit(raw, 8 * k + 2)
            + 8 * raw_bit(raw, 8 * k + 3) + 16 * raw_bit(raw, 8 * k + 4) + 32 * raw_bit(
            raw,
            8 * k + 5,
        ) + 64 * raw_bit(raw, 8 * k + 6) + 128 * raw_bit(raw, 8 * k + 7),
{
    let b = raw[k];
    assert(b == ((b >> 0u8) & 1) + 2 * ((b >> 1u8) & 1) + 4 * ((b >> 2u8) & 1) + 8 * ((b >> 3u8)
        & 1) + 16 * ((b >> 4u8) & 1) + 32 * ((b >> 5u8) & 1) + 64 * ((b >> 6u8) & 1) + 128 * ((b
        >> 7u8) & 1)) by (bit_vector);
}

/// Among the first `n` bits, the flips are the offsets of the changed ones.
proof fn lemma_flips_members(raw: Seq<u8>, n: int, off: u32)
    requires
        0 <= n <= 0x1_0000_0000,
    ensures
        flips(raw, n).contains(off) <==> 0 < off < n && raw_bit(raw, off as int) != raw_bit(
            raw,
            off - 1,
        ),
    decreases n,
{
    if n > 1 {
        lemma_flips_members(raw, n - 1, off);
        let shorter = flips(raw, n - 1);
        let all = flips(raw, n);
        if shorter.contains(off) {
            assert(all[shorter.index_of(off)] == off);
        }
        if all.len() > shorter.len() {
            assert(all[shorter.len() as int] == (n - 1) as u32);
            if all.contains(off) && off != n - 1 {
                assert(shorter[all.index_of(off)] == off);
            }
        }
    }
}

/// The flips of a block are exactly the offsets at which a bit differs from the
/// one before, in ascending order.
pub proof fn law_flips_are_bit_changes(raw: Seq<u8>, n: int, off: u32)
    requires
        indexable(raw),
        n == 8 * raw.len(),
    ensures
        flips(raw, n).contains(off) <==> 0 < off < n && raw_bit(raw, off as int) != raw_bit(
            raw,
            off - 1,
        ),
        forall|i: int, j: int|
            0 <= i < j < flips(raw, n).len() ==> flips(raw, n)[i] < flips(raw, n)[j],
{
    if n <= 0x1_0000_0000 {
        lemma_flips_members(raw, n, off);
        lemma_flips_ascend(raw, n);
    } else {
        lemma_flips_indexable(raw, n);
        lemma_flips_members(raw, 0x1_0000_0000, off);
        lemma_flips_ascend(raw, 0x1_0000_0000);
    }
}

/// A block can be indexed exactly if no bit from offset 2^32 on differs from
/// the one before, and so can every block of up to 2^29 bytes.
pub proof fn law_late_flips_cannot_be_indexed(raw: Seq<u8>)
    ensures
        indexable(raw) <==> forall|i: int|
            0x1_0000_0000 <= i < 8 * raw.len() ==> #[trigger] raw_bit(raw, i) == raw_bit(
                raw,
                i - 1,
            ),
        raw.len() <= 0x2000_0000 ==> indexable(raw),
{
    if indexable(raw) {
        assert forall|i: int| 0x1_0000_0000 <= i < 8 * raw.len() implies #[trigger] raw_bit(raw, i)
            == raw_bit(raw, i - 1) by {
            if i > 0x1_0000_0000 {
                assert(raw_bit(raw, i - 1) == raw_bit(raw, 0xFFFF_FFFF));
            }
        }
    }
    if forall|i: int|
        0x1_0000_0000 <= i < 8 * raw.len() ==> #[trigger] raw_bit(raw, i) == raw_bit(raw, i - 1) {
        assert forall|i: int| 0x1_0000_0000 <= i < 8 * raw.len() implies #[trigger] raw_bit(raw, i)
            == raw_bit(raw, 0xFFFF_FFFF) by {
            lemma_level_kept(raw, i);
        }
    }
}

/// Where no late bit changes, each is as bit 2^32 - 1.
proof fn lemma_level_kept(raw: Seq<u8>, i: int)
    requires
        0xFFFF_FFFF <= i < 8 * raw.len(),
        forall|k: int|
            0x1_0000_0000 <= k < 8 * raw.len() ==> #[trigger] raw_bit(raw, k) == raw_bit(
                raw,
                k - 1,
            ),
    ensures
        raw_bit(raw, i) == raw_bit(raw, 0xFFFF_FFFF),
    decreases i,
{
    if i > 0xFFFF_FFFF {
        lemma_level_kept(raw, i - 1);
        assert(raw_bit(raw, i) == raw_bit(raw, i - 1));
    }
}

/// A full block is two mebibytes, with eight samples to the byte.
pub proof fn law_full_block_is_two_mebibytes(raw: Seq<u8>)
    requires
        raw.len() == 2 * 1024 * 1024,
    ensures
        8 * raw.len() == SAMPLES_PER_BLOCK,
        indexable(raw),
{
}

} // verus!
