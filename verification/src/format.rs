//! Constants of the container format and the table of chunk flags.

use vstd::prelude::*;

verus! {

/// Version number written into archives produced by this library.
pub const FORMAT_VERSION: u32 = 1;

/// Directory index that stands for the current directory.
pub const CURRENT_DIR_IDX: u32 = 0xFFFF_FFFF;

/// Directory string that stands for the current directory.
pub const CURRENT_DIR_STR: &'static str = ".";

/// Separator between the components of a path inside the core.
pub const PATH_SEPARATOR: &'static str = "/";

/// Number of entries in the flag table.
pub const FLAG_COUNT: usize = 10;

/// Flag bit of chunks stored with the deflate-family compressor.
pub const FLAG_ZLIB: u16 = 0x0008;

/// Flag bits that select a codec; the remaining bits only annotate a chunk.
pub const CODEC_MASK: u16 = 0x03FC;

/// All the bits of the flag table.
pub const KNOWN_FLAGS: u16 = 0x07FD;

/// Bit position of the `i`-th entry of the flag table.
pub open spec fn flag_position(i: int) -> u16 {
    if i == 0 {
        0
    } else if i == 1 {
        2
    } else if i == 2 {
        3
    } else if i == 3 {
        4
    } else if i == 4 {
        5
    } else if i == 5 {
        6
    } else if i == 6 {
        7
    } else if i == 7 {
        8
    } else if i == 8 {
        9
    } else {
        10
    }
}

/// Mask with only the bit of the `i`-th table entry set.
pub open spec fn flag_bit(i: int) -> u16 {
    1u16 << flag_position(i)
}

/// Name of the `i`-th entry of the flag table.
pub open spec fn flag_name(i: int) -> Seq<char> {
    if i == 0 {
        "COMBUF"@
    } else if i == 1 {
        "DZ_RANGE"@
    } else if i == 2 {
        "ZLIB"@
    } else if i == 3 {
        "BZIP"@
    } else if i == 4 {
        "MP3"@
    } else if i == 5 {
        "JPEG"@
    } else if i == 6 {
        "ZERO"@
    } else if i == 7 {
        "COPYCOMP"@
    } else if i == 8 {
        "LZMA"@
    } else {
        "RANDOM_ACCESS"@
    }
}

/// Whether the bit of the `i`-th table entry is set in `bits`.
pub open spec fn has_flag(bits: u16, i: int) -> bool {
    bits & flag_bit(i) != 0
}

/// The `i`-th entry of the flag table: its bit and its name. The table is the
/// single source of truth for both directions of the flag codec.
pub fn flag_entry(i: usize) -> (entry: (u16, &'static str))
    requires
        i < FLAG_COUNT,
    ensures
        entry.0 == flag_bit(i as int),
        entry.1@ == flag_name(i as int),
{
    if i == 0 {
        (1u16 << 0u16, "COMBUF")
    } else if i == 1 {
        (1u16 << 2u16, "DZ_RANGE")
    } else if i == 2 {
        (1u16 << 3u16, "ZLIB")
    } else if i == 3 {
        (1u16 << 4u16, "BZIP")
    } else if i == 4 {
        (1u16 << 5u16, "MP3")
    } else if i == 5 {
        (1u16 << 6u16, "JPEG")
    } else if i == 6 {
        (1u16 << 7u16, "ZERO")
    } else if i == 7 {
        (1u16 << 8u16, "COPYCOMP")
    } else if i == 8 {
        (1u16 << 9u16, "LZMA")
    } else {
        (1u16 << 10u16, "RANDOM_ACCESS")
    }
}

/// The names of the flag table are pairwise distinct.
pub proof fn lemma_flag_names_distinct()
    ensures
        forall|i: int, j: int|
            0 <= i < FLAG_COUNT && 0 <= j < FLAG_COUNT && i != j ==> flag_name(i) != flag_name(j),
{
    reveal_strlit("COMBUF");
    reveal_strlit("DZ_RANGE");
    reveal_strlit("ZLIB");
    reveal_strlit("BZIP");
    reveal_strlit("MP3");
    reveal_strlit("JPEG");
    reveal_strlit("ZERO");
    reveal_strlit("COPYCOMP");
    reveal_strlit("LZMA");
    reveal_strlit("RANDOM_ACCESS");
    assert("COMBUF"@.len() == 6);
    assert("DZ_RANGE"@.len() == 8 && "DZ_RANGE"@[0] == 'D');
    assert("ZLIB"@.len() == 4 && "ZLIB"@[0] == 'Z' && "ZLIB"@[1] == 'L');
    assert("BZIP"@.len() == 4 && "BZIP"@[0] == 'B');
    assert("MP3"@.len() == 3);
    assert("JPEG"@.len() == 4 && "JPEG"@[0] == 'J');
    assert("ZERO"@.len() == 4 && "ZERO"@[0] == 'Z' && "ZERO"@[1] == 'E');
    assert("COPYCOMP"@.len() == 8 && "COPYCOMP"@[0] == 'C');
    assert("LZMA"@.len() == 4 && "LZMA"@[0] == 'L');
    assert("RANDOM_ACCESS"@.len() == 13);
    assert forall|i: int, j: int|
        0 <= i < FLAG_COUNT && 0 <= j < FLAG_COUNT && i != j implies flag_name(i) != flag_name(
        j,
    ) by {
        let a = flag_name(i);
        let b = flag_name(j);
        if a == b {
            assert(a.len() == b.len());
            assert(a[0] == b[0]);
            assert(a[1] == b[1]);
        }
    }
}

/// The constants agree with the table: `FLAG_ZLIB` is the bit of the entry
/// named `ZLIB` and is a codec bit, and `KNOWN_FLAGS` holds the bit of every
/// entry.
pub proof fn lemma_flag_constants()
    ensures
        flag_bit(2) == FLAG_ZLIB,
        flag_name(2) == "ZLIB"@,
        FLAG_ZLIB & CODEC_MASK == FLAG_ZLIB,
        forall|i: int| 0 <= i < FLAG_COUNT ==> (#[trigger] flag_bit(i)) & KNOWN_FLAGS == flag_bit(i),
{
    assert(1u16 << 3u16 == 0x0008u16) by (bit_vector);
    assert(0x0008u16 & 0x03FCu16 == 0x0008u16) by (bit_vector);
    assert((1u16 << 0u16) & 0x07FDu16 == 1u16 << 0u16) by (bit_vector);
    assert((1u16 << 2u16) & 0x07FDu16 == 1u16 << 2u16) by (bit_vector);
    assert((1u16 << 3u16) & 0x07FDu16 == 1u16 << 3u16) by (bit_vector);
    assert((1u16 << 4u16) & 0x07FDu16 == 1u16 << 4u16) by (bit_vector);
    assert((1u16 << 5u16) & 0x07FDu16 == 1u16 << 5u16) by (bit_vector);
    assert((1u16 << 6u16) & 0x07FDu16 == 1u16 << 6u16) by (bit_vector);
    assert((1u16 << 7u16) & 0x07FDu16 == 1u16 << 7u16) by (bit_vector);
    assert((1u16 << 8u16) & 0x07FDu16 == 1u16 << 8u16) by (bit_vector);
    assert((1u16 << 9u16) & 0x07FDu16 == 1u16 << 9u16) by (bit_vector);
    assert((1u16 << 10u16) & 0x07FDu16 == 1u16 << 10u16) by (bit_vector);
}

/// The bits of two different table entries do not overlap, and no bit is zero.
pub proof fn lemma_flag_bits_disjoint(i: int, j: int)
    requires
        0 <= i < FLAG_COUNT,
        0 <= j < FLAG_COUNT,
    ensures
        flag_bit(i) != 0,
        i != j ==> flag_bit(i) & flag_bit(j) == 0,
{
    let p = flag_position(i);
    let q = flag_position(j);
    assert(p < 16 ==> (1u16 << p) != 0) by (bit_vector);
    assert(p < 16 && q < 16 && p != q ==> (1u16 << p) & (1u16 << q) == 0) by (bit_vector);
}

} // verus!
