//! The flag codec and the reader of null-terminated strings.

use crate::bytes::{run_end, run_len, ByteReader};
use crate::error::DzipError;
use crate::format::{
    flag_bit, flag_entry, flag_name, flag_position, has_flag, lemma_flag_bits_disjoint,
    lemma_flag_names_distinct, FLAG_COUNT, KNOWN_FLAGS,
};
use crate::text::str_eq;
use std::borrow::Cow;
use vstd::prelude::*;
use vstd::slice::{slice_subrange, slice_to_vec};
use vstd::utf8::{decode_utf8, valid_utf8};

verus! {

/// The bytes of the string that starts at offset `at` of `b`: all up to the
/// first zero byte, or up to the end where there is none.
pub open spec fn cstr_bytes(b: Seq<u8>, at: int) -> Seq<u8> {
    b.subrange(at, at + run_len(b, at, 0u8))
}

/// Reads a null-terminated string. The terminator is consumed and is not
/// part of the string. Where the data ends before a terminator, the string
/// is all that is left. Bytes that are not UTF-8 are a corrupt archive; they
/// are consumed all the same.
pub fn read_null_term_string(reader: &mut ByteReader) -> (r: Result<String, DzipError>)
    requires
        old(reader).wf(),
    ensures
        final(reader).wf(),
        final(reader).data() == old(reader).data(),
        final(reader).pos() == run_end(old(reader).data(), old(reader).pos(), 0u8),
        match r {
            Ok(s) => {
                &&& valid_utf8(cstr_bytes(old(reader).data(), old(reader).pos()))
                &&& s@ == decode_utf8(cstr_bytes(old(reader).data(), old(reader).pos()))
            },
            Err(e) => {
                &&& !valid_utf8(cstr_bytes(old(reader).data(), old(reader).pos()))
                &&& e == DzipError::CorruptArchive
            },
        },
{
    let run = reader.read_until(0u8);
    let n = run.len();
    let text = if n > 0 && run[n - 1] == 0u8 {
        slice_subrange(run, 0, n - 1)
    } else {
        run
    };
    proof {
        let b = old(reader).data();
        let at = old(reader).pos();
        crate::bytes::lemma_run_len(b, at, 0u8);
        assert(text@ =~= cstr_bytes(b, at));
    }
    match String::from_utf8(slice_to_vec(text)) {
        Ok(s) => Ok(s),
        Err(_) => Err(DzipError::CorruptArchive),
    }
}

/// Mask of the first `n` table entries whose name occurs in `names`.
pub open spec fn encode_upto(names: Seq<Seq<char>>, n: int) -> u16
    decreases n,
{
    if n <= 0 {
        0
    } else {
        let rest = encode_upto(names, n - 1);
        if names.contains(flag_name(n - 1)) {
            rest | flag_bit(n - 1)
        } else {
            rest
        }
    }
}

/// The bitmask that stands for a list of flag names: the bit of a table
/// entry is set exactly when its name occurs in the list. Names that are not
/// in the table contribute nothing.
pub open spec fn encode_spec(names: Seq<Seq<char>>) -> u16 {
    encode_upto(names, FLAG_COUNT as int)
}

/// Names, in table order, of the first `n` table entries whose bit is set.
pub open spec fn decode_upto(bits: u16, n: int) -> Seq<Seq<char>>
    decreases n,
{
    if n <= 0 {
        Seq::empty()
    } else {
        let rest = decode_upto(bits, n - 1);
        if has_flag(bits, n - 1) {
            rest.push(flag_name(n - 1))
        } else {
            rest
        }
    }
}

/// The flag names that a bitmask stands for, in table order. Bits outside
/// the table are left out.
pub open spec fn decode_spec(bits: u16) -> Seq<Seq<char>> {
    decode_upto(bits, FLAG_COUNT as int)
}

/// Names, in table order, of the first `n` table entries that occur in `names`.
pub open spec fn known_names_upto(names: Seq<Seq<char>>, n: int) -> Seq<Seq<char>>
    decreases n,
{
    if n <= 0 {
        Seq::empty()
    } else {
        let rest = known_names_upto(names, n - 1);
        if names.contains(flag_name(n - 1)) {
            rest.push(flag_name(n - 1))
        } else {
            rest
        }
    }
}

/// The part of `names` that the table knows, each name once, in table order.
pub open spec fn known_names(names: Seq<Seq<char>>) -> Seq<Seq<char>> {
    known_names_upto(names, FLAG_COUNT as int)
}

/// Mask of the first `n` table entries whose name is `name`.
pub open spec fn name_mask(name: Seq<char>, n: int) -> u16
    decreases n,
{
    if n <= 0 {
        0
    } else {
        let rest = name_mask(name, n - 1);
        if flag_name(n - 1) == name {
            rest | flag_bit(n - 1)
        } else {
            rest
        }
    }
}

/// The empty list of names encodes to no bit.
proof fn lemma_encode_empty(n: int)
    ensures
        encode_upto(Seq::empty(), n) == 0,
    decreases n,
{
    if n > 0 {
        lemma_encode_empty(n - 1);
    }
}

/// One more name adds the bits of the table entries with that name.
proof fn lemma_encode_push(names: Seq<Seq<char>>, name: Seq<char>, n: int)
    ensures
        encode_upto(names.push(name), n) == encode_upto(names, n) | name_mask(name, n),
    decreases n,
{
    if n <= 0 {
        assert(0u16 | 0u16 == 0u16) by (bit_vector);
    } else {
        lemma_encode_push(names, name, n - 1);
        let e = encode_upto(names, n - 1);
        let m = name_mask(name, n - 1);
        let b = flag_bit(n - 1);
        let target = flag_name(n - 1);
        assert(names.push(name).contains(target) <==> names.contains(target) || name == target) by {
            if names.contains(target) {
                let k = choose|k: int| 0 <= k < names.len() && names[k] == target;
                assert(names.push(name)[k] == target);
            }
            if name == target {
                assert(names.push(name)[names.len() as int] == target);
            }
        }
        assert((e | m) | b == (e | b) | m) by (bit_vector);
        assert((e | m) | b == e | (m | b)) by (bit_vector);
        assert((e | m) | b == (e | b) | (m | b)) by (bit_vector);
    }
}

/// The bit of a table entry is set in an encoded list exactly when the
/// list holds the name of the entry.
proof fn lemma_encoded_bit(names: Seq<Seq<char>>, n: int, i: int)
    requires
        0 <= n <= FLAG_COUNT,
        0 <= i < FLAG_COUNT,
    ensures
        has_flag(encode_upto(names, n), i) <==> (i < n && names.contains(flag_name(i))),
    decreases n,
{
    let b = flag_bit(i);
    if n <= 0 {
        assert(0u16 & b == 0u16) by (bit_vector);
    } else {
        lemma_encoded_bit(names, n - 1, i);
        let rest = encode_upto(names, n - 1);
        let a = flag_bit(n - 1);
        lemma_flag_bits_disjoint(n - 1, i);
        if names.contains(flag_name(n - 1)) {
            if i == n - 1 {
                assert((rest | a) & a == a) by (bit_vector);
            } else {
                assert(a & b == 0 ==> (rest | a) & b == rest & b) by (bit_vector);
            }
        }
    }
}

/// Decoding an encoded list gives the known names, entry by entry.
proof fn lemma_decode_encode_upto(names: Seq<Seq<char>>, n: int)
    requires
        0 <= n <= FLAG_COUNT,
    ensures
        decode_upto(encode_spec(names), n) == known_names_upto(names, n),
    decreases n,
{
    if n > 0 {
        lemma_decode_encode_upto(names, n - 1);
        lemma_encoded_bit(names, FLAG_COUNT as int, n - 1);
    }
}

/// The known names are names of the table, each at most once.
proof fn lemma_known_names_members(names: Seq<Seq<char>>, n: int)
    requires
        0 <= n <= FLAG_COUNT,
    ensures
        forall|k: int|
            0 <= k < known_names_upto(names, n).len() ==> exists|j: int|
                0 <= j < n && #[trigger] known_names_upto(names, n)[k] == flag_name(j),
        known_names_upto(names, n).no_duplicates(),
    decreases n,
{
    if n > 0 {
        lemma_known_names_members(names, n - 1);
        lemma_flag_names_distinct();
        let rest = known_names_upto(names, n - 1);
        let all = known_names_upto(names, n);
        assert forall|k: int| 0 <= k < all.len() implies exists|j: int|
            0 <= j < n && #[trigger] all[k] == flag_name(j) by {
            if k < rest.len() {
                let j = choose|j: int| 0 <= j < n - 1 && rest[k] == flag_name(j);
                assert(all[k] == flag_name(j));
            } else {
                assert(all[k] == flag_name(n - 1));
            }
        }
        assert forall|a: int, b: int| 0 <= a < all.len() && 0 <= b < all.len() && a != b implies all[a]
            != all[b] by {
            if a < rest.len() && b < rest.len() {
            } else if a < rest.len() {
                let j = choose|j: int| 0 <= j < n - 1 && rest[a] == flag_name(j);
            } else {
                let j = choose|j: int| 0 <= j < n - 1 && rest[b] == flag_name(j);
            }
        }
    }
}

/// Decoding an encoded list of names gives back the names that the table
/// knows, each once, in table order.
pub proof fn lemma_decode_encode(names: Seq<Seq<char>>)
    ensures
        decode_spec(encode_spec(names)) == known_names(names),
        known_names(names).no_duplicates(),
        forall|name: Seq<char>|
            known_names(names).contains(name) <==> (names.contains(name) && exists|i: int|
                0 <= i < FLAG_COUNT && flag_name(i) == name),
{
    lemma_decode_encode_upto(names, FLAG_COUNT as int);
    lemma_known_names_members(names, FLAG_COUNT as int);
    assert forall|name: Seq<char>|
        known_names(names).contains(name) <==> (names.contains(name) && exists|i: int|
            0 <= i < FLAG_COUNT && flag_name(i) == name) by {
        lemma_known_names_contains(names, FLAG_COUNT as int, name);
    }
}

/// A name is among the known names exactly when it is in the list and in
/// the table.
proof fn lemma_known_names_contains(names: Seq<Seq<char>>, n: int, name: Seq<char>)
    requires
        0 <= n <= FLAG_COUNT,
    ensures
        known_names_upto(names, n).contains(name) <==> (names.contains(name) && exists|i: int|
            0 <= i < n && flag_name(i) == name),
    decreases n,
{
    if n > 0 {
        lemma_known_names_contains(names, n - 1, name);
        let rest = known_names_upto(names, n - 1);
        let all = known_names_upto(names, n);
        if all.contains(name) {
            let k = choose|k: int| 0 <= k < all.len() && all[k] == name;
            if k < rest.len() {
                assert(rest[k] == name);
                assert(rest.contains(name));
            } else {
                assert(flag_name(n - 1) == name);
            }
        }
        if names.contains(name) && exists|i: int| 0 <= i < n && flag_name(i) == name {
            let i = choose|i: int| 0 <= i < n && flag_name(i) == name;
            if i < n - 1 {
                assert(rest.contains(name));
                let k = choose|k: int| 0 <= k < rest.len() && rest[k] == name;
                assert(all[k] == name);
            } else {
                assert(all[all.len() - 1] == name);
            }
        }
    }
}

/// The bits of the first `n` table entries.
pub open spec fn table_mask(n: int) -> u16
    decreases n,
{
    if n <= 0 {
        0
    } else {
        table_mask(n - 1) | flag_bit(n - 1)
    }
}

/// A decoded list holds the name of a table entry exactly when the bit of
/// the entry is set.
proof fn lemma_decoded_contains(bits: u16, n: int, i: int)
    requires
        0 <= n <= FLAG_COUNT,
        0 <= i < FLAG_COUNT,
    ensures
        decode_upto(bits, n).contains(flag_name(i)) <==> (i < n && has_flag(bits, i)),
    decreases n,
{
    if n > 0 {
        lemma_decoded_contains(bits, n - 1, i);
        lemma_flag_names_distinct();
        let rest = decode_upto(bits, n - 1);
        let all = decode_upto(bits, n);
        if all.contains(flag_name(i)) {
            let k = choose|k: int| 0 <= k < all.len() && all[k] == flag_name(i);
            if k < rest.len() {
                assert(rest[k] == flag_name(i));
            }
        }
        if i < n && has_flag(bits, i) {
            if i < n - 1 {
                let k = choose|k: int| 0 <= k < rest.len() && rest[k] == flag_name(i);
                assert(all[k] == flag_name(i));
            } else {
                assert(all[all.len() - 1] == flag_name(i));
            }
        }
    }
}

/// Encoding a decoded bitmask gives the bits of the table, entry by entry.
proof fn lemma_encode_decode_upto(bits: u16, n: int)
    requires
        0 <= n <= FLAG_COUNT,
    ensures
        encode_upto(decode_spec(bits), n) == bits & table_mask(n),
    decreases n,
{
    if n <= 0 {
        assert(bits & 0u16 == 0u16) by (bit_vector);
    } else {
        lemma_encode_decode_upto(bits, n - 1);
        lemma_decoded_contains(bits, FLAG_COUNT as int, n - 1);
        let m = table_mask(n - 1);
        let p = flag_position(n - 1);
        let b = flag_bit(n - 1);
        assert(p < 16 && bits & (1u16 << p) != 0 ==> (bits & m) | (1u16 << p) == bits & (m | (1u16
            << p))) by (bit_vector);
        assert(bits & b == 0 ==> bits & m == bits & (m | b)) by (bit_vector);
    }
}

/// Encoding a decoded bitmask gives back the bits that the table knows.
pub proof fn lemma_encode_decode(bits: u16)
    ensures
        encode_spec(decode_spec(bits)) == bits & KNOWN_FLAGS,
{
    lemma_encode_decode_upto(bits, FLAG_COUNT as int);
    reveal_with_fuel(table_mask, 11);
    assert(((((((((((0u16 | (1u16 << 0u16)) | (1u16 << 2u16)) | (1u16 << 3u16)) | (1u16 << 4u16)) | (
    1u16 << 5u16)) | (1u16 << 6u16)) | (1u16 << 7u16)) | (1u16 << 8u16)) | (1u16 << 9u16)) | (1u16
        << 10u16)) == 0x07FDu16) by (bit_vector);
}

/// The string that a flag argument holds.
fn flag_text<'a>(flag: &'a Cow<'_, str>) -> (text: &'a str)
    ensures
        text@ == flag@,
{
    match flag {
        Cow::Borrowed(borrowed) => borrowed,
        Cow::Owned(owned) => owned.as_str(),
    }
}

/// Encodes a list of flag names into a bitmask, by the flag table. Names
/// that the table does not know are ignored.
pub fn encode_flags(flags: &[Cow<'_, str>]) -> (mask: u16)
    ensures
        mask == encode_spec(flags.deep_view()),
{
    let ghost names = flags.deep_view();
    let mut mask: u16 = 0;
    let mut k: usize = 0;
    proof {
        assert(names.take(0) =~= Seq::empty());
        lemma_encode_empty(FLAG_COUNT as int);
    }
    while k < flags.len()
        invariant
            k <= flags.len(),
            names == flags.deep_view(),
            mask == encode_spec(names.take(k as int)),
        decreases flags.len() - k,
    {
        let text = flag_text(&flags[k]);
        let ghost base = mask;
        let mut j: usize = 0;
        proof {
            assert(base | 0u16 == base) by (bit_vector);
        }
        while j < FLAG_COUNT
            invariant
                j <= FLAG_COUNT,
                mask == base | name_mask(text@, j as int),
            decreases FLAG_COUNT - j,
        {
            let (bit, name) = flag_entry(j);
            if str_eq(text, name) {
                proof {
                    let m = name_mask(text@, j as int);
                    assert((base | m) | bit == base | (m | bit)) by (bit_vector);
                }
                mask = mask | bit;
            }
            j += 1;
        }
        proof {
            assert(text@ == names[k as int]);
            assert(names.take(k as int + 1) =~= names.take(k as int).push(names[k as int]));
            lemma_encode_push(names.take(k as int), names[k as int], FLAG_COUNT as int);
        }
        k += 1;
    }
    proof {
        assert(names.take(k as int) =~= names);
    }
    mask
}

/// Decodes a bitmask into the names of its set flags, in table order. Bits
/// that the table does not know are left out.
pub fn decode_flags(bits: u16) -> (list: Vec<Cow<'static, str>>)
    ensures
        list.deep_view() == decode_spec(bits),
{
    let mut list: Vec<Cow<'static, str>> = Vec::new();
    let mut j: usize = 0;
    proof {
        assert(list.deep_view() =~= decode_upto(bits, 0));
    }
    while j < FLAG_COUNT
        invariant
            j <= FLAG_COUNT,
            list.deep_view() == decode_upto(bits, j as int),
        decreases FLAG_COUNT - j,
    {
        let (bit, name) = flag_entry(j);
        if bits & bit != 0 {
            let ghost before = list.deep_view();
            list.push(Cow::Borrowed(name));
            proof {
                assert(list.deep_view() =~= before.push(name@));
            }
        }
        j += 1;
    }
    list
}

} // verus!
