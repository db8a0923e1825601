use dzip_core::format::{flag_entry, CODEC_MASK, FLAG_COUNT, FLAG_ZLIB, KNOWN_FLAGS};
use dzip_core::utils::{decode_flags, encode_flags};
use std::borrow::Cow;

fn names(list: &[&'static str]) -> Vec<Cow<'static, str>> {
    list.iter().map(|name| Cow::Borrowed(*name)).collect()
}

#[test]
fn encode_flags_sets_the_bit_of_each_known_name() {
    assert_eq!(encode_flags(&names(&["ZLIB"])), 0x0008);
    assert_eq!(encode_flags(&names(&["COMBUF", "LZMA"])), 0x0201);
    assert_eq!(encode_flags(&names(&["RANDOM_ACCESS", "DZ_RANGE"])), 0x0404);
    assert_eq!(encode_flags(&names(&[])), 0);
}

#[test]
fn encode_flags_of_every_name_is_the_whole_table() {
    let all = names(&[
        "COMBUF",
        "DZ_RANGE",
        "ZLIB",
        "BZIP",
        "MP3",
        "JPEG",
        "ZERO",
        "COPYCOMP",
        "LZMA",
        "RANDOM_ACCESS",
    ]);
    assert_eq!(encode_flags(&all), 0x07FD);
}

#[test]
fn encode_flags_ignores_unknown_and_repeated_names() {
    assert_eq!(encode_flags(&names(&["NOT_A_FLAG"])), 0);
    assert_eq!(encode_flags(&names(&["zlib"])), 0);
    assert_eq!(encode_flags(&names(&["ZLIB", "NOT_A_FLAG", "ZLIB"])), 0x0008);
}

#[test]
fn encode_flags_takes_owned_names() {
    let owned: Vec<Cow<'static, str>> = vec![Cow::Owned(String::from("BZIP"))];
    assert_eq!(encode_flags(&owned), 0x0010);
}

#[test]
fn decode_flags_lists_set_bits_in_table_order() {
    assert_eq!(decode_flags(0x0209), names(&["COMBUF", "ZLIB", "LZMA"]));
    assert_eq!(decode_flags(0x0008), names(&["ZLIB"]));
    assert_eq!(decode_flags(0), names(&[]));
}

#[test]
fn decode_flags_leaves_out_bits_outside_the_table() {
    assert_eq!(decode_flags(0x8002 | 0x0008), names(&["ZLIB"]));
    assert_eq!(decode_flags(0xF802), names(&[]));
}

#[test]
fn decode_after_encode_gives_known_names_once_in_table_order() {
    let input = names(&["LZMA", "ZLIB", "BOGUS", "ZLIB", "COMBUF"]);
    assert_eq!(decode_flags(encode_flags(&input)), names(&["COMBUF", "ZLIB", "LZMA"]));
}

#[test]
fn encode_after_decode_keeps_the_known_bits() {
    for bits in [0u16, 1, 8, 0x07FD, 0xFFFF, 0x1234] {
        assert_eq!(encode_flags(&decode_flags(bits)), bits & KNOWN_FLAGS);
    }
}

#[test]
fn flag_table_holds_one_bit_per_name() {
    let mut seen = 0u16;
    for i in 0..FLAG_COUNT {
        let (bit, name) = flag_entry(i);
        assert_eq!(bit.count_ones(), 1);
        assert_eq!(seen & bit, 0);
        assert!(!name.is_empty());
        seen |= bit;
    }
    assert_eq!(seen, KNOWN_FLAGS);
    assert_eq!(seen, 0x07FD);
    assert_eq!(flag_entry(2), (FLAG_ZLIB, "ZLIB"));
    assert_eq!(FLAG_ZLIB & CODEC_MASK, FLAG_ZLIB);
}
