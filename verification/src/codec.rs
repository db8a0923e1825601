//! The chunk codecs and the registry that maps the codec bits of a chunk's
//! flags to one of them.

use crate::bytes::bytes_eq;
use crate::format::{CODEC_MASK, FLAG_ZLIB};
use std::collections::HashMap;
use vstd::prelude::*;

verus! {

broadcast use vstd::std_specs::hash::group_hash_axioms;

/// Codec identifier of chunks that are stored as they are.
pub const STORED_ID: u16 = 0;

/// Compression level that the deflate codec packs with.
pub const DEFLATE_LEVEL: u8 = 6;

/// `DecompressError` of miniz_oxide, carried through as it is.
#[verifier::external_type_specification]
#[verifier::external_body]
pub struct ExDecompressError(miniz_oxide::inflate::DecompressError);

/// The bytes that `miniz_oxide::deflate::compress_to_vec_zlib` produces
/// for an input and a compression level.
pub uninterp spec fn zlib_deflated(input: Seq<u8>, level: u8) -> Seq<u8>;

/// The bytes that `miniz_oxide::inflate::decompress_to_vec_zlib_with_limit`
/// produces for an input and an output limit; `None` where it fails.
pub uninterp spec fn zlib_inflated(input: Seq<u8>, limit: usize) -> Option<Seq<u8>>;

/// `compress_to_vec_zlib` of miniz_oxide: a deterministic function of the
/// input and the level. Levels above 10 are left out: the crate documents
/// 0 to 10. Nothing is claimed of the bytes themselves.
pub assume_specification[ miniz_oxide::deflate::compress_to_vec_zlib ](
    input: &[u8],
    level: u8,
) -> (output: Vec<u8>)
    requires
        level <= 10,
    ensures
        output@ == zlib_deflated(input@, level),
;

/// `decompress_to_vec_zlib_with_limit` of miniz_oxide: a deterministic
/// function of the input and the limit, which either fails or returns the
/// inflated bytes. Nothing is claimed of which inputs inflate.
pub assume_specification[ miniz_oxide::inflate::decompress_to_vec_zlib_with_limit ](
    input: &[u8],
    max_size: usize,
) -> (r: core::result::Result<Vec<u8>, miniz_oxide::inflate::DecompressError>)
    ensures
        match r {
            Ok(output) => zlib_inflated(input@, max_size) == Some(output@),
            Err(_) => zlib_inflated(input@, max_size) is None,
        },
;

/// A strategy for turning the bytes of a chunk into stored bytes and back.
#[derive(Debug, Clone, Copy, PartialEq, Eq)]
pub enum CodecKind {
    /// The stored bytes are the chunk itself.
    Stored,
    /// The stored bytes are a zlib stream of the chunk.
    Deflate,
}

/// The codec identifier of a chunk: the codec bits of its flags.
pub open spec fn codec_id(flags: u16) -> u16 {
    flags & CODEC_MASK
}

/// What inflating gave, where it gave exactly `decoded_length` bytes.
pub open spec fn with_length(inflated: Option<Seq<u8>>, decoded_length: u32) -> Option<Seq<u8>> {
    match inflated {
        Some(data) => if data.len() == decoded_length {
            Some(data)
        } else {
            None
        },
        None => None,
    }
}

/// The chunk that stored bytes decode to, `None` where they do not decode
/// to exactly `decoded_length` bytes.
pub open spec fn decode_spec(kind: CodecKind, stored: Seq<u8>, decoded_length: u32) -> Option<
    Seq<u8>,
> {
    match kind {
        CodecKind::Stored => with_length(Some(stored), decoded_length),
        CodecKind::Deflate => with_length(
            zlib_inflated(stored, decoded_length as usize),
            decoded_length,
        ),
    }
}

/// The compressed bytes, where inflating them with the chunk's length as
/// the limit gives the chunk back.
pub open spec fn checked_deflated(data: Seq<u8>, deflated: Seq<u8>) -> Option<Seq<u8>> {
    if zlib_inflated(deflated, data.len() as usize) == Some(data) {
        Some(deflated)
    } else {
        None
    }
}

/// The stored bytes of a chunk, `None` where the codec cannot store it so
/// that it decodes to the chunk again.
pub open spec fn encode_spec(kind: CodecKind, data: Seq<u8>) -> Option<Seq<u8>> {
    match kind {
        CodecKind::Stored => Some(data),
        CodecKind::Deflate => checked_deflated(data, zlib_deflated(data, DEFLATE_LEVEL)),
    }
}

/// Whatever a codec stores decodes to the chunk it was given.
pub proof fn lemma_codec_roundtrip(kind: CodecKind, data: Seq<u8>)
    requires
        data.len() <= u32::MAX,
        encode_spec(kind, data) is Some,
    ensures
        decode_spec(kind, encode_spec(kind, data)->0, data.len() as u32) == Some(data),
{
}

/// Accepts what inflating a chunk returned: the bytes, where inflating
/// succeeded with exactly `decoded_length` bytes, and `None` otherwise.
pub fn accept_inflated(
    inflated: core::result::Result<Vec<u8>, miniz_oxide::inflate::DecompressError>,
    decoded_length: u32,
) -> (r: Option<Vec<u8>>)
    ensures
        match r {
            Some(data) => {
                &&& inflated matches Ok(output)
                &&& output@ == data@
                &&& data@.len() == decoded_length
            },
            None => inflated matches Ok(output) ==> output@.len() != decoded_length,
        },
{
    match inflated {
        Ok(output) => if output.len() == decoded_length as usize {
            Some(output)
        } else {
            None
        },
        Err(_) => None,
    }
}

/// Accepts what deflating a chunk returned: the compressed bytes, where
/// inflating them again gave the chunk back, and `None` otherwise.
pub fn accept_deflated(
    data: &[u8],
    deflated: Vec<u8>,
    reinflated: core::result::Result<Vec<u8>, miniz_oxide::inflate::DecompressError>,
) -> (r: Option<Vec<u8>>)
    ensures
        match r {
            Some(stored) => {
                &&& stored@ == deflated@
                &&& reinflated matches Ok(output)
                &&& output@ == data@
            },
            None => reinflated matches Ok(output) ==> output@ != data@,
        },
{
    match reinflated {
        Ok(output) => if bytes_eq(output.as_slice(), data) {
            Some(deflated)
        } else {
            None
        },
        Err(_) => None,
    }
}

/// Decodes the stored bytes of a chunk. `None` where they do not decode to
/// exactly `decoded_length` bytes.
pub fn decode_chunk(kind: CodecKind, stored: &[u8], decoded_length: u32) -> (r: Option<Vec<u8>>)
    ensures
        match r {
            Some(data) => decode_spec(kind, stored@, decoded_length) == Some(data@),
            None => decode_spec(kind, stored@, decoded_length) is None,
        },
{
    match kind {
        CodecKind::Stored => {
            if stored.len() == decoded_length as usize {
                Some(vstd::slice::slice_to_vec(stored))
            } else {
                None
            }
        },
        CodecKind::Deflate => {
            let inflated = miniz_oxide::inflate::decompress_to_vec_zlib_with_limit(
                stored,
                decoded_length as usize,
            );
            accept_inflated(inflated, decoded_length)
        },
    }
}

/// Encodes a chunk into its stored bytes. `None` where the codec cannot
/// store the chunk so that it decodes to the chunk again.
pub fn encode_chunk(kind: CodecKind, data: &[u8]) -> (r: Option<Vec<u8>>)
    ensures
        match r {
            Some(stored) => encode_spec(kind, data@) == Some(stored@),
            None => encode_spec(kind, data@) is None,
        },
{
    match kind {
        CodecKind::Stored => Some(vstd::slice::slice_to_vec(data)),
        CodecKind::Deflate => {
            let deflated = miniz_oxide::deflate::compress_to_vec_zlib(data, DEFLATE_LEVEL);
            let reinflated = miniz_oxide::inflate::decompress_to_vec_zlib_with_limit(
                deflated.as_slice(),
                data.len(),
            );
            accept_deflated(data, deflated, reinflated)
        },
    }
}

/// The lookup from codec identifier to codec. The stored codec is always
/// bound to `STORED_ID`; other identifiers are bound by `register`.
pub struct CodecRegistry {
    codecs: HashMap<u16, CodecKind>,
}

impl View for CodecRegistry {
    type V = Map<u16, CodecKind>;

    closed spec fn view(&self) -> Map<u16, CodecKind> {
        self.codecs@.insert(STORED_ID, CodecKind::Stored)
    }
}

/// The codec that a registry gives for the flags of a chunk.
pub open spec fn codec_for(registry: Map<u16, CodecKind>, flags: u16) -> Option<CodecKind> {
    if registry.contains_key(codec_id(flags)) {
        Some(registry[codec_id(flags)])
    } else {
        None
    }
}

/// The chunk that stored bytes decode to under a registry; `None` where no
/// codec is bound to the flags or the codec fails.
pub open spec fn registry_decode(
    registry: Map<u16, CodecKind>,
    flags: u16,
    stored: Seq<u8>,
    decoded_length: u32,
) -> Option<Seq<u8>> {
    match codec_for(registry, flags) {
        Some(kind) => decode_spec(kind, stored, decoded_length),
        None => None,
    }
}

/// The stored bytes of a chunk under a registry; `None` where no codec is
/// bound to the flags or the codec fails.
pub open spec fn registry_encode(registry: Map<u16, CodecKind>, flags: u16, data: Seq<u8>) -> Option<
    Seq<u8>,
> {
    match codec_for(registry, flags) {
        Some(kind) => encode_spec(kind, data),
        None => None,
    }
}

/// The bindings of the default registry: the stored codec and the deflate
/// codec under the `ZLIB` flag.
pub open spec fn default_codecs() -> Map<u16, CodecKind> {
    map![STORED_ID => CodecKind::Stored, FLAG_ZLIB => CodecKind::Deflate]
}

impl CodecRegistry {
    /// A registry with the stored codec alone.
    pub fn new() -> (registry: Self)
        ensures
            registry@ == map![STORED_ID => CodecKind::Stored],
    {
        let registry = CodecRegistry { codecs: HashMap::new() };
        assert(registry@ =~= map![STORED_ID => CodecKind::Stored]);
        registry
    }

    /// The stored codec is bound in every registry.
    pub proof fn lemma_stored_bound(&self)
        ensures
            self@.contains_key(STORED_ID),
            self@[STORED_ID] == CodecKind::Stored,
    {
    }

    /// Binds `kind` to the identifier `id`, in place of what was bound to it.
    /// The binding of `STORED_ID` stays as it is: for that identifier
    /// nothing changes and `false` is returned.
    pub fn register(&mut self, id: u16, kind: CodecKind) -> (bound: bool)
        ensures
            bound == (id != STORED_ID),
            bound ==> final(self)@ == old(self)@.insert(id, kind),
            !bound ==> final(self)@ == old(self)@,
    {
        if id == STORED_ID {
            return false;
        }
        self.codecs.insert(id, kind);
        assert(self@ =~= old(self)@.insert(id, kind));
        true
    }

    /// The codec bound to the codec bits of `flags`, if any.
    pub fn lookup(&self, flags: u16) -> (r: Option<CodecKind>)
        ensures
            r == codec_for(self@, flags),
    {
        let id = flags & CODEC_MASK;
        if id == STORED_ID {
            return Some(CodecKind::Stored);
        }
        match self.codecs.get(&id) {
            Some(kind) => Some(*kind),
            None => None,
        }
    }

    /// Decodes the stored bytes of a chunk with the codec that its flags
    /// select. `None` where no codec is bound to the flags, or the stored
    /// bytes do not decode to exactly `decoded_length` bytes.
    pub fn decode(&self, flags: u16, stored: &[u8], decoded_length: u32) -> (r: Option<Vec<u8>>)
        ensures
            match r {
                Some(data) => registry_decode(self@, flags, stored@, decoded_length) == Some(data@),
                None => registry_decode(self@, flags, stored@, decoded_length) is None,
            },
    {
        match self.lookup(flags) {
            Some(kind) => decode_chunk(kind, stored, decoded_length),
            None => None,
        }
    }

    /// Encodes a chunk with the codec that `flags` select. `None` where no
    /// codec is bound to the flags, or the codec cannot store the chunk.
    pub fn encode(&self, flags: u16, data: &[u8]) -> (r: Option<Vec<u8>>)
        ensures
            match r {
                Some(stored) => registry_encode(self@, flags, data@) == Some(stored@),
                None => registry_encode(self@, flags, data@) is None,
            },
    {
        match self.lookup(flags) {
            Some(kind) => encode_chunk(kind, data),
            None => None,
        }
    }
}

/// The registry that the engines use by default: the stored codec, and the
/// deflate codec under the `ZLIB` flag.
pub fn create_default_registry() -> (registry: CodecRegistry)
    ensures
        registry@ == default_codecs(),
{
    let mut registry = CodecRegistry::new();
    registry.register(FLAG_ZLIB, CodecKind::Deflate);
    assert(registry@ =~= default_codecs());
    registry
}

} // verus!
