use vstd::prelude::*;
use vstd::bytes::*;
use vstd::slice::slice_subrange;

verus! {

/// How a malformed on-disk artifact is rejected.
#[derive(Debug, Clone, Copy, PartialEq, Eq, Structural)]
pub enum FormatError {
    /// The buffer does not start with the expected magic bytes.
    BadMagic,
    /// The buffer is shorter than the fixed region that must be present.
    Truncated,
    /// The data file and the index file disagree about the key count.
    CountMismatch,
    /// A size, offset or section recorded in a file is inconsistent.
    Malformed,
}

/// Byte length of an encoded `DabaHeader`.
pub const DABA_HEADER_SIZE: usize = 32;

/// Byte length of an encoded `IndexHeader`.
pub const INDEX_HEADER_SIZE: usize = 40;

/// Every key is exactly this many bytes.
pub const KEY_SIZE: usize = 16;

/// The magic bytes that open a data file: `"DABA"`.
pub open spec fn daba_magic() -> Seq<u8> {
    seq![68u8, 65u8, 66u8, 65u8]
}

/// The magic bytes that open an index file: `"KIDX"`.
pub open spec fn index_magic() -> Seq<u8> {
    seq![75u8, 73u8, 68u8, 88u8]
}

/// The fixed 32-byte header of a data file. The magic bytes are not stored:
/// decoding only succeeds when they are present, and encoding always writes them.
#[derive(Debug, Clone, Copy, PartialEq, Eq, Structural)]
pub struct DabaHeader {
    /// Format version, reserved for compatibility checks.
    pub version: u32,
    /// Number of key/value pairs stored in the database.
    pub num_keys: u64,
    /// Size in bytes of every key; always 16.
    pub key_size: u64,
    /// Byte offset into the data file where the value bytes begin.
    pub values_start: u64,
}

/// The fixed 40-byte header of an index file.
#[derive(Debug, Clone, Copy, PartialEq, Eq, Structural)]
pub struct IndexHeader {
    /// Format version, reserved for compatibility checks.
    pub version: u32,
    /// Number of key/value pairs stored in the database.
    pub num_keys: u64,
    /// Byte length of the serialized perfect-hash structure.
    pub mphf_size: u64,
    /// Byte offset of the keys-in-id-order section.
    pub keys_offset: u64,
    /// Byte offset of the offsets-in-id-order section.
    pub offsets_offset: u64,
}

/// The exact 32 bytes that encode a data-file header: magic, then each field
/// as a little-endian fixed-width integer.
pub open spec fn spec_encode_daba(h: DabaHeader) -> Seq<u8> {
    daba_magic() + spec_u32_to_le_bytes(h.version) + spec_u64_to_le_bytes(h.num_keys)
        + spec_u64_to_le_bytes(h.key_size) + spec_u64_to_le_bytes(h.values_start)
}

/// The exact 40 bytes that encode an index-file header.
pub open spec fn spec_encode_index(h: IndexHeader) -> Seq<u8> {
    index_magic() + spec_u32_to_le_bytes(h.version) + spec_u64_to_le_bytes(h.num_keys)
        + spec_u64_to_le_bytes(h.mphf_size) + spec_u64_to_le_bytes(h.keys_offset)
        + spec_u64_to_le_bytes(h.offsets_offset)
}

/// What decoding a data-file header returns for any byte sequence: `Truncated`
/// below 32 bytes, `BadMagic` when the magic bytes are absent, otherwise the
/// header whose fields are read little-endian from their fixed positions.
pub open spec fn spec_decode_daba(b: Seq<u8>) -> Result<DabaHeader, FormatError> {
    if b.len() < DABA_HEADER_SIZE {
        Err(FormatError::Truncated)
    } else if b.subrange(0, 4) != daba_magic() {
        Err(FormatError::BadMagic)
    } else {
        Ok(DabaHeader {
            version: spec_u32_from_le_bytes(b.subrange(4, 8)),
            num_keys: spec_u64_from_le_bytes(b.subrange(8, 16)),
            key_size: spec_u64_from_le_bytes(b.subrange(16, 24)),
            values_start: spec_u64_from_le_bytes(b.subrange(24, 32)),
        })
    }
}

/// What decoding an index-file header returns for any byte sequence.
pub open spec fn spec_decode_index(b: Seq<u8>) -> Result<IndexHeader, FormatError> {
    if b.len() < INDEX_HEADER_SIZE {
        Err(FormatError::Truncated)
    } else if b.subrange(0, 4) != index_magic() {
        Err(FormatError::BadMagic)
    } else {
        Ok(IndexHeader {
            version: spec_u32_from_le_bytes(b.subrange(4, 8)),
            num_keys: spec_u64_from_le_bytes(b.subrange(8, 16)),
            mphf_size: spec_u64_from_le_bytes(b.subrange(16, 24)),
            keys_offset: spec_u64_from_le_bytes(b.subrange(24, 32)),
            offsets_offset: spec_u64_from_le_bytes(b.subrange(32, 40)),
        })
    }
}

impl DabaHeader {
    /// Encode this header as its fixed 32-byte block.
    pub fn to_bytes(&self) -> (out: Vec<u8>)
        ensures
            out@ == spec_encode_daba(*self),
            out@.len() == DABA_HEADER_SIZE,
    {
        let mut out: Vec<u8> = Vec::new();
        out.push(68u8);
        out.push(65u8);
        out.push(66u8);
        out.push(65u8);
        let mut f = u32_to_le_bytes(self.version);
        out.append(&mut f);
        let mut f = u64_to_le_bytes(self.num_keys);
        out.append(&mut f);
        let mut f = u64_to_le_bytes(self.key_size);
        out.append(&mut f);
        let mut f = u64_to_le_bytes(self.values_start);
        out.append(&mut f);
        proof {
            assert(out@ =~= spec_encode_daba(*self));
        }
        out
    }

    /// Decode a header from the first 32 bytes of `bytes`, validating the
    /// magic number first.
    pub fn from_bytes(bytes: &[u8]) -> (r: Result<DabaHeader, FormatError>)
        ensures
            r == spec_decode_daba(bytes@),
    {
        if bytes.len() < DABA_HEADER_SIZE {
            return Err(FormatError::Truncated);
        }
        if !(bytes[0] == 68 && bytes[1] == 65 && bytes[2] == 66 && bytes[3] == 65) {
            proof {
                assert(bytes@.subrange(0, 4) != daba_magic()) by {
                    if bytes@.subrange(0, 4) == daba_magic() {
                        assert(bytes@.subrange(0, 4)[0] == 68u8);
                        assert(bytes@.subrange(0, 4)[1] == 65u8);
                        assert(bytes@.subrange(0, 4)[2] == 66u8);
                        assert(bytes@.subrange(0, 4)[3] == 65u8);
                    }
                }
            }
            return Err(FormatError::BadMagic);
        }
        proof {
            assert(bytes@.subrange(0, 4) =~= daba_magic());
        }
        Ok(DabaHeader {
            version: u32_from_le_bytes(slice_subrange(bytes, 4, 8)),
            num_keys: u64_from_le_bytes(slice_subrange(bytes, 8, 16)),
            key_size: u64_from_le_bytes(slice_subrange(bytes, 16, 24)),
            values_start: u64_from_le_bytes(slice_subrange(bytes, 24, 32)),
        })
    }
}

impl IndexHeader {
    /// Encode this header as its fixed 40-byte block.
    pub fn to_bytes(&self) -> (out: Vec<u8>)
        ensures
            out@ == spec_encode_index(*self),
            out@.len() == INDEX_HEADER_SIZE,
    {
        let mut out: Vec<u8> = Vec::new();
        out.push(75u8);
        out.push(73u8);
        out.push(68u8);
        out.push(88u8);
        let mut f = u32_to_le_bytes(self.version);
        out.append(&mut f);
        let mut f = u64_to_le_bytes(self.num_keys);
        out.append(&mut f);
        let mut f = u64_to_le_bytes(self.mphf_size);
        out.append(&mut f);
        let mut f = u64_to_le_bytes(self.keys_offset);
        out.append(&mut f);
        let mut f = u64_to_le_bytes(self.offsets_offset);
        out.append(&mut f);
        proof {
            assert(out@ =~= spec_encode_index(*self));
        }
        out
    }

    /// Decode a header from the first 40 bytes of `bytes`, validating the
    /// magic number first.
    pub fn from_bytes(bytes: &[u8]) -> (r: Result<IndexHeader, FormatError>)
        ensures
            r == spec_decode_index(bytes@),
    {
        if bytes.len() < INDEX_HEADER_SIZE {
            return Err(FormatError::Truncated);
        }
        if !(bytes[0] == 75 && bytes[1] == 73 && bytes[2] == 68 && bytes[3] == 88) {
            proof {
                assert(bytes@.subrange(0, 4) != index_magic()) by {
                    if bytes@.subrange(0, 4) == index_magic() {
                        assert(bytes@.subrange(0, 4)[0] == 75u8);
                        assert(bytes@.subrange(0, 4)[1] == 73u8);
                        assert(bytes@.subrange(0, 4)[2] == 68u8);
                        assert(bytes@.subrange(0, 4)[3] == 88u8);
                    }
                }
            }
            return Err(FormatError::BadMagic);
        }
        proof {
            assert(bytes@.subrange(0, 4) =~= index_magic());
        }
        Ok(IndexHeader {
            version: u32_from_le_bytes(slice_subrange(bytes, 4, 8)),
            num_keys: u64_from_le_bytes(slice_subrange(bytes, 8, 16)),
            mphf_size: u64_from_le_bytes(slice_subrange(bytes, 16, 24)),
            keys_offset: u64_from_le_bytes(slice_subrange(bytes, 24, 32)),
            offsets_offset: u64_from_le_bytes(slice_subrange(bytes, 32, 40)),
        })
    }
}

/// Append the bytes of `src` to `out`.
pub fn push_bytes(out: &mut Vec<u8>, src: &[u8])
    ensures
        final(out)@ == old(out)@ + src@,
{
    let mut i: usize = 0;
    while i < src.len()
        invariant
            0 <= i <= src@.len(),
            out@ == old(out)@ + src@.subrange(0, i as int),
        decreases src@.len() - i,
    {
        out.push(src[i]);
        proof {
            assert(old(out)@ + src@.subrange(0, i + 1) =~= (old(out)@ + src@.subrange(
                0,
                i as int,
            )).push(src@[i as int]));
        }
        i += 1;
    }
    proof {
        assert(src@.subrange(0, src@.len() as int) =~= src@);
    }
}

/// Law: decoding an encoded data-file header gives the header back, for every
/// header value; the magic bytes written by `to_bytes` always validate.
pub proof fn lemma_daba_header_round_trip(h: DabaHeader)
    ensures
        spec_decode_daba(spec_encode_daba(h)) == Ok::<DabaHeader, FormatError>(h),
{
    lemma_auto_spec_u32_to_from_le_bytes();
    lemma_auto_spec_u64_to_from_le_bytes();
    let b = spec_encode_daba(h);
    assert(b.subrange(0, 4) =~= daba_magic());
    assert(b.subrange(4, 8) =~= spec_u32_to_le_bytes(h.version));
    assert(b.subrange(8, 16) =~= spec_u64_to_le_bytes(h.num_keys));
    assert(b.subrange(16, 24) =~= spec_u64_to_le_bytes(h.key_size));
    assert(b.subrange(24, 32) =~= spec_u64_to_le_bytes(h.values_start));
}

/// Law: decoding an encoded index-file header gives the header back, for
/// every header value.
pub proof fn lemma_index_header_round_trip(h: IndexHeader)
    ensures
        spec_decode_index(spec_encode_index(h)) == Ok::<IndexHeader, FormatError>(h),
{
    lemma_auto_spec_u32_to_from_le_bytes();
    lemma_auto_spec_u64_to_from_le_bytes();
    let b = spec_encode_index(h);
    assert(b.subrange(0, 4) =~= index_magic());
    assert(b.subrange(4, 8) =~= spec_u32_to_le_bytes(h.version));
    assert(b.subrange(8, 16) =~= spec_u64_to_le_bytes(h.num_keys));
    assert(b.subrange(16, 24) =~= spec_u64_to_le_bytes(h.mphf_size));
    assert(b.subrange(24, 32) =~= spec_u64_to_le_bytes(h.keys_offset));
    assert(b.subrange(32, 40) =~= spec_u64_to_le_bytes(h.offsets_offset));
}

/// Decoding any byte sequence that begins with an encoded data-file header
/// yields that header, whatever follows it.
pub proof fn lemma_decode_daba_prefix(h: DabaHeader, b: Seq<u8>)
    requires
        b.len() >= DABA_HEADER_SIZE,
        b.subrange(0, DABA_HEADER_SIZE as int) == spec_encode_daba(h),
    ensures
        spec_decode_daba(b) == Ok::<DabaHeader, FormatError>(h),
{
    lemma_auto_spec_u32_to_from_le_bytes();
    lemma_auto_spec_u64_to_from_le_bytes();
    let e = spec_encode_daba(h);
    assert(b.subrange(0, 4) =~= e.subrange(0, 4));
    assert(e.subrange(0, 4) =~= daba_magic());
    assert(b.subrange(4, 8) =~= e.subrange(4, 8));
    assert(e.subrange(4, 8) =~= spec_u32_to_le_bytes(h.version));
    assert(b.subrange(8, 16) =~= e.subrange(8, 16));
    assert(e.subrange(8, 16) =~= spec_u64_to_le_bytes(h.num_keys));
    assert(b.subrange(16, 24) =~= e.subrange(16, 24));
    assert(e.subrange(16, 24) =~= spec_u64_to_le_bytes(h.key_size));
    assert(b.subrange(24, 32) =~= e.subrange(24, 32));
    assert(e.subrange(24, 32) =~= spec_u64_to_le_bytes(h.values_start));
}

/// Decoding any byte sequence that begins with an encoded index-file header
/// yields that header, whatever follows it.
pub proof fn lemma_decode_index_prefix(h: IndexHeader, b: Seq<u8>)
    requires
        b.len() >= INDEX_HEADER_SIZE,
        b.subrange(0, INDEX_HEADER_SIZE as int) == spec_encode_index(h),
    ensures
        spec_decode_index(b) == Ok::<IndexHeader, FormatError>(h),
{
    lemma_auto_spec_u32_to_from_le_bytes();
    lemma_auto_spec_u64_to_from_le_bytes();
    let e = spec_encode_index(h);
    assert(b.subrange(0, 4) =~= e.subrange(0, 4));
    assert(e.subrange(0, 4) =~= index_magic());
    assert(b.subrange(4, 8) =~= e.subrange(4, 8));
    assert(e.subrange(4, 8) =~= spec_u32_to_le_bytes(h.version));
    assert(b.subrange(8, 16) =~= e.subrange(8, 16));
    assert(e.subrange(8, 16) =~= spec_u64_to_le_bytes(h.num_keys));
    assert(b.subrange(16, 24) =~= e.subrange(16, 24));
    assert(e.subrange(16, 24) =~= spec_u64_to_le_bytes(h.mphf_size));
    assert(b.subrange(24, 32) =~= e.subrange(24, 32));
    assert(e.subrange(24, 32) =~= spec_u64_to_le_bytes(h.keys_offset));
    assert(b.subrange(32, 40) =~= e.subrange(32, 40));
    assert(e.subrange(32, 40) =~= spec_u64_to_le_bytes(h.offsets_offset));
}

} // verus!
