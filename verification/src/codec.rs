//! The length-prefixed codec for fixed-size byte buffers.
//!
//! The wire form of a buffer holding `n` bytes is the 8-byte little-endian
//! encoding of `n`, followed by the `n` content bytes. Decoding reads the
//! prefix, checks it against the expected fixed size, and checks that the
//! declared number of content bytes is present; extra bytes after the content
//! are ignored, so the codec can be used on a prefix of a larger record.

use vstd::bytes::{
    lemma_auto_spec_u64_to_from_le_bytes, spec_u64_from_le_bytes, spec_u64_to_le_bytes,
    u64_from_le_bytes, u64_to_le_bytes,
};
use vstd::prelude::*;
use vstd::slice::slice_subrange;

verus! {

/// Number of bytes in the little-endian length prefix of the wire form.
pub const LENGTH_PREFIX_BYTES: usize = 8;

/// Why a decode failed.
#[derive(Clone, Copy, Debug, PartialEq, Eq, Structural)]
pub enum DecodeError {
    /// The declared length in the prefix is not the expected fixed size.
    LengthMismatch,
    /// Fewer bytes are available than the wire form requires.
    Truncated,
}

/// The wire form of `data`: its length as an 8-byte little-endian prefix,
/// then the bytes themselves.
pub open spec fn spec_encode(data: Seq<u8>) -> Seq<u8> {
    spec_u64_to_le_bytes(data.len() as u64) + data
}

/// What decoding `input` against the expected size `expected` yields.
///
/// The prefix must be present, must declare exactly `expected`, and the
/// declared content bytes must all be present. The length check comes before
/// the availability check, so a wrong prefix is reported as `LengthMismatch`
/// even when the input is also short.
pub open spec fn spec_decode(input: Seq<u8>, expected: nat) -> Result<Seq<u8>, DecodeError> {
    if input.len() < 8 {
        Err(DecodeError::Truncated)
    } else if spec_u64_from_le_bytes(input.subrange(0, 8)) as nat != expected {
        Err(DecodeError::LengthMismatch)
    } else if input.len() < 8 + expected {
        Err(DecodeError::Truncated)
    } else {
        Ok(input.subrange(8, 8 + expected as int))
    }
}

/// Encode `data` as its length-prefixed wire form.
pub fn encode(data: &[u8]) -> (out: Vec<u8>)
    ensures
        out@ == spec_encode(data@),
        out@.len() == 8 + data@.len(),
{
    let mut out = u64_to_le_bytes(data.len() as u64);
    let ghost prefix = out@;
    let mut i: usize = 0;
    while i < data.len()
        invariant
            i <= data@.len(),
            prefix == spec_u64_to_le_bytes(data@.len() as u64),
            prefix.len() == 8,
            out@ =~= prefix + data@.subrange(0, i as int),
        decreases data@.len() - i,
    {
        out.push(data[i]);
        i += 1;
    }
    assert(out@ =~= spec_encode(data@));
    out
}

/// Decode a length-prefixed wire form, expecting exactly `expected` content
/// bytes. Returns the content bytes on success.
pub fn decode(input: &[u8], expected: usize) -> (r: Result<Vec<u8>, DecodeError>)
    ensures
        match r {
            Ok(v) => spec_decode(input@, expected as nat) == Ok::<Seq<u8>, DecodeError>(v@),
            Err(e) => spec_decode(input@, expected as nat) == Err::<Seq<u8>, DecodeError>(e),
        },
{
    if input.len() < 8 {
        return Err(DecodeError::Truncated);
    }
    let prefix = slice_subrange(input, 0, 8);
    let declared = u64_from_le_bytes(prefix);
    if declared != expected as u64 {
        return Err(DecodeError::LengthMismatch);
    }
    if input.len() - 8 < expected {
        return Err(DecodeError::Truncated);
    }
    let mut out: Vec<u8> = Vec::new();
    let mut i: usize = 0;
    while i < expected
        invariant
            i <= expected,
            8 + expected <= input@.len(),
            input@.len() <= usize::MAX,
            out@ =~= input@.subrange(8, 8 + i as int),
        decreases expected - i,
    {
        out.push(input[8 + i]);
        i += 1;
    }
    assert(out@ =~= input@.subrange(8, 8 + expected as int));
    Ok(out)
}

/// Round trip: decoding the wire form of a buffer against the buffer's own
/// length yields the buffer again. The 8-byte prefix is what bounds the
/// lengths the wire form can carry.
pub proof fn lemma_round_trip(data: Seq<u8>)
    requires
        data.len() <= u64::MAX,
    ensures
        spec_decode(spec_encode(data), data.len()) == Ok::<Seq<u8>, DecodeError>(data),
{
    lemma_auto_spec_u64_to_from_le_bytes();
    let w = spec_encode(data);
    assert(w.subrange(0, 8) =~= spec_u64_to_le_bytes(data.len() as u64));
    assert(w.subrange(8, 8 + data.len() as int) =~= data);
}

/// A corrupted prefix is always caught: a wire form whose prefix declares
/// `wrong` instead of the buffer's own length decodes to `LengthMismatch`,
/// whatever value `wrong` holds.
pub proof fn lemma_corrupted_prefix_mismatch(data: Seq<u8>, wrong: u64)
    requires
        wrong as nat != data.len(),
    ensures
        spec_decode(spec_u64_to_le_bytes(wrong) + data, data.len()) == Err::<Seq<u8>, DecodeError>(
            DecodeError::LengthMismatch,
        ),
{
    lemma_auto_spec_u64_to_from_le_bytes();
    let w = spec_u64_to_le_bytes(wrong) + data;
    assert(w.subrange(0, 8) =~= spec_u64_to_le_bytes(wrong));
}

/// An input shorter than the prefix plus the declared length decodes to
/// `Truncated`, provided the prefix (when present at all) declares the
/// expected size; when the prefix itself disagrees with the expected size,
/// the mismatch is reported instead.
pub proof fn lemma_truncated(input: Seq<u8>, expected: nat)
    requires
        input.len() < 8 + expected,
        input.len() >= 8 ==> spec_u64_from_le_bytes(input.subrange(0, 8)) as nat == expected,
    ensures
        spec_decode(input, expected) == Err::<Seq<u8>, DecodeError>(DecodeError::Truncated),
{
}

/// An input shorter than the prefix plus the expected length never decodes
/// successfully: no bytes are invented.
pub proof fn lemma_short_input_never_ok(input: Seq<u8>, expected: nat)
    requires
        input.len() < 8 + expected,
    ensures
        spec_decode(input, expected) is Err,
{
}

/// The wire form of the empty buffer is exactly the eight zero bytes of its
/// length prefix, and decoding that against size zero yields the empty
/// buffer again.
pub proof fn lemma_empty_wire_form()
    ensures
        spec_encode(Seq::<u8>::empty()) == spec_u64_to_le_bytes(0),
        spec_u64_to_le_bytes(0) == seq![0u8, 0u8, 0u8, 0u8, 0u8, 0u8, 0u8, 0u8],
        spec_decode(spec_u64_to_le_bytes(0), 0) == Ok::<Seq<u8>, DecodeError>(Seq::<u8>::empty()),
{
    lemma_auto_spec_u64_to_from_le_bytes();
    vstd::bytes::spec_u64_to_le_bytes_to_open(0);
    assert(((0u64 >> 8) & 0xff) == 0 && ((0u64 >> 16) & 0xff) == 0 && ((0u64 >> 24) & 0xff) == 0
        && ((0u64 >> 32) & 0xff) == 0 && ((0u64 >> 40) & 0xff) == 0 && ((0u64 >> 48) & 0xff) == 0
        && ((0u64 >> 56) & 0xff) == 0 && (0u64 & 0xff) == 0) by (bit_vector);
    assert(spec_u64_to_le_bytes(0) =~= seq![0u8, 0u8, 0u8, 0u8, 0u8, 0u8, 0u8, 0u8]);
    assert(spec_encode(Seq::<u8>::empty()) =~= spec_u64_to_le_bytes(0));
    lemma_round_trip(Seq::<u8>::empty());
}

/// A byte buffer whose length is fixed to `N`.
///
/// `new` is the only way the library builds one, and it validates the length,
/// so holders can rely on `wf`.
#[derive(Clone, Debug)]
pub struct FixedBytes<const N: usize> {
    pub bytes: Vec<u8>,
}

impl<const N: usize> FixedBytes<N> {
    /// The buffer holds exactly `N` bytes.
    pub open spec fn wf(&self) -> bool {
        self.bytes@.len() == N
    }

    /// Wrap `bytes` as a fixed-size buffer; fails unless it holds exactly
    /// `N` bytes.
    pub fn new(bytes: Vec<u8>) -> (r: Option<FixedBytes<N>>)
        ensures
            match r {
                Some(fb) => fb.wf() && fb.bytes@ == bytes@,
                None => bytes@.len() != N,
            },
    {
        if bytes.len() == N {
            Some(FixedBytes { bytes })
        } else {
            None
        }
    }

    /// The fixed size `N`.
    pub fn size(&self) -> (n: usize)
        ensures
            n == N,
    {
        N
    }

    /// Encode this buffer as its length-prefixed wire form.
    pub fn encode(&self) -> (out: Vec<u8>)
        requires
            self.wf(),
        ensures
            out@ == spec_encode(self.bytes@),
            out@.len() == 8 + N,
    {
        encode(self.bytes.as_slice())
    }

    /// Decode a length-prefixed wire form into a buffer of exactly `N` bytes.
    pub fn decode(input: &[u8]) -> (r: Result<FixedBytes<N>, DecodeError>)
        ensures
            match r {
                Ok(fb) => fb.wf() && spec_decode(input@, N as nat) == Ok::<Seq<u8>, DecodeError>(
                    fb.bytes@,
                ),
                Err(e) => spec_decode(input@, N as nat) == Err::<Seq<u8>, DecodeError>(e),
            },
    {
        match decode(input, N) {
            Ok(bytes) => Ok(FixedBytes { bytes }),
            Err(e) => Err(e),
        }
    }
}

} // verus!
