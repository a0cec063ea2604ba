//! Byte-layout codec for the persisted vesting state.
//!
//! The state is stored as four fixed 32-byte storage slots, laid out one
//! after the other: slot 0 holds `init_timestamp`, slot 1 `pending_round`,
//! slot 2 `unlocked_ticks`, and slot 3 packs the two speed-up fractions.
//! Each field occupies the low 8 bytes of its slot as a little-endian word
//! (`fraction_round` at byte offset 96, `fraction_peroid` at byte offset
//! 104); the remaining bytes of a slot are zero.

use vstd::prelude::*;
use vstd::bytes::*;
use vstd::slice::slice_subrange;
use crate::fund::Options;

verus! {

/// Fields the codec can represent: the engine never produces a negative
/// counter, and a stored word must read back as the same value.
pub open spec fn nonneg_fields(o: Options) -> bool {
    &&& o.init_timestamp >= 0
    &&& o.pending_round >= 0
    &&& o.unlocked_ticks >= 0
    &&& o.fraction_round >= 0
    &&& o.fraction_peroid >= 0
}

/// A run of zero padding bytes.
pub open spec fn spec_zeros(n: nat) -> Seq<u8> {
    Seq::new(n, |i: int| 0u8)
}

/// One 32-byte storage slot: the value in the low 8 bytes, zero padding above.
pub open spec fn spec_slot(v: u64) -> Seq<u8> {
    spec_u64_to_le_bytes(v) + spec_zeros(24)
}

/// The full 128-byte encoding of a state.
pub open spec fn spec_encode_state(o: Options) -> Seq<u8> {
    spec_slot(o.init_timestamp as u64) + spec_slot(o.pending_round as u64) + spec_slot(
        o.unlocked_ticks as u64,
    ) + (spec_u64_to_le_bytes(o.fraction_round as u64) + spec_u64_to_le_bytes(
        o.fraction_peroid as u64,
    ) + spec_zeros(16))
}

/// The little-endian word stored at a byte offset of an encoding.
pub open spec fn spec_field_word(s: Seq<u8>, offset: int) -> u64
    recommends
        0 <= offset,
        offset + 8 <= s.len(),
{
    spec_u64_from_le_bytes(s.subrange(offset, offset + 8))
}

/// Whether every stored word reads back as a non-negative 64-bit counter.
pub open spec fn spec_words_fit(s: Seq<u8>) -> bool {
    &&& spec_field_word(s, 0) < 0x8000_0000_0000_0000
    &&& spec_field_word(s, 32) < 0x8000_0000_0000_0000
    &&& spec_field_word(s, 64) < 0x8000_0000_0000_0000
    &&& spec_field_word(s, 96) < 0x8000_0000_0000_0000
    &&& spec_field_word(s, 104) < 0x8000_0000_0000_0000
}

/// The state read back from an encoding.
pub open spec fn spec_decode_fields(s: Seq<u8>) -> Options {
    Options {
        init_timestamp: spec_field_word(s, 0) as i64,
        pending_round: spec_field_word(s, 32) as i64,
        unlocked_ticks: spec_field_word(s, 64) as i64,
        fraction_round: spec_field_word(s, 96) as i64,
        fraction_peroid: spec_field_word(s, 104) as i64,
    }
}

/// Appends the 8 little-endian bytes of `v`.
fn push_le_u64(out: &mut Vec<u8>, v: u64)
    ensures
        final(out)@ == old(out)@ + spec_u64_to_le_bytes(v),
{
    let ghost out0: Seq<u8> = out@;
    let bytes: Vec<u8> = u64_to_le_bytes(v);
    let mut i: usize = 0;
    while i < 8
        invariant
            i <= 8,
            bytes@ == spec_u64_to_le_bytes(v),
            bytes@.len() == 8,
            out@ == out0 + bytes@.subrange(0, i as int),
        decreases 8 - i,
    {
        let b: u8 = bytes[i];
        out.push(b);
        proof {
            assert(out@ =~= out0 + bytes@.subrange(0, i + 1));
        }
        i = i + 1;
    }
    proof {
        assert(out@ =~= out0 + bytes@);
    }
}

/// Appends `n` zero padding bytes.
fn push_zeros(out: &mut Vec<u8>, n: usize)
    ensures
        final(out)@ == old(out)@ + spec_zeros(n as nat),
{
    let ghost out0: Seq<u8> = out@;
    let mut i: usize = 0;
    while i < n
        invariant
            i <= n,
            out@ == out0 + spec_zeros(i as nat),
        decreases n - i,
    {
        out.push(0);
        proof {
            assert(out@ =~= out0 + spec_zeros((i + 1) as nat));
        }
        i = i + 1;
    }
}

/// Writes a state into its four-slot byte layout.
pub fn encode_state(o: &Options) -> (r: Vec<u8>)
    requires
        nonneg_fields(*o),
    ensures
        r@ == spec_encode_state(*o),
        r@.len() == 128,
{
    let mut out: Vec<u8> = Vec::new();
    push_le_u64(&mut out, o.init_timestamp as u64);
    push_zeros(&mut out, 24);
    push_le_u64(&mut out, o.pending_round as u64);
    push_zeros(&mut out, 24);
    push_le_u64(&mut out, o.unlocked_ticks as u64);
    push_zeros(&mut out, 24);
    push_le_u64(&mut out, o.fraction_round as u64);
    push_le_u64(&mut out, o.fraction_peroid as u64);
    push_zeros(&mut out, 16);
    proof {
        lemma_auto_spec_u64_to_from_le_bytes();
        assert(out@ =~= spec_encode_state(*o));
    }
    out
}

/// Reads a state back from its four-slot byte layout.  Returns `None` when
/// the input is not exactly four slots long or a stored word does not fit a
/// non-negative 64-bit counter.
pub fn decode_state(bytes: &[u8]) -> (r: Option<Options>)
    ensures
        r is Some <==> (bytes@.len() == 128 && spec_words_fit(bytes@)),
        r is Some ==> r == Some(spec_decode_fields(bytes@)) && nonneg_fields(
            spec_decode_fields(bytes@),
        ),
{
    if bytes.len() != 128 {
        return None;
    }
    let w0: u64 = u64_from_le_bytes(slice_subrange(bytes, 0, 8));
    let w1: u64 = u64_from_le_bytes(slice_subrange(bytes, 32, 40));
    let w2: u64 = u64_from_le_bytes(slice_subrange(bytes, 64, 72));
    let w3: u64 = u64_from_le_bytes(slice_subrange(bytes, 96, 104));
    let w4: u64 = u64_from_le_bytes(slice_subrange(bytes, 104, 112));
    if w0 >= 0x8000_0000_0000_0000 || w1 >= 0x8000_0000_0000_0000 || w2 >= 0x8000_0000_0000_0000
        || w3 >= 0x8000_0000_0000_0000 || w4 >= 0x8000_0000_0000_0000 {
        return None;
    }
    Some(
        Options {
            init_timestamp: w0 as i64,
            pending_round: w1 as i64,
            unlocked_ticks: w2 as i64,
            fraction_round: w3 as i64,
            fraction_peroid: w4 as i64,
        },
    )
}

/// Round trip: an encoded state reads back as itself.  Every stored word
/// fits, and decoding the encoding recovers every field.
pub proof fn lemma_codec_round_trip(o: Options)
    requires
        nonneg_fields(o),
    ensures
        spec_encode_state(o).len() == 128,
        spec_words_fit(spec_encode_state(o)),
        spec_decode_fields(spec_encode_state(o)) == o,
{
    lemma_auto_spec_u64_to_from_le_bytes();
    let s: Seq<u8> = spec_encode_state(o);
    assert(s.subrange(0, 8) =~= spec_u64_to_le_bytes(o.init_timestamp as u64));
    assert(s.subrange(32, 40) =~= spec_u64_to_le_bytes(o.pending_round as u64));
    assert(s.subrange(64, 72) =~= spec_u64_to_le_bytes(o.unlocked_ticks as u64));
    assert(s.subrange(96, 104) =~= spec_u64_to_le_bytes(o.fraction_round as u64));
    assert(s.subrange(104, 112) =~= spec_u64_to_le_bytes(o.fraction_peroid as u64));
}

} // verus!
