//! Decoding and encoding of raw mono 16 kHz signed-16-bit little-endian PCM.
//!
//! The decoder subprocess hands the pipeline a byte stream; each consecutive
//! 2-byte little-endian pair is one signed 16-bit sample. Decoding keeps the
//! order of the pairs; a trailing odd byte carries no sample and is dropped.

use vstd::prelude::*;

verus! {

/// The sample encoded by the little-endian pair `(lo, hi)`.
pub open spec fn sample_of_pair(lo: u8, hi: u8) -> i16 {
    ((lo as u16) | ((hi as u16) << 8)) as i16
}

/// The low (first) byte of the little-endian encoding of `s`.
pub open spec fn low_byte(s: i16) -> u8 {
    ((s as u16) & 0xff) as u8
}

/// The high (second) byte of the little-endian encoding of `s`.
pub open spec fn high_byte(s: i16) -> u8 {
    (((s as u16) >> 8) & 0xff) as u8
}

/// The samples encoded by a PCM byte stream, pair by pair, in order.
pub open spec fn pcm_decode(bytes: Seq<u8>) -> Seq<i16> {
    Seq::new(bytes.len() / 2, |i: int| sample_of_pair(bytes[2 * i], bytes[2 * i + 1]))
}

/// The little-endian byte stream that encodes `samples`.
pub open spec fn pcm_encode(samples: Seq<i16>) -> Seq<u8> {
    Seq::new(
        samples.len() * 2,
        |i: int| if i % 2 == 0 { low_byte(samples[i / 2]) } else { high_byte(samples[i / 2]) },
    )
}

/// Encoding a sample and decoding the pair again yields the sample, and the
/// other way round: a byte pair survives decoding and re-encoding unchanged.
pub proof fn lemma_pair_round_trip(lo: u8, hi: u8, s: i16)
    ensures
        low_byte(sample_of_pair(lo, hi)) == lo,
        high_byte(sample_of_pair(lo, hi)) == hi,
        sample_of_pair(low_byte(s), high_byte(s)) == s,
{
    assert(((((lo as u16) | ((hi as u16) << 8)) as i16 as u16) & 0xff) as u8 == lo)
        by (bit_vector);
    assert((((((lo as u16) | ((hi as u16) << 8)) as i16 as u16) >> 8) & 0xff) as u8 == hi)
        by (bit_vector);
    assert((((((s as u16) & 0xff) as u8) as u16)
        | ((((((s as u16) >> 8) & 0xff) as u8) as u16) << 8)) as i16 == s) by (bit_vector);
}

/// Decoding a well-formed (even-length) PCM byte stream and encoding the
/// samples again is a byte-exact round trip.
pub proof fn lemma_pcm_round_trip(bytes: Seq<u8>)
    requires
        bytes.len() % 2 == 0,
    ensures
        pcm_encode(pcm_decode(bytes)) == bytes,
{
    let dec = pcm_decode(bytes);
    assert(pcm_encode(dec).len() == bytes.len());
    assert forall|i: int| 0 <= i < bytes.len() implies pcm_encode(dec)[i] == bytes[i] by {
        let j = i / 2;
        assert(i == 2 * j + i % 2) by {
            vstd::arithmetic::div_mod::lemma_fundamental_div_mod(i, 2);
        }
        lemma_pair_round_trip(bytes[2 * j], bytes[2 * j + 1], 0);
        if i % 2 == 0 {
            assert(pcm_encode(dec)[i] == low_byte(dec[j]));
        } else {
            assert(pcm_encode(dec)[i] == high_byte(dec[j]));
        }
    }
    assert(pcm_encode(pcm_decode(bytes)) =~= bytes);
}

/// Encoding any sample sequence and decoding the bytes again yields the same
/// sequence; in particular the encoding loses no sample.
pub proof fn lemma_sample_round_trip(samples: Seq<i16>)
    ensures
        pcm_decode(pcm_encode(samples)) == samples,
{
    let enc = pcm_encode(samples);
    assert(enc.len() == samples.len() * 2);
    assert(pcm_decode(enc).len() == samples.len());
    assert forall|i: int| 0 <= i < samples.len() implies pcm_decode(enc)[i] == samples[i] by {
        assert(enc[2 * i] == low_byte(samples[i]));
        assert(enc[2 * i + 1] == high_byte(samples[i]));
        lemma_pair_round_trip(0, 0, samples[i]);
    }
    assert(pcm_decode(pcm_encode(samples)) =~= samples);
}

/// Decode a raw PCM byte stream into its samples, in order. A trailing odd
/// byte encodes no sample and is ignored.
pub fn decode_pcm(bytes: &Vec<u8>) -> (samples: Vec<i16>)
    ensures
        samples@ == pcm_decode(bytes@),
        samples@.len() == bytes@.len() / 2,
{
    let m = bytes.len();
    let n = m / 2;
    proof {
        vstd::arithmetic::div_mod::lemma_fundamental_div_mod(m as int, 2);
    }
    let mut samples: Vec<i16> = Vec::new();
    let mut i: usize = 0;
    while i < n
        invariant
            i <= n,
            m == bytes@.len(),
            n == bytes@.len() / 2,
            2 * n <= m,
            samples@ =~= pcm_decode(bytes@).take(i as int),
        decreases n - i,
    {
        let lo = bytes[2 * i];
        let hi = bytes[2 * i + 1];
        let sample: i16 = #[verifier::truncate] (((lo as u16) | ((hi as u16) << 8)) as i16);
        samples.push(sample);
        i = i + 1;
    }
    assert(samples@ =~= pcm_decode(bytes@));
    samples
}

/// Encode samples back into the raw little-endian PCM byte stream.
pub fn encode_pcm(samples: &Vec<i16>) -> (bytes: Vec<u8>)
    requires
        samples@.len() * 2 <= usize::MAX,
    ensures
        bytes@ == pcm_encode(samples@),
{
    let n = samples.len();
    let mut bytes: Vec<u8> = Vec::new();
    let mut i: usize = 0;
    while i < n
        invariant
            i <= n,
            n == samples@.len(),
            n * 2 <= usize::MAX,
            bytes@ =~= pcm_encode(samples@).take(2 * i as int),
        decreases n - i,
    {
        let s = samples[i];
        let lo: u8 = ((s as u16) & 0xff) as u8;
        let hi: u8 = (((s as u16) >> 8) & 0xff) as u8;
        bytes.push(lo);
        bytes.push(hi);
        i = i + 1;
    }
    assert(bytes@ =~= pcm_encode(samples@));
    bytes
}

} // verus!
