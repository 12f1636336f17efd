//! Signed 16-bit little-endian samples and the byte strings that carry them.

use vstd::prelude::*;

verus! {

/// The range of a signed 16-bit sample.
pub open spec fn is_sample(v: int) -> bool {
    -32768 <= v <= 32767
}

/// `v` moved to the nearest value that a 16-bit sample can hold.
pub open spec fn clamp_sample(v: int) -> int {
    if v < -32768 {
        -32768
    } else if v > 32767 {
        32767
    } else {
        v
    }
}

/// The sample whose low byte is `lo` and whose high byte is `hi`.
pub open spec fn sample_of(lo: u8, hi: u8) -> int {
    if hi < 128 {
        lo + 256 * hi
    } else {
        lo + 256 * hi - 65536
    }
}

/// The sample at index `i`, or silence where `bytes` holds no whole sample there.
pub open spec fn sample_at(bytes: Seq<u8>, i: int) -> int {
    if 0 <= i && 2 * i + 1 < bytes.len() {
        sample_of(bytes[2 * i], bytes[2 * i + 1])
    } else {
        0
    }
}

/// All whole samples in `bytes`; an odd trailing byte is ignored.
pub open spec fn decode(bytes: Seq<u8>) -> Seq<int> {
    Seq::new(bytes.len() / 2, |i: int| sample_at(bytes, i))
}

/// The low byte of a sample.
pub open spec fn low_byte(v: int) -> u8 {
    (v % 256) as u8
}

/// The high byte of a sample, in two's complement.
pub open spec fn high_byte(v: int) -> u8 {
    ((v / 256) % 256) as u8
}

/// The little-endian bytes of a sequence of samples.
pub open spec fn encode(samples: Seq<int>) -> Seq<u8> {
    Seq::new(
        2 * samples.len(),
        |j: int| if j % 2 == 0 { low_byte(samples[j / 2]) } else { high_byte(samples[j / 2]) },
    )
}

/// Every element fits a 16-bit sample.
pub open spec fn all_samples(samples: Seq<int>) -> bool {
    forall|i: int| 0 <= i < samples.len() ==> is_sample(#[trigger] samples[i])
}

/// Decoding gives back the samples that were encoded.
pub proof fn law_decode_encode(samples: Seq<int>)
    requires
        all_samples(samples),
    ensures
        decode(encode(samples)) == samples,
{
    let bytes = encode(samples);
    assert forall|i: int| 0 <= i < samples.len() implies sample_at(bytes, i) == samples[i] by {
        assert(is_sample(samples[i]));
        assert((2 * i) / 2 == i && (2 * i + 1) / 2 == i);
    }
    assert(decode(bytes) =~= samples);
}

/// Encoding gives back the bytes that were decoded, as long as no byte was left over.
pub proof fn law_encode_decode(bytes: Seq<u8>)
    requires
        bytes.len() % 2 == 0,
    ensures
        encode(decode(bytes)) == bytes,
        all_samples(decode(bytes)),
{
    let samples = decode(bytes);
    assert forall|j: int| 0 <= j < bytes.len() implies encode(samples)[j] == bytes[j] by {
        assert(samples[j / 2] == sample_of(bytes[2 * (j / 2)], bytes[2 * (j / 2) + 1]));
    }
    assert(encode(samples) =~= bytes);
}

/// One more sample at the end is two more bytes at the end.
pub proof fn lemma_encode_push(samples: Seq<int>, v: int)
    ensures
        encode(samples.push(v)) == encode(samples).push(low_byte(v)).push(high_byte(v)),
{
    assert(encode(samples.push(v)) =~= encode(samples).push(low_byte(v)).push(high_byte(v)));
}

/// A whole frame lies inside the samples.
pub proof fn lemma_frame_fits(len: nat, channels: nat, frame: nat)
    requires
        0 < channels,
        frame < len / channels,
    ensures
        frame * channels + channels <= len,
{
    assert(frame * channels + channels == (frame + 1) * channels) by (nonlinear_arith);
    assert((frame + 1) * channels <= (len / channels) * channels) by (nonlinear_arith)
        requires
            frame + 1 <= len / channels,
    ;
    vstd::arithmetic::div_mod::lemma_fundamental_div_mod(len as int, channels as int);
    assert((len / channels) * channels == channels * (len / channels)) by (nonlinear_arith);
}

/// Reads one sample from its two bytes.
pub fn sample_from_bytes(lo: u8, hi: u8) -> (v: i16)
    ensures
        v == sample_of(lo, hi),
{
    let unsigned: i32 = lo as i32 + 256 * (hi as i32);
    if hi < 128 {
        unsigned as i16
    } else {
        (unsigned - 65536) as i16
    }
}

/// Reads the sample at index `i`, or silence past the end.
pub fn read_sample(bytes: &[u8], i: usize) -> (v: i16)
    requires
        2 * i + 1 <= usize::MAX,
    ensures
        v == sample_at(bytes@, i as int),
{
    if 2 * i + 1 < bytes.len() {
        sample_from_bytes(bytes[2 * i], bytes[2 * i + 1])
    } else {
        0
    }
}

/// Appends the bytes of one sample.
pub fn push_sample(bytes: &mut Vec<u8>, v: i16)
    ensures
        final(bytes)@ == old(bytes)@.push(low_byte(v as int)).push(high_byte(v as int)),
{
    let unsigned: u32 = if v < 0 {
        (v as i32 + 65536) as u32
    } else {
        v as u32
    };
    let lo: u8 = (unsigned % 256) as u8;
    let hi: u8 = (unsigned / 256) as u8;
    assert(lo == low_byte(v as int) && hi == high_byte(v as int));
    bytes.push(lo);
    bytes.push(hi);
}

/// The sum of all elements.
pub open spec fn total(s: Seq<int>) -> int {
    s.fold_left(0int, |a: int, b: int| a + b)
}

/// Nothing adds up to zero, and one more element adds itself.
pub proof fn law_total_adds_up(s: Seq<int>, x: int)
    ensures
        total(Seq::empty()) == 0,
        total(s.push(x)) == total(s) + x,
{
    reveal(Seq::fold_left);
    assert(s.push(x).drop_last() =~= s);
}

/// Samples lie two bytes apart, low byte first, in two's complement: each is the
/// one value of the range that its bytes stand for.  Past the end there is
/// silence.
pub proof fn law_samples_are_little_endian(bytes: Seq<u8>, i: int)
    requires
        0 <= i,
    ensures
        decode(bytes).len() == bytes.len() / 2,
        2 * i + 1 < bytes.len() ==> decode(bytes)[i] == sample_at(bytes, i),
        2 * i + 1 < bytes.len() ==> -32768 <= sample_at(bytes, i) <= 32767,
        2 * i + 1 < bytes.len() ==> {
            let raw = bytes[2 * i] + 256 * bytes[2 * i + 1];
            sample_at(bytes, i) == raw || sample_at(bytes, i) == raw - 65536
        },
        2 * i + 1 >= bytes.len() ==> sample_at(bytes, i) == 0,
{
}

/// The bytes of a sample are the low one and then the high one.
pub proof fn law_bytes_are_little_endian(samples: Seq<int>, i: int)
    requires
        0 <= i < samples.len(),
        -32768 <= samples[i] <= 32767,
    ensures
        encode(samples).len() == 2 * samples.len(),
        ({
            let raw = encode(samples)[2 * i] + 256 * encode(samples)[2 * i + 1];
            raw == samples[i] || raw == samples[i] + 65536
        }),
{
    assert((2 * i) / 2 == i && (2 * i + 1) / 2 == i);
}

/// What lies in the range stays, and what lies outside moves to its end.
pub proof fn law_clamp(v: int)
    ensures
        -32768 <= v <= 32767 ==> clamp_sample(v) == v && is_sample(v),
        v < -32768 ==> clamp_sample(v) == -32768 && !is_sample(v),
        v > 32767 ==> clamp_sample(v) == 32767 && !is_sample(v),
{
}

} // verus!
