//! Audio mixing: a ring buffer for captured bytes, and sample mixing with
//! clamping.

use std::sync::{Arc, Mutex};

use vstd::prelude::*;
use vstd::arithmetic::power2::*;

use crate::audio::samples;
use crate::audio::single;

verus! {

/// Frames per second of the mix: 48 kHz, mono, 16 bits per sample.
pub const SAMPLE_RATE: u32 = 48000;

/// Channels of the mix.
pub const CHANNELS: u16 = 1;

/// Bits in one sample of the mix.
pub const BITS_PER_SAMPLE: u16 = 16;

/// Bytes in one sample of the mix.
pub const BYTES_PER_SAMPLE: usize = 2;

/// Frames in one chunk.
pub const CHUNK_FRAMES: usize = 1024;

/// Bytes in one chunk.
pub const CHUNK_BYTES: usize = 2048;

/// The last `n` elements of `s`, or all of them if there are fewer.
pub open spec fn newest(s: Seq<u8>, n: nat) -> Seq<u8> {
    if s.len() <= n {
        s
    } else {
        s.skip(s.len() - n)
    }
}

/// `n` bytes of silence.
pub open spec fn silence(n: nat) -> Seq<u8> {
    Seq::new(n, |i: int| 0u8)
}

/// `data`, followed by silence where it is shorter than `n` bytes.
pub open spec fn padded(data: Seq<u8>, n: nat) -> Seq<u8> {
    if data.len() < n {
        data + silence((n - data.len()) as nat)
    } else {
        data
    }
}

/// What a buffer of the given capacity holds once `data` has been written to
/// it: of everything written so far, the newest bytes that fit.
pub open spec fn after_write(held: Seq<u8>, capacity: nat, data: Seq<u8>) -> Seq<u8> {
    newest(held + data, capacity)
}

/// What a read of `n` bytes hands out: the oldest bytes held, then silence.
pub open spec fn read_out(held: Seq<u8>, n: nat) -> Seq<u8> {
    if n <= held.len() {
        held.take(n as int)
    } else {
        held + silence((n - held.len()) as nat)
    }
}

/// What remains held after a read of `n` bytes.
pub open spec fn after_read(held: Seq<u8>, n: nat) -> Seq<u8> {
    if n <= held.len() {
        held.skip(n as int)
    } else {
        Seq::empty()
    }
}

/// The index `offset` places after `start` in a ring of `capacity` slots.
spec fn slot(start: int, offset: int, capacity: int) -> int {
    if start + offset < capacity {
        start + offset
    } else {
        start + offset - capacity
    }
}

proof fn lemma_mod_once(x: int, c: int)
    requires
        0 < c,
        0 <= x < 2 * c,
    ensures
        x % c == (if x < c { x } else { x - c }),
{
    if x < c {
        vstd::arithmetic::div_mod::lemma_small_mod(x as nat, c as nat);
    } else {
        vstd::arithmetic::div_mod::lemma_small_mod((x - c) as nat, c as nat);
        vstd::arithmetic::div_mod::lemma_mod_add_multiples_vanish(x - c, c);
    }
}

/// Overwrites `buf[at..]` with `data[from..to]`.
fn copy_into(buf: &mut Vec<u8>, at: usize, data: &[u8], from: usize, to: usize)
    requires
        from <= to <= data@.len(),
        at + (to - from) <= old(buf)@.len(),
    ensures
        final(buf)@ == Seq::new(
            old(buf)@.len(),
            |k: int| if at <= k < at + (to - from) { data@[from + (k - at)] } else { old(buf)@[k] },
        ),
    no_unwind
{
    let ghost start = buf@;
    let len: usize = buf.len();
    let mut i: usize = from;
    while i < to
        invariant
            from <= i <= to <= data@.len(),
            start.len() == len,
            at + (to - from) <= len,
            buf@ =~= Seq::new(
                start.len(),
                |k: int| if at <= k < at + (i - from) { data@[from + (k - at)] } else { start[k] },
            ),
        decreases to - i,
    {
        buf[at + (i - from)] = data[i];
        i = i + 1;
    }
}

/// Extends `data` with silence until it is at least `len` bytes long.
pub fn pad_with_silence(data: &mut Vec<u8>, len: usize)
    requires
        len <= isize::MAX,
    ensures
        final(data)@ == padded(old(data)@, len as nat),
{
    let ghost before = data@;
    if data.len() < len {
        data.resize(len, 0);
        assert forall|i: int| 0 <= i < len implies data@[i] == padded(before, len as nat)[i] by {
            if i < before.len() {
                assert(data@.subrange(0, before.len() as int)[i] == before[i]);
            } else {
                assert(cloned::<u8>(0u8, data@[i]));
            }
        }
        assert(data@ =~= padded(before, len as nat));
    }
}

/// A circular byte buffer for audio data.
///
/// Its view is what it holds, oldest byte first.
pub struct RingBuffer {
    buf: Vec<u8>,
    capacity: usize,
    write_pos: usize,
    size: usize,
}

impl View for RingBuffer {
    type V = Seq<u8>;

    closed spec fn view(&self) -> Seq<u8> {
        Seq::new(
            self.size as nat,
            |i: int| self.buf@[slot(self.read_pos(), i, self.capacity as int)],
        )
    }
}

impl RingBuffer {
    /// How many bytes the buffer can hold.
    pub closed spec fn capacity(&self) -> nat {
        self.capacity as nat
    }

    /// The position of the oldest byte held.
    spec fn read_pos(&self) -> int {
        if self.write_pos >= self.size {
            self.write_pos - self.size
        } else {
            self.write_pos + self.capacity - self.size
        }
    }

    /// The storage is as large as the capacity, the positions lie inside it, and
    /// no more is held than fits.  This is so of every buffer at all times.
    #[verifier::type_invariant]
    pub closed spec fn wf(&self) -> bool {
        &&& self.buf@.len() == self.capacity
        &&& self.capacity <= isize::MAX
        &&& self.size <= self.capacity
        &&& self.write_pos < self.capacity || self.write_pos == 0
    }

    /// A buffer never holds more than its capacity.
    pub proof fn law_bounded(&self)
        requires
            self.wf(),
        ensures
            self@.len() <= self.capacity(),
    {
    }

    /// Creates an empty ring buffer with the given capacity in bytes.
    pub fn new(capacity: usize) -> (buffer: Self)
        requires
            capacity <= isize::MAX,
        ensures
            buffer.capacity() == capacity,
            buffer@ == Seq::<u8>::empty(),
    {
        let buffer = RingBuffer { buf: vec![0u8; capacity], capacity, write_pos: 0, size: 0 };
        assert(buffer@ =~= Seq::<u8>::empty());
        buffer
    }

    /// Writes data into the buffer.  If the buffer is full, the oldest data is
    /// overwritten.
    pub fn write(&mut self, data: &[u8])
        ensures
            final(self).capacity() == old(self).capacity(),
            final(self)@ == after_write(old(self)@, old(self).capacity(), data@),
    {
        proof {
            use_type_invariant(&*self);
        }
        let n: usize = data.len();
        if n == 0 {
            assert(after_write(old(self)@, old(self).capacity(), data@) =~= old(self)@);
            return;
        }
        if n >= self.capacity {
            // Only the newest part of the data fits.
            let start: usize = n - self.capacity;
            copy_into(&mut self.buf, 0, data, start, n);
            self.write_pos = 0;
            self.size = self.capacity;
            assert(self@ =~= after_write(old(self)@, old(self).capacity(), data@));
            return;
        }
        let ghost before = *self;
        let end: usize = self.write_pos + n;
        if end <= self.capacity {
            copy_into(&mut self.buf, self.write_pos, data, 0, n);
        } else {
            let first: usize = self.capacity - self.write_pos;
            copy_into(&mut self.buf, self.write_pos, data, 0, first);
            copy_into(&mut self.buf, 0, data, first, n);
        }
        assert forall|j: int| 0 <= j < n implies self.buf@[slot(
            before.write_pos as int,
            j,
            before.capacity as int,
        )] == data@[j] by {}
        assert forall|k: int|
            0 <= k < before.capacity && (forall|j: int|
                0 <= j < n ==> slot(before.write_pos as int, j, before.capacity as int)
                    != k) implies self.buf@[k] == before.buf@[k] by {
            if before.write_pos <= k < before.write_pos + n {
                assert(slot(before.write_pos as int, k - before.write_pos, before.capacity as int)
                    == k);
            } else if k + before.capacity < before.write_pos + n {
                assert(slot(
                    before.write_pos as int,
                    k + before.capacity - before.write_pos,
                    before.capacity as int,
                ) == k);
            }
        }
        proof {
            lemma_mod_once(self.write_pos + n, self.capacity as int);
        }
        self.write_pos = (self.write_pos + n) % self.capacity;
        self.size = if self.capacity - self.size < n { self.capacity } else { self.size + n };
        proof {
            let expected = after_write(before@, before.capacity(), data@);
            assert(self@.len() == expected.len());
            assert forall|i: int| 0 <= i < self@.len() implies self@[i] == expected[i] by {
                let all = before@ + data@;
                let dropped = all.len() - self@.len();
                let c = before.capacity as int;
                assert(expected[i] == all[i + dropped]);
                let here = slot(self.read_pos(), i, c);
                if i + dropped >= before@.len() {
                    let j = i + dropped - before@.len();
                    assert(here == slot(before.write_pos as int, j, c));
                } else {
                    assert(here == slot(before.read_pos(), i + dropped, c));
                    assert(before@[i + dropped] == before.buf@[here]);
                }
            }
            assert(self@ =~= expected);
        }
    }

    /// Reads `nbytes` from the buffer, oldest first.  Pads with silence (zeros)
    /// if the buffer does not hold that many.
    pub fn read(&mut self, nbytes: usize) -> (result: Vec<u8>)
        requires
            nbytes <= isize::MAX,
        ensures
            final(self).capacity() == old(self).capacity(),
            result@ == read_out(old(self)@, nbytes as nat),
            final(self)@ == after_read(old(self)@, nbytes as nat),
    {
        proof {
            use_type_invariant(&*self);
        }
        let available: usize = if nbytes < self.size { nbytes } else { self.size };
        if available == 0 {
            let result = vec![0u8; nbytes];
            assert(result@ =~= read_out(old(self)@, nbytes as nat));
            assert(self@ =~= after_read(old(self)@, nbytes as nat));
            return result;
        }
        proof {
            lemma_mod_once(self.write_pos + self.capacity - self.size, self.capacity as int);
        }
        let read_pos: usize = (self.write_pos + self.capacity - self.size) % self.capacity;
        let mut result: Vec<u8> = Vec::with_capacity(nbytes);
        let mut i: usize = 0;
        while i < available
            invariant
                self == old(self),
                self.wf(),
                0 < available <= self.size,
                read_pos == self.read_pos(),
                i <= available,
                result@ =~= self@.take(i as int),
            decreases available - i,
        {
            let at: usize = if read_pos + i < self.capacity {
                read_pos + i
            } else {
                read_pos + i - self.capacity
            };
            result.push(self.buf[at]);
            i = i + 1;
        }
        self.size = self.size - available;
        // Pad with silence if there was not enough data.
        pad_with_silence(&mut result, nbytes);
        assert(result@ =~= read_out(old(self)@, nbytes as nat));
        assert(self@ =~= after_read(old(self)@, nbytes as nat));
        result
    }
}

/// The standard library's lock.
#[verifier::external_type_specification]
#[verifier::external_body]
#[verifier::reject_recursive_types(T)]
pub struct ExMutex<T: ?Sized>(std::sync::Mutex<T>);

/// What the buffer behind a lock held, how much it could hold, and whether it
/// was well-formed, when the lock was made.
pub uninterp spec fn initially_behind(lock: Mutex<RingBuffer>) -> (Seq<u8>, nat, bool);

/// Puts a ring buffer behind a lock with `std::sync::Mutex::new`, which keeps
/// the buffer it is given.  What the buffer holds later depends on who takes
/// the lock, so nothing is claimed about that.
#[verifier::external_body]
fn behind_lock(buffer: RingBuffer) -> (lock: Mutex<RingBuffer>)
    requires
        buffer.wf(),
    ensures
        initially_behind(lock) == (buffer@, buffer.capacity(), buffer.wf()),
{
    Mutex::new(buffer)
}

/// Creates an empty, well-formed ring buffer of the given capacity that several
/// threads can share.
pub fn new_shared_buffer(capacity: usize) -> (shared: Arc<Mutex<RingBuffer>>)
    requires
        capacity <= isize::MAX,
    ensures
        initially_behind(*shared) == (Seq::<u8>::empty(), capacity as nat, true),
{
    let buffer = RingBuffer::new(capacity);
    proof {
        use_type_invariant(&buffer);
    }
    Arc::new(behind_lock(buffer))
}

/// The samples of the mix of two byte buffers: sample by sample the clamped
/// sum, the shorter buffer continued with silence.
pub open spec fn mixed(mic: Seq<u8>, loopback: Seq<u8>) -> Seq<int> {
    let len = if mic.len() < loopback.len() { loopback.len() } else { mic.len() };
    Seq::new(
        len / 2,
        |i: int|
            samples::clamp_sample(samples::sample_at(mic, i) + samples::sample_at(loopback, i)),
    )
}

/// Mixes two mono 16-bit audio buffers by summing samples and clamping.
pub fn mix_samples(mic: &[u8], loopback: &[u8]) -> (output: Vec<u8>)
    ensures
        output@ == samples::encode(mixed(mic@, loopback@)),
{
    let max_len: usize = if mic.len() < loopback.len() { loopback.len() } else { mic.len() };
    let sample_count: usize = max_len / BYTES_PER_SAMPLE;
    let ghost expected = mixed(mic@, loopback@);
    let mut output: Vec<u8> = Vec::with_capacity(sample_count * BYTES_PER_SAMPLE);
    assert(output@ =~= samples::encode(expected.take(0)));
    let mut i: usize = 0;
    while i < sample_count
        invariant
            i <= sample_count == expected.len(),
            2 * sample_count <= usize::MAX,
            expected == mixed(mic@, loopback@),
            output@ == samples::encode(expected.take(i as int)),
        decreases sample_count - i,
    {
        let mic_sample: i16 = samples::read_sample(mic, i);
        let loop_sample: i16 = samples::read_sample(loopback, i);
        // Summed in a wider type so that the sum itself cannot overflow.
        let sum: i32 = mic_sample as i32 + loop_sample as i32;
        let mono: i16 = if sum < -32768 {
            -32768
        } else if sum > 32767 {
            32767
        } else {
            sum as i16
        };
        proof {
            samples::lemma_encode_push(expected.take(i as int), mono as int);
            assert(expected.take(i + 1) =~= expected.take(i as int).push(mono as int));
        }
        samples::push_sample(&mut output, mono);
        i = i + 1;
    }
    assert(expected.take(sample_count as int) =~= expected);
    output
}

/// Interleaved single-precision samples averaged over the channels of each
/// whole frame and brought to 16 bits.
pub open spec fn mono_of_singles(s: Seq<single::Value>, channels: nat) -> Seq<int> {
    Seq::new(
        s.len() / channels,
        |frame: int|
            single::sample_of_value(
                single::divided(single::sum_from(s, frame * channels, channels), channels),
            ),
    )
}

/// Converts single-precision audio bytes of any channel count, full scale from
/// -1.0 to 1.0, to mono 16-bit bytes, by averaging the channels of each frame.
pub fn convert_f32_to_mono_i16(data: &[u8], channels: u16) -> (output: Vec<u8>)
    requires
        channels > 0,
    ensures
        output@ == samples::encode(mono_of_singles(single::decode(data@), channels as nat)),
{
    let number_count: usize = data.len() / 4;
    let width: usize = channels as usize;
    let frame_count: usize = number_count / width;
    let ghost all = single::decode(data@);
    let ghost expected = mono_of_singles(all, channels as nat);
    let mut output: Vec<u8> = Vec::new();
    assert(output@ =~= samples::encode(expected.take(0)));
    let mut frame: usize = 0;
    while frame < frame_count
        invariant
            width == channels > 0,
            number_count == data@.len() / 4,
            frame_count == number_count / width,
            frame <= frame_count == expected.len(),
            all == single::decode(data@),
            expected == mono_of_singles(all, channels as nat),
            output@ == samples::encode(expected.take(frame as int)),
        decreases frame_count - frame,
    {
        proof {
            samples::lemma_frame_fits(number_count as nat, width as nat, frame as nat);
        }
        let base: usize = frame * width;
        let mut sum: single::Single = single::Single::Finite {
            negative: false,
            significand: 0,
            exponent: 0,
        };
        proof {
            assert(0nat * pow2(0) == 0) by (nonlinear_arith);
        }
        let mut ch: usize = 0;
        while ch < width
            invariant
                ch <= width,
                base + width <= number_count,
                number_count == data@.len() / 4,
                all == single::decode(data@),
                sum.wf(),
                sum@ == single::sum_from(all, base as int, ch as nat),
            decreases width - ch,
        {
            sum = single::plus(sum, single::read_single(data, base + ch));
            ch = ch + 1;
        }
        let mono: i16 = single::to_sample(single::divide(sum, channels));
        proof {
            samples::lemma_encode_push(expected.take(frame as int), mono as int);
            assert(expected.take(frame + 1) =~= expected.take(frame as int).push(mono as int));
        }
        samples::push_sample(&mut output, mono);
        frame = frame + 1;
    }
    assert(expected.take(frame_count as int) =~= expected);
    output
}

/// The distance of `v` from zero.
pub open spec fn magnitude(v: int) -> nat {
    if v < 0 {
        (-v) as nat
    } else {
        v as nat
    }
}

/// The largest magnitude among the samples; zero where there are none.
pub open spec fn peak_of(s: Seq<int>) -> nat
    decreases s.len(),
{
    if s.len() == 0 {
        0
    } else {
        let rest = peak_of(s.drop_last());
        let last = magnitude(s.last());
        if rest < last {
            last
        } else {
            rest
        }
    }
}

/// The peak amplitude of a mono 16-bit audio buffer, from 0 to 32768.
pub fn peak_i16(data: &[u8]) -> (peak: u16)
    ensures
        peak == peak_of(samples::decode(data@)),
        peak <= 32768,
{
    let sample_count: usize = data.len() / BYTES_PER_SAMPLE;
    let ghost all = samples::decode(data@);
    let mut peak: u16 = 0;
    let mut i: usize = 0;
    assert(all.take(0).len() == 0);
    while i < sample_count
        invariant
            i <= sample_count == all.len(),
            2 * sample_count <= usize::MAX,
            all == samples::decode(data@),
            peak == peak_of(all.take(i as int)),
            peak <= 32768,
        decreases sample_count - i,
    {
        let v: i32 = samples::read_sample(data, i) as i32;
        let level: u16 = if v < 0 { (-v) as u16 } else { v as u16 };
        assert(all.take(i + 1).drop_last() =~= all.take(i as int));
        if peak < level {
            peak = level;
        }
        i = i + 1;
    }
    assert(all.take(sample_count as int) =~= all);
    peak
}

/// A write that fits on top of what is held is read back in order, after it.
pub proof fn law_write_then_read(held: Seq<u8>, capacity: nat, data: Seq<u8>)
    requires
        held.len() + data.len() <= capacity,
    ensures
        read_out(after_write(held, capacity, data), held.len() + data.len()) == held + data,
        after_read(after_write(held, capacity, data), held.len() + data.len()) == Seq::<
            u8,
        >::empty(),
{
    assert((held + data).take((held.len() + data.len()) as int) =~= held + data);
    assert((held + data).skip((held.len() + data.len()) as int) =~= Seq::<u8>::empty());
}

/// Writing in two pieces leaves the buffer as writing in one piece does.
pub proof fn law_writes_concatenate(
    held: Seq<u8>,
    capacity: nat,
    first: Seq<u8>,
    second: Seq<u8>,
)
    ensures
        after_write(after_write(held, capacity, first), capacity, second) == after_write(
            held,
            capacity,
            first + second,
        ),
{
    assert(after_write(after_write(held, capacity, first), capacity, second) =~= after_write(
        held,
        capacity,
        first + second,
    ));
}

/// Reading in two pieces hands out, and leaves behind, what reading in one
/// piece does.
pub proof fn law_reads_concatenate(held: Seq<u8>, first: nat, second: nat)
    ensures
        read_out(held, first) + read_out(after_read(held, first), second) == read_out(
            held,
            first + second,
        ),
        after_read(after_read(held, first), second) == after_read(held, first + second),
{
    assert(read_out(held, first) + read_out(after_read(held, first), second) =~= read_out(
        held,
        first + second,
    ));
    assert(after_read(after_read(held, first), second) =~= after_read(held, first + second));
}

/// A full buffer drops exactly as many of its oldest bytes as it must to take
/// the new ones.
pub proof fn law_overflow_drops_oldest(held: Seq<u8>, capacity: nat, data: Seq<u8>)
    requires
        held.len() <= capacity,
        data.len() <= capacity,
        held.len() + data.len() > capacity,
    ensures
        after_write(held, capacity, data) == held.skip(held.len() + data.len() - capacity) + data,
{
    assert(after_write(held, capacity, data) =~= held.skip(held.len() + data.len() - capacity)
        + data);
}

/// No write makes a buffer hold more than its capacity.
pub proof fn law_never_over_capacity(held: Seq<u8>, capacity: nat, data: Seq<u8>)
    ensures
        after_write(held, capacity, data).len() <= capacity,
{
}

/// A read hands out exactly as many bytes as were asked for.
pub proof fn law_read_length(held: Seq<u8>, n: nat)
    ensures
        read_out(held, n).len() == n,
{
}

/// It does not matter which of the two buffers is the microphone.
pub proof fn law_mix_commutes(mic: Seq<u8>, loopback: Seq<u8>)
    ensures
        mixed(mic, loopback) == mixed(loopback, mic),
{
    assert(mixed(mic, loopback) =~= mixed(loopback, mic));
}

/// Every mixed sample fits 16 bits, so the bytes of a mix decode to its samples.
pub proof fn law_mix_is_clamped(mic: Seq<u8>, loopback: Seq<u8>)
    ensures
        samples::all_samples(mixed(mic, loopback)),
        samples::decode(samples::encode(mixed(mic, loopback))) == mixed(mic, loopback),
{
    samples::law_decode_encode(mixed(mic, loopback));
}

/// Mixing with silence, or with nothing, changes no sample.
pub proof fn law_mix_with_silence(mic: Seq<u8>, n: nat)
    requires
        n <= mic.len(),
    ensures
        mixed(mic, silence(n)) == samples::decode(mic),
{
    assert(mixed(mic, silence(n)) =~= samples::decode(mic));
}

/// No sample is louder than the peak, and some sample is as loud unless there
/// are none.
pub proof fn law_peak_is_maximum(s: Seq<int>)
    ensures
        forall|i: int| 0 <= i < s.len() ==> magnitude(#[trigger] s[i]) <= peak_of(s),
        s.len() > 0 ==> exists|i: int|
            0 <= i < s.len() && magnitude(#[trigger] s[i]) == peak_of(s),
    decreases s.len(),
{
    if s.len() > 0 {
        let rest = s.drop_last();
        law_peak_is_maximum(rest);
        assert forall|i: int| 0 <= i < s.len() implies magnitude(#[trigger] s[i]) <= peak_of(
            s,
        ) by {
            if i < s.len() - 1 {
                assert(s[i] == rest[i]);
            }
        }
        if rest.len() > 0 && magnitude(s.last()) <= peak_of(rest) {
            let i = choose|i: int| 0 <= i < rest.len() && magnitude(#[trigger] rest[i]) == peak_of(
                rest,
            );
            assert(s[i] == rest[i]);
        } else {
            assert(magnitude(s[s.len() - 1]) == peak_of(s));
        }
    }
}

/// What the average of whole steps of 1/32768 becomes: their total divided by
/// their number, within one step; for up to 512 channels it is cut toward zero
/// exactly.  Full scale is not exceeded.
proof fn lemma_level_average(t: int, channels: nat)
    requires
        0 < channels,
        -0x100_0000 <= t <= 0x100_0000,
    ensures
        ({
            let m = single::sample_of_value(
                single::divided(single::Value::Finite(t * pow2(134)), channels),
            );
            &&& t >= 0 ==> 0 <= m && channels * m < t + channels && (channels * m > t - channels
                || m == 32767)
            &&& t <= 0 ==> m <= 0 && channels * m > t - channels && (channels * m < t + channels
                || m == -32768)
            &&& channels <= 512 && t >= 0 ==> channels * m <= t
            &&& channels <= 512 && t <= 0 ==> channels * m >= t
        }),
{
    let u = pow2(134);
    let n = channels;
    let k: nat = if t < 0 { (-t) as nat } else { t as nat };
    let q = k / n;
    let x = k * u;
    lemma_pow2_pos(134);
    vstd::arithmetic::div_mod::lemma_fundamental_div_mod(k as int, n as int);
    assert(n * q <= k < n * q + n);
    assert(q <= k) by (nonlinear_arith)
        requires
            n * q <= k,
            0 < n,
    ;
    let r = single::rounded(x, n);
    assert(single::distance(t * u) == x && (t * u < 0 <==> t < 0)) by (nonlinear_arith)
        requires
            x == k * u,
            k == (if t < 0 { -t } else { t }),
            0 < u,
    ;
    // From below.
    assert(q * u * n <= x && q * u * n * n <= x * n) by (nonlinear_arith)
        requires
            n * q <= k,
            x == k * u,
            0 < u,
            0 < n,
    ;
    single::law_short_numbers_are_exact(q, 134, n);
    single::law_rounding_keeps_order(q * u * n, n, x, n);
    // From above.
    lemma2_to64();
    lemma_pow2_adds(25, 134);
    lemma_pow2_adds(25, 252);
    lemma_pow2_strictly_increases(159, 277);
    assert(x * 1 <= (0x100_0000nat * u * n) * 1 && x * n <= (0x100_0000nat * u * n) * n)
        by (nonlinear_arith)
        requires
            x == k * u,
            k <= 0x100_0000,
            0 < u,
            0 < n,
    ;
    single::law_short_numbers_are_exact(0x100_0000, 134, n);
    single::law_rounding_keeps_order(x, n, 0x100_0000 * u * n, n);
    assert(r < pow2(277));
    let level = r / u;
    vstd::arithmetic::div_mod::lemma_fundamental_div_mod(r as int, u as int);
    assert(u * level <= r < u * level + u);
    assert(level >= q) by (nonlinear_arith)
        requires
            q * u <= r,
            r < u * level + u,
            0 < u,
    ;
    if k == n * q {
        assert(x == q * u * n) by (nonlinear_arith)
            requires
                x == k * u,
                k == n * q,
        ;
        assert(level == q) by (nonlinear_arith)
            requires
                r == q * u,
                u * level <= r < u * level + u,
                0 < u,
        ;
    }
    if q < 32768 {
        let next = (q + 1) as nat;
        assert(x <= next * u * n && x * n <= next * u * n * n) by (nonlinear_arith)
            requires
                k < n * q + n,
                next == q + 1,
                x == k * u,
                0 < u,
                0 < n,
        ;
        single::law_short_numbers_are_exact(next, 134, n);
        single::law_rounding_keeps_order(x, n, next * u * n, n);
        assert(level <= next) by (nonlinear_arith)
            requires
                r <= next * u,
                u * level <= r,
                0 < u,
        ;
        if n <= 512 {
            let w = pow2(125);
            let below = (512 * next - 1) as nat;
            lemma_pow2_adds(9, 125);
            lemma_pow2_pos(125);
            assert(n * next == n * q + n) by (nonlinear_arith)
                requires
                    next == q + 1,
            ;
            assert(512 * k <= below * n) by (nonlinear_arith)
                requires
                    k <= n * next - 1,
                    below == 512 * next - 1,
                    n <= 512,
            ;
            assert(x <= below * w * n && x * n <= below * w * n * n) by (nonlinear_arith)
                requires
                    512 * k <= below * n,
                    x == k * u,
                    u == 512 * w,
                    0 < w,
                    0 < n,
            ;
            single::law_short_numbers_are_exact(below, 125, n);
            single::law_rounding_keeps_order(x, n, below * w * n, n);
            assert(level <= q) by (nonlinear_arith)
                requires
                    r <= below * w,
                    below == 512 * next - 1,
                    next == q + 1,
                    u == 512 * w,
                    u * level <= r,
                    0 < w,
            ;
        }
    }
    assert(level * u <= r < (level + 1) * u) by (nonlinear_arith)
        requires
            u * level <= r < u * level + u,
    ;
    single::law_sample_steps(r as int, level as int);
    let v = single::divided(single::Value::Finite(t * u), n);
    assert(v == single::Value::Finite(if t < 0 { -(r as int) } else { r as int }));
    let m = single::sample_of_value(v);
    if q >= 32768 {
        assert(n * 32768 <= k) by (nonlinear_arith)
            requires
                n * q <= k,
                q >= 32768,
        ;
        assert(n * m == (if t < 0 { -32768 * (n as int) } else { 32767 * (n as int) })) by (nonlinear_arith)
            requires
                m == (if t < 0 { -32768int } else { 32767int }),
        ;
    } else {
        assert(n * (q + 1) == n * q + n) by (nonlinear_arith);
        assert(n * (-(q as int)) == -(n * q) && n * (-(q + 1)) == -(n * q) - n)
            by (nonlinear_arith);
        assert(level == q || level == q + 1);
        if k == 0 {
            assert(q == 0) by (nonlinear_arith)
                requires
                    n * q <= 0,
                    0 < n,
            ;
            assert(n * 0 == 0);
        } else if t >= 0 {
            assert(m == q || m == q + 1);
        } else {
            assert(m == -(q as int) || m == -(q + 1));
        }
    }
}

/// Converting keeps the order: where no channel of a frame of finite numbers
/// gets smaller, the mono sample does not either.  This holds for every channel
/// count.
pub proof fn law_float_mono_keeps_order(
    s: Seq<single::Value>,
    t: Seq<single::Value>,
    channels: nat,
    frame: nat,
)
    requires
        0 < channels,
        frame < s.len() / channels,
        frame < t.len() / channels,
        forall|i: int|
            #![trigger s[i]]
            #![trigger t[i]]
            frame * channels <= i < frame * channels + channels ==> s[i] is Finite && t[i] is Finite
                && s[i]->Finite_0 <= t[i]->Finite_0,
    ensures
        mono_of_singles(s, channels)[frame as int] <= mono_of_singles(t, channels)[frame as int],
{
    let base = (frame * channels) as int;
    single::lemma_sums_keep_order(s, t, base, base, channels);
    let a = single::sum_from(s, base, channels);
    let b = single::sum_from(t, base, channels);
    single::law_quotient_keeps_order(a, b, channels);
    single::law_sample_keeps_order(
        single::divided(a, channels),
        single::divided(b, channels),
    );
}

/// The mono sample of a frame is the average of its channels, each of which
/// counts the same.  The channels are pinned between whole steps of 1/32768,
/// `low` below and `high` above, and the sample lies between the averages of
/// those: within one step for every channel count, and cut toward zero exactly
/// for up to 512 channels.  It stays at full scale where an average exceeds it.
pub proof fn law_float_mono_is_average(
    s: Seq<single::Value>,
    channels: nat,
    frame: nat,
    low: Seq<int>,
    high: Seq<int>,
    bound: int,
)
    requires
        0 < channels,
        frame < s.len() / channels,
        low.len() == channels,
        high.len() == channels,
        0 <= bound,
        channels * bound <= 0x100_0000,
        forall|i: int|
            #![trigger low[i]]
            #![trigger high[i]]
            0 <= i < channels ==> {
                &&& -bound <= low[i]
                &&& high[i] <= bound
                &&& s[frame * channels + i] is Finite
                &&& low[i] * pow2(134) <= s[frame * channels + i]->Finite_0 <= high[i] * pow2(134)
            },
    ensures
        ({
            let m = mono_of_singles(s, channels)[frame as int];
            let least = samples::total(low);
            let most = samples::total(high);
            &&& -32768 <= m <= 32767
            &&& channels * m < most + channels || m == -32768
            &&& channels * m > least - channels || m == 32767
            &&& most >= 0 && channels <= 512 ==> channels * m <= most
            &&& least <= 0 && channels <= 512 ==> channels * m >= least
            &&& least >= 0 ==> m >= 0
            &&& most <= 0 ==> m <= 0
        }),
{
    let u = pow2(134);
    lemma_pow2_pos(134);
    let base = (frame * channels) as int;
    let n = channels;
    assert forall|i: int| 0 <= i < n implies low[i] <= bound && -bound <= high[i] && low[i] * u
        <= high[i] * u by {
        assert(low[i] <= high[i]) by (nonlinear_arith)
            requires
                low[i] * u <= high[i] * u,
                0 < u,
        ;
    }
    let a = Seq::new(n, |i: int| single::Value::Finite(low[i] * u));
    let b = Seq::new(n, |i: int| single::Value::Finite(high[i] * u));
    assert forall|i: int| 0 <= i < n implies #[trigger] a[0 + i] == single::Value::Finite(
        low[i] * u,
    ) by {}
    assert forall|i: int| 0 <= i < n implies #[trigger] b[0 + i] == single::Value::Finite(
        high[i] * u,
    ) by {}
    assert forall|i: int|
        #![trigger s[base + i]]
        0 <= i < n implies s[base + i] is Finite && a[0 + i]->Finite_0 <= s[base
        + i]->Finite_0 <= b[0 + i]->Finite_0 by {
        assert(low[i] * u <= s[frame * channels + i]->Finite_0);
    }
    single::lemma_sums_keep_order(a, s, 0, base, n);
    single::lemma_sums_keep_order(s, b, base, 0, n);
    single::lemma_short_sums_are_exact(a, 0, low, bound, 134, n);
    single::lemma_short_sums_are_exact(b, 0, high, bound, 134, n);
    assert(low.take(n as int) =~= low);
    assert(high.take(n as int) =~= high);
    let least = samples::total(low);
    let most = samples::total(high);
    let sum = single::sum_from(s, base, n);
    let va = single::Value::Finite(least * u);
    let vb = single::Value::Finite(most * u);
    single::law_quotient_keeps_order(va, sum, n);
    single::law_quotient_keeps_order(sum, vb, n);
    single::law_sample_keeps_order(single::divided(va, n), single::divided(sum, n));
    single::law_sample_keeps_order(single::divided(sum, n), single::divided(vb, n));
    lemma_level_average(least, n);
    lemma_level_average(most, n);
    let m = mono_of_singles(s, n)[frame as int];
    let ma = single::sample_of_value(single::divided(va, n));
    let mb = single::sample_of_value(single::divided(vb, n));
    single::law_sample_fits(single::divided(sum, n));
    assert(n * ma <= n * m <= n * mb) by (nonlinear_arith)
        requires
            ma <= m <= mb,
    ;
}

/// Channels that agree keep their value, and the mono sample of channels that
/// differ lies between theirs.  This holds for every channel count, as long as
/// the bounds are short enough that adding them up stays exact: `low * 2^e` and
/// `high * 2^f`, where that many times `low`, or `high`, has at most 24 bits.
pub proof fn law_float_mono_between_channels(
    s: Seq<single::Value>,
    channels: nat,
    frame: nat,
    low: int,
    e: nat,
    high: int,
    f: nat,
)
    requires
        0 < channels,
        frame < s.len() / channels,
        e <= 252,
        f <= 252,
        -0x100_0000 <= channels * low <= 0x100_0000,
        -0x100_0000 <= channels * high <= 0x100_0000,
        forall|i: int|
            frame * channels <= i < frame * channels + channels ==> #[trigger] s[i] is Finite && low
                * pow2(e) <= s[i]->Finite_0 <= high * pow2(f),
    ensures
        single::sample_of_value(single::Value::Finite(low * pow2(e))) <= mono_of_singles(
            s,
            channels,
        )[frame as int] <= single::sample_of_value(single::Value::Finite(high * pow2(f))),
{
    let base = (frame * channels) as int;
    let a = Seq::new(channels, |i: int| single::Value::Finite(low * pow2(e)));
    let b = Seq::new(channels, |i: int| single::Value::Finite(high * pow2(f)));
    assert forall|i: int|
        #![trigger s[base + i]]
        0 <= i < channels implies s[base + i] is Finite && a[0 + i]->Finite_0
        <= s[base + i]->Finite_0 <= b[0 + i]->Finite_0 by {}
    single::lemma_sums_keep_order(a, s, 0, base, channels);
    single::lemma_sums_keep_order(s, b, base, 0, channels);
    lemma_equal_channels(a, channels, low, e);
    lemma_equal_channels(b, channels, high, f);
    let sum = single::sum_from(s, base, channels);
    let va = single::sum_from(a, 0, channels);
    let vb = single::sum_from(b, 0, channels);
    single::law_quotient_keeps_order(va, sum, channels);
    single::law_quotient_keeps_order(sum, vb, channels);
    single::law_sample_keeps_order(single::divided(va, channels), single::divided(sum, channels));
    single::law_sample_keeps_order(single::divided(sum, channels), single::divided(vb, channels));
}

/// Equal short numbers add up to, and average to, what they are.
proof fn lemma_equal_channels(s: Seq<single::Value>, channels: nat, level: int, e: nat)
    requires
        0 < channels == s.len(),
        e <= 252,
        -0x100_0000 <= channels * level <= 0x100_0000,
        forall|i: int|
            0 <= i < channels ==> #[trigger] s[i] == single::Value::Finite(level * pow2(e)),
    ensures
        single::divided(single::sum_from(s, 0, channels), channels) == single::Value::Finite(
            level * pow2(e),
        ),
{
    let p = pow2(e);
    let n = channels;
    lemma_pow2_pos(e);
    let levels = Seq::new(n, |i: int| level);
    let bound = if level < 0 { -level } else { level };
    assert(n * bound <= 0x100_0000) by (nonlinear_arith)
        requires
            bound == (if level < 0 { -level } else { level }),
            -0x100_0000 <= n * level <= 0x100_0000,
    ;
    assert(bound <= n * bound) by (nonlinear_arith)
        requires
            0 < n,
            0 <= bound,
    ;
    assert forall|i: int| 0 <= i < n implies #[trigger] s[0 + i] == single::Value::Finite(
        levels[i] * p,
    ) by {}
    single::lemma_short_sums_are_exact(s, 0, levels, bound, e, n);
    lemma_total_equal(level, n);
    assert(levels.take(n as int) =~= levels);
    let t = n * level;
    single::law_short_numbers_are_exact(bound as nat, e, n);
    let x = single::distance(t * p);
    assert(x == bound * p * n && (t * p < 0 <==> level < 0)) by (nonlinear_arith)
        requires
            x == (if t * p < 0 { -(t * p) } else { t * p }),
            t == n * level,
            bound == (if level < 0 { -level } else { level }),
            0 < p,
            0 < n,
    ;
    assert(bound * p == (if level < 0 { -(level * p) } else { level * p })) by (nonlinear_arith)
        requires
            bound == (if level < 0 { -level } else { level }),
    ;
    lemma2_to64();
    lemma_pow2_adds(24, 252);
    lemma_pow2_strictly_increases(276, 277);
    if e < 252 {
        lemma_pow2_strictly_increases(e, 252);
    }
    assert(bound * p <= 0x100_0000 * pow2(252)) by (nonlinear_arith)
        requires
            0 <= bound <= 0x100_0000,
            0 < p <= pow2(252),
    ;
}

proof fn lemma_total_equal(level: int, n: nat)
    ensures
        samples::total(Seq::new(n, |i: int| level)) == n * level,
    decreases n,
{
    let all = Seq::new(n, |i: int| level);
    if n == 0 {
        assert(all =~= Seq::<int>::empty());
        samples::law_total_adds_up(all, 0);
        assert(0 * level == 0) by (nonlinear_arith);
    } else {
        let rest = Seq::new((n - 1) as nat, |i: int| level);
        lemma_total_equal(level, (n - 1) as nat);
        assert(all =~= rest.push(level));
        samples::law_total_adds_up(rest, level);
        assert((n - 1) * level == n * level - level) by (nonlinear_arith);
    }
}

/// The mono sample of a stereo frame lies between those of its two channels,
/// whatever finite numbers these are, as long as twice the larger one is finite.
pub proof fn law_stereo_between_channels(
    s: Seq<single::Value>,
    frame: nat,
    low: int,
    e: nat,
    high: int,
    f: nat,
)
    requires
        frame < s.len() / 2,
        e <= 252,
        f <= 252,
        -0x100_0000 < low < 0x100_0000,
        -0x100_0000 < high < 0x100_0000,
        low * pow2(e) <= high * pow2(f),
        (s[2 * frame + 0int] == single::Value::Finite(low * pow2(e)) && s[2 * frame + 1int]
            == single::Value::Finite(high * pow2(f))) || (s[2 * frame + 0int] == single::Value::Finite(
            high * pow2(f),
        ) && s[2 * frame + 1int] == single::Value::Finite(low * pow2(e))),
    ensures
        single::sample_of_value(single::Value::Finite(low * pow2(e))) <= mono_of_singles(
            s,
            2,
        )[frame as int] <= single::sample_of_value(single::Value::Finite(high * pow2(f))),
{
    let x = low * pow2(e);
    let y = high * pow2(f);
    let vx = single::Value::Finite(x);
    let vy = single::Value::Finite(y);
    let base = (frame * 2) as int;
    let first = s[base]->Finite_0;
    let second = s[base + 1]->Finite_0;
    assert(single::sum_from(s, base, 0) == single::Value::Finite(0));
    assert(single::sum_from(s, base, 1) == single::sum(single::Value::Finite(0), s[base]));
    assert(single::sum_from(s, base, 2) == single::sum(
        single::sum_from(s, base, 1),
        s[base + 1],
    ));
    lemma_short_is_finite(low, e);
    lemma_short_is_finite(high, f);
    single::law_sum_is_nearest(0, x, low, e);
    single::law_sum_is_nearest(0, y, high, f);
    assert(single::sum_from(s, base, 1) == s[base]);
    // Twice a short number is short.
    single::law_sum_is_nearest(x, x, low, e + 1);
    single::law_sum_is_nearest(y, y, high, f + 1);
    lemma_pow2_unfold(e + 1);
    lemma_pow2_unfold(f + 1);
    assert(low * (2 * pow2(e)) == x + x && high * (2 * pow2(f)) == y + y) by (nonlinear_arith)
        requires
            x == low * pow2(e),
            y == high * pow2(f),
    ;
    let sum = single::sum_from(s, base, 2);
    single::law_sum_keeps_order(vx, s[base], x, second);
    single::law_sum_keeps_order(s[base], vy, second, y);
    lemma_half_of_twice(low, e);
    lemma_half_of_twice(high, f);
    single::law_quotient_keeps_order(single::Value::Finite(x + x), sum, 2);
    single::law_quotient_keeps_order(sum, single::Value::Finite(y + y), 2);
    single::law_sample_keeps_order(vx, single::divided(sum, 2));
    single::law_sample_keeps_order(single::divided(sum, 2), vy);
}

proof fn lemma_short_is_finite(m: int, e: nat)
    requires
        -0x100_0000 < m < 0x100_0000,
        e <= 252,
    ensures
        -pow2(276) < m * pow2(e) < pow2(276),
        pow2(277) == 2 * pow2(276),
{
    let p = pow2(e);
    lemma_pow2_pos(e);
    lemma2_to64();
    lemma_pow2_adds(24, 252);
    lemma_pow2_unfold(277);
    if e < 252 {
        lemma_pow2_strictly_increases(e, 252);
    }
    assert(-0x100_0000 * pow2(252) < m * p < 0x100_0000 * pow2(252)) by (nonlinear_arith)
        requires
            -0x100_0000 < m < 0x100_0000,
            0 < p <= pow2(252),
    ;
}

proof fn lemma_half_of_twice(m: int, e: nat)
    requires
        -0x100_0000 < m < 0x100_0000,
        e <= 252,
    ensures
        single::divided(single::Value::Finite(m * pow2(e) + m * pow2(e)), 2)
            == single::Value::Finite(m * pow2(e)),
{
    let p = pow2(e);
    let x = m * p;
    let k: nat = if m < 0 { (-m) as nat } else { m as nat };
    lemma_pow2_pos(e);
    lemma_short_is_finite(m, e);
    single::law_short_numbers_are_exact(k, e, 2);
    assert(k * p == (if m < 0 { -x } else { x }) && (x < 0 <==> m < 0)) by (nonlinear_arith)
        requires
            x == m * p,
            k == (if m < 0 { -m } else { m }),
            0 < p,
    ;
    assert(single::distance(x + x) == k * p * 2);
}

/// A frame with a channel that is not a number, or with both infinities, is
/// silent; one with an infinity that nothing opposes is at full scale.
pub proof fn law_float_mono_of_special_channels(
    s: Seq<single::Value>,
    channels: nat,
    frame: nat,
    i: int,
    j: int,
)
    requires
        0 < channels,
        frame < s.len() / channels,
        frame * channels <= i < frame * channels + channels,
        frame * channels <= j < frame * channels + channels,
    ensures
        s[i] is NotANumber ==> mono_of_singles(s, channels)[frame as int] == 0,
        s[i] == single::Value::Infinity(false) && s[j] == single::Value::Infinity(true)
            ==> mono_of_singles(s, channels)[frame as int] == 0,
        s[i] == single::Value::Infinity(false) && (forall|k: int|
            frame * channels <= k < frame * channels + channels ==> single::at_most(
                single::Value::Finite(0),
                #[trigger] s[k],
            )) ==> mono_of_singles(s, channels)[frame as int] == 32767,
        s[i] == single::Value::Infinity(true) && (forall|k: int|
            frame * channels <= k < frame * channels + channels ==> single::at_most(
                #[trigger] s[k],
                single::Value::Finite(0),
            )) ==> mono_of_singles(s, channels)[frame as int] == -32768,
{
    lemma_special_sum(s, (frame * channels) as int, channels, i, j);
}

proof fn lemma_special_sum(s: Seq<single::Value>, from: int, n: nat, i: int, j: int)
    ensures
        from <= i < from + n && s[i] is NotANumber ==> single::sum_from(s, from, n) is NotANumber,
        from <= i < from + n && s[i] == single::Value::Infinity(false) ==> single::sum_from(
            s,
            from,
            n,
        ) != single::Value::Infinity(true) && !(single::sum_from(s, from, n) is Finite),
        from <= j < from + n && s[j] == single::Value::Infinity(true) ==> single::sum_from(
            s,
            from,
            n,
        ) != single::Value::Infinity(false) && !(single::sum_from(s, from, n) is Finite),
        (forall|k: int|
            from <= k < from + n ==> single::at_most(
                single::Value::Finite(0),
                #[trigger] s[k],
            )) ==> single::at_most(single::Value::Finite(0), single::sum_from(s, from, n)),
        (forall|k: int|
            from <= k < from + n ==> single::at_most(
                #[trigger] s[k],
                single::Value::Finite(0),
            )) ==> single::at_most(single::sum_from(s, from, n), single::Value::Finite(0)),
        from <= i < from + n && s[i] == single::Value::Infinity(true) ==> single::sum_from(
            s,
            from,
            n,
        ) != single::Value::Infinity(false) && !(single::sum_from(s, from, n) is Finite),
    decreases n,
{
    if n > 0 {
        lemma_special_sum(s, from, (n - 1) as nat, i, j);
        let last = s[from + n - 1];
        assert(single::rounded(0, 1) == 0);
        lemma_pow2_pos(277);
    }
}

/// There is one mono sample for each whole frame.
pub proof fn law_float_mono_length(s: Seq<single::Value>, channels: nat, frames: nat, rest: nat)
    requires
        s.len() == frames * channels + rest,
        rest < channels,
    ensures
        mono_of_singles(s, channels).len() == frames,
{
    assert(s.len() == channels * frames + rest) by (nonlinear_arith)
        requires
            s.len() == frames * channels + rest,
    ;
    vstd::arithmetic::div_mod::lemma_fundamental_div_mod_converse(
        s.len() as int,
        channels as int,
        frames as int,
        rest as int,
    );
}

/// `v` is the sample that two bytes stand for, low byte first.
pub open spec fn stands_for(lo: u8, hi: u8, v: int) -> bool {
    -32768 <= v <= 32767 && (v == lo + 256 * hi || v == lo + 256 * hi - 65536)
}

/// A mix is the sum, sample by sample: where the samples `a` and `b` of the two
/// buffers add up to a 16-bit value, the mixed sample is exactly that, and
/// otherwise it is the end of the range that the sum exceeds.  A buffer that
/// holds no whole sample there counts as silent.
pub proof fn law_mix_is_the_sum(
    mic: Seq<u8>,
    loopback: Seq<u8>,
    output: Seq<u8>,
    i: int,
    a: int,
    b: int,
)
    requires
        output == samples::encode(mixed(mic, loopback)),
        0 <= i,
        2 * i + 1 < mic.len() || 2 * i + 1 < loopback.len(),
        if 2 * i + 1 < mic.len() {
            stands_for(mic[2 * i], mic[2 * i + 1], a)
        } else {
            a == 0
        },
        if 2 * i + 1 < loopback.len() {
            stands_for(loopback[2 * i], loopback[2 * i + 1], b)
        } else {
            b == 0
        },
    ensures
        2 * i + 1 < output.len(),
        -32768 <= a + b <= 32767 ==> samples::decode(output)[i] == a + b,
        a + b < -32768 ==> samples::decode(output)[i] == -32768,
        a + b > 32767 ==> samples::decode(output)[i] == 32767,
        -32768 <= a + b <= 32767 ==> stands_for(output[2 * i], output[2 * i + 1], a + b),
        a + b < -32768 ==> stands_for(output[2 * i], output[2 * i + 1], -32768),
        a + b > 32767 ==> stands_for(output[2 * i], output[2 * i + 1], 32767),
{
    law_mix_is_clamped(mic, loopback);
    samples::law_bytes_are_little_endian(mixed(mic, loopback), i);
}

/// A mix is as long as the longer buffer, up to a whole number of samples.
pub proof fn law_mix_is_as_long_as_the_longer(mic: Seq<u8>, loopback: Seq<u8>)
    ensures
        ({
            let longer = if mic.len() < loopback.len() { loopback.len() } else { mic.len() };
            samples::encode(mixed(mic, loopback)).len() == longer - longer % 2
        }),
{
}

/// What a write leaves: all of the old and the new bytes where they fit, else
/// the newest of them, oldest first, and as many as fit.
pub proof fn law_write_keeps_the_newest(held: Seq<u8>, capacity: nat, data: Seq<u8>, i: int)
    requires
        0 <= i < after_write(held, capacity, data).len(),
    ensures
        ({
            let after = after_write(held, capacity, data);
            let all = held.len() + data.len();
            let from_end = after.len() - i;
            &&& after.len() == (if all <= capacity { all } else { capacity })
            &&& from_end <= data.len() ==> after[i] == data[data.len() - from_end]
            &&& from_end > data.len() ==> after[i] == held[all - from_end]
        }),
{
}

/// Writing nothing changes nothing, and an empty buffer without capacity stays
/// empty.
pub proof fn law_write_length(held: Seq<u8>, capacity: nat, data: Seq<u8>)
    requires
        held.len() <= capacity,
    ensures
        after_write(held, capacity, Seq::empty()) == held,
        after_write(held, capacity, data).len() == (if held.len() + data.len() <= capacity {
            held.len() + data.len()
        } else {
            capacity
        }),
{
    assert(after_write(held, capacity, Seq::empty()) =~= held);
}

/// A read hands out the oldest bytes in order and then zeros, and leaves the
/// bytes behind those it has handed out.
pub proof fn law_read_takes_the_oldest(held: Seq<u8>, n: nat, i: int)
    requires
        0 <= i,
    ensures
        read_out(held, n).len() == n,
        i < n && i < held.len() ==> read_out(held, n)[i] == held[i],
        held.len() <= i < n ==> read_out(held, n)[i] == 0,
        after_read(held, n).len() == (if n <= held.len() { held.len() - n } else { 0 }),
        i + n < held.len() ==> after_read(held, n)[i] == held[n + i],
{
}

/// Padding keeps what is there and continues it with zeros up to the length.
pub proof fn law_padding(data: Seq<u8>, n: nat, i: int)
    requires
        0 <= i,
    ensures
        padded(data, n).len() == (if data.len() < n { n } else { data.len() }),
        i < data.len() ==> padded(data, n)[i] == data[i],
        data.len() <= i < n ==> padded(data, n)[i] == 0,
        silence(n).len() == n,
        i < n ==> silence(n)[i] == 0,
{
}

/// The peak is the least level that no sample exceeds in either direction.
pub proof fn law_peak_bounds(s: Seq<int>)
    ensures
        forall|i: int| 0 <= i < s.len() ==> -(peak_of(s)) <= #[trigger] s[i] <= peak_of(s),
        s.len() == 0 ==> peak_of(s) == 0,
        s.len() > 0 ==> exists|i: int|
            0 <= i < s.len() && (#[trigger] s[i] == peak_of(s) || s[i] == -(peak_of(s))),
{
    law_peak_is_maximum(s);
    assert forall|i: int| 0 <= i < s.len() implies -(peak_of(s)) <= #[trigger] s[i] <= peak_of(
        s,
    ) by {
        assert(magnitude(s[i]) <= peak_of(s));
    }
    if s.len() > 0 {
        let i = choose|i: int| 0 <= i < s.len() && magnitude(#[trigger] s[i]) == peak_of(s);
        assert(s[i] == peak_of(s) || s[i] == -(peak_of(s)));
    }
}

/// A frame is converted in three steps, whatever its numbers are: `sums` adds
/// its channels one after the other, from zero, each time to the nearest number;
/// the last sum is divided by their count, and the quotient is cut to a sample.
pub proof fn law_float_mono_in_steps(
    s: Seq<single::Value>,
    channels: nat,
    frame: nat,
    sums: Seq<single::Value>,
)
    requires
        0 < channels,
        frame < s.len() / channels,
        sums.len() == channels + 1,
        sums[0] == single::Value::Finite(0),
        forall|i: int|
            0 <= i < channels ==> #[trigger] sums[i + 1] == single::sum(
                sums[i],
                s[frame * channels + i],
            ),
    ensures
        mono_of_singles(s, channels)[frame as int] == single::sample_of_value(
            single::divided(sums[channels as int], channels),
        ),
{
    lemma_running_sums(s, (frame * channels) as int, sums, channels);
}

proof fn lemma_running_sums(
    s: Seq<single::Value>,
    from: int,
    sums: Seq<single::Value>,
    n: nat,
)
    requires
        n < sums.len(),
        sums[0] == single::Value::Finite(0),
        forall|i: int| 0 <= i < n ==> #[trigger] sums[i + 1] == single::sum(sums[i], s[from + i]),
    ensures
        single::sum_from(s, from, n) == sums[n as int],
    decreases n,
{
    if n > 0 {
        lemma_running_sums(s, from, sums, (n - 1) as nat);
        assert(sums[(n - 1) + 1] == single::sum(sums[n - 1], s[from + (n - 1)]));
    }
}

} // verus!
