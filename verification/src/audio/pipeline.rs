//! The pipeline: two captures, one mix, one output.

use vstd::prelude::*;

use crate::audio::mixer;
use crate::audio::mixer::RingBuffer;
use crate::audio::samples;

verus! {

/// Capacity of each capture buffer in bytes: two seconds of audio.
pub const BUFFER_CAPACITY: usize = 192000;

/// A stretch of the mix, and how loud it gets.
pub struct MixedChunk {
    pub data: Vec<u8>,
    pub peak: u16,
}

/// The samples of the mix of the next `n` bytes of two buffers.
pub open spec fn next_mix(mic: Seq<u8>, loopback: Seq<u8>, n: nat) -> Seq<int> {
    mixer::mixed(mixer::read_out(mic, n), mixer::read_out(loopback, n))
}

/// Takes the next `bytes_needed` bytes from both buffers and mixes them.
pub fn next_chunk(
    mic: &mut RingBuffer,
    loopback: &mut RingBuffer,
    bytes_needed: usize,
) -> (chunk: MixedChunk)
    requires
        bytes_needed <= isize::MAX,
    ensures
        final(mic).capacity() == old(mic).capacity(),
        final(mic)@ == mixer::after_read(old(mic)@, bytes_needed as nat),
        final(loopback).capacity() == old(loopback).capacity(),
        final(loopback)@ == mixer::after_read(old(loopback)@, bytes_needed as nat),
        chunk.data@ == samples::encode(next_mix(old(mic)@, old(loopback)@, bytes_needed as nat)),
        chunk.peak == mixer::peak_of(next_mix(old(mic)@, old(loopback)@, bytes_needed as nat)),
{
    let mic_data = mic.read(bytes_needed);
    let loop_data = loopback.read(bytes_needed);
    let data = mixer::mix_samples(mic_data.as_slice(), loop_data.as_slice());
    let peak: u16 = mixer::peak_i16(data.as_slice());
    proof {
        mixer::law_mix_is_clamped(mic_data@, loop_data@);
    }
    MixedChunk { data, peak }
}

/// A mix has as many bytes as were asked for, up to a whole number of samples.
pub proof fn law_mix_length(mic: Seq<u8>, loopback: Seq<u8>, n: nat)
    ensures
        samples::encode(next_mix(mic, loopback, n)).len() == n - n % 2,
{
}

/// A mix for whole frames fills the request: the render loop adds no silence of
/// its own.
pub proof fn law_mix_fills_request(mic: Seq<u8>, loopback: Seq<u8>, frames: nat)
    ensures
        samples::encode(next_mix(mic, loopback, 2 * frames)).len() == 2 * frames,
        mixer::padded(samples::encode(next_mix(mic, loopback, 2 * frames)), 2 * frames)
            == samples::encode(next_mix(mic, loopback, 2 * frames)),
{
}

/// While nothing is played, the mix is the sound of the microphone.
pub proof fn law_microphone_alone(mic: Seq<u8>, n: nat)
    ensures
        next_mix(mic, Seq::empty(), n) == samples::decode(mixer::read_out(mic, n)),
{
    assert(mixer::read_out(Seq::empty(), n) =~= mixer::silence(n));
    mixer::law_mix_with_silence(mixer::read_out(mic, n), n);
}

/// What two captures write to empty buffers comes out mixed, sample by sample
/// and in order.
pub proof fn law_captures_are_mixed(mic: Seq<u8>, loopback: Seq<u8>, capacity: nat)
    requires
        mic.len() == loopback.len() <= capacity,
    ensures
        next_mix(
            mixer::after_write(Seq::empty(), capacity, mic),
            mixer::after_write(Seq::empty(), capacity, loopback),
            mic.len(),
        ) == mixer::mixed(mic, loopback),
{
    mixer::law_write_then_read(Seq::empty(), capacity, mic);
    mixer::law_write_then_read(Seq::empty(), capacity, loopback);
    assert(Seq::<u8>::empty() + mic =~= mic);
    assert(Seq::<u8>::empty() + loopback =~= loopback);
}

/// Where both buffers have run dry, the mix is silence.
pub proof fn law_dry_buffers_are_silent(n: nat)
    ensures
        samples::encode(next_mix(Seq::empty(), Seq::empty(), n)) == mixer::silence(
            (n - n % 2) as nat,
        ),
        mixer::peak_of(next_mix(Seq::empty(), Seq::empty(), n)) == 0,
{
    let quiet = next_mix(Seq::empty(), Seq::empty(), n);
    assert(forall|i: int| 0 <= i < quiet.len() ==> #[trigger] quiet[i] == 0);
    assert(samples::encode(quiet) =~= mixer::silence((n - n % 2) as nat));
    mixer::law_peak_is_maximum(quiet);
}

/// The threads of a running pipeline, by their handles.
pub struct Pipeline<H> {
    stopped: bool,
    mic_thread: Option<H>,
    loopback_thread: Option<H>,
    render_thread: Option<H>,
}

/// The handle as a sequence: of one, or of none.
spec fn held<H>(handle: Option<H>) -> Seq<H> {
    match handle {
        Some(h) => seq![h],
        None => Seq::empty(),
    }
}

impl<H> Pipeline<H> {
    /// The threads that have not been waited for: microphone, loopback, render.
    pub closed spec fn threads(&self) -> Seq<H> {
        held(self.mic_thread) + held(self.loopback_thread) + held(self.render_thread)
    }

    /// No stop has been asked for.
    pub closed spec fn running(&self) -> bool {
        !self.stopped
    }

    /// Takes charge of the three threads of a pipeline that has been started.
    pub fn start(mic_thread: H, loopback_thread: H, render_thread: H) -> (pipeline: Self)
        ensures
            pipeline.running(),
            pipeline.threads() == seq![mic_thread, loopback_thread, render_thread],
    {
        let pipeline = Pipeline {
            stopped: false,
            mic_thread: Some(mic_thread),
            loopback_thread: Some(loopback_thread),
            render_thread: Some(render_thread),
        };
        assert(pipeline.threads() =~= seq![mic_thread, loopback_thread, render_thread]);
        pipeline
    }

    /// Stops the pipeline, and hands out the threads that are still to be
    /// waited for.
    pub fn stop(&mut self) -> (to_join: Vec<H>)
        ensures
            to_join@ == old(self).threads(),
            final(self).threads() == Seq::<H>::empty(),
            !final(self).running(),
    {
        self.stopped = true;
        let mut to_join: Vec<H> = Vec::new();
        if let Some(h) = self.mic_thread.take() {
            to_join.push(h);
        }
        if let Some(h) = self.loopback_thread.take() {
            to_join.push(h);
        }
        if let Some(h) = self.render_thread.take() {
            to_join.push(h);
        }
        assert(to_join@ =~= old(self).threads());
        assert(self.threads() =~= Seq::<H>::empty());
        to_join
    }

    /// Whether the pipeline runs.
    pub fn is_running(&self) -> (yes: bool)
        ensures
            yes == self.running(),
    {
        !self.stopped
    }
}

/// The byte at index `k` of what a buffer holds, or zero past the end.
pub open spec fn byte_or_zero(held: Seq<u8>, k: int) -> u8 {
    if k < held.len() {
        held[k]
    } else {
        0
    }
}

/// The next chunk is the sum of what comes next from the two buffers, sample by
/// sample: exactly where the sum is a 16-bit value, and otherwise the end of the
/// range.  A buffer that runs dry goes on in zeros.
pub proof fn law_next_mix_is_the_sum(
    mic: Seq<u8>,
    loopback: Seq<u8>,
    n: nat,
    i: int,
    a: int,
    b: int,
)
    requires
        0 <= i,
        2 * i + 1 < n,
        mixer::stands_for(byte_or_zero(mic, 2 * i), byte_or_zero(mic, 2 * i + 1), a),
        mixer::stands_for(byte_or_zero(loopback, 2 * i), byte_or_zero(loopback, 2 * i + 1), b),
    ensures
        next_mix(mic, loopback, n).len() == n / 2,
        -32768 <= a + b <= 32767 ==> next_mix(mic, loopback, n)[i] == a + b,
        a + b < -32768 ==> next_mix(mic, loopback, n)[i] == -32768,
        a + b > 32767 ==> next_mix(mic, loopback, n)[i] == 32767,
{
    let m = mixer::read_out(mic, n);
    let l = mixer::read_out(loopback, n);
    assert(m.len() == n && l.len() == n);
    assert(m[2 * i] == byte_or_zero(mic, 2 * i) && m[2 * i + 1] == byte_or_zero(mic, 2 * i + 1));
    assert(l[2 * i] == byte_or_zero(loopback, 2 * i) && l[2 * i + 1] == byte_or_zero(
        loopback,
        2 * i + 1,
    ));
    mixer::law_mix_is_the_sum(m, l, samples::encode(mixer::mixed(m, l)), i, a, b);
    mixer::law_mix_is_clamped(m, l);
}

} // verus!
