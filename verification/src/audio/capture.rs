//! Capture and render: bringing device audio into the mix's own format.

use vstd::prelude::*;

use crate::audio::devices;
use crate::audio::devices::Endpoint;
use crate::audio::mixer;
use crate::audio::mixer::SAMPLE_RATE;
use crate::audio::samples;
use crate::audio::single;
use crate::text;

verus! {

/// The sum of `n` elements of `s` from index `from` on.
pub open spec fn sum_from(s: Seq<int>, from: int, n: nat) -> int
    decreases n,
{
    if n == 0 {
        0
    } else {
        sum_from(s, from, (n - 1) as nat) + s[from + n - 1]
    }
}

/// The quotient of `a` and a positive `b`, rounded toward zero.
pub open spec fn quotient_toward_zero(a: int, b: int) -> int {
    if a < 0 {
        -((-a) / b)
    } else {
        a / b
    }
}

/// Interleaved samples averaged over the channels of each whole frame.
pub open spec fn mono_of(s: Seq<int>, channels: nat) -> Seq<int> {
    Seq::new(
        s.len() / channels,
        |frame: int|
            quotient_toward_zero(
                sum_from(s, frame * channels, channels),
                channels as int,
            ),
    )
}

/// A sum of `n` elements, each between `lo` and `hi`, lies between `n` times those.
pub proof fn lemma_sum_bounds(s: Seq<int>, from: int, n: nat, lo: int, hi: int)
    requires
        0 <= from,
        from + n <= s.len(),
        forall|i: int| from <= i < from + n ==> lo <= #[trigger] s[i] <= hi,
    ensures
        lo * n <= sum_from(s, from, n) <= hi * n,
    decreases n,
{
    if n == 0 {
        assert(lo * n == 0 && hi * n == 0) by (nonlinear_arith)
            requires
                n == 0,
        ;
    } else {
        lemma_sum_bounds(s, from, (n - 1) as nat, lo, hi);
        assert(lo * (n - 1) == lo * n - lo && hi * (n - 1) == hi * n - hi) by (nonlinear_arith);
        assert(lo <= s[from + n - 1] <= hi);
    }
}

/// An average lies between the bounds of what is averaged.
pub proof fn lemma_quotient_bounds(a: int, b: int, lo: int, hi: int)
    requires
        0 < b,
        lo * b <= a <= hi * b,
    ensures
        lo <= quotient_toward_zero(a, b) <= hi,
{
    if a < 0 {
        let q = (-a) / b;
        vstd::arithmetic::div_mod::lemma_fundamental_div_mod(-a, b);
        assert(-hi <= q <= -lo) by (nonlinear_arith)
            requires
                0 < b,
                -a == b * q + (-a) % b,
                0 <= (-a) % b < b,
                lo * b <= a <= hi * b,
                a < 0,
        ;
    } else {
        let q = a / b;
        vstd::arithmetic::div_mod::lemma_fundamental_div_mod(a, b);
        assert(lo <= q <= hi) by (nonlinear_arith)
            requires
                0 < b,
                a == b * q + a % b,
                0 <= a % b < b,
                lo * b <= a <= hi * b,
                a >= 0,
        ;
    }
}

/// Converts 16-bit audio bytes of any channel count to mono 16-bit bytes, by
/// averaging the channels of each frame.
pub fn convert_i16_to_mono(data: &[u8], channels: u16) -> (output: Vec<u8>)
    ensures
        channels <= 1 ==> output@ == data@,
        channels > 1 ==> output@ == samples::encode(
            mono_of(samples::decode(data@), channels as nat),
        ),
{
    if channels <= 1 {
        // Already mono.
        let mut copy: Vec<u8> = Vec::with_capacity(data.len());
        let mut i: usize = 0;
        while i < data.len()
            invariant
                i <= data@.len(),
                copy@ =~= data@.take(i as int),
            decreases data@.len() - i,
        {
            copy.push(data[i]);
            i = i + 1;
        }
        assert(copy@ =~= data@);
        return copy;
    }
    let sample_count: usize = data.len() / 2;
    let width: usize = channels as usize;
    let frame_count: usize = sample_count / width;
    let ghost all = samples::decode(data@);
    let ghost expected = mono_of(all, channels as nat);
    let mut output: Vec<u8> = Vec::new();
    assert(output@ =~= samples::encode(expected.take(0)));
    let mut frame: usize = 0;
    while frame < frame_count
        invariant
            width == channels > 1,
            sample_count == data@.len() / 2,
            frame_count == sample_count / width,
            frame <= frame_count == expected.len(),
            2 * sample_count <= usize::MAX,
            all == samples::decode(data@),
            expected == mono_of(all, channels as nat),
            output@ == samples::encode(expected.take(frame as int)),
        decreases frame_count - frame,
    {
        proof {
            samples::lemma_frame_fits(sample_count as nat, width as nat, frame as nat);
        }
        let base: usize = frame * width;
        let mut sum: i32 = 0;
        let mut ch: usize = 0;
        while ch < width
            invariant
                ch <= width == channels,
                base + width <= sample_count,
                sample_count == data@.len() / 2,
                2 * sample_count <= usize::MAX,
                all == samples::decode(data@),
                sum == sum_from(all, base as int, ch as nat),
                -32768 * ch <= sum <= 32767 * ch,
            decreases width - ch,
        {
            sum = sum + samples::read_sample(data, base + ch) as i32;
            ch = ch + 1;
        }
        let count: i32 = channels as i32;
        let mono: i32 = if sum < 0 { -((-sum) / count) } else { sum / count };
        proof {
            lemma_quotient_bounds(sum as int, count as int, -32768, 32767);
            samples::lemma_encode_push(expected.take(frame as int), mono as int);
            assert(expected.take(frame + 1) =~= expected.take(frame as int).push(mono as int));
        }
        samples::push_sample(&mut output, mono as i16);
        frame = frame + 1;
    }
    assert(expected.take(frame_count as int) =~= expected);
    output
}

/// The mono sample of a frame lies between the quietest and the loudest of its
/// channels; in particular it always fits 16 bits, and channels that agree
/// keep their value.
pub proof fn law_mono_between_channels(s: Seq<int>, channels: nat, frame: nat, lo: int, hi: int)
    requires
        0 < channels,
        frame < s.len() / channels,
        forall|i: int|
            frame * channels <= i < frame * channels + channels ==> lo <= #[trigger] s[i] <= hi,
    ensures
        lo <= mono_of(s, channels)[frame as int] <= hi,
{
    samples::lemma_frame_fits(s.len(), channels, frame);
    lemma_sum_bounds(s, (frame * channels) as int, channels, lo, hi);
    lemma_quotient_bounds(
        sum_from(s, (frame * channels) as int, channels),
        channels as int,
        lo,
        hi,
    );
}

/// How the samples of a stream are written.
#[derive(Clone, Copy, Debug, PartialEq, Eq, Structural)]
pub enum SampleType {
    /// Signed 16-bit integers.
    Int,
    /// Single-precision numbers.
    Float,
}

/// The format of a device stream.
#[derive(Clone, Copy, Debug, PartialEq, Eq, Structural)]
pub struct StreamFormat {
    pub channels: u16,
    pub sample_rate: u32,
    pub bits_per_sample: u16,
    pub sample_type: SampleType,
    /// Bytes in one frame.
    pub block_align: usize,
}

impl StreamFormat {
    /// A stream of numbers has at least one channel to average over.
    pub open spec fn wf(&self) -> bool {
        self.sample_type == SampleType::Float ==> self.channels > 0
    }

    /// The format of the mix, which microphones deliver and the destination
    /// takes: mono, 16 bits, 48 kHz.
    pub fn of_mix() -> (format: Self)
        ensures
            format == (StreamFormat {
                channels: 1,
                sample_rate: 48000,
                bits_per_sample: 16,
                sample_type: SampleType::Int,
                block_align: 2,
            }),
            format.wf(),
    {
        StreamFormat {
            channels: 1,
            sample_rate: SAMPLE_RATE,
            bits_per_sample: 16,
            sample_type: SampleType::Int,
            block_align: 2,
        }
    }
}

/// What a packet of a device stream is in the format of the mix.
pub open spec fn converted(raw: Seq<u8>, format: StreamFormat) -> Seq<u8> {
    match format.sample_type {
        SampleType::Float => samples::encode(
            mixer::mono_of_singles(single::decode(raw), format.channels as nat),
        ),
        SampleType::Int => if format.channels <= 1 {
            raw
        } else {
            samples::encode(mono_of(samples::decode(raw), format.channels as nat))
        },
    }
}

/// Brings a packet of a device stream into the format of the mix.
pub fn convert_packet(raw: &[u8], format: &StreamFormat) -> (mono: Vec<u8>)
    requires
        format.wf(),
    ensures
        mono@ == converted(raw@, *format),
{
    match format.sample_type {
        SampleType::Float => mixer::convert_f32_to_mono_i16(raw, format.channels),
        SampleType::Int => convert_i16_to_mono(raw, format.channels),
    }
}

/// How long a stream is waited for, in milliseconds, before the stop flag is
/// looked at again.
pub const WAIT_TIMEOUT_MS: u32 = 200;

/// How many frames the next packet of a capture stream has.
#[derive(Clone, Copy, Debug, PartialEq, Eq, Structural)]
pub enum PacketSize {
    Frames(u32),
    /// The stream does not deliver packets.
    NoPackets,
    Failed,
}

/// What came of the last action of the capture loop.
pub enum CaptureEvent<'a> {
    /// The stop flag was read.
    StopFlag(bool),
    /// The wait ended: with data, or with the timeout.
    Woken(bool),
    /// The size of the next packet was asked for.
    NextPacket(PacketSize),
    /// Frames were read into the front of the buffer.
    Read { frames: u32, buffer: &'a [u8] },
    /// Nothing could be read.
    ReadFailed,
    /// The samples were stored, or the store is out of use.
    Stored(bool),
}

/// What the capture loop does next.
pub enum CaptureAction {
    /// Read the stop flag.
    CheckStop,
    /// Wait for data.
    Wait { timeout_ms: u32 },
    /// Ask for the size of the next packet.
    QueryPacket,
    /// Read a packet of this many bytes.
    Read { bytes: usize },
    /// Write these bytes, in the format of the mix, to the ring buffer.
    Store(Vec<u8>),
    /// Stop the stream and leave the loop.
    StopStream,
}

/// The event is one that the stream can report.
pub open spec fn capture_event_ok(format: StreamFormat, event: CaptureEvent) -> bool {
    match event {
        CaptureEvent::NextPacket(PacketSize::Frames(n)) => n * format.block_align <= isize::MAX,
        CaptureEvent::Read { frames, buffer } => frames * format.block_align <= buffer@.len(),
        _ => true,
    }
}

/// The capture loop: what follows an event.
///
/// Each time data is announced, packets are read, converted and stored until
/// none is left; then, as after a failure of the device, the stop flag is looked
/// at.  Without a store for the samples the loop ends.
pub fn capture_step(format: &StreamFormat, event: CaptureEvent) -> (action: CaptureAction)
    requires
        format.wf(),
        capture_event_ok(*format, event),
    ensures
        match event {
            CaptureEvent::StopFlag(true) => action is StopStream,
            CaptureEvent::StopFlag(false) => action == (CaptureAction::Wait { timeout_ms: 200 }),
            CaptureEvent::Woken(true) => action is QueryPacket,
            CaptureEvent::Woken(false) => action is CheckStop,
            CaptureEvent::NextPacket(size) => match size {
                PacketSize::Frames(n) => if n == 0 {
                    action is CheckStop
                } else {
                    action matches CaptureAction::Read { bytes } && bytes == n
                        * format.block_align
                },
                _ => action is CheckStop,
            },
            CaptureEvent::Read { frames, buffer } => if frames == 0 {
                action is CheckStop
            } else {
                action matches CaptureAction::Store(mono) && mono@ == converted(
                    buffer@.take(frames * format.block_align),
                    *format,
                )
            },
            CaptureEvent::ReadFailed => action is CheckStop,
            CaptureEvent::Stored(true) => action is QueryPacket,
            CaptureEvent::Stored(false) => action is StopStream,
        },
{
    match event {
        CaptureEvent::StopFlag(stop) => if stop {
            CaptureAction::StopStream
        } else {
            CaptureAction::Wait { timeout_ms: WAIT_TIMEOUT_MS }
        },
        CaptureEvent::Woken(ready) => if ready {
            CaptureAction::QueryPacket
        } else {
            CaptureAction::CheckStop
        },
        CaptureEvent::NextPacket(size) => match size {
            PacketSize::Frames(n) => if n == 0 {
                CaptureAction::CheckStop
            } else {
                CaptureAction::Read { bytes: n as usize * format.block_align }
            },
            PacketSize::NoPackets => CaptureAction::CheckStop,
            PacketSize::Failed => CaptureAction::CheckStop,
        },
        CaptureEvent::Read { frames, buffer } => if frames == 0 {
            CaptureAction::CheckStop
        } else {
            assert(buffer.len() == buffer@.len());
            let bytes_read: usize = frames as usize * format.block_align;
            let raw = vstd::slice::slice_subrange(buffer, 0, bytes_read);
            assert(raw@ =~= buffer@.take(bytes_read as int));
            CaptureAction::Store(convert_packet(raw, format))
        },
        CaptureEvent::ReadFailed => CaptureAction::CheckStop,
        CaptureEvent::Stored(stored) => if stored {
            CaptureAction::QueryPacket
        } else {
            CaptureAction::StopStream
        },
    }
}

/// What came of the last action of the render loop.
pub enum RenderEvent {
    /// The stop flag was read.
    StopFlag(bool),
    /// The wait ended: with room in the device's buffer, or with the timeout.
    Woken(bool),
    /// The room in the device's buffer, in frames, if it could be learned.
    Space(Option<usize>),
    /// The mix for so many frames, or nothing if the mixer is out of use.
    Mixed { frames: usize, data: Option<Vec<u8>> },
    /// The device was given the mix, with or without success.
    Written,
}

/// What the render loop does next.
pub enum RenderAction {
    /// Read the stop flag.
    CheckStop,
    /// Wait for room.
    Wait { timeout_ms: u32 },
    /// Ask how much room there is.
    QuerySpace,
    /// Have this many bytes mixed, for this many frames.
    Mix { frames: usize, bytes: usize },
    /// Give the device these bytes, for this many frames.
    Write { frames: usize, data: Vec<u8> },
    /// Stop the stream and leave the loop.
    StopStream,
}

/// The event is one that the stream can report.
pub open spec fn render_event_ok(event: RenderEvent) -> bool {
    match event {
        RenderEvent::Space(Some(n)) => 2 * n <= isize::MAX,
        RenderEvent::Mixed { frames, .. } => 2 * frames <= isize::MAX,
        _ => true,
    }
}

/// The render loop: what follows an event.
///
/// Whenever the device has room, exactly that much is mixed and written; a mix
/// that falls short is continued with silence.
pub fn render_step(event: RenderEvent) -> (action: RenderAction)
    requires
        render_event_ok(event),
    ensures
        match event {
            RenderEvent::StopFlag(true) => action is StopStream,
            RenderEvent::StopFlag(false) => action == (RenderAction::Wait { timeout_ms: 200 }),
            RenderEvent::Woken(true) => action is QuerySpace,
            RenderEvent::Woken(false) => action is CheckStop,
            RenderEvent::Space(None) => action is CheckStop,
            RenderEvent::Space(Some(n)) => if n == 0 {
                action is CheckStop
            } else {
                action matches RenderAction::Mix { frames, bytes } && frames == n && bytes == 2
                    * n
            },
            RenderEvent::Mixed { frames: _, data: None } => action is StopStream,
            RenderEvent::Mixed { frames: n, data: Some(mix) } => action matches RenderAction::Write {
                frames,
                data,
            } && frames == n && data@ == mixer::padded(mix@, (2 * n) as nat),
            RenderEvent::Written => action is CheckStop,
        },
{
    match event {
        RenderEvent::StopFlag(stop) => if stop {
            RenderAction::StopStream
        } else {
            RenderAction::Wait { timeout_ms: WAIT_TIMEOUT_MS }
        },
        RenderEvent::Woken(ready) => if ready {
            RenderAction::QuerySpace
        } else {
            RenderAction::CheckStop
        },
        RenderEvent::Space(space) => match space {
            None => RenderAction::CheckStop,
            Some(n) => if n == 0 {
                RenderAction::CheckStop
            } else {
                RenderAction::Mix { frames: n, bytes: n * mixer::BYTES_PER_SAMPLE }
            },
        },
        RenderEvent::Mixed { frames, data } => match data {
            None => RenderAction::StopStream,
            Some(mix) => {
                let mut padded = mix;
                mixer::pad_with_silence(&mut padded, frames * mixer::BYTES_PER_SAMPLE);
                RenderAction::Write { frames, data: padded }
            },
        },
        RenderEvent::Written => RenderAction::CheckStop,
    }
}

/// An attempt to open a render device for loopback capture.
#[derive(Clone, Copy, Debug, PartialEq, Eq, Structural)]
pub enum LoopbackAttempt {
    /// The device that the user has pinned.
    Pinned,
    /// The default render device.
    Default,
    /// The render device at this index.
    Device(usize),
    /// No attempt is left.
    GiveUp,
}

/// A render device to fall back to where the default device fails: one that
/// could be read, is not the default device, and is no cable.
pub open spec fn is_fallback(e: Option<Endpoint>, default_id: Seq<char>) -> bool {
    match e {
        None => false,
        Some(endpoint) => {
            &&& devices::text_or_empty(endpoint.id) != default_id
            &&& !text::contains(
                text::lowercase(devices::text_or_empty(endpoint.name)),
                "cable"@,
            )
        },
    }
}

/// The first fallback device from index `from` on.
pub open spec fn fallback_from(
    endpoints: Seq<Option<Endpoint>>,
    default_id: Seq<char>,
    from: nat,
) -> LoopbackAttempt
    decreases endpoints.len() - from,
{
    if from >= endpoints.len() {
        LoopbackAttempt::GiveUp
    } else if is_fallback(endpoints[from as int], default_id) {
        LoopbackAttempt::Device(from as usize)
    } else {
        fallback_from(endpoints, default_id, from + 1)
    }
}

/// The first attempt: the pinned device, or else the default one.
pub fn first_attempt(system_source: Option<&str>) -> (attempt: LoopbackAttempt)
    ensures
        attempt == (if system_source is Some {
            LoopbackAttempt::Pinned
        } else {
            LoopbackAttempt::Default
        }),
{
    match system_source {
        Some(_) => LoopbackAttempt::Pinned,
        None => LoopbackAttempt::Default,
    }
}

/// What is attempted after an attempt has failed.  A pinned device has no
/// replacement; the default device is followed by the other render devices, in
/// their order.
pub open spec fn attempt_after(
    failed: LoopbackAttempt,
    endpoints: Seq<Option<Endpoint>>,
    default_id: Seq<char>,
) -> LoopbackAttempt {
    match failed {
        LoopbackAttempt::Pinned => LoopbackAttempt::GiveUp,
        LoopbackAttempt::Default => fallback_from(endpoints, default_id, 0),
        LoopbackAttempt::Device(i) => fallback_from(endpoints, default_id, (i + 1) as nat),
        LoopbackAttempt::GiveUp => LoopbackAttempt::GiveUp,
    }
}

/// Whether a render device with this lower-cased name may be captured when the
/// default device fails.
pub fn lower_may_replace_default(lower: &str) -> (may: bool)
    ensures
        may == !text::contains(lower@, "cable"@),
{
    !text::contains_text(lower, "cable")
}

fn check_fallback(e: &Option<Endpoint>, default_id: &str) -> (yes: bool)
    ensures
        yes == is_fallback(*e, default_id@),
{
    match e {
        None => false,
        Some(endpoint) => {
            let id = devices::or_empty(&endpoint.id);
            let name = devices::or_empty(&endpoint.name);
            let lower = text::to_lowercase(name.as_str());
            !text::same_text(id.as_str(), default_id) && lower_may_replace_default(lower.as_str())
        },
    }
}

/// Decides what to attempt after an attempt has failed.
pub fn next_attempt(
    failed: LoopbackAttempt,
    endpoints: &[Option<Endpoint>],
    default_id: &str,
) -> (next: LoopbackAttempt)
    ensures
        next == attempt_after(failed, endpoints@, default_id@),
{
    assert(endpoints.len() == endpoints@.len());
    let start: usize = match failed {
        LoopbackAttempt::Pinned => {
            return LoopbackAttempt::GiveUp;
        },
        LoopbackAttempt::GiveUp => {
            return LoopbackAttempt::GiveUp;
        },
        LoopbackAttempt::Default => 0,
        LoopbackAttempt::Device(i) => {
            if i >= endpoints.len() {
                return LoopbackAttempt::GiveUp;
            }
            i + 1
        },
    };
    let mut i: usize = start;
    while i < endpoints.len()
        invariant
            attempt_after(failed, endpoints@, default_id@) == fallback_from(
                endpoints@,
                default_id@,
                i as nat,
            ),
        decreases endpoints@.len() - i,
    {
        if check_fallback(&endpoints[i], default_id) {
            return LoopbackAttempt::Device(i);
        }
        i = i + 1;
    }
    LoopbackAttempt::GiveUp
}

/// Attempts go through the fallback devices in order and skip none: the next
/// one is the first fallback device after the failed one, and attempts end
/// only where none is left.
pub proof fn law_attempts_in_order(
    failed: LoopbackAttempt,
    endpoints: Seq<Option<Endpoint>>,
    default_id: Seq<char>,
    k: int,
)
    requires
        failed is Default || failed is Device,
        failed matches LoopbackAttempt::Device(i) ==> i < k,
        0 <= k < endpoints.len() <= usize::MAX,
        is_fallback(endpoints[k], default_id),
    ensures
        attempt_after(failed, endpoints, default_id) matches LoopbackAttempt::Device(next)
            && next <= k && is_fallback(endpoints[next as int], default_id)
            && (failed matches LoopbackAttempt::Device(i) ==> i < next),
{
    match failed {
        LoopbackAttempt::Device(i) => lemma_fallback_from(
            endpoints,
            default_id,
            (i + 1) as nat,
            k,
        ),
        _ => lemma_fallback_from(endpoints, default_id, 0, k),
    }
}

proof fn lemma_fallback_from(
    endpoints: Seq<Option<Endpoint>>,
    default_id: Seq<char>,
    from: nat,
    k: int,
)
    requires
        from <= k < endpoints.len() <= usize::MAX,
        is_fallback(endpoints[k], default_id),
    ensures
        fallback_from(endpoints, default_id, from) matches LoopbackAttempt::Device(next) && from
            <= next <= k && is_fallback(endpoints[next as int], default_id),
    decreases k - from,
{
    if !is_fallback(endpoints[from as int], default_id) {
        lemma_fallback_from(endpoints, default_id, from + 1, k);
    }
}

/// Audio never loops back from a cable or from the default device that has
/// already failed.
pub proof fn law_attempts_skip_cables(
    failed: LoopbackAttempt,
    endpoints: Seq<Option<Endpoint>>,
    default_id: Seq<char>,
)
    requires
        endpoints.len() <= usize::MAX,
    ensures
        attempt_after(failed, endpoints, default_id) matches LoopbackAttempt::Device(next) ==> next
            < endpoints.len() && is_fallback(endpoints[next as int], default_id),
{
    match failed {
        LoopbackAttempt::Default => lemma_fallback_valid(endpoints, default_id, 0),
        LoopbackAttempt::Device(i) => lemma_fallback_valid(
            endpoints,
            default_id,
            (i + 1) as nat,
        ),
        _ => {},
    }
}

proof fn lemma_fallback_valid(
    endpoints: Seq<Option<Endpoint>>,
    default_id: Seq<char>,
    from: nat,
)
    requires
        endpoints.len() <= usize::MAX,
    ensures
        fallback_from(endpoints, default_id, from) matches LoopbackAttempt::Device(next) ==> next
            < endpoints.len() && is_fallback(endpoints[next as int], default_id),
    decreases endpoints.len() - from,
{
    if from < endpoints.len() && !is_fallback(endpoints[from as int], default_id) {
        lemma_fallback_valid(endpoints, default_id, from + 1);
    }
}

/// Adding up the elements of a frame in place gives their total.
pub proof fn lemma_sum_is_total(s: Seq<int>, from: int, n: nat)
    requires
        0 <= from,
        from + n <= s.len(),
    ensures
        sum_from(s, from, n) == samples::total(s.subrange(from, from + n)),
    decreases n,
{
    if n == 0 {
        assert(s.subrange(from, from) =~= Seq::<int>::empty());
        samples::law_total_adds_up(Seq::empty(), 0);
    } else {
        let k = (n - 1) as nat;
        lemma_sum_is_total(s, from, k);
        assert(s.subrange(from, from + n) =~= s.subrange(from, from + k).push(s[from + k]));
        samples::law_total_adds_up(s.subrange(from, from + k), s[from + k]);
    }
}

/// The mono sample of a frame is the average of its channels, cut toward zero:
/// so many times the sample is less than one channel count away from the total,
/// no farther from zero than it, and on the same side.
pub proof fn law_mono_is_average(s: Seq<int>, channels: nat, frame: nat)
    requires
        0 < channels,
        frame < s.len() / channels,
    ensures
        ({
            let m = mono_of(s, channels)[frame as int];
            let t = samples::total(
                s.subrange((frame * channels) as int, (frame * channels + channels) as int),
            );
            &&& t >= 0 ==> t - channels < channels * m <= t && m >= 0
            &&& t <= 0 ==> t <= channels * m < t + channels && m <= 0
        }),
{
    samples::lemma_frame_fits(s.len(), channels, frame);
    let base = (frame * channels) as int;
    lemma_sum_is_total(s, base, channels);
    let t = sum_from(s, base, channels);
    let m = mono_of(s, channels)[frame as int];
    let n = channels as int;
    if t < 0 {
        vstd::arithmetic::div_mod::lemma_fundamental_div_mod(-t, n);
        vstd::arithmetic::div_mod::lemma_div_pos_is_pos(-t, n);
        let q = (-t) / n;
        assert(n * m == -(n * q)) by (nonlinear_arith)
            requires
                m == -q,
        ;
    } else {
        vstd::arithmetic::div_mod::lemma_fundamental_div_mod(t, n);
        vstd::arithmetic::div_mod::lemma_div_pos_is_pos(t, n);
        if t == 0 {
            assert(m == 0) by (nonlinear_arith)
                requires
                    n * m <= 0,
                    0 <= m,
                    0 < n,
            ;
        }
    }
}

proof fn lemma_sum_update(s: Seq<int>, from: int, n: nat, i: int, x: int)
    requires
        0 <= from <= i,
        from + n <= s.len(),
        i < s.len(),
    ensures
        sum_from(s.update(i, x), from, n) == sum_from(s, from, n) + (if i < from + n {
            x - s[i]
        } else {
            0
        }),
    decreases n,
{
    if n > 0 {
        lemma_sum_update(s, from, (n - 1) as nat, i, x);
    }
}

/// Every channel counts the same: exchanging two channels of a frame changes no
/// mono sample.
pub proof fn law_channel_order_does_not_matter(
    s: Seq<int>,
    channels: nat,
    frame: nat,
    i: int,
    j: int,
)
    requires
        0 < channels,
        frame < s.len() / channels,
        frame * channels <= i < frame * channels + channels,
        frame * channels <= j < frame * channels + channels,
    ensures
        mono_of(s.update(i, s[j]).update(j, s[i]), channels)[frame as int] == mono_of(
            s,
            channels,
        )[frame as int],
{
    samples::lemma_frame_fits(s.len(), channels, frame);
    let base = (frame * channels) as int;
    let once = s.update(i, s[j]);
    lemma_sum_update(s, base, channels, i, s[j]);
    lemma_sum_update(once, base, channels, j, s[i]);
}

/// A louder channel never makes the mono sample quieter: where no channel gets
/// smaller, the mono sample does not either.
pub proof fn law_mono_keeps_order(s: Seq<int>, t: Seq<int>, channels: nat, frame: nat)
    requires
        0 < channels,
        frame < s.len() / channels,
        frame < t.len() / channels,
        forall|i: int|
            #![trigger s[i]]
            #![trigger t[i]]
            frame * channels <= i < frame * channels + channels ==> s[i] <= t[i],
    ensures
        mono_of(s, channels)[frame as int] <= mono_of(t, channels)[frame as int],
{
    let base = (frame * channels) as int;
    lemma_sum_order(s, t, base, channels);
    let a = sum_from(s, base, channels);
    let b = sum_from(t, base, channels);
    let n = channels as int;
    if a >= 0 {
        vstd::arithmetic::div_mod::lemma_div_is_ordered(a, b, n);
    } else if b < 0 {
        vstd::arithmetic::div_mod::lemma_div_is_ordered(-b, -a, n);
    } else {
        vstd::arithmetic::div_mod::lemma_div_pos_is_pos(-a, n);
        vstd::arithmetic::div_mod::lemma_div_pos_is_pos(b, n);
    }
}

proof fn lemma_sum_order(s: Seq<int>, t: Seq<int>, from: int, n: nat)
    requires
        forall|i: int|
            #![trigger s[i]]
            #![trigger t[i]]
            from <= i < from + n ==> s[i] <= t[i],
    ensures
        sum_from(s, from, n) <= sum_from(t, from, n),
    decreases n,
{
    if n > 0 {
        lemma_sum_order(s, t, from, (n - 1) as nat);
    }
}

/// There is one mono sample for each whole frame.
pub proof fn law_mono_length(s: Seq<int>, channels: nat, frames: nat, rest: nat)
    requires
        s.len() == frames * channels + rest,
        rest < channels,
    ensures
        mono_of(s, channels).len() == frames,
{
    assert(s.len() == channels * frames + rest) by (nonlinear_arith)
        requires
            s.len() == frames * channels + rest,
    ;
    vstd::arithmetic::div_mod::lemma_fundamental_div_mod_converse(
        s.len() as int,
        channels as int,
        frames as int,
        rest as int,
    );
}

/// The mono samples of 16-bit samples are 16-bit samples.
proof fn lemma_mono_fits(s: Seq<int>, channels: nat)
    requires
        0 < channels,
        samples::all_samples(s),
    ensures
        samples::all_samples(mono_of(s, channels)),
{
    assert forall|f: int| 0 <= f < mono_of(s, channels).len() implies samples::is_sample(
        #[trigger] mono_of(s, channels)[f],
    ) by {
        samples::lemma_frame_fits(s.len(), channels, f as nat);
        assert forall|i: int|
            f * channels <= i < f * channels + channels implies -32768 <= #[trigger] s[i]
            <= 32767 by {
            assert(0 <= f * channels) by (nonlinear_arith)
                requires
                    0 <= f,
            ;
            assert(samples::is_sample(s[i]));
        }
        law_mono_between_channels(s, channels, f as nat, -32768, 32767);
    }
}

/// A packet of 16-bit samples comes out as it is where it has at most one
/// channel, and else frame by frame as the average of the channels, cut toward
/// zero.
pub proof fn law_integer_packets_are_averaged(raw: Seq<u8>, format: StreamFormat, frame: nat)
    requires
        format.sample_type is Int,
        format.channels > 1 ==> frame < (raw.len() / 2) / format.channels as nat,
    ensures
        format.channels <= 1 ==> converted(raw, format) == raw,
        format.channels > 1 ==> {
            let n = format.channels as nat;
            let out = samples::decode(converted(raw, format));
            let t = samples::total(
                samples::decode(raw).subrange((frame * n) as int, (frame * n + n) as int),
            );
            &&& out.len() == (raw.len() / 2) / n
            &&& t >= 0 ==> t - n < n * out[frame as int] <= t
            &&& t <= 0 ==> t <= n * out[frame as int] < t + n
        },
{
    let s = samples::decode(raw);
    let n = format.channels as nat;
    if n > 1 {
        assert forall|i: int| 0 <= i < s.len() implies samples::is_sample(#[trigger] s[i]) by {
            samples::law_samples_are_little_endian(raw, i);
        }
        lemma_mono_fits(s, n);
        samples::law_decode_encode(mono_of(s, n));
        law_mono_is_average(s, n, frame);
    }
}

/// A packet of single-precision numbers comes out as the mono samples of its
/// frames.
pub proof fn law_float_packets_are_converted(raw: Seq<u8>, format: StreamFormat)
    requires
        format.sample_type is Float,
        format.channels > 0,
    ensures
        samples::decode(converted(raw, format)) == mixer::mono_of_singles(
            single::decode(raw),
            format.channels as nat,
        ),
        converted(raw, format).len() == 2 * ((raw.len() / 4) / format.channels as nat),
{
    let m = mixer::mono_of_singles(single::decode(raw), format.channels as nat);
    assert forall|i: int| 0 <= i < m.len() implies samples::is_sample(#[trigger] m[i]) by {
        single::law_sample_fits(
            single::divided(
                single::sum_from(
                    single::decode(raw),
                    i * format.channels as nat,
                    format.channels as nat,
                ),
                format.channels as nat,
            ),
        );
    }
    samples::law_decode_encode(m);
}

/// Numbers that are whole steps of 1/32768 convert as the 16-bit samples that
/// they stand for, for up to 512 channels.
pub proof fn law_float_and_integer_streams_agree(
    s: Seq<single::Value>,
    levels: Seq<int>,
    channels: nat,
    frame: nat,
)
    requires
        0 < channels <= 512,
        s.len() == levels.len(),
        frame < s.len() / channels,
        forall|i: int|
            #![trigger s[i]]
            #![trigger levels[i]]
            0 <= i < s.len() ==> -32768 <= levels[i] <= 32767 && s[i] == single::Value::Finite(
                levels[i] * vstd::arithmetic::power2::pow2(134),
            ),
    ensures
        mixer::mono_of_singles(s, channels)[frame as int] == mono_of(levels, channels)[frame as int],
{
    samples::lemma_frame_fits(s.len(), channels, frame);
    let n = channels as int;
    let base = (frame * channels) as int;
    let part = levels.subrange(base, base + channels);
    assert(channels * 32768 <= 0x100_0000);
    assert forall|i: int| 0 <= i < channels implies -32768 <= #[trigger] part[i] <= 32767 && s[base
        + i] == single::Value::Finite(part[i] * vstd::arithmetic::power2::pow2(134)) by {
        assert(s[base + i] is Finite);
    }
    mixer::law_float_mono_is_average(s, channels, frame, part, part, 32768);
    law_mono_is_average(levels, channels, frame);
    law_mono_between_channels(levels, channels, frame, -32768, 32767);
    let a = mixer::mono_of_singles(s, channels)[frame as int];
    let b = mono_of(levels, channels)[frame as int];
    let t = samples::total(part);
    lemma_sum_bounds(levels, base, channels, -32768, 32767);
    lemma_sum_is_total(levels, base, channels);
    assert(a == b) by (nonlinear_arith)
        requires
            0 < n,
            t >= 0 ==> t - n < n * b <= t && n * a <= t && (n * a > t - n || a == 32767) && 0 <= a,
            t < 0 ==> t <= n * b < t + n && n * a >= t && (n * a < t + n || a == -32768) && a <= 0,
            -32768 * n <= t <= 32767 * n,
            -32768 <= a <= 32767,
            -32768 <= b <= 32767,
    ;
}

/// A render device stands in for the default one exactly when it could be read,
/// has another identifier, and holds `cable` nowhere in its lower-cased name.
pub proof fn law_what_stands_in(
    e: Endpoint,
    default_id: Seq<char>,
    before: Seq<char>,
    after: Seq<char>,
)
    ensures
        !is_fallback(None, default_id),
        devices::text_or_empty(e.id) == default_id ==> !is_fallback(Some(e), default_id),
        text::lowercase(devices::text_or_empty(e.name)) == before + "cable"@ + after
            ==> !is_fallback(Some(e), default_id),
        devices::text_or_empty(e.id) != default_id && !is_fallback(Some(e), default_id) ==> exists|
            a: Seq<char>,
            b: Seq<char>,
        |
            text::lowercase(devices::text_or_empty(e.name)) == #[trigger] (a + "cable"@ + b),
{
    text::law_contains_what_is_inside(before, "cable"@, after);
    let lower = text::lowercase(devices::text_or_empty(e.name));
    if text::contains(lower, "cable"@) {
        text::law_contained_is_inside(lower, "cable"@);
    }
}

/// A pinned device has no replacement, giving up is final, and where no device
/// behind the failed one can stand in, the search ends.
pub proof fn law_search_ends(
    failed: LoopbackAttempt,
    endpoints: Seq<Option<Endpoint>>,
    default_id: Seq<char>,
)
    requires
        endpoints.len() <= usize::MAX,
    ensures
        failed is Pinned || failed is GiveUp ==> attempt_after(failed, endpoints, default_id)
            is GiveUp,
        (forall|k: int|
            0 <= k < endpoints.len() && (failed matches LoopbackAttempt::Device(i) ==> i < k)
                ==> !is_fallback(#[trigger] endpoints[k], default_id)) ==> attempt_after(
            failed,
            endpoints,
            default_id,
        ) is GiveUp,
{
    match failed {
        LoopbackAttempt::Default => {
            lemma_fallback_valid(endpoints, default_id, 0);
            lemma_fallback_kind(endpoints, default_id, 0);
        },
        LoopbackAttempt::Device(i) => {
            lemma_fallback_valid(endpoints, default_id, (i + 1) as nat);
            lemma_fallback_kind(endpoints, default_id, (i + 1) as nat);
        },
        _ => {},
    }
}

proof fn lemma_fallback_kind(
    endpoints: Seq<Option<Endpoint>>,
    default_id: Seq<char>,
    from: nat,
)
    requires
        endpoints.len() <= usize::MAX,
    ensures
        fallback_from(endpoints, default_id, from) is GiveUp || fallback_from(
            endpoints,
            default_id,
            from,
        ) is Device,
        fallback_from(endpoints, default_id, from) matches LoopbackAttempt::Device(k) ==> from <= k,
    decreases endpoints.len() - from,
{
    if from < endpoints.len() && !is_fallback(endpoints[from as int], default_id) {
        lemma_fallback_kind(endpoints, default_id, from + 1);
    }
}

} // verus!
