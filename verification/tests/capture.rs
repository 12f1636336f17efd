use wasamix::audio::capture::{
    capture_step, convert_i16_to_mono, convert_packet, first_attempt, lower_may_replace_default,
    next_attempt, render_step, CaptureAction, CaptureEvent, LoopbackAttempt, PacketSize,
    RenderAction, RenderEvent, SampleType, StreamFormat,
};
use wasamix::audio::devices::Endpoint;

fn bytes_of(samples: &[i16]) -> Vec<u8> {
    let mut bytes = Vec::new();
    for s in samples {
        bytes.extend_from_slice(&s.to_le_bytes());
    }
    bytes
}

fn stereo_float() -> StreamFormat {
    StreamFormat {
        channels: 2,
        sample_rate: 48000,
        bits_per_sample: 32,
        sample_type: SampleType::Float,
        block_align: 8,
    }
}

#[test]
fn test_convert_i16_mono_passthrough() {
    // Mono data should pass through unchanged
    let input = vec![0x10, 0x20, 0x30, 0x40];
    let result = convert_i16_to_mono(&input, 1);
    assert_eq!(result, input);
}

#[test]
fn test_convert_i16_stereo_to_mono() {
    // Two frames of stereo: (100, 200), (300, 400)
    // Expected mono: avg(100,200)=150, avg(300,400)=350
    let mut input = Vec::new();
    input.extend_from_slice(&100i16.to_le_bytes());
    input.extend_from_slice(&200i16.to_le_bytes());
    input.extend_from_slice(&300i16.to_le_bytes());
    input.extend_from_slice(&400i16.to_le_bytes());

    let result = convert_i16_to_mono(&input, 2);
    let s0 = i16::from_le_bytes([result[0], result[1]]);
    let s1 = i16::from_le_bytes([result[2], result[3]]);
    assert_eq!(s0, 150);
    assert_eq!(s1, 350);
}

#[test]
fn test_convert_i16_empty() {
    let result = convert_i16_to_mono(&[], 2);
    assert!(result.is_empty());
}

#[test]
fn averages_are_cut_toward_zero() {
    assert_eq!(convert_i16_to_mono(&bytes_of(&[1, 2]), 2), bytes_of(&[1]));
    assert_eq!(convert_i16_to_mono(&bytes_of(&[-1, -2]), 2), bytes_of(&[-1]));
    assert_eq!(convert_i16_to_mono(&bytes_of(&[-1, 0]), 2), bytes_of(&[0]));
    assert_eq!(
        convert_i16_to_mono(&bytes_of(&[-32768, -32768, -32768]), 3),
        bytes_of(&[-32768])
    );
    assert_eq!(
        convert_i16_to_mono(&bytes_of(&[32767, 32767]), 2),
        bytes_of(&[32767])
    );
    let all = vec![-32768i16; 65535];
    assert_eq!(convert_i16_to_mono(&bytes_of(&all), 65535), bytes_of(&[-32768]));
}

#[test]
fn incomplete_frames_are_dropped_and_no_channels_pass_through() {
    let mut data = bytes_of(&[1, 3, 5]);
    data.push(7);
    assert_eq!(convert_i16_to_mono(&data, 2), bytes_of(&[2]));
    assert_eq!(convert_i16_to_mono(&data, 0), data);
}

#[test]
fn packets_are_converted_by_sample_type() {
    let mut numbers = Vec::new();
    for n in [0.5f32, 0.25, -1.0, -1.0] {
        numbers.extend_from_slice(&n.to_le_bytes());
    }
    assert_eq!(convert_packet(&numbers, &stereo_float()), bytes_of(&[12288, -32768]));
    let stereo = StreamFormat {
        sample_type: SampleType::Int,
        ..stereo_float()
    };
    assert_eq!(convert_packet(&bytes_of(&[10, 20]), &stereo), bytes_of(&[15]));
    let mix = StreamFormat::of_mix();
    assert_eq!(
        (mix.channels, mix.sample_rate, mix.bits_per_sample, mix.block_align),
        (1, 48000, 16, 2)
    );
    assert_eq!(mix.sample_type, SampleType::Int);
    assert_eq!(convert_packet(&[1, 2, 3], &mix), vec![1, 2, 3]);
}

#[test]
fn capture_loop_waits_until_it_is_stopped() {
    let f = stereo_float();
    assert!(matches!(
        capture_step(&f, CaptureEvent::StopFlag(false)),
        CaptureAction::Wait { timeout_ms: 200 }
    ));
    assert!(matches!(
        capture_step(&f, CaptureEvent::StopFlag(true)),
        CaptureAction::StopStream
    ));
    assert!(matches!(
        capture_step(&f, CaptureEvent::Woken(false)),
        CaptureAction::CheckStop
    ));
    assert!(matches!(
        capture_step(&f, CaptureEvent::Woken(true)),
        CaptureAction::QueryPacket
    ));
}

#[test]
fn capture_loop_drains_the_packets() {
    let f = stereo_float();
    assert!(matches!(
        capture_step(&f, CaptureEvent::NextPacket(PacketSize::Frames(3))),
        CaptureAction::Read { bytes: 24 }
    ));
    for size in [PacketSize::Frames(0), PacketSize::NoPackets, PacketSize::Failed] {
        assert!(matches!(
            capture_step(&f, CaptureEvent::NextPacket(size)),
            CaptureAction::CheckStop
        ));
    }
    let mut buffer = Vec::new();
    for n in [0.5f32, 0.5, 0.25, 0.25] {
        buffer.extend_from_slice(&n.to_le_bytes());
    }
    // Of the buffer only the frames that were read count.
    match capture_step(
        &f,
        CaptureEvent::Read {
            frames: 1,
            buffer: &buffer,
        },
    ) {
        CaptureAction::Store(mono) => assert_eq!(mono, bytes_of(&[16384])),
        _ => panic!("the packet was not stored"),
    }
    assert!(matches!(
        capture_step(
            &f,
            CaptureEvent::Read {
                frames: 0,
                buffer: &buffer
            }
        ),
        CaptureAction::CheckStop
    ));
    assert!(matches!(
        capture_step(&f, CaptureEvent::ReadFailed),
        CaptureAction::CheckStop
    ));
    assert!(matches!(
        capture_step(&f, CaptureEvent::Stored(true)),
        CaptureAction::QueryPacket
    ));
    assert!(matches!(
        capture_step(&f, CaptureEvent::Stored(false)),
        CaptureAction::StopStream
    ));
}

#[test]
fn render_loop_fills_the_room_there_is() {
    assert!(matches!(
        render_step(RenderEvent::StopFlag(false)),
        RenderAction::Wait { timeout_ms: 200 }
    ));
    assert!(matches!(
        render_step(RenderEvent::StopFlag(true)),
        RenderAction::StopStream
    ));
    assert!(matches!(
        render_step(RenderEvent::Woken(false)),
        RenderAction::CheckStop
    ));
    assert!(matches!(
        render_step(RenderEvent::Woken(true)),
        RenderAction::QuerySpace
    ));
    assert!(matches!(
        render_step(RenderEvent::Space(None)),
        RenderAction::CheckStop
    ));
    assert!(matches!(
        render_step(RenderEvent::Space(Some(0))),
        RenderAction::CheckStop
    ));
    assert!(matches!(
        render_step(RenderEvent::Space(Some(480))),
        RenderAction::Mix {
            frames: 480,
            bytes: 960
        }
    ));
    assert!(matches!(
        render_step(RenderEvent::Written),
        RenderAction::CheckStop
    ));
}

#[test]
fn render_loop_pads_a_short_mix_and_ends_without_a_mixer() {
    match render_step(RenderEvent::Mixed {
        frames: 3,
        data: Some(vec![1, 2, 3, 4]),
    }) {
        RenderAction::Write { frames, data } => {
            assert_eq!(frames, 3);
            assert_eq!(data, vec![1, 2, 3, 4, 0, 0]);
        }
        _ => panic!("the mix was not written"),
    }
    match render_step(RenderEvent::Mixed {
        frames: 1,
        data: Some(vec![1, 2, 3, 4]),
    }) {
        RenderAction::Write { frames, data } => {
            assert_eq!(frames, 1);
            assert_eq!(data, vec![1, 2, 3, 4]);
        }
        _ => panic!("the mix was not written"),
    }
    assert!(matches!(
        render_step(RenderEvent::Mixed {
            frames: 1,
            data: None
        }),
        RenderAction::StopStream
    ));
}

fn endpoint(id: &str, name: &str) -> Option<Endpoint> {
    Some(Endpoint {
        id: Some(id.to_string()),
        name: Some(name.to_string()),
    })
}

#[test]
fn loopback_falls_back_in_order() {
    let endpoints = vec![
        endpoint("default", "Headset"),
        None,
        endpoint("cable", "Virtual CABLE thing"),
        endpoint("a", "Speakers"),
        endpoint("b", "Monitor"),
    ];
    let first = first_attempt(None);
    assert_eq!(first, LoopbackAttempt::Default);
    let second = next_attempt(first, &endpoints, "default");
    assert_eq!(second, LoopbackAttempt::Device(3));
    let third = next_attempt(second, &endpoints, "default");
    assert_eq!(third, LoopbackAttempt::Device(4));
    let last = next_attempt(third, &endpoints, "default");
    assert_eq!(last, LoopbackAttempt::GiveUp);
    assert_eq!(next_attempt(last, &endpoints, "default"), LoopbackAttempt::GiveUp);
    assert_eq!(
        next_attempt(LoopbackAttempt::Device(usize::MAX), &endpoints, "default"),
        LoopbackAttempt::GiveUp
    );
    assert!(lower_may_replace_default("speakers"));
    assert!(!lower_may_replace_default("a cable"));
}

#[test]
fn a_pinned_source_has_no_fallback() {
    let endpoints = vec![endpoint("a", "Speakers")];
    let pinned = first_attempt(Some("x"));
    assert_eq!(pinned, LoopbackAttempt::Pinned);
    assert_eq!(next_attempt(pinned, &endpoints, "default"), LoopbackAttempt::GiveUp);
}

#[test]
fn unreadable_identifiers_count_as_empty() {
    let endpoints = vec![Some(Endpoint {
        id: None,
        name: None,
    })];
    assert_eq!(
        next_attempt(LoopbackAttempt::Default, &endpoints, "default"),
        LoopbackAttempt::Device(0)
    );
    assert_eq!(
        next_attempt(LoopbackAttempt::Default, &endpoints, ""),
        LoopbackAttempt::GiveUp
    );
}
