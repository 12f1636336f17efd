use wasamix::audio::mixer::{
    convert_f32_to_mono_i16, mix_samples, new_shared_buffer, pad_with_silence, peak_i16,
    RingBuffer, BYTES_PER_SAMPLE, CHANNELS, CHUNK_BYTES, CHUNK_FRAMES, SAMPLE_RATE,
};
use wasamix::audio::pipeline::{next_chunk, Pipeline, BUFFER_CAPACITY};
use wasamix::audio::samples::{push_sample, read_sample, sample_from_bytes};

fn bytes_of(samples: &[i16]) -> Vec<u8> {
    let mut bytes = Vec::new();
    for s in samples {
        bytes.extend_from_slice(&s.to_le_bytes());
    }
    bytes
}

fn samples_of(bytes: &[u8]) -> Vec<i16> {
    bytes
        .chunks_exact(2)
        .map(|c| i16::from_le_bytes([c[0], c[1]]))
        .collect()
}

#[test]
fn test_ring_buffer_write_and_read() {
    let mut buf = RingBuffer::new(1024);
    buf.write(&[1, 2, 3, 4]);
    let result = buf.read(4);
    assert_eq!(result, vec![1, 2, 3, 4]);
}

#[test]
fn test_ring_buffer_read_pads_with_silence() {
    let mut buf = RingBuffer::new(1024);
    buf.write(&[1, 2]);
    let result = buf.read(4);
    assert_eq!(result, vec![1, 2, 0, 0]);
}

#[test]
fn test_ring_buffer_read_empty_returns_silence() {
    let mut buf = RingBuffer::new(1024);
    let result = buf.read(4);
    assert_eq!(result, vec![0, 0, 0, 0]);
}

#[test]
fn test_ring_buffer_wraps_around() {
    let mut buf = RingBuffer::new(8);
    buf.write(&[1, 2, 3, 4, 5, 6]);
    buf.read(6);
    buf.write(&[7, 8, 9, 10]);
    let result = buf.read(4);
    assert_eq!(result, vec![7, 8, 9, 10]);
}

#[test]
fn test_ring_buffer_overflow_drops_oldest() {
    let mut buf = RingBuffer::new(4);
    buf.write(&[1, 2, 3, 4]);
    buf.write(&[5, 6]);
    let result = buf.read(4);
    assert_eq!(result, vec![3, 4, 5, 6]);
}

#[test]
fn test_mix_simple_addition() {
    let a = 100i16.to_le_bytes();
    let b = 300i16.to_le_bytes();
    let mic = [a[0], a[1], 200i16.to_le_bytes()[0], 200i16.to_le_bytes()[1]];
    let loopback = [b[0], b[1], 400i16.to_le_bytes()[0], 400i16.to_le_bytes()[1]];
    let result = mix_samples(&mic, &loopback);
    let s0 = i16::from_le_bytes([result[0], result[1]]);
    let s1 = i16::from_le_bytes([result[2], result[3]]);
    assert_eq!(s0, 400);
    assert_eq!(s1, 600);
}

#[test]
fn test_mix_clamp_positive() {
    let a = 30000i16.to_le_bytes();
    let b = 30000i16.to_le_bytes();
    let result = mix_samples(&a, &b);
    let s = i16::from_le_bytes([result[0], result[1]]);
    assert_eq!(s, 32767);
}

#[test]
fn test_mix_clamp_negative() {
    let a = (-30000i16).to_le_bytes();
    let b = (-30000i16).to_le_bytes();
    let result = mix_samples(&a, &b);
    let s = i16::from_le_bytes([result[0], result[1]]);
    assert_eq!(s, -32768);
}

#[test]
fn test_mix_empty() {
    assert!(mix_samples(&[], &[]).is_empty());
}

#[test]
fn test_convert_f32_stereo_to_mono() {
    // Two frames of stereo: (0.5, -0.5), (1.0, 0.0)
    let mut data = Vec::new();
    data.extend_from_slice(&0.5f32.to_le_bytes());
    data.extend_from_slice(&(-0.5f32).to_le_bytes());
    data.extend_from_slice(&1.0f32.to_le_bytes());
    data.extend_from_slice(&0.0f32.to_le_bytes());

    let result = convert_f32_to_mono_i16(&data, 2);
    let s0 = i16::from_le_bytes([result[0], result[1]]);
    let s1 = i16::from_le_bytes([result[2], result[3]]);
    // Frame 0: avg(0.5, -0.5) = 0.0 -> 0
    // Frame 1: avg(1.0, 0.0) = 0.5 -> 16384
    assert_eq!(s0, 0);
    assert_eq!(s1, 16384);
}

#[test]
fn ring_buffer_follows_a_plain_queue() {
    // Writes and reads of all sizes, against a queue that drops its front.
    for capacity in 0..9usize {
        let mut buf = RingBuffer::new(capacity);
        let mut queue: Vec<u8> = Vec::new();
        let mut next = 1u8;
        for round in 0..200usize {
            let n = (round * 7 + capacity) % 13;
            let mut data = Vec::new();
            for _ in 0..n {
                data.push(next);
                next = next.wrapping_add(1);
            }
            buf.write(&data);
            queue.extend_from_slice(&data);
            while queue.len() > capacity {
                queue.remove(0);
            }
            let m = (round * 5 + 3) % 11;
            let mut expected = Vec::new();
            for _ in 0..m {
                if queue.is_empty() {
                    expected.push(0);
                } else {
                    expected.push(queue.remove(0));
                }
            }
            assert_eq!(buf.read(m), expected);
        }
    }
}

#[test]
fn ring_buffer_without_capacity_is_silent() {
    let mut buf = RingBuffer::new(0);
    buf.write(&[1, 2, 3]);
    assert_eq!(buf.read(2), vec![0, 0]);
    assert!(buf.read(0).is_empty());
}

#[test]
fn ring_buffer_keeps_the_end_of_a_large_write() {
    let mut buf = RingBuffer::new(3);
    buf.write(&[9]);
    buf.write(&[1, 2, 3, 4, 5]);
    assert_eq!(buf.read(3), vec![3, 4, 5]);
}

#[test]
fn ring_buffer_pieces_are_the_whole() {
    let mut whole = RingBuffer::new(6);
    whole.write(&[1, 2, 3, 4, 5, 6, 7]);
    let mut pieces = RingBuffer::new(6);
    pieces.write(&[1, 2, 3]);
    pieces.write(&[4, 5, 6, 7]);
    let mut read = pieces.read(2);
    read.extend_from_slice(&pieces.read(5));
    assert_eq!(read, whole.read(7));
    assert_eq!(read, vec![2, 3, 4, 5, 6, 7, 0]);
}

#[test]
fn shared_buffer_starts_empty_and_is_shared() {
    let shared = new_shared_buffer(4);
    let other = shared.clone();
    assert_eq!(shared.lock().unwrap().read(2), vec![0, 0]);
    other.lock().unwrap().write(&[1, 2, 3, 4, 5]);
    assert_eq!(shared.lock().unwrap().read(5), vec![2, 3, 4, 5, 0]);
}

#[test]
fn silence_pads_but_never_cuts() {
    let mut data = vec![1, 2];
    pad_with_silence(&mut data, 4);
    assert_eq!(data, vec![1, 2, 0, 0]);
    pad_with_silence(&mut data, 1);
    assert_eq!(data, vec![1, 2, 0, 0]);
}

#[test]
fn mix_continues_the_shorter_with_silence() {
    let long = bytes_of(&[1, 2, 3]);
    let short = bytes_of(&[10]);
    assert_eq!(samples_of(&mix_samples(&long, &short)), vec![11, 2, 3]);
    assert_eq!(samples_of(&mix_samples(&short, &long)), vec![11, 2, 3]);
    assert_eq!(mix_samples(&long, &[]), long);
    // Bytes that make up no whole sample do not count.
    assert_eq!(mix_samples(&[5], &[7]), Vec::<u8>::new());
    assert_eq!(samples_of(&mix_samples(&[1, 0, 9], &bytes_of(&[1, 1]))), vec![2, 1]);
    assert_eq!(samples_of(&mix_samples(&[1, 0, 9], &[])), vec![1]);
}

#[test]
fn samples_survive_their_bytes() {
    for v in i16::MIN..=i16::MAX {
        let mut bytes = Vec::new();
        push_sample(&mut bytes, v);
        assert_eq!(bytes, v.to_le_bytes());
        assert_eq!(sample_from_bytes(bytes[0], bytes[1]), v);
        assert_eq!(read_sample(&bytes, 0), v);
        assert_eq!(read_sample(&bytes, 1), 0);
    }
}

#[test]
fn peak_is_the_loudest_sample() {
    assert_eq!(peak_i16(&[]), 0);
    assert_eq!(peak_i16(&[7]), 0);
    assert_eq!(peak_i16(&bytes_of(&[0, 0])), 0);
    assert_eq!(peak_i16(&bytes_of(&[3, -5, 4])), 5);
    assert_eq!(peak_i16(&bytes_of(&[32767])), 32767);
    assert_eq!(peak_i16(&bytes_of(&[1, -32768, 32767])), 32768);
}

#[test]
fn next_chunk_mixes_what_both_buffers_hold() {
    let mut mic = RingBuffer::new(8);
    let mut loopback = RingBuffer::new(8);
    mic.write(&bytes_of(&[100, -200, 300]));
    loopback.write(&bytes_of(&[1, 2]));
    let chunk = next_chunk(&mut mic, &mut loopback, 4);
    assert_eq!(samples_of(&chunk.data), vec![101, -198]);
    assert_eq!(chunk.peak, 198);
    let rest = next_chunk(&mut mic, &mut loopback, 4);
    assert_eq!(samples_of(&rest.data), vec![300, 0]);
    assert_eq!(rest.peak, 300);
    let dry = next_chunk(&mut mic, &mut loopback, 6);
    assert_eq!(dry.data, vec![0; 6]);
    assert_eq!(dry.peak, 0);
    assert_eq!(next_chunk(&mut mic, &mut loopback, 3).data, vec![0; 2]);
}

#[test]
fn pipeline_hands_out_each_thread_once() {
    let mut pipeline = Pipeline::start("mic", "loopback", "render");
    assert!(pipeline.is_running());
    assert_eq!(pipeline.stop(), vec!["mic", "loopback", "render"]);
    assert!(!pipeline.is_running());
    assert!(pipeline.stop().is_empty());
    assert!(!pipeline.is_running());
}

#[test]
fn format_constants() {
    assert_eq!(BUFFER_CAPACITY, SAMPLE_RATE as usize * BYTES_PER_SAMPLE * 2);
    assert_eq!(CHUNK_BYTES, CHUNK_FRAMES * BYTES_PER_SAMPLE);
    assert_eq!(CHANNELS, 1);
}
