use subtitles::pcm::decode_pcm;
use subtitles::pcm::encode_pcm;

#[test]
fn decode_pairs_little_endian_in_order() {
    let bytes: Vec<u8> = vec![0x01, 0x02, 0x10, 0x00, 0xff, 0x7f];
    let samples = decode_pcm(&bytes);
    assert_eq!(samples, vec![0x0201, 0x0010, 0x7fff]);
}

#[test]
fn decode_negative_samples() {
    // 0x8000 little-endian is the most negative 16-bit sample.
    let bytes: Vec<u8> = vec![0x00, 0x80, 0xff, 0xff];
    let samples = decode_pcm(&bytes);
    assert_eq!(samples, vec![i16::MIN, -1]);
}

#[test]
fn decode_empty_stream() {
    let bytes: Vec<u8> = Vec::new();
    let samples = decode_pcm(&bytes);
    assert!(samples.is_empty());
}

#[test]
fn decode_drops_trailing_odd_byte() {
    let bytes: Vec<u8> = vec![0x01, 0x02, 0x03];
    let samples = decode_pcm(&bytes);
    assert_eq!(samples, vec![0x0201]);
}

#[test]
fn even_stream_round_trips_byte_exact() {
    let bytes: Vec<u8> = vec![0x00, 0x00, 0x34, 0x12, 0xcd, 0xab, 0xff, 0x7f, 0x00, 0x80];
    let samples = decode_pcm(&bytes);
    let back = encode_pcm(&samples);
    assert_eq!(back, bytes);
}

#[test]
fn samples_round_trip_through_bytes() {
    let samples: Vec<i16> = vec![i16::MIN, -1, 0, 1, 12345, i16::MAX];
    let bytes = encode_pcm(&samples);
    assert_eq!(bytes.len(), 2 * samples.len());
    let back = decode_pcm(&bytes);
    assert_eq!(back, samples);
}
