use ffsubsync_wasm::wav::{parse_wav, WavError};

fn wav(format: u16, channels: u16, rate: u32, bits: u16, samples: &[i16]) -> Vec<u8> {
    let mut b = Vec::new();
    b.extend_from_slice(b"RIFF");
    b.extend_from_slice(&(36 + 2 * samples.len() as u32).to_le_bytes());
    b.extend_from_slice(b"WAVE");
    b.extend_from_slice(b"fmt ");
    b.extend_from_slice(&16u32.to_le_bytes());
    b.extend_from_slice(&format.to_le_bytes());
    b.extend_from_slice(&channels.to_le_bytes());
    b.extend_from_slice(&rate.to_le_bytes());
    b.extend_from_slice(&(rate * 2).to_le_bytes());
    b.extend_from_slice(&2u16.to_le_bytes());
    b.extend_from_slice(&bits.to_le_bytes());
    b.extend_from_slice(b"data");
    b.extend_from_slice(&(2 * samples.len() as u32).to_le_bytes());
    for s in samples {
        b.extend_from_slice(&s.to_le_bytes());
    }
    b
}

#[test]
fn ten_byte_buffer_is_too_small() {
    let e = parse_wav(&[0u8; 10]).unwrap_err();
    assert_eq!(e, WavError::TooSmall);
    assert_eq!(e.message(), "buffer too small");
}

#[test]
fn stereo_is_refused() {
    let e = parse_wav(&wav(1, 2, 16000, 16, &[1, 2])).unwrap_err();
    assert_eq!(e, WavError::NotMono);
    assert_eq!(e.message(), "only mono audio supported");
}

#[test]
fn mono_samples_decode() {
    let (pcm, rate) = parse_wav(&wav(1, 1, 22050, 16, &[0, 1, -1, 32767, -32768, 258])).unwrap();
    assert_eq!(rate, 22050);
    assert_eq!(pcm, vec![0, 1, -1, 32767, -32768, 258]);
}

#[test]
fn odd_data_byte_is_dropped() {
    let mut b = wav(1, 1, 8000, 16, &[5, 6, 7, 8]);
    // Declare 7 data bytes: three whole samples.
    let n = b.len();
    b[n - 12..n - 8].copy_from_slice(&7u32.to_le_bytes());
    let (pcm, _) = parse_wav(&b).unwrap();
    assert_eq!(pcm, vec![5, 6, 7]);
}

#[test]
fn unknown_chunk_is_skipped() {
    let base = wav(1, 1, 8000, 16, &[9, 10]);
    let mut b = base[..36].to_vec();
    b.extend_from_slice(b"LIST");
    b.extend_from_slice(&4u32.to_le_bytes());
    b.extend_from_slice(b"abcd");
    b.extend_from_slice(&base[36..]);
    let (pcm, rate) = parse_wav(&b).unwrap();
    assert_eq!(rate, 8000);
    assert_eq!(pcm, vec![9, 10]);
}

#[test]
fn bad_magic_is_refused() {
    let mut b = wav(1, 1, 8000, 16, &[1, 2, 3, 4]);
    b[0] = b'X';
    assert_eq!(parse_wav(&b).unwrap_err(), WavError::MissingHeader);
    let mut b = wav(1, 1, 8000, 16, &[1, 2, 3, 4]);
    b[8] = b'X';
    assert_eq!(parse_wav(&b).unwrap_err(), WavError::MissingHeader);
}

#[test]
fn compressed_format_is_refused() {
    assert_eq!(parse_wav(&wav(3, 1, 8000, 16, &[1, 2])).unwrap_err(), WavError::NotPcm);
}

#[test]
fn eight_bit_is_refused() {
    assert_eq!(parse_wav(&wav(1, 1, 8000, 8, &[1, 2])).unwrap_err(), WavError::NotSixteenBit);
}

#[test]
fn zero_rate_is_refused() {
    assert_eq!(parse_wav(&wav(1, 1, 0, 16, &[1, 2])).unwrap_err(), WavError::InvalidSampleRate);
}

#[test]
fn oversized_data_chunk_means_no_data() {
    let mut b = wav(1, 1, 8000, 16, &[1, 2, 3, 4]);
    let n = b.len();
    b[n - 12..n - 8].copy_from_slice(&1000u32.to_le_bytes());
    assert_eq!(parse_wav(&b).unwrap_err(), WavError::MissingData);
}

#[test]
fn missing_format_chunk_is_not_pcm() {
    let mut b = Vec::new();
    b.extend_from_slice(b"RIFF");
    b.extend_from_slice(&100u32.to_le_bytes());
    b.extend_from_slice(b"WAVE");
    b.extend_from_slice(b"JUNK");
    b.extend_from_slice(&16u32.to_le_bytes());
    b.extend_from_slice(&[0u8; 16]);
    b.extend_from_slice(b"data");
    b.extend_from_slice(&4u32.to_le_bytes());
    b.extend_from_slice(&[1, 0, 2, 0]);
    assert_eq!(parse_wav(&b).unwrap_err(), WavError::NotPcm);
}

#[test]
fn short_format_chunk_at_end_is_refused() {
    let mut b = Vec::new();
    b.extend_from_slice(b"RIFF");
    b.extend_from_slice(&100u32.to_le_bytes());
    b.extend_from_slice(b"WAVE");
    b.extend_from_slice(b"JUNK");
    b.extend_from_slice(&14u32.to_le_bytes());
    b.extend_from_slice(&[0u8; 14]);
    b.extend_from_slice(b"fmt ");
    b.extend_from_slice(&2u32.to_le_bytes());
    b.extend_from_slice(&[1, 0]);
    assert_eq!(b.len(), 44);
    assert_eq!(parse_wav(&b).unwrap_err(), WavError::FormatChunkTruncated);
}
