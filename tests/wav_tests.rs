use wav_spectrum::error::SpectrumError;
use wav_spectrum::segment::segment;
use wav_spectrum::wav::{decode, parse_header, DATA_TAG, RIFF_TAG, WAVE_TAG};

fn header(channels: u16, bits: u16, data_size: u32) -> Vec<u8> {
    let mut b: Vec<u8> = Vec::new();
    b.extend_from_slice(b"RIFF");
    b.extend_from_slice(&(36 + data_size).to_le_bytes());
    b.extend_from_slice(b"WAVE");
    b.extend_from_slice(b"fmt ");
    b.extend_from_slice(&16u32.to_le_bytes());
    b.extend_from_slice(&1u16.to_le_bytes());
    b.extend_from_slice(&channels.to_le_bytes());
    b.extend_from_slice(&44100u32.to_le_bytes());
    b.extend_from_slice(&(44100 * channels as u32 * 2).to_le_bytes());
    b.extend_from_slice(&(channels * 2).to_le_bytes());
    b.extend_from_slice(&bits.to_le_bytes());
    b.extend_from_slice(b"data");
    b.extend_from_slice(&data_size.to_le_bytes());
    b
}

#[test]
fn parses_header_fields() {
    let h = parse_header(&header(2, 16, 8)).unwrap();
    assert_eq!(h.riff_tag, RIFF_TAG);
    assert_eq!(h.wave_tag, WAVE_TAG);
    assert_eq!(h.data_marker, DATA_TAG);
    assert_eq!(h.overall_size, 44);
    assert_eq!(h.fmt_length, 16);
    assert_eq!(h.format_type, 1);
    assert_eq!(h.channel_count, 2);
    assert_eq!(h.sample_rate, 44100);
    assert_eq!(h.byte_rate, 176400);
    assert_eq!(h.block_align, 4);
    assert_eq!(h.bits_per_sample, 16);
    assert_eq!(h.data_size, 8);
}

#[test]
fn empty_data_gives_no_samples_and_no_blocks() {
    let d = decode(&header(1, 16, 0)).unwrap();
    assert_eq!(d.sample_count, 0);
    assert!(d.samples.is_empty());
    assert!(segment(d.sample_count as usize, 1024).is_empty());
}

#[test]
fn stereo_samples_stay_interleaved() {
    let mut b = header(2, 16, 12);
    for s in [1i16, -1, 2, -2, 300, -32768] {
        b.extend_from_slice(&s.to_le_bytes());
    }
    let d = decode(&b).unwrap();
    assert_eq!(d.sample_count, 3);
    assert_eq!(d.samples, vec![1, -1, 2, -2, 300, -32768]);
}

#[test]
fn mono_samples_decode_little_endian_signed() {
    let mut b = header(1, 16, 6);
    b.extend_from_slice(&[0xff, 0x7f, 0x00, 0x80, 0x34, 0x12]);
    let d = decode(&b).unwrap();
    assert_eq!(d.sample_count, 3);
    assert_eq!(d.samples, vec![32767, -32768, 0x1234]);
}

#[test]
fn odd_data_size_drops_partial_frame() {
    let mut b = header(2, 16, 6);
    b.extend_from_slice(&[1, 0, 2, 0, 3, 0]);
    let d = decode(&b).unwrap();
    assert_eq!(d.sample_count, 1);
    assert_eq!(d.samples, vec![1, 2]);
}

#[test]
fn short_input_is_truncated_header() {
    let b = header(1, 16, 0);
    assert_eq!(decode(&b[..43].to_vec()).unwrap_err(), SpectrumError::TruncatedHeader);
    assert_eq!(parse_header(&Vec::new()).unwrap_err(), SpectrumError::TruncatedHeader);
}

#[test]
fn missing_data_is_truncated_data() {
    let mut b = header(1, 16, 10);
    b.extend_from_slice(&[0, 0, 0, 0]);
    assert_eq!(decode(&b).unwrap_err(), SpectrumError::TruncatedData);
}

#[test]
fn bad_tags_or_fields_are_invalid_header() {
    let mut b = header(1, 16, 0);
    b[0] = b'X';
    assert_eq!(decode(&b).unwrap_err(), SpectrumError::InvalidHeader);
    let mut b = header(1, 16, 0);
    b[8] = b'X';
    assert_eq!(decode(&b).unwrap_err(), SpectrumError::InvalidHeader);
    let mut b = header(1, 16, 0);
    b[36] = b'X';
    assert_eq!(decode(&b).unwrap_err(), SpectrumError::InvalidHeader);
    assert_eq!(decode(&header(0, 16, 0)).unwrap_err(), SpectrumError::InvalidHeader);
    assert_eq!(decode(&header(1, 8, 0)).unwrap_err(), SpectrumError::InvalidHeader);
}

#[test]
fn error_messages_are_distinct() {
    let all = [
        SpectrumError::FileNotFound,
        SpectrumError::TruncatedHeader,
        SpectrumError::InvalidHeader,
        SpectrumError::TruncatedData,
        SpectrumError::InvalidLength,
    ];
    for (i, a) in all.iter().enumerate() {
        for b in &all[i + 1..] {
            assert_ne!(a.message(), b.message());
        }
    }
    assert_eq!(SpectrumError::TruncatedData.message(), "WAV data chunk is truncated");
}
