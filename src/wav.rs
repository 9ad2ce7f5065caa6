//! Decoding of a canonical 44-byte WAV header and its 16-bit PCM samples.
use vstd::prelude::*;
use vstd::arithmetic::div_mod::lemma_fundamental_div_mod;
use crate::error::SpectrumError;
use crate::segment::segment_spec;

verus! {

/// Length of the canonical WAV header, in bytes.
pub const HEADER_LEN: usize = 44;

/// `"RIFF"` read as a little-endian integer.
pub const RIFF_TAG: u32 = 0x4646_4952;

/// `"WAVE"` read as a little-endian integer.
pub const WAVE_TAG: u32 = 0x4556_4157;

/// `"data"` read as a little-endian integer.
pub const DATA_TAG: u32 = 0x6174_6164;

/// Bit depth of the samples this decoder reads.
pub const SAMPLE_BITS: u16 = 16;

/// The fields of a canonical WAV header. The four-byte tags are held as the
/// little-endian integer of their bytes.
#[derive(Debug, Clone, Copy, PartialEq, Eq, Structural)]
pub struct WavHeader {
    pub riff_tag: u32,
    pub overall_size: u32,
    pub wave_tag: u32,
    pub fmt_marker: u32,
    pub fmt_length: u32,
    pub format_type: u16,
    pub channel_count: u16,
    pub sample_rate: u32,
    pub byte_rate: u32,
    pub block_align: u16,
    pub bits_per_sample: u16,
    pub data_marker: u32,
    pub data_size: u32,
}

impl WavHeader {
    /// The header's tags are `RIFF`, `WAVE` and `data`, it has at least one
    /// channel, and its samples are 16 bits wide.
    pub open spec fn is_valid(self) -> bool {
        &&& self.riff_tag == RIFF_TAG
        &&& self.wave_tag == WAVE_TAG
        &&& self.data_marker == DATA_TAG
        &&& self.channel_count > 0
        &&& self.bits_per_sample == SAMPLE_BITS
    }

    /// Number of frames the data chunk declares:
    /// `data_size / (channel_count * bits_per_sample / 8)`.
    pub open spec fn frame_count(self) -> nat {
        self.data_size as nat / (self.channel_count as nat * (self.bits_per_sample as nat / 8))
    }
}

/// The little-endian 16-bit value of `b[o]` and `b[o + 1]`.
pub open spec fn le16(b: Seq<u8>, o: int) -> nat {
    b[o] as nat + 256 * b[o + 1] as nat
}

/// The little-endian 32-bit value of `b[o .. o + 4]`.
pub open spec fn le32(b: Seq<u8>, o: int) -> nat {
    le16(b, o) + 65536 * le16(b, o + 2)
}

/// The header that the first 44 bytes of `b` encode.
pub open spec fn header_spec(b: Seq<u8>) -> WavHeader {
    WavHeader {
        riff_tag: le32(b, 0) as u32,
        overall_size: le32(b, 4) as u32,
        wave_tag: le32(b, 8) as u32,
        fmt_marker: le32(b, 12) as u32,
        fmt_length: le32(b, 16) as u32,
        format_type: le16(b, 20) as u16,
        channel_count: le16(b, 22) as u16,
        sample_rate: le32(b, 24) as u32,
        byte_rate: le32(b, 28) as u32,
        block_align: le16(b, 32) as u16,
        bits_per_sample: le16(b, 34) as u16,
        data_marker: le32(b, 36) as u32,
        data_size: le32(b, 40) as u32,
    }
}

/// The signed 16-bit sample at position `k` of the data that follows the header.
pub open spec fn sample_spec(b: Seq<u8>, k: int) -> int {
    let u = le16(b, HEADER_LEN + 2 * k);
    if u >= 32768 {
        u - 65536
    } else {
        u as int
    }
}

/// The outcome of decoding: the frame count, and every sample of every
/// frame in file order (channels are not separated).
#[derive(Debug)]
pub struct DecodedAudio {
    pub sample_count: u32,
    pub samples: Vec<i16>,
}

fn read_le16(b: &Vec<u8>, o: usize) -> (r: u16)
    requires
        o + 2 <= b@.len(),
    ensures
        r as nat == le16(b@, o as int),
{
    let len = b.len();
    assert(o + 1 < len);
    let lo = b[o] as u32;
    let hi = b[o + 1] as u32;
    assert(lo <= 255 && hi <= 255);
    (lo + hi * 256) as u16
}

fn read_le32(b: &Vec<u8>, o: usize) -> (r: u32)
    requires
        o + 4 <= b@.len(),
    ensures
        r as nat == le32(b@, o as int),
{
    let len = b.len();
    assert(o + 2 < len);
    let lo = read_le16(b, o);
    let hi = read_le16(b, o + 2);
    (lo as u32) + (hi as u32) * 65536
}

proof fn lemma_frames_fit(data_size: nat, channels: nat)
    requires
        channels > 0,
    ensures
        0 <= (data_size / (channels * 2)) * channels,
        2 * ((data_size / (channels * 2)) * channels) <= data_size,
{
    let fb = channels * 2;
    let f = data_size / fb;
    lemma_fundamental_div_mod(data_size as int, fb as int);
    assert(2 * (f * channels) == f * fb) by (nonlinear_arith)
        requires fb == channels * 2;
    assert(0 <= f * channels) by (nonlinear_arith)
        requires f >= 0, channels >= 0;
}

/// Reads the header fields from the first 44 bytes and checks them.
pub fn parse_header(bytes: &Vec<u8>) -> (r: Result<WavHeader, SpectrumError>)
    ensures
        bytes@.len() < HEADER_LEN ==> r == Err::<WavHeader, SpectrumError>(
            SpectrumError::TruncatedHeader,
        ),
        bytes@.len() >= HEADER_LEN && !header_spec(bytes@).is_valid() ==> r == Err::<
            WavHeader,
            SpectrumError,
        >(SpectrumError::InvalidHeader),
        bytes@.len() >= HEADER_LEN && header_spec(bytes@).is_valid() ==> r == Ok::<
            WavHeader,
            SpectrumError,
        >(header_spec(bytes@)),
{
    if bytes.len() < HEADER_LEN {
        return Err(SpectrumError::TruncatedHeader);
    }
    let h = WavHeader {
        riff_tag: read_le32(bytes, 0),
        overall_size: read_le32(bytes, 4),
        wave_tag: read_le32(bytes, 8),
        fmt_marker: read_le32(bytes, 12),
        fmt_length: read_le32(bytes, 16),
        format_type: read_le16(bytes, 20),
        channel_count: read_le16(bytes, 22),
        sample_rate: read_le32(bytes, 24),
        byte_rate: read_le32(bytes, 28),
        block_align: read_le16(bytes, 32),
        bits_per_sample: read_le16(bytes, 34),
        data_marker: read_le32(bytes, 36),
        data_size: read_le32(bytes, 40),
    };
    if h.riff_tag != RIFF_TAG || h.wave_tag != WAVE_TAG || h.data_marker != DATA_TAG
        || h.channel_count == 0 || h.bits_per_sample != SAMPLE_BITS {
        return Err(SpectrumError::InvalidHeader);
    }
    Ok(h)
}

/// Decodes a whole WAV file held in memory: checks the header, then reads
/// `channel_count` little-endian signed 16-bit samples for each of the
/// declared frames.
pub fn decode(bytes: &Vec<u8>) -> (r: Result<DecodedAudio, SpectrumError>)
    ensures
        bytes@.len() < HEADER_LEN ==> r == Err::<DecodedAudio, SpectrumError>(
            SpectrumError::TruncatedHeader,
        ),
        bytes@.len() >= HEADER_LEN && !header_spec(bytes@).is_valid() ==> r == Err::<
            DecodedAudio,
            SpectrumError,
        >(SpectrumError::InvalidHeader),
        bytes@.len() >= HEADER_LEN && header_spec(bytes@).is_valid()
            && header_spec(bytes@).data_size > bytes@.len() - HEADER_LEN ==> r == Err::<
            DecodedAudio,
            SpectrumError,
        >(SpectrumError::TruncatedData),
        bytes@.len() >= HEADER_LEN && header_spec(bytes@).is_valid()
            && header_spec(bytes@).data_size <= bytes@.len() - HEADER_LEN ==> {
            let h = header_spec(bytes@);
            &&& r is Ok
            &&& r->Ok_0.sample_count == h.frame_count()
            &&& r->Ok_0.samples@.len() == h.frame_count() * h.channel_count
            &&& forall|k: int|
                0 <= k < r->Ok_0.samples@.len() ==> #[trigger] r->Ok_0.samples@[k] as int
                    == sample_spec(bytes@, k)
        },
{
    let h = match parse_header(bytes) {
        Ok(h) => h,
        Err(e) => {
            return Err(e);
        },
    };
    if h.data_size as usize > bytes.len() - HEADER_LEN {
        return Err(SpectrumError::TruncatedData);
    }
    let n = bytes.len();
    let frame_bytes: u32 = h.channel_count as u32 * 2;
    let frames: u32 = h.data_size / frame_bytes;
    proof {
        lemma_frames_fit(h.data_size as nat, h.channel_count as nat);
        assert(frames == h.frame_count());
    }
    let total: u32 = frames * (h.channel_count as u32);
    let mut samples: Vec<i16> = Vec::with_capacity(total as usize);
    let mut k: u32 = 0;
    while k < total
        invariant
            k <= total,
            2 * total <= h.data_size,
            h.data_size <= bytes@.len() - HEADER_LEN,
            bytes@.len() >= HEADER_LEN,
            bytes@.len() == n,
            samples@.len() == k,
            forall|j: int| 0 <= j < k ==> #[trigger] samples@[j] as int == sample_spec(bytes@, j),
        decreases total - k,
    {
        let o: usize = HEADER_LEN + 2 * (k as usize);
        let u = read_le16(bytes, o);
        let s: i16 = if u >= 32768 {
            (u as i32 - 65536) as i16
        } else {
            u as i16
        };
        samples.push(s);
        k = k + 1;
    }
    Ok(DecodedAudio { sample_count: frames, samples })
}

/// A valid header whose data chunk is empty declares no frames and no
/// samples, and the segmentation of its samples has no block, whatever the
/// window.
pub proof fn lemma_empty_data_has_no_blocks(b: Seq<u8>, w: nat)
    requires
        b.len() >= HEADER_LEN,
        header_spec(b).is_valid(),
        header_spec(b).data_size == 0,
        w > 0,
    ensures
        header_spec(b).frame_count() == 0,
        header_spec(b).frame_count() * header_spec(b).channel_count == 0,
        segment_spec(header_spec(b).frame_count(), w).len() == 0,
{
    let h = header_spec(b);
    let d = h.channel_count as nat * (h.bits_per_sample as nat / 8);
    assert(d == h.channel_count as nat * 2);
    vstd::arithmetic::div_mod::lemma_div_of0(d as int);
    vstd::arithmetic::div_mod::lemma_div_of0(w as int);
    vstd::arithmetic::div_mod::lemma_small_mod(0, w);
    assert(h.frame_count() == 0);
}

} // verus!
