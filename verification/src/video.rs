//! Turning the length-prefixed NAL units of an MP4 (AVCC) sample into the
//! start-code-delimited Annex B stream an H.264 decoder reads, and what a
//! decoding worker reports.
use vstd::prelude::*;

verus! {

/// Largest file decoded in memory.
pub const MAX_VIDEO_BYTES: u64 = 536_870_912;

/// One decoded picture, RGB, with its presentation time in microseconds.
pub struct Frame {
    pub pts_micros: u64,
    pub width: usize,
    pub height: usize,
    pub rgb: Vec<u8>,
}

/// What the file contains, learned before decoding starts; the duration
/// is in milliseconds.
#[derive(Debug, Clone, PartialEq, Eq)]
pub struct Probe {
    pub width: u16,
    pub height: u16,
    pub duration_ms: u64,
    pub has_aac_audio: bool,
    pub video_codec: String,
}

/// What the decoding worker reports, in order.
pub enum Event {
    Probed(Probe),
    Frame(Frame),
    Ended,
    Failed(String),
}

/// The NAL length held by big-endian bytes, kept to the low 64 bits.
pub open spec fn nal_length(bytes: Seq<u8>) -> u64
    decreases bytes.len(),
{
    if bytes.len() == 0 {
        0
    } else {
        ((nal_length(bytes.drop_last()) << 8u64) | (bytes.last() as u64)) as u64
    }
}

/// The Annex B start code.
pub open spec fn start_code() -> Seq<u8> {
    seq![0u8, 0u8, 0u8, 1u8]
}

/// The Annex B bytes of the NAL units from `pos` on, each prefixed by
/// `length_size` big-endian length bytes; `None` where a unit runs past the
/// sample. Fewer than `length_size` bytes left end the stream.
pub open spec fn annex_b_from(sample: Seq<u8>, length_size: nat, pos: nat) -> Option<Seq<u8>>
    decreases sample.len() - pos,
{
    if length_size == 0 || pos + length_size > sample.len() {
        Some(Seq::empty())
    } else {
        let len = nal_length(sample.subrange(pos as int, (pos + length_size) as int)) as usize;
        let end = pos + length_size + len;
        if end > sample.len() {
            None
        } else {
            match annex_b_from(sample, length_size, end as nat) {
                None => None,
                Some(rest) => Some(
                    start_code() + sample.subrange((pos + length_size) as int, end as int) + rest,
                ),
            }
        }
    }
}

/// Convert one AVCC sample into Annex B, written into `out`.
pub fn avcc_to_annex_b(sample: &[u8], length_size: usize, out: &mut Vec<u8>) -> (r: Result<
    (),
    String,
>)
    requires
        length_size > 0,
    ensures
        r is Ok <==> annex_b_from(sample@, length_size as nat, 0) is Some,
        r is Ok ==> final(out)@ == annex_b_from(sample@, length_size as nat, 0)->Some_0,
{
    out.clear();
    let mut pos: usize = 0;
    let ghost total = annex_b_from(sample@, length_size as nat, 0);
    while pos <= sample.len() && length_size <= sample.len() - pos
        invariant
            length_size > 0,
            pos <= sample@.len(),
            total == annex_b_from(sample@, length_size as nat, 0),
            match annex_b_from(sample@, length_size as nat, pos as nat) {
                None => total is None,
                Some(rest) => total is Some && total->Some_0 == out@ + rest,
            },
        decreases sample@.len() - pos,
    {
        let mut len: u64 = 0;
        let mut k: usize = 0;
        let sample_len = sample.len();
        while k < length_size
            invariant
                sample_len == sample@.len(),
                pos + length_size <= sample@.len(),
                k <= length_size,
                len == nal_length(sample@.subrange(pos as int, pos + k)),
            decreases length_size - k,
        {
            let byte = sample[pos + k];
            proof {
                let prefix = sample@.subrange(pos as int, pos + k + 1);
                assert(prefix.drop_last() =~= sample@.subrange(pos as int, pos + k));
                assert(prefix.last() == byte);
            }
            len = (len << 8u64) | (byte as u64);
            k = k + 1;
        }
        let start = pos + length_size;
        let nal_len = len as usize;
        if nal_len > sample.len() - start {
            return Err(String::from_str("NAL runs past the sample"));
        }
        let end = start + nal_len;
        let ghost before = out@;
        let mut i: usize = start;
        out.push(0u8);
        out.push(0u8);
        out.push(0u8);
        out.push(1u8);
        while i < end
            invariant
                start <= i <= end,
                end <= sample@.len(),
                out@ == before + start_code() + sample@.subrange(start as int, i as int),
            decreases end - i,
        {
            out.push(sample[i]);
            i = i + 1;
            assert(out@ =~= before + start_code() + sample@.subrange(start as int, i as int));
        }
        proof {
            assert(before + start_code() + sample@.subrange(start as int, end as int)
                =~= out@);
            match annex_b_from(sample@, length_size as nat, end as nat) {
                Some(rest) => {
                    assert(before + (start_code() + sample@.subrange(start as int, end as int)
                        + rest) =~= out@ + rest);
                },
                None => {},
            }
        }
        pos = end;
    }
    proof {
        assert(out@ + Seq::<u8>::empty() =~= out@);
    }
    Ok(())
}

} // verus!
