//! 16-bit PCM mono WAV encoding: a hand-rolled RIFF header followed by the samples,
//! little-endian.
use vstd::prelude::*;

verus! {

/// The sample rate of the rendered track.
pub const SAMPLE_RATE: u32 = 44_100;

/// Little-endian bytes of a 32-bit value.
pub open spec fn le32(v: nat) -> Seq<u8> {
    seq![(v % 256) as u8, ((v / 256) % 256) as u8, ((v / 65536) % 256) as u8, ((v / 16777216) % 256) as u8]
}

/// Little-endian bytes of a 16-bit value.
pub open spec fn le16(v: nat) -> Seq<u8> {
    seq![(v % 256) as u8, ((v / 256) % 256) as u8]
}

/// The two's-complement 16-bit pattern of a sample.
pub open spec fn sample_bits(s: i16) -> nat {
    if s < 0 {
        (s + 65536) as nat
    } else {
        s as nat
    }
}

/// The data chunk: each sample's two little-endian bytes, in order.
pub open spec fn pcm_bytes(pcm: Seq<i16>) -> Seq<u8>
    decreases pcm.len(),
{
    if pcm.len() == 0 {
        seq![]
    } else {
        pcm_bytes(pcm.drop_last()) + le16(sample_bits(pcm.last()))
    }
}

/// `RIFF` `WAVE` `fmt ` `data`.
pub open spec fn tag_riff() -> Seq<u8> {
    seq![0x52u8, 0x49, 0x46, 0x46]
}

pub open spec fn tag_wave() -> Seq<u8> {
    seq![0x57u8, 0x41, 0x56, 0x45]
}

pub open spec fn tag_fmt() -> Seq<u8> {
    seq![0x66u8, 0x6d, 0x74, 0x20]
}

pub open spec fn tag_data() -> Seq<u8> {
    seq![0x64u8, 0x61, 0x74, 0x61]
}

/// The 44-byte header of a mono 16-bit PCM WAV at `SAMPLE_RATE` whose data chunk is `d` bytes.
pub open spec fn wav_header(d: nat) -> Seq<u8> {
    tag_riff() + le32(36 + d) + tag_wave() + tag_fmt() + le32(16) + le16(1) + le16(1) + le32(
        SAMPLE_RATE as nat,
    ) + le32(SAMPLE_RATE as nat * 2) + le16(2) + le16(16) + tag_data() + le32(d)
}

/// The whole file.
pub open spec fn spec_wav(pcm: Seq<i16>) -> Seq<u8> {
    wav_header(pcm.len() * 2) + pcm_bytes(pcm)
}

fn push_le32(out: &mut Vec<u8>, v: u32)
    ensures
        final(out)@ == old(out)@ + le32(v as nat),
{
    out.push((v % 256) as u8);
    out.push(((v / 256) % 256) as u8);
    out.push(((v / 65536) % 256) as u8);
    out.push(((v / 16777216) % 256) as u8);
    assert(out@ =~= old(out)@ + le32(v as nat));
}

fn push_le16(out: &mut Vec<u8>, v: u16)
    ensures
        final(out)@ == old(out)@ + le16(v as nat),
{
    out.push((v % 256) as u8);
    out.push(((v / 256) % 256) as u8);
    assert(out@ =~= old(out)@ + le16(v as nat));
}

fn push_tag(out: &mut Vec<u8>, a: u8, b: u8, c: u8, d: u8)
    ensures
        final(out)@ == old(out)@ + seq![a, b, c, d],
{
    out.push(a);
    out.push(b);
    out.push(c);
    out.push(d);
    assert(out@ =~= old(out)@ + seq![a, b, c, d]);
}

/// Encode 16-bit samples as a PCM mono WAV (`SAMPLE_RATE`) — header, then the samples.
pub fn encode_wav(pcm: &[i16]) -> (r: Vec<u8>)
    requires
        pcm@.len() * 2 + 36 <= u32::MAX,
    ensures
        r@ == spec_wav(pcm@),
        r@.len() == 44 + 2 * pcm@.len(),
{
    let data_bytes = (pcm.len() * 2) as u32;
    let mut out: Vec<u8> = Vec::new();
    push_tag(&mut out, 0x52, 0x49, 0x46, 0x46);
    push_le32(&mut out, 36 + data_bytes);
    push_tag(&mut out, 0x57, 0x41, 0x56, 0x45);
    push_tag(&mut out, 0x66, 0x6d, 0x74, 0x20);
    push_le32(&mut out, 16);
    push_le16(&mut out, 1);
    push_le16(&mut out, 1);
    push_le32(&mut out, SAMPLE_RATE);
    push_le32(&mut out, SAMPLE_RATE * 2);
    push_le16(&mut out, 2);
    push_le16(&mut out, 16);
    push_tag(&mut out, 0x64, 0x61, 0x74, 0x61);
    push_le32(&mut out, data_bytes);
    let ghost h = out@;
    assert(h =~= wav_header(pcm@.len() * 2));
    let mut i: usize = 0;
    while i < pcm.len()
        invariant
            i <= pcm@.len(),
            out@ == h + pcm_bytes(pcm@.take(i as int)),
        decreases pcm@.len() - i,
    {
        let s = pcm[i];
        let bits: u16 = if s < 0 {
            (s as i32 + 65536) as u16
        } else {
            s as u16
        };
        push_le16(&mut out, bits);
        proof {
            let t = pcm@.take(i + 1);
            assert(t.drop_last() =~= pcm@.take(i as int));
            assert(t.last() == s);
            assert(out@ =~= h + pcm_bytes(t));
        }
        i += 1;
    }
    assert(pcm@.take(i as int) =~= pcm@);
    proof {
        lemma_pcm_len(pcm@);
    }
    out
}

pub proof fn lemma_pcm_len(pcm: Seq<i16>)
    ensures
        pcm_bytes(pcm).len() == 2 * pcm.len(),
    decreases pcm.len(),
{
    if pcm.len() > 0 {
        lemma_pcm_len(pcm.drop_last());
    }
}

} // verus!
