//! Project-level checks of author inputs: PCM WAV audio headers and the
//! merge of declarations from several source fragments.
use crate::assoc::{assoc, assoc_keys, lemma_assoc_push, position_of};
use crate::strings::{concat, owned};
use vstd::prelude::*;

verus! {

/// The little-endian 16-bit number at byte `i`.
pub open spec fn le16(b: Seq<u8>, i: int) -> int {
    b[i] as int + 256 * b[i + 1] as int
}

/// The little-endian 32-bit number at byte `i`.
pub open spec fn le32(b: Seq<u8>, i: int) -> int {
    b[i] as int + 256 * b[i + 1] as int + 65536 * b[i + 2] as int + 16777216 * b[i + 3] as int
}

/// The four bytes at `i` spell `tag`.
pub open spec fn tag_at(b: Seq<u8>, i: int, tag: Seq<u8>) -> bool {
    b.subrange(i, i + 4) == tag
}

/// What the chunk walk has read so far: sample rate, channels, bits per
/// sample and the size of the sample data.
pub type WavFields = (int, int, int, int);

/// Walks the RIFF chunks from byte `pos`: a `fmt ` chunk must describe PCM
/// and sets the format fields, a `data` chunk sets the data size, other
/// chunks are skipped; a chunk of odd size is followed by a pad byte.
pub open spec fn wav_walk(b: Seq<u8>, pos: int, f: WavFields) -> Result<WavFields, Seq<char>>
    decreases b.len() + 1 - pos,
{
    if pos < 0 || pos + 8 > b.len() {
        Ok(f)
    } else {
        let n = le32(b, pos + 4);
        let start = pos + 8;
        let end = start + n;
        if end > usize::MAX {
            Err("E_AUDIO_FORMAT: size overflow"@)
        } else if end > b.len() {
            Err("E_AUDIO_FORMAT: truncated chunk"@)
        } else if tag_at(b, pos, seq![102u8, 109u8, 116u8, 32u8]) {
            if n < 16 || le16(b, start) != 1 {
                Err("E_AUDIO_FORMAT: PCM required"@)
            } else {
                wav_walk(b, end + n % 2, (le32(b, start + 4), le16(b, start + 2), le16(b, start + 14), f.3))
            }
        } else if tag_at(b, pos, seq![100u8, 97u8, 116u8, 97u8]) {
            wav_walk(b, end + n % 2, (f.0, f.1, f.2, n))
        } else {
            wav_walk(b, end + n % 2, f)
        }
    }
}

/// The duration in microseconds and the decoded size (32-bit float samples)
/// of a PCM WAV file, or why it is not one this engine plays: mono or stereo,
/// 16-bit, 8 to 96 kHz, with sample data.
pub open spec fn wav_summary(b: Seq<u8>) -> Result<(u64, u64), Seq<char>> {
    if b.len() < 44 || b.subrange(0, 4) != seq![82u8, 73u8, 70u8, 70u8] || b.subrange(8, 12) != seq![87u8, 65u8, 86u8, 69u8] {
        Err("E_AUDIO_FORMAT: v0.1 expects PCM WAV"@)
    } else {
        match wav_walk(b, 12, (0, 0, 0, 0)) {
            Err(m) => Err(m),
            Ok(f) => {
                let (rate, channels, bits, data) = f;
                if !(1 <= channels <= 2) || !(8000 <= rate <= 96000) || bits != 16 || data == 0 {
                    Err("E_AUDIO_FORMAT: expected mono/stereo 16-bit PCM"@)
                } else {
                    let frames = data / (channels * 2);
                    Ok(((frames * 1000000 / rate) as u64, (frames * channels * 4) as u64))
                }
            },
        }
    }
}

fn read16(b: &[u8], i: usize) -> (r: u16)
    requires
        i + 2 <= b@.len(),
    ensures
        r == le16(b@, i as int),
{
    let lo = b[i] as u16;
    let hi = b[i + 1] as u16;
    lo + 256 * hi
}

fn read32(b: &[u8], i: usize) -> (r: u32)
    requires
        i + 4 <= b@.len(),
    ensures
        r == le32(b@, i as int),
{
    let b0 = b[i] as u32;
    let b1 = b[i + 1] as u32;
    let b2 = b[i + 2] as u32;
    let b3 = b[i + 3] as u32;
    b0 + 256 * b1 + 65536 * b2 + 16777216 * b3
}

fn tag_is(b: &[u8], i: usize, t0: u8, t1: u8, t2: u8, t3: u8) -> (r: bool)
    requires
        i + 4 <= b@.len(),
    ensures
        r == tag_at(b@, i as int, seq![t0, t1, t2, t3]),
{
    let r = b[i] == t0 && b[i + 1] == t1 && b[i + 2] == t2 && b[i + 3] == t3;
    proof {
        if r {
            assert(b@.subrange(i as int, i + 4) =~= seq![t0, t1, t2, t3]);
        } else {
            if b@.subrange(i as int, i + 4) == seq![t0, t1, t2, t3] {
                assert(b@.subrange(i as int, i + 4)[0] == t0);
                assert(b@.subrange(i as int, i + 4)[1] == t1);
                assert(b@.subrange(i as int, i + 4)[2] == t2);
                assert(b@.subrange(i as int, i + 4)[3] == t3);
            }
        }
    }
    r
}

/// Reads the duration (microseconds) and decoded size of a PCM WAV file.
pub fn wav_info(b: &[u8]) -> (r: Result<(u64, u64), String>)
    ensures
        match wav_summary(b@) {
            Ok(v) => r == Ok::<(u64, u64), String>(v),
            Err(m) => r matches Err(e) && e@ == m,
        },
{
    if b.len() < 44 || !tag_is(b, 0, 82, 73, 70, 70) || !tag_is(b, 8, 87, 65, 86, 69) {
        return Err(owned("E_AUDIO_FORMAT: v0.1 expects PCM WAV"));
    }
    assert(b@.subrange(0, 4) == seq![82u8, 73u8, 70u8, 70u8]);
    assert(b@.subrange(8, 12) == seq![87u8, 65u8, 86u8, 69u8]);
    let mut pos: usize = 12;
    let mut rate: u32 = 0;
    let mut channels: u16 = 0;
    let mut bits: u16 = 0;
    let mut data: usize = 0;
    while pos <= b.len() && b.len() - pos >= 8
        invariant
            b@.len() >= 44,
            b@.subrange(0, 4) == seq![82u8, 73u8, 70u8, 70u8],
            b@.subrange(8, 12) == seq![87u8, 65u8, 86u8, 69u8],
            pos <= b@.len(),
            wav_walk(b@, 12, (0, 0, 0, 0)) == wav_walk(b@, pos as int, (rate as int, channels as int, bits as int, data as int)),
            data <= u32::MAX,
        decreases b@.len() - pos,
    {
        let n = read32(b, pos + 4) as usize;
        let start = pos + 8;
        let ghost fields: WavFields = (rate as int, channels as int, bits as int, data as int);
        assert(n as int == le32(b@, pos + 4));
        let end = match start.checked_add(n) {
            Some(e) => e,
            None => {
                assert(wav_walk(b@, pos as int, fields) == Err::<WavFields, Seq<char>>("E_AUDIO_FORMAT: size overflow"@));
                return Err(owned("E_AUDIO_FORMAT: size overflow"));
            },
        };
        if end > b.len() {
            assert(wav_walk(b@, pos as int, fields) == Err::<WavFields, Seq<char>>("E_AUDIO_FORMAT: truncated chunk"@));
            return Err(owned("E_AUDIO_FORMAT: truncated chunk"));
        }
        if tag_is(b, pos, 102, 109, 116, 32) {
            if n < 16 || read16(b, start) != 1 {
                return Err(owned("E_AUDIO_FORMAT: PCM required"));
            }
            channels = read16(b, start + 2);
            rate = read32(b, start + 4);
            bits = read16(b, start + 14);
        } else if tag_is(b, pos, 100, 97, 116, 97) {
            data = n;
        }
        if end == b.len() {
            // A pad byte after the last chunk would lie past the end: the walk is over.
            proof {
                assert(wav_walk(b@, (end + n % 2) as int, (rate as int, channels as int, bits as int, data as int))
                    == wav_walk(b@, end as int, (rate as int, channels as int, bits as int, data as int)));
            }
            pos = end;
        } else {
            pos = end + n % 2;
        }
    }
    if !(1 <= channels && channels <= 2) || !(8000 <= rate && rate <= 96000) || bits != 16 || data == 0 {
        return Err(owned("E_AUDIO_FORMAT: expected mono/stereo 16-bit PCM"));
    }
    let frames = data as u64 / (channels as u64 * 2);
    proof {
        assert(frames <= u32::MAX);
        assert(frames * 1000000 <= u32::MAX * 1000000) by (nonlinear_arith)
            requires
                frames <= u32::MAX,
        ;
        assert(frames * (channels as u64) * 4 <= u32::MAX * 2 * 4) by (nonlinear_arith)
            requires
                frames <= u32::MAX,
                channels <= 2,
        ;
    }
    Ok((frames * 1_000_000 / rate as u64, frames * channels as u64 * 4))
}

/// `src`'s entries, in order, are all new: no name is already in `dest` or
/// repeated in `src`.
pub open spec fn fresh_names<T>(dest: Seq<(String, T)>, src: Seq<(String, T)>) -> bool {
    &&& forall|i: int| 0 <= i < src.len() ==> !assoc_keys(dest).contains((#[trigger] src[i]).0@)
    &&& forall|i: int, j: int| 0 <= i < j < src.len() ==> src[i].0@ != src[j].0@
}

/// The first entry of `src` whose name is already taken, by `dest` or by an
/// earlier entry of `src`.
pub open spec fn first_clash<T>(dest: Seq<(String, T)>, src: Seq<(String, T)>) -> Option<int> {
    if exists|i: int| 0 <= i < src.len() && clashes(dest, src, i) {
        Some(choose|i: int| 0 <= i < src.len() && clashes(dest, src, i) && forall|j: int| 0 <= j < i ==> !clashes(dest, src, j))
    } else {
        None
    }
}

/// Entry `i` of `src` reuses a name of `dest` or of an earlier entry.
pub open spec fn clashes<T>(dest: Seq<(String, T)>, src: Seq<(String, T)>, i: int) -> bool {
    assoc_keys(dest).contains(src[i].0@) || exists|j: int| 0 <= j < i && src[j].0@ == src[i].0@
}

/// Adds the declarations of one source fragment to the project's table.
/// A name declared twice is an error that names the file and the first
/// repeated name; then the table is left as it was.
pub fn merge<T>(dest: &mut Vec<(String, T)>, src: Vec<(String, T)>, file: &str) -> (r: Result<(), String>)
    ensures
        match first_clash(old(dest)@, src@) {
            Some(i) => r matches Err(e) && e@ == "E_DUPLICATE: "@ + file@ + ": "@ + src@[i].0@ && final(dest)@ == old(dest)@,
            None => r is Ok && final(dest)@ == old(dest)@ + src@,
        },
{
    let mut i: usize = 0;
    while i < src.len()
        invariant
            i <= src@.len(),
            forall|j: int| 0 <= j < i ==> !clashes(dest@, src@, j),
        decreases src@.len() - i,
    {
        let mut clash = position_of(dest, src[i].0.as_str()).is_some();
        let mut j: usize = 0;
        while j < i
            invariant
                i < src@.len(),
                j <= i,
                clash == (assoc_keys(dest@).contains(src@[i as int].0@) || exists|k: int| 0 <= k < j && src@[k].0@ == src@[i as int].0@),
            decreases i - j,
        {
            if crate::strings::str_eq(src[j].0.as_str(), src[i].0.as_str()) {
                clash = true;
            }
            j = j + 1;
        }
        if clash {
            proof {
                assert(clashes(dest@, src@, i as int));
                let c = first_clash(dest@, src@);
                assert(c is Some);
                let k = c.unwrap();
                if k < i {
                    assert(!clashes(dest@, src@, k));
                }
                if k > i {
                    assert(!clashes(dest@, src@, i as int));
                }
            }
            let mut m = concat("E_DUPLICATE: ", file);
            m.append(": ");
            m.append(src[i].0.as_str());
            return Err(m);
        }
        i = i + 1;
    }
    proof {
        assert(!(exists|k: int| 0 <= k < src@.len() && clashes(dest@, src@, k)));
    }
    let mut src = src;
    dest.append(&mut src);
    Ok(())
}

} // verus!
