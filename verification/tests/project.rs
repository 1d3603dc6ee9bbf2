use nir::project::{merge, wav_info};

fn wav(channels: u16, rate: u32, bits: u16, data: &[u8]) -> Vec<u8> {
    let mut b = Vec::new();
    b.extend_from_slice(b"RIFF");
    b.extend_from_slice(&(36 + data.len() as u32).to_le_bytes());
    b.extend_from_slice(b"WAVE");
    b.extend_from_slice(b"fmt ");
    b.extend_from_slice(&16u32.to_le_bytes());
    b.extend_from_slice(&1u16.to_le_bytes());
    b.extend_from_slice(&channels.to_le_bytes());
    b.extend_from_slice(&rate.to_le_bytes());
    b.extend_from_slice(&(rate * channels as u32 * 2).to_le_bytes());
    b.extend_from_slice(&(channels * 2).to_le_bytes());
    b.extend_from_slice(&bits.to_le_bytes());
    b.extend_from_slice(b"data");
    b.extend_from_slice(&(data.len() as u32).to_le_bytes());
    b.extend_from_slice(data);
    b
}

#[test]
fn pcm_wav_duration_and_decoded_size() {
    assert_eq!(wav_info(&wav(1, 8000, 16, &[0, 0, 0, 0])), Ok((250, 8)));
    assert_eq!(wav_info(&wav(2, 48000, 16, &[0; 192000])), Ok((1_000_000, 384000)));
}

#[test]
fn unsupported_wav_files_are_rejected() {
    assert_eq!(wav_info(b"RIFF").unwrap_err(), "E_AUDIO_FORMAT: v0.1 expects PCM WAV");
    assert_eq!(
        wav_info(&wav(1, 8000, 8, &[0, 0])).unwrap_err(),
        "E_AUDIO_FORMAT: expected mono/stereo 16-bit PCM"
    );
    assert_eq!(
        wav_info(&wav(3, 8000, 16, &[0; 12])).unwrap_err(),
        "E_AUDIO_FORMAT: expected mono/stereo 16-bit PCM"
    );
    let mut truncated = wav(1, 8000, 16, &[0, 0]);
    truncated.truncate(truncated.len() - 1);
    assert_eq!(wav_info(&truncated).unwrap_err(), "E_AUDIO_FORMAT: truncated chunk");
    let mut float = wav(1, 8000, 16, &[0, 0]);
    float[20] = 3;
    assert_eq!(wav_info(&float).unwrap_err(), "E_AUDIO_FORMAT: PCM required");
}

#[test]
fn odd_chunks_are_padded() {
    let mut b = wav(1, 8000, 16, &[]);
    // Replace the empty data chunk by an odd-sized unknown chunk, a pad byte, then data.
    b.truncate(36);
    b.extend_from_slice(b"LIST");
    b.extend_from_slice(&3u32.to_le_bytes());
    b.extend_from_slice(&[1, 2, 3, 0]);
    b.extend_from_slice(b"data");
    b.extend_from_slice(&4u32.to_le_bytes());
    b.extend_from_slice(&[0, 0, 0, 0]);
    assert_eq!(wav_info(&b), Ok((250, 8)));
}

#[test]
fn merge_rejects_a_name_declared_twice() {
    let mut dest = vec![("a".to_string(), 1)];
    merge(&mut dest, vec![("b".to_string(), 2)], "story.json").unwrap();
    assert_eq!(dest, vec![("a".to_string(), 1), ("b".to_string(), 2)]);
    let e = merge(&mut dest, vec![("c".to_string(), 3), ("a".to_string(), 4)], "more.json").unwrap_err();
    assert_eq!(e, "E_DUPLICATE: more.json: a");
    assert_eq!(dest.len(), 2);
    let e = merge(&mut dest, vec![("d".to_string(), 3), ("d".to_string(), 4)], "x.json").unwrap_err();
    assert_eq!(e, "E_DUPLICATE: x.json: d");
}
