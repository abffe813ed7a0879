use lib::audio::{Error, Wave, WAVE_FORMAT_PCM};

fn pcm_wave(data: &[u8]) -> Vec<u8> {
    let padded = data.len() + data.len() % 2;
    let file_size = 12 + 8 + 16 + 8 + padded;
    let mut bytes = Vec::with_capacity(file_size);
    bytes.extend_from_slice(b"RIFF");
    bytes.extend_from_slice(&u32::try_from(file_size - 8).unwrap().to_le_bytes());
    bytes.extend_from_slice(b"WAVEfmt ");
    bytes.extend_from_slice(&16u32.to_le_bytes());
    bytes.extend_from_slice(&WAVE_FORMAT_PCM.to_le_bytes());
    bytes.extend_from_slice(&1u16.to_le_bytes());
    bytes.extend_from_slice(&8_000u32.to_le_bytes());
    bytes.extend_from_slice(&16_000u32.to_le_bytes());
    bytes.extend_from_slice(&2u16.to_le_bytes());
    bytes.extend_from_slice(&16u16.to_le_bytes());
    bytes.extend_from_slice(b"data");
    bytes.extend_from_slice(&u32::try_from(data.len()).unwrap().to_le_bytes());
    bytes.extend_from_slice(data);
    if data.len() % 2 != 0 {
        bytes.push(0);
    }
    bytes
}

#[test]
fn parses_pcm_wave() {
    let bytes = pcm_wave(&[1, 2, 3, 4]);
    let wave = Wave::parse(&bytes).unwrap();
    assert_eq!(wave.format().channels, 1);
    assert_eq!(wave.data_chunks().first().copied(), Some(&[1, 2, 3, 4][..]));
}

#[test]
fn rejects_declared_size_and_chunk_truncation() {
    let mut bytes = pcm_wave(&[1, 2, 3, 4]);
    bytes[4] = bytes[4].wrapping_add(1);
    assert!(matches!(
        Wave::parse(&bytes),
        Err(Error::DeclaredSizeMismatch { .. })
    ));

    let mut bytes = pcm_wave(&[1, 2, 3, 4]);
    bytes[40..44].copy_from_slice(&100u32.to_le_bytes());
    assert!(matches!(
        Wave::parse(&bytes),
        Err(Error::InvalidChunkRange { .. })
    ));
}

#[test]
fn rejects_inconsistent_pcm_layout() {
    let mut bytes = pcm_wave(&[1, 2, 3, 4]);
    bytes[32..34].copy_from_slice(&1u16.to_le_bytes());
    bytes[28..32].copy_from_slice(&123u32.to_le_bytes());
    assert!(matches!(Wave::parse(&bytes), Err(Error::InvalidPcmLayout)));
}

#[test]
fn accepts_valve_pcm_block_alignment_quirk_without_trusting_it() {
    let mut bytes = pcm_wave(&[1, 2, 3, 4]);
    bytes[32..34].copy_from_slice(&1u16.to_le_bytes());
    let wave = Wave::parse(&bytes).unwrap();
    assert!(!wave.format().pcm_layout_consistent);
    assert_eq!(wave.format().sample_frame_bytes(), Some(2));
}

#[test]
fn accepts_source_style_missing_final_pad_only_at_eof() {
    let mut bytes = pcm_wave(&[1, 2, 3, 4]);
    bytes.pop();
    bytes[40..44].copy_from_slice(&3u32.to_le_bytes());
    bytes[28..32].copy_from_slice(&8_000u32.to_le_bytes());
    bytes[32..34].copy_from_slice(&1u16.to_le_bytes());
    bytes[34..36].copy_from_slice(&8u16.to_le_bytes());
    let wave = Wave::parse(&bytes).unwrap();
    assert!(wave.missing_final_padding());
    assert_eq!(wave.data_chunks().first().copied().unwrap(), &[1, 2, 3]);
}

#[test]
fn refuses_what_is_not_a_riff_wave() {
    let mut bytes = pcm_wave(&[1, 2]);
    bytes[0] = b'X';
    assert!(matches!(Wave::parse(&bytes), Err(Error::InvalidSignature(id)) if &id == b"XIFF"));
    let mut bytes = pcm_wave(&[1, 2]);
    bytes[8..12].copy_from_slice(b"AVI ");
    assert!(matches!(Wave::parse(&bytes), Err(Error::InvalidForm(id)) if &id == b"AVI "));
    assert!(matches!(Wave::parse(b"RI"), Err(Error::Binary(_))));
}

#[test]
fn refuses_sample_data_that_splits_a_frame() {
    let bytes = pcm_wave(&[1, 2, 3]);
    assert!(matches!(
        Wave::parse(&bytes),
        Err(Error::MisalignedSampleData { size: 3, block_align: 2 })
    ));
}

#[test]
fn refuses_a_wave_without_a_format_or_data() {
    let mut bytes = pcm_wave(&[1, 2]);
    bytes[12..16].copy_from_slice(b"junk");
    assert!(matches!(Wave::parse(&bytes), Err(Error::MissingFormatChunk)));
    let mut bytes = pcm_wave(&[1, 2]);
    bytes[36..40].copy_from_slice(b"junk");
    assert!(matches!(Wave::parse(&bytes), Err(Error::MissingDataChunk)));
}

#[test]
fn refuses_a_zero_channel_format() {
    let mut bytes = pcm_wave(&[1, 2]);
    bytes[22..24].copy_from_slice(&0u16.to_le_bytes());
    assert!(matches!(Wave::parse(&bytes), Err(Error::InvalidChannels(0))));
}

#[test]
fn lists_every_chunk_in_file_order() {
    let bytes = pcm_wave(&[1, 2]);
    let wave = Wave::parse(&bytes).unwrap();
    let ids: Vec<[u8; 4]> = wave.chunks().iter().map(|chunk| chunk.id).collect();
    assert_eq!(ids, vec![*b"fmt ", *b"data"]);
    assert_eq!(wave.chunks()[1].data.clone(), 44..46);
    assert!(!wave.missing_final_padding());
}

#[test]
fn pads_an_odd_chunk_that_does_not_end_the_file() {
    // An 8-bit mono file whose odd data chunk is followed by its pad byte and a
    // trailing chunk: nothing is missing.
    let mut bytes = pcm_wave(&[1, 2, 3, 4]);
    bytes[40..44].copy_from_slice(&3u32.to_le_bytes());
    bytes[28..32].copy_from_slice(&8_000u32.to_le_bytes());
    bytes[32..34].copy_from_slice(&1u16.to_le_bytes());
    bytes[34..36].copy_from_slice(&8u16.to_le_bytes());
    bytes.extend_from_slice(b"LIST");
    bytes.extend_from_slice(&2u32.to_le_bytes());
    bytes.extend_from_slice(&[7, 8]);
    let size = u32::try_from(bytes.len() - 8).unwrap();
    bytes[4..8].copy_from_slice(&size.to_le_bytes());
    let wave = Wave::parse(&bytes).unwrap();
    assert!(!wave.missing_final_padding());
    let last = wave.chunks().last().unwrap();
    assert_eq!(last.data.clone(), bytes.len() - 2..bytes.len());
    assert_eq!(wave.chunks()[1].data.clone(), 44..47);
}
