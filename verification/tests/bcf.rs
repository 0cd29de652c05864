use miniko_renderer::animation::FrameStorage;
use miniko_renderer::bcf::{bcf_file_size, build_bcf, padded_frame_layout, parse_bcf, BcfError};

#[test]
fn written_bc4_file_reads_back() {
    let frames = vec![vec![1u8; 8], vec![2u8; 8]];
    let file = build_bcf(true, 4, 4, &frames);
    assert_eq!(
        &file[..20],
        &[66, 67, 70, 0, 4, 0, 0, 0, 4, 0, 0, 0, 4, 0, 0, 0, 2, 0, 0, 0]
    );
    assert_eq!(file.len(), 36);
    let parsed = parse_bcf(&file).unwrap();
    assert_eq!(parsed.format, 4);
    assert_eq!((parsed.width, parsed.height), (4, 4));
    assert_eq!(parsed.frame_count, 2);
    assert_eq!(parsed.frame_bytes, 8);
    let mut expected = vec![1u8; 8];
    expected.extend_from_slice(&[2u8; 8]);
    assert_eq!(parsed.data, expected);
}

#[test]
fn written_bc7_file_reads_back() {
    let frame: Vec<u8> = (0..32).collect();
    let file = build_bcf(false, 8, 4, &vec![frame.clone()]);
    assert_eq!(file[4], 7);
    assert_eq!(&file[8..12], &[8, 0, 0, 0]);
    let parsed = parse_bcf(&file).unwrap();
    assert_eq!(parsed.format, 7);
    assert_eq!(parsed.frame_bytes, 32);
    assert_eq!(parsed.data, frame);
}

#[test]
fn bytes_after_the_frames_are_ignored() {
    let mut file = build_bcf(true, 4, 4, &vec![vec![9u8; 8]]);
    file.extend_from_slice(&[1, 2, 3]);
    let parsed = parse_bcf(&file).unwrap();
    assert_eq!(parsed.data, vec![9u8; 8]);
}

#[test]
fn short_file_is_too_small() {
    assert_eq!(parse_bcf(&[0u8; 10]).err(), Some(BcfError::TooSmall));
    assert_eq!(parse_bcf(&[]).err(), Some(BcfError::TooSmall));
}

#[test]
fn wrong_magic_is_refused() {
    assert_eq!(parse_bcf(&[0u8; 20]).err(), Some(BcfError::BadMagic));
    let mut file = build_bcf(true, 4, 4, &vec![vec![0u8; 8]]);
    file[3] = 1;
    assert_eq!(parse_bcf(&file).err(), Some(BcfError::BadMagic));
}

#[test]
fn missing_frames_are_a_size_mismatch() {
    let mut file = build_bcf(true, 4, 4, &vec![vec![0u8; 8]]);
    file[16] = 2;
    assert_eq!(
        parse_bcf(&file).err(),
        Some(BcfError::SizeMismatch { expected: 16, available: 8 })
    );
}

#[test]
fn frames_become_compressed_storage() {
    let file = build_bcf(true, 4, 4, &vec![vec![1u8; 8], vec![2u8; 8]]);
    let storage = parse_bcf(&file).unwrap().into_storage();
    assert!(storage.is_compressed());
    assert_eq!(storage.frame_count(), 2);
    assert_eq!(storage.frame_data(1), &[2u8; 8]);
    match storage {
        FrameStorage::Compressed { frame_bytes, .. } => assert_eq!(frame_bytes, 8),
        FrameStorage::Frames(_) => panic!("expected compressed storage"),
    }
}

#[test]
fn file_size_formula() {
    assert_eq!(bcf_file_size(true, 4, 4, 2), 36);
    assert_eq!(bcf_file_size(false, 8, 8, 3), 212);
    assert_eq!(bcf_file_size(false, 3000, 2320, 0), 20);
    assert_eq!(bcf_file_size(true, 3000, 2320, 10), 20 + 750 * 580 * 8 * 10);
}

#[test]
fn padded_layout_rounds_up() {
    assert_eq!(padded_frame_layout(true, 5, 3), (8, 4, 16));
    assert_eq!(padded_frame_layout(false, 4, 4), (4, 4, 16));
    assert_eq!(padded_frame_layout(false, 2999, 2320), (3000, 2320, 750 * 580 * 16));
}
