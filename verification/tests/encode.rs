use miniko_renderer::bcf::parse_bcf;
use miniko_renderer::encode::{
    assemble_bcf, frame_size_supported, inspect_first_frame, prepare_frame, prepare_frame_png,
};

fn png(w: u32, h: u32, pixels: Vec<u8>) -> Vec<u8> {
    let img = image::RgbaImage::from_raw(w, h, pixels).unwrap();
    let mut out = std::io::Cursor::new(Vec::new());
    img.write_to(&mut out, image::ImageFormat::Png).unwrap();
    out.into_inner()
}

fn white_frame(w: u32, h: u32) -> Vec<u8> {
    let mut px = Vec::new();
    for i in 0..(w * h) {
        px.extend_from_slice(&[255, 255, 255, (i * 7 % 256) as u8]);
    }
    px
}

#[test]
fn first_frame_reports_size_and_whiteness() {
    assert_eq!(inspect_first_frame(&png(5, 3, white_frame(5, 3))), Some((5, 3, true)));
    let mut coloured = white_frame(5, 3);
    coloured[4] = 0;
    coloured[7] = 200;
    assert_eq!(inspect_first_frame(&png(5, 3, coloured)), Some((5, 3, false)));
    assert_eq!(inspect_first_frame(&[1, 2, 3]), None);
}

#[test]
fn alpha_frame_is_padded_alpha_plane() {
    let (w, h, plane) = prepare_frame(&[200, 100, 50, 128], true, 1, 1);
    assert_eq!((w, h), (4, 4));
    let mut expected = vec![0u8; 16];
    expected[0] = 128;
    assert_eq!(plane, expected);
}

#[test]
fn rgba_frame_is_padded_premultiplied() {
    let (w, h, plane) = prepare_frame(&[200, 100, 50, 128], false, 1, 1);
    assert_eq!((w, h), (4, 4));
    let mut expected = vec![0u8; 64];
    expected[..4].copy_from_slice(&[100, 50, 25, 128]);
    assert_eq!(plane, expected);
}

#[test]
fn aligned_frame_is_not_padded() {
    let rgba = white_frame(4, 4);
    let (w, h, plane) = prepare_frame(&rgba, true, 4, 4);
    assert_eq!((w, h), (4, 4));
    assert_eq!(plane.len(), 16);
    assert_eq!(plane[1], 7);
}

#[test]
fn frame_png_is_decoded_and_prepared() {
    let bytes = png(5, 3, white_frame(5, 3));
    let (w, h, plane) = prepare_frame_png(&bytes, true, 5, 3).unwrap();
    assert_eq!((w, h), (8, 4));
    assert_eq!(plane.len(), 32);
    assert_eq!(&plane[..6], &[0, 7, 14, 21, 28, 0]);
    assert_eq!(&plane[8..14], &[35, 42, 49, 56, 63, 0]);
    let (w, h, plane) = prepare_frame_png(&bytes, false, 5, 3).unwrap();
    assert_eq!((w, h), (8, 4));
    assert_eq!(plane.len(), 128);
    assert_eq!(&plane[4..8], &[7, 7, 7, 7]);
}

#[test]
fn frame_png_of_other_size_or_garbage_fails() {
    let bytes = png(5, 3, white_frame(5, 3));
    assert_eq!(prepare_frame_png(&bytes, true, 6, 3), None);
    assert_eq!(prepare_frame_png(&[0u8; 4], true, 5, 3), None);
}

#[test]
fn frames_make_a_readable_bcf() {
    let a = vec![1u8; 16];
    let b = vec![2u8; 16];
    let file = assemble_bcf(true, 8, 4, 16, vec![Some(a.clone()), Some(b.clone())]).unwrap();
    let parsed = parse_bcf(&file).unwrap();
    assert_eq!(parsed.frame_count, 2);
    assert_eq!(parsed.frame_bytes, 16);
    let mut expected = a;
    expected.extend_from_slice(&b);
    assert_eq!(parsed.data, expected);
}

#[test]
fn one_failed_frame_drops_the_file() {
    assert_eq!(assemble_bcf(false, 4, 4, 16, vec![Some(vec![0u8; 16]), None]), None);
    let empty = assemble_bcf(false, 4, 4, 16, vec![]).unwrap();
    assert_eq!(empty.len(), 20);
}

#[test]
fn supported_frame_sizes() {
    assert!(frame_size_supported(3000, 2320));
    assert!(frame_size_supported(5, 3));
    assert!(!frame_size_supported(u32::MAX, 1));
    assert!(!frame_size_supported(40000, 40000));
}

#[test]
fn a_frame_of_the_wrong_size_drops_the_file() {
    assert_eq!(assemble_bcf(true, 4, 4, 8, vec![Some(vec![0u8; 8]), Some(vec![0u8; 7])]), None);
    let file = assemble_bcf(true, 4, 4, 8, vec![Some(vec![5u8; 8])]).unwrap();
    assert_eq!(file.len(), 28);
}
