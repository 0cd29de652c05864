use miniko_renderer::pixels::{extract_alpha, is_white_only, pad_to_mult4, premultiply_alpha, tint_and_premultiply};

#[test]
fn white_only_accepts_white_and_clear_pixels() {
    assert!(is_white_only(&[255, 255, 255, 255, 0, 0, 0, 0]));
    assert!(is_white_only(&[10, 20, 30, 0]));
    assert!(is_white_only(&[]));
}

#[test]
fn white_only_rejects_visible_colour() {
    assert!(!is_white_only(&[255, 255, 254, 1]));
    assert!(!is_white_only(&[255, 255, 255, 255, 0, 255, 255, 9]));
}

#[test]
fn extract_alpha_takes_every_fourth_byte() {
    assert_eq!(extract_alpha(&[1, 2, 3, 4, 5, 6, 7, 8]), vec![4, 8]);
    assert_eq!(extract_alpha(&[1, 2, 3, 4, 9]), vec![4]);
    assert_eq!(extract_alpha(&[]), Vec::<u8>::new());
}

#[test]
fn premultiply_rounds_to_nearest() {
    let mut px = vec![200, 100, 50, 128];
    premultiply_alpha(&mut px);
    assert_eq!(px, vec![100, 50, 25, 128]);
}

#[test]
fn premultiply_keeps_opaque_and_clears_transparent() {
    let mut px = vec![10, 20, 30, 255, 9, 9, 9, 0, 7];
    premultiply_alpha(&mut px);
    assert_eq!(px, vec![10, 20, 30, 255, 0, 0, 0, 0, 7]);
}

#[test]
fn tint_then_premultiply() {
    let mut px = vec![200, 100, 50, 255, 200, 100, 50, 0];
    tint_and_premultiply(&mut px, [128, 255, 0]);
    assert_eq!(px, vec![100, 100, 0, 255, 0, 0, 0, 0]);
}

#[test]
fn pad_adds_zero_columns_and_rows() {
    let (w, h, data) = pad_to_mult4(3, 2, &[1, 2, 3, 4, 5, 6], 1);
    assert_eq!((w, h), (4, 4));
    assert_eq!(data, vec![1, 2, 3, 0, 4, 5, 6, 0, 0, 0, 0, 0, 0, 0, 0, 0]);
}

#[test]
fn pad_of_aligned_image_is_a_copy() {
    let src: Vec<u8> = (0..32).collect();
    let (w, h, data) = pad_to_mult4(4, 2, &src, 4);
    assert_eq!((w, h), (4, 4));
    assert_eq!(data.len(), 64);
    let (w, h, data) = pad_to_mult4(4, 4, &src[..16], 1);
    assert_eq!((w, h), (4, 4));
    assert_eq!(data, src[..16].to_vec());
}

#[test]
fn pad_rgba_rows() {
    let src = vec![1u8, 2, 3, 4, 5, 6, 7, 8];
    let (w, h, data) = pad_to_mult4(1, 2, &src, 4);
    assert_eq!((w, h), (4, 4));
    let mut expected = vec![0u8; 64];
    expected[0..4].copy_from_slice(&[1, 2, 3, 4]);
    expected[16..20].copy_from_slice(&[5, 6, 7, 8]);
    assert_eq!(data, expected);
}

#[test]
fn white_tint_is_no_tint() {
    let src = vec![200u8, 100, 50, 128, 1, 2, 3, 255, 9, 9, 9, 0];
    let mut tinted = src.clone();
    tint_and_premultiply(&mut tinted, [255, 255, 255]);
    let mut plain = src;
    premultiply_alpha(&mut plain);
    assert_eq!(tinted, plain);
}
