use miniko_renderer::png_loader::{
    decode_animation_frame, decode_first_frame, load_animation_frames, load_png, load_png_checked,
    load_png_raw,
};

fn png(w: u32, h: u32, pixels: Vec<u8>) -> Vec<u8> {
    let img = image::RgbaImage::from_raw(w, h, pixels).unwrap();
    let mut out = std::io::Cursor::new(Vec::new());
    img.write_to(&mut out, image::ImageFormat::Png).unwrap();
    out.into_inner()
}

#[test]
fn raw_load_returns_decoded_pixels() {
    let bytes = png(2, 1, vec![200, 100, 50, 128, 1, 2, 3, 4]);
    assert_eq!(load_png_raw(&bytes), Ok((2, 1, vec![200, 100, 50, 128, 1, 2, 3, 4])));
}

#[test]
fn load_premultiplies_without_tint() {
    let bytes = png(1, 1, vec![200, 100, 50, 128]);
    assert_eq!(load_png(&bytes, None), Ok((1, 1, vec![100, 50, 25, 128])));
}

#[test]
fn load_tints_then_premultiplies() {
    let bytes = png(1, 1, vec![200, 100, 50, 255]);
    assert_eq!(load_png(&bytes, Some("#ff0000")), Ok((1, 1, vec![200, 0, 0, 255])));
    let bytes = png(1, 1, vec![200, 100, 50, 128]);
    assert_eq!(load_png(&bytes, Some("#ff0000")), Ok((1, 1, vec![100, 0, 0, 128])));
}

#[test]
fn undecodable_bytes_are_an_error() {
    assert!(load_png(&[1, 2, 3], None).is_err());
    assert!(load_png_raw(&[]).is_err());
}

#[test]
fn white_first_frame_keeps_alpha_only() {
    let bytes = png(2, 1, vec![255, 255, 255, 40, 0, 0, 0, 0]);
    assert_eq!(decode_first_frame(&bytes), Some((true, vec![40, 0])));
}

#[test]
fn coloured_first_frame_is_premultiplied_untinted() {
    let bytes = png(1, 1, vec![200, 100, 50, 128]);
    assert_eq!(decode_first_frame(&bytes), Some((false, vec![100, 50, 25, 128])));
    assert_eq!(decode_first_frame(&[0u8; 8]), None);
}

#[test]
fn later_frames_follow_the_first_frame_mode() {
    let bytes = png(1, 1, vec![200, 100, 50, 128]);
    assert_eq!(decode_animation_frame(&bytes, true), Some(vec![128]));
    assert_eq!(decode_animation_frame(&bytes, false), Some(vec![100, 50, 25, 128]));
    assert_eq!(decode_animation_frame(&[7u8; 3], false), None);
}

#[test]
fn frames_that_fail_are_left_out() {
    let first = png(1, 1, vec![255, 255, 255, 10]);
    let rest = vec![
        Some(png(1, 1, vec![255, 255, 255, 20])),
        None,
        Some(vec![1, 2, 3]),
        Some(png(1, 1, vec![255, 255, 255, 40])),
    ];
    assert_eq!(
        load_animation_frames(&first, &rest),
        Some((true, vec![vec![10], vec![20], vec![40]]))
    );
}

#[test]
fn undecodable_first_frame_skips_the_sublayer() {
    let rest = vec![Some(png(1, 1, vec![255, 255, 255, 20]))];
    assert_eq!(load_animation_frames(&[0u8; 2], &rest), None);
}

#[test]
fn coloured_animation_frames_are_not_tinted() {
    let first = png(1, 1, vec![10, 10, 10, 255]);
    let rest = vec![Some(png(1, 1, vec![20, 30, 40, 255]))];
    assert_eq!(
        load_animation_frames(&first, &rest),
        Some((false, vec![vec![10, 10, 10, 255], vec![20, 30, 40, 255]]))
    );
}

#[test]
fn short_tint_only_matters_for_decodable_bytes() {
    let bytes = png(1, 1, vec![200, 100, 50, 255]);
    assert_eq!(load_png_checked(&bytes, Some("#fff")), None);
    assert!(matches!(load_png_checked(&[1, 2, 3], Some("#fff")), Some(Err(_))));
    assert!(load_png(&[1, 2, 3], Some("#fff")).is_err());
    assert_eq!(load_png_checked(&bytes, Some("#ff0000")), Some(Ok((1, 1, vec![200, 0, 0, 255]))));
}

#[test]
fn white_tint_strings_change_nothing() {
    let bytes = png(2, 1, vec![200, 100, 50, 128, 1, 2, 3, 255]);
    let plain = load_png(&bytes, None);
    for white in ["#ffffff", "ffffff", "#FFFFFF", "##fFfFfF"] {
        assert_eq!(load_png(&bytes, Some(white)), plain);
    }
}

#[test]
fn decode_errors_do_not_depend_on_the_tint() {
    let garbage = [1u8, 2, 3];
    let plain = load_png(&garbage, None);
    assert!(plain.is_err());
    assert_eq!(load_png(&garbage, Some("#ffffff")), plain);
    assert_eq!(load_png(&garbage, Some("#123456")), plain);
    assert_eq!(load_png_raw(&garbage), plain);
}
