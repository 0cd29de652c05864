use miniko_renderer::frame_files::{
    bcf_file_name, forward_slashes, frame_file_name, frame_prefix, is_frame_png_name,
    is_layer_folder_name, is_sublayer_folder_name, stack_file_name, use_optimized_frames,
};

#[test]
fn numbered_pngs_are_frames() {
    assert!(is_frame_png_name("walk_00012.png"));
    assert!(is_frame_png_name("walk_00012.PNG"));
    assert!(is_frame_png_name("a_b_7.png"));
    assert!(is_frame_png_name("a_1.png.png"));
    assert!(is_frame_png_name("_.png"));
}

#[test]
fn other_files_are_not_frames() {
    assert!(!is_frame_png_name("walk.png"));
    assert!(!is_frame_png_name("walk_12a.png"));
    assert!(!is_frame_png_name("walk_12.jpg"));
    assert!(!is_frame_png_name("walk_12"));
    assert!(!is_frame_png_name("a_1.PnG"));
    assert!(!is_frame_png_name(".png"));
    assert!(!is_frame_png_name(""));
}

#[test]
fn prefix_is_the_stem_before_the_last_underscore() {
    assert_eq!(frame_prefix("walk_00000.png", "sub"), "walk");
    assert_eq!(frame_prefix("a_b_00000.png", "sub"), "a_b");
    assert_eq!(frame_prefix("x_1", "sub"), "x");
    assert_eq!(frame_prefix("noprefix.png", "sub"), "sub");
    assert_eq!(frame_prefix(".x_1", "sub"), ".x");
}

#[test]
fn frame_names_are_zero_padded() {
    assert_eq!(frame_file_name("walk", 0), "walk_00000.png");
    assert_eq!(frame_file_name("w", 42), "w_00042.png");
    assert_eq!(frame_file_name("w", 99999), "w_99999.png");
    assert_eq!(frame_file_name("walk", 123456), "walk_123456.png");
}

#[test]
fn bcf_name_and_slashes() {
    assert_eq!(bcf_file_name("arm"), "arm.bcf");
    assert_eq!(forward_slashes("32 body\\wave\\arm.bcf"), "32 body/wave/arm.bcf");
    assert_eq!(forward_slashes("a/b"), "a/b");
}

#[test]
fn folder_rules() {
    assert!(is_layer_folder_name("32 body"));
    assert!(!is_layer_folder_name("body"));
    assert!(!is_layer_folder_name(""));
    assert!(!is_sublayer_folder_name("optimized"));
    assert!(is_sublayer_folder_name("Optimized"));
    assert!(is_sublayer_folder_name("arm"));
    assert!(use_optimized_frames(true, 3));
    assert!(!use_optimized_frames(true, 0));
    assert!(!use_optimized_frames(false, 3));
}

#[test]
fn written_frame_names_are_found_again() {
    for (prefix, index) in [("walk", 0u32), ("a_b", 17), ("x", 123456), ("", 5)] {
        let name = frame_file_name(prefix, index);
        assert!(is_frame_png_name(&name));
        assert_eq!(frame_prefix(&name, "sub"), prefix);
    }
}

#[test]
fn stack_files_are_numbered_from_one() {
    assert_eq!(stack_file_name(1), "1.png");
    assert_eq!(stack_file_name(12), "12.png");
}
