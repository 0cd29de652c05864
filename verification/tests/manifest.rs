use miniko_renderer::manifest::{AssetDef, Bounds, LayerManifest, Manifest, SubLayerDef};

fn asset(id: &str, asset_type: &str) -> AssetDef {
    AssetDef {
        id: id.to_string(),
        name: id.to_uppercase(),
        asset_type: asset_type.to_string(),
        path: format!("{id}.{asset_type}"),
        sub_layer_count: None,
        sub_layers: None,
    }
}

fn manifest() -> Manifest {
    Manifest {
        layers: vec![
            LayerManifest {
                layer_num: 32,
                folder_name: "32 body".to_string(),
                assets: vec![asset("body", "svg"), asset("body", "png")],
            },
            LayerManifest {
                layer_num: 9,
                folder_name: "9 glasses".to_string(),
                assets: vec![asset("glasses_1", "png-stack")],
            },
            LayerManifest {
                layer_num: 32,
                folder_name: "32 again".to_string(),
                assets: vec![asset("other", "svg")],
            },
        ],
    }
}

#[test]
fn finds_asset_in_its_layer() {
    let m = manifest();
    let a = m.get_asset(9, "glasses_1").unwrap();
    assert_eq!(a.asset_type, "png-stack");
}

#[test]
fn first_match_wins() {
    let m = manifest();
    assert_eq!(m.get_asset(32, "body").unwrap().asset_type, "svg");
}

#[test]
fn only_first_layer_entry_is_searched() {
    let m = manifest();
    assert!(m.get_asset(32, "other").is_none());
}

#[test]
fn missing_layer_or_asset() {
    let m = manifest();
    assert!(m.get_asset(1, "body").is_none());
    assert!(m.get_asset(9, "body").is_none());
}

fn sub(bounds: Option<Bounds>, bc: (Option<u32>, Option<u32>)) -> SubLayerDef {
    SubLayerDef {
        name: "arm".to_string(),
        frame_count: 10,
        prefix: "arm".to_string(),
        bounds,
        alpha_only: None,
        bc_file: None,
        bc_width: bc.0,
        bc_height: bc.1,
    }
}

#[test]
fn frame_size_prefers_bounds_then_bc_then_canvas() {
    let b = Bounds { width: 120, height: 80, offset_x: -3, offset_y: 4 };
    assert_eq!(sub(Some(b), (Some(4), Some(8))).frame_size(), (120, 80));
    assert_eq!(sub(None, (Some(4), Some(8))).frame_size(), (4, 8));
    assert_eq!(sub(None, (Some(4), None)).frame_size(), (3000, 2320));
    assert_eq!(sub(None, (None, None)).frame_size(), (3000, 2320));
}

#[test]
fn cropped_sublayers_read_optimized_frames() {
    let b = Bounds { width: 1, height: 1, offset_x: 0, offset_y: 0 };
    assert!(sub(Some(b), (None, None)).frames_optimized());
    assert!(!sub(None, (Some(4), Some(4))).frames_optimized());
}
