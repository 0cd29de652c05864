use miniko_renderer::animation::{AnimSubLayer, FrameStorage, TextureKind};
use miniko_renderer::colors::{ColorMap, LayerStateKey};
use miniko_renderer::manifest::{AssetDef, LayerManifest, Manifest};
use miniko_renderer::renderer::{asset_class, AnimSubLayerData, AssetClass, DrawItem, LoadPlan, RendererCore};

type Core = RendererCore<&'static str, u32, ()>;

fn asset(id: &str, asset_type: &str) -> AssetDef {
    AssetDef {
        id: id.to_string(),
        name: id.to_string(),
        asset_type: asset_type.to_string(),
        path: id.to_string(),
        sub_layer_count: None,
        sub_layers: None,
    }
}

fn manifest() -> Manifest {
    Manifest {
        layers: vec![
            LayerManifest {
                layer_num: 32,
                folder_name: "32 body".to_string(),
                assets: vec![asset("body", "svg"), asset("wave", "png-animation")],
            },
            LayerManifest {
                layer_num: 9,
                folder_name: "9 glasses".to_string(),
                assets: vec![asset("glasses_1", "png-stack"), asset("odd", "gif")],
            },
        ],
    }
}

fn key(id: &str, offset: (i32, i32)) -> LayerStateKey {
    LayerStateKey::new(id, ColorMap::new(), offset)
}

fn anim_sub(n: usize, gpu: u32) -> AnimSubLayer<u32> {
    AnimSubLayer {
        storage: FrameStorage::Frames((0..n).map(|i| vec![i as u8; 4]).collect()),
        size: (1, 1),
        uploaded_frame_idx: Some(0),
        alpha_only: false,
        gpu,
    }
}

#[test]
fn asset_classes() {
    assert_eq!(asset_class("svg"), AssetClass::Svg);
    assert_eq!(asset_class("png-stack"), AssetClass::PngStack);
    assert_eq!(asset_class("png"), AssetClass::Png);
    assert_eq!(asset_class("png-animation"), AssetClass::Animation);
    assert_eq!(asset_class("PNG"), AssetClass::Unknown);
}

#[test]
fn load_plans() {
    let m = manifest();
    let mut core = Core::new();
    match core.begin_load(&m, 32, key("body", (0, 0))) {
        LoadPlan::Load(class, a) => {
            assert_eq!(class, AssetClass::Svg);
            assert_eq!(a.id, "body");
        }
        _ => panic!("expected a load"),
    }
    assert!(matches!(core.begin_load(&m, 32, key("body", (0, 0))), LoadPlan::Unchanged));
    assert!(matches!(
        core.begin_load(&m, 32, key("body", (0, 100))),
        LoadPlan::Load(AssetClass::Svg, _)
    ));
    assert!(matches!(core.begin_load(&m, 32, key("nope", (0, 0))), LoadPlan::AssetNotFound));
    assert!(matches!(core.begin_load(&m, 9, key("odd", (0, 0))), LoadPlan::Load(AssetClass::Unknown, _)));
}

#[test]
fn only_wanted_static_loads_are_installed() {
    let m = manifest();
    let mut core = Core::new();
    assert!(core.take_dirty());
    assert!(!core.take_dirty());
    let _ = core.begin_load(&m, 32, key("body", (0, 0)));
    core.push_completed_layer(32, "body".to_string(), vec!["body-tex"]);
    core.push_completed_layer(9, "glasses_1".to_string(), vec!["glasses-tex"]);
    core.push_completed_layer(32, "old".to_string(), vec![]);
    let report = core.install_completed_layers();
    assert_eq!(report, vec![(32, "body".to_string(), true), (9, "glasses_1".to_string(), false)]);
    assert_eq!(core.static_layer(32), Some(&vec!["body-tex"]));
    assert_eq!(core.static_layer(9), None);
    assert!(core.take_dirty());
    assert!(core.install_completed_layers().is_empty());
    assert!(!core.take_dirty());
}

#[test]
fn a_newer_request_discards_queued_loads() {
    let m = manifest();
    let mut core = Core::new();
    let _ = core.begin_load(&m, 32, key("body", (0, 0)));
    core.push_completed_layer(32, "body".to_string(), vec!["stale"]);
    let _ = core.begin_load(&m, 32, key("wave", (0, 0)));
    assert!(core.install_completed_layers().is_empty());
    assert_eq!(core.static_layer(32), None);
}

#[test]
fn clear_layer_forgets_everything() {
    let m = manifest();
    let mut core = Core::new();
    let _ = core.begin_load(&m, 32, key("body", (0, 0)));
    core.push_completed_layer(32, "body".to_string(), vec!["t"]);
    let _ = core.install_completed_layers();
    let _ = core.take_dirty();
    core.clear_layer(32);
    assert!(core.take_dirty());
    assert_eq!(core.static_layer(32), None);
    assert!(matches!(core.begin_load(&m, 32, key("body", (0, 0))), LoadPlan::Load(..)));
}

#[test]
fn animation_loads_for_other_assets_are_dropped() {
    let m = manifest();
    let mut core = Core::new();
    let _ = core.begin_load(&m, 32, key("wave", (0, 0)));
    let data = |n: usize| AnimSubLayerData {
        storage: FrameStorage::Frames(vec![vec![0u8; 4]; n]),
        size: (1, 1),
        alpha_only: true,
        extra: (),
    };
    core.push_completed_anim(32, "wave".to_string(), vec![data(2)]);
    core.push_completed_anim(9, "glasses_1".to_string(), vec![data(3)]);
    core.push_completed_anim(32, "wave".to_string(), vec![]);
    let taken = core.take_wanted_anims();
    assert_eq!(taken.len(), 1);
    assert_eq!(taken[0].layer_num, 32);
    assert_eq!(taken[0].payload[0].storage.frame_count(), 2);
    assert!(core.take_wanted_anims().is_empty());
}

#[test]
fn animations_replace_static_textures_and_are_drawn_first_by_layer() {
    let m = manifest();
    let mut core = Core::new();
    let _ = core.begin_load(&m, 9, key("glasses_1", (0, 0)));
    core.push_completed_layer(9, "glasses_1".to_string(), vec!["g1", "g2"]);
    let _ = core.install_completed_layers();
    let empty = AnimSubLayer {
        storage: FrameStorage::Frames(vec![]),
        size: (1, 1),
        uploaded_frame_idx: None,
        alpha_only: false,
        gpu: 9,
    };
    assert!(!core.install_animation(32, vec![empty], 10, 0));
    assert!(core.animation(32).is_none());
    assert!(core.install_animation(32, vec![anim_sub(2, 1), anim_sub(4, 2)], 10, 0));
    assert_eq!(core.animation(32).unwrap().max_frame_count, 4);
    assert_eq!(
        core.draw_plan(),
        vec![
            DrawItem::AnimSub { layer_num: 32, sub_index: 0 },
            DrawItem::AnimSub { layer_num: 32, sub_index: 1 },
            DrawItem::StaticTexture { layer_num: 9, index: 0 },
            DrawItem::StaticTexture { layer_num: 9, index: 1 },
        ]
    );
}

#[test]
fn advancing_lists_the_frames_to_upload() {
    let mut core = Core::new();
    assert!(core.install_animation(32, vec![anim_sub(2, 1), anim_sub(4, 2)], 10, 0));
    let (changed, jobs) = core.advance_animations(5);
    assert!(!changed);
    assert!(jobs.is_empty());
    let (changed, jobs) = core.advance_animations(30);
    assert!(changed);
    let listed: Vec<(u8, usize, usize, TextureKind)> =
        jobs.iter().map(|j| (j.layer_num, j.sub_index, j.frame_idx, j.kind)).collect();
    assert_eq!(listed, vec![(32, 0, 1, TextureKind::Rgba), (32, 1, 3, TextureKind::Rgba)]);
    assert_eq!(core.job_frame(32, 1, 3), Some(&[3u8, 3, 3, 3][..]));
    assert_eq!(core.job_frame(32, 1, 4), None);
    assert_eq!(core.job_frame(7, 0, 0), None);
    let (_, again) = core.advance_animations(31);
    assert!(again.is_empty());
}

#[test]
fn a_frame_is_planned_only_after_a_change() {
    let mut core = Core::new();
    assert_eq!(core.take_frame_plan(false), Some(vec![]));
    assert_eq!(core.take_frame_plan(false), None);
    assert!(core.install_animation(3, vec![anim_sub(2, 1)], 10, 0));
    assert_eq!(
        core.take_frame_plan(false),
        Some(vec![DrawItem::AnimSub { layer_num: 3, sub_index: 0 }])
    );
    assert_eq!(core.take_frame_plan(false), None);
    assert_eq!(
        core.take_frame_plan(true),
        Some(vec![DrawItem::AnimSub { layer_num: 3, sub_index: 0 }])
    );
    core.mark_dirty();
    assert!(core.take_frame_plan(false).is_some());
}

#[test]
fn the_last_wanted_load_of_a_layer_is_shown() {
    let m = manifest();
    let mut core = Core::new();
    let _ = core.begin_load(&m, 32, key("body", (0, 0)));
    core.push_completed_layer(32, "body".to_string(), vec!["first"]);
    core.push_completed_layer(32, "body".to_string(), vec!["second"]);
    core.push_completed_layer(32, "wave".to_string(), vec!["other asset"]);
    let report = core.install_completed_layers();
    assert_eq!(report.iter().filter(|r| r.2).count(), 2);
    assert_eq!(core.static_layer(32), Some(&vec!["second"]));
}

#[test]
fn a_cleared_layer_is_not_drawn() {
    let m = manifest();
    let mut core = Core::new();
    let _ = core.begin_load(&m, 9, key("glasses_1", (0, 0)));
    core.push_completed_layer(9, "glasses_1".to_string(), vec!["g"]);
    let _ = core.install_completed_layers();
    assert!(core.install_animation(32, vec![anim_sub(2, 1)], 10, 0));
    core.clear_layer(32);
    assert_eq!(core.draw_plan(), vec![DrawItem::StaticTexture { layer_num: 9, index: 0 }]);
    core.clear_layer(9);
    assert!(core.draw_plan().is_empty());
}
