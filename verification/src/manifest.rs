//! The asset manifest: layers, their assets and the sublayers of animations.

use vstd::prelude::*;
use crate::layer_stack::{CANVAS_HEIGHT, CANVAS_WIDTH};
use crate::text::str_eq;

verus! {

#[derive(Debug, Clone)]
pub struct Bounds {
    pub width: u32,
    pub height: u32,
    pub offset_x: i32,
    pub offset_y: i32,
}

#[derive(Debug, Clone)]
pub struct SubLayerDef {
    pub name: String,
    pub frame_count: u32,
    pub prefix: String,
    pub bounds: Option<Bounds>,
    /// True if all visible pixels are white — store alpha-only, tint in shader
    pub alpha_only: Option<bool>,
    /// Path to pre-baked BC-compressed file (relative to assets dir)
    pub bc_file: Option<String>,
    /// Frame width in the BC file (padded to multiple of 4)
    pub bc_width: Option<u32>,
    /// Frame height in the BC file (padded to multiple of 4)
    pub bc_height: Option<u32>,
}

#[derive(Debug, Clone)]
pub struct AssetDef {
    pub id: String,
    pub name: String,
    pub asset_type: String,
    pub path: String,
    pub sub_layer_count: Option<u32>,
    pub sub_layers: Option<Vec<SubLayerDef>>,
}

#[derive(Debug, Clone)]
pub struct LayerManifest {
    pub layer_num: u8,
    pub folder_name: String,
    pub assets: Vec<AssetDef>,
}

#[derive(Debug, Clone)]
pub struct Manifest {
    pub layers: Vec<LayerManifest>,
}

/// Position of the first layer entry with number `n`, or -1.
pub open spec fn layer_pos(layers: Seq<LayerManifest>, n: u8) -> int
    decreases layers.len(),
{
    if layers.len() == 0 {
        -1
    } else if layers[0].layer_num == n {
        0
    } else {
        let p = layer_pos(layers.drop_first(), n);
        if p < 0 {
            -1
        } else {
            p + 1
        }
    }
}

/// Position of the first asset with identifier `id`, or -1.
pub open spec fn asset_pos(assets: Seq<AssetDef>, id: Seq<char>) -> int
    decreases assets.len(),
{
    if assets.len() == 0 {
        -1
    } else if assets[0].id@ == id {
        0
    } else {
        let p = asset_pos(assets.drop_first(), id);
        if p < 0 {
            -1
        } else {
            p + 1
        }
    }
}

/// The asset that `get_asset` finds: in the first layer entry with number
/// `n`, the first asset with identifier `id`.
pub open spec fn spec_get_asset(m: Manifest, n: u8, id: Seq<char>) -> Option<AssetDef> {
    let li = layer_pos(m.layers@, n);
    if li < 0 {
        None
    } else {
        let ai = asset_pos(m.layers@[li].assets@, id);
        if ai < 0 {
            None
        } else {
            Some(m.layers@[li].assets@[ai])
        }
    }
}

proof fn lemma_layer_pos(layers: Seq<LayerManifest>, n: u8, i: int)
    requires
        0 <= i <= layers.len(),
        forall|j: int| 0 <= j < i ==> (#[trigger] layers[j]).layer_num != n,
        i < layers.len() ==> layers[i].layer_num == n,
    ensures
        layer_pos(layers, n) == if i < layers.len() {
            i
        } else {
            -1
        },
    decreases layers.len(),
{
    if layers.len() > 0 && i > 0 {
        let rest = layers.drop_first();
        assert forall|j: int| 0 <= j < i - 1 implies (#[trigger] rest[j]).layer_num != n by {
            assert(rest[j] == layers[j + 1]);
        }
        lemma_layer_pos(rest, n, i - 1);
    }
}

proof fn lemma_asset_pos(assets: Seq<AssetDef>, id: Seq<char>, i: int)
    requires
        0 <= i <= assets.len(),
        forall|j: int| 0 <= j < i ==> (#[trigger] assets[j]).id@ != id,
        i < assets.len() ==> assets[i].id@ == id,
    ensures
        asset_pos(assets, id) == if i < assets.len() {
            i
        } else {
            -1
        },
    decreases assets.len(),
{
    if assets.len() > 0 && i > 0 {
        let rest = assets.drop_first();
        assert forall|j: int| 0 <= j < i - 1 implies (#[trigger] rest[j]).id@ != id by {
            assert(rest[j] == assets[j + 1]);
        }
        lemma_asset_pos(rest, id, i - 1);
    }
}

/// Which pixel size a sublayer's frames are drawn at: its crop bounds when it
/// has them, else the BC file dimensions when both are given, else the canvas.
pub open spec fn spec_frame_size(sub: SubLayerDef) -> (u32, u32) {
    match sub.bounds {
        Some(b) => (b.width, b.height),
        None => match (sub.bc_width, sub.bc_height) {
            (Some(bw), Some(bh)) => (bw, bh),
            _ => (CANVAS_WIDTH, CANVAS_HEIGHT),
        },
    }
}

impl Manifest {
    /// The asset `asset_id` of layer `layer_num`. Only the first layer entry
    /// with that number is searched, and the first matching asset is returned.
    pub fn get_asset(&self, layer_num: u8, asset_id: &str) -> (r: Option<&AssetDef>)
        ensures
            r is None <==> spec_get_asset(*self, layer_num, asset_id@) is None,
            r matches Some(a) ==> spec_get_asset(*self, layer_num, asset_id@) == Some(*a),
    {
        let mut i: usize = 0;
        while i < self.layers.len()
            invariant
                i <= self.layers@.len(),
                forall|j: int| 0 <= j < i ==> (#[trigger] self.layers@[j]).layer_num != layer_num,
            decreases self.layers@.len() - i,
        {
            if self.layers[i].layer_num == layer_num {
                proof {
                    lemma_layer_pos(self.layers@, layer_num, i as int);
                }
                let layer = &self.layers[i];
                let mut k: usize = 0;
                while k < layer.assets.len()
                    invariant
                        i < self.layers@.len(),
                        layer_pos(self.layers@, layer_num) == i,
                        *layer == self.layers@[i as int],
                        k <= layer.assets@.len(),
                        forall|j: int| 0 <= j < k ==> (#[trigger] layer.assets@[j]).id@ != asset_id@,
                    decreases layer.assets@.len() - k,
                {
                    if str_eq(layer.assets[k].id.as_str(), asset_id) {
                        proof {
                            lemma_asset_pos(layer.assets@, asset_id@, k as int);
                        }
                        return Some(&layer.assets[k]);
                    }
                    k = k + 1;
                }
                proof {
                    lemma_asset_pos(layer.assets@, asset_id@, k as int);
                }
                return None;
            }
            i = i + 1;
        }
        proof {
            lemma_layer_pos(self.layers@, layer_num, i as int);
        }
        None
    }
}

impl SubLayerDef {
    /// Whether the frames are read from the sublayer's `optimized` folder:
    /// cropped sublayers (those with bounds) keep their frames there.
    pub fn frames_optimized(&self) -> (r: bool)
        ensures
            r == self.bounds is Some,
    {
        self.bounds.is_some()
    }

    /// The pixel size at which this sublayer's frames are drawn.
    pub fn frame_size(&self) -> (r: (u32, u32))
        ensures
            r == spec_frame_size(*self),
    {
        match &self.bounds {
            Some(b) => (b.width, b.height),
            None => match (self.bc_width, self.bc_height) {
                (Some(bw), Some(bh)) => (bw, bh),
                _ => (CANVAS_WIDTH, CANVAS_HEIGHT),
            },
        }
    }
}

} // verus!
