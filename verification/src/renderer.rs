//! The compositor's bookkeeping: which asset each layer should show, the
//! uploads finished in the background that wait to be installed, the static
//! and animated layers on screen, and whether the next frame must be drawn.
//!
//! Loading happens in the background; when a load finishes it is installed
//! only if its asset is still the one wanted for its layer, so a stale load
//! never replaces a newer choice.

use vstd::prelude::*;
use std::collections::HashMap;
use crate::animation::{
    AnimSubLayer, AnimationState, FrameStorage, TextureKind, animation_length, shown_frame,
    spec_frame_moved, spec_texture_kind, spec_tick_frame, spec_tick_last, texture_kind,
};
use crate::colors::LayerStateKey;
use crate::layer_stack::{LayerStack, keys_down};
use crate::manifest::{AssetDef, Manifest, spec_get_asset};
use crate::text::str_eq;

verus! {

broadcast use vstd::std_specs::hash::group_hash_axioms;

/// A finished background load for a layer.
pub struct CompletedUpload<P> {
    pub layer_num: u8,
    pub asset_id: String,
    pub payload: P,
}

/// Decoded animation sublayer data ready to install (no GPU resources yet);
/// `extra` is what the drawing side keeps with it (placement and tint).
pub struct AnimSubLayerData<X> {
    pub storage: FrameStorage,
    pub size: (u32, u32),
    pub alpha_only: bool,
    pub extra: X,
}

/// How an asset is loaded, by its manifest type.
#[derive(Debug, Clone, Copy, PartialEq, Eq, Structural)]
pub enum AssetClass {
    Svg,
    PngStack,
    Png,
    Animation,
    Unknown,
}

/// The class of a manifest asset type: "svg", "png-stack", "png",
/// "png-animation", or anything else.
pub open spec fn spec_asset_class(asset_type: Seq<char>) -> AssetClass {
    if asset_type == "svg"@ {
        AssetClass::Svg
    } else if asset_type == "png-stack"@ {
        AssetClass::PngStack
    } else if asset_type == "png"@ {
        AssetClass::Png
    } else if asset_type == "png-animation"@ {
        AssetClass::Animation
    } else {
        AssetClass::Unknown
    }
}

pub fn asset_class(asset_type: &str) -> (r: AssetClass)
    ensures
        r == spec_asset_class(asset_type@),
{
    if str_eq(asset_type, "svg") {
        AssetClass::Svg
    } else if str_eq(asset_type, "png-stack") {
        AssetClass::PngStack
    } else if str_eq(asset_type, "png") {
        AssetClass::Png
    } else if str_eq(asset_type, "png-animation") {
        AssetClass::Animation
    } else {
        AssetClass::Unknown
    }
}

/// What a load request asks of the caller.
pub enum LoadPlan<'a> {
    /// The layer already shows exactly this state; nothing to do.
    Unchanged,
    /// The manifest has no such asset for the layer; nothing changed.
    AssetNotFound,
    /// Load this asset in the background (an unknown class is only reported).
    Load(AssetClass, &'a AssetDef),
}

/// One frame to write into a sublayer's GPU texture.
pub struct UploadJob {
    pub layer_num: u8,
    pub sub_index: usize,
    pub frame_idx: usize,
    pub kind: TextureKind,
}

/// One quad of the frame, in drawing order.
#[derive(Debug, Clone, Copy, PartialEq, Eq, Structural)]
pub enum DrawItem {
    AnimSub { layer_num: u8, sub_index: usize },
    StaticTexture { layer_num: u8, index: usize },
}

pub type KeyView = (Seq<char>, Map<Seq<char>, Seq<char>>, (i32, i32));

/// The layer's wanted state names this asset.
pub open spec fn wants(desired: Map<u8, KeyView>, layer_num: u8, asset_id: Seq<char>) -> bool {
    desired.contains_key(layer_num) && desired[layer_num].0 == asset_id
}

/// The queue without the entries of one layer, order kept.
pub open spec fn without_layer<P>(q: Seq<CompletedUpload<P>>, n: u8) -> Seq<CompletedUpload<P>>
    decreases q.len(),
{
    if q.len() == 0 {
        q
    } else {
        let rest = without_layer(q.drop_first(), n);
        if q[0].layer_num == n {
            rest
        } else {
            seq![q[0]] + rest
        }
    }
}

/// The queue entries whose asset is still wanted, order kept.
pub open spec fn only_wanted<P>(q: Seq<CompletedUpload<P>>, desired: Map<u8, KeyView>) -> Seq<
    CompletedUpload<P>,
>
    decreases q.len(),
{
    if q.len() == 0 {
        q
    } else {
        let rest = only_wanted(q.drop_first(), desired);
        if wants(desired, q[0].layer_num, q[0].asset_id@) {
            seq![q[0]] + rest
        } else {
            rest
        }
    }
}

/// Static layers after installing the queued uploads in order; an upload
/// whose asset is no longer wanted is discarded.
pub open spec fn installed<T>(
    m: Map<u8, Seq<T>>,
    desired: Map<u8, KeyView>,
    q: Seq<CompletedUpload<Vec<T>>>,
) -> Map<u8, Seq<T>>
    decreases q.len(),
{
    if q.len() == 0 {
        m
    } else {
        let m2 = if wants(desired, q[0].layer_num, q[0].asset_id@) {
            m.insert(q[0].layer_num, q[0].payload@)
        } else {
            m
        };
        installed(m2, desired, q.drop_first())
    }
}

/// Some queued upload is still wanted.
pub open spec fn any_wanted<P>(q: Seq<CompletedUpload<P>>, desired: Map<u8, KeyView>) -> bool {
    exists|i: int| 0 <= i < q.len() && wants(desired, (#[trigger] q[i]).layer_num, q[i].asset_id@)
}

/// A sublayer that can be animated: its frames can be read and it has at
/// least one.
pub open spec fn sub_ready<G>(s: AnimSubLayer<G>) -> bool {
    s.storage.well_formed() && s.storage.spec_frame_count() >= 1
}

/// The ready sublayers, order kept.
pub open spec fn ready_subs<G>(s: Seq<AnimSubLayer<G>>) -> Seq<AnimSubLayer<G>>
    decreases s.len(),
{
    if s.len() == 0 {
        s
    } else {
        let rest = ready_subs(s.drop_first());
        if sub_ready(s[0]) {
            seq![s[0]] + rest
        } else {
            rest
        }
    }
}

/// The sublayers that an animation is installed with are exactly those whose
/// frames can be read and that have at least one frame, in their order: each
/// such sublayer is kept (a single frame is enough), and nothing else is.
/// So an animation is installed exactly when one of its sublayers has a
/// readable frame.
pub proof fn lemma_ready_subs_kept<G>(s: Seq<AnimSubLayer<G>>)
    ensures
        forall|j: int|
            0 <= j < s.len() && (#[trigger] s[j]).storage.well_formed()
                && s[j].storage.spec_frame_count() >= 1 ==> ready_subs(s).contains(s[j]),
        forall|k: int|
            0 <= k < ready_subs(s).len() ==> s.contains(#[trigger] ready_subs(s)[k])
                && ready_subs(s)[k].storage.well_formed() && ready_subs(s)[k].storage.spec_frame_count()
                >= 1,
        ready_subs(s).len() > 0 <==> exists|j: int|
            0 <= j < s.len() && (#[trigger] s[j]).storage.well_formed()
                && s[j].storage.spec_frame_count() >= 1,
    decreases s.len(),
{
    if s.len() > 0 {
        let rest = s.drop_first();
        lemma_ready_subs_kept(rest);
        let r = ready_subs(s);
        let rr = ready_subs(rest);
        assert forall|j: int|
            0 <= j < s.len() && (#[trigger] s[j]).storage.well_formed()
                && s[j].storage.spec_frame_count() >= 1 implies r.contains(s[j]) by {
            if j == 0 {
                assert(r[0] == s[0]);
            } else {
                assert(s[j] == rest[j - 1]);
                let k = choose|k: int| 0 <= k < rr.len() && rr[k] == rest[j - 1];
                if sub_ready(s[0]) {
                    assert(r[k + 1] == rr[k]);
                } else {
                    assert(r[k] == rr[k]);
                }
            }
        }
        assert forall|k: int| 0 <= k < r.len() implies s.contains(#[trigger] r[k])
            && r[k].storage.well_formed() && r[k].storage.spec_frame_count() >= 1 by {
            if sub_ready(s[0]) {
                if k == 0 {
                    assert(s[0] == r[0]);
                } else {
                    assert(r[k] == rr[k - 1]);
                    let j = choose|j: int| 0 <= j < rest.len() && rest[j] == rr[k - 1];
                    assert(s[j + 1] == rest[j]);
                }
            } else {
                assert(r[k] == rr[k]);
                let j = choose|j: int| 0 <= j < rest.len() && rest[j] == rr[k];
                assert(s[j + 1] == rest[j]);
            }
        }
        if r.len() > 0 {
            assert(s.contains(r[0]));
            let j = choose|j: int| 0 <= j < s.len() && s[j] == r[0];
            assert(s[j].storage.well_formed());
        }
    }
}

/// Remove the entries of layer `n` from a queue.
fn retain_other_layers<P>(q: &mut Vec<CompletedUpload<P>>, n: u8)
    ensures
        final(q)@ == without_layer(old(q)@, n),
{
    let ghost orig = q@;
    let mut kept: Vec<CompletedUpload<P>> = Vec::new();
    while q.len() > 0
        invariant
            kept@ + without_layer(q@, n) == without_layer(orig, n),
        decreases q@.len(),
    {
        let ghost before = q@;
        let item = q.remove(0);
        proof {
            assert(q@ =~= before.drop_first());
        }
        if item.layer_num != n {
            let ghost k0 = kept@;
            kept.push(item);
            proof {
                assert(kept@ + without_layer(q@, n) =~= k0 + (seq![before[0]] + without_layer(
                    q@,
                    n,
                )));
            }
        }
    }
    assert(without_layer(q@, n) =~= Seq::<CompletedUpload<P>>::empty());
    assert(kept@ =~= without_layer(orig, n));
    *q = kept;
}

/// Animation `a` is `o` ticked at `now`, with every sublayer marked as
/// showing the frame it must show at the new current frame.
pub open spec fn advanced<G>(o: AnimationState<G>, a: AnimationState<G>, now: u64) -> bool {
    &&& a.current_frame == spec_tick_frame(o, now)
    &&& a.last_advance_ns == spec_tick_last(o, now)
    &&& a.max_frame_count == o.max_frame_count
    &&& a.frame_duration_ns == o.frame_duration_ns
    &&& a.sub_layers@.len() == o.sub_layers@.len()
    &&& forall|j: int|
        0 <= j < o.sub_layers@.len() ==> {
            let os = #[trigger] o.sub_layers@[j];
            let ns = a.sub_layers@[j];
            &&& ns.storage == os.storage
            &&& ns.size == os.size
            &&& ns.alpha_only == os.alpha_only
            &&& ns.gpu == os.gpu
            &&& ns.uploaded_frame_idx == Some(
                shown_frame(spec_tick_frame(o, now), os.storage.spec_frame_count()) as usize,
            )
        }
}

/// Sublayer `j` of animation `o` holds another frame than the one it must
/// show after a tick at `now`.
pub open spec fn stale<G>(o: AnimationState<G>, j: int, now: u64) -> bool {
    o.sub_layers@[j].uploaded_frame_idx != Some(
        shown_frame(spec_tick_frame(o, now), o.sub_layers@[j].storage.spec_frame_count()) as usize,
    )
}

/// Jobs go from the highest layer number down, and within a layer by
/// increasing sublayer index; so no sublayer has two jobs.
pub open spec fn jobs_ordered(jobs: Seq<UploadJob>) -> bool {
    forall|k1: int, k2: int|
        0 <= k1 < k2 < jobs.len() ==> (#[trigger] jobs[k1]).layer_num > (#[trigger] jobs[k2]).layer_num
            || (jobs[k1].layer_num == jobs[k2].layer_num && jobs[k1].sub_index < jobs[k2].sub_index)
}

/// `job` writes a stale sublayer of an animation in `anims` its new frame,
/// in the texture format of that sublayer, and the frame can be read.
pub open spec fn job_valid<G>(anims: Map<u8, AnimationState<G>>, job: UploadJob, now: u64) -> bool {
    let o = anims[job.layer_num];
    let j = job.sub_index as int;
    &&& anims.contains_key(job.layer_num)
    &&& 0 <= j < o.sub_layers@.len()
    &&& stale(o, j, now)
    &&& job.frame_idx == shown_frame(
        spec_tick_frame(o, now),
        o.sub_layers@[j].storage.spec_frame_count(),
    )
    &&& job.kind == spec_texture_kind(
        o.sub_layers@[j].storage is Compressed,
        o.sub_layers@[j].alpha_only,
    )
    &&& o.sub_layers@[j].storage.can_read_frame(job.frame_idx as int)
}

/// The quads of one layer: every sublayer of its animation, else every
/// texture of its static layer.
pub open spec fn layer_items<T, G>(
    sm: Map<u8, Seq<T>>,
    am: Map<u8, AnimationState<G>>,
    n: u8,
) -> Seq<DrawItem> {
    if am.contains_key(n) {
        Seq::new(
            am[n].sub_layers@.len(),
            |j: int| DrawItem::AnimSub { layer_num: n, sub_index: j as usize },
        )
    } else if sm.contains_key(n) {
        Seq::new(sm[n].len(), |k: int| DrawItem::StaticTexture { layer_num: n, index: k as usize })
    } else {
        Seq::empty()
    }
}

/// The quads of the layers numbered at least `lo`, highest layer first.
pub open spec fn items_down<T, G>(sm: Map<u8, Seq<T>>, am: Map<u8, AnimationState<G>>, lo: int) -> Seq<
    DrawItem,
>
    decreases 256 - lo,
{
    if lo > 255 || lo < 0 {
        Seq::empty()
    } else {
        items_down(sm, am, lo + 1) + layer_items(sm, am, lo as u8)
    }
}

/// Every quad of the frame: layer by layer from the highest number (backmost)
/// down to the lowest, an animated layer drawing its sublayers in place of
/// any static textures.
pub open spec fn draw_items<T, G>(sm: Map<u8, Seq<T>>, am: Map<u8, AnimationState<G>>) -> Seq<
    DrawItem,
> {
    items_down(sm, am, 0)
}

/// Which layer a quad belongs to.
pub open spec fn item_layer(d: DrawItem) -> u8 {
    match d {
        DrawItem::AnimSub { layer_num, .. } => layer_num,
        DrawItem::StaticTexture { layer_num, .. } => layer_num,
    }
}

/// The quad names an existing animation sublayer or static texture.
pub open spec fn item_exists<T, G>(sm: Map<u8, Seq<T>>, am: Map<u8, AnimationState<G>>, d: DrawItem) -> bool {
    match d {
        DrawItem::AnimSub { layer_num, sub_index } => am.contains_key(layer_num) && sub_index
            < am[layer_num].sub_layers@.len(),
        DrawItem::StaticTexture { layer_num, index } => !am.contains_key(layer_num)
            && sm.contains_key(layer_num) && index < sm[layer_num].len(),
    }
}

proof fn lemma_items_down<T, G>(sm: Map<u8, Seq<T>>, am: Map<u8, AnimationState<G>>, lo: int)
    requires
        0 <= lo <= 256,
    ensures
        forall|k: int|
            0 <= k < items_down(sm, am, lo).len() ==> item_exists(
                sm,
                am,
                #[trigger] items_down(sm, am, lo)[k],
            ) && item_layer(items_down(sm, am, lo)[k]) >= lo,
        forall|k1: int, k2: int|
            0 <= k1 < k2 < items_down(sm, am, lo).len() ==> item_layer(
                #[trigger] items_down(sm, am, lo)[k1],
            ) >= item_layer(#[trigger] items_down(sm, am, lo)[k2]),
    decreases 256 - lo,
{
    if lo <= 255 {
        lemma_items_down(sm, am, lo + 1);
        let prev = items_down(sm, am, lo + 1);
        let li = layer_items(sm, am, lo as u8);
        let all = items_down(sm, am, lo);
        assert(all == prev + li);
        assert forall|k: int| 0 <= k < all.len() implies item_exists(sm, am, #[trigger] all[k])
            && item_layer(all[k]) >= lo by {
            if k >= prev.len() {
                assert(all[k] == li[k - prev.len()]);
            } else {
                assert(all[k] == prev[k]);
            }
        }
        assert forall|k1: int, k2: int| 0 <= k1 < k2 < all.len() implies item_layer(
            #[trigger] all[k1],
        ) >= item_layer(#[trigger] all[k2]) by {
            if k2 < prev.len() {
                assert(all[k1] == prev[k1] && all[k2] == prev[k2]);
            } else if k1 < prev.len() {
                assert(all[k1] == prev[k1]);
                assert(all[k2] == li[k2 - prev.len()]);
            } else {
                assert(all[k1] == li[k1 - prev.len()]);
                assert(all[k2] == li[k2 - prev.len()]);
            }
        }
    }
}

/// The quads of a frame name only existing sublayers and textures, and go
/// from the highest layer number down to the lowest; an animated layer never
/// also draws static textures.
pub proof fn lemma_draw_items_well_ordered<T, G>(sm: Map<u8, Seq<T>>, am: Map<u8, AnimationState<G>>)
    ensures
        forall|k: int|
            0 <= k < draw_items(sm, am).len() ==> item_exists(sm, am, #[trigger] draw_items(sm, am)[k]),
        forall|k1: int, k2: int|
            0 <= k1 < k2 < draw_items(sm, am).len() ==> item_layer(#[trigger] draw_items(sm, am)[k1])
                >= item_layer(#[trigger] draw_items(sm, am)[k2]),
{
    lemma_items_down(sm, am, 0);
}

/// A load that is not wanted never reaches the screen: a layer for which no
/// queued load is still wanted keeps exactly what it showed.
pub proof fn lemma_unwanted_loads_ignored<T>(
    m: Map<u8, Seq<T>>,
    desired: Map<u8, KeyView>,
    q: Seq<CompletedUpload<Vec<T>>>,
    n: u8,
)
    requires
        forall|i: int|
            0 <= i < q.len() && (#[trigger] q[i]).layer_num == n ==> !wants(desired, n, q[i].asset_id@),
    ensures
        installed(m, desired, q).contains_key(n) == m.contains_key(n),
        m.contains_key(n) ==> installed(m, desired, q)[n] == m[n],
    decreases q.len(),
{
    if q.len() > 0 {
        let m2 = if wants(desired, q[0].layer_num, q[0].asset_id@) {
            m.insert(q[0].layer_num, q[0].payload@)
        } else {
            m
        };
        assert forall|i: int|
            0 <= i < q.drop_first().len() && (#[trigger] q.drop_first()[i]).layer_num == n implies !wants(
            desired,
            n,
            q.drop_first()[i].asset_id@,
        ) by {
            assert(q.drop_first()[i] == q[i + 1]);
        }
        lemma_unwanted_loads_ignored(m2, desired, q.drop_first(), n);
    }
}

/// The last wanted load of a layer is what the layer shows once the queue is
/// installed.
pub proof fn lemma_last_wanted_load_shown<T>(
    m: Map<u8, Seq<T>>,
    desired: Map<u8, KeyView>,
    q: Seq<CompletedUpload<Vec<T>>>,
    i: int,
)
    requires
        0 <= i < q.len(),
        wants(desired, q[i].layer_num, q[i].asset_id@),
        forall|j: int|
            i < j < q.len() && (#[trigger] q[j]).layer_num == q[i].layer_num ==> !wants(
                desired,
                q[i].layer_num,
                q[j].asset_id@,
            ),
    ensures
        installed(m, desired, q).contains_key(q[i].layer_num),
        installed(m, desired, q)[q[i].layer_num] == q[i].payload@,
    decreases q.len(),
{
    let n = q[i].layer_num;
    let m2 = if wants(desired, q[0].layer_num, q[0].asset_id@) {
        m.insert(q[0].layer_num, q[0].payload@)
    } else {
        m
    };
    let rest = q.drop_first();
    if i == 0 {
        assert forall|j: int|
            0 <= j < rest.len() && (#[trigger] rest[j]).layer_num == n implies !wants(
            desired,
            n,
            rest[j].asset_id@,
        ) by {
            assert(rest[j] == q[j + 1]);
        }
        lemma_unwanted_loads_ignored(m2, desired, rest, n);
    } else {
        assert(rest[i - 1] == q[i]);
        assert forall|j: int|
            i - 1 < j < rest.len() && (#[trigger] rest[j]).layer_num == rest[i - 1].layer_num implies !wants(
            desired,
            rest[i - 1].layer_num,
            rest[j].asset_id@,
        ) by {
            assert(rest[j] == q[j + 1]);
        }
        lemma_last_wanted_load_shown(m2, desired, rest, i - 1);
    }
}

/// Nothing of a cleared layer is drawn.
pub proof fn lemma_cleared_layer_not_drawn<T, G>(sm: Map<u8, Seq<T>>, am: Map<u8, AnimationState<G>>, n: u8)
    ensures
        forall|k: int|
            0 <= k < draw_items(sm.remove(n), am.remove(n)).len() ==> item_layer(
                #[trigger] draw_items(sm.remove(n), am.remove(n))[k],
            ) != n,
{
    lemma_draw_items_well_ordered(sm.remove(n), am.remove(n));
}

/// Bookkeeping of the compositor; `T` is a static layer's texture, `G` the
/// GPU side of an animation sublayer, `X` the drawing data decoded with it.
pub struct RendererCore<T, G, X> {
    layers: LayerStack<T>,
    animations: HashMap<u8, AnimationState<G>>,
    loaded_states: HashMap<u8, LayerStateKey>,
    completed_layers: Vec<CompletedUpload<Vec<T>>>,
    completed_anims: Vec<CompletedUpload<Vec<AnimSubLayerData<X>>>>,
    dirty: bool,
}

impl<T, G, X> RendererCore<T, G, X> {
    /// Static layers on screen.
    pub closed spec fn static_layers(&self) -> Map<u8, Seq<T>> {
        self.layers@
    }

    /// Animated layers on screen.
    pub closed spec fn animated(&self) -> Map<u8, AnimationState<G>> {
        self.animations@
    }

    /// The state each layer should show.
    pub closed spec fn desired(&self) -> Map<u8, KeyView> {
        self.loaded_states@.map_values(|k: LayerStateKey| k@)
    }

    /// Finished static loads waiting to be installed, oldest first.
    pub closed spec fn pending_layers(&self) -> Seq<CompletedUpload<Vec<T>>> {
        self.completed_layers@
    }

    /// Finished animation loads waiting to be installed, oldest first.
    pub closed spec fn pending_anims(&self) -> Seq<CompletedUpload<Vec<AnimSubLayerData<X>>>> {
        self.completed_anims@
    }

    /// The next frame must be drawn.
    pub closed spec fn is_dirty(&self) -> bool {
        self.dirty
    }

    /// Every animation on screen has a positive frame duration and only
    /// sublayers whose frames can be read.
    pub closed spec fn wf(&self) -> bool {
        forall|n: u8|
            #[trigger] self.animations@.contains_key(n) ==> self.animations@[n].frame_duration_ns
                > 0 && self.animations@[n].sublayers_ready()
    }

    pub fn new() -> (r: Self)
        ensures
            r.wf(),
            r.static_layers() == Map::<u8, Seq<T>>::empty(),
            r.animated() == Map::<u8, AnimationState<G>>::empty(),
            r.desired() == Map::<u8, KeyView>::empty(),
            r.pending_layers() == Seq::<CompletedUpload<Vec<T>>>::empty(),
            r.pending_anims() == Seq::<CompletedUpload<Vec<AnimSubLayerData<X>>>>::empty(),
            r.is_dirty(),
    {
        let r = RendererCore {
            layers: LayerStack::new(),
            animations: HashMap::new(),
            loaded_states: HashMap::new(),
            completed_layers: Vec::new(),
            completed_anims: Vec::new(),
            dirty: true,
        };
        assert(r.desired() =~= Map::<u8, KeyView>::empty());
        r
    }

    /// Ask for layer `layer_num` to show `key`. An identical request, or an
    /// asset the manifest lacks, changes nothing. Otherwise the request
    /// becomes the layer's wanted state, its animation stops, queued loads for
    /// the layer are dropped, and the asset is handed back for loading.
    pub fn begin_load<'a>(&mut self, manifest: &'a Manifest, layer_num: u8, key: LayerStateKey) -> (plan:
        LoadPlan<'a>)
        requires
            old(self).wf(),
        ensures
            final(self).wf(),
            final(self).static_layers() == old(self).static_layers(),
            final(self).is_dirty() == old(self).is_dirty(),
            ({
                let unchanged = old(self).desired().contains_key(layer_num) && old(
                    self,
                ).desired()[layer_num] == key@;
                let found = spec_get_asset(*manifest, layer_num, key.asset_id@);
                if unchanged || found is None {
                    &&& plan is Unchanged <==> unchanged
                    &&& plan is AssetNotFound <==> !unchanged
                    &&& final(self).desired() == old(self).desired()
                    &&& final(self).animated() == old(self).animated()
                    &&& final(self).pending_layers() == old(self).pending_layers()
                    &&& final(self).pending_anims() == old(self).pending_anims()
                } else {
                    &&& plan matches LoadPlan::Load(class, asset) && class == spec_asset_class(
                        asset.asset_type@,
                    ) && *asset == found->0
                    &&& final(self).desired() == old(self).desired().insert(layer_num, key@)
                    &&& final(self).animated() == old(self).animated().remove(layer_num)
                    &&& final(self).pending_layers() == without_layer(
                        old(self).pending_layers(),
                        layer_num,
                    )
                    &&& final(self).pending_anims() == without_layer(
                        old(self).pending_anims(),
                        layer_num,
                    )
                }
            }),
    {
        match self.loaded_states.get(&layer_num) {
            Some(existing) => {
                if existing.same_as(&key) {
                    return LoadPlan::Unchanged;
                }
            },
            None => {},
        }
        let asset = match manifest.get_asset(layer_num, key.asset_id.as_str()) {
            Some(a) => a,
            None => {
                return LoadPlan::AssetNotFound;
            },
        };
        let ghost key_view = key@;
        self.loaded_states.insert(layer_num, key);
        self.animations.remove(&layer_num);
        retain_other_layers(&mut self.completed_anims, layer_num);
        retain_other_layers(&mut self.completed_layers, layer_num);
        proof {
            assert(self.desired() =~= old(self).desired().insert(layer_num, key_view));
            assert(self.animations@ =~= old(self).animations@.remove(layer_num));
        }
        let class = asset_class(asset.asset_type.as_str());
        LoadPlan::Load(class, asset)
    }

    /// Queue a finished static load; an empty one is dropped.
    pub fn push_completed_layer(&mut self, layer_num: u8, asset_id: String, textures: Vec<T>)
        requires
            old(self).wf(),
        ensures
            final(self).wf(),
            final(self).pending_layers() == if textures@.len() > 0 {
                old(self).pending_layers().push(
                    CompletedUpload { layer_num, asset_id, payload: textures },
                )
            } else {
                old(self).pending_layers()
            },
            final(self).static_layers() == old(self).static_layers(),
            final(self).animated() == old(self).animated(),
            final(self).desired() == old(self).desired(),
            final(self).pending_anims() == old(self).pending_anims(),
            final(self).is_dirty() == old(self).is_dirty(),
    {
        if textures.len() > 0 {
            self.completed_layers.push(CompletedUpload { layer_num, asset_id, payload: textures });
        }
    }

    /// Queue a finished animation load; one without sublayers is dropped.
    pub fn push_completed_anim(
        &mut self,
        layer_num: u8,
        asset_id: String,
        sub_layers: Vec<AnimSubLayerData<X>>,
    )
        requires
            old(self).wf(),
        ensures
            final(self).wf(),
            final(self).pending_anims() == if sub_layers@.len() > 0 {
                old(self).pending_anims().push(
                    CompletedUpload { layer_num, asset_id, payload: sub_layers },
                )
            } else {
                old(self).pending_anims()
            },
            final(self).static_layers() == old(self).static_layers(),
            final(self).animated() == old(self).animated(),
            final(self).desired() == old(self).desired(),
            final(self).pending_layers() == old(self).pending_layers(),
            final(self).is_dirty() == old(self).is_dirty(),
    {
        if sub_layers.len() > 0 {
            self.completed_anims.push(
                CompletedUpload { layer_num, asset_id, payload: sub_layers },
            );
        }
    }

    /// Install the finished static loads in order, each only if its asset is
    /// still the one wanted for its layer; the others are discarded. Reports
    /// every load with whether it was installed.
    pub fn install_completed_layers(&mut self) -> (report: Vec<(u8, String, bool)>)
        requires
            old(self).wf(),
        ensures
            final(self).wf(),
            final(self).static_layers() == installed(
                old(self).static_layers(),
                old(self).desired(),
                old(self).pending_layers(),
            ),
            final(self).pending_layers() == Seq::<CompletedUpload<Vec<T>>>::empty(),
            final(self).is_dirty() == (old(self).is_dirty() || any_wanted(
                old(self).pending_layers(),
                old(self).desired(),
            )),
            final(self).animated() == old(self).animated(),
            final(self).desired() == old(self).desired(),
            final(self).pending_anims() == old(self).pending_anims(),
            report@.len() == old(self).pending_layers().len(),
            forall|i: int|
                0 <= i < report@.len() ==> {
                    let u = old(self).pending_layers()[i];
                    &&& (#[trigger] report@[i]).0 == u.layer_num
                    &&& report@[i].1 == u.asset_id
                    &&& report@[i].2 == wants(old(self).desired(), u.layer_num, u.asset_id@)
                },
    {
        let ghost desired = self.desired();
        let mut queue: Vec<CompletedUpload<Vec<T>>> = Vec::new();
        std::mem::swap(&mut queue, &mut self.completed_layers);
        let ghost orig = queue@;
        let mut report: Vec<(u8, String, bool)> = Vec::new();
        assert(orig.skip(0) =~= orig);
        assert(orig.take(0) =~= Seq::<CompletedUpload<Vec<T>>>::empty());
        while queue.len() > 0
            invariant
                self.wf(),
                desired == self.desired(),
                desired == old(self).desired(),
                self.animations@ == old(self).animations@,
                self.completed_anims@ == old(self).completed_anims@,
                self.completed_layers@ == Seq::<CompletedUpload<Vec<T>>>::empty(),
                orig == old(self).completed_layers@,
                report@.len() + queue@.len() == orig.len(),
                queue@ == orig.skip(report@.len() as int),
                installed(self.layers@, desired, queue@) == installed(
                    old(self).layers@,
                    desired,
                    orig,
                ),
                self.dirty == (old(self).dirty || any_wanted(
                    orig.take(report@.len() as int),
                    desired,
                )),
                forall|i: int|
                    0 <= i < report@.len() ==> {
                        let u = orig[i];
                        &&& (#[trigger] report@[i]).0 == u.layer_num
                        &&& report@[i].1 == u.asset_id
                        &&& report@[i].2 == wants(desired, u.layer_num, u.asset_id@)
                    },
            decreases queue@.len(),
        {
            let ghost before = queue@;
            let ghost c = report@.len() as int;
            let upload = queue.remove(0);
            proof {
                assert(queue@ =~= orig.skip(c + 1));
                assert(before[0] == orig[c]);
            }
            let CompletedUpload { layer_num, asset_id, payload } = upload;
            let wanted = match self.loaded_states.get(&layer_num) {
                Some(k) => str_eq(k.asset_id.as_str(), asset_id.as_str()),
                None => false,
            };
            assert(wanted == wants(desired, layer_num, asset_id@));
            let ghost prev_dirty = self.dirty;
            if wanted {
                self.layers.set_layer(layer_num, payload);
                self.dirty = true;
            }
            report.push((layer_num, asset_id, wanted));
            proof {
                let t1 = orig.take(c + 1);
                let t0 = orig.take(c);
                assert(t1 =~= t0.push(orig[c]));
                if any_wanted(t1, desired) {
                    let i = choose|i: int|
                        0 <= i < t1.len() && wants(desired, (#[trigger] t1[i]).layer_num, t1[i].asset_id@);
                    if i < c {
                        assert(t0[i] == t1[i]);
                    }
                }
                if any_wanted(t0, desired) {
                    let i = choose|i: int|
                        0 <= i < t0.len() && wants(desired, (#[trigger] t0[i]).layer_num, t0[i].asset_id@);
                    assert(t1[i] == t0[i]);
                }
                if wanted {
                    assert(t1[c] == orig[c]);
                }
            }
        }
        assert(orig.take(orig.len() as int) =~= orig);
        report
    }

    /// Take the finished animation loads whose asset is still the one wanted
    /// for their layer, oldest first; the others are discarded.
    pub fn take_wanted_anims(&mut self) -> (r: Vec<CompletedUpload<Vec<AnimSubLayerData<X>>>>)
        requires
            old(self).wf(),
        ensures
            final(self).wf(),
            r@ == only_wanted(old(self).pending_anims(), old(self).desired()),
            final(self).pending_anims() == Seq::<CompletedUpload<Vec<AnimSubLayerData<X>>>>::empty(),
            final(self).static_layers() == old(self).static_layers(),
            final(self).animated() == old(self).animated(),
            final(self).desired() == old(self).desired(),
            final(self).pending_layers() == old(self).pending_layers(),
            final(self).is_dirty() == old(self).is_dirty(),
    {
        let ghost desired = self.desired();
        let mut queue: Vec<CompletedUpload<Vec<AnimSubLayerData<X>>>> = Vec::new();
        std::mem::swap(&mut queue, &mut self.completed_anims);
        let ghost orig = queue@;
        let mut kept: Vec<CompletedUpload<Vec<AnimSubLayerData<X>>>> = Vec::new();
        while queue.len() > 0
            invariant
                desired == self.desired(),
                kept@ + only_wanted(queue@, desired) == only_wanted(orig, desired),
            decreases queue@.len(),
        {
            let ghost before = queue@;
            let upload = queue.remove(0);
            proof {
                assert(queue@ =~= before.drop_first());
            }
            let wanted = match self.loaded_states.get(&upload.layer_num) {
                Some(k) => str_eq(k.asset_id.as_str(), upload.asset_id.as_str()),
                None => false,
            };
            assert(wanted == wants(desired, upload.layer_num, upload.asset_id@));
            if wanted {
                let ghost k0 = kept@;
                kept.push(upload);
                proof {
                    assert(kept@ + only_wanted(queue@, desired) =~= k0 + (seq![before[0]]
                        + only_wanted(queue@, desired)));
                }
            }
        }
        assert(only_wanted(queue@, desired) =~= Seq::<
            CompletedUpload<Vec<AnimSubLayerData<X>>>,
        >::empty());
        assert(kept@ =~= only_wanted(orig, desired));
        kept
    }

    /// Put an animation on layer `layer_num`: its ready sublayers (frames
    /// readable, at least one frame) start at frame 0 at time `now_ns`, and the
    /// layer's static textures are removed. Without any ready sublayer
    /// nothing changes and false is returned.
    pub fn install_animation(
        &mut self,
        layer_num: u8,
        sub_layers: Vec<AnimSubLayer<G>>,
        frame_duration_ns: u64,
        now_ns: u64,
    ) -> (r: bool)
        requires
            old(self).wf(),
            frame_duration_ns > 0,
        ensures
            final(self).wf(),
            r == (ready_subs(sub_layers@).len() > 0),
            final(self).desired() == old(self).desired(),
            final(self).pending_layers() == old(self).pending_layers(),
            final(self).pending_anims() == old(self).pending_anims(),
            r ==> {
                let a = final(self).animated()[layer_num];
                &&& final(self).static_layers() == old(self).static_layers().remove(layer_num)
                &&& final(self).animated() == old(self).animated().insert(layer_num, a)
                &&& a.sub_layers@ == ready_subs(sub_layers@)
                &&& a.current_frame == 0
                &&& a.max_frame_count == animation_length(ready_subs(sub_layers@))
                &&& a.last_advance_ns == now_ns
                &&& a.frame_duration_ns == frame_duration_ns
                &&& final(self).is_dirty()
            },
            !r ==> {
                &&& final(self).static_layers() == old(self).static_layers()
                &&& final(self).animated() == old(self).animated()
                &&& final(self).is_dirty() == old(self).is_dirty()
            },
    {
        let mut rest = sub_layers;
        let ghost orig = rest@;
        let mut kept: Vec<AnimSubLayer<G>> = Vec::new();
        while rest.len() > 0
            invariant
                kept@ + ready_subs(rest@) == ready_subs(orig),
                forall|j: int| 0 <= j < kept@.len() ==> sub_ready(#[trigger] kept@[j]),
            decreases rest@.len(),
        {
            let ghost before = rest@;
            let sub = rest.remove(0);
            proof {
                assert(rest@ =~= before.drop_first());
            }
            if sub.storage.is_well_formed() && sub.storage.frame_count() >= 1 {
                let ghost k0 = kept@;
                kept.push(sub);
                proof {
                    assert(kept@ + ready_subs(rest@) =~= k0 + (seq![before[0]] + ready_subs(
                        rest@,
                    )));
                }
            }
        }
        assert(ready_subs(rest@) =~= Seq::<AnimSubLayer<G>>::empty());
        assert(kept@ =~= ready_subs(orig));
        if kept.len() == 0 {
            return false;
        }
        self.layers.clear_layer(layer_num);
        let anim = AnimationState::new(kept, frame_duration_ns, now_ns);
        self.animations.insert(layer_num, anim);
        self.dirty = true;
        proof {
            assert(self.animations@ =~= old(self).animations@.insert(
                layer_num,
                self.animations@[layer_num],
            ));
        }
        true
    }

    /// Advance every animation to time `now_ns` and choose the frame writes
    /// that bring each sublayer's texture to the frame it must show. Returns
    /// whether any animation moved on, and the writes.
    pub fn advance_animations(&mut self, now_ns: u64) -> (r: (bool, Vec<UploadJob>))
        requires
            old(self).wf(),
        ensures
            final(self).wf(),
            final(self).animated().dom() == old(self).animated().dom(),
            forall|n: u8|
                #[trigger] old(self).animated().contains_key(n) ==> advanced(
                    old(self).animated()[n],
                    final(self).animated()[n],
                    now_ns,
                ),
            r.0 == exists|n: u8|
                #[trigger] old(self).animated().contains_key(n) && spec_frame_moved(
                    old(self).animated()[n],
                    now_ns,
                ),
            forall|k: int| 0 <= k < r.1@.len() ==> job_valid(old(self).animated(), #[trigger] r.1@[k], now_ns),
            jobs_ordered(r.1@),
            forall|n: u8, j: int|
                old(self).animated().contains_key(n) && 0 <= j < old(self).animated()[n].sub_layers@.len()
                    && #[trigger] stale(old(self).animated()[n], j, now_ns) ==> exists|k: int|
                    0 <= k < r.1@.len() && (#[trigger] r.1@[k]).layer_num == n && r.1@[k].sub_index == j,
            final(self).static_layers() == old(self).static_layers(),
            final(self).desired() == old(self).desired(),
            final(self).pending_layers() == old(self).pending_layers(),
            final(self).pending_anims() == old(self).pending_anims(),
            final(self).is_dirty() == old(self).is_dirty(),
    {
        let ghost orig = self.animations@;
        let mut any_changed = false;
        let mut jobs: Vec<UploadJob> = Vec::new();
        let mut i: u16 = 256;
        while i > 0
            invariant
                i <= 256,
                orig == old(self).animations@,
                self.wf(),
                self.animations@.dom() == orig.dom(),
                self.layers@ == old(self).layers@,
                self.loaded_states@ == old(self).loaded_states@,
                self.completed_layers@ == old(self).completed_layers@,
                self.completed_anims@ == old(self).completed_anims@,
                self.dirty == old(self).dirty,
                forall|m: u8|
                    #[trigger] orig.contains_key(m) ==> (m >= i ==> advanced(
                        orig[m],
                        self.animations@[m],
                        now_ns,
                    )) && (m < i ==> self.animations@[m] == orig[m]),
                any_changed == exists|m: u8|
                    #[trigger] orig.contains_key(m) && m >= i && spec_frame_moved(orig[m], now_ns),
                forall|k: int|
                    0 <= k < jobs@.len() ==> job_valid(orig, #[trigger] jobs@[k], now_ns)
                        && jobs@[k].layer_num >= i,
                jobs_ordered(jobs@),
                forall|m: u8, j: int|
                    orig.contains_key(m) && m >= i && 0 <= j < orig[m].sub_layers@.len()
                        && #[trigger] stale(orig[m], j, now_ns) ==> exists|k: int|
                        0 <= k < jobs@.len() && (#[trigger] jobs@[k]).layer_num == m
                            && jobs@[k].sub_index == j,
            decreases i,
        {
            let n = (i - 1) as u8;
            let ghost jobs_before = jobs@;
            let ghost changed_before = any_changed;
            match self.animations.remove(&n) {
                Some(anim0) => {
                    let mut anim = anim0;
                    let ghost o = anim;
                    assert(orig.contains_key(n) && orig[n] == o);
                    let changed = anim.tick(now_ns);
                    let ghost ticked = anim;
                    let sync = anim.sync_uploads();
                    let mut k: usize = 0;
                    while k < sync.len()
                        invariant
                            k <= sync@.len(),
                            orig.contains_key(n),
                            orig[n] == o,
                            o.frame_duration_ns > 0,
                            o.sublayers_ready(),
                            anim.sub_layers@.len() == o.sub_layers@.len(),
                            ticked.current_frame == spec_tick_frame(o, now_ns),
                            ticked.sub_layers == o.sub_layers,
                            forall|jj: int|
                                0 <= jj < o.sub_layers@.len() ==> {
                                    let os = #[trigger] o.sub_layers@[jj];
                                    let ns = anim.sub_layers@[jj];
                                    &&& ns.storage == os.storage
                                    &&& ns.alpha_only == os.alpha_only
                                },
                            forall|q: int|
                                0 <= q < sync@.len() ==> {
                                    let jj = (#[trigger] sync@[q]).0 as int;
                                    &&& 0 <= jj < ticked.sub_layers@.len()
                                    &&& sync@[q].1 == shown_frame(
                                        ticked.current_frame as int,
                                        ticked.sub_layers@[jj].storage.spec_frame_count(),
                                    )
                                    &&& ticked.sub_layers@[jj].uploaded_frame_idx != Some(sync@[q].1)
                                },
                            jobs@.len() == jobs_before.len() + k,
                            forall|q: int| 0 <= q < jobs_before.len() ==> jobs@[q] == jobs_before[q],
                            forall|q: int| 0 <= q < jobs_before.len() ==> (#[trigger] jobs_before[q]).layer_num > n,
                            jobs_ordered(jobs_before),
                            jobs_ordered(jobs@),
                            forall|q1: int, q2: int|
                                0 <= q1 < q2 < sync@.len() ==> (#[trigger] sync@[q1]).0 < (#[trigger] sync@[q2]).0,
                            forall|q: int|
                                0 <= q < k ==> {
                                    let jb = #[trigger] jobs@[jobs_before.len() + q];
                                    &&& jb.layer_num == n
                                    &&& jb.sub_index == sync@[q].0
                                    &&& jb.frame_idx == sync@[q].1
                                    &&& job_valid(orig, jb, now_ns)
                                },
                        decreases sync@.len() - k,
                    {
                        let (j, f) = sync[k];
                        let kind = texture_kind(&anim.sub_layers[j].storage, anim.sub_layers[j].alpha_only);
                        proof {
                            let os = o.sub_layers@[j as int];
                            assert(os.storage.well_formed() && os.storage.spec_frame_count() >= 1);
                            os.storage.lemma_frames_readable(f as int);
                        }
                        let ghost pre = jobs@;
                        jobs.push(UploadJob { layer_num: n, sub_index: j, frame_idx: f, kind });
                        proof {
                            let jb = jobs@;
                            let b = jobs_before.len() as int;
                            assert forall|k1: int, k2: int| 0 <= k1 < k2 < jb.len() implies (
                            #[trigger] jb[k1]).layer_num > (#[trigger] jb[k2]).layer_num || (
                            jb[k1].layer_num == jb[k2].layer_num && jb[k1].sub_index
                                < jb[k2].sub_index) by {
                                if k2 < jb.len() - 1 {
                                    assert(jb[k1] == pre[k1] && jb[k2] == pre[k2]);
                                } else if k1 < b {
                                    assert(jb[k1] == jobs_before[k1]);
                                } else {
                                    let q1 = k1 - b;
                                    assert(jb[b + q1] == pre[b + q1]);
                                    assert(pre[b + q1].sub_index == sync@[q1].0);
                                }
                            }
                        }
                        k = k + 1;
                    }
                    self.animations.insert(n, anim);
                    if changed {
                        any_changed = true;
                    }
                    proof {
                        assert(advanced(o, self.animations@[n], now_ns));
                        let a = self.animations@[n];
                        assert forall|jj: int| 0 <= jj < a.sub_layers@.len() implies {
                            &&& (#[trigger] a.sub_layers@[jj]).storage.well_formed()
                            &&& a.sub_layers@[jj].storage.spec_frame_count() >= 1
                        } by {
                            assert(o.sub_layers@[jj].storage == a.sub_layers@[jj].storage);
                        }
                        assert(a.sublayers_ready());
                        assert forall|m: u8| #[trigger] self.animations@.contains_key(m) implies self.animations@[m].frame_duration_ns
                            > 0 && self.animations@[m].sublayers_ready() by {
                            if m != n {
                                assert(old(self).animations@.contains_key(m) || true);
                            }
                        }
                        assert forall|q: int|
                            0 <= q < jobs@.len() implies job_valid(orig, #[trigger] jobs@[q], now_ns)
                                && jobs@[q].layer_num >= i - 1 by {
                            if q < jobs_before.len() {
                                assert(jobs@[q] == jobs_before[q]);
                            } else {
                                let qq = q - jobs_before.len();
                                assert(jobs@[jobs_before.len() + qq].layer_num == n);
                            }
                        }
                        assert forall|m: u8, j: int|
                            orig.contains_key(m) && m >= i - 1 && 0 <= j < orig[m].sub_layers@.len()
                                && #[trigger] stale(orig[m], j, now_ns) implies exists|kk: int|
                                0 <= kk < jobs@.len() && (#[trigger] jobs@[kk]).layer_num == m
                                    && jobs@[kk].sub_index == j by {
                            if m >= i {
                                let kk = choose|kk: int|
                                    0 <= kk < jobs_before.len() && (#[trigger] jobs_before[kk]).layer_num == m
                                        && jobs_before[kk].sub_index == j;
                                assert(jobs@[kk] == jobs_before[kk]);
                            } else {
                                assert(m == n);
                                let q = choose|q: int| 0 <= q < sync@.len() && sync@[q].0 == j;
                                assert(jobs@[jobs_before.len() + q].sub_index == j);
                            }
                        }
                    }
                },
                None => {
                    assert(!orig.contains_key(n));
                },
            }
            proof {
                assert(self.animations@.dom() =~= orig.dom());
            }
            i = i - 1;
        }
        let r = (any_changed, jobs);
        proof {
            assert(orig == old(self).animated());
            assert forall|m: u8, j: int|
                old(self).animated().contains_key(m) && 0 <= j < old(self).animated()[m].sub_layers@.len()
                    && #[trigger] stale(old(self).animated()[m], j, now_ns) implies exists|k: int|
                0 <= k < r.1@.len() && (#[trigger] r.1@[k]).layer_num == m && r.1@[k].sub_index == j by {
                assert(m >= i);
                assert(stale(orig[m], j, now_ns));
                let k = choose|k: int|
                    0 <= k < jobs@.len() && (#[trigger] jobs@[k]).layer_num == m && jobs@[k].sub_index == j;
                assert(r.1@[k] == jobs@[k]);
            }
        }
        r
    }

    /// The quads of the next frame, in drawing order.
    pub fn draw_plan(&self) -> (r: Vec<DrawItem>)
        ensures
            r@ == draw_items(self.static_layers(), self.animated()),
    {
        let ghost sm = self.layers@;
        let ghost am = self.animations@;
        let mut out: Vec<DrawItem> = Vec::new();
        let mut i: u16 = 256;
        while i > 0
            invariant
                i <= 256,
                sm == self.layers@,
                am == self.animations@,
                out@ == items_down(sm, am, i as int),
            decreases i,
        {
            let n = (i - 1) as u8;
            let ghost before = out@;
            match self.animations.get(&n) {
                Some(anim) => {
                    let mut j: usize = 0;
                    while j < anim.sub_layers.len()
                        invariant
                            j <= anim.sub_layers@.len(),
                            out@ == before + Seq::new(
                                j as nat,
                                |q: int| DrawItem::AnimSub { layer_num: n, sub_index: q as usize },
                            ),
                        decreases anim.sub_layers@.len() - j,
                    {
                        out.push(DrawItem::AnimSub { layer_num: n, sub_index: j });
                        j = j + 1;
                    }
                },
                None => match self.layers.get_layer(n) {
                    Some(textures) => {
                        let mut k: usize = 0;
                        while k < textures.len()
                            invariant
                                k <= textures@.len(),
                                out@ == before + Seq::new(
                                    k as nat,
                                    |q: int| DrawItem::StaticTexture { layer_num: n, index: q as usize },
                                ),
                            decreases textures@.len() - k,
                        {
                            out.push(DrawItem::StaticTexture { layer_num: n, index: k });
                            k = k + 1;
                        }
                    },
                    None => {},
                },
            }
            proof {
                assert(out@ =~= items_down(sm, am, (i - 1) as int));
            }
            i = i - 1;
        }
        out
    }

    /// The quads of the next frame when one must be drawn: when the state
    /// changed since the last frame (the dirty flag, which is cleared) or an
    /// animation moved to another frame (`ticked`); `None` otherwise.
    pub fn take_frame_plan(&mut self, ticked: bool) -> (r: Option<Vec<DrawItem>>)
        requires
            old(self).wf(),
        ensures
            final(self).wf(),
            r is Some <==> (old(self).is_dirty() || ticked),
            r matches Some(p) ==> p@ == draw_items(old(self).static_layers(), old(self).animated()),
            !final(self).is_dirty(),
            final(self).static_layers() == old(self).static_layers(),
            final(self).animated() == old(self).animated(),
            final(self).desired() == old(self).desired(),
            final(self).pending_layers() == old(self).pending_layers(),
            final(self).pending_anims() == old(self).pending_anims(),
    {
        let was_dirty = self.take_dirty();
        if !was_dirty && !ticked {
            return None;
        }
        Some(self.draw_plan())
    }

    /// The animation on layer `layer_num`.
    pub fn animation(&self, layer_num: u8) -> (r: Option<&AnimationState<G>>)
        ensures
            r is Some <==> self.animated().contains_key(layer_num),
            r matches Some(a) ==> *a == self.animated()[layer_num],
    {
        self.animations.get(&layer_num)
    }

    /// The static textures of layer `layer_num`.
    pub fn static_layer(&self, layer_num: u8) -> (r: Option<&Vec<T>>)
        ensures
            r is Some <==> self.static_layers().contains_key(layer_num),
            r matches Some(v) ==> v@ == self.static_layers()[layer_num],
    {
        self.layers.get_layer(layer_num)
    }

    /// The bytes of frame `frame_idx` of sublayer `sub_index` of the animation
    /// on layer `layer_num`, when they exist.
    pub fn job_frame(&self, layer_num: u8, sub_index: usize, frame_idx: usize) -> (r: Option<&[u8]>)
        ensures
            r is Some <==> self.animated().contains_key(layer_num) && sub_index
                < self.animated()[layer_num].sub_layers@.len() && self.animated()[layer_num].sub_layers@[sub_index as int].storage.can_read_frame(
                frame_idx as int,
            ),
            r matches Some(d) ==> d@ == self.animated()[layer_num].sub_layers@[sub_index as int].storage.frame_view(
                frame_idx as int,
            ),
    {
        match self.animations.get(&layer_num) {
            Some(anim) => {
                if sub_index < anim.sub_layers.len() {
                    let storage = &anim.sub_layers[sub_index].storage;
                    if storage.has_frame(frame_idx) {
                        return Some(storage.frame_data(frame_idx));
                    }
                }
                None
            },
            None => None,
        }
    }

    /// Clear a layer (both static and animated), forget what it should show,
    /// and drop its queued loads.
    pub fn clear_layer(&mut self, layer_num: u8)
        requires
            old(self).wf(),
        ensures
            final(self).wf(),
            final(self).static_layers() == old(self).static_layers().remove(layer_num),
            final(self).animated() == old(self).animated().remove(layer_num),
            final(self).desired() == old(self).desired().remove(layer_num),
            final(self).pending_layers() == without_layer(old(self).pending_layers(), layer_num),
            final(self).pending_anims() == without_layer(old(self).pending_anims(), layer_num),
            final(self).is_dirty(),
    {
        self.layers.clear_layer(layer_num);
        self.animations.remove(&layer_num);
        self.loaded_states.remove(&layer_num);
        retain_other_layers(&mut self.completed_anims, layer_num);
        retain_other_layers(&mut self.completed_layers, layer_num);
        self.dirty = true;
        proof {
            assert(self.desired() =~= old(self).desired().remove(layer_num));
            assert(self.animations@ =~= old(self).animations@.remove(layer_num));
        }
    }

    /// Note that the next frame must be drawn (e.g. after a resize).
    pub fn mark_dirty(&mut self)
        requires
            old(self).wf(),
        ensures
            final(self).wf(),
            final(self).is_dirty(),
            final(self).static_layers() == old(self).static_layers(),
            final(self).animated() == old(self).animated(),
            final(self).desired() == old(self).desired(),
            final(self).pending_layers() == old(self).pending_layers(),
            final(self).pending_anims() == old(self).pending_anims(),
    {
        self.dirty = true;
    }

    /// Whether the frame must be drawn; clears the flag.
    pub fn take_dirty(&mut self) -> (r: bool)
        requires
            old(self).wf(),
        ensures
            final(self).wf(),
            r == old(self).is_dirty(),
            !final(self).is_dirty(),
            final(self).static_layers() == old(self).static_layers(),
            final(self).animated() == old(self).animated(),
            final(self).desired() == old(self).desired(),
            final(self).pending_layers() == old(self).pending_layers(),
            final(self).pending_anims() == old(self).pending_anims(),
    {
        let r = self.dirty;
        self.dirty = false;
        r
    }
}

} // verus!
