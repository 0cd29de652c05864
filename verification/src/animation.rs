//! Animation controller — frame storage, frame timing, and which frame each
//! sublayer's GPU texture must show.
//!
//! Two storage modes:
//!   1. BC-compressed contiguous buffer: frames are slices of BC4/BC7 data
//!   2. RAM-cached frames: one byte buffer per frame (PNG fallback)
//!
//! Time is counted in nanoseconds on a monotonic clock supplied by the caller.

use vstd::prelude::*;

verus! {

/// Frame data storage — either BC-compressed contiguous buffer or individual Vec buffers.
pub enum FrameStorage {
    /// BC-compressed frames in a contiguous buffer.
    /// frame_data(idx) returns a slice of compressed BC blocks.
    Compressed { data: Vec<u8>, frame_bytes: usize, frame_count: usize },
    /// Individual frame buffers in RAM (fallback for non-BC sublayers).
    Frames(Vec<Vec<u8>>),
}

impl FrameStorage {
    pub open spec fn spec_frame_count(&self) -> int {
        match *self {
            FrameStorage::Compressed { frame_count, .. } => frame_count as int,
            FrameStorage::Frames(frames) => frames@.len() as int,
        }
    }

    /// Frame `idx` can be sliced out without going past the stored bytes.
    pub open spec fn can_read_frame(&self, idx: int) -> bool {
        match *self {
            FrameStorage::Compressed { data, frame_bytes, .. } => 0 <= idx && (idx + 1)
                * frame_bytes <= data@.len(),
            FrameStorage::Frames(frames) => 0 <= idx < frames@.len(),
        }
    }

    /// The bytes of frame `idx`.
    pub open spec fn frame_view(&self, idx: int) -> Seq<u8> {
        match *self {
            FrameStorage::Compressed { data, frame_bytes, .. } => data@.subrange(
                idx * frame_bytes,
                idx * frame_bytes + frame_bytes,
            ),
            FrameStorage::Frames(frames) => frames@[idx]@,
        }
    }

    /// Every announced frame lies inside the stored bytes.
    pub open spec fn well_formed(&self) -> bool {
        match *self {
            FrameStorage::Compressed { data, frame_bytes, frame_count } => frame_count
                * frame_bytes <= data@.len(),
            FrameStorage::Frames(_) => true,
        }
    }

    /// In well-formed storage every frame below the frame count can be read.
    pub proof fn lemma_frames_readable(&self, idx: int)
        requires
            self.well_formed(),
            0 <= idx < self.spec_frame_count(),
        ensures
            self.can_read_frame(idx),
    {
        match *self {
            FrameStorage::Compressed { data, frame_bytes, frame_count } => {
                assert((idx + 1) * frame_bytes <= frame_count * frame_bytes) by (nonlinear_arith)
                    requires
                        idx + 1 <= frame_count,
                        frame_bytes >= 0,
                ;
            },
            FrameStorage::Frames(_) => {},
        }
    }

    /// The frames of compressed storage are consecutive slices of its
    /// buffer: joined in order, the first `k` frames are the first
    /// `k * frame_bytes` bytes, and all frames are the whole announced data.
    pub proof fn lemma_frames_cover_buffer(&self, k: nat)
        requires
            self is Compressed,
            self.well_formed(),
            k <= self.spec_frame_count(),
        ensures
            Seq::new(k, |i: int| self.frame_view(i)).flatten() == self->data@.subrange(
                0,
                k * self->frame_bytes,
            ),
        decreases k,
    {
        let fb = self->frame_bytes as int;
        let n = self->frame_count as int;
        assert(k * fb <= n * fb) by (nonlinear_arith)
            requires
                k <= n,
                fb >= 0,
        ;
        if k == 0 {
            assert(Seq::new(0, |i: int| self.frame_view(i)) =~= Seq::<Seq<u8>>::empty());
            assert(self->data@.subrange(0, 0) =~= Seq::<u8>::empty());
        } else {
            let km = (k - 1) as nat;
            self.lemma_frames_cover_buffer(km);
            let prev = Seq::new(km, |i: int| self.frame_view(i));
            let all = Seq::new(k, |i: int| self.frame_view(i));
            assert(all =~= prev.push(self.frame_view(km as int)));
            prev.lemma_flatten_push(self.frame_view(km as int));
            assert(km * fb + fb == k * fb) by (nonlinear_arith)
                requires
                    km + 1 == k,
            ;
            assert(self->data@.subrange(0, km * fb) + self->data@.subrange(km * fb, km * fb + fb)
                =~= self->data@.subrange(0, k * fb));
        }
    }

    pub fn frame_data(&self, idx: usize) -> (r: &[u8])
        requires
            self.can_read_frame(idx as int),
        ensures
            r@ == self.frame_view(idx as int),
    {
        match self {
            FrameStorage::Compressed { data, frame_bytes, .. } => {
                let fb = *frame_bytes;
                let dlen = data.len();
                assert(idx * fb + fb == (idx + 1) * fb) by (nonlinear_arith);
                let start = idx * fb;
                &data.as_slice()[start..start + fb]
            },
            FrameStorage::Frames(frames) => frames[idx].as_slice(),
        }
    }

    pub fn frame_count(&self) -> (r: usize)
        ensures
            r == self.spec_frame_count(),
    {
        match self {
            FrameStorage::Compressed { frame_count, .. } => *frame_count,
            FrameStorage::Frames(frames) => frames.len(),
        }
    }

    /// Returns true if this storage is BC-compressed data.
    pub fn is_compressed(&self) -> (r: bool)
        ensures
            r == (self is Compressed),
    {
        match self {
            FrameStorage::Compressed { .. } => true,
            FrameStorage::Frames(_) => false,
        }
    }

    /// Whether frame `idx` can be sliced out.
    pub fn has_frame(&self, idx: usize) -> (r: bool)
        ensures
            r == self.can_read_frame(idx as int),
    {
        match self {
            FrameStorage::Compressed { data, frame_bytes, .. } => {
                let dlen = data.len();
                let fb = *frame_bytes;
                match idx.checked_add(1) {
                    Some(n) => {
                        assert(n == idx + 1);
                        match n.checked_mul(fb) {
                            Some(end) => {
                                assert(end == (idx + 1) * fb);
                                end <= dlen
                            },
                            None => {
                                assert((idx + 1) * fb > usize::MAX);
                                false
                            },
                        }
                    },
                    None => {
                        assert(fb >= 1 ==> (idx + 1) * fb >= idx + 1) by (nonlinear_arith);
                        assert(fb == 0 ==> (idx + 1) * fb == 0) by (nonlinear_arith);
                        assert(idx + 1 > usize::MAX);
                        assert(dlen == data@.len());
                        fb == 0
                    },
                }
            },
            FrameStorage::Frames(frames) => idx < frames.len(),
        }
    }

    /// Whether every announced frame lies inside the stored bytes.
    pub fn is_well_formed(&self) -> (r: bool)
        ensures
            r == self.well_formed(),
    {
        match self {
            FrameStorage::Compressed { data, frame_bytes, frame_count } => {
                let dlen = data.len();
                match frame_count.checked_mul(*frame_bytes) {
                    Some(total) => total <= data.len(),
                    None => false,
                }
            },
            FrameStorage::Frames(_) => true,
        }
    }
}

/// GPU texture format of a sublayer: BC-compressed storage uses BC4
/// (alpha-only) or BC7 (RGBA); RAM frames use R8 (alpha-only) or RGBA8.
#[derive(Debug, Clone, Copy, PartialEq, Eq, Structural)]
pub enum TextureKind {
    Bc4,
    Bc7,
    Alpha,
    Rgba,
}

pub open spec fn spec_texture_kind(compressed: bool, alpha_only: bool) -> TextureKind {
    if compressed {
        if alpha_only {
            TextureKind::Bc4
        } else {
            TextureKind::Bc7
        }
    } else {
        if alpha_only {
            TextureKind::Alpha
        } else {
            TextureKind::Rgba
        }
    }
}

/// The texture format for a storage mode and an alpha-only flag.
pub fn texture_kind(storage: &FrameStorage, alpha_only: bool) -> (r: TextureKind)
    ensures
        r == spec_texture_kind(storage is Compressed, alpha_only),
{
    match (storage, alpha_only) {
        (FrameStorage::Compressed { .. }, true) => TextureKind::Bc4,
        (FrameStorage::Compressed { .. }, false) => TextureKind::Bc7,
        (FrameStorage::Frames(_), true) => TextureKind::Alpha,
        (FrameStorage::Frames(_), false) => TextureKind::Rgba,
    }
}

/// Bytes per row and rows per image of a full-texture copy, as integers.
pub open spec fn spec_copy_layout(kind: TextureKind, width: int, height: int) -> (int, int) {
    match kind {
        TextureKind::Rgba => (4 * width, height),
        TextureKind::Alpha => (width, height),
        TextureKind::Bc4 => ((width / 4) * 8, height / 4),
        TextureKind::Bc7 => ((width / 4) * 16, height / 4),
    }
}

/// Bytes per row and rows per image for uploading a whole texture of the given
/// kind: 4 bytes per texel for RGBA, 1 for alpha, and 8 (BC4) or 16 (BC7)
/// bytes per 4x4 block, one block row per 4 texel rows. `None` when the row
/// size does not fit in `u32`.
pub fn copy_layout(kind: TextureKind, width: u32, height: u32) -> (r: Option<(u32, u32)>)
    ensures
        r is Some <==> spec_copy_layout(kind, width as int, height as int).0 <= u32::MAX,
        r matches Some(l) ==> l.0 == spec_copy_layout(kind, width as int, height as int).0 && l.1
            == spec_copy_layout(kind, width as int, height as int).1,
{
    match kind {
        TextureKind::Rgba => match 4u32.checked_mul(width) {
            Some(row) => Some((row, height)),
            None => None,
        },
        TextureKind::Alpha => Some((width, height)),
        TextureKind::Bc4 => match (width / 4).checked_mul(8) {
            Some(row) => Some((row, height / 4)),
            None => None,
        },
        TextureKind::Bc7 => match (width / 4).checked_mul(16) {
            Some(row) => Some((row, height / 4)),
            None => None,
        },
    }
}

/// One sublayer of an animation (e.g., one color channel). `gpu` carries what
/// the drawing side attaches to it (texture, bind group, placement, tint).
pub struct AnimSubLayer<G> {
    pub storage: FrameStorage,
    pub size: (u32, u32),
    /// Which frame index is currently uploaded to the GPU texture
    pub uploaded_frame_idx: Option<usize>,
    /// If true, frames store alpha-only data and shader applies tint
    pub alpha_only: bool,
    pub gpu: G,
}

/// Largest frame count among the sublayers (0 for none).
pub open spec fn max_count<G>(subs: Seq<AnimSubLayer<G>>) -> int
    decreases subs.len(),
{
    if subs.len() == 0 {
        0
    } else {
        let rest = max_count(subs.drop_last());
        let last = subs.last().storage.spec_frame_count();
        if last > rest {
            last
        } else {
            rest
        }
    }
}

/// The animation length: the longest sublayer, or 1 without sublayers.
pub open spec fn animation_length<G>(subs: Seq<AnimSubLayer<G>>) -> int {
    if subs.len() == 0 {
        1
    } else {
        max_count(subs)
    }
}

/// The frame a sublayer shows at animation frame `current`: the current frame,
/// held at the sublayer's last frame once it runs out.
pub open spec fn shown_frame(current: int, count: int) -> int {
    let last = if count > 0 {
        count - 1
    } else {
        0
    };
    if current < last {
        current
    } else {
        last
    }
}

/// A sublayer with `count >= 1` frames shows the animation's current frame
/// while it has that frame, and holds its last frame once it runs out; it
/// never wraps around to an earlier frame.
pub proof fn lemma_shown_frame_holds_last(current: int, count: int)
    requires
        0 <= current,
        count >= 1,
    ensures
        0 <= shown_frame(current, count) < count,
        current < count ==> shown_frame(current, count) == current,
        current >= count ==> shown_frame(current, count) == count - 1,
        shown_frame(current, count) <= current,
{
}

/// The length of an animation is its longest sublayer's frame count: no
/// sublayer has more frames, and some sublayer has exactly that many. An
/// animation without sublayers has length 1.
pub proof fn lemma_animation_length_is_longest<G>(subs: Seq<AnimSubLayer<G>>)
    ensures
        forall|j: int|
            0 <= j < subs.len() ==> (#[trigger] subs[j]).storage.spec_frame_count()
                <= animation_length(subs),
        subs.len() > 0 ==> exists|j: int|
            0 <= j < subs.len() && (#[trigger] subs[j]).storage.spec_frame_count()
                == animation_length(subs),
        subs.len() == 0 ==> animation_length(subs) == 1,
    decreases subs.len(),
{
    if subs.len() > 0 {
        lemma_max_count(subs);
    }
}

proof fn lemma_max_count<G>(subs: Seq<AnimSubLayer<G>>)
    requires
        subs.len() > 0,
    ensures
        forall|j: int|
            0 <= j < subs.len() ==> (#[trigger] subs[j]).storage.spec_frame_count() <= max_count(
                subs,
            ),
        exists|j: int|
            0 <= j < subs.len() && (#[trigger] subs[j]).storage.spec_frame_count() == max_count(
                subs,
            ),
    decreases subs.len(),
{
    let rest = subs.drop_last();
    let last = subs.last().storage.spec_frame_count();
    assert(last >= 0) by {
        match subs.last().storage {
            FrameStorage::Compressed { frame_count, .. } => {},
            FrameStorage::Frames(frames) => {},
        }
    }
    if rest.len() == 0 {
        assert(max_count(rest) == 0);
        assert(subs[subs.len() - 1].storage.spec_frame_count() == last);
    } else {
        lemma_max_count(rest);
        assert forall|j: int| 0 <= j < subs.len() implies (#[trigger] subs[j]).storage.spec_frame_count()
            <= max_count(subs) by {
            if j < rest.len() {
                assert(subs[j] == rest[j]);
            }
        }
        if last > max_count(rest) {
            assert(subs[subs.len() - 1].storage.spec_frame_count() == max_count(subs));
        } else {
            let j = choose|j: int|
                0 <= j < rest.len() && (#[trigger] rest[j]).storage.spec_frame_count() == max_count(
                    rest,
                );
            assert(subs[j] == rest[j]);
        }
    }
}

/// Time passed since the last advance; a clock reading before it counts as none.
pub open spec fn spec_elapsed<G>(a: AnimationState<G>, now_ns: u64) -> int {
    if now_ns >= a.last_advance_ns {
        now_ns - a.last_advance_ns
    } else {
        0
    }
}

/// A tick at `now_ns` advances the animation: it has more than one frame
/// and at least one frame duration has passed since the last advance.
pub open spec fn spec_tick_due<G>(a: AnimationState<G>, now_ns: u64) -> bool {
    a.max_frame_count > 1 && spec_elapsed(a, now_ns) >= a.frame_duration_ns
}

/// The current frame after a tick at `now_ns`.
pub open spec fn spec_tick_frame<G>(a: AnimationState<G>, now_ns: u64) -> int {
    if spec_tick_due(a, now_ns) {
        (a.current_frame + spec_elapsed(a, now_ns) / (a.frame_duration_ns as int)) % (
        a.max_frame_count as int)
    } else {
        a.current_frame as int
    }
}

/// A tick at `now_ns` shows another frame than the current one (an advance
/// by a whole number of animation lengths shows the same frame).
pub open spec fn spec_frame_moved<G>(a: AnimationState<G>, now_ns: u64) -> bool {
    spec_tick_frame(a, now_ns) != a.current_frame
}

/// The time of the last advance after a tick at `now_ns`.
pub open spec fn spec_tick_last<G>(a: AnimationState<G>, now_ns: u64) -> u64 {
    if spec_tick_due(a, now_ns) {
        now_ns
    } else {
        a.last_advance_ns
    }
}

/// The current frame stays inside the animation: ticking a state whose
/// current frame is below its length gives a frame below its length.
pub proof fn lemma_tick_in_range<G>(a: AnimationState<G>, now_ns: u64)
    requires
        a.current_frame < a.max_frame_count,
    ensures
        0 <= spec_tick_frame(a, now_ns) < a.max_frame_count,
{
}

/// Full animation state for a layer.
pub struct AnimationState<G> {
    pub sub_layers: Vec<AnimSubLayer<G>>,
    pub current_frame: usize,
    pub max_frame_count: usize,
    pub last_advance_ns: u64,
    pub frame_duration_ns: u64,
}

impl<G> AnimationState<G> {
    /// Every sublayer holds at least one frame and its frames can be read.
    pub open spec fn sublayers_ready(&self) -> bool {
        forall|j: int|
            0 <= j < self.sub_layers@.len() ==> {
                &&& (#[trigger] self.sub_layers@[j]).storage.well_formed()
                &&& self.sub_layers@[j].storage.spec_frame_count() >= 1
            }
    }

    /// Choose, for every sublayer, the frame its texture must show at the
    /// current animation frame, and record it as uploaded. Returns the
    /// sublayers whose texture held another frame (or none), in increasing
    /// order, each with the frame to upload.
    pub fn sync_uploads(&mut self) -> (jobs: Vec<(usize, usize)>)
        ensures
            final(self).current_frame == old(self).current_frame,
            final(self).max_frame_count == old(self).max_frame_count,
            final(self).last_advance_ns == old(self).last_advance_ns,
            final(self).frame_duration_ns == old(self).frame_duration_ns,
            final(self).sub_layers@.len() == old(self).sub_layers@.len(),
            forall|j: int|
                0 <= j < old(self).sub_layers@.len() ==> {
                    let o = #[trigger] old(self).sub_layers@[j];
                    let n = final(self).sub_layers@[j];
                    &&& n.storage == o.storage
                    &&& n.size == o.size
                    &&& n.alpha_only == o.alpha_only
                    &&& n.gpu == o.gpu
                    &&& n.uploaded_frame_idx == Some(
                        shown_frame(
                            old(self).current_frame as int,
                            o.storage.spec_frame_count(),
                        ) as usize,
                    )
                },
            forall|k: int|
                0 <= k < jobs@.len() ==> {
                    let j = (#[trigger] jobs@[k]).0 as int;
                    &&& 0 <= j < old(self).sub_layers@.len()
                    &&& jobs@[k].1 == shown_frame(
                        old(self).current_frame as int,
                        old(self).sub_layers@[j].storage.spec_frame_count(),
                    )
                    &&& old(self).sub_layers@[j].uploaded_frame_idx != Some(jobs@[k].1)
                },
            forall|k1: int, k2: int|
                0 <= k1 < k2 < jobs@.len() ==> (#[trigger] jobs@[k1]).0 < (#[trigger] jobs@[k2]).0,
            forall|j: int|
                0 <= j < old(self).sub_layers@.len() && (#[trigger] old(
                    self,
                ).sub_layers@[j]).uploaded_frame_idx != Some(
                    shown_frame(
                        old(self).current_frame as int,
                        old(self).sub_layers@[j].storage.spec_frame_count(),
                    ) as usize,
                ) ==> exists|k: int| 0 <= k < jobs@.len() && jobs@[k].0 == j,
    {
        let ghost orig = self.sub_layers@;
        let current_frame = self.current_frame;
        let mut jobs: Vec<(usize, usize)> = Vec::new();
        let mut j: usize = 0;
        while j < self.sub_layers.len()
            invariant
                j <= self.sub_layers@.len(),
                self.sub_layers@.len() == orig.len(),
                current_frame == self.current_frame,
                self.current_frame == old(self).current_frame,
                self.max_frame_count == old(self).max_frame_count,
                self.last_advance_ns == old(self).last_advance_ns,
                self.frame_duration_ns == old(self).frame_duration_ns,
                orig == old(self).sub_layers@,
                forall|i: int|
                    0 <= i < orig.len() ==> {
                        let o = #[trigger] orig[i];
                        let n = self.sub_layers@[i];
                        &&& n.storage == o.storage
                        &&& n.size == o.size
                        &&& n.alpha_only == o.alpha_only
                        &&& n.gpu == o.gpu
                        &&& i >= j ==> n.uploaded_frame_idx == o.uploaded_frame_idx
                        &&& i < j ==> n.uploaded_frame_idx == Some(
                            shown_frame(current_frame as int, o.storage.spec_frame_count())
                                as usize,
                        )
                    },
                forall|k: int|
                    0 <= k < jobs@.len() ==> {
                        let i = (#[trigger] jobs@[k]).0 as int;
                        &&& 0 <= i < j
                        &&& jobs@[k].1 == shown_frame(
                            current_frame as int,
                            orig[i].storage.spec_frame_count(),
                        )
                        &&& orig[i].uploaded_frame_idx != Some(jobs@[k].1)
                    },
                forall|k1: int, k2: int|
                    0 <= k1 < k2 < jobs@.len() ==> (#[trigger] jobs@[k1]).0 < (#[trigger] jobs@[k2]).0,
                forall|i: int|
                    0 <= i < j && (#[trigger] orig[i]).uploaded_frame_idx != Some(
                        shown_frame(current_frame as int, orig[i].storage.spec_frame_count())
                            as usize,
                    ) ==> exists|k: int| 0 <= k < jobs@.len() && jobs@[k].0 == i,
            decreases orig.len() - j,
        {
            let count = self.sub_layers[j].storage.frame_count();
            let idx = if current_frame < count.saturating_sub(1) {
                current_frame
            } else {
                count.saturating_sub(1)
            };
            assert(idx == shown_frame(current_frame as int, orig[j as int].storage.spec_frame_count()));
            let uploaded = self.sub_layers[j].uploaded_frame_idx;
            let stale = match uploaded {
                Some(u) => u != idx,
                None => true,
            };
            let ghost before = jobs@;
            if stale {
                jobs.push((j, idx));
                proof {
                    assert(jobs@[before.len() as int] == (j, idx));
                }
            }
            proof {
                assert forall|i: int|
                    0 <= i < j + 1 && (#[trigger] orig[i]).uploaded_frame_idx != Some(
                        shown_frame(current_frame as int, orig[i].storage.spec_frame_count())
                            as usize,
                    ) implies exists|k: int| 0 <= k < jobs@.len() && jobs@[k].0 == i by {
                    if i < j {
                        let k = choose|k: int| 0 <= k < before.len() && before[k].0 == i;
                        assert(jobs@[k] == before[k]);
                    } else {
                        assert(jobs@[before.len() as int].0 == i);
                    }
                }
            }
            let mut sub = self.sub_layers.remove(j);
            sub.uploaded_frame_idx = Some(idx);
            self.sub_layers.insert(j, sub);
            j = j + 1;
        }
        jobs
    }

    /// Start an animation at frame 0, `now_ns` being the time of the last advance.
    pub fn new(sub_layers: Vec<AnimSubLayer<G>>, frame_duration_ns: u64, now_ns: u64) -> (r: Self)
        ensures
            r.sub_layers@ == sub_layers@,
            r.current_frame == 0,
            r.max_frame_count == animation_length(sub_layers@),
            r.last_advance_ns == now_ns,
            r.frame_duration_ns == frame_duration_ns,
    {
        let mut max: usize = 0;
        let mut j: usize = 0;
        while j < sub_layers.len()
            invariant
                j <= sub_layers@.len(),
                max == max_count(sub_layers@.take(j as int)),
            decreases sub_layers@.len() - j,
        {
            proof {
                assert(sub_layers@.take(j + 1).drop_last() =~= sub_layers@.take(j as int));
                assert(sub_layers@.take(j + 1).last() == sub_layers@[j as int]);
            }
            let c = sub_layers[j].storage.frame_count();
            if c > max {
                max = c;
            }
            j = j + 1;
        }
        assert(sub_layers@.take(sub_layers@.len() as int) =~= sub_layers@);
        let max_frame_count = if sub_layers.len() == 0 {
            1
        } else {
            max
        };
        AnimationState {
            sub_layers,
            current_frame: 0,
            max_frame_count,
            last_advance_ns: now_ns,
            frame_duration_ns,
        }
    }

    /// Advance the animation to time `now_ns`; returns true if the frame changed.
    ///
    /// With at most one frame nothing happens. Otherwise, once at least one
    /// frame duration has passed since the last advance, the current frame
    /// moves on by the number of whole durations that passed, wrapping around
    /// the animation length, and the advance time becomes `now_ns`. A clock
    /// reading earlier than the last advance counts as no time passed.
    pub fn tick(&mut self, now_ns: u64) -> (changed: bool)
        requires
            old(self).frame_duration_ns > 0,
        ensures
            final(self).sub_layers == old(self).sub_layers,
            final(self).max_frame_count == old(self).max_frame_count,
            final(self).frame_duration_ns == old(self).frame_duration_ns,
            changed == (final(self).current_frame != old(self).current_frame),
            final(self).current_frame == spec_tick_frame(*old(self), now_ns),
            final(self).last_advance_ns == spec_tick_last(*old(self), now_ns),
    {
        if self.max_frame_count <= 1 {
            return false;
        }
        let elapsed: u64 = if now_ns >= self.last_advance_ns {
            now_ns - self.last_advance_ns
        } else {
            0
        };
        if elapsed >= self.frame_duration_ns {
            let frames_to_advance: u64 = elapsed / self.frame_duration_ns;
            let m = self.max_frame_count;
            let step = (frames_to_advance % (m as u64)) as usize;
            let cur = self.current_frame % m;
            proof {
                vstd::arithmetic::div_mod::lemma_add_mod_noop(
                    self.current_frame as int,
                    frames_to_advance as int,
                    m as int,
                );
            }
            let next = if cur >= m - step {
                cur - (m - step)
            } else {
                cur + step
            };
            proof {
                let c = cur as int;
                let s = step as int;
                let mm = m as int;
                if c >= mm - s {
                    vstd::arithmetic::div_mod::lemma_mod_multiples_vanish(1, c + s - mm, mm);
                    assert(mm * 1 + (c + s - mm) == c + s);
                    vstd::arithmetic::div_mod::lemma_small_mod((c + s - mm) as nat, mm as nat);
                } else {
                    vstd::arithmetic::div_mod::lemma_small_mod((c + s) as nat, mm as nat);
                }
            }
            let moved = next != self.current_frame;
            self.current_frame = next;
            self.last_advance_ns = now_ns;
            moved
        } else {
            false
        }
    }
}

} // verus!
