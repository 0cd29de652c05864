//! Layer Stack — the textures of up to 41 layers for compositing.
//! Layer 41 = backmost, Layer 1 = frontmost: layers are drawn from the
//! highest number down to the lowest.

use vstd::prelude::*;
use std::collections::HashMap;

verus! {

broadcast use vstd::std_specs::hash::group_hash_axioms;

pub const LAYER_COUNT: u8 = 41;

pub const CANVAS_WIDTH: u32 = 3000;

pub const CANVAS_HEIGHT: u32 = 2320;

/// The members of `s` that are at least `lo`, from the highest down.
pub open spec fn keys_down(s: Set<u8>, lo: int) -> Seq<u8>
    decreases 256 - lo,
{
    if lo > 255 {
        Seq::empty()
    } else if lo < 0 {
        keys_down(s, 0)
    } else {
        keys_down(s, lo + 1) + if s.contains(lo as u8) {
            seq![lo as u8]
        } else {
            Seq::empty()
        }
    }
}

/// The order in which layer numbers are drawn: every member once, highest first.
pub open spec fn draw_order_of(s: Set<u8>) -> Seq<u8> {
    keys_down(s, 0)
}

proof fn lemma_keys_down(s: Set<u8>, lo: int)
    requires
        0 <= lo <= 256,
    ensures
        forall|j: int|
            0 <= j < keys_down(s, lo).len() ==> keys_down(s, lo)[j] >= lo && s.contains(
                #[trigger] keys_down(s, lo)[j],
            ),
        forall|j1: int, j2: int|
            0 <= j1 < j2 < keys_down(s, lo).len() ==> #[trigger] keys_down(s, lo)[j1]
                > #[trigger] keys_down(s, lo)[j2],
        forall|k: u8| k >= lo && s.contains(k) ==> keys_down(s, lo).contains(k),
    decreases 256 - lo,
{
    if lo <= 255 {
        lemma_keys_down(s, lo + 1);
        let prev = keys_down(s, lo + 1);
        let k = keys_down(s, lo);
        assert forall|x: u8| x >= lo && s.contains(x) implies k.contains(x) by {
            if x > lo {
                let j = choose|j: int| 0 <= j < prev.len() && prev[j] == x;
                assert(k[j] == x);
            } else {
                assert(k[prev.len() as int] == x);
            }
        }
    }
}

/// Drawing order visits every layer number exactly once, from the highest
/// (backmost) number down to the lowest (frontmost).
pub proof fn lemma_draw_order(s: Set<u8>)
    ensures
        forall|j1: int, j2: int|
            0 <= j1 < j2 < draw_order_of(s).len() ==> #[trigger] draw_order_of(s)[j1]
                > #[trigger] draw_order_of(s)[j2],
        forall|k: u8| s.contains(k) <==> draw_order_of(s).contains(k),
{
    lemma_keys_down(s, 0);
    assert forall|k: u8| draw_order_of(s).contains(k) implies s.contains(k) by {
        let j = choose|j: int| 0 <= j < draw_order_of(s).len() && draw_order_of(s)[j] == k;
        assert(s.contains(draw_order_of(s)[j]));
    }
}

/// Manages the texture lists of all layers.
pub struct LayerStack<T> {
    /// layerNum (1-41) → list of textures (most layers have 1, png-stacks can have multiple sublayers)
    layers: HashMap<u8, Vec<T>>,
}

impl<T> View for LayerStack<T> {
    type V = Map<u8, Seq<T>>;

    closed spec fn view(&self) -> Map<u8, Seq<T>> {
        self.layers@.map_values(|v: Vec<T>| v@)
    }
}

impl<T> LayerStack<T> {
    pub fn new() -> (r: Self)
        ensures
            r@ == Map::<u8, Seq<T>>::empty(),
    {
        let r = LayerStack { layers: HashMap::new() };
        assert(r@ =~= Map::<u8, Seq<T>>::empty());
        r
    }

    /// Set the texture(s) for a layer, replacing any existing ones.
    pub fn set_layer(&mut self, layer_num: u8, textures: Vec<T>)
        ensures
            final(self)@ == old(self)@.insert(layer_num, textures@),
    {
        self.layers.insert(layer_num, textures);
        assert(self@ =~= old(self)@.insert(layer_num, textures@));
    }

    /// Clear a layer (remove all its textures).
    pub fn clear_layer(&mut self, layer_num: u8)
        ensures
            final(self)@ == old(self)@.remove(layer_num),
    {
        self.layers.remove(&layer_num);
        assert(self@ =~= old(self)@.remove(layer_num));
    }

    /// The layers in draw order (highest number first) with their textures.
    pub fn iter_draw_order(&self) -> (r: Vec<(u8, &Vec<T>)>)
        ensures
            r@.map_values(|e: (u8, &Vec<T>)| e.0) == draw_order_of(self@.dom()),
            forall|j: int| 0 <= j < r@.len() ==> (#[trigger] r@[j]).1@ == self@[r@[j].0],
    {
        let mut out: Vec<(u8, &Vec<T>)> = Vec::new();
        let mut i: u16 = 256;
        while i > 0
            invariant
                i <= 256,
                out@.map_values(|e: (u8, &Vec<T>)| e.0) == keys_down(self@.dom(), i as int),
                forall|j: int| 0 <= j < out@.len() ==> (#[trigger] out@[j]).1@ == self@[out@[j].0],
            decreases i,
        {
            let n = (i - 1) as u8;
            let ghost before = out@;
            match self.layers.get(&n) {
                Some(textures) => {
                    out.push((n, textures));
                },
                None => {},
            }
            proof {
                assert(self@.dom().contains(n) == self.layers@.contains_key(n));
                assert(out@.map_values(|e: (u8, &Vec<T>)| e.0) =~= keys_down(
                    self@.dom(),
                    (i - 1) as int,
                ));
            }
            i = i - 1;
        }
        out
    }

    pub fn clear_all(&mut self)
        ensures
            final(self)@ == Map::<u8, Seq<T>>::empty(),
    {
        self.layers.clear();
        assert(self@ =~= Map::<u8, Seq<T>>::empty());
    }

    /// Get all active layer numbers, each once (in drawing order).
    pub fn layer_nums(&self) -> (r: Vec<u8>)
        ensures
            r@ == draw_order_of(self@.dom()),
            r@.no_duplicates(),
            forall|k: u8| r@.contains(k) <==> self@.dom().contains(k),
    {
        let mut out: Vec<u8> = Vec::new();
        let mut i: u16 = 256;
        while i > 0
            invariant
                i <= 256,
                out@ == keys_down(self@.dom(), i as int),
            decreases i,
        {
            let n = (i - 1) as u8;
            if self.layers.contains_key(&n) {
                out.push(n);
            }
            proof {
                assert(self@.dom().contains(n) == self.layers@.contains_key(n));
                assert(out@ =~= keys_down(self@.dom(), (i - 1) as int));
            }
            i = i - 1;
        }
        proof {
            lemma_draw_order(self@.dom());
            assert forall|a: int, b: int| 0 <= a < out@.len() && 0 <= b < out@.len() && a != b implies out@[a] != out@[b] by {
                if a < b {
                    assert(draw_order_of(self@.dom())[a] > draw_order_of(self@.dom())[b]);
                } else {
                    assert(draw_order_of(self@.dom())[b] > draw_order_of(self@.dom())[a]);
                }
            }
        }
        out
    }

    /// Get the textures for a specific layer.
    pub fn get_layer(&self, layer_num: u8) -> (r: Option<&Vec<T>>)
        ensures
            r is Some <==> self@.dom().contains(layer_num),
            r matches Some(v) ==> v@ == self@[layer_num],
    {
        self.layers.get(&layer_num)
    }

    /// Whether a layer currently has textures.
    pub fn has_layer(&self, layer_num: u8) -> (r: bool)
        ensures
            r == self@.dom().contains(layer_num),
    {
        self.layers.contains_key(&layer_num)
    }
}

/// Reading a layer gives back what was last set for it, and setting a layer
/// leaves every other layer as it was.
pub proof fn lemma_set_then_get<T>(m: Map<u8, Seq<T>>, n: u8, textures: Seq<T>, other: u8)
    requires
        other != n,
    ensures
        m.insert(n, textures).dom().contains(n),
        m.insert(n, textures)[n] == textures,
        m.insert(n, textures).dom().contains(other) == m.dom().contains(other),
        m.dom().contains(other) ==> m.insert(n, textures)[other] == m[other],
{
}

/// A cleared layer is gone, and clearing leaves every other layer as it was.
pub proof fn lemma_clear_then_get<T>(m: Map<u8, Seq<T>>, n: u8, other: u8)
    requires
        other != n,
    ensures
        !m.remove(n).dom().contains(n),
        m.remove(n).dom().contains(other) == m.dom().contains(other),
        m.dom().contains(other) ==> m.remove(n)[other] == m[other],
{
}

} // verus!
