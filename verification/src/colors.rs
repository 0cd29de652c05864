//! Colour assignments of a layer (keyed by sentinel name or sublayer index)
//! and the full state key used to skip reloading an unchanged layer.

use vstd::prelude::*;
use crate::text::{decimal, decimal_string, str_eq};

verus! {

/// The map that a list of key/value pairs with distinct keys denotes.
pub open spec fn entries_map(s: Seq<(String, String)>) -> Map<Seq<char>, Seq<char>>
    decreases s.len(),
{
    if s.len() == 0 {
        Map::empty()
    } else {
        entries_map(s.drop_last()).insert(s.last().0@, s.last().1@)
    }
}

pub open spec fn keys_unique(s: Seq<(String, String)>) -> bool {
    forall|i: int, j: int| 0 <= i < j < s.len() ==> (#[trigger] s[i]).0@ != (#[trigger] s[j]).0@
}

proof fn lemma_entries_map(s: Seq<(String, String)>)
    requires
        keys_unique(s),
    ensures
        forall|k: Seq<char>|
            #[trigger] entries_map(s).contains_key(k) <==> exists|i: int|
                0 <= i < s.len() && (#[trigger] s[i]).0@ == k,
        forall|i: int| 0 <= i < s.len() ==> entries_map(s)[(#[trigger] s[i]).0@] == s[i].1@,
    decreases s.len(),
{
    if s.len() > 0 {
        let p = s.drop_last();
        assert(keys_unique(p));
        lemma_entries_map(p);
        assert forall|k: Seq<char>| #[trigger] entries_map(s).contains_key(k) implies exists|i: int|
            0 <= i < s.len() && (#[trigger] s[i]).0@ == k by {
            if k != s.last().0@ {
                assert(entries_map(p).contains_key(k));
                let i = choose|i: int| 0 <= i < p.len() && (#[trigger] p[i]).0@ == k;
                assert(s[i] == p[i]);
            } else {
                assert(s[s.len() - 1].0@ == k);
            }
        }
        assert forall|i: int| 0 <= i < s.len() implies entries_map(s).contains_key(
            (#[trigger] s[i]).0@,
        ) by {
            if i < s.len() - 1 {
                assert(s[i] == p[i]);
            }
        }
        assert forall|i: int| 0 <= i < s.len() implies entries_map(s)[(#[trigger] s[i]).0@]
            == s[i].1@ by {
            if i < s.len() - 1 {
                assert(s[i] == p[i]);
                assert(s[i].0@ != s[s.len() - 1].0@);
            }
        }
    }
}

/// Colour choices of one layer: at most one value per key.
pub struct ColorMap {
    entries: Vec<(String, String)>,
}

impl View for ColorMap {
    type V = Map<Seq<char>, Seq<char>>;

    closed spec fn view(&self) -> Map<Seq<char>, Seq<char>> {
        entries_map(self.entries@)
    }
}

impl ColorMap {
    #[verifier::type_invariant]
    spec fn inv(self) -> bool {
        keys_unique(self.entries@)
    }

    pub fn new() -> (r: Self)
        ensures
            r@ == Map::<Seq<char>, Seq<char>>::empty(),
    {
        ColorMap { entries: Vec::new() }
    }

    /// Number of keys.
    pub fn len(&self) -> (r: usize)
        ensures
            r == self@.dom().len(),
    {
        proof {
            use_type_invariant(self);
            lemma_entries_map(self.entries@);
            lemma_map_len(self.entries@);
        }
        self.entries.len()
    }

    fn find(&self, key: &str) -> (r: Option<usize>)
        ensures
            match r {
                Some(i) => i < self.entries@.len() && self.entries@[i as int].0@ == key@,
                None => forall|i: int|
                    0 <= i < self.entries@.len() ==> (#[trigger] self.entries@[i]).0@ != key@,
            },
    {
        let mut i: usize = 0;
        while i < self.entries.len()
            invariant
                i <= self.entries@.len(),
                forall|j: int| 0 <= j < i ==> (#[trigger] self.entries@[j]).0@ != key@,
            decreases self.entries@.len() - i,
        {
            if str_eq(self.entries[i].0.as_str(), key) {
                return Some(i);
            }
            i = i + 1;
        }
        None
    }

    /// The value for `key`.
    pub fn get(&self, key: &str) -> (r: Option<&String>)
        ensures
            r is Some <==> self@.contains_key(key@),
            r matches Some(v) ==> v@ == self@[key@],
    {
        proof {
            use_type_invariant(self);
            lemma_entries_map(self.entries@);
        }
        match self.find(key) {
            Some(i) => Some(&self.entries[i].1),
            None => None,
        }
    }

    /// Set the value of `key`, replacing any previous value.
    pub fn insert(&mut self, key: String, value: String)
        ensures
            final(self)@ == old(self)@.insert(key@, value@),
    {
        proof {
            use_type_invariant(&*self);
            lemma_entries_map(self.entries@);
        }
        let ghost old_entries = self.entries@;
        let found = self.find(key.as_str());
        let mut entries: Vec<(String, String)> = Vec::new();
        std::mem::swap(&mut entries, &mut self.entries);
        match found {
            Some(i) => {
                let ghost k = key@;
                let ghost v = value@;
                entries.set(i, (key, value));
                proof {
                    let s = entries@;
                    assert forall|a: int, b: int| 0 <= a < b < s.len() implies (#[trigger] s[a]).0@
                        != (#[trigger] s[b]).0@ by {
                        assert(old_entries[a].0@ != old_entries[b].0@);
                    }
                    lemma_entries_map(s);
                    assert(entries_map(s) =~= entries_map(old_entries).insert(k, v)) by {
                        assert forall|x: Seq<char>| #[trigger] entries_map(s).contains_key(x)
                            == entries_map(old_entries).insert(k, v).contains_key(x) by {
                            if entries_map(s).contains_key(x) {
                                let j = choose|j: int| 0 <= j < s.len() && (#[trigger] s[j]).0@ == x;
                                if j != i {
                                    assert(old_entries[j] == s[j]);
                                }
                            }
                            if entries_map(old_entries).contains_key(x) && x != k {
                                let j = choose|j: int|
                                    0 <= j < old_entries.len() && (#[trigger] old_entries[j]).0@ == x;
                                assert(s[j] == old_entries[j]);
                            }
                            if x == k {
                                assert(s[i as int].0@ == x);
                            }
                        }
                        assert forall|x: Seq<char>| #[trigger] entries_map(s).contains_key(x)
                            implies entries_map(s)[x] == entries_map(old_entries).insert(k, v)[x] by {
                            let j = choose|j: int| 0 <= j < s.len() && (#[trigger] s[j]).0@ == x;
                            if j != i {
                                assert(old_entries[j] == s[j]);
                            }
                        }
                    }
                }
            },
            None => {
                entries.push((key, value));
                proof {
                    let s = entries@;
                    assert(s.drop_last() =~= old_entries);
                    assert forall|a: int, b: int| 0 <= a < b < s.len() implies (#[trigger] s[a]).0@
                        != (#[trigger] s[b]).0@ by {
                        if b < s.len() - 1 {
                            assert(old_entries[a].0@ != old_entries[b].0@);
                        } else {
                            assert(s[a] == old_entries[a]);
                        }
                    }
                }
            },
        }
        self.entries = entries;
    }

    /// Same keys with the same values.
    pub fn same_as(&self, other: &ColorMap) -> (r: bool)
        ensures
            r == (self@ == other@),
    {
        proof {
            use_type_invariant(self);
            use_type_invariant(other);
            lemma_entries_map(self.entries@);
            lemma_entries_map(other.entries@);
        }
        let mut i: usize = 0;
        while i < self.entries.len()
            invariant
                i <= self.entries@.len(),
                keys_unique(self.entries@),
                keys_unique(other.entries@),
                forall|j: int|
                    0 <= j < i ==> other@.contains_key((#[trigger] self.entries@[j]).0@) && other@[self.entries@[j].0@]
                        == self.entries@[j].1@,
            decreases self.entries@.len() - i,
        {
            proof {
                lemma_entries_map(self.entries@);
            }
            match other.get(self.entries[i].0.as_str()) {
                Some(v) => {
                    if !str_eq(v.as_str(), self.entries[i].1.as_str()) {
                        assert(self@[self.entries@[i as int].0@] == self.entries@[i as int].1@);
                        return false;
                    }
                },
                None => {
                    assert(self@.contains_key(self.entries@[i as int].0@));
                    return false;
                },
            }
            i = i + 1;
        }
        let mut i: usize = 0;
        while i < other.entries.len()
            invariant
                i <= other.entries@.len(),
                keys_unique(self.entries@),
                keys_unique(other.entries@),
                forall|j: int|
                    0 <= j < i ==> self@.contains_key((#[trigger] other.entries@[j]).0@),
            decreases other.entries@.len() - i,
        {
            proof {
                lemma_entries_map(other.entries@);
            }
            if self.get(other.entries[i].0.as_str()).is_none() {
                assert(other@.contains_key(other.entries@[i as int].0@));
                return false;
            }
            i = i + 1;
        }
        proof {
            lemma_entries_map(self.entries@);
            lemma_entries_map(other.entries@);
            assert forall|k: Seq<char>| #[trigger] self@.contains_key(k) == other@.contains_key(k) by {
                if self@.contains_key(k) {
                    let j = choose|j: int|
                        0 <= j < self.entries@.len() && (#[trigger] self.entries@[j]).0@ == k;
                }
                if other@.contains_key(k) {
                    let j = choose|j: int|
                        0 <= j < other.entries@.len() && (#[trigger] other.entries@[j]).0@ == k;
                }
            }
            assert forall|k: Seq<char>| #[trigger] self@.contains_key(k) implies self@[k] == other@[k] by {
                let j = choose|j: int|
                    0 <= j < self.entries@.len() && (#[trigger] self.entries@[j]).0@ == k;
            }
            assert(self@ =~= other@);
        }
        true
    }

    /// The colour for sublayer `index`, whose key is the index in decimal.
    pub fn tint_for_sublayer(&self, index: usize) -> (r: Option<&String>)
        ensures
            r is Some <==> self@.contains_key(decimal(index as nat)),
            r matches Some(v) ==> v@ == self@[decimal(index as nat)],
    {
        let key = decimal_string(index as u64);
        self.get(key.as_str())
    }
}

proof fn lemma_map_len(s: Seq<(String, String)>)
    requires
        keys_unique(s),
    ensures
        entries_map(s).dom().len() == s.len(),
        entries_map(s).dom().finite(),
    decreases s.len(),
{
    if s.len() > 0 {
        let p = s.drop_last();
        assert(keys_unique(p));
        lemma_map_len(p);
        lemma_entries_map(p);
        assert(!entries_map(p).contains_key(s.last().0@)) by {
            if entries_map(p).contains_key(s.last().0@) {
                let i = choose|i: int| 0 <= i < p.len() && (#[trigger] p[i]).0@ == s.last().0@;
                assert(s[i] == p[i]);
            }
        }
    }
}

/// Everything that decides what a layer shows: the asset, its colours, and its
/// offset in hundredths of a canvas pixel.
pub struct LayerStateKey {
    pub asset_id: String,
    pub colors: ColorMap,
    pub offset: (i32, i32),
}

impl View for LayerStateKey {
    type V = (Seq<char>, Map<Seq<char>, Seq<char>>, (i32, i32));

    open spec fn view(&self) -> Self::V {
        (self.asset_id@, self.colors@, self.offset)
    }
}

impl LayerStateKey {
    pub fn new(asset_id: &str, colors: ColorMap, offset: (i32, i32)) -> (r: Self)
        ensures
            r@ == (asset_id@, colors@, offset),
    {
        LayerStateKey { asset_id: asset_id.to_owned(), colors, offset }
    }

    /// The same asset, colours and offset.
    pub fn same_as(&self, other: &LayerStateKey) -> (r: bool)
        ensures
            r == (self@ == other@),
    {
        self.offset.0 == other.offset.0 && self.offset.1 == other.offset.1 && str_eq(
            self.asset_id.as_str(),
            other.asset_id.as_str(),
        ) && self.colors.same_as(&other.colors)
    }
}

} // verus!
