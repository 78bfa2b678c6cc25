//! A layered key-value lookup structure: an ordered sequence of independent
//! maps ("layers"), queried as though it were a single map. Lookups scan the
//! layers from index 0 (most specific) upward and stop at the first hit, so a
//! key present in several layers resolves to the value of the lowest-indexed
//! layer that holds it.

use std::collections::HashMap;
use std::hash::Hash;
use vstd::prelude::*;
use vstd::std_specs::hash::obeys_key_model;

verus! {

broadcast use vstd::std_specs::hash::group_hash_axioms;

/// The mathematical contents of a sequence of hash maps: each layer as a
/// `Map`, in the same order.
pub open spec fn layers_view<K, V>(maps: Seq<HashMap<K, V>>) -> Seq<Map<K, V>> {
    Seq::new(maps.len(), |i: int| maps[i]@)
}

/// The layered lookup of `k`: the value from the lowest-indexed layer that
/// contains `k`, or `None` when no layer does.
pub open spec fn chain_lookup<K, V>(layers: Seq<Map<K, V>>, k: K) -> Option<V>
    decreases layers.len(),
{
    if layers.len() == 0 {
        None
    } else if layers[0].contains_key(k) {
        Some(layers[0][k])
    } else {
        chain_lookup(layers.drop_first(), k)
    }
}

/// All layers merged into one map, lower-indexed layers overriding
/// higher-indexed ones.
pub open spec fn chain_flatten<K, V>(layers: Seq<Map<K, V>>) -> Map<K, V>
    decreases layers.len(),
{
    if layers.len() == 0 {
        Map::empty()
    } else {
        chain_flatten(layers.drop_first()).union_prefer_right(layers[0])
    }
}

/// Whether every layer of the sequence is itself empty; trivially true of a
/// zero-length sequence.
pub open spec fn all_layers_empty<K, V>(layers: Seq<Map<K, V>>) -> bool {
    forall|i: int| 0 <= i < layers.len() ==> (#[trigger] layers[i]).is_empty()
}

/// Law: after inserting into layer 0 of a non-empty chain, the layered lookup
/// of the inserted key yields the inserted value.
pub proof fn lemma_insert_then_lookup<K, V>(layers: Seq<Map<K, V>>, k: K, v: V)
    requires
        layers.len() > 0,
    ensures
        chain_lookup(layers.update(0, layers[0].insert(k, v)), k) == Some(v),
{
}

/// Law: appending a layer that holds `k` to a chain in which no layer holds
/// `k` makes the layered lookup of `k` yield the appended layer's value.
pub proof fn lemma_add_map_then_lookup<K, V>(layers: Seq<Map<K, V>>, m: Map<K, V>, k: K)
    requires
        m.contains_key(k),
        forall|i: int| 0 <= i < layers.len() ==> !(#[trigger] layers[i]).contains_key(k),
    ensures
        chain_lookup(layers.push(m), k) == Some(m[k]),
    decreases layers.len(),
{
    if layers.len() > 0 {
        assert(layers.push(m).drop_first() =~= layers.drop_first().push(m));
        lemma_add_map_then_lookup(layers.drop_first(), m, k);
    }
}

/// Law: flattening a single-layer chain yields exactly that layer's contents.
pub proof fn lemma_flatten_single<K, V>(m: Map<K, V>)
    ensures
        chain_flatten(seq![m]) == m,
{
    assert(seq![m].drop_first() =~= Seq::<Map<K, V>>::empty());
    assert(chain_flatten(Seq::<Map<K, V>>::empty()) == Map::<K, V>::empty());
    assert(chain_flatten(seq![m]) =~= m);
}

/// Law: the flattened chain agrees with the layered lookup on every key; a
/// key is in the flattened map exactly when some layer holds it, and its
/// value there is the value the layered lookup yields.
pub proof fn lemma_flatten_matches_lookup<K, V>(layers: Seq<Map<K, V>>, k: K)
    ensures
        chain_flatten(layers).contains_key(k) <==> chain_lookup(layers, k) is Some,
        chain_lookup(layers, k) matches Some(v) ==> chain_flatten(layers)[k] == v,
    decreases layers.len(),
{
    if layers.len() > 0 {
        lemma_flatten_matches_lookup(layers.drop_first(), k);
    }
}

/// Law: for a two-layer chain whose key is present in both layers, the
/// flattened map and the layered lookup both yield the value of the most
/// specific layer.
pub proof fn lemma_two_layer_override<K, V>(l0: Map<K, V>, l1: Map<K, V>, k: K)
    requires
        l0.contains_key(k),
        l1.contains_key(k),
    ensures
        chain_flatten(seq![l0, l1]).contains_key(k),
        chain_flatten(seq![l0, l1])[k] == l0[k],
        chain_lookup(seq![l0, l1], k) == Some(l0[k]),
{
}

/// An ordered chain of hash maps, indexed from most specific (index 0) to
/// least specific (last index), exposing unified lookup and insert semantics.
pub struct ChainMap<K, V> {
    maps: Vec<HashMap<K, V>>,
}

impl<K, V> View for ChainMap<K, V> {
    type V = Seq<Map<K, V>>;

    closed spec fn view(&self) -> Seq<Map<K, V>> {
        layers_view(self.maps@)
    }
}

impl<K: Hash + Eq, V> ChainMap<K, V> {
    /// Constructs a chain directly from the given layer sequence, preserving
    /// order. Any length is accepted, including zero.
    pub fn new(maps: Vec<HashMap<K, V>>) -> (r: Self)
        ensures
            r@ == layers_view(maps@),
    {
        ChainMap { maps }
    }

    /// Constructs a chain with no layers at all.
    pub fn empty() -> (r: Self)
        ensures
            r@ == Seq::<Map<K, V>>::empty(),
    {
        let r = ChainMap::new(Vec::new());
        proof {
            assert(r@ =~= Seq::<Map<K, V>>::empty());
        }
        r
    }

    /// Appends a layer at the low-priority end of the chain, handing back a
    /// reference to the updated chain so that calls can be chained.
    pub fn add_map(&mut self, m: HashMap<K, V>) -> (r: &mut Self)
        ensures
            (*r)@ == old(self)@.push(m@),
            *final(self) == *final(r),
    {
        self.maps.push(m);
        proof {
            assert(self@ =~= old(self)@.push(m@));
        }
        self
    }

    /// Scans the layers from index 0 upward and returns the value from the
    /// first layer that contains `k`, or `None` when no layer does, including
    /// when the chain has no layers.
    pub fn get(&self, k: &K) -> (r: Option<&V>)
        requires
            obeys_key_model::<K>(),
        ensures
            match r {
                Some(v) => chain_lookup(self@, *k) == Some(*v),
                None => chain_lookup(self@, *k) is None,
            },
    {
        let n = self.maps.len();
        proof {
            assert(self@.skip(0) =~= self@);
        }
        for i in 0..n
            invariant
                obeys_key_model::<K>(),
                n == self.maps.len(),
                chain_lookup(self@, *k) == chain_lookup(self@.skip(i as int), *k),
        {
            let r = self.maps[i].get(k);
            if r.is_some() {
                return r;
            }
            proof {
                assert(self@.skip(i as int).drop_first() =~= self@.skip(i as int + 1));
            }
        }
        proof {
            assert(self@.skip(n as int) =~= Seq::<Map<K, V>>::empty());
        }
        None
    }

    /// Writes into layer 0 only, returning the value that layer 0 previously
    /// held for `k`, if any. On a chain with no layers this is a no-op that
    /// returns `None`: the value is dropped and no layer is created.
    pub fn insert(&mut self, k: K, v: V) -> (r: Option<V>)
        requires
            obeys_key_model::<K>(),
        ensures
            old(self)@.len() == 0 ==> final(self)@ == old(self)@ && r is None,
            old(self)@.len() > 0 ==> {
                &&& final(self)@ == old(self)@.update(0, old(self)@[0].insert(k, v))
                &&& match r {
                    Some(prev) => old(self)@[0].contains_key(k) && prev == old(self)@[0][k],
                    None => !old(self)@[0].contains_key(k),
                }
            },
    {
        if self.maps.len() == 0 {
            None
        } else {
            let r = self.maps[0].insert(k, v);
            proof {
                assert(self@ =~= old(self)@.update(0, old(self)@[0].insert(k, v)));
            }
            r
        }
    }

    /// True exactly when every layer of the chain is empty; a chain of zero
    /// layers, or of any number of zero-length layers, counts as empty.
    pub fn is_empty(&self) -> (r: bool)
        ensures
            r == all_layers_empty(self@),
    {
        let n = self.maps.len();
        for i in 0..n
            invariant
                n == self.maps.len(),
                forall|j: int| 0 <= j < i ==> (#[trigger] self@[j]).is_empty(),
        {
            if !self.maps[i].is_empty() {
                proof {
                    assert(!self@[i as int].is_empty());
                }
                return false;
            }
        }
        true
    }
}

/// Whether every possible result of `T::clone` equals the value it was cloned
/// from. This holds of any type whose `clone` is verified (or specified) to
/// return a copy of its input, such as the primitive integer types.
pub open spec fn clone_preserves_value<T: Clone>() -> bool {
    forall|a: T, b: T| #[trigger] cloned::<T>(a, b) ==> b == a
}

impl<K: Hash + Eq + Clone, V: Clone> ChainMap<K, V> {
    /// Flattens the whole chain into one consolidated map: layers are merged
    /// from least specific to most specific, so that for a key present in
    /// several layers the value from the lowest-indexed layer wins.
    pub fn to_map(&self) -> (r: HashMap<K, V>)
        requires
            obeys_key_model::<K>(),
            clone_preserves_value::<K>(),
            clone_preserves_value::<V>(),
        ensures
            r@ == chain_flatten(self@),
    {
        let mut combined: HashMap<K, V> = HashMap::new();
        let n = self.maps.len();
        proof {
            assert(self@.skip(n as int) =~= Seq::<Map<K, V>>::empty());
        }
        let mut i: usize = n;
        while i > 0
            invariant
                obeys_key_model::<K>(),
                clone_preserves_value::<K>(),
                clone_preserves_value::<V>(),
                i <= n,
                n == self.maps.len(),
                combined@ == chain_flatten(self@.skip(i as int)),
            decreases i,
        {
            i = i - 1;
            let ghost base = combined@;
            let m = &self.maps[i];
            for pair in it: m.iter()
                invariant
                    obeys_key_model::<K>(),
                    clone_preserves_value::<K>(),
                    clone_preserves_value::<V>(),
                    forall|j: int|
                        0 <= j < it.seq().len() ==> m@.contains_key(*(#[trigger] it.seq()[j]).0)
                            && m@[*it.seq()[j].0] == *it.seq()[j].1,
                    forall|k: K| #[trigger] m@.contains_key(k) ==> it.seq().contains((&k, &m@[k])),
                    forall|j: int|
                        0 <= j < it.index() ==> combined@.contains_key(
                            *(#[trigger] it.seq()[j]).0,
                        ) && combined@[*it.seq()[j].0] == *it.seq()[j].1,
                    forall|k: K| #[trigger] base.contains_key(k) ==> combined@.contains_key(k),
                    forall|k: K| #[trigger]
                        combined@.contains_key(k) ==> base.contains_key(k) || exists|j: int|
                            0 <= j < it.index() && *(#[trigger] it.seq()[j]).0 == k,
                    forall|k: K| #[trigger]
                        combined@.contains_key(k) && !m@.contains_key(k) ==> combined@[k]
                            == base[k],
                    it.index() == it.seq().len() ==> combined@ =~= base.union_prefer_right(m@),
            {
                let (kr, vr) = pair;
                let k2 = kr.clone();
                let v2 = vr.clone();
                proof {
                    assert(cloned::<K>(*kr, k2));
                    assert(cloned::<V>(*vr, v2));
                }
                combined.insert(k2, v2);
            }
            proof {
                assert(self@.skip(i as int).drop_first() =~= self@.skip(i as int + 1));
            }
        }
        proof {
            assert(self@.skip(0) =~= self@);
        }
        combined
    }

    /// A new chain holding copies of every layer but the last (least
    /// specific) one, in the same order; `None` when the chain has no layers.
    /// A chain of exactly one layer yields a chain of zero layers.
    pub fn parents(&self) -> (r: Option<Self>)
        ensures
            match r {
                Some(c) => self@.len() > 0 && c@ == self@.take(self@.len() - 1),
                None => self@.len() == 0,
            },
    {
        if self.maps.len() > 0 {
            let n = self.maps.len() - 1;
            let mut ps: Vec<HashMap<K, V>> = Vec::new();
            for i in 0..n
                invariant
                    n < self.maps.len(),
                    ps@.len() == i,
                    forall|j: int| 0 <= j < i ==> (#[trigger] ps@[j])@ == self@[j],
            {
                ps.push(self.maps[i].clone());
            }
            let c = ChainMap::new(ps);
            proof {
                assert(c@ =~= self@.take(self@.len() - 1));
            }
            Some(c)
        } else {
            None
        }
    }

    /// The symmetric operation: a new chain holding copies of every layer but
    /// the first (most specific) one, with the same copy and `None` semantics
    /// as `parents`.
    pub fn children(&self) -> (r: Option<Self>)
        ensures
            match r {
                Some(c) => self@.len() > 0 && c@ == self@.drop_first(),
                None => self@.len() == 0,
            },
    {
        if self.maps.len() > 0 {
            let n = self.maps.len();
            let mut cs: Vec<HashMap<K, V>> = Vec::new();
            for i in 1..n
                invariant
                    n == self.maps.len(),
                    cs@.len() == i - 1,
                    forall|j: int| 0 <= j < i - 1 ==> (#[trigger] cs@[j])@ == self@[j + 1],
            {
                cs.push(self.maps[i].clone());
            }
            let c = ChainMap::new(cs);
            proof {
                assert(c@ =~= self@.drop_first());
            }
            Some(c)
        } else {
            None
        }
    }
}



} // verus!
