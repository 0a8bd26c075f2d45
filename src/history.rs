use vstd::prelude::*;
use dashmap::DashMap;
use std::hash::BuildHasher;
use std::hash::Hasher;

verus! {

/// A hasher for keys that are already uniform 64-bit hashes: the last `u64` it is
/// given is the hash it reports.
pub struct PassThroughHasher(pub u64);

impl Hasher for PassThroughHasher {
    fn finish(&self) -> u64 {
        self.0
    }

    fn write(&mut self, bytes: &[u8]) {
    }

    fn write_u64(&mut self, i: u64) {
        self.0 = i;
    }
}

/// Builds a [`PassThroughHasher`] for the history map.
#[derive(Clone, Copy, Debug, Default)]
pub struct PassThroughHashBuilder;

impl BuildHasher for PassThroughHashBuilder {
    type Hasher = PassThroughHasher;

    fn build_hasher(&self) -> PassThroughHasher {
        PassThroughHasher(0)
    }
}

#[verifier::external_type_specification]
#[verifier::external_body]
#[verifier::reject_recursive_types(K)]
#[verifier::reject_recursive_types(V)]
#[verifier::reject_recursive_types(S)]
pub struct ExDashMap<K, V, S>(DashMap<K, V, S>);

/// A key of the history map: a resource id and a structural hash.
pub type HistoryKey = (u64, u64);

/// The concurrent map behind the history store.
pub type HistoryMap = DashMap<HistoryKey, u64, PassThroughHashBuilder>;

/// The entries of the history map: (resource id, structural hash) to stored value.
pub uninterp spec fn stored(m: HistoryMap) -> Map<HistoryKey, u64>;

/// Relies on `DashMap::with_hasher`: a new map holds nothing.
#[verifier::external_body]
fn map_new() -> (r: HistoryMap)
    ensures
        stored(r).dom() == Set::<HistoryKey>::empty(),
{
    DashMap::with_hasher(PassThroughHashBuilder)
}

/// Relies on `DashMap::get`: the value stored under the key, if any.
#[verifier::external_body]
fn map_get(m: &HistoryMap, k: (u64, u64)) -> (r: Option<u64>)
    ensures
        r.is_some() <==> stored(*m).contains_key(k),
        r.is_some() ==> r.unwrap() == stored(*m)[k],
{
    m.get(&k).map(|v| *v)
}

/// Relies on `DashMap::insert`: afterwards the key maps to the value and nothing
/// else has changed.
#[verifier::external_body]
fn map_insert(m: &mut HistoryMap, k: (u64, u64), v: u64)
    ensures
        stored(*final(m)) == stored(*old(m)).insert(k, v),
{
    m.insert(k, v);
}

/// Relies on `DashMap::iter`: every entry once, in the map's own order.
#[verifier::external_body]
fn map_entries(m: &HistoryMap) -> (r: Vec<(HistoryKey, u64)>)
    ensures
        forall|i: int| 0 <= i < r@.len() ==> stored(*m).contains_key(#[trigger] r@[i].0) && stored(*m)[r@[i].0] == r@[i].1,
        forall|k: HistoryKey| stored(*m).contains_key(k) ==> exists|i: int| 0 <= i < r@.len() && #[trigger] r@[i].0 == k,
        r@.len() == stored(*m).dom().len(),
{
    m.iter().map(|e| (*e.key(), *e.value())).collect()
}

/// The store of past results: for each resource and structural hash, the value
/// written there. A value once stored under a key stays; a later write under the
/// same key is dropped.
pub struct History {
    map: HistoryMap,
}

impl View for History {
    type V = Map<HistoryKey, u64>;

    closed spec fn view(&self) -> Map<HistoryKey, u64> {
        stored(self.map)
    }
}

/// `h` with `v` under `k`, unless `k` already holds a value.
pub open spec fn put_first(h: Map<HistoryKey, u64>, k: HistoryKey, v: u64) -> Map<HistoryKey, u64> {
    if h.contains_key(k) {
        h
    } else {
        h.insert(k, v)
    }
}

impl History {
    pub fn new() -> (r: History)
        ensures
            r@.dom().len() == 0,
            r@ == Map::<HistoryKey, u64>::empty(),
    {
        let map = map_new();
        assert(stored(map) =~= Map::<HistoryKey, u64>::empty());
        History { map }
    }

    /// The value stored for `resource` under `hash`.
    pub fn get(&self, resource: u64, hash: u64) -> (r: Option<u64>)
        ensures
            r.is_some() <==> self@.contains_key((resource, hash)),
            r.is_some() ==> r.unwrap() == self@[(resource, hash)],
    {
        map_get(&self.map, (resource, hash))
    }

    /// Stores `value` for `resource` under `hash` unless a value is already there,
    /// and returns the value that the key holds afterwards.
    pub fn insert(&mut self, resource: u64, hash: u64, value: u64) -> (r: u64)
        ensures
            final(self)@ == put_first(old(self)@, (resource, hash), value),
            r == final(self)@[(resource, hash)],
    {
        match map_get(&self.map, (resource, hash)) {
            Some(v) => v,
            None => {
                map_insert(&mut self.map, (resource, hash), value);
                value
            },
        }
    }

    /// Every stored entry once, in no particular order.
    pub fn entries(&self) -> (r: Vec<(HistoryKey, u64)>)
        ensures
            forall|i: int| 0 <= i < r@.len() ==> self@.contains_key(#[trigger] r@[i].0) && self@[r@[i].0] == r@[i].1,
            forall|k: HistoryKey| self@.contains_key(k) ==> exists|i: int| 0 <= i < r@.len() && #[trigger] r@[i].0 == k,
    {
        map_entries(&self.map)
    }

    /// A store holding the given entries; where a key repeats, its first value
    /// stays.
    pub fn from_entries(entries: &Vec<(HistoryKey, u64)>) -> (r: History)
        ensures
            forall|k: HistoryKey| r@.contains_key(k) <==> exists|i: int| 0 <= i < entries@.len() && #[trigger] entries@[i].0 == k,
            forall|i: int| 0 <= i < entries@.len() && (forall|j: int| 0 <= j < i ==> entries@[j].0 != entries@[i].0)
                ==> r@[#[trigger] entries@[i].0] == entries@[i].1,
    {
        let mut h = History::new();
        let mut i: usize = 0;
        while i < entries.len()
            invariant
                i <= entries@.len(),
                forall|k: HistoryKey| h@.contains_key(k) <==> exists|j: int| 0 <= j < i && #[trigger] entries@[j].0 == k,
                forall|a: int| 0 <= a < i && (forall|j: int| 0 <= j < a ==> entries@[j].0 != entries@[a].0)
                    ==> h@[#[trigger] entries@[a].0] == entries@[a].1,
            decreases entries@.len() - i,
        {
            let (k, v) = entries[i];
            let _ = h.insert(k.0, k.1, v);
            proof {
                assert forall|kk: HistoryKey| h@.contains_key(kk) <==> exists|j: int| 0 <= j < i + 1 && #[trigger] entries@[j].0 == kk by {
                    if kk == k {
                        assert(entries@[i as int].0 == kk);
                    }
                }
            }
            i = i + 1;
        }
        h
    }
}

} // verus!
