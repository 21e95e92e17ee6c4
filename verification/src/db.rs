//! The node store of a tree: a map from the encoding of a node's hash to
//! the node's children.
//!
//! Keys are content addresses, so a key that is present is never given a
//! different value by the tree builder; it only ever inserts where the key
//! is absent.

use crate::field::{copy_els, els, same_bytes};
use std::collections::HashMap;
use vstd::prelude::*;

verus! {

/// An in-memory node store. Its view is the map it holds.
///
/// The entries lie in two vectors, in the order they came. To find a key
/// without walking all of them, `index` lists under the fingerprint of a
/// key the positions of the keys that have it.
pub struct Db {
    keys: Vec<Vec<u8>>,
    nodes: Vec<Vec<Vec<u8>>>,
    index: HashMap<u64, Vec<usize>>,
    model: Ghost<Map<Seq<u8>, Seq<Seq<u8>>>>,
}

/// The bytes `from..to` of a key read as one number, most significant
/// byte first; of more than eight bytes the last eight count.
spec fn fingerprint_of_range(key: Seq<u8>, from: int, to: int) -> u64
    decreases to - from,
{
    if to <= from {
        0
    } else {
        (fingerprint_of_range(key, from, to - 1) << 8) | (key[to - 1] as u64)
    }
}

/// The fingerprint of a key: its last eight bytes, or all of them where
/// it has fewer. Keys are hashes, so their low bytes spread well.
spec fn fingerprint(key: Seq<u8>) -> u64 {
    fingerprint_of_range(key, if key.len() > 8 { key.len() - 8 } else { 0 }, key.len() as int)
}

fn fingerprint_of(key: &Vec<u8>) -> (f: u64)
    ensures
        f == fingerprint(key@),
{
    let len: usize = key.len();
    let from: usize = if len > 8 {
        len - 8
    } else {
        0
    };
    let mut f: u64 = 0;
    let mut i: usize = from;
    while i < len
        invariant
            from <= i <= len == key@.len(),
            f == fingerprint_of_range(key@, from as int, i as int),
        decreases len - i,
    {
        f = (f << 8) | (key[i] as u64);
        i += 1;
    }
    f
}

impl View for Db {
    type V = Map<Seq<u8>, Seq<Seq<u8>>>;

    closed spec fn view(&self) -> Map<Seq<u8>, Seq<Seq<u8>>> {
        self.model@
    }
}

/// The map `m` with `node` stored under `key` unless `key` is taken.
pub open spec fn recorded(
    m: Map<Seq<u8>, Seq<Seq<u8>>>,
    key: Seq<u8>,
    node: Seq<Seq<u8>>,
) -> Map<Seq<u8>, Seq<Seq<u8>>> {
    if m.dom().contains(key) {
        m
    } else {
        m.insert(key, node)
    }
}

/// Every key's position is listed under the key's fingerprint, and every
/// position listed is one of a key.
spec fn indexed(keys: Seq<Vec<u8>>, index: Map<u64, Vec<usize>>) -> bool {
    &&& forall|i: int|
        0 <= i < keys.len() ==> index.contains_key(#[trigger] fingerprint(keys[i]@)) && lists(
            index[fingerprint(keys[i]@)]@,
            i,
        )
    &&& forall|f: u64, j: int|
        index.contains_key(f) && 0 <= j < index[f]@.len() ==> (#[trigger] index[f]@[j])
            < keys.len()
}

/// The entries are exactly those of the map `model`, each key once, and
/// all of them indexed.
spec fn consistent(
    keys: Seq<Vec<u8>>,
    nodes: Seq<Vec<Vec<u8>>>,
    index: Map<u64, Vec<usize>>,
    model: Map<Seq<u8>, Seq<Seq<u8>>>,
) -> bool {
    &&& keys.len() == nodes.len()
    &&& model.dom().finite()
    &&& model.dom().len() == keys.len()
    &&& forall|i: int|
        0 <= i < keys.len() ==> model.contains_pair(#[trigger] keys[i]@, els(nodes[i]@))
    &&& forall|k: Seq<u8>|
        model.dom().contains(k) ==> exists|i: int| 0 <= i < keys.len() && #[trigger] keys[i]@ == k
    &&& forall|i: int, j: int|
        0 <= i < j < keys.len() ==> #[trigger] keys[i]@ != #[trigger] keys[j]@
    &&& indexed(keys, index)
}

/// Whether a bucket lists position `i`.
spec fn lists(bucket: Seq<usize>, i: int) -> bool {
    exists|k: int| 0 <= k < bucket.len() && #[trigger] bucket[k] == i
}

impl Db {
    /// The stored entries are exactly those of the view, each key once,
    /// and all of them indexed.
    #[verifier::type_invariant]
    spec fn wf(&self) -> bool {
        consistent(self.keys@, self.nodes@, self.index@, self.model@)
    }

    /// An empty store.
    pub fn new() -> (db: Db)
        ensures
            db@ == Map::<Seq<u8>, Seq<Seq<u8>>>::empty(),
    {
        Db { keys: Vec::new(), nodes: Vec::new(), index: HashMap::new(), model: Ghost(Map::empty()) }
    }

    /// The number of nodes stored.
    pub fn len(&self) -> (n: usize)
        ensures
            n == self@.dom().len(),
            self@.dom().finite(),
    {
        proof {
            use_type_invariant(self);
        }
        self.keys.len()
    }

    fn position(&self, key: &Vec<u8>) -> (at: Option<usize>)
        ensures
            at is Some <==> self@.dom().contains(key@),
            at is Some ==> at->Some_0 < self.keys@.len() && self.keys@[at->Some_0 as int]@
                == key@,
    {
        proof {
            use_type_invariant(self);
        }
        let f: u64 = fingerprint_of(key);
        let bucket: &Vec<usize> = match self.index.get(&f) {
            Some(bucket) => bucket,
            None => {
                return None;
            },
        };
        let mut j: usize = 0;
        while j < bucket.len()
            invariant
                j <= bucket@.len(),
                self.wf(),
                f == fingerprint(key@),
                self.index@.contains_key(f),
                *bucket == self.index@[f],
                forall|k: int| 0 <= k < j ==> self.keys@[bucket@[k] as int]@ != key@,
            decreases bucket@.len() - j,
        {
            let at: usize = bucket[j];
            if same_bytes(&self.keys[at], key) {
                assert(self.model@.contains_pair(self.keys@[at as int]@, els(self.nodes@[at as int]@)));
                return Some(at);
            }
            j += 1;
        }
        proof {
            if self@.dom().contains(key@) {
                let i = choose|i: int| 0 <= i < self.keys@.len() && #[trigger] self.keys@[i]@ == key@;
                assert(lists(self.index@[fingerprint(self.keys@[i]@)]@, i));
                let k = choose|k: int| 0 <= k < bucket@.len() && #[trigger] bucket@[k] == i;
                assert(self.keys@[bucket@[k] as int]@ != key@);
            }
        }
        None
    }

    /// Whether a node is stored under `key`.
    pub fn contains_key(&self, key: &Vec<u8>) -> (present: bool)
        ensures
            present == self@.dom().contains(key@),
    {
        self.position(key).is_some()
    }

    /// A copy of the node stored under `key`, if there is one.
    pub fn get(&self, key: &Vec<u8>) -> (node: Option<Vec<Vec<u8>>>)
        ensures
            node is Some <==> self@.dom().contains(key@),
            node is Some ==> els(node->Some_0@) == self@[key@],
    {
        proof {
            use_type_invariant(self);
        }
        match self.position(key) {
            Some(at) => Some(copy_els(&self.nodes[at])),
            None => None,
        }
    }

    /// A copy of every key, each once.
    pub fn keys(&self) -> (keys: Vec<Vec<u8>>)
        ensures
            keys@.len() == self@.dom().len(),
            forall|i: int| 0 <= i < keys@.len() ==> self@.dom().contains(#[trigger] keys@[i]@),
            forall|k: Seq<u8>|
                self@.dom().contains(k) ==> exists|i: int|
                    0 <= i < keys@.len() && #[trigger] keys@[i]@ == k,
            forall|i: int, j: int|
                0 <= i < j < keys@.len() ==> #[trigger] keys@[i]@ != #[trigger] keys@[j]@,
    {
        let keys: Vec<Vec<u8>> = copy_els(&self.keys);
        proof {
            use_type_invariant(self);
            assert(keys@.len() == els(keys@).len() == self.keys@.len());
            assert forall|i: int| 0 <= i < keys@.len() implies #[trigger] keys@[i]@
                == self.keys@[i]@ by {
                assert(els(keys@)[i] == keys@[i]@);
                assert(els(self.keys@)[i] == self.keys@[i]@);
            }
            assert forall|i: int| 0 <= i < keys@.len() implies self@.dom().contains(
                #[trigger] keys@[i]@,
            ) by {
                assert(self.model@.contains_pair(self.keys@[i]@, els(self.nodes@[i]@)));
            }
            assert forall|k: Seq<u8>| self@.dom().contains(k) implies exists|i: int|
                0 <= i < keys@.len() && #[trigger] keys@[i]@ == k by {
                let i = choose|i: int| 0 <= i < self.keys@.len() && #[trigger] self.keys@[i]@ == k;
                assert(keys@[i]@ == k);
            }
            assert forall|i: int, j: int| 0 <= i < j < keys@.len() implies #[trigger] keys@[i]@
                != #[trigger] keys@[j]@ by {
                assert(self.keys@[i]@ != self.keys@[j]@);
            }
        }
        keys
    }

    /// Stores `node` under `key`, replacing what was stored there.
    pub fn insert(&mut self, key: Vec<u8>, node: Vec<Vec<u8>>)
        ensures
            final(self)@ == old(self)@.insert(key@, els(node@)),
    {
        proof {
            use_type_invariant(&*self);
        }
        let ghost before = self.model@;
        let ghost after = before.insert(key@, els(node@));
        let found: Option<usize> = self.position(&key);
        let mut taken: Db = Db::new();
        core::mem::swap(self, &mut taken);
        let Db { keys, nodes, index, model } = taken;
        let ghost old_keys = keys@;
        let ghost old_nodes = nodes@;
        let ghost old_index = index@;
        let mut keys: Vec<Vec<u8>> = keys;
        let mut nodes: Vec<Vec<Vec<u8>>> = nodes;
        let mut index: HashMap<u64, Vec<usize>> = index;
        match found {
            Some(at) => {
                nodes.set(at, node);
                proof {
                    assert(after.dom() =~= before.dom());
                    assert forall|i: int| 0 <= i < keys@.len() implies after.contains_pair(
                        #[trigger] keys@[i]@,
                        els(nodes@[i]@),
                    ) by {
                        if i != at {
                            assert(old_keys[i]@ != old_keys[at as int]@);
                            assert(before.contains_pair(old_keys[i]@, els(old_nodes[i]@)));
                        }
                    }
                }
            },
            None => {
                let f: u64 = fingerprint_of(&key);
                let mut bucket: Vec<usize> = match index.get(&f) {
                    Some(listed) => listed.clone(),
                    None => Vec::new(),
                };
                let ghost old_bucket = bucket@;
                bucket.push(keys.len());
                index.insert(f, bucket);
                keys.push(key);
                nodes.push(node);
                proof {
                    let last = old_keys.len() as int;
                    assert(old_index.contains_key(f) ==> old_bucket =~= old_index[f]@);
                    assert forall|i: int| 0 <= i < keys@.len() implies index@.contains_key(
                        #[trigger] fingerprint(keys@[i]@),
                    ) && lists(index@[fingerprint(keys@[i]@)]@, i) by {
                        let g = fingerprint(keys@[i]@);
                        if i == last {
                            assert(index@[f]@[old_bucket.len() as int] == last);
                        } else {
                            assert(old_index.contains_key(fingerprint(old_keys[i]@)));
                            assert(lists(old_index[fingerprint(old_keys[i]@)]@, i));
                            if g == f {
                                let k = choose|k: int|
                                    0 <= k < old_index[f]@.len() && #[trigger] old_index[f]@[k]
                                        == i;
                                assert(index@[f]@[k] == i);
                            }
                        }
                    }
                    assert forall|g: u64, j: int|
                        index@.contains_key(g) && 0 <= j < index@[g]@.len() implies (
                    #[trigger] index@[g]@[j]) < keys@.len() by {
                        if g == f {
                            if j < old_bucket.len() {
                                assert(old_index[f]@[j] < old_keys.len());
                            }
                        } else {
                            assert(old_index[g]@[j] < old_keys.len());
                        }
                    }
                    assert forall|i: int| 0 <= i < keys@.len() implies after.contains_pair(
                        #[trigger] keys@[i]@,
                        els(nodes@[i]@),
                    ) by {
                        if i != last {
                            assert(before.contains_pair(old_keys[i]@, els(old_nodes[i]@)));
                        }
                    }
                    assert forall|i: int, j: int| 0 <= i < j < keys@.len() implies
                        #[trigger] keys@[i]@ != #[trigger] keys@[j]@ by {
                        if j == last {
                            assert(before.contains_pair(old_keys[i]@, els(old_nodes[i]@)));
                        } else {
                            assert(old_keys[i]@ != old_keys[j]@);
                        }
                    }
                    assert forall|k: Seq<u8>| after.dom().contains(k) implies exists|i: int|
                        0 <= i < keys@.len() && #[trigger] keys@[i]@ == k by {
                        if k == key@ {
                            assert(keys@[last]@ == k);
                        } else {
                            let i = choose|i: int|
                                0 <= i < old_keys.len() && #[trigger] old_keys[i]@ == k;
                            assert(keys@[i]@ == k);
                        }
                    }
                    assert(indexed(keys@, index@));
                }
            },
        }
        assert(consistent(keys@, nodes@, index@, after));
        *self = Db { keys, nodes, index, model: Ghost(after) };
    }

    /// Stores `node` under `key` unless the key is taken, and says whether
    /// it stored anything.
    pub fn insert_if_absent(&mut self, key: Vec<u8>, node: Vec<Vec<u8>>) -> (stored: bool)
        ensures
            final(self)@ == recorded(old(self)@, key@, els(node@)),
            stored == !old(self)@.dom().contains(key@),
    {
        if self.contains_key(&key) {
            false
        } else {
            self.insert(key, node);
            true
        }
    }
}

/// An empty node store.
pub fn make_db() -> (db: Db)
    ensures
        db@ == Map::<Seq<u8>, Seq<Seq<u8>>>::empty(),
{
    Db::new()
}

} // verus!
