//! Bottom-up construction of an 8-ary Merkle tree over a bitmap.
//!
//! A tree of depth `d` has `8^d` leaf positions; position `p` holds the
//! field's one where bit `p` of the bitmap is set and its zero elsewhere.
//! The lowest layer of nodes hashes the leaves eight at a time, every layer
//! above hashes the layer below eight at a time, always left to right, and
//! the single node of the top layer is the root.
//!
//! The hash function is the caller's: any function from eight values to
//! one. The contracts say what is built for every mathematical function
//! that the caller's hash implements.

use crate::bitmap::{octet_start, Bitmap};
use crate::db::{recorded, Db};
use crate::field::{copy_els, els, one, one_el, zero, zero_el};
use vstd::prelude::*;

verus! {

/// The number of leaf positions of a tree of the given depth: `8^depth`.
pub open spec fn capacity(depth: nat) -> nat
    decreases depth,
{
    if depth == 0 {
        1
    } else {
        8 * capacity((depth - 1) as nat)
    }
}

/// The root of a tree and the depth it was built for.
pub struct Tree {
    pub depth: usize,
    pub root: Vec<u8>,
}

/// What one group of eight leaves holds.
pub enum LeafOctet {
    /// No bit of the group is set.
    AllZero,
    /// Some bit is set; the eight leaf values, in index order.
    Mixed(Vec<Vec<u8>>),
}

/// Whether none of the eight bits of group `g` is set.
pub open spec fn octet_unset(bits: Seq<bool>, g: int) -> bool {
    forall|j: int| 0 <= j < 8 ==> !#[trigger] bits[8 * g + j]
}

/// The eight leaf values of group `g`.
pub open spec fn leaf_children(bits: Seq<bool>, g: int) -> Seq<Seq<u8>> {
    Seq::new(
        8,
        |j: int|
            if bits[8 * g + j] {
                one_el()
            } else {
                zero_el()
            },
    )
}

/// Eight zeros: the children of a leaf node over unset bits.
pub open spec fn zero_children() -> Seq<Seq<u8>> {
    Seq::new(8, |j: int| zero_el())
}

/// The hashes of the leaf groups, in ascending group order.
pub open spec fn leaf_layer(bits: Seq<bool>, h: spec_fn(Seq<Seq<u8>>) -> Seq<u8>) -> Seq<Seq<u8>> {
    Seq::new((bits.len() / 8) as nat, |g: int| h(leaf_children(bits, g)))
}

/// The children of node `g` of the layer above `below`.
pub open spec fn group_of(below: Seq<Seq<u8>>, g: int) -> Seq<Seq<u8>> {
    below.subrange(8 * g, 8 * g + 8)
}

/// The layer above `below`: the hashes of its groups of eight, in
/// ascending group order.
pub open spec fn parent_layer(below: Seq<Seq<u8>>, h: spec_fn(Seq<Seq<u8>>) -> Seq<u8>) -> Seq<
    Seq<u8>,
> {
    Seq::new((below.len() / 8) as nat, |g: int| h(group_of(below, g)))
}

/// Layer `n` of the tree over `bits`, counted from the leaf groups up.
pub open spec fn layer(bits: Seq<bool>, h: spec_fn(Seq<Seq<u8>>) -> Seq<u8>, n: nat) -> Seq<
    Seq<u8>,
>
    decreases n,
{
    if n == 0 {
        leaf_layer(bits, h)
    } else {
        parent_layer(layer(bits, h, (n - 1) as nat), h)
    }
}

/// The root of the tree of the given depth over `bits`.
pub open spec fn tree_root(
    bits: Seq<bool>,
    depth: nat,
    h: spec_fn(Seq<Seq<u8>>) -> Seq<u8>,
) -> Seq<u8> {
    layer(bits, h, (depth - 1) as nat)[0]
}

/// The store after the first `n` leaf groups were visited, where
/// `hashes` holds the hash of each group: a group with a set bit is
/// stored under its hash unless that key was taken, a group without one
/// is passed over.
pub open spec fn leaves_recorded(
    m: Map<Seq<u8>, Seq<Seq<u8>>>,
    bits: Seq<bool>,
    hashes: Seq<Seq<u8>>,
    n: nat,
) -> Map<Seq<u8>, Seq<Seq<u8>>>
    decreases n,
{
    if n == 0 {
        m
    } else {
        let before = leaves_recorded(m, bits, hashes, (n - 1) as nat);
        if octet_unset(bits, n - 1) {
            before
        } else {
            recorded(before, hashes[n - 1], leaf_children(bits, n - 1))
        }
    }
}

/// The store after the first `n` groups of `below` were visited, where
/// `above` holds the hash of each group: each group is stored under its
/// hash unless that key was taken.
pub open spec fn parents_recorded(
    m: Map<Seq<u8>, Seq<Seq<u8>>>,
    below: Seq<Seq<u8>>,
    above: Seq<Seq<u8>>,
    n: nat,
) -> Map<Seq<u8>, Seq<Seq<u8>>>
    decreases n,
{
    if n == 0 {
        m
    } else {
        let before = parents_recorded(m, below, above, (n - 1) as nat);
        recorded(before, above[n - 1], group_of(below, n - 1))
    }
}

/// The store after layers `0` to `n` of the tree over `bits` were built
/// on top of `m`.
pub open spec fn layers_recorded(
    m: Map<Seq<u8>, Seq<Seq<u8>>>,
    bits: Seq<bool>,
    h: spec_fn(Seq<Seq<u8>>) -> Seq<u8>,
    n: nat,
) -> Map<Seq<u8>, Seq<Seq<u8>>>
    decreases n,
{
    if n == 0 {
        leaves_recorded(m, bits, leaf_layer(bits, h), (bits.len() / 8) as nat)
    } else {
        let below = layer(bits, h, (n - 1) as nat);
        parents_recorded(
            layers_recorded(m, bits, h, (n - 1) as nat),
            below,
            parent_layer(below, h),
            (below.len() / 8) as nat,
        )
    }
}

/// The hash may be called on any eight values.
pub open spec fn hash_accepts<E, H: Fn(Vec<Vec<u8>>) -> Result<Vec<u8>, E>>(f: H) -> bool {
    forall|c: Vec<Vec<u8>>| c@.len() == 8 ==> #[trigger] call_requires(f, (c,))
}

/// The hash never fails, and what it returns for eight values is `h` of
/// their bytes.
pub open spec fn hash_models<E, H: Fn(Vec<Vec<u8>>) -> Result<Vec<u8>, E>>(
    f: H,
    h: spec_fn(Seq<Seq<u8>>) -> Seq<u8>,
) -> bool {
    forall|c: Vec<Vec<u8>>, r: Result<Vec<u8>, E>|
        c@.len() == 8 && #[trigger] call_ensures(f, (c,), r) ==> r is Ok && r->Ok_0@ == h(
            els(c@),
        )
}

/// The hash never fails on eight values.
pub open spec fn hash_never_fails<E, H: Fn(Vec<Vec<u8>>) -> Result<Vec<u8>, E>>(f: H) -> bool {
    forall|c: Vec<Vec<u8>>, r: Result<Vec<u8>, E>|
        c@.len() == 8 && #[trigger] call_ensures(f, (c,), r) ==> r is Ok
}

/// The hash can return `digest` for eight values with the bytes
/// `children`.
pub open spec fn hash_gives<E, H: Fn(Vec<Vec<u8>>) -> Result<Vec<u8>, E>>(
    f: H,
    children: Seq<Seq<u8>>,
    digest: Seq<u8>,
) -> bool {
    exists|c: Vec<Vec<u8>>, d: Vec<u8>|
        c@.len() == 8 && els(c@) == children && d@ == digest && #[trigger] call_ensures(
            f,
            (c,),
            Ok::<Vec<u8>, E>(d),
        )
}

/// Each of `hashes` is the hash of its leaf group: `zero_hash` for a
/// group without a set bit, and for any other group something that the
/// hash gave for the group's eight leaf values.
pub open spec fn leaf_hashes_given<E, H: Fn(Vec<Vec<u8>>) -> Result<Vec<u8>, E>>(
    f: H,
    bits: Seq<bool>,
    zero_hash: Seq<u8>,
    hashes: Seq<Seq<u8>>,
) -> bool {
    forall|g: int|
        0 <= g < hashes.len() ==> if octet_unset(bits, g) {
            #[trigger] hashes[g] == zero_hash
        } else {
            hash_gives(f, leaf_children(bits, g), hashes[g])
        }
}

/// Each of `above` is something that the hash gave for its group of
/// `below`.
pub open spec fn parent_hashes_given<E, H: Fn(Vec<Vec<u8>>) -> Result<Vec<u8>, E>>(
    f: H,
    below: Seq<Seq<u8>>,
    above: Seq<Seq<u8>>,
) -> bool {
    forall|g: int| 0 <= g < above.len() ==> hash_gives(f, group_of(below, g), #[trigger] above[g])
}

/// The hash can return the error `e` for some eight values.
pub open spec fn hash_fails_with<E, H: Fn(Vec<Vec<u8>>) -> Result<Vec<u8>, E>>(f: H, e: E) -> bool {
    exists|c: Vec<Vec<u8>>|
        c@.len() == 8 && #[trigger] call_ensures(f, (c,), Err::<Vec<u8>, E>(e))
}

/// The capacity of a tree of the given depth, where it fits the machine's
/// word.
pub fn capacity_for_depth(depth: usize) -> (cap: Option<usize>)
    ensures
        cap is Some <==> capacity(depth as nat) <= usize::MAX,
        cap is Some ==> cap->Some_0 == capacity(depth as nat),
{
    let mut cap: usize = 1;
    let mut level: usize = 0;
    while level < depth
        invariant
            level <= depth,
            cap == capacity(level as nat),
        decreases depth - level,
    {
        if cap > usize::MAX / 8 {
            proof {
                lemma_capacity_grows((level + 1) as nat, depth as nat);
            }
            return None;
        }
        cap = cap * 8;
        level += 1;
    }
    Some(cap)
}

/// A deeper tree has at least the capacity of a shallower one.
pub proof fn lemma_capacity_grows(shallow: nat, deep: nat)
    requires
        shallow <= deep,
    ensures
        1 <= capacity(shallow) <= capacity(deep),
    decreases deep,
{
    if shallow < deep {
        lemma_capacity_grows(shallow, (deep - 1) as nat);
    } else if shallow > 0 {
        lemma_capacity_grows((shallow - 1) as nat, (shallow - 1) as nat);
    }
}

/// Reads the group of eight leaves that starts at bit `start`: first the
/// byte of the group, to see whether any bit is set at all, and only then
/// the bits one by one.
pub fn leaf_octet(b: &Bitmap, start: usize) -> (octet: LeafOctet)
    requires
        start % 8 == 0,
        start + 8 <= b@.len(),
    ensures
        octet is AllZero <==> octet_unset(b@, start as int / 8),
        octet is Mixed ==> octet->Mixed_0@.len() == 8 && els(octet->Mixed_0@) == leaf_children(
            b@,
            start as int / 8,
        ),
{
    let ghost g = start as int / 8;
    assert(octet_start(start as int) == start && start == 8 * g);
    let probe: u8 = b.get_byte_for_bit(start);
    if probe == 0 {
        proof {
            assert forall|j: int| 0 <= j < 8 implies !#[trigger] b@[8 * g + j] by {}
        }
        LeafOctet::AllZero
    } else {
        proof {
            if octet_unset(b@, g) {
                assert forall|k: int| start <= k < start + 8 implies !b@[k] by {
                    assert(!b@[8 * g + (k - start)]);
                }
            }
        }
        let mut children: Vec<Vec<u8>> = Vec::new();
        let mut j: usize = 0;
        while j < 8
            invariant
                j <= 8,
                children.len() == j,
                start + 8 <= b@.len(),
                start == 8 * g,
                forall|k: int|
                    0 <= k < j ==> children@[k]@ == (if b@[8 * g + k] {
                        one_el()
                    } else {
                        zero_el()
                    }),
            decreases 8 - j,
        {
            let child: Vec<u8> = if b.get_bit(start + j) {
                one()
            } else {
                zero()
            };
            children.push(child);
            j += 1;
        }
        assert(els(children@) =~= leaf_children(b@, g));
        LeafOctet::Mixed(children)
    }
}

/// Hashes a copy of eight values.
fn hash_node<E, H: Fn(Vec<Vec<u8>>) -> Result<Vec<u8>, E>>(
    hash_func: &H,
    children: &Vec<Vec<u8>>,
) -> (r: Result<Vec<u8>, E>)
    requires
        hash_accepts(*hash_func),
        children@.len() == 8,
    ensures
        forall|h: spec_fn(Seq<Seq<u8>>) -> Seq<u8>| #[trigger]
            hash_models(*hash_func, h) ==> r is Ok && r->Ok_0@ == h(els(children@)),
        r is Ok ==> hash_gives(*hash_func, els(children@), r->Ok_0@),
        hash_never_fails(*hash_func) ==> r is Ok,
        r is Err ==> hash_fails_with(*hash_func, r->Err_0),
{
    let copy: Vec<Vec<u8>> = copy_els(children);
    assert(copy@.len() == els(copy@).len());
    assert(call_requires(*hash_func, (copy,)));
    let ghost given = copy;
    let r = hash_func(copy);
    proof {
        if r is Ok {
            assert(call_ensures(*hash_func, (given,), Ok::<Vec<u8>, E>(r->Ok_0)));
        }
    }
    r
}

/// The store after `n` leaf groups depends on the hashes of those groups
/// only.
proof fn lemma_leaves_recorded_prefix(
    m: Map<Seq<u8>, Seq<Seq<u8>>>,
    bits: Seq<bool>,
    a: Seq<Seq<u8>>,
    b: Seq<Seq<u8>>,
    n: nat,
)
    requires
        n <= a.len(),
        n <= b.len(),
        forall|g: int| 0 <= g < n ==> a[g] == b[g],
    ensures
        leaves_recorded(m, bits, a, n) == leaves_recorded(m, bits, b, n),
    decreases n,
{
    if n > 0 {
        lemma_leaves_recorded_prefix(m, bits, a, b, (n - 1) as nat);
    }
}

/// The store after `n` groups depends on the hashes of those groups only.
proof fn lemma_parents_recorded_prefix(
    m: Map<Seq<u8>, Seq<Seq<u8>>>,
    below: Seq<Seq<u8>>,
    a: Seq<Seq<u8>>,
    b: Seq<Seq<u8>>,
    n: nat,
)
    requires
        n <= a.len(),
        n <= b.len(),
        forall|g: int| 0 <= g < n ==> a[g] == b[g],
    ensures
        parents_recorded(m, below, a, n) == parents_recorded(m, below, b, n),
    decreases n,
{
    if n > 0 {
        lemma_parents_recorded_prefix(m, below, a, b, (n - 1) as nat);
    }
}

/// Builds the lowest layer of nodes: one hash for each group of eight
/// bits, in ascending order. A group without a set bit is not hashed: its
/// hash is `zero_hash`, and nothing is stored for it. A group with a set
/// bit is hashed and stored under its hash unless that key is taken.
pub fn build_leaf_layer<E, H: Fn(Vec<Vec<u8>>) -> Result<Vec<u8>, E>>(
    b: &Bitmap,
    hash_func: &H,
    zero_hash: &Vec<u8>,
    db: &mut Db,
) -> (r: Result<Vec<Vec<u8>>, E>)
    requires
        hash_accepts(*hash_func),
    ensures
        old(db)@.submap_of(final(db)@),
        r is Ok ==> r->Ok_0@.len() == b@.len() / 8 && leaf_hashes_given(
            *hash_func,
            b@,
            zero_hash@,
            els(r->Ok_0@),
        ) && final(db)@ == leaves_recorded(
            old(db)@,
            b@,
            els(r->Ok_0@),
            (b@.len() / 8) as nat,
        ),
        forall|h: spec_fn(Seq<Seq<u8>>) -> Seq<u8>| #[trigger]
            hash_models(*hash_func, h) && zero_hash@ == h(zero_children()) ==> r is Ok && els(
                r->Ok_0@,
            ) == leaf_layer(b@, h),
        hash_never_fails(*hash_func) ==> r is Ok,
        r is Err ==> hash_fails_with(*hash_func, r->Err_0),
{
    let len: usize = b.len();
    let mut out: Vec<Vec<u8>> = Vec::new();
    let mut i: usize = 0;
    while i < len
        invariant
            i <= len,
            i % 8 == 0,
            len % 8 == 0,
            len == b@.len(),
            out@.len() == i / 8,
            hash_accepts(*hash_func),
            old(db)@.submap_of(db@),
            leaf_hashes_given(*hash_func, b@, zero_hash@, els(out@)),
            db@ == leaves_recorded(old(db)@, b@, els(out@), (i / 8) as nat),
            forall|h: spec_fn(Seq<Seq<u8>>) -> Seq<u8>, g: int|
                #![trigger hash_models(*hash_func, h), out@[g]]
                hash_models(*hash_func, h) && zero_hash@ == h(zero_children()) && 0 <= g < i / 8
                    ==> out@[g]@ == h(leaf_children(b@, g)),
        decreases len - i,
    {
        let ghost g = i as int / 8;
        let ghost out_before = out@;
        let ghost db_before = db@;
        match leaf_octet(b, i) {
            LeafOctet::AllZero => {
                out.push(zero_hash.clone());
                proof {
                    assert(leaf_children(b@, g) =~= zero_children());
                }
            },
            LeafOctet::Mixed(children) => {
                let digest: Vec<u8> = match hash_node(hash_func, &children) {
                    Ok(digest) => digest,
                    Err(e) => {
                        return Err(e);
                    },
                };
                out.push(digest.clone());
                db.insert_if_absent(digest, children);
                proof {
                    vstd::map_lib::lemma_submap_of_trans(old(db)@, db_before, db@);
                }
            },
        }
        i += 8;
        proof {
            assert forall|k: int| 0 <= k < g implies els(out@)[k] == els(out_before)[k] by {
                assert(out@[k] == out_before[k]);
            }
            lemma_leaves_recorded_prefix(old(db)@, b@, els(out_before), els(out@), g as nat);
            assert forall|k: int| 0 <= k < els(out@).len() implies if octet_unset(b@, k) {
                #[trigger] els(out@)[k] == zero_hash@
            } else {
                hash_gives(*hash_func, leaf_children(b@, k), els(out@)[k])
            } by {
                if k < g {
                    assert(els(out@)[k] == els(out_before)[k]);
                }
            }
            assert forall|h: spec_fn(Seq<Seq<u8>>) -> Seq<u8>, k: int|
                #![trigger hash_models(*hash_func, h), out@[k]]
                hash_models(*hash_func, h) && zero_hash@ == h(zero_children()) && 0 <= k < g
                    + 1 implies out@[k]@ == h(leaf_children(b@, k)) by {
                if k < g {
                    assert(out@[k] == out_before[k]);
                }
            }
        }
    }
    proof {
        assert forall|h: spec_fn(Seq<Seq<u8>>) -> Seq<u8>| #[trigger]
            hash_models(*hash_func, h) && zero_hash@ == h(zero_children()) implies els(out@)
            == leaf_layer(b@, h) by {
            assert forall|k: int| 0 <= k < out@.len() implies els(out@)[k] == leaf_layer(
                b@,
                h,
            )[k] by {
                assert(out@[k]@ == h(leaf_children(b@, k)));
            }
            assert(els(out@) =~= leaf_layer(b@, h));
        }
    }
    Ok(out)
}

/// A copy of group `g` of `below`.
fn copy_group(below: &Vec<Vec<u8>>, g: usize) -> (children: Vec<Vec<u8>>)
    requires
        g < below@.len() / 8,
    ensures
        children@.len() == 8,
        els(children@) == group_of(els(below@), g as int),
{
    let total: usize = below.len();
    let mut children: Vec<Vec<u8>> = Vec::new();
    let mut j: usize = 0;
    while j < 8
        invariant
            j <= 8,
            8 * g + 8 <= total == below@.len(),
            children.len() == j,
            forall|k: int| 0 <= k < j ==> children@[k]@ == below@[8 * g + k]@,
        decreases 8 - j,
    {
        children.push(below[8 * g + j].clone());
        j += 1;
    }
    assert(els(children@) =~= group_of(els(below@), g as int));
    children
}

/// Builds the layer above `below`: one hash for each group of eight of its
/// values, in ascending order, each group stored under its hash unless
/// that key is taken. Values beyond the last whole group are left out.
pub fn build_parent_layer<E, H: Fn(Vec<Vec<u8>>) -> Result<Vec<u8>, E>>(
    below: &Vec<Vec<u8>>,
    hash_func: &H,
    db: &mut Db,
) -> (r: Result<Vec<Vec<u8>>, E>)
    requires
        hash_accepts(*hash_func),
    ensures
        old(db)@.submap_of(final(db)@),
        r is Ok ==> r->Ok_0@.len() == below@.len() / 8 && parent_hashes_given(
            *hash_func,
            els(below@),
            els(r->Ok_0@),
        ) && final(db)@ == parents_recorded(
            old(db)@,
            els(below@),
            els(r->Ok_0@),
            (below@.len() / 8) as nat,
        ),
        forall|h: spec_fn(Seq<Seq<u8>>) -> Seq<u8>| #[trigger]
            hash_models(*hash_func, h) ==> r is Ok && els(r->Ok_0@) == parent_layer(
                els(below@),
                h,
            ),
        hash_never_fails(*hash_func) ==> r is Ok,
        r is Err ==> hash_fails_with(*hash_func, r->Err_0),
{
    let ghost start = db@;
    let groups: usize = below.len() / 8;
    let mut out: Vec<Vec<u8>> = Vec::new();
    let mut g: usize = 0;
    while g < groups
        invariant
            g <= groups,
            groups == below@.len() / 8,
            out@.len() == g,
            hash_accepts(*hash_func),
            start == old(db)@,
            start.submap_of(db@),
            parent_hashes_given(*hash_func, els(below@), els(out@)),
            db@ == parents_recorded(start, els(below@), els(out@), g as nat),
            forall|h: spec_fn(Seq<Seq<u8>>) -> Seq<u8>, k: int|
                #![trigger hash_models(*hash_func, h), out@[k]]
                hash_models(*hash_func, h) && 0 <= k < g ==> out@[k]@ == h(
                    group_of(els(below@), k),
                ),
        decreases groups - g,
    {
        let ghost out_before = out@;
        let ghost db_before = db@;
        let children: Vec<Vec<u8>> = copy_group(below, g);
        let digest: Vec<u8> = match hash_node(hash_func, &children) {
            Ok(digest) => digest,
            Err(e) => {
                return Err(e);
            },
        };
        out.push(digest.clone());
        db.insert_if_absent(digest, children);
        proof {
            vstd::map_lib::lemma_submap_of_trans(start, db_before, db@);
        }
        g += 1;
        proof {
            assert forall|k: int| 0 <= k < g - 1 implies els(out@)[k] == els(out_before)[k] by {
                assert(out@[k] == out_before[k]);
            }
            lemma_parents_recorded_prefix(
                start,
                els(below@),
                els(out_before),
                els(out@),
                (g - 1) as nat,
            );
            assert forall|k: int| 0 <= k < els(out@).len() implies hash_gives(
                *hash_func,
                group_of(els(below@), k),
                #[trigger] els(out@)[k],
            ) by {
                if k < g - 1 {
                    assert(els(out@)[k] == els(out_before)[k]);
                }
            }
            assert forall|h: spec_fn(Seq<Seq<u8>>) -> Seq<u8>, k: int|
                #![trigger hash_models(*hash_func, h), out@[k]]
                hash_models(*hash_func, h) && 0 <= k < g implies out@[k]@ == h(
                group_of(els(below@), k),
            ) by {
                if k < g - 1 {
                    assert(out@[k] == out_before[k]);
                }
            }
        }
    }
    proof {
        assert forall|h: spec_fn(Seq<Seq<u8>>) -> Seq<u8>| #[trigger]
            hash_models(*hash_func, h) implies els(out@) == parent_layer(els(below@), h) by {
            assert forall|k: int| 0 <= k < out@.len() implies els(out@)[k] == parent_layer(
                els(below@),
                h,
            )[k] by {
                assert(out@[k]@ == h(group_of(els(below@), k)));
            }
            assert(els(out@) =~= parent_layer(els(below@), h));
        }
    }
    Ok(out)
}

/// Eight copies of the field's zero.
fn zero_octet() -> (children: Vec<Vec<u8>>)
    ensures
        children@.len() == 8,
        els(children@) == zero_children(),
{
    let mut children: Vec<Vec<u8>> = Vec::new();
    let mut j: usize = 0;
    while j < 8
        invariant
            j <= 8,
            children.len() == j,
            forall|k: int| 0 <= k < j ==> children@[k]@ == zero_el(),
        decreases 8 - j,
    {
        children.push(zero());
        j += 1;
    }
    assert(els(children@) =~= zero_children());
    children
}

/// Layer `n` of a tree of depth `depth` has `8^(depth - 1 - n)` nodes.
pub proof fn lemma_layer_len(
    bits: Seq<bool>,
    h: spec_fn(Seq<Seq<u8>>) -> Seq<u8>,
    depth: nat,
    n: nat,
)
    requires
        bits.len() == capacity(depth),
        n < depth,
    ensures
        layer(bits, h, n).len() == capacity((depth - 1 - n) as nat),
    decreases n,
{
    if n > 0 {
        lemma_layer_len(bits, h, depth, (n - 1) as nat);
        assert(capacity((depth - n) as nat) == 8 * capacity((depth - 1 - n) as nat));
    }
}

/// Builds the tree of the given depth over a bitmap of `8^depth` bits and
/// returns its root. The nodes of every layer but the top one are stored
/// in `db` under their hashes, except the leaf nodes over eight unset
/// bits; a key that is taken keeps its value. The hash of the leaf node
/// over eight unset bits is computed once, before anything else.
///
/// The build stops at the first error of the hash and hands it on; the
/// store then holds what was recorded up to there.
pub fn build_tree_from_bitmap<E, H: Fn(Vec<Vec<u8>>) -> Result<Vec<u8>, E>>(
    depth: usize,
    b: &Bitmap,
    hash_func: &H,
    db: &mut Db,
) -> (r: Result<Tree, E>)
    requires
        depth >= 2,
        b@.len() == capacity(depth as nat),
        hash_accepts(*hash_func),
    ensures
        old(db)@.submap_of(final(db)@),
        forall|h: spec_fn(Seq<Seq<u8>>) -> Seq<u8>| #[trigger]
            hash_models(*hash_func, h) ==> r is Ok && r->Ok_0.depth == depth && r->Ok_0.root@
                == tree_root(b@, depth as nat, h) && final(db)@ == layers_recorded(
                old(db)@,
                b@,
                h,
                (depth - 2) as nat,
            ),
        hash_never_fails(*hash_func) ==> r is Ok,
        r is Err ==> hash_fails_with(*hash_func, r->Err_0),
{
    let zeros: Vec<Vec<u8>> = zero_octet();
    let zero_hash: Vec<u8> = match hash_node(hash_func, &zeros) {
        Ok(digest) => digest,
        Err(e) => {
            return Err(e);
        },
    };
    let mut current: Vec<Vec<u8>> = match build_leaf_layer(b, hash_func, &zero_hash, db) {
        Ok(hashes) => hashes,
        Err(e) => {
            return Err(e);
        },
    };
    let mut level: usize = 0;
    while level < depth - 2
        invariant
            depth >= 2,
            level <= depth - 2,
            b@.len() == capacity(depth as nat),
            current@.len() == capacity((depth - 1 - level) as nat),
            hash_accepts(*hash_func),
            old(db)@.submap_of(db@),
            forall|h: spec_fn(Seq<Seq<u8>>) -> Seq<u8>| #[trigger]
                hash_models(*hash_func, h) ==> els(current@) == layer(b@, h, level as nat) && db@
                    == layers_recorded(old(db)@, b@, h, level as nat),
        decreases depth - level,
    {
        let ghost db_before = db@;
        let ghost below = current@;
        let above: Vec<Vec<u8>> = match build_parent_layer(&current, hash_func, db) {
            Ok(hashes) => hashes,
            Err(e) => {
                proof {
                    vstd::map_lib::lemma_submap_of_trans(old(db)@, db_before, db@);
                }
                return Err(e);
            },
        };
        proof {
            vstd::map_lib::lemma_submap_of_trans(old(db)@, db_before, db@);
            assert(capacity((depth - 1 - level) as nat) == 8 * capacity(
                (depth - 2 - level) as nat,
            ));
            assert forall|h: spec_fn(Seq<Seq<u8>>) -> Seq<u8>| #[trigger]
                hash_models(*hash_func, h) implies els(above@) == layer(
                b@,
                h,
                (level + 1) as nat,
            ) && db@ == layers_recorded(old(db)@, b@, h, (level + 1) as nat) by {
                assert(els(below) == layer(b@, h, level as nat));
                assert(els(below).len() == below.len());
            }
        }
        current = above;
        level += 1;
    }
    assert(capacity(1) == 8 * capacity(0));
    let root: Vec<u8> = match hash_node(hash_func, &current) {
        Ok(digest) => digest,
        Err(e) => {
            return Err(e);
        },
    };
    proof {
        assert forall|h: spec_fn(Seq<Seq<u8>>) -> Seq<u8>| #[trigger]
            hash_models(*hash_func, h) implies root@ == tree_root(b@, depth as nat, h) by {
            let top = layer(b@, h, (depth - 2) as nat);
            assert(els(current@) == top);
            assert(group_of(top, 0) =~= top);
        }
    }
    Ok(Tree { depth, root })
}

/// The hash of a subtree of the given height whose leaves are all zero:
/// the hash of eight zeros at height 1, and above that the hash of eight
/// copies of the hash one level down.
pub open spec fn zero_subtree_hash(h: spec_fn(Seq<Seq<u8>>) -> Seq<u8>, height: nat) -> Seq<u8>
    decreases height,
{
    if height <= 1 {
        h(zero_children())
    } else {
        let below = zero_subtree_hash(h, (height - 1) as nat);
        h(Seq::new(8, |j: int| below))
    }
}

/// The eight bits of group `g`.
pub open spec fn octet_pattern(bits: Seq<bool>, g: int) -> Seq<bool> {
    bits.subrange(8 * g, 8 * g + 8)
}

/// The different bit patterns, other than all unset, among the first `n`
/// leaf groups.
pub open spec fn mixed_patterns(bits: Seq<bool>, n: nat) -> Set<Seq<bool>> {
    Set::new(
        |p: Seq<bool>|
            exists|g: int|
                0 <= g < n && !octet_unset(bits, g) && p == #[trigger] octet_pattern(bits, g),
    )
}

/// The leaf values that a pattern of eight bits stands for.
pub open spec fn pattern_children(p: Seq<bool>) -> Seq<Seq<u8>> {
    Seq::new(
        8,
        |j: int|
            if p[j] {
                one_el()
            } else {
                zero_el()
            },
    )
}

/// In a tree over a bitmap without a set bit, every node of layer `n` is
/// the hash of the all-zero subtree of height `n + 1`.
pub proof fn lemma_zero_layers(
    bits: Seq<bool>,
    h: spec_fn(Seq<Seq<u8>>) -> Seq<u8>,
    depth: nat,
    n: nat,
)
    requires
        bits.len() == capacity(depth),
        n < depth,
        forall|i: int| 0 <= i < bits.len() ==> !bits[i],
    ensures
        layer(bits, h, n) == Seq::new(
            capacity((depth - 1 - n) as nat),
            |g: int| zero_subtree_hash(h, n + 1),
        ),
    decreases n,
{
    let expected = Seq::new(
        capacity((depth - 1 - n) as nat),
        |g: int| zero_subtree_hash(h, n + 1),
    );
    lemma_layer_len(bits, h, depth, n);
    if n == 0 {
        assert forall|g: int| 0 <= g < expected.len() implies layer(bits, h, n)[g]
            == expected[g] by {
            assert(leaf_children(bits, g) =~= zero_children());
        }
    } else {
        lemma_zero_layers(bits, h, depth, (n - 1) as nat);
        let below = layer(bits, h, (n - 1) as nat);
        let hash_below = zero_subtree_hash(h, n);
        assert(capacity((depth - n) as nat) == 8 * capacity((depth - 1 - n) as nat));
        assert forall|g: int| 0 <= g < expected.len() implies layer(bits, h, n)[g]
            == expected[g] by {
            assert(group_of(below, g) =~= Seq::new(8, |j: int| hash_below));
        }
    }
    assert(layer(bits, h, n) =~= expected);
}

/// The root of the tree over a bitmap without a set bit is the hash of the
/// all-zero subtree of the tree's depth: the hash of eight zeros, hashed
/// eight-fold once for each further layer.
pub proof fn lemma_all_zero_root(bits: Seq<bool>, h: spec_fn(Seq<Seq<u8>>) -> Seq<u8>, depth: nat)
    requires
        depth >= 1,
        bits.len() == capacity(depth),
        forall|i: int| 0 <= i < bits.len() ==> !bits[i],
    ensures
        tree_root(bits, depth, h) == zero_subtree_hash(h, depth),
{
    lemma_zero_layers(bits, h, depth, (depth - 1) as nat);
}

/// Two builds over the same bitmap with a hash that is a function end in
/// the same root, and from equal stores in equal stores: of the roots and
/// stores that the contract of a build allows, there is only one pair.
pub proof fn lemma_build_is_deterministic<E, H: Fn(Vec<Vec<u8>>) -> Result<Vec<u8>, E>>(
    f: H,
    h: spec_fn(Seq<Seq<u8>>) -> Seq<u8>,
    bits: Seq<bool>,
    depth: nat,
    start: Map<Seq<u8>, Seq<Seq<u8>>>,
    root_a: Seq<u8>,
    db_a: Map<Seq<u8>, Seq<Seq<u8>>>,
    root_b: Seq<u8>,
    db_b: Map<Seq<u8>, Seq<Seq<u8>>>,
)
    requires
        hash_models(f, h),
        forall|g: spec_fn(Seq<Seq<u8>>) -> Seq<u8>| #[trigger]
            hash_models(f, g) ==> root_a == tree_root(bits, depth, g) && db_a == layers_recorded(
                start,
                bits,
                g,
                (depth - 2) as nat,
            ),
        forall|g: spec_fn(Seq<Seq<u8>>) -> Seq<u8>| #[trigger]
            hash_models(f, g) ==> root_b == tree_root(bits, depth, g) && db_b == layers_recorded(
                start,
                bits,
                g,
                (depth - 2) as nat,
            ),
    ensures
        root_a == root_b,
        db_a == db_b,
        root_a == tree_root(bits, depth, h),
{
}

/// Visiting the first `n` leaf groups adds to the store only hashes of
/// patterns with a set bit, one key at most for each different pattern.
proof fn lemma_leaf_keys(
    m: Map<Seq<u8>, Seq<Seq<u8>>>,
    bits: Seq<bool>,
    h: spec_fn(Seq<Seq<u8>>) -> Seq<u8>,
    n: nat,
)
    requires
        8 * n <= bits.len(),
    ensures
        mixed_patterns(bits, n).finite(),
        mixed_patterns(bits, n).len() <= n,
        forall|k: Seq<u8>| #[trigger]
            leaves_recorded(m, bits, leaf_layer(bits, h), n).dom().contains(k) ==> m.dom().contains(k)
                || mixed_patterns(bits, n).map(|p: Seq<bool>| h(pattern_children(p))).contains(k),
    decreases n,
{
    let key_of = |p: Seq<bool>| h(pattern_children(p));
    if n == 0 {
        assert(mixed_patterns(bits, n) =~= Set::<Seq<bool>>::empty());
    } else {
        let before = (n - 1) as nat;
        lemma_leaf_keys(m, bits, h, before);
        let p = octet_pattern(bits, before as int);
        assert(pattern_children(p) =~= leaf_children(bits, before as int));
        if octet_unset(bits, before as int) {
            assert(mixed_patterns(bits, n) =~= mixed_patterns(bits, before));
        } else {
            assert(mixed_patterns(bits, n) =~= mixed_patterns(bits, before).insert(p));
            assert(mixed_patterns(bits, n).contains(p));
        }
        assert forall|k: Seq<u8>| #[trigger]
            leaves_recorded(m, bits, leaf_layer(bits, h), n).dom().contains(k) implies m.dom().contains(k)
            || mixed_patterns(bits, n).map(key_of).contains(k) by {
            if leaves_recorded(m, bits, leaf_layer(bits, h), before).dom().contains(k) {
                if !m.dom().contains(k) {
                    let q = choose|q: Seq<bool>|
                        mixed_patterns(bits, before).contains(q) && key_of(q) == k;
                    assert(mixed_patterns(bits, n).contains(q));
                }
            } else {
                assert(k == key_of(p));
            }
        }
    }
}

/// However many leaf groups share a pattern, the leaf layer adds at most
/// one node to the store for each different pattern with a set bit, and
/// none for the groups without one. What was stored before stays.
pub proof fn lemma_leaves_deduplicated(
    m: Map<Seq<u8>, Seq<Seq<u8>>>,
    bits: Seq<bool>,
    h: spec_fn(Seq<Seq<u8>>) -> Seq<u8>,
)
    requires
        bits.len() % 8 == 0,
    ensures
        mixed_patterns(bits, bits.len() / 8).finite(),
        mixed_patterns(bits, bits.len() / 8).len() <= bits.len() / 8,
        leaves_recorded(m, bits, leaf_layer(bits, h), bits.len() / 8).dom().difference(m.dom()).finite(),
        leaves_recorded(m, bits, leaf_layer(bits, h), bits.len() / 8).dom().difference(m.dom()).len()
            <= mixed_patterns(bits, bits.len() / 8).len(),
{
    let n = bits.len() / 8;
    let key_of = |p: Seq<bool>| h(pattern_children(p));
    let patterns = mixed_patterns(bits, n);
    let added = leaves_recorded(m, bits, leaf_layer(bits, h), n).dom().difference(m.dom());
    lemma_leaf_keys(m, bits, h, n);
    vstd::set_lib::lemma_map_size_bound(patterns, patterns.map(key_of), key_of);
    assert(added.subset_of(patterns.map(key_of)));
    vstd::set_lib::lemma_len_subset(added, patterns.map(key_of));
}

} // verus!
