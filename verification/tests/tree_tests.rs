use amcl_wrapper::field_elem::FieldElement;
use merkle_bitmap::bitmap::Bitmap;
use merkle_bitmap::db::{make_db, Db};
use merkle_bitmap::field::{copy_els, one, same_bytes, zero};
use merkle_bitmap::tree::{
    build_leaf_layer, build_parent_layer, build_tree_from_bitmap, capacity_for_depth, leaf_octet,
    LeafOctet,
};
use std::cell::Cell;

/// An order-sensitive stand-in for the tree's hash: 48 bytes mixed from all
/// the bytes of the eight children and their positions.
fn mix(children: &Vec<Vec<u8>>) -> Vec<u8> {
    let mut state: u64 = 0xcbf29ce484222325;
    for (at, child) in children.iter().enumerate() {
        state ^= at as u64 + 1;
        state = state.wrapping_mul(0x100000001b3);
        for byte in child {
            state ^= *byte as u64;
            state = state.wrapping_mul(0x100000001b3);
        }
    }
    let mut out = Vec::with_capacity(48);
    for _ in 0..6 {
        state = state.wrapping_mul(0x9e3779b97f4a7c15).rotate_left(23) ^ 0x5851f42d4c957f2d;
        out.extend_from_slice(&state.to_be_bytes());
    }
    out
}

fn toy_hash(children: Vec<Vec<u8>>) -> Result<Vec<u8>, String> {
    assert_eq!(children.len(), 8);
    Ok(mix(&children))
}

/// The root computed leaf by leaf, without any shortcut and without a
/// store.
fn reference_root(bits: &Vec<bool>) -> Vec<u8> {
    let mut layer: Vec<Vec<u8>> = bits.iter().map(|set| if *set { one() } else { zero() }).collect();
    while layer.len() > 1 {
        layer = layer.chunks(8).map(|group| mix(&group.to_vec())).collect();
    }
    layer.remove(0)
}

fn bitmap_of(bits: &Vec<bool>) -> Bitmap {
    let mut b = Bitmap::new(bits.len()).unwrap();
    for (i, set) in bits.iter().enumerate() {
        if *set {
            b.set_bit(i);
        }
    }
    b
}

fn build(depth: usize, b: &Bitmap, db: &mut Db) -> Vec<u8> {
    assert_eq!(capacity_for_depth(depth), Some(b.len()));
    let tree = build_tree_from_bitmap(depth, b, &toy_hash, db).unwrap();
    assert_eq!(tree.depth, depth);
    tree.root
}

#[test]
fn zero_is_forty_eight_zero_bytes() {
    assert_eq!(zero(), vec![0u8; 48]);
    assert_eq!(zero(), FieldElement::zero().to_bytes());
    assert!(FieldElement::from_bytes(&zero()).unwrap().is_zero());
}

#[test]
fn one_is_the_number_one_most_significant_byte_first() {
    let mut expected = vec![0u8; 48];
    expected[47] = 1;
    assert_eq!(one(), expected);
    assert_eq!(one(), FieldElement::one().to_bytes());
    assert!(FieldElement::from_bytes(&one()).unwrap().is_one());
    assert_ne!(one(), zero());
}

#[test]
fn same_bytes_compares_contents() {
    assert!(same_bytes(&vec![1, 2, 3], &vec![1, 2, 3]));
    assert!(!same_bytes(&vec![1, 2, 3], &vec![1, 2, 4]));
    assert!(!same_bytes(&vec![1, 2, 3], &vec![1, 2]));
    assert!(!same_bytes(&vec![], &vec![0]));
    assert!(same_bytes(&vec![], &vec![]));
}

#[test]
fn copy_els_copies_every_value() {
    let v = vec![vec![1u8, 2], vec![], vec![3u8]];
    assert_eq!(copy_els(&v), v);
    assert_eq!(copy_els(&Vec::new()), Vec::<Vec<u8>>::new());
}

#[test]
fn capacity_is_a_power_of_eight() {
    assert_eq!(capacity_for_depth(0), Some(1));
    assert_eq!(capacity_for_depth(1), Some(8));
    assert_eq!(capacity_for_depth(2), Some(64));
    assert_eq!(capacity_for_depth(3), Some(512));
    assert_eq!(capacity_for_depth(4), Some(4096));
    let most = (usize::BITS as usize - 1) / 3;
    assert_eq!(capacity_for_depth(most), Some(1usize << (3 * most)));
    assert_eq!(capacity_for_depth(most + 1), None);
    assert_eq!(capacity_for_depth(usize::MAX), None);
}

#[test]
fn leaf_octet_tells_empty_groups_from_the_rest() {
    let mut b = Bitmap::new(64).unwrap();
    b.set_bit(9);
    b.set_bit(15);
    assert!(matches!(leaf_octet(&b, 0), LeafOctet::AllZero));
    assert!(matches!(leaf_octet(&b, 16), LeafOctet::AllZero));
    match leaf_octet(&b, 8) {
        LeafOctet::AllZero => panic!("group 1 has set bits"),
        LeafOctet::Mixed(children) => {
            let expected =
                vec![zero(), one(), zero(), zero(), zero(), zero(), zero(), one()];
            assert_eq!(children, expected);
        },
    }
}

#[test]
fn one_set_bit_at_depth_two() {
    let mut b = Bitmap::new(64).unwrap();
    b.set_bit(5);
    let calls = Cell::new(0usize);
    let counting = |children: Vec<Vec<u8>>| -> Result<Vec<u8>, String> {
        calls.set(calls.get() + 1);
        toy_hash(children)
    };
    let mut db = make_db();
    let tree = build_tree_from_bitmap(2, &b, &counting, &mut db).unwrap();

    let zero_hash = mix(&vec![zero(); 8]);
    let group0 = vec![zero(), zero(), zero(), zero(), zero(), one(), zero(), zero()];
    let hash0 = mix(&group0);
    assert_ne!(hash0, zero_hash);

    // Groups 1 to 7 take the cached hash: nothing is stored for them and
    // the hash runs for the zero octet, for group 0 and for the root only.
    assert_eq!(db.len(), 1);
    assert_eq!(db.get(&hash0), Some(group0));
    assert!(!db.contains_key(&zero_hash));
    assert_eq!(calls.get(), 3);

    let mut top = vec![hash0];
    for _ in 1..8 {
        top.push(zero_hash.clone());
    }
    assert_eq!(tree.root, mix(&top));
    assert_eq!(tree.depth, 2);
    assert!(!db.contains_key(&tree.root));
}

#[test]
fn building_twice_gives_the_same_root() {
    let mut b = Bitmap::new(512).unwrap();
    for i in [0usize, 7, 8, 63, 64, 300, 511] {
        b.set_bit(i);
    }
    let mut db1 = make_db();
    let mut db2 = make_db();
    let root1 = build(3, &b, &mut db1);
    let root2 = build(3, &b, &mut db2);
    assert_eq!(root1, root2);
    assert_eq!(db1.len(), db2.len());
}

#[test]
fn all_zero_bitmap_gives_the_iterated_zero_hash() {
    let mut expected = mix(&vec![zero(); 8]);
    for depth in 2..5usize {
        expected = mix(&vec![expected.clone(); 8]);
        let b = Bitmap::new(capacity_for_depth(depth).unwrap()).unwrap();
        let mut db = make_db();
        let root = build(depth, &b, &mut db);
        assert_eq!(root, expected);
        // One node for each layer between the leaf layer and the root.
        assert_eq!(db.len(), depth - 2);
    }
}

#[test]
fn root_matches_a_leaf_by_leaf_construction() {
    for depth in 2..4usize {
        let cap = capacity_for_depth(depth).unwrap();
        for seed in 0..6usize {
            let bits: Vec<bool> =
                (0..cap).map(|i| (i * 7 + seed * 13) % (5 + 11 * seed) == 0).collect();
            let b = bitmap_of(&bits);
            let mut db = make_db();
            assert_eq!(build(depth, &b, &mut db), reference_root(&bits));
        }
    }
}

#[test]
fn group_order_is_left_to_right_at_every_layer() {
    // The same pattern in the first and in the last leaf group gives
    // different roots, and each matches the leaf-by-leaf construction.
    let mut first = vec![false; 512];
    first[3] = true;
    let mut last = vec![false; 512];
    last[507] = true;
    let mut db = make_db();
    let root_first = build(3, &bitmap_of(&first), &mut db);
    let root_last = build(3, &bitmap_of(&last), &mut db);
    assert_ne!(root_first, root_last);
    assert_eq!(root_first, reference_root(&first));
    assert_eq!(root_last, reference_root(&last));
}

#[test]
fn repeated_patterns_are_stored_once() {
    // Bits 1, 9, 17 and 25 give four groups with one pattern; bit 36 gives
    // a second pattern.
    let mut b = Bitmap::new(64).unwrap();
    for i in [1usize, 9, 17, 25, 36] {
        b.set_bit(i);
    }
    let mut db = make_db();
    let zero_hash = mix(&vec![zero(); 8]);
    let layer = build_leaf_layer(&b, &toy_hash, &zero_hash, &mut db).unwrap();
    assert_eq!(db.len(), 2);
    assert_eq!(layer.len(), 8);
    assert_eq!(layer[0], layer[1]);
    assert_eq!(layer[0], layer[3]);
    assert_ne!(layer[0], layer[4]);
    assert_eq!(layer[5], zero_hash);
    assert_eq!(layer[7], zero_hash);
    let shared = vec![zero(), one(), zero(), zero(), zero(), zero(), zero(), zero()];
    assert_eq!(db.get(&layer[0]), Some(shared));
}

#[test]
fn a_taken_key_keeps_its_value() {
    let mut b = Bitmap::new(64).unwrap();
    b.set_bit(0);
    let group0 = vec![one(), zero(), zero(), zero(), zero(), zero(), zero(), zero()];
    let mut db = make_db();
    let kept = vec![vec![9u8]; 8];
    db.insert(mix(&group0), kept.clone());
    build(2, &b, &mut db);
    assert_eq!(db.len(), 1);
    assert_eq!(db.get(&mix(&group0)), Some(kept));
}

#[test]
fn parent_layer_hashes_groups_in_order() {
    let below: Vec<Vec<u8>> = (0..16u8).map(|i| vec![i; 48]).collect();
    let mut db = make_db();
    let above = build_parent_layer(&below, &toy_hash, &mut db).unwrap();
    assert_eq!(above, vec![mix(&below[0..8].to_vec()), mix(&below[8..16].to_vec())]);
    assert_eq!(db.len(), 2);
    assert_eq!(db.get(&above[1]), Some(below[8..16].to_vec()));
}

#[test]
fn parent_layer_leaves_out_an_incomplete_group() {
    let below: Vec<Vec<u8>> = (0..11u8).map(|i| vec![i; 48]).collect();
    let mut db = make_db();
    let above = build_parent_layer(&below, &toy_hash, &mut db).unwrap();
    assert_eq!(above, vec![mix(&below[0..8].to_vec())]);
    let none = build_parent_layer(&below[0..7].to_vec(), &toy_hash, &mut db).unwrap();
    assert!(none.is_empty());
}

#[test]
fn an_error_of_the_hash_stops_the_build() {
    let mut b = Bitmap::new(64).unwrap();
    b.set_bit(5);
    let calls = Cell::new(0usize);
    let failing = |children: Vec<Vec<u8>>| -> Result<Vec<u8>, String> {
        calls.set(calls.get() + 1);
        if calls.get() == 2 {
            Err(String::from("no hash"))
        } else {
            toy_hash(children)
        }
    };
    let mut db = make_db();
    match build_tree_from_bitmap(2, &b, &failing, &mut db) {
        Ok(_) => panic!("the second hash failed"),
        Err(e) => assert_eq!(e, "no hash"),
    }
    assert_eq!(calls.get(), 2);
    assert_eq!(db.len(), 0);
}

#[test]
fn store_inserts_and_finds() {
    let mut db = Db::new();
    assert_eq!(db.len(), 0);
    assert!(!db.contains_key(&vec![1u8]));
    assert_eq!(db.get(&vec![1u8]), None);
    db.insert(vec![1u8], vec![vec![10u8]]);
    db.insert(vec![2u8], vec![vec![20u8]]);
    assert_eq!(db.len(), 2);
    assert!(db.contains_key(&vec![1u8]));
    assert_eq!(db.get(&vec![2u8]), Some(vec![vec![20u8]]));
    db.insert(vec![1u8], vec![vec![11u8]]);
    assert_eq!(db.len(), 2);
    assert_eq!(db.get(&vec![1u8]), Some(vec![vec![11u8]]));
}

#[test]
fn store_insert_if_absent_never_overwrites() {
    let mut db = make_db();
    assert!(db.insert_if_absent(vec![1u8], vec![vec![10u8]]));
    assert!(!db.insert_if_absent(vec![1u8], vec![vec![11u8]]));
    assert!(db.insert_if_absent(vec![], vec![]));
    assert_eq!(db.len(), 2);
    assert_eq!(db.get(&vec![1u8]), Some(vec![vec![10u8]]));
    assert_eq!(db.get(&vec![]), Some(vec![]));
}

#[test]
fn store_lists_each_key_once() {
    let mut db = make_db();
    assert!(db.keys().is_empty());
    db.insert(vec![3u8], vec![vec![30u8]]);
    db.insert(vec![1u8], vec![vec![10u8]]);
    db.insert(vec![3u8], vec![vec![31u8]]);
    db.insert_if_absent(vec![2u8], vec![]);
    let mut keys = db.keys();
    keys.sort();
    assert_eq!(keys, vec![vec![1u8], vec![2u8], vec![3u8]]);
    assert_eq!(db.keys().len(), db.len());
}

#[test]
fn store_tells_keys_with_equal_tails_apart() {
    // Both keys end in the same eight bytes.
    let mut a = vec![1u8; 48];
    let mut b = vec![1u8; 48];
    a[0] = 7;
    b[0] = 8;
    let short = vec![1u8; 8];
    let mut db = make_db();
    assert!(db.insert_if_absent(a.clone(), vec![vec![1u8]]));
    assert!(!db.contains_key(&b));
    assert!(!db.contains_key(&short));
    assert!(db.insert_if_absent(b.clone(), vec![vec![2u8]]));
    assert!(db.insert_if_absent(short.clone(), vec![vec![3u8]]));
    assert_eq!(db.len(), 3);
    assert_eq!(db.get(&a), Some(vec![vec![1u8]]));
    assert_eq!(db.get(&b), Some(vec![vec![2u8]]));
    assert_eq!(db.get(&short), Some(vec![vec![3u8]]));
    db.insert(b.clone(), vec![vec![4u8]]);
    assert_eq!(db.len(), 3);
    assert_eq!(db.get(&a), Some(vec![vec![1u8]]));
    assert_eq!(db.get(&b), Some(vec![vec![4u8]]));
}

#[test]
fn store_holds_many_keys() {
    let mut db = make_db();
    for i in 0..2000u32 {
        let key = i.to_be_bytes().to_vec();
        assert!(db.insert_if_absent(key, vec![vec![(i % 251) as u8]]));
    }
    assert_eq!(db.len(), 2000);
    for i in 0..2000u32 {
        let key = i.to_be_bytes().to_vec();
        assert!(!db.insert_if_absent(key.clone(), vec![]));
        assert_eq!(db.get(&key), Some(vec![vec![(i % 251) as u8]]));
    }
    assert!(!db.contains_key(&2000u32.to_be_bytes().to_vec()));
    assert_eq!(db.len(), 2000);
}

#[test]
fn deeper_tree_with_scattered_bits() {
    let cap = capacity_for_depth(4).unwrap();
    let bits: Vec<bool> = (0..cap).map(|i| i % 97 == 3 || i == cap - 1).collect();
    let b = bitmap_of(&bits);
    let mut db = make_db();
    let root = build(4, &b, &mut db);
    assert_eq!(root, reference_root(&bits));
    // Every stored node is found under the hash of its children.
    for key in db.keys() {
        let children = db.get(&key).unwrap();
        assert_eq!(children.len(), 8);
        assert_eq!(mix(&children), key);
    }
}

#[test]
fn empty_groups_take_the_hash_they_are_given() {
    let mut b = Bitmap::new(32).unwrap();
    b.set_bit(31);
    let mut db = make_db();
    let given = vec![9u8; 3];
    let layer = build_leaf_layer(&b, &toy_hash, &given, &mut db).unwrap();
    let last = vec![zero(), zero(), zero(), zero(), zero(), zero(), zero(), one()];
    assert_eq!(layer, vec![given.clone(), given.clone(), given.clone(), mix(&last)]);
    assert_eq!(db.len(), 1);
    assert!(!db.contains_key(&given));
}

#[test]
fn leaf_layer_of_an_empty_bitmap_is_empty() {
    let b = Bitmap::new(0).unwrap();
    let mut db = make_db();
    let layer = build_leaf_layer(&b, &toy_hash, &zero(), &mut db).unwrap();
    assert!(layer.is_empty());
    assert_eq!(db.len(), 0);
}
