use merkle_tree::digest::{Digest, DigestHash};
use merkle_tree::hash::{BuildMerkleHasher, MerkleHasher};
use merkle_tree::tree::{fold_proof, verify_proof, MerkleTree, Proof};

const FNV_OFFSET: u64 = 0xcbf29ce484222325;
const FNV_PRIME: u64 = 0x100000001b3;

/// A small deterministic test hasher (64-bit FNV-1a).
struct Fnv {
    state: u64,
}

impl Digest for Fnv {
    fn input(&mut self, bytes: &[u8]) {
        for &b in bytes {
            self.state ^= b as u64;
            self.state = self.state.wrapping_mul(FNV_PRIME);
        }
    }

    fn reset(&mut self) {
        self.state = FNV_OFFSET;
    }
}

impl MerkleHasher for Fnv {
    fn finish_full(&self) -> Vec<u8> {
        self.state.to_be_bytes().to_vec()
    }
}

#[derive(Clone, Default)]
struct BuildFnv;

impl BuildMerkleHasher for BuildFnv {
    type Hasher = Fnv;

    fn build_hasher(&self) -> Fnv {
        Fnv { state: FNV_OFFSET }
    }
}

#[derive(Clone)]
struct TestStruct(u64);

impl DigestHash for TestStruct {
    fn hash<D: Digest>(&self, state: &mut D) {
        state.input(&self.0.to_be_bytes());
    }
}

fn make_tree() -> MerkleTree<TestStruct, BuildFnv> {
    let mut tree = MerkleTree::with_hasher(BuildFnv);
    tree.insert_items(vec![
        TestStruct(0),
        TestStruct(1),
        TestStruct(2),
        TestStruct(3),
        TestStruct(4),
        TestStruct(5),
        TestStruct(6),
    ]);
    tree
}

fn make_small_tree() -> MerkleTree<TestStruct, BuildFnv> {
    let mut tree = MerkleTree::with_hasher(BuildFnv);
    tree.insert_items(vec![TestStruct(1), TestStruct(2)]);
    tree
}

#[test]
fn test_height() {
    let small_tree = make_small_tree();
    let tree = make_tree();
    println!("Small tree height = {}", small_tree.height());
    assert!(small_tree.height() == 1);
    println!("Tree height = {}", tree.height());
    assert!(tree.height() == 3);
}

#[test]
fn test_leaf_count() {
    let first = make_tree();
    let mut second = make_tree();
    println!("{} vs {}", first.leaf_count().unwrap(), second.leaf_count().unwrap());
    assert!(first.leaf_count().unwrap() == second.leaf_count().unwrap());
    second.insert(TestStruct(0));
    println!("{} vs {}", first.leaf_count().unwrap(), second.leaf_count().unwrap());
    assert!(first.leaf_count().unwrap() + 1 == second.leaf_count().unwrap());
}

#[test]
fn test_tree_hashes() {
    println!("RUNNING TEST");
    let first = make_tree();
    let mut second = make_tree();
    let first_hash = first.root_hash().unwrap();
    let mut second_hash = second.root_hash().unwrap();
    println!("{:X?} vs {:X?}", first_hash, second_hash);
    assert!(first_hash == second_hash);
    second.insert(TestStruct(0));
    second_hash = second.root_hash().unwrap();
    println!("{:X?} vs {:X?}", first_hash, second_hash);
    assert!(first_hash != second_hash);
}

#[test]
fn test_value_proof() {
    let value = TestStruct(3);
    let hasher_builder = BuildFnv;

    let tree = make_tree();
    let proof = tree.value_proof(&value);
    println!("Proof length: {}", proof.len());
    assert!(proof.len() == tree.height());

    let mut hasher = hasher_builder.build_hasher();
    value.hash(&mut hasher);
    let mut current_hash = hasher.finish_full();

    for piece in proof {
        match piece {
            Proof::Left(hash) => {
                let mut hasher = hasher_builder.build_hasher();
                hasher.input(&hash);
                hasher.input(&current_hash);
                current_hash = hasher.finish_full();
            }
            Proof::Right(hash) => {
                let mut hasher = hasher_builder.build_hasher();
                hasher.input(&current_hash);
                hasher.input(&hash);
                current_hash = hasher.finish_full();
            }
        }
    }

    let root_hash = tree.root_hash().unwrap();
    println!("{:X?} vs {:X?}", current_hash, root_hash);
    assert!(current_hash == root_hash)
}

#[test]
fn batching_does_not_change_root_hash() {
    let mut one_by_one = MerkleTree::with_hasher(BuildFnv);
    for v in 0..7u64 {
        one_by_one.insert(TestStruct(v));
    }
    let batched = make_tree();
    let mut mixed = MerkleTree::with_hasher(BuildFnv);
    mixed.insert_items(vec![TestStruct(0), TestStruct(1), TestStruct(2)]);
    mixed.insert(TestStruct(3));
    mixed.insert_items(vec![TestStruct(4), TestStruct(5)]);
    mixed.insert(TestStruct(6));
    assert_eq!(one_by_one.root_hash().unwrap(), batched.root_hash().unwrap());
    assert_eq!(mixed.root_hash().unwrap(), batched.root_hash().unwrap());
}

#[test]
fn height_formula_small_sizes() {
    // height == ceil(log2(n)) for n >= 1, and 0 for n == 1
    let expected = [(1, 0), (2, 1), (3, 2), (4, 2), (5, 3), (6, 3), (7, 3), (8, 3), (9, 4)];
    for &(n, h) in expected.iter() {
        let mut tree = MerkleTree::with_hasher(BuildFnv);
        for v in 0..n as u64 {
            tree.insert(TestStruct(v));
        }
        assert_eq!(tree.leaf_count().unwrap(), n);
        assert_eq!(tree.height(), h);
    }
}

#[test]
fn empty_tree_queries() {
    let tree: MerkleTree<TestStruct, BuildFnv> = MerkleTree::with_hasher(BuildFnv);
    assert!(tree.root_hash().is_none());
    assert!(tree.leaf_count().is_none());
    assert_eq!(tree.height(), 0);
    assert!(tree.value_proof(&TestStruct(1)).is_empty());
}

#[test]
fn empty_batch_changes_nothing() {
    let mut tree = make_tree();
    let before = tree.root_hash().unwrap();
    tree.insert_items(Vec::new());
    assert_eq!(tree.root_hash().unwrap(), before);
    assert_eq!(tree.leaf_count().unwrap(), 7);
}

#[test]
fn every_leaf_verifies() {
    let tree = make_tree();
    let root = tree.root_hash().unwrap();
    for v in 0..7u64 {
        let value = TestStruct(v);
        let proof = tree.value_proof(&value);
        assert_eq!(proof.len(), tree.height());
        assert!(verify_proof(&BuildFnv, &value, &proof, &root));
    }
}

#[test]
fn absent_value_yields_empty_proof() {
    let tree = make_tree();
    assert!(tree.value_proof(&TestStruct(99)).is_empty());
}

#[test]
fn two_leaf_tree_proof_has_one_step() {
    let small_tree = make_small_tree();
    assert_eq!(small_tree.height(), 1);
    let proof = small_tree.value_proof(&TestStruct(1));
    assert_eq!(proof.len(), 1);
    let root = small_tree.root_hash().unwrap();
    assert!(verify_proof(&BuildFnv, &TestStruct(1), &proof, &root));
}

#[test]
fn tampering_breaks_verification() {
    let tree = make_tree();
    let root = tree.root_hash().unwrap();
    let value = TestStruct(5);
    let proof = tree.value_proof(&value);
    assert!(verify_proof(&BuildFnv, &value, &proof, &root));

    // a different value does not verify against the same proof
    assert!(!verify_proof(&BuildFnv, &TestStruct(4), &proof, &root));

    // flipping any single byte of any step's digest breaks the proof
    for i in 0..proof.len() {
        let digest_len = match &proof[i] {
            Proof::Left(d) => d.len(),
            Proof::Right(d) => d.len(),
        };
        for j in 0..digest_len {
            let mut tampered = Vec::new();
            for (k, piece) in proof.iter().enumerate() {
                let (left, bytes) = match piece {
                    Proof::Left(d) => (true, d.clone()),
                    Proof::Right(d) => (false, d.clone()),
                };
                let mut bytes = bytes;
                if k == i {
                    bytes[j] ^= 0x01;
                }
                tampered.push(if left { Proof::Left(bytes) } else { Proof::Right(bytes) });
            }
            assert!(!verify_proof(&BuildFnv, &value, &tampered, &root));
        }
    }
}

#[test]
fn subtree_copy_verifies_against_superset() {
    // a freshly built copy of the first four leaves stands whole inside
    // the seven-leaf tree
    let tree = make_tree();
    let mut subtree = MerkleTree::with_hasher(BuildFnv);
    subtree.insert_items(vec![TestStruct(0), TestStruct(1), TestStruct(2), TestStruct(3)]);
    let sub_root = subtree.root_hash().unwrap();
    let proof = tree.tree_proof(subtree);
    assert!(!proof.is_empty());
    let folded = fold_proof(&BuildFnv, &sub_root, &proof);
    assert_eq!(folded, tree.root_hash().unwrap());
}

#[test]
fn foreign_subtree_yields_empty_proof() {
    let tree = make_tree();
    let mut foreign = MerkleTree::with_hasher(BuildFnv);
    foreign.insert_items(vec![TestStruct(41), TestStruct(42)]);
    assert!(tree.tree_proof(foreign).is_empty());
}

#[test]
fn fold_of_empty_proof_is_start() {
    let start = vec![1u8, 2, 3, 4];
    let folded = fold_proof(&BuildFnv, &start, &Vec::new());
    assert_eq!(folded, start);
}

fn digest_of_bytes(parts: &[&[u8]]) -> Vec<u8> {
    let mut hasher = BuildFnv.build_hasher();
    for part in parts {
        hasher.input(part);
    }
    hasher.finish_full()
}

#[test]
fn single_leaf_root_is_value_digest() {
    let mut tree = MerkleTree::with_hasher(BuildFnv);
    tree.insert(TestStruct(7));
    let expected = digest_of_bytes(&[&7u64.to_be_bytes()]);
    assert_eq!(tree.root_hash().unwrap(), expected);
    assert_eq!(tree.height(), 0);
    assert!(tree.value_proof(&TestStruct(7)).is_empty());
}

#[test]
fn two_leaf_root_combines_child_digests() {
    let small_tree = make_small_tree();
    let d1 = digest_of_bytes(&[&1u64.to_be_bytes()]);
    let d2 = digest_of_bytes(&[&2u64.to_be_bytes()]);
    let expected = digest_of_bytes(&[&d1, &d2]);
    assert_eq!(small_tree.root_hash().unwrap(), expected);
}

#[test]
fn lone_child_digest_is_fed_twice() {
    // three leaves: the right subtree is a branch with only a left child,
    // whose digest is fed twice
    let mut tree = MerkleTree::with_hasher(BuildFnv);
    tree.insert_items(vec![TestStruct(1), TestStruct(2), TestStruct(3)]);
    let d1 = digest_of_bytes(&[&1u64.to_be_bytes()]);
    let d2 = digest_of_bytes(&[&2u64.to_be_bytes()]);
    let d3 = digest_of_bytes(&[&3u64.to_be_bytes()]);
    let left = digest_of_bytes(&[&d1, &d2]);
    let lone = digest_of_bytes(&[&d3, &d3]);
    let expected = digest_of_bytes(&[&left, &lone]);
    assert_eq!(tree.height(), 2);
    assert_eq!(tree.root_hash().unwrap(), expected);
}

#[test]
fn hasher_builder_round_trip() {
    let tree = make_tree();
    let builder = tree.hasher_builder();
    let mut hasher = builder.build_hasher();
    TestStruct(1).hash(&mut hasher);
    let d1 = hasher.finish_full();
    hasher.reset();
    TestStruct(1).hash(&mut hasher);
    assert_eq!(d1, hasher.finish_full());
}
