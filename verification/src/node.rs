//! Tree nodes: a `Leaf` wraps one value's digest, a `Branch` combines up to
//! two children, and each node caches its own digest, computed once at
//! construction and never recomputed.

use vstd::prelude::*;

use std::rc::Rc;

use crate::digest::Digest;
use crate::digest::DigestHash;
use crate::hash::{BuildMerkleHasher, MerkleHasher};

verus! {

pub type Child<V, S> = Rc<Node<V, S>>;

pub type HashValue = Vec<u8>;

/// The mathematical model of a node: the tree's form together with the
/// digest of each leaf.  Branch digests are derived, not stored here.
pub enum Shape {
    Leaf { digest: Seq<u8> },
    Branch { left: Option<Box<Shape>>, right: Option<Box<Shape>> },
}

impl Shape {
    /// Height: a leaf has height 0; a branch is one above its tallest
    /// present child.
    pub open spec fn height(self) -> nat
        decreases self,
    {
        match self {
            Shape::Leaf { .. } => 0,
            Shape::Branch { left, right } => match (left, right) {
                (Some(l), Some(r)) => 1 + if l.height() >= r.height() {
                    l.height()
                } else {
                    r.height()
                },
                (Some(l), None) => 1 + l.height(),
                (None, Some(r)) => 1 + r.height(),
                (None, None) => 0,
            },
        }
    }

    /// Number of leaves below this node.
    pub open spec fn count(self) -> nat
        decreases self,
    {
        match self {
            Shape::Leaf { .. } => 1,
            Shape::Branch { left, right } => match (left, right) {
                (Some(l), Some(r)) => l.count() + r.count(),
                (Some(l), None) => l.count(),
                (None, Some(r)) => r.count(),
                (None, None) => 0,
            },
        }
    }

    /// A saturated subtree is a perfect binary tree: a leaf, or a branch
    /// whose children are both present and both saturated at the same
    /// height.
    pub open spec fn saturated(self) -> bool
        decreases self,
    {
        match self {
            Shape::Leaf { .. } => true,
            Shape::Branch { left, right } => match (left, right) {
                (Some(l), Some(r)) => l.saturated() && r.saturated() && l.height() == r.height(),
                _ => false,
            },
        }
    }

    /// The digests of the leaves below this node, left to right.
    pub open spec fn leaves(self) -> Seq<Seq<u8>>
        decreases self,
    {
        match self {
            Shape::Leaf { digest } => seq![digest],
            Shape::Branch { left, right } => match (left, right) {
                (Some(l), Some(r)) => l.leaves() + r.leaves(),
                (Some(l), None) => l.leaves(),
                (None, Some(r)) => r.leaves(),
                (None, None) => Seq::empty(),
            },
        }
    }

    /// The digest of this node under hasher `H`: a leaf's is the digest of
    /// its value; a branch's is the digest of its children's digests fed in
    /// order, a lone child's digest being fed twice.
    pub open spec fn digest<H: MerkleHasher>(self) -> Seq<u8>
        decreases self,
    {
        match self {
            Shape::Leaf { digest } => digest,
            Shape::Branch { left, right } => match (left, right) {
                (Some(l), Some(r)) => H::digest_of(l.digest::<H>() + r.digest::<H>()),
                (Some(l), None) => H::digest_of(l.digest::<H>() + l.digest::<H>()),
                (None, Some(r)) => H::digest_of(r.digest::<H>() + r.digest::<H>()),
                (None, None) => H::digest_of(Seq::empty()),
            },
        }
    }
}

/// Relies on Rc::clone: the result is a new handle to the same allocation,
/// so it equals the original.
#[verifier::external_body]
pub(crate) fn clone_child<V, S>(c: &Child<V, S>) -> (r: Child<V, S>) where
    V: DigestHash,
    S: BuildMerkleHasher,

    ensures
        r == c,
{
    Rc::clone(c)
}

/// A tree node: a leaf wrapping one value's digest, or a branch wrapping up
/// to two child nodes.
pub enum Node<V, S> where V: DigestHash, S: BuildMerkleHasher {
    Leaf(Leaf<V, S>),
    Branch(Branch<V, S>),
}

/// The model of an optional child.
pub open spec fn opt_shape<V, S>(c: Option<Child<V, S>>) -> Option<Box<Shape>> where
    V: DigestHash,
    S: BuildMerkleHasher,
{
    match c {
        Some(n) => Some(Box::new(n.shape())),
        None => None,
    }
}

impl<V, S> Node<V, S> where V: DigestHash, S: BuildMerkleHasher {
    /// The mathematical model of this node.
    pub closed spec fn shape(&self) -> Shape
        decreases self,
    {
        match self {
            Node::Leaf(leaf) => leaf.shape(),
            Node::Branch(b) => b.shape(),
        }
    }

    /// The digest this node cached at construction.
    pub closed spec fn stored(&self) -> Seq<u8> {
        match self {
            Node::Leaf(leaf) => leaf.stored(),
            Node::Branch(b) => b.stored(),
        }
    }

    /// Well-formed: every branch has at least one child, and every cached
    /// digest is the digest of its node's model.
    pub closed spec fn wf(&self) -> bool
        decreases self,
    {
        match self {
            Node::Leaf(leaf) => leaf.wf(),
            Node::Branch(b) => b.wf(),
        }
    }

    /// A well-formed node's cached digest is its model's digest.
    pub proof fn lemma_stored_digest(&self)
        requires
            self.wf(),
        ensures
            self.stored() == self.shape().digest::<S::Hasher>(),
    {
        match self {
            Node::Leaf(leaf) => {},
            Node::Branch(b) => {},
        }
    }

    /// Build a branch over the given children; at least one must be present.
    pub fn new_branch(left: Option<Child<V, S>>, right: Option<Child<V, S>>, hasher_builder: S) -> (node: Node<V, S>)
        requires
            left is Some || right is Some,
            (match left {
                Some(l) => l.wf(),
                None => true,
            }),
            (match right {
                Some(r) => r.wf(),
                None => true,
            }),
        ensures
            node.wf(),
            node.shape() == (Shape::Branch { left: opt_shape(left), right: opt_shape(right) }),
    {
        Node::Branch(Branch::new(left, right, hasher_builder))
    }

    /// Build a leaf for `value`.
    pub fn new_leaf(value: V, hasher_builder: S) -> (node: Node<V, S>)
        ensures
            node.wf(),
            node.shape() == (Shape::Leaf { digest: S::Hasher::digest_of(value.feed()) }),
    {
        Node::Leaf(Leaf::new(value, hasher_builder))
    }

    /// The digest cached at construction.
    pub fn hash_value(&self) -> (r: HashValue)
        ensures
            r@ == self.stored(),
            self.wf() ==> r@ == self.shape().digest::<S::Hasher>(),
    {
        match self {
            Node::Leaf(leaf) => leaf.hash_value(),
            Node::Branch(b) => b.hash_value(),
        }
    }

    /// The number of leaves below this node.
    pub fn len(&self) -> (r: usize)
        requires
            self.shape().count() <= usize::MAX,
        ensures
            r == self.shape().count(),
        decreases self,
    {
        match self {
            Node::Leaf(_) => 1,
            Node::Branch(b) => b.len(),
        }
    }

    /// The height of this node.
    pub fn height(&self) -> (r: usize)
        requires
            self.shape().height() <= usize::MAX,
        ensures
            r == self.shape().height(),
        decreases self,
    {
        match self {
            Node::Leaf(_) => 0,
            Node::Branch(b) => b.height(),
        }
    }

    /// Whether this node roots a saturated (perfect) subtree.
    pub fn is_final(&self) -> (r: bool)
        requires
            self.shape().height() <= usize::MAX,
        ensures
            r == self.shape().saturated(),
        decreases self,
    {
        match self {
            Node::Leaf(_) => true,
            Node::Branch(b) => b.is_final(),
        }
    }

    /// The left child, if this node is a branch that has one.
    pub fn left(&self) -> (r: &Option<Child<V, S>>)
        ensures
            (match r {
                Some(c) => self.shape() matches Shape::Branch { left: Some(ls), .. }
                    && c.shape() == *ls && (self.wf() ==> c.wf()),
                None => !(self.shape() matches Shape::Branch { left: Some(_), .. }),
            }),
    {
        match self {
            Node::Branch(b) => b.left(),
            _ => &None,
        }
    }

    /// The right child, if this node is a branch that has one.
    pub fn right(&self) -> (r: &Option<Child<V, S>>)
        ensures
            (match r {
                Some(c) => self.shape() matches Shape::Branch { right: Some(rs), .. }
                    && c.shape() == *rs && (self.wf() ==> c.wf()),
                None => !(self.shape() matches Shape::Branch { right: Some(_), .. }),
            }),
    {
        match self {
            Node::Branch(b) => b.right(),
            _ => &None,
        }
    }
}

/// A leaf node: one value together with the cached digest of its byte
/// representation.
pub struct Leaf<V, S> where V: DigestHash, S: BuildMerkleHasher {
    value: V,
    hasher_builder: S,
    hash: HashValue,
}

/// A branch node: up to two children (never zero) together with the cached
/// digest combining theirs.
pub struct Branch<V, S> where V: DigestHash, S: BuildMerkleHasher {
    left: Option<Child<V, S>>,
    right: Option<Child<V, S>>,
    hasher_builder: S,
    hash: HashValue,
}

impl<V, S> Leaf<V, S> where V: DigestHash, S: BuildMerkleHasher {
    /// The model of this leaf.
    pub closed spec fn shape(&self) -> Shape {
        Shape::Leaf { digest: self.hash@ }
    }

    /// The digest cached at construction.
    pub closed spec fn stored(&self) -> Seq<u8> {
        self.hash@
    }

    /// The cached digest is the digest of the value's byte representation.
    pub closed spec fn wf(&self) -> bool {
        self.hash@ == S::Hasher::digest_of(self.value.feed())
    }

    /// Build a leaf for `value`, computing its digest once.
    pub fn new(value: V, hasher_builder: S) -> (leaf: Leaf<V, S>)
        ensures
            leaf.wf(),
            leaf.shape() == (Shape::Leaf { digest: S::Hasher::digest_of(value.feed()) }),
    {
        let mut hasher = hasher_builder.build_hasher();
        value.hash(&mut hasher);
        let hash = hasher.finish_full();
        Leaf { value, hasher_builder, hash }
    }

    /// The cached digest.
    pub fn hash_value(&self) -> (r: HashValue)
        ensures
            r@ == self.shape().digest::<S::Hasher>(),
    {
        clone_digest(&self.hash)
    }

    /// The builder this leaf was constructed with.
    pub fn hasher_builder(&self) -> &S {
        &self.hasher_builder
    }
}

impl<V, S> Branch<V, S> where V: DigestHash, S: BuildMerkleHasher {
    /// The model of this branch.
    pub closed spec fn shape(&self) -> Shape
        decreases self,
    {
        Shape::Branch {
            left: match self.left {
                Some(l) => Some(Box::new(l.shape())),
                None => None,
            },
            right: match self.right {
                Some(r) => Some(Box::new(r.shape())),
                None => None,
            },
        }
    }

    /// The digest cached at construction.
    pub closed spec fn stored(&self) -> Seq<u8> {
        self.hash@
    }

    /// Well-formed: at least one child is present, both children are
    /// well-formed, and the cached digest combines theirs.
    pub closed spec fn wf(&self) -> bool
        decreases self,
    {
        &&& (self.left is Some || self.right is Some)
        &&& match self.left {
            Some(l) => l.wf(),
            None => true,
        }
        &&& match self.right {
            Some(r) => r.wf(),
            None => true,
        }
        &&& self.hash@ == self.shape().digest::<S::Hasher>()
    }

    /// Build a branch over the given children, computing its digest once:
    /// the hasher is fed the left child's digest then the right child's,
    /// and a lone child's digest twice.
    pub fn new(left: Option<Child<V, S>>, right: Option<Child<V, S>>, hasher_builder: S) -> (branch: Branch<V, S>)
        requires
            left is Some || right is Some,
            (match left {
                Some(l) => l.wf(),
                None => true,
            }),
            (match right {
                Some(r) => r.wf(),
                None => true,
            }),
        ensures
            branch.wf(),
            branch.shape() == (Shape::Branch { left: opt_shape(left), right: opt_shape(right) }),
    {
        let mut hasher = hasher_builder.build_hasher();
        match (&left, &right) {
            (Some(l), Some(r)) => {
                let lh = l.hash_value();
                let rh = r.hash_value();
                hasher.input(lh.as_slice());
                hasher.input(rh.as_slice());
            },
            (Some(l), None) => {
                let lh = l.hash_value();
                hasher.input(lh.as_slice());
                hasher.input(lh.as_slice());
            },
            (None, Some(r)) => {
                let rh = r.hash_value();
                hasher.input(rh.as_slice());
                hasher.input(rh.as_slice());
            },
            (None, None) => {},
        }
        let hash = hasher.finish_full();
        Branch { left, right, hasher_builder, hash }
    }

    /// The digest cached at construction.
    pub fn hash_value(&self) -> (r: HashValue)
        ensures
            r@ == self.stored(),
            self.wf() ==> r@ == self.shape().digest::<S::Hasher>(),
    {
        clone_digest(&self.hash)
    }

    /// The builder this branch was constructed with.
    pub fn hasher_builder(&self) -> &S {
        &self.hasher_builder
    }

    /// The number of leaves below this branch.
    pub fn len(&self) -> (r: usize)
        requires
            self.shape().count() <= usize::MAX,
        ensures
            r == self.shape().count(),
        decreases self,
    {
        match (&self.left, &self.right) {
            (Some(left), Some(right)) => left.len() + right.len(),
            (Some(left), None) => left.len(),
            (None, Some(right)) => right.len(),
            (None, None) => 0,
        }
    }

    /// The height of this branch: one above its tallest present child.
    pub fn height(&self) -> (r: usize)
        requires
            self.shape().height() <= usize::MAX,
        ensures
            r == self.shape().height(),
        decreases self,
    {
        match (&self.left, &self.right) {
            (Some(left), Some(right)) => bigger(left.height(), right.height()) + 1,
            (Some(left), None) => left.height() + 1,
            (None, Some(right)) => right.height() + 1,
            (None, None) => 0,
        }
    }

    /// Whether this branch roots a saturated (perfect) subtree: both
    /// children present and saturated at the same height.
    pub fn is_final(&self) -> (r: bool)
        requires
            self.shape().height() <= usize::MAX,
        ensures
            r == self.shape().saturated(),
        decreases self,
    {
        match (&self.left, &self.right) {
            (Some(left), Some(right)) => left.is_final() && right.is_final() && left.height()
                == right.height(),
            _ => false,
        }
    }

    /// The left child.
    pub fn left(&self) -> (r: &Option<Child<V, S>>)
        ensures
            (match r {
                Some(c) => self.shape() matches Shape::Branch { left: Some(ls), .. }
                    && c.shape() == *ls && (self.wf() ==> c.wf()),
                None => !(self.shape() matches Shape::Branch { left: Some(_), .. }),
            }),
    {
        &self.left
    }

    /// The right child.
    pub fn right(&self) -> (r: &Option<Child<V, S>>)
        ensures
            (match r {
                Some(c) => self.shape() matches Shape::Branch { right: Some(rs), .. }
                    && c.shape() == *rs && (self.wf() ==> c.wf()),
                None => !(self.shape() matches Shape::Branch { right: Some(_), .. }),
            }),
    {
        &self.right
    }
}

/// The larger of two numbers.
fn bigger(first: usize, second: usize) -> (r: usize)
    ensures
        r == (if first >= second {
            first
        } else {
            second
        }),
{
    if first >= second {
        first
    } else {
        second
    }
}

/// Whether two digests hold the same bytes.
pub(crate) fn digest_eq(a: &HashValue, b: &HashValue) -> (r: bool)
    ensures
        r == (a@ == b@),
{
    if a.len() != b.len() {
        return false;
    }
    let mut i: usize = 0;
    while i < a.len()
        invariant
            i <= a.len(),
            a@.len() == b@.len(),
            a@.take(i as int) == b@.take(i as int),
        decreases a.len() - i,
    {
        if a[i] != b[i] {
            return false;
        }
        proof {
            assert(a@.take(i + 1) =~= a@.take(i as int).push(a@[i as int]));
            assert(b@.take(i + 1) =~= b@.take(i as int).push(b@[i as int]));
        }
        i = i + 1;
    }
    proof {
        assert(a@.take(a@.len() as int) =~= a@);
        assert(b@.take(b@.len() as int) =~= b@);
        assert(a@ =~= b@);
    }
    true
}

/// Copy a digest, byte for byte.
pub(crate) fn clone_digest(d: &HashValue) -> (r: HashValue)
    ensures
        r@ == d@,
{
    let mut r: Vec<u8> = Vec::new();
    let mut i: usize = 0;
    while i < d.len()
        invariant
            i <= d.len(),
            r@ == d@.take(i as int),
        decreases d.len() - i,
    {
        r.push(d[i]);
        i = i + 1;
        proof {
            assert(r@ == d@.take(i as int));
        }
    }
    proof {
        assert(d@.take(d@.len() as int) == d@);
    }
    r
}

} // verus!
