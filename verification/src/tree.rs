//! The Merkle tree itself: a pending queue of already-built subtrees, an
//! optional current root, and the insertion, rebuild, recycling and proof
//! machinery.

use vstd::prelude::*;

use std::collections::VecDeque;
use std::rc::Rc;

use crate::digest::Digest;
use crate::digest::DigestHash;
use crate::hash::{BuildMerkleHasher, MerkleHasher};
use crate::node::{clone_child, clone_digest, digest_eq, Child, HashValue, Node, Shape};
use vstd::arithmetic::power2::{lemma2_to64, lemma_pow2_pos, lemma_pow2_strictly_increases, lemma_pow2_unfold, pow2};

verus! {

/// The ceiling of the base-two logarithm: the least `h` with `n <= pow2(h)`.
pub open spec fn clog2(n: nat) -> nat
    decreases n,
{
    if n <= 1 {
        0
    } else {
        1 + clog2(((n + 1) / 2) as nat)
    }
}

proof fn lemma_clog2_pow2(n: nat)
    requires
        n >= 1,
    ensures
        n <= pow2(clog2(n)),
        n >= 2 ==> pow2((clog2(n) - 1) as nat) < n,
    decreases n,
{
    if n >= 2 {
        let m = ((n + 1) / 2) as nat;
        lemma_clog2_pow2(m);
        lemma_pow2_unfold((clog2(n)) as nat);
        if m >= 2 {
            lemma_pow2_unfold((clog2(n) - 1) as nat);
        } else {
            lemma2_to64();
        }
    } else {
        lemma2_to64();
    }
}

proof fn lemma_clog2_mono(a: nat, b: nat)
    requires
        a <= b,
    ensures
        clog2(a) <= clog2(b),
    decreases b,
{
    if a >= 2 {
        lemma_clog2_mono(((a + 1) / 2) as nat, ((b + 1) / 2) as nat);
    }
}

/// `clog2` of anything a machine word can hold fits comfortably.
proof fn lemma_clog2_usize(n: nat)
    requires
        n <= usize::MAX,
    ensures
        clog2(n) <= 64,
{
    lemma2_to64();
    lemma_clog2_mono(n, (pow2(64)) as nat);
    lemma_clog2_pow2_exact(64);
}

proof fn lemma_clog2_pow2_exact(h: nat)
    ensures
        clog2(pow2(h)) == h,
    decreases h,
{
    if h == 0 {
        lemma2_to64();
    } else {
        lemma_clog2_pow2_exact((h - 1) as nat);
        lemma_pow2_unfold(h);
        lemma_pow2_pos((h - 1) as nat);
        assert((pow2(h) + 1) / 2 == pow2((h - 1) as nat));
    }
}

/// Compute `clog2(n)`.
fn ceil_log2(n: usize) -> (r: usize)
    ensures
        r == clog2(n as nat),
{
    let mut m: usize = n;
    let mut h: usize = 0;
    while m > 1
        invariant
            clog2(n as nat) == h + clog2(m as nat),
            h <= clog2(n as nat),
        decreases m,
    {
        proof {
            lemma_clog2_usize(n as nat);
            assert(clog2(m as nat) == 1 + clog2(((m + 1) / 2) as nat));
            assert((m - 1) / 2 + 1 == (m + 1) / 2);
        }
        m = (m - 1) / 2 + 1;
        h = h + 1;
    }
    h
}

/// The canonical tree over the leaf digests `l` at height `h`: leaves fill
/// from the left at full depth, and a level with no leaves left to place
/// is a branch with only a left child.  Meaningful for `1 <= l.len() <=
/// pow2(h)`.
pub open spec fn canon(l: Seq<Seq<u8>>, h: nat) -> Shape
    decreases h,
{
    if h == 0 {
        Shape::Leaf {
            digest: if l.len() >= 1 {
                l[0]
            } else {
                Seq::empty()
            },
        }
    } else if l.len() > pow2((h - 1) as nat) {
        Shape::Branch {
            left: Some(Box::new(canon(l.take(pow2((h - 1) as nat) as int), (h - 1) as nat))),
            right: Some(Box::new(canon(l.skip(pow2((h - 1) as nat) as int), (h - 1) as nat))),
        }
    } else {
        Shape::Branch { left: Some(Box::new(canon(l, (h - 1) as nat))), right: None }
    }
}

/// The leaf digests below each shape in `q`, concatenated in order.
pub open spec fn sleaves(q: Seq<Shape>) -> Seq<Seq<u8>>
    decreases q.len(),
{
    if q.len() == 0 {
        Seq::empty()
    } else {
        q[0].leaves() + sleaves(q.drop_first())
    }
}

/// The total leaf count of the shapes in `q`.
pub open spec fn scount(q: Seq<Shape>) -> nat
    decreases q.len(),
{
    if q.len() == 0 {
        0
    } else {
        q[0].count() + scount(q.drop_first())
    }
}

/// Every shape in `q` is saturated.
pub open spec fn all_saturated(q: Seq<Shape>) -> bool {
    forall|i: int| 0 <= i < q.len() ==> #[trigger] q[i].saturated()
}

/// Heights never increase from front to back.
pub open spec fn heights_non_increasing(q: Seq<Shape>) -> bool {
    forall|i: int, j: int|
        0 <= i <= j < q.len() ==> #[trigger] q[i].height() >= #[trigger] q[j].height()
}

/// Every height in `q` is at most `h`.
pub open spec fn heights_at_most(q: Seq<Shape>, h: nat) -> bool {
    forall|i: int| 0 <= i < q.len() ==> #[trigger] q[i].height() <= h
}

/// A shape has exactly as many leaf digests as it has leaves.
pub proof fn lemma_count_leaves(s: Shape)
    ensures
        s.leaves().len() == s.count(),
    decreases s,
{
    match s {
        Shape::Leaf { .. } => {},
        Shape::Branch { left, right } => {
            if let Some(l) = left {
                lemma_count_leaves(*l);
            }
            if let Some(r) = right {
                lemma_count_leaves(*r);
            }
        },
    }
}

/// A saturated shape is the canonical tree over its own leaf digests: a
/// perfect binary tree holding `pow2(height)` leaves.
pub proof fn lemma_sat_shape(s: Shape)
    requires
        s.saturated(),
    ensures
        s.count() == pow2(s.height()),
        s.leaves().len() == pow2(s.height()),
        s == canon(s.leaves(), s.height()),
    decreases s,
{
    lemma_count_leaves(s);
    match s {
        Shape::Leaf { digest } => {
            lemma2_to64();
            assert(s.leaves() == seq![digest]);
            assert(canon(s.leaves(), 0) == (Shape::Leaf { digest }));
        },
        Shape::Branch { left, right } => {
            let l = *left.unwrap();
            let r = *right.unwrap();
            lemma_sat_shape(l);
            lemma_sat_shape(r);
            lemma_count_leaves(l);
            lemma_count_leaves(r);
            let h = s.height();
            lemma_pow2_unfold(h);
            lemma_pow2_pos((h - 1) as nat);
            assert(h == 1 + l.height());
            assert(s.count() == l.count() + r.count());
            assert(s.leaves() == l.leaves() + r.leaves());
            assert(s.leaves().len() > pow2((h - 1) as nat));
            assert((l.leaves() + r.leaves()).take(pow2((h - 1) as nat) as int) =~= l.leaves());
            assert((l.leaves() + r.leaves()).skip(pow2((h - 1) as nat) as int) =~= r.leaves());
        },
    }
}

/// The canonical tree over `l` at height `h` has height exactly `h`, holds
/// exactly `l`, and is saturated exactly when `l` fills the height.
pub proof fn lemma_canon(l: Seq<Seq<u8>>, h: nat)
    requires
        1 <= l.len() <= pow2(h),
    ensures
        canon(l, h).height() == h,
        canon(l, h).leaves() == l,
        canon(l, h).count() == l.len(),
        canon(l, h).saturated() <==> l.len() == pow2(h),
    decreases h,
{
    lemma_count_leaves(canon(l, h));
    if h == 0 {
        lemma2_to64();
        assert(canon(l, h).leaves() =~= l);
    } else {
        let half = pow2((h - 1) as nat);
        lemma_pow2_unfold(h);
        lemma_pow2_pos((h - 1) as nat);
        if l.len() > half {
            lemma_canon(l.take(half as int), (h - 1) as nat);
            lemma_canon(l.skip(half as int), (h - 1) as nat);
            assert(l.take(half as int) + l.skip(half as int) =~= l);
        } else {
            lemma_canon(l, (h - 1) as nat);
        }
    }
}

/// `sleaves` and `scount` distribute over concatenation.
pub proof fn lemma_sleaves_concat(a: Seq<Shape>, b: Seq<Shape>)
    ensures
        sleaves(a + b) == sleaves(a) + sleaves(b),
        scount(a + b) == scount(a) + scount(b),
    decreases a.len(),
{
    if a.len() == 0 {
        assert(a + b =~= b);
        assert(sleaves(a) + sleaves(b) =~= sleaves(b));
    } else {
        assert((a + b).drop_first() =~= a.drop_first() + b);
        lemma_sleaves_concat(a.drop_first(), b);
        assert((a + b)[0] == a[0]);
        assert(sleaves(a + b) =~= sleaves(a) + sleaves(b));
    }
}

/// The total leaf count of a queue is the length of its leaf sequence.
pub proof fn lemma_scount_is_len(q: Seq<Shape>)
    ensures
        scount(q) == sleaves(q).len(),
    decreases q.len(),
{
    if q.len() > 0 {
        lemma_count_leaves(q[0]);
        lemma_scount_is_len(q.drop_first());
    }
}

/// A queue of one shape holds exactly that shape's leaves.
pub proof fn lemma_sleaves_single(s: Shape)
    ensures
        sleaves(seq![s]) == s.leaves(),
        scount(seq![s]) == s.count(),
{
    let q = seq![s];
    assert(q.len() == 1);
    assert(q[0] == s);
    assert(q.drop_first() =~= Seq::<Shape>::empty());
    assert(sleaves(q.drop_first()) == Seq::<Seq<u8>>::empty());
    assert(scount(q.drop_first()) == 0);
    assert(sleaves(q) == s.leaves() + Seq::<Seq<u8>>::empty());
    assert(s.leaves() + Seq::<Seq<u8>>::empty() =~= s.leaves());
}

/// `sleaves` and `scount` split at any index.
pub proof fn lemma_sleaves_split(q: Seq<Shape>, k: int)
    requires
        0 <= k <= q.len(),
    ensures
        sleaves(q) == sleaves(q.take(k)) + sleaves(q.skip(k)),
        scount(q) == scount(q.take(k)) + scount(q.skip(k)),
{
    assert(q.take(k) + q.skip(k) =~= q);
    lemma_sleaves_concat(q.take(k), q.skip(k));
}

/// One more element extends the prefix sums by that element's leaves.
pub proof fn lemma_sleaves_take_step(q: Seq<Shape>, i: int)
    requires
        0 <= i < q.len(),
    ensures
        sleaves(q.take(i + 1)) == sleaves(q.take(i)) + q[i].leaves(),
        scount(q.take(i + 1)) == scount(q.take(i)) + q[i].count(),
{
    assert(q.take(i + 1) =~= q.take(i) + seq![q[i]]);
    lemma_sleaves_concat(q.take(i), seq![q[i]]);
    lemma_sleaves_single(q[i]);
}

/// No element holds more leaves than the whole queue.
pub proof fn lemma_element_count_le(q: Seq<Shape>, i: int)
    requires
        0 <= i < q.len(),
    ensures
        q[i].count() <= scount(q),
{
    lemma_sleaves_split(q, i);
    assert(q.skip(i)[0] == q[i]);
    assert(scount(q.skip(i)) == q[i].count() + scount(q.skip(i).drop_first()));
}

/// A non-empty queue of saturated shapes holds at least one leaf.
pub proof fn lemma_scount_pos(q: Seq<Shape>)
    requires
        all_saturated(q),
        q.len() >= 1,
    ensures
        scount(q) >= 1,
{
    lemma_sat_shape(q[0]);
    lemma_pow2_pos(q[0].height());
}

/// The models of the nodes in `q`, in order.
pub open spec fn shapes<V, S>(q: Seq<Child<V, S>>) -> Seq<Shape> where
    V: DigestHash,
    S: BuildMerkleHasher,
{
    q.map_values(|n: Child<V, S>| n.shape())
}

/// Every node in `q` is well-formed.
pub open spec fn queue_wf<V, S>(q: Seq<Child<V, S>>) -> bool where
    V: DigestHash,
    S: BuildMerkleHasher,
{
    forall|i: int| 0 <= i < q.len() ==> (#[trigger] q[i]).wf()
}

/// One step of an inclusion proof: the digest of the sibling encountered
/// while ascending from the target toward the root, tagged with the side
/// the sibling occupies.
pub enum Proof {
    Left(Vec<u8>),
    Right(Vec<u8>),
}

/// Heights strictly decrease from front to back.
pub open spec fn heights_strictly_decreasing(q: Seq<Shape>) -> bool {
    forall|i: int, j: int|
        0 <= i < j < q.len() ==> #[trigger] q[i].height() > #[trigger] q[j].height()
}

/// The maximal saturated subtrees of `s`, left to right: a saturated
/// subtree stands whole, anything else is descended into.
pub open spec fn sdecomp(s: Shape) -> Seq<Shape>
    decreases s,
{
    if s.saturated() {
        seq![s]
    } else {
        match s {
            Shape::Leaf { .. } => seq![s],
            Shape::Branch { left, right } => (match left {
                Some(l) => sdecomp(*l),
                None => Seq::empty(),
            }) + (match right {
                Some(r) => sdecomp(*r),
                None => Seq::empty(),
            }),
        }
    }
}

/// Decomposing the canonical tree over `l` yields saturated subtrees of
/// strictly decreasing heights that together hold exactly `l`.
pub proof fn lemma_decomp_canon(l: Seq<Seq<u8>>, h: nat)
    requires
        1 <= l.len() <= pow2(h),
    ensures
        ({
            let d = sdecomp(canon(l, h));
            &&& d.len() >= 1
            &&& all_saturated(d)
            &&& sleaves(d) == l
            &&& heights_strictly_decreasing(d)
            &&& heights_at_most(d, h)
            &&& (l.len() < pow2(h) ==> forall|i: int|
                0 <= i < d.len() ==> (#[trigger] d[i]).height() < h)
        }),
    decreases h,
{
    let c = canon(l, h);
    let d = sdecomp(c);
    lemma_canon(l, h);
    if h == 0 {
        lemma2_to64();
        lemma_sat_shape(c);
        lemma_sleaves_single(c);
    } else if l.len() == pow2(h) {
        lemma_sat_shape(c);
        lemma_sleaves_single(c);
    } else {
        let half = pow2((h - 1) as nat);
        lemma_pow2_unfold(h);
        lemma_pow2_pos((h - 1) as nat);
        if l.len() > half {
            let lt = canon(l.take(half as int), (h - 1) as nat);
            let rt = canon(l.skip(half as int), (h - 1) as nat);
            lemma_canon(l.take(half as int), (h - 1) as nat);
            lemma_canon(l.skip(half as int), (h - 1) as nat);
            lemma_sat_shape(lt);
            lemma_decomp_canon(l.skip(half as int), (h - 1) as nat);
            assert(!c.saturated());
            assert(c == (Shape::Branch { left: Some(Box::new(lt)), right: Some(Box::new(rt)) }));
            assert(sdecomp(c) == sdecomp(lt) + sdecomp(rt));
            assert(lt.saturated());
            assert(sdecomp(lt) == seq![lt]);
            assert(d =~= seq![lt] + sdecomp(rt));
            lemma_sleaves_concat(seq![lt], sdecomp(rt));
            lemma_sleaves_single(lt);
            assert(sleaves(d) =~= l);
            assert forall|i: int, j: int| 0 <= i < j < d.len() implies (#[trigger] d[i]).height()
                > (#[trigger] d[j]).height() by {
                if i >= 1 {
                    assert(d[i] == sdecomp(rt)[i - 1]);
                    assert(d[j] == sdecomp(rt)[j - 1]);
                } else {
                    assert(d[0] == lt);
                    assert(d[j] == sdecomp(rt)[j - 1]);
                    assert(sdecomp(rt)[j - 1].height() < (h - 1) as nat);
                }
            }
        } else {
            let lt = canon(l, (h - 1) as nat);
            lemma_decomp_canon(l, (h - 1) as nat);
            assert(d =~= sdecomp(lt) + Seq::<Shape>::empty());
            assert(d =~= sdecomp(lt));
        }
    }
}

/// The digests the values in `items` produce under hasher `H`, in order.
pub open spec fn leaf_digests<V, H>(items: Seq<V>) -> Seq<Seq<u8>> where V: DigestHash, H: MerkleHasher {
    items.map_values(|v: V| H::digest_of(v.feed()))
}

/// Taking models commutes with taking, skipping and concatenating nodes.
pub proof fn lemma_shapes_split<V, S>(q: Seq<Child<V, S>>, k: int) where
    V: DigestHash,
    S: BuildMerkleHasher,

    requires
        0 <= k <= q.len(),
    ensures
        shapes(q.take(k)) == shapes(q).take(k),
        shapes(q.skip(k)) == shapes(q).skip(k),
{
    assert(shapes(q.take(k)) =~= shapes(q).take(k));
    assert(shapes(q.skip(k)) =~= shapes(q).skip(k));
}

/// The model of one proof step.
pub enum StepShape {
    Left(Seq<u8>),
    Right(Seq<u8>),
}

impl Proof {
    /// The model of this step.
    pub closed spec fn step(&self) -> StepShape {
        match self {
            Proof::Left(d) => StepShape::Left(d@),
            Proof::Right(d) => StepShape::Right(d@),
        }
    }
}

/// The models of the steps in `p`, in order.
pub open spec fn steps(p: Seq<Proof>) -> Seq<StepShape> {
    p.map_values(|x: Proof| x.step())
}

/// The path the proof search yields for target digest `d` in shape `s`:
/// the sibling steps from the located node up to the root of `s`, or
/// nothing when `d` is absent.  The left subtree is probed before the
/// right; the sibling of a lone child is that child's own digest.
pub open spec fn spath<H: MerkleHasher>(s: Shape, d: Seq<u8>) -> Option<Seq<StepShape>>
    decreases s,
{
    if s.digest::<H>() == d {
        Some(Seq::empty())
    } else {
        match s {
            Shape::Leaf { .. } => None,
            Shape::Branch { left, right } => match (left, right) {
                (Some(l), Some(r)) => if spath::<H>(*l, d) is Some {
                    Some(spath::<H>(*l, d).unwrap().push(StepShape::Right(r.digest::<H>())))
                } else if spath::<H>(*r, d) is Some {
                    Some(spath::<H>(*r, d).unwrap().push(StepShape::Left(l.digest::<H>())))
                } else {
                    None
                },
                (Some(l), None) => if spath::<H>(*l, d) is Some {
                    Some(spath::<H>(*l, d).unwrap().push(StepShape::Right(l.digest::<H>())))
                } else {
                    None
                },
                (None, Some(r)) => if spath::<H>(*r, d) is Some {
                    Some(spath::<H>(*r, d).unwrap().push(StepShape::Left(r.digest::<H>())))
                } else {
                    None
                },
                (None, None) => None,
            },
        }
    }
}

/// Whether some node of `s` (leaf or branch, `s` itself included) has
/// digest `d`.
pub open spec fn contains_digest<H: MerkleHasher>(s: Shape, d: Seq<u8>) -> bool
    decreases s,
{
    s.digest::<H>() == d || (match s {
        Shape::Leaf { .. } => false,
        Shape::Branch { left, right } => (match left {
            Some(l) => contains_digest::<H>(*l, d),
            None => false,
        }) || (match right {
            Some(r) => contains_digest::<H>(*r, d),
            None => false,
        }),
    })
}

/// Whether no branch of `s` has digest `d`: `d` can then occur in `s`
/// only as a leaf digest.
pub open spec fn no_branch_digest<H: MerkleHasher>(s: Shape, d: Seq<u8>) -> bool
    decreases s,
{
    match s {
        Shape::Leaf { .. } => true,
        Shape::Branch { left, right } => s.digest::<H>() != d && (match left {
            Some(l) => no_branch_digest::<H>(*l, d),
            None => true,
        }) && (match right {
            Some(r) => no_branch_digest::<H>(*r, d),
            None => true,
        }),
    }
}

/// Whether every leaf of `s` sits at depth exactly `h`.
pub open spec fn uniform_depth(s: Shape, h: nat) -> bool
    decreases s,
{
    match s {
        Shape::Leaf { .. } => h == 0,
        Shape::Branch { left, right } => h >= 1 && (match left {
            Some(l) => uniform_depth(*l, (h - 1) as nat),
            None => true,
        }) && (match right {
            Some(r) => uniform_depth(*r, (h - 1) as nat),
            None => true,
        }),
    }
}

/// Whether `sub` occurs as a subtree of `s` (including `s` itself).
pub open spec fn subshape(sub: Shape, s: Shape) -> bool
    decreases s,
{
    sub == s || (match s {
        Shape::Leaf { .. } => false,
        Shape::Branch { left, right } => (match left {
            Some(l) => subshape(sub, *l),
            None => false,
        }) || (match right {
            Some(r) => subshape(sub, *r),
            None => false,
        }),
    })
}

/// The search succeeds exactly on the digests the shape contains.
pub proof fn lemma_spath_finds<H: MerkleHasher>(s: Shape, d: Seq<u8>)
    ensures
        spath::<H>(s, d) is Some <==> contains_digest::<H>(s, d),
    decreases s,
{
    match s {
        Shape::Leaf { .. } => {},
        Shape::Branch { left, right } => {
            if let Some(l) = left {
                lemma_spath_finds::<H>(*l, d);
            }
            if let Some(r) = right {
                lemma_spath_finds::<H>(*r, d);
            }
        },
    }
}

/// Law: whenever the search finds the target, replaying the returned
/// path from the target digest reproduces the digest of the searched
/// shape.
pub proof fn lemma_spath_folds<H: MerkleHasher>(s: Shape, d: Seq<u8>)
    requires
        spath::<H>(s, d) is Some,
    ensures
        sfold::<H>(d, spath::<H>(s, d).unwrap()) == s.digest::<H>(),
    decreases s,
{
    if s.digest::<H>() == d {
    } else {
        match s {
            Shape::Leaf { .. } => {},
            Shape::Branch { left, right } => {
                match (left, right) {
                    (Some(l), Some(r)) => {
                        if spath::<H>(*l, d) is Some {
                            lemma_spath_folds::<H>(*l, d);
                            lemma_sfold_snoc::<H>(
                                d,
                                spath::<H>(*l, d).unwrap(),
                                StepShape::Right(r.digest::<H>()),
                            );
                        } else {
                            lemma_spath_folds::<H>(*r, d);
                            lemma_sfold_snoc::<H>(
                                d,
                                spath::<H>(*r, d).unwrap(),
                                StepShape::Left(l.digest::<H>()),
                            );
                        }
                    },
                    (Some(l), None) => {
                        lemma_spath_folds::<H>(*l, d);
                        lemma_sfold_snoc::<H>(
                            d,
                            spath::<H>(*l, d).unwrap(),
                            StepShape::Right(l.digest::<H>()),
                        );
                    },
                    (None, Some(r)) => {
                        lemma_spath_folds::<H>(*r, d);
                        lemma_sfold_snoc::<H>(
                            d,
                            spath::<H>(*r, d).unwrap(),
                            StepShape::Left(r.digest::<H>()),
                        );
                    },
                    (None, None) => {},
                }
            },
        }
    }
}

/// A digest among the leaves is contained in the shape.
pub proof fn lemma_leaf_contains<H: MerkleHasher>(s: Shape, d: Seq<u8>)
    requires
        s.leaves().contains(d),
    ensures
        contains_digest::<H>(s, d),
    decreases s,
{
    match s {
        Shape::Leaf { digest } => {},
        Shape::Branch { left, right } => {
            let i = choose|i: int| 0 <= i < s.leaves().len() && s.leaves()[i] == d;
            match (left, right) {
                (Some(l), Some(r)) => {
                    if i < l.leaves().len() {
                        assert(l.leaves()[i] == d);
                        lemma_leaf_contains::<H>(*l, d);
                    } else {
                        assert(r.leaves()[i - l.leaves().len()] == d);
                        lemma_leaf_contains::<H>(*r, d);
                    }
                },
                (Some(l), None) => {
                    assert(l.leaves()[i] == d);
                    lemma_leaf_contains::<H>(*l, d);
                },
                (None, Some(r)) => {
                    assert(r.leaves()[i] == d);
                    lemma_leaf_contains::<H>(*r, d);
                },
                (None, None) => {},
            }
        },
    }
}

/// A contained digest that no branch carries is a leaf digest.
pub proof fn lemma_contains_no_branch<H: MerkleHasher>(s: Shape, d: Seq<u8>)
    requires
        contains_digest::<H>(s, d),
        no_branch_digest::<H>(s, d),
    ensures
        s.leaves().contains(d),
    decreases s,
{
    match s {
        Shape::Leaf { digest } => {
            assert(s.leaves()[0] == d);
        },
        Shape::Branch { left, right } => {
            lemma_count_leaves(s);
            if left is Some && contains_digest::<H>(*left.unwrap(), d) {
                let l = *left.unwrap();
                lemma_contains_no_branch::<H>(l, d);
                let i = choose|i: int| 0 <= i < l.leaves().len() && l.leaves()[i] == d;
                assert(s.leaves()[i] == d);
            } else {
                let r = *right.unwrap();
                lemma_contains_no_branch::<H>(r, d);
                let i = choose|i: int| 0 <= i < r.leaves().len() && r.leaves()[i] == d;
                if left is Some {
                    assert(s.leaves()[i + left.unwrap().leaves().len()] == d);
                } else {
                    assert(s.leaves()[i] == d);
                }
            }
        },
    }
}

/// Law: in a tree whose leaves all sit at depth `h`, the search for a
/// leaf digest that no branch carries succeeds with exactly `h` steps.
pub proof fn lemma_spath_leaf_len<H: MerkleHasher>(s: Shape, d: Seq<u8>, h: nat)
    requires
        uniform_depth(s, h),
        s.leaves().contains(d),
        no_branch_digest::<H>(s, d),
    ensures
        spath::<H>(s, d) is Some,
        spath::<H>(s, d).unwrap().len() == h,
    decreases s,
{
    lemma_leaf_contains::<H>(s, d);
    lemma_spath_finds::<H>(s, d);
    match s {
        Shape::Leaf { digest } => {},
        Shape::Branch { left, right } => {
            assert(s.digest::<H>() != d);
            if left is Some && spath::<H>(*left.unwrap(), d) is Some {
                let l = *left.unwrap();
                lemma_spath_finds::<H>(l, d);
                lemma_contains_no_branch::<H>(l, d);
                lemma_spath_leaf_len::<H>(l, d, (h - 1) as nat);
            } else {
                let r = *right.unwrap();
                if left is Some {
                    let l = *left.unwrap();
                    lemma_spath_finds::<H>(l, d);
                    let i = choose|i: int| 0 <= i < s.leaves().len() && s.leaves()[i] == d;
                    assert(!l.leaves().contains(d)) by {
                        if l.leaves().contains(d) {
                            lemma_leaf_contains::<H>(l, d);
                        }
                    }
                    assert(r.leaves()[i - l.leaves().len()] == d) by {
                        if i < l.leaves().len() {
                            assert(l.leaves()[i] == d);
                        }
                    }
                    assert(r.leaves().contains(d));
                } else {
                    let i = choose|i: int| 0 <= i < s.leaves().len() && s.leaves()[i] == d;
                    assert(r.leaves()[i] == d);
                }
                lemma_spath_leaf_len::<H>(r, d, (h - 1) as nat);
            }
        },
    }
}

/// Every leaf of the canonical tree sits at full depth.
pub proof fn lemma_canon_uniform(l: Seq<Seq<u8>>, h: nat)
    requires
        1 <= l.len() <= pow2(h),
    ensures
        uniform_depth(canon(l, h), h),
    decreases h,
{
    if h == 0 {
    } else {
        let half = pow2((h - 1) as nat);
        lemma_pow2_unfold(h);
        lemma_pow2_pos((h - 1) as nat);
        if l.len() > half {
            lemma_canon_uniform(l.take(half as int), (h - 1) as nat);
            lemma_canon_uniform(l.skip(half as int), (h - 1) as nat);
        } else {
            lemma_canon_uniform(l, (h - 1) as nat);
        }
    }
}

/// A subtree's digest is contained in the whole.
pub proof fn lemma_subshape_contains<H: MerkleHasher>(sub: Shape, s: Shape)
    requires
        subshape(sub, s),
    ensures
        contains_digest::<H>(s, sub.digest::<H>()),
    decreases s,
{
    if sub == s {
    } else {
        match s {
            Shape::Leaf { .. } => {},
            Shape::Branch { left, right } => {
                if left is Some && subshape(sub, *left.unwrap()) {
                    lemma_subshape_contains::<H>(sub, *left.unwrap());
                } else {
                    lemma_subshape_contains::<H>(sub, *right.unwrap());
                }
            },
        }
    }
}

/// The canonical tree over a power-of-two prefix of `l` stands whole as a
/// subtree of the canonical tree over `l`.
pub proof fn lemma_canon_prefix(l: Seq<Seq<u8>>, k: nat, h: nat)
    requires
        pow2(k) <= l.len() <= pow2(h),
        k <= h,
    ensures
        subshape(canon(l.take(pow2(k) as int), k), canon(l, h)),
    decreases h,
{
    lemma_pow2_pos(k);
    if k == h {
        assert(l.take(pow2(k) as int) =~= l);
    } else {
        let half = pow2((h - 1) as nat);
        lemma_pow2_unfold(h);
        lemma_pow2_pos((h - 1) as nat);
        if pow2(k) == l.len() && k > 0 {
            lemma_pow2_strictly_increases(k, h);
        }
        if l.len() > half {
            assert(pow2(k) <= half) by {
                if k > h - 1 {
                    assert(k == h);
                }
                if k < h - 1 {
                    lemma_pow2_strictly_increases(k, (h - 1) as nat);
                }
            }
            lemma_canon_prefix(l.take(half as int), k, (h - 1) as nat);
            assert(l.take(half as int).take(pow2(k) as int) =~= l.take(pow2(k) as int));
        } else {
            lemma_canon_prefix(l, k, (h - 1) as nat);
        }
    }
}

/// Replay one proof step: combine the current digest with the recorded
/// sibling, the sibling on the side its tag names.
pub open spec fn sfold_step<H: MerkleHasher>(current: Seq<u8>, step: StepShape) -> Seq<u8> {
    match step {
        StepShape::Left(sib) => H::digest_of(sib + current),
        StepShape::Right(sib) => H::digest_of(current + sib),
    }
}

/// Replay a whole proof, step by step, from `start`.
pub open spec fn sfold<H: MerkleHasher>(start: Seq<u8>, p: Seq<StepShape>) -> Seq<u8>
    decreases p.len(),
{
    if p.len() == 0 {
        start
    } else {
        sfold::<H>(sfold_step::<H>(start, p[0]), p.drop_first())
    }
}

/// Replaying one more step folds it onto the result so far.
pub proof fn lemma_sfold_snoc<H: MerkleHasher>(start: Seq<u8>, p: Seq<StepShape>, x: StepShape)
    ensures
        sfold::<H>(start, p.push(x)) == sfold_step::<H>(sfold::<H>(start, p), x),
    decreases p.len(),
{
    if p.len() == 0 {
        assert(p.push(x)[0] == x);
        assert(p.push(x).drop_first() =~= Seq::<StepShape>::empty());
        assert(sfold::<H>(start, p.push(x)) == sfold::<H>(
            sfold_step::<H>(start, x),
            Seq::<StepShape>::empty(),
        ));
        assert(sfold::<H>(start, p) == start);
    } else {
        assert(p.push(x)[0] == p[0]);
        assert(p.push(x).drop_first() =~= p.drop_first().push(x));
        lemma_sfold_snoc::<H>(sfold_step::<H>(start, p[0]), p.drop_first(), x);
        assert(sfold::<H>(start, p.push(x)) == sfold::<H>(
            sfold_step::<H>(start, p[0]),
            p.drop_first().push(x),
        ));
        assert(sfold::<H>(start, p) == sfold::<H>(sfold_step::<H>(start, p[0]), p.drop_first()));
    }
}

/// Replay `proof_steps` against the digest `start`, reconstructing the
/// digest of the node the path ascends to.
pub fn fold_proof<S>(hasher_builder: &S, start: &HashValue, proof_steps: &Vec<Proof>) -> (r:
    HashValue) where S: BuildMerkleHasher
    ensures
        r@ == sfold::<S::Hasher>(start@, steps(proof_steps@)),
{
    let ghost p = steps(proof_steps@);
    let mut current = clone_digest(start);
    let mut i: usize = 0;
    while i < proof_steps.len()
        invariant
            i <= proof_steps@.len(),
            p == steps(proof_steps@),
            current@ == sfold::<S::Hasher>(start@, p.take(i as int)),
        decreases proof_steps@.len() - i,
    {
        proof {
            assert(p.take(i + 1) =~= p.take(i as int).push(p[i as int]));
            lemma_sfold_snoc::<S::Hasher>(start@, p.take(i as int), p[i as int]);
            assert(p[i as int] == proof_steps@[i as int].step());
        }
        let mut hasher = hasher_builder.build_hasher();
        match &proof_steps[i] {
            Proof::Left(sib) => {
                hasher.input(sib.as_slice());
                hasher.input(current.as_slice());
            },
            Proof::Right(sib) => {
                hasher.input(current.as_slice());
                hasher.input(sib.as_slice());
            },
        }
        current = hasher.finish_full();
        i = i + 1;
    }
    proof {
        assert(p.take(p.len() as int) =~= p);
    }
    current
}

/// Verify an inclusion proof: digest the claimed value, replay the proof
/// against it, and compare the result with the tree's root digest.
pub fn verify_proof<V, S>(
    hasher_builder: &S,
    value: &V,
    proof_steps: &Vec<Proof>,
    root_hash: &HashValue,
) -> (r: bool) where V: DigestHash, S: BuildMerkleHasher
    ensures
        r == (sfold::<S::Hasher>(S::Hasher::digest_of(value.feed()), steps(proof_steps@))
            == root_hash@),
{
    let mut hasher = hasher_builder.build_hasher();
    value.hash(&mut hasher);
    let start = hasher.finish_full();
    let folded = fold_proof(hasher_builder, &start, proof_steps);
    digest_eq(&folded, root_hash)
}

/// An incremental Merkle tree: a pending queue of already-built subtrees
/// in insertion order, and an optional current root into which the queue
/// is folded on every insertion.
pub struct MerkleTree<V, S> where V: DigestHash, S: BuildMerkleHasher {
    hasher_builder: S,
    nodes: VecDeque<Child<V, S>>,
    root: Option<Child<V, S>>,
}

impl<V, S> MerkleTree<V, S> where V: DigestHash, S: BuildMerkleHasher {
    /// The digests of all leaves ever inserted, in insertion order.
    pub closed spec fn leaves(&self) -> Seq<Seq<u8>> {
        sleaves(shapes(self.nodes@))
    }

    /// The model of the root, if any.
    pub closed spec fn root_shape(&self) -> Option<Shape> {
        match self.root {
            Some(r) => Some(r.shape()),
            None => None,
        }
    }

    /// The root digest, if any.
    pub closed spec fn root_digest(&self) -> Option<Seq<u8>> {
        match self.root {
            Some(r) => Some(r.stored()),
            None => None,
        }
    }

    /// The pending queue holds well-formed saturated subtrees whose
    /// heights never increase from front to back.
    spec fn queue_ok(&self) -> bool {
        &&& queue_wf(self.nodes@)
        &&& all_saturated(shapes(self.nodes@))
        &&& heights_non_increasing(shapes(self.nodes@))
        &&& self.leaves().len() <= usize::MAX
    }

    /// Well-formed: the queue is in order, and the root, when present, is
    /// the canonical tree over every leaf inserted so far.
    pub closed spec fn wf(&self) -> bool {
        &&& self.queue_ok()
        &&& match self.root {
            Some(r) => {
                &&& r.wf()
                &&& self.leaves().len() >= 1
                &&& r.shape() == canon(self.leaves(), clog2(self.leaves().len()))
            },
            None => self.nodes@.len() == 0,
        }
    }

    /// Build an empty tree around the given hasher builder.
    pub fn with_hasher(hasher_builder: S) -> (tree: MerkleTree<V, S>)
        ensures
            tree.wf(),
            tree.leaves() == Seq::<Seq<u8>>::empty(),
    {
        let tree = MerkleTree { hasher_builder, nodes: VecDeque::new(), root: None };
        proof {
            assert(shapes(tree.nodes@) =~= Seq::<Shape>::empty());
        }
        tree
    }

    /// Wrap `value` as a new leaf at the back of the queue.
    fn enqueue_leaf(&mut self, value: V)
        requires
            queue_wf(old(self).nodes@),
            all_saturated(shapes(old(self).nodes@)),
            heights_non_increasing(shapes(old(self).nodes@)),
            old(self).leaves().len() < usize::MAX,
        ensures
            final(self).hasher_builder == old(self).hasher_builder,
            final(self).root == old(self).root,
            queue_wf(final(self).nodes@),
            all_saturated(shapes(final(self).nodes@)),
            heights_non_increasing(shapes(final(self).nodes@)),
            final(self).leaves() == old(self).leaves() + seq![S::Hasher::digest_of(value.feed())],
    {
        let ghost q0 = self.nodes@;
        let ghost d = S::Hasher::digest_of(value.feed());
        let leaf = Rc::new(Node::new_leaf(value, self.hasher_builder.clone()));
        self.nodes.push_back(leaf);
        proof {
            let s = (Shape::Leaf { digest: d });
            assert(shapes(self.nodes@) =~= shapes(q0) + seq![s]);
            lemma_sleaves_concat(shapes(q0), seq![s]);
            lemma_sleaves_single(s);
            assert(s.leaves() =~= seq![d]);
            assert forall|i: int| 0 <= i < self.nodes@.len() implies (#[trigger] self.nodes@[i]).wf() by {
                if i < q0.len() {
                    assert(q0[i].wf());
                }
            }
            assert forall|i: int| 0 <= i < shapes(self.nodes@).len() implies (#[trigger] shapes(
                self.nodes@,
            )[i]).saturated() by {
                if i < q0.len() {
                    assert(shapes(q0)[i].saturated());
                }
            }
            assert forall|i: int, j: int| 0 <= i <= j < shapes(self.nodes@).len() implies (
            #[trigger] shapes(self.nodes@)[i]).height() >= (#[trigger] shapes(
                self.nodes@,
            )[j]).height() by {
                if j < q0.len() {
                    assert(shapes(q0)[i].height() >= shapes(q0)[j].height());
                } else if i < q0.len() {
                    assert(shapes(self.nodes@)[j] == s);
                } else {
                    assert(shapes(self.nodes@)[i] == s);
                    assert(shapes(self.nodes@)[j] == s);
                }
            }
        }
    }

    /// The root, when present, covers a prefix of the pending leaves.
    spec fn root_covers_prefix(&self) -> bool {
        match self.root {
            Some(r) => {
                &&& r.wf()
                &&& 1 <= r.shape().count() <= self.leaves().len()
                &&& r.shape() == canon(
                    self.leaves().take(r.shape().count() as int),
                    clog2(r.shape().count()),
                )
            },
            None => true,
        }
    }

    /// A well-formed root covers the prefix that is every pending leaf.
    proof fn lemma_wf_root_prefix(&self)
        requires
            self.wf(),
        ensures
            self.root_covers_prefix(),
    {
        if let Some(r) = &self.root {
            lemma_clog2_pow2(self.leaves().len());
            lemma_canon(self.leaves(), clog2(self.leaves().len()));
            assert(self.leaves().take(self.leaves().len() as int) =~= self.leaves());
        }
    }

    /// A root that covered a prefix of an older leaf sequence still covers
    /// a prefix after more leaves were appended.
    proof fn lemma_prefix_extend(&self, older: Seq<Seq<u8>>)
        requires
            (match self.root {
                Some(r) => {
                    &&& r.wf()
                    &&& 1 <= r.shape().count() <= older.len()
                    &&& r.shape() == canon(
                        older.take(r.shape().count() as int),
                        clog2(r.shape().count()),
                    )
                },
                None => true,
            }),
            older.is_prefix_of(self.leaves()),
        ensures
            self.root_covers_prefix(),
    {
        if let Some(r) = &self.root {
            let c = r.shape().count() as int;
            assert(older.take(c) =~= self.leaves().take(c));
        }
    }

    /// Wrap `value` as a new leaf, append it to the pending queue, and
    /// rebuild the tree around it.
    pub fn insert(&mut self, value: V)
        requires
            old(self).wf(),
            old(self).leaves().len() < usize::MAX,
        ensures
            final(self).wf(),
            final(self).leaves() == old(self).leaves() + seq![S::Hasher::digest_of(value.feed())],
    {
        proof {
            self.lemma_wf_root_prefix();
        }
        let ghost before = self.leaves();
        self.enqueue_leaf(value);
        proof {
            assert(before.is_prefix_of(self.leaves())) by {
                assert(self.leaves().take(before.len() as int) =~= before);
            }
            self.lemma_prefix_extend(before);
        }
        self.rebuild_tree();
    }

    /// Wrap every value in `items` as a new leaf, in order, append them
    /// all, and rebuild the tree once.
    pub fn insert_items(&mut self, items: Vec<V>)
        requires
            old(self).wf(),
            old(self).leaves().len() + items@.len() <= usize::MAX,
        ensures
            final(self).wf(),
            final(self).leaves() == old(self).leaves() + leaf_digests::<V, S::Hasher>(items@),
    {
        proof {
            self.lemma_wf_root_prefix();
        }
        let ghost before = self.leaves();
        let ghost all = leaf_digests::<V, S::Hasher>(items@);
        let mut items = items;
        let ghost mut done: int = 0;
        while items.len() > 0
            invariant
                queue_wf(self.nodes@),
                all_saturated(shapes(self.nodes@)),
                heights_non_increasing(shapes(self.nodes@)),
                self.hasher_builder == old(self).hasher_builder,
                self.root == old(self).root,
                old(self).root is Some ==> old(self).root_covers_prefix(),
                before == old(self).leaves(),
                0 <= done <= all.len(),
                done + items@.len() == all.len(),
                leaf_digests::<V, S::Hasher>(items@) == all.skip(done),
                self.leaves() == before + all.take(done),
                before.len() + all.len() <= usize::MAX,
            decreases items@.len(),
        {
            let ghost items0 = items@;
            let item = items.remove(0);
            proof {
                assert(leaf_digests::<V, S::Hasher>(items@) =~= leaf_digests::<V, S::Hasher>(
                    items0,
                ).drop_first());
                assert(leaf_digests::<V, S::Hasher>(items0).drop_first() =~= all.skip(done + 1));
                assert(item == items0[0]);
                assert(leaf_digests::<V, S::Hasher>(items0)[0] == S::Hasher::digest_of(
                    items0[0].feed(),
                ));
                assert(all.skip(done)[0] == all[done]);
                assert(S::Hasher::digest_of(item.feed()) == all[done]);
            }
            self.enqueue_leaf(item);
            proof {
                let step = seq![S::Hasher::digest_of(item.feed())];
                assert(all.take(done + 1) =~= all.take(done) + seq![all[done]]);
                assert((before + all.take(done)) + step =~= before + all.take(done + 1));
                done = done + 1;
            }
        }
        proof {
            assert(all.take(done) =~= all);
            assert(before.is_prefix_of(self.leaves())) by {
                assert(self.leaves().take(before.len() as int) =~= before);
            }
            if self.root is Some {
                self.lemma_prefix_extend(before);
            }
        }
        self.rebuild_tree();
    }

    /// The cached digest of the root, or nothing if the tree is empty.
    pub fn root_hash(&self) -> (r: Option<HashValue>)
        requires
            self.wf(),
        ensures
            (match r {
                Some(d) => self.leaves().len() >= 1 && d@ == canon(
                    self.leaves(),
                    clog2(self.leaves().len()),
                ).digest::<S::Hasher>(),
                None => self.leaves().len() == 0,
            }),
    {
        match &self.root {
            Some(root) => Some(root.hash_value()),
            None => None,
        }
    }

    /// The root node, or nothing if the tree is empty.
    pub fn root(&self) -> (r: &Option<Child<V, S>>)
        ensures
            (match r {
                Some(n) => self.root_shape() == Some(n.shape()) && (self.wf() ==> n.wf()
                    && n.shape() == canon(self.leaves(), clog2(self.leaves().len()))),
                None => self.root_shape() is None && (self.wf() ==> self.leaves().len() == 0),
            }),
    {
        proof {
            if self.root is None && self.wf() {
                assert(self.nodes@.len() == 0);
                assert(shapes(self.nodes@) =~= Seq::<Shape>::empty());
            }
        }
        &self.root
    }

    /// The height of the tree: `clog2` of the leaf count, or zero when the
    /// tree is empty or holds a single leaf.
    pub fn height(&self) -> (r: usize)
        requires
            self.wf(),
        ensures
            r == (if self.leaves().len() == 0 {
                0nat
            } else {
                clog2(self.leaves().len())
            }),
    {
        match &self.root {
            Some(root) => {
                proof {
                    lemma_clog2_usize(self.leaves().len());
                    lemma_clog2_pow2(self.leaves().len());
                    lemma_canon(self.leaves(), clog2(self.leaves().len()));
                }
                root.height()
            },
            None => {
                proof {
                    if self.leaves().len() != 0 {
                        assert(self.nodes@.len() == 0);
                        assert(shapes(self.nodes@) =~= Seq::<Shape>::empty());
                    }
                }
                0
            },
        }
    }

    /// The number of leaves in the tree, or nothing if the tree is empty.
    pub fn leaf_count(&self) -> (r: Option<usize>)
        requires
            self.wf(),
        ensures
            (match r {
                Some(c) => self.leaves().len() >= 1 && c == self.leaves().len(),
                None => self.leaves().len() == 0,
            }),
    {
        match &self.root {
            Some(root) => {
                proof {
                    lemma_clog2_usize(self.leaves().len());
                    lemma_clog2_pow2(self.leaves().len());
                    lemma_canon(self.leaves(), clog2(self.leaves().len()));
                }
                Some(root.len())
            },
            None => {
                proof {
                    assert(shapes(self.nodes@) =~= Seq::<Shape>::empty());
                }
                None
            },
        }
    }

    /// A fresh handle to the hasher builder this tree was built with.
    pub fn hasher_builder(&self) -> S {
        self.hasher_builder.clone()
    }

    /// The inclusion path for `value`'s digest: the sibling steps from its
    /// leaf up to the root, in that order, or an empty sequence when the
    /// digest is absent or the tree is empty.  A single-leaf tree also has
    /// a legitimate zero-step proof: callers distinguish the two by
    /// checking `leaf_count`.
    pub fn value_proof(&self, value: &V) -> (r: Vec<Proof>)
        requires
            self.wf(),
        ensures
            (match self.root_shape() {
                Some(s) => (match spath::<S::Hasher>(s, S::Hasher::digest_of(value.feed())) {
                    Some(p) => steps(r@) == p,
                    None => r@.len() == 0,
                }),
                None => r@.len() == 0,
            }),
    {
        match &self.root {
            Some(root) => {
                let mut hasher = self.hasher_builder.build_hasher();
                value.hash(&mut hasher);
                let target = hasher.finish_full();
                match self.data_proof(&target, root) {
                    Some(p) => p,
                    None => {
                        proof {
                            assert(steps(Seq::<Proof>::empty()) =~= Seq::<StepShape>::empty());
                        }
                        Vec::new()
                    },
                }
            },
            None => Vec::new(),
        }
    }

    /// The inclusion path for another tree's root digest: proves that the
    /// whole subtree is included, or returns an empty sequence when it is
    /// absent or either tree is empty.
    pub fn tree_proof(&self, tree: MerkleTree<V, S>) -> (r: Vec<Proof>)
        requires
            self.wf(),
        ensures
            (match (self.root_shape(), tree.root_digest()) {
                (Some(s), Some(d)) => (match spath::<S::Hasher>(s, d) {
                    Some(p) => steps(r@) == p,
                    None => r@.len() == 0,
                }),
                _ => r@.len() == 0,
            }),
    {
        match (&tree.root, &self.root) {
            (Some(target_root), Some(root)) => {
                let target = target_root.hash_value();
                match self.data_proof(&target, root) {
                    Some(p) => p,
                    None => {
                        proof {
                            assert(steps(Seq::<Proof>::empty()) =~= Seq::<StepShape>::empty());
                        }
                        Vec::new()
                    },
                }
            },
            _ => Vec::new(),
        }
    }

    /// Search `node` for the subtree whose digest is `target`, probing the
    /// left child before the right, and collect the sibling steps from
    /// that subtree back up to `node`.
    fn data_proof(&self, target: &HashValue, node: &Child<V, S>) -> (r: Option<Vec<Proof>>)
        requires
            node.wf(),
        ensures
            (match r {
                Some(p) => spath::<S::Hasher>(node.shape(), target@) == Some(steps(p@)),
                None => spath::<S::Hasher>(node.shape(), target@) is None,
            }),
        decreases node.shape().height(),
    {
        let node_hash = node.hash_value();
        if digest_eq(&node_hash, target) {
            proof {
                assert(steps(Seq::<Proof>::empty()) =~= Seq::<StepShape>::empty());
            }
            return Some(Vec::new());
        }
        match (node.left(), node.right()) {
            (Some(left), Some(right)) => {
                let probe = self.data_proof(target, left);
                match probe {
                    Some(mut path) => {
                        let ghost sub = path@;
                        path.push(Proof::Right(right.hash_value()));
                        proof {
                            assert(steps(path@) =~= steps(sub).push(path@.last().step()));
                        }
                        Some(path)
                    },
                    None => {
                        let probe = self.data_proof(target, right);
                        match probe {
                            Some(mut path) => {
                                let ghost sub = path@;
                                path.push(Proof::Left(left.hash_value()));
                                proof {
                                    assert(steps(path@) =~= steps(sub).push(path@.last().step()));
                                }
                                Some(path)
                            },
                            None => None,
                        }
                    },
                }
            },
            (Some(left), None) => {
                let probe = self.data_proof(target, left);
                match probe {
                    Some(mut path) => {
                        let ghost sub = path@;
                        path.push(Proof::Right(left.hash_value()));
                        proof {
                            assert(steps(path@) =~= steps(sub).push(path@.last().step()));
                        }
                        Some(path)
                    },
                    None => None,
                }
            },
            (None, Some(right)) => {
                let probe = self.data_proof(target, right);
                match probe {
                    Some(mut path) => {
                        let ghost sub = path@;
                        path.push(Proof::Left(right.hash_value()));
                        proof {
                            assert(steps(path@) =~= steps(sub).push(path@.last().step()));
                        }
                        Some(path)
                    },
                    None => None,
                }
            },
            (None, None) => None,
        }
    }

    /// Consume subtrees from the front of the queue and fold them into one
    /// node of the given height: a front node already at that height is
    /// reused unchanged, anything lower is combined under a fresh branch.
    /// Consumption is greedy: if anything is left in the queue, the built
    /// node is full.
    fn build_tree(&mut self, height: usize) -> (r: Option<Child<V, S>>)
        requires
            queue_wf(old(self).nodes@),
            all_saturated(shapes(old(self).nodes@)),
            heights_non_increasing(shapes(old(self).nodes@)),
            heights_at_most(shapes(old(self).nodes@), height as nat),
        ensures
            final(self).hasher_builder == old(self).hasher_builder,
            final(self).root == old(self).root,
            final(self).nodes@.len() <= old(self).nodes@.len(),
            final(self).nodes@ == old(self).nodes@.skip(
                old(self).nodes@.len() - final(self).nodes@.len(),
            ),
            (r is Some) <==> old(self).nodes@.len() > 0,
            (match r {
                Some(n) => {
                    let consumed = shapes(
                        old(self).nodes@.take(old(self).nodes@.len() - final(self).nodes@.len()),
                    );
                    &&& n.wf()
                    &&& 1 <= scount(consumed) <= pow2(height as nat)
                    &&& n.shape() == canon(sleaves(consumed), height as nat)
                    &&& (final(self).nodes@.len() > 0 ==> scount(consumed) == pow2(height as nat))
                },
                None => true,
            }),
        decreases height,
    {
        let ghost q0 = self.nodes@;
        if self.nodes.len() == 0 {
            proof {
                assert(q0.skip(0) =~= q0);
            }
            return None;
        }
        let front_height = self.nodes[0].height();
        if front_height == height {
            let popped = self.nodes.pop_front();
            match popped {
                Some(n) => {
                    proof {
                        assert(self.nodes@ =~= q0.skip(1));
                        assert(q0[0].wf());
                        assert(shapes(q0)[0] == q0[0].shape());
                        lemma_sat_shape(q0[0].shape());
                        assert(shapes(q0.take(1)) =~= seq![q0[0].shape()]);
                        lemma_sleaves_single(q0[0].shape());
                        lemma_pow2_pos(height as nat);
                    }
                    Some(n)
                },
                None => {
                    proof {
                        assert(false);
                    }
                    None
                },
            }
        } else {
            proof {
                assert(shapes(q0)[0] == q0[0].shape());
                assert(shapes(q0)[0].height() < height);
                assert forall|i: int| 0 <= i < q0.len() implies #[trigger] shapes(q0)[i].height()
                    <= (height - 1) as nat by {
                    assert(shapes(q0)[0].height() >= shapes(q0)[i].height());
                }
            }
            let left = self.build_tree(height - 1);
            let ghost mid = self.nodes@;
            let ghost k1 = q0.len() - mid.len();
            proof {
                lemma_shapes_split(q0, k1 as int);
                assert forall|i: int| 0 <= i < mid.len() implies (#[trigger] mid[i]).wf() by {
                    assert(q0[i + k1].wf());
                }
                assert forall|i: int| 0 <= i < mid.len() implies (#[trigger] shapes(mid)[i]).saturated()
                    && shapes(mid)[i].height() <= (height - 1) as nat by {
                    assert(shapes(mid)[i] == shapes(q0)[i + k1]);
                    assert(shapes(q0)[i + k1].saturated());
                    assert(shapes(q0)[i + k1].height() <= (height - 1) as nat);
                }
                assert forall|i: int, j: int| 0 <= i <= j < mid.len() implies (#[trigger] shapes(
                    mid,
                )[i]).height() >= (#[trigger] shapes(mid)[j]).height() by {
                    assert(shapes(mid)[i] == shapes(q0)[i + k1]);
                    assert(shapes(mid)[j] == shapes(q0)[j + k1]);
                    assert(shapes(q0)[i + k1].height() >= shapes(q0)[j + k1].height());
                }
            }
            let right = self.build_tree(height - 1);
            let ghost fin = self.nodes@;
            let ghost k2 = mid.len() - fin.len();
            proof {
                lemma_pow2_unfold(height as nat);
                lemma_pow2_pos((height - 1) as nat);
                assert(q0.skip(k1 as int).skip(k2 as int) =~= q0.skip((k1 + k2) as int));
                assert(q0.take((k1 + k2) as int) =~= q0.take(k1 as int) + q0.skip(k1 as int).take(
                    k2 as int,
                ));
                assert(shapes(q0.take(k1 as int) + q0.skip(k1 as int).take(k2 as int)) =~= shapes(
                    q0.take(k1 as int),
                ) + shapes(q0.skip(k1 as int).take(k2 as int)));
                lemma_sleaves_concat(
                    shapes(q0.take(k1 as int)),
                    shapes(q0.skip(k1 as int).take(k2 as int)),
                );
                lemma_scount_is_len(shapes(q0.take(k1 as int)));
                lemma_scount_is_len(shapes(q0.skip(k1 as int).take(k2 as int)));
            }
            let node = Node::new_branch(left, right, self.hasher_builder.clone());
            proof {
                let l1 = sleaves(shapes(q0.take(k1 as int)));
                let l2 = sleaves(shapes(q0.skip(k1 as int).take(k2 as int)));
                let whole = sleaves(shapes(q0.take((k1 + k2) as int)));
                if k2 == 0 {
                    assert(mid.len() == 0 || scount(shapes(q0.take(k1 as int))) == pow2(
                        (height - 1) as nat,
                    ));
                    assert(whole =~= l1);
                } else {
                    assert(scount(shapes(q0.take(k1 as int))) == pow2((height - 1) as nat));
                    assert(whole == l1 + l2);
                    assert(whole.len() > pow2((height - 1) as nat));
                    assert(whole.take(pow2((height - 1) as nat) as int) =~= l1);
                    assert(whole.skip(pow2((height - 1) as nat) as int) =~= l2);
                }
            }
            Some(Rc::new(node))
        }
    }

    /// Refill the queue with the maximal saturated subtrees of `root`: a
    /// saturated subtree is pushed whole, anything else is descended into.
    fn recycle(&mut self, root: &Child<V, S>)
        requires
            root.wf(),
            root.shape().height() <= usize::MAX,
        ensures
            final(self).hasher_builder == old(self).hasher_builder,
            final(self).root == old(self).root,
            shapes(final(self).nodes@) == shapes(old(self).nodes@) + sdecomp(root.shape()),
            queue_wf(old(self).nodes@) ==> queue_wf(final(self).nodes@),
        decreases root.shape().height(),
    {
        let ghost q0 = self.nodes@;
        if root.is_final() {
            self.nodes.push_back(clone_child(root));
            proof {
                assert(shapes(self.nodes@) =~= shapes(q0) + seq![root.shape()]);
                assert forall|i: int|
                    queue_wf(q0) && 0 <= i < self.nodes@.len() implies (#[trigger] self.nodes@[i]).wf() by {
                    if i < q0.len() {
                        assert(q0[i].wf());
                    }
                }
            }
        } else {
            let ghost lshape: Seq<Shape> = Seq::empty();
            let ghost rshape: Seq<Shape> = Seq::empty();
            if let Some(left) = root.left() {
                self.recycle(left);
                proof {
                    lshape = sdecomp(left.shape());
                }
            }
            let ghost mid = self.nodes@;
            if let Some(right) = root.right() {
                self.recycle(right);
                proof {
                    rshape = sdecomp(right.shape());
                }
            }
            proof {
                assert(shapes(mid) == shapes(q0) + lshape);
                assert(shapes(self.nodes@) == shapes(mid) + rshape);
                assert(root.shape() matches Shape::Branch { .. });
                assert(sdecomp(root.shape()) == lshape + rshape);
                assert((shapes(q0) + lshape) + rshape =~= shapes(q0) + (lshape + rshape));
            }
        }
    }

    /// The total number of leaves across the subtrees in the queue.
    fn nodes_leaf_count(&self) -> (r: usize)
        requires
            queue_wf(self.nodes@),
            scount(shapes(self.nodes@)) <= usize::MAX,
        ensures
            r == scount(shapes(self.nodes@)),
    {
        let ghost q = shapes(self.nodes@);
        let mut acc: usize = 0;
        let mut i: usize = 0;
        while i < self.nodes.len()
            invariant
                queue_wf(self.nodes@),
                scount(q) <= usize::MAX,
                q == shapes(self.nodes@),
                i <= self.nodes@.len(),
                acc == scount(q.take(i as int)),
            decreases self.nodes@.len() - i,
        {
            proof {
                lemma_sleaves_take_step(q, i as int);
                lemma_sleaves_split(q, i + 1);
                assert(q[i as int] == self.nodes@[i as int].shape());
            }
            let c = self.nodes[i].len();
            acc = acc + c;
            i = i + 1;
        }
        proof {
            assert(q.take(self.nodes@.len() as int) =~= q);
        }
        acc
    }

    /// Fold the queue into a fresh root: clear the root when the queue is
    /// empty, do nothing when the root already accounts for every pending
    /// leaf, and otherwise build a new root at height `clog2(total)` and
    /// refill the queue with its saturated subtrees.
    fn rebuild_tree(&mut self)
        requires
            queue_wf(old(self).nodes@),
            all_saturated(shapes(old(self).nodes@)),
            heights_non_increasing(shapes(old(self).nodes@)),
            old(self).leaves().len() <= usize::MAX,
            (match old(self).root {
                Some(r) => {
                    &&& r.wf()
                    &&& 1 <= r.shape().count() <= old(self).leaves().len()
                    &&& r.shape() == canon(
                        old(self).leaves().take(r.shape().count() as int),
                        clog2(r.shape().count()),
                    )
                },
                None => true,
            }),
        ensures
            final(self).wf(),
            final(self).leaves() == old(self).leaves(),
            final(self).hasher_builder == old(self).hasher_builder,
    {
        let ghost q0 = self.nodes@;
        proof {
            lemma_scount_is_len(shapes(q0));
        }
        let nodes_len = self.nodes_leaf_count();
        if self.nodes.len() == 0 {
            self.root = None;
        } else {
            let skip_build = match &self.root {
                Some(node) => {
                    proof {
                        if let Some(r) = &self.root {
                            lemma_clog2_pow2(r.shape().count());
                            lemma_clog2_usize(r.shape().count());
                            lemma_canon(
                                self.leaves().take(r.shape().count() as int),
                                clog2(r.shape().count()),
                            );
                        }
                    }
                    node.len() >= nodes_len
                },
                None => false,
            };
            if !skip_build {
                proof {
                    lemma_scount_pos(shapes(q0));
                    lemma_clog2_pow2(nodes_len as nat);
                    lemma_clog2_usize(nodes_len as nat);
                    assert forall|i: int| 0 <= i < shapes(q0).len() implies (#[trigger] shapes(
                        q0,
                    )[i]).height() <= clog2(nodes_len as nat) by {
                        lemma_element_count_le(shapes(q0), i);
                        lemma_sat_shape(shapes(q0)[i]);
                        if shapes(q0)[i].height() > clog2(nodes_len as nat) {
                            lemma_pow2_strictly_increases(
                                clog2(nodes_len as nat),
                                shapes(q0)[i].height(),
                            );
                        }
                    }
                }
                let target = ceil_log2(nodes_len);
                let root = self.build_tree(target);
                let ghost fin = self.nodes@;
                let ghost k = q0.len() - fin.len();
                proof {
                    lemma_shapes_split(q0, k as int);
                    lemma_sleaves_split(shapes(q0), k as int);
                    if fin.len() > 0 {
                        assert forall|i: int| 0 <= i < shapes(fin).len() implies (#[trigger] shapes(
                            fin,
                        )[i]).saturated() by {
                            assert(shapes(fin)[i] == shapes(q0)[i + k]);
                            assert(shapes(q0)[i + k].saturated());
                        }
                        lemma_scount_pos(shapes(fin));
                        assert(false);
                    }
                    assert(q0.take(k as int) =~= q0);
                    assert(fin =~= Seq::<Child<V, S>>::empty());
                }
                self.nodes = VecDeque::new();
                proof {
                    let total = self.leaves().len();
                    if let Some(n) = &root {
                        lemma_canon(sleaves(shapes(q0)), target as nat);
                    }
                    assert(shapes(self.nodes@) =~= Seq::<Shape>::empty());
                }
                if let Some(ref unwrapped_root) = root {
                    self.recycle(unwrapped_root);
                }
                self.root = root;
                proof {
                    if let Some(n) = &self.root {
                        let l = sleaves(shapes(q0));
                        let d = sdecomp(n.shape());
                        lemma_decomp_canon(l, target as nat);
                        assert(shapes(self.nodes@) == Seq::<Shape>::empty() + d);
                        assert(Seq::<Shape>::empty() + d =~= d);
                        assert(self.leaves() == sleaves(d));
                        assert forall|i: int, j: int| 0 <= i <= j < d.len() implies (
                        #[trigger] d[i]).height() >= (#[trigger] d[j]).height() by {
                            if i < j {
                                assert(d[i].height() > d[j].height());
                            }
                        }
                        assert(self.wf());
                    }
                }
            } else {
                proof {
                    if let Some(r) = &self.root {
                        assert(r.shape().count() == self.leaves().len());
                        assert(self.leaves().take(self.leaves().len() as int) =~= self.leaves());
                    }
                }
            }
        }
    }
}

/// Law: `clog2` is the ceiling of the base-two logarithm — the least `h`
/// with `n <= pow2(h)` — and in particular `clog2(1) == 0`.
pub proof fn lemma_clog2_is_ceil(n: nat)
    requires
        n >= 1,
    ensures
        n <= pow2(clog2(n)),
        n >= 2 ==> pow2((clog2(n) - 1) as nat) < n,
        clog2(1) == 0,
{
    lemma_clog2_pow2(n);
}

/// Law: the root digest is a function of the leaf sequence alone — two
/// well-formed trees holding the same leaf digests in the same order have
/// the same root digest, however their insertions were batched.
pub proof fn lemma_root_determined<V, S>(t1: &MerkleTree<V, S>, t2: &MerkleTree<V, S>) where
    V: DigestHash,
    S: BuildMerkleHasher,

    requires
        t1.wf(),
        t2.wf(),
        t1.leaves() == t2.leaves(),
    ensures
        t1.root_digest() == t2.root_digest(),
{
    if let Some(r1) = &t1.root {
        r1.lemma_stored_digest();
    } else {
        assert(shapes(t1.nodes@) =~= Seq::<Shape>::empty());
    }
    if let Some(r2) = &t2.root {
        r2.lemma_stored_digest();
    } else {
        assert(shapes(t2.nodes@) =~= Seq::<Shape>::empty());
    }
}

/// Law: for every leaf digest present in a well-formed tree, provided no
/// branch digest collides with it, the search path holds exactly
/// `height()` steps, and replaying it from the leaf digest reproduces
/// the root digest.
pub proof fn lemma_value_proof_valid<V, S>(t: &MerkleTree<V, S>, d: Seq<u8>) where
    V: DigestHash,
    S: BuildMerkleHasher,

    requires
        t.wf(),
        t.leaves().contains(d),
        no_branch_digest::<S::Hasher>(canon(t.leaves(), clog2(t.leaves().len())), d),
    ensures
        ({
            let s = canon(t.leaves(), clog2(t.leaves().len()));
            let p = spath::<S::Hasher>(s, d);
            &&& t.root_shape() == Some(s)
            &&& p is Some
            &&& p.unwrap().len() == clog2(t.leaves().len())
            &&& sfold::<S::Hasher>(d, p.unwrap()) == s.digest::<S::Hasher>()
            &&& t.root_digest() == Some(s.digest::<S::Hasher>())
        }),
{
    let n = t.leaves().len();
    if let Some(r) = &t.root {
        r.lemma_stored_digest();
        lemma_clog2_pow2(n);
        lemma_canon(t.leaves(), clog2(n));
        lemma_canon_uniform(t.leaves(), clog2(n));
        lemma_spath_leaf_len::<S::Hasher>(canon(t.leaves(), clog2(n)), d, clog2(n));
        lemma_spath_folds::<S::Hasher>(canon(t.leaves(), clog2(n)), d);
    } else {
        assert(shapes(t.nodes@) =~= Seq::<Shape>::empty());
    }
}

/// Law: a freshly built tree holding a power-of-two prefix of another
/// tree's leaves stands whole as a subtree of it: the search for its root
/// digest succeeds, and replaying the resulting path from that digest
/// reproduces the containing tree's root digest.
pub proof fn lemma_tree_proof_subtree<V, S>(
    t1: &MerkleTree<V, S>,
    t2: &MerkleTree<V, S>,
    k: nat,
) where V: DigestHash, S: BuildMerkleHasher
    requires
        t1.wf(),
        t2.wf(),
        pow2(k) <= t1.leaves().len(),
        t2.leaves() == t1.leaves().take(pow2(k) as int),
    ensures
        ({
            let s = canon(t1.leaves(), clog2(t1.leaves().len()));
            let p = spath::<S::Hasher>(s, t2.root_digest().unwrap());
            &&& t2.root_digest() is Some
            &&& p is Some
            &&& sfold::<S::Hasher>(t2.root_digest().unwrap(), p.unwrap()) == s.digest::<S::Hasher>()
            &&& t1.root_digest() == Some(s.digest::<S::Hasher>())
        }),
{
    lemma_pow2_pos(k);
    let n = t1.leaves().len();
    let hh = clog2(n);
    lemma_clog2_pow2(n);
    lemma_clog2_pow2_exact(k);
    assert(t2.leaves().len() == pow2(k));
    if let Some(r2) = &t2.root {
        r2.lemma_stored_digest();
    } else {
        assert(shapes(t2.nodes@) =~= Seq::<Shape>::empty());
    }
    if let Some(r1) = &t1.root {
        r1.lemma_stored_digest();
    } else {
        assert(shapes(t1.nodes@) =~= Seq::<Shape>::empty());
    }
    let sub = canon(t2.leaves(), k);
    let s = canon(t1.leaves(), hh);
    assert(k <= hh) by {
        if k > hh {
            lemma_pow2_strictly_increases(hh, k);
        }
    }
    lemma_canon_prefix(t1.leaves(), k, hh);
    lemma_subshape_contains::<S::Hasher>(sub, s);
    lemma_spath_finds::<S::Hasher>(s, sub.digest::<S::Hasher>());
    lemma_spath_folds::<S::Hasher>(s, sub.digest::<S::Hasher>());
}

} // verus!
