use vstd::prelude::*;
use crate::hash::NodeHash;
use crate::node::BranchNode;
use crate::node::EmptyTree;
use crate::node::LeafNode;
use crate::node::Node;
use crate::node::empty_digest;

verus! {

/// Bit `i` of a key, counting from the most significant bit of byte 0.
pub open spec fn key_bit(k: Seq<u8>, i: int) -> bool {
    (k[i / 8] >> ((7 - i % 8) as u8)) & 1u8 == 1u8
}

/// The path of a key from the root: its 256 bits, true meaning right.
pub open spec fn key_path(k: [u8; 32]) -> Seq<bool> {
    Seq::new(256, |i: int| key_bit(k@, i))
}

/// The sum of the leaf at the end of `path`, or zero if there is none.
pub open spec fn sum_at(n: Node, path: Seq<bool>) -> int {
    match n.lookup(path) {
        Some(leaf) => leaf.1 as int,
        None => 0,
    }
}

/// Bit `d` of the key.
pub fn bit_at(k: &[u8; 32], d: usize) -> (r: bool)
    requires
        d < 256,
    ensures
        r == key_bit(k@, d as int),
{
    let shift = (7 - d % 8) as u8;
    (k[d / 8] >> shift) & 1u8 == 1u8
}

/// The errors of tree updates.
#[derive(Clone, Copy, Debug, PartialEq, Eq, Structural)]
pub enum TreeError {
    /// The sum of all leaves would no longer fit in 64 bits.
    SumOverflow,
}

/// Splitting a path into its first step and the rest.
pub proof fn lemma_path_step(q: Seq<bool>, b: bool)
    ensures
        (seq![b] + q)[0] == b,
        (seq![b] + q).drop_first() == q,
        (seq![b] + q).len() == q.len() + 1,
{
    assert((seq![b] + q).drop_first() =~= q);
}

/// Two paths of one length with the same first step and the same rest are
/// the same path.
pub proof fn lemma_path_eq(q: Seq<bool>, p: Seq<bool>)
    requires
        q.len() == p.len(),
        q.len() > 0,
        q[0] == p[0],
        q.drop_first() == p.drop_first(),
    ensures
        q == p,
{
    assert forall|i: int| 0 <= i < q.len() implies q[i] == p[i] by {
        if i > 0 {
            assert(q[i] == q.drop_first()[i - 1]);
            assert(p[i] == p.drop_first()[i - 1]);
        }
    }
    assert(q =~= p);
}

/// The path below depth `d` of a key, and the step taken there.
pub proof fn lemma_key_suffix(k: [u8; 32], d: int)
    requires
        0 <= d < 256,
    ensures
        key_path(k).subrange(d, 256)[0] == key_bit(k@, d),
        key_path(k).subrange(d, 256).drop_first() == key_path(k).subrange(d + 1, 256),
        key_path(k).subrange(d, 256).len() == 256 - d,
{
    assert(key_path(k).subrange(d, 256).drop_first() =~= key_path(k).subrange(d + 1, 256));
}

/// The sum of one leaf is at most the sum of any subtree holding it.
pub proof fn lemma_sum_at_bounded(n: Node, d: int, path: Seq<bool>)
    requires
        n.wf(d),
    ensures
        0 <= sum_at(n, path) <= n.sum_of(),
    decreases n,
{
    if let Node::Branch(b) = n {
        if path.len() > 0 {
            if path[0] {
                lemma_sum_at_bounded(*b.right, d + 1, path.drop_first());
            } else {
                lemma_sum_at_bounded(*b.left, d + 1, path.drop_first());
            }
        }
    }
}

/// A well-formed subtree without leaves has the empty digest of its depth
/// and sums to zero.
pub proof fn lemma_no_leaves(n: Node, d: int)
    requires
        n.wf(d),
        forall|q: Seq<bool>| q.len() == 256 - d ==> (#[trigger] n.lookup(q)) is None,
    ensures
        n.digest() == empty_digest(d),
        n.sum_of() == 0,
    decreases 256 - d,
{
    match n {
        Node::Leaf(_) => {
            assert(n.lookup(Seq::empty()) is Some);
        },
        Node::Branch(b) => {
            assert forall|q: Seq<bool>| q.len() == 256 - (d + 1) implies (#[trigger] b.left.lookup(q)) is None by {
                lemma_path_step(q, false);
                assert(n.lookup(seq![false] + q) is None);
            }
            assert forall|q: Seq<bool>| q.len() == 256 - (d + 1) implies (#[trigger] b.right.lookup(q)) is None by {
                lemma_path_step(q, true);
                assert(n.lookup(seq![true] + q) is None);
            }
            lemma_no_leaves(*b.left, d + 1);
            lemma_no_leaves(*b.right, d + 1);
        },
        _ => {},
    }
}

/// Two well-formed subtrees at one depth that hold the same leaves have the
/// same digest and the same sum.
pub proof fn lemma_same_leaves(a: Node, b: Node, d: int)
    requires
        a.wf(d),
        b.wf(d),
        forall|q: Seq<bool>| q.len() == 256 - d ==> #[trigger] a.lookup(q) == b.lookup(q),
    ensures
        a.digest() == b.digest(),
        a.sum_of() == b.sum_of(),
    decreases 256 - d,
{
    if a is Leaf || b is Leaf {
        assert(a.lookup(Seq::empty()) == b.lookup(Seq::empty()));
    } else if a is Empty {
        assert forall|q: Seq<bool>| q.len() == 256 - d implies (#[trigger] b.lookup(q)) is None by {
            assert(a.lookup(q) == b.lookup(q));
        }
        lemma_no_leaves(b, d);
    } else if b is Empty {
        assert forall|q: Seq<bool>| q.len() == 256 - d implies (#[trigger] a.lookup(q)) is None by {
            assert(a.lookup(q) == b.lookup(q));
        }
        lemma_no_leaves(a, d);
    } else if let Node::Branch(x) = a {
        if let Node::Branch(y) = b {
            assert forall|q: Seq<bool>| q.len() == 256 - (d + 1) implies #[trigger] x.left.lookup(q) == y.left.lookup(q) by {
                lemma_path_step(q, false);
                assert(a.lookup(seq![false] + q) == b.lookup(seq![false] + q));
            }
            assert forall|q: Seq<bool>| q.len() == 256 - (d + 1) implies #[trigger] x.right.lookup(q) == y.right.lookup(q) by {
                lemma_path_step(q, true);
                assert(a.lookup(seq![true] + q) == b.lookup(seq![true] + q));
            }
            lemma_same_leaves(*x.left, *y.left, d + 1);
            lemma_same_leaves(*x.right, *y.right, d + 1);
        }
    }
}

/// Looks up the leaf that `k` leads to from `n`, a subtree at depth `d`.
fn get_at(n: &Node, d: usize, k: &[u8; 32]) -> (r: Option<([u8; 32], u64)>)
    requires
        n.wf(d as int),
        d <= 256,
    ensures
        r == n.lookup(key_path(*k).subrange(d as int, 256)),
    decreases 256 - d,
{
    match n {
        Node::Leaf(l) => Some((l.value, l.sum)),
        Node::Branch(b) => {
            proof {
                lemma_key_suffix(*k, d as int);
            }
            if bit_at(k, d) {
                get_at(&b.right, d + 1, k)
            } else {
                get_at(&b.left, d + 1, k)
            }
        },
        _ => None,
    }
}

/// Puts a leaf holding `value` and `sum` at the end of the path of `k` in
/// `n`, a subtree at depth `d`, rebuilding every node on the way.
fn insert_at(n: Node, d: usize, k: &[u8; 32], value: [u8; 32], sum: u64, empty: &EmptyTree) -> (r: Node)
    requires
        n.wf(d as int),
        d <= 256,
        empty.wf(),
        n.sum_of() - sum_at(n, key_path(*k).subrange(d as int, 256)) + sum <= u64::MAX,
    ensures
        r.wf(d as int),
        !(r is Empty),
        r.sum_of() == n.sum_of() - sum_at(n, key_path(*k).subrange(d as int, 256)) + sum,
        forall|q: Seq<bool>| q.len() == 256 - d ==> #[trigger] r.lookup(q) == if q == key_path(*k).subrange(d as int, 256) {
            Some((value, sum))
        } else {
            n.lookup(q)
        },
    decreases 256 - d,
{
    if d == 256 {
        let ghost path = key_path(*k).subrange(d as int, 256);
        assert(path =~= Seq::<bool>::empty());
        let r = Node::Leaf(LeafNode::new(value, sum));
        assert forall|q: Seq<bool>| q.len() == 256 - d implies #[trigger] r.lookup(q) == if q == path {
            Some((value, sum))
        } else {
            n.lookup(q)
        } by {
            assert(q =~= path);
        }
        return r;
    }
    proof {
        lemma_key_suffix(*k, d as int);
    }
    let ghost path = key_path(*k).subrange(d as int, 256);
    let ghost rest = key_path(*k).subrange(d as int + 1, 256);
    let ghost old_n = n;
    let (left, right) = match n {
        Node::Branch(b) => (*b.left, *b.right),
        _ => (empty.node_at(d + 1), empty.node_at(d + 1)),
    };
    assert(left.wf(d + 1) && right.wf(d + 1));
    assert(old_n.sum_of() == left.sum_of() + right.sum_of());
    if bit_at(k, d) {
        assert(sum_at(old_n, path) == sum_at(right, rest));
        let child = insert_at(right, d + 1, k, value, sum, empty);
        let r = Node::Branch(BranchNode::new(left, child));
        assert forall|q: Seq<bool>| q.len() == 256 - d implies #[trigger] r.lookup(q) == if q == path {
            Some((value, sum))
        } else {
            old_n.lookup(q)
        } by {
            let t = q.drop_first();
            if q[0] {
                assert(r.lookup(q) == child.lookup(t));
                assert(old_n.lookup(q) == right.lookup(t));
                if t == rest {
                    lemma_path_eq(q, path);
                }
            } else {
                assert(r.lookup(q) == left.lookup(t));
                assert(old_n.lookup(q) == left.lookup(t));
                assert(q != path);
            }
        }
        r
    } else {
        assert(sum_at(old_n, path) == sum_at(left, rest));
        let child = insert_at(left, d + 1, k, value, sum, empty);
        let r = Node::Branch(BranchNode::new(child, right));
        assert forall|q: Seq<bool>| q.len() == 256 - d implies #[trigger] r.lookup(q) == if q == path {
            Some((value, sum))
        } else {
            old_n.lookup(q)
        } by {
            let t = q.drop_first();
            if !q[0] {
                assert(r.lookup(q) == child.lookup(t));
                assert(old_n.lookup(q) == left.lookup(t));
                if t == rest {
                    lemma_path_eq(q, path);
                }
            } else {
                assert(r.lookup(q) == right.lookup(t));
                assert(old_n.lookup(q) == right.lookup(t));
                assert(q != path);
            }
        }
        r
    }
}


/// Takes the leaf at the end of the path of `k` out of `n`, a subtree at
/// depth `d`, turning every branch left without leaves into an empty node.
fn delete_at(n: Node, d: usize, k: &[u8; 32], empty: &EmptyTree) -> (r: Node)
    requires
        n.wf(d as int),
        d <= 256,
        empty.wf(),
    ensures
        r.wf(d as int),
        r.sum_of() == n.sum_of() - sum_at(n, key_path(*k).subrange(d as int, 256)),
        forall|q: Seq<bool>| q.len() == 256 - d ==> #[trigger] r.lookup(q) == if q == key_path(*k).subrange(d as int, 256) {
            None
        } else {
            n.lookup(q)
        },
    decreases 256 - d,
{
    if d == 256 {
        let r = empty.node_at(256);
        assert forall|q: Seq<bool>| q.len() == 256 - d implies #[trigger] r.lookup(q) == if q == key_path(*k).subrange(d as int, 256) {
            None
        } else {
            n.lookup(q)
        } by {
            assert(q =~= key_path(*k).subrange(d as int, 256));
        }
        return r;
    }
    proof {
        lemma_key_suffix(*k, d as int);
    }
    let ghost path = key_path(*k).subrange(d as int, 256);
    let ghost rest = key_path(*k).subrange(d as int + 1, 256);
    let ghost old_n = n;
    match n {
        Node::Branch(b) => {
            let left = *b.left;
            let right = *b.right;
            let bit = bit_at(k, d);
            let (l2, r2) = if bit {
                (left, delete_at(right, d + 1, k, empty))
            } else {
                (delete_at(left, d + 1, k, empty), right)
            };
            let ghost changed = if bit { right } else { left };
            assert(sum_at(old_n, path) == sum_at(changed, rest));
            let r = if matches!(l2, Node::Empty(_)) && matches!(r2, Node::Empty(_)) {
                empty.node_at(d)
            } else {
                Node::Branch(BranchNode::new(l2, r2))
            };
            assert forall|q: Seq<bool>| q.len() == 256 - d implies #[trigger] r.lookup(q) == if q == path {
                None
            } else {
                old_n.lookup(q)
            } by {
                let t = q.drop_first();
                assert(old_n.lookup(q) == if q[0] { right.lookup(t) } else { left.lookup(t) });
                assert(l2.lookup(t) == if bit { left.lookup(t) } else if t == rest { None } else { left.lookup(t) });
                assert(r2.lookup(t) == if !bit { right.lookup(t) } else if t == rest { None } else { right.lookup(t) });
                if r is Branch {
                    assert(r.lookup(q) == if q[0] { r2.lookup(t) } else { l2.lookup(t) });
                }
                if q[0] == bit && t == rest {
                    lemma_path_eq(q, path);
                }
            }
            r
        },
        _ => {
            assert forall|q: Seq<bool>| q.len() == 256 - d implies #[trigger] old_n.lookup(q) == if q == path {
                None
            } else {
                old_n.lookup(q)
            } by {
            }
            n
        },
    }
}

/// A Merkle-sum sparse Merkle tree: its root and the table of empty-subtree
/// digests.
pub struct Tree {
    pub root: Node,
    pub empty: EmptyTree,
}

impl Tree {
    /// The tree's invariant.
    pub open spec fn wf(&self) -> bool {
        self.root.wf(0) && self.empty.wf()
    }

    /// The value and sum stored under `k`, if any.
    pub open spec fn get_spec(&self, k: [u8; 32]) -> Option<([u8; 32], u64)> {
        self.root.lookup(key_path(k))
    }

    /// `after` holds what `before` holds, with `(value, sum)` under `k`, and
    /// its total changed by the difference of the two sums under `k`.
    pub open spec fn inserted(before: Tree, after: Tree, k: [u8; 32], value: [u8; 32], sum: u64) -> bool {
        &&& after.root.sum_of() == before.root.sum_of() - sum_at(before.root, key_path(k)) + sum
        &&& forall|q: Seq<bool>| q.len() == 256 ==> #[trigger] after.root.lookup(q) == if q == key_path(k) {
            Some((value, sum))
        } else {
            before.root.lookup(q)
        }
    }

    /// `after` holds what `before` holds, with nothing under `k`, and its
    /// total lowered by the sum that was under `k`.
    pub open spec fn deleted(before: Tree, after: Tree, k: [u8; 32]) -> bool {
        &&& after.root.sum_of() == before.root.sum_of() - sum_at(before.root, key_path(k))
        &&& forall|q: Seq<bool>| q.len() == 256 ==> #[trigger] after.root.lookup(q) == if q == key_path(k) {
            None
        } else {
            before.root.lookup(q)
        }
    }

    /// A tree without leaves.
    pub fn init() -> (r: Tree)
        ensures
            r.wf(),
            forall|q: Seq<bool>| #[trigger] r.root.lookup(q) is None,
            r.root.digest() == empty_digest(0),
            r.root.sum_of() == 0,
    {
        let empty = EmptyTree::new();
        let root = empty.node_at(0);
        Tree { root, empty }
    }

    /// The digest of the root.
    pub fn root_hash(&self) -> (r: NodeHash)
        ensures
            r@ == self.root.digest(),
    {
        self.root.hash()
    }

    /// The sum of all leaves.
    pub fn root_sum(&self) -> (r: u64)
        ensures
            r == self.root.sum_of(),
    {
        self.root.sum()
    }

    /// The value and sum stored under `k`, or `None` if the key holds no leaf.
    pub fn get(&self, k: &[u8; 32]) -> (r: Option<([u8; 32], u64)>)
        requires
            self.wf(),
        ensures
            r == self.get_spec(*k),
    {
        assert(key_path(*k).subrange(0, 256) =~= key_path(*k));
        get_at(&self.root, 0, k)
    }

    /// Stores `value` and `sum` under `k`, replacing what was there. Fails,
    /// leaving the tree as it was, where the sum of all leaves would no
    /// longer fit in 64 bits.
    pub fn insert(&mut self, k: &[u8; 32], value: [u8; 32], sum: u64) -> (r: Result<(), TreeError>)
        requires
            old(self).wf(),
        ensures
            final(self).wf(),
            r is Ok <==> old(self).root.sum_of() - sum_at(old(self).root, key_path(*k)) + sum <= u64::MAX,
            r is Ok ==> Tree::inserted(*old(self), *final(self), *k, value, sum),
            r is Ok ==> final(self).get_spec(*k) == Some((value, sum)),
            r is Err ==> *final(self) == *old(self),
    {
        assert(key_path(*k).subrange(0, 256) =~= key_path(*k));
        let prev = match get_at(&self.root, 0, k) {
            Some(leaf) => leaf.1,
            None => 0,
        };
        proof {
            lemma_sum_at_bounded(self.root, 0, key_path(*k));
        }
        let rest = self.root.sum() - prev;
        if sum > u64::MAX - rest {
            return Err(TreeError::SumOverflow);
        }
        let mut root = self.empty.node_at(0);
        std::mem::swap(&mut root, &mut self.root);
        let updated = insert_at(root, 0, k, value, sum, &self.empty);
        self.root = updated;
        assert(self.root.lookup(key_path(*k)) == Some((value, sum)));
        Ok(())
    }

    /// Removes whatever is stored under `k`.
    pub fn delete(&mut self, k: &[u8; 32])
        requires
            old(self).wf(),
        ensures
            final(self).wf(),
            Tree::deleted(*old(self), *final(self), *k),
            final(self).get_spec(*k) is None,
    {
        assert(key_path(*k).subrange(0, 256) =~= key_path(*k));
        let mut root = self.empty.node_at(0);
        std::mem::swap(&mut root, &mut self.root);
        let updated = delete_at(root, 0, k, &self.empty);
        self.root = updated;
        assert(self.root.lookup(key_path(*k)) is None);
    }
}

/// After storing `(value, sum)` under `k`, reading `k` gives `(value, sum)`.
pub proof fn lemma_insert_then_get(before: Tree, after: Tree, k: [u8; 32], value: [u8; 32], sum: u64)
    requires
        Tree::inserted(before, after, k, value, sum),
    ensures
        after.get_spec(k) == Some((value, sum)),
{
    assert(after.root.lookup(key_path(k)) == Some((value, sum)));
}

/// Storing a leaf under a key that held none and then removing it brings
/// back the root digest and the root sum held before.
pub proof fn lemma_insert_then_delete(t0: Tree, t1: Tree, t2: Tree, k: [u8; 32], value: [u8; 32], sum: u64)
    requires
        t0.wf(),
        t1.wf(),
        t2.wf(),
        t0.get_spec(k) is None,
        Tree::inserted(t0, t1, k, value, sum),
        Tree::deleted(t1, t2, k),
    ensures
        t2.root.digest() == t0.root.digest(),
        t2.root.sum_of() == t0.root.sum_of(),
{
    assert forall|q: Seq<bool>| q.len() == 256 - 0 implies #[trigger] t2.root.lookup(q) == t0.root.lookup(q) by {
        assert(t2.root.lookup(q) == if q == key_path(k) { None } else { t1.root.lookup(q) });
        assert(t1.root.lookup(q) == if q == key_path(k) { Some((value, sum)) } else { t0.root.lookup(q) });
    }
    lemma_same_leaves(t2.root, t0.root, 0);
}

} // verus!
