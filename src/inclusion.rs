use vstd::prelude::*;
use crate::hash::NodeHash;
use crate::hash::push_be64;
use crate::hash::push_bytes;
use crate::hash::sha256;
use crate::node::ComputedNode;
use crate::node::EmptyTree;
use crate::node::LeafNode;
use crate::node::Node;
use crate::node::branch_digest;
use crate::node::empty_digest;
use crate::node::leaf_digest;
use crate::tree::Tree;
use crate::tree::bit_at;
use crate::tree::key_bit;
use crate::tree::key_path;
use crate::tree::lemma_key_suffix;

verus! {

/// A path from a leaf position to the root: the key, the leaf claimed there
/// (`None` for a claim that the position is empty), and the sibling of the
/// path node at every depth, `siblings[d]` being the child at depth `d + 1`
/// that is off the path.
pub struct Proof {
    pub key: [u8; 32],
    pub leaf: Option<([u8; 32], u64)>,
    pub siblings: Vec<ComputedNode>,
}

/// The sum of the node at depth `d` on the path, recomputed from the proof.
pub open spec fn walk_sum(key: Seq<u8>, leaf: Option<([u8; 32], u64)>, sibs: Seq<ComputedNode>, d: int) -> int
    decreases 256 - d,
{
    if d >= 256 {
        match leaf {
            Some(l) => l.1 as int,
            None => 0,
        }
    } else {
        walk_sum(key, leaf, sibs, d + 1) + sibs[d].sum as int
    }
}

/// The digest of the node at depth `d` on the path, recomputed from the
/// proof.
pub open spec fn walk_digest(key: Seq<u8>, leaf: Option<([u8; 32], u64)>, sibs: Seq<ComputedNode>, d: int) -> Seq<u8>
    decreases 256 - d,
{
    if d >= 256 {
        match leaf {
            Some(l) => leaf_digest(l.0@, l.1),
            None => empty_digest(256),
        }
    } else {
        let below = walk_digest(key, leaf, sibs, d + 1);
        let sum = walk_sum(key, leaf, sibs, d) as u64;
        if key_bit(key, d) {
            branch_digest(sibs[d].hash@, below, sum)
        } else {
            branch_digest(below, sibs[d].hash@, sum)
        }
    }
}

/// Whether the proof's siblings and leaf are those of `n`, a subtree at
/// depth `d`, along the key's path.
pub open spec fn follows(n: Node, d: int, key: Seq<u8>, leaf: Option<([u8; 32], u64)>, sibs: Seq<ComputedNode>) -> bool
    decreases n,
{
    match n {
        Node::Branch(b) => {
            let other = if key_bit(key, d) { *b.left } else { *b.right };
            let next = if key_bit(key, d) { *b.right } else { *b.left };
            &&& sibs[d].hash@ == other.digest()
            &&& sibs[d].sum == other.sum_of()
            &&& follows(next, d + 1, key, leaf, sibs)
        },
        Node::Leaf(l) => leaf == Some((l.value, l.sum)),
        Node::Empty(_) => {
            &&& leaf is None
            &&& forall|e: int| d <= e < 256 ==> (#[trigger] sibs[e]).hash@ == empty_digest(e + 1) && sibs[e].sum == 0
        },
        Node::Compacted(_) => false,
    }
}

impl Proof {
    /// Whether the proof recomputes to the root digest `hash` and the root
    /// sum `sum`.
    pub open spec fn valid_for(&self, hash: Seq<u8>, sum: u64) -> bool {
        &&& self.siblings@.len() == 256
        &&& walk_digest(self.key@, self.leaf, self.siblings@, 0) == hash
        &&& walk_sum(self.key@, self.leaf, self.siblings@, 0) == sum as int
    }

    /// Whether the proof was taken from the tree rooted at `root`.
    pub open spec fn taken_from(&self, root: Node) -> bool {
        &&& self.siblings@.len() == 256
        &&& follows(root, 0, self.key@, self.leaf, self.siblings@)
    }

    /// Recomputes the root from the claimed leaf and the siblings and
    /// compares it with `root_hash` and `root_sum`.
    pub fn verify(&self, root_hash: &NodeHash, root_sum: u64) -> (r: bool)
        ensures
            r == self.valid_for(root_hash@, root_sum),
    {
        if self.siblings.len() != 256 {
            return false;
        }
        let ghost key = self.key@;
        let ghost leaf = self.leaf;
        let ghost sibs = self.siblings@;
        let (mut h, mut sm) = match self.leaf {
            Some(l) => (LeafNode::new(l.0, l.1).hash, l.1),
            None => {
                let zero = LeafNode::new([0u8; 32], 0);
                assert(zero.value@ =~= Seq::new(32, |i: int| 0u8));
                (zero.hash, 0u64)
            },
        };
        let mut d: usize = 256;
        while d > 0
            invariant
                0 <= d <= 256,
                sibs.len() == 256,
                sibs == self.siblings@,
                key == self.key@,
                leaf == self.leaf,
                h@ == walk_digest(key, leaf, sibs, d as int),
                sm == walk_sum(key, leaf, sibs, d as int),
            decreases d,
        {
            d = d - 1;
            let sib = self.siblings[d];
            if sib.sum > u64::MAX - sm {
                proof {
                    lemma_walk_sum_grows(key, leaf, sibs, 0, d as int);
                }
                return false;
            }
            sm = sm + sib.sum;
            let mut pre: Vec<u8> = Vec::new();
            if bit_at(&self.key, d) {
                push_bytes(&mut pre, &sib.hash.0);
                push_bytes(&mut pre, &h.0);
            } else {
                push_bytes(&mut pre, &h.0);
                push_bytes(&mut pre, &sib.hash.0);
            }
            push_be64(&mut pre, sm);
            h = NodeHash(sha256(&pre));
        }
        h.same_as(root_hash) && sm == root_sum
    }
}

/// The recomputed sum only grows on the way up.
pub proof fn lemma_walk_sum_grows(key: Seq<u8>, leaf: Option<([u8; 32], u64)>, sibs: Seq<ComputedNode>, e: int, d: int)
    requires
        0 <= e <= d <= 256,
    ensures
        walk_sum(key, leaf, sibs, e) >= walk_sum(key, leaf, sibs, d),
    decreases d - e,
{
    if e < d {
        lemma_walk_sum_grows(key, leaf, sibs, e + 1, d);
    }
}

/// Along empty siblings from an absent leaf, the walk gives the empty
/// digests and a zero sum.
proof fn lemma_walk_empty(key: Seq<u8>, leaf: Option<([u8; 32], u64)>, sibs: Seq<ComputedNode>, d: int)
    requires
        0 <= d <= 256,
        leaf is None,
        forall|e: int| d <= e < 256 ==> (#[trigger] sibs[e]).hash@ == empty_digest(e + 1) && sibs[e].sum == 0,
    ensures
        walk_digest(key, leaf, sibs, d) == empty_digest(d),
        walk_sum(key, leaf, sibs, d) == 0,
    decreases 256 - d,
{
    if d < 256 {
        lemma_walk_empty(key, leaf, sibs, d + 1);
    }
}

/// A proof taken from a subtree recomputes that subtree's digest and sum.
proof fn lemma_walk_follows(n: Node, d: int, key: Seq<u8>, leaf: Option<([u8; 32], u64)>, sibs: Seq<ComputedNode>)
    requires
        n.wf(d),
        follows(n, d, key, leaf, sibs),
    ensures
        walk_digest(key, leaf, sibs, d) == n.digest(),
        walk_sum(key, leaf, sibs, d) == n.sum_of() as int,
    decreases n,
{
    match n {
        Node::Branch(b) => {
            if key_bit(key, d) {
                lemma_walk_follows(*b.right, d + 1, key, leaf, sibs);
            } else {
                lemma_walk_follows(*b.left, d + 1, key, leaf, sibs);
            }
        },
        Node::Empty(_) => {
            lemma_walk_empty(key, leaf, sibs, d);
        },
        _ => {},
    }
}

/// A proof taken along a path that holds no leaf claims no leaf.
proof fn lemma_follows_absent(n: Node, d: int, k: [u8; 32], leaf: Option<([u8; 32], u64)>, sibs: Seq<ComputedNode>)
    requires
        n.wf(d),
        follows(n, d, k@, leaf, sibs),
        n.lookup(key_path(k).subrange(d, 256)) is None,
    ensures
        leaf is None,
    decreases n,
{
    if let Node::Branch(b) = n {
        lemma_key_suffix(k, d);
        if key_bit(k@, d) {
            lemma_follows_absent(*b.right, d + 1, k, leaf, sibs);
        } else {
            lemma_follows_absent(*b.left, d + 1, k, leaf, sibs);
        }
    }
}

/// Collects the siblings along the path of `k` below `n`, a subtree at
/// depth `d`, and returns the leaf at its end.
fn prove_at(n: &Node, d: usize, k: &[u8; 32], sibs: &mut Vec<ComputedNode>, empty: &EmptyTree) -> (leaf: Option<([u8; 32], u64)>)
    requires
        n.wf(d as int),
        d <= 256,
        old(sibs)@.len() == d,
        empty.wf(),
    ensures
        final(sibs)@.len() == 256,
        final(sibs)@.subrange(0, d as int) == old(sibs)@,
        follows(*n, d as int, k@, leaf, final(sibs)@),
    decreases 256 - d,
{
    match n {
        Node::Leaf(l) => {
            assert(sibs@.subrange(0, d as int) =~= sibs@);
            Some((l.value, l.sum))
        },
        Node::Branch(b) => {
            let ghost start = sibs@;
            let bit = bit_at(k, d);
            let (next, other) = if bit { (&b.right, &b.left) } else { (&b.left, &b.right) };
            sibs.push(ComputedNode::new(other.hash(), other.sum()));
            let ghost mid = sibs@;
            let leaf = prove_at(next, d + 1, k, sibs, empty);
            assert(sibs@[d as int] == mid.subrange(0, d as int + 1)[d as int]);
            assert(sibs@.subrange(0, d as int) =~= mid.subrange(0, d as int + 1).subrange(0, d as int));
            assert(mid.subrange(0, d as int) =~= start);
            leaf
        },
        _ => {
            let ghost start = sibs@;
            let mut e: usize = d;
            while e < 256
                invariant
                    d <= e <= 256,
                    empty.wf(),
                    sibs@.len() == e,
                    sibs@.subrange(0, d as int) == start,
                    forall|j: int| d <= j < e ==> (#[trigger] sibs@[j]).hash@ == empty_digest(j + 1) && sibs@[j].sum == 0,
                decreases 256 - e,
            {
                let ghost before = sibs@;
                sibs.push(ComputedNode::new(empty.hash_at(e + 1), 0));
                assert(sibs@.subrange(0, d as int) =~= before.subrange(0, d as int));
                e = e + 1;
            }
            None
        },
    }
}

impl Tree {
    /// The proof for `k`: the siblings along its path from the root and the
    /// leaf stored there, if any.
    pub fn prove(&self, k: &[u8; 32]) -> (r: Proof)
        requires
            self.wf(),
        ensures
            r.key == *k,
            r.taken_from(self.root),
            r.leaf == self.get_spec(*k),
    {
        let mut sibs: Vec<ComputedNode> = Vec::new();
        let leaf = prove_at(&self.root, 0, k, &mut sibs, &self.empty);
        let r = Proof { key: *k, leaf, siblings: sibs };
        proof {
            lemma_proof_claims_stored_leaf(self.root, 0, *k, leaf, sibs@);
            assert(key_path(*k).subrange(0, 256) =~= key_path(*k));
        }
        r
    }
}

/// The leaf a proof claims is the one stored along the key's path.
proof fn lemma_proof_claims_stored_leaf(n: Node, d: int, k: [u8; 32], leaf: Option<([u8; 32], u64)>, sibs: Seq<ComputedNode>)
    requires
        n.wf(d),
        follows(n, d, k@, leaf, sibs),
    ensures
        leaf == n.lookup(key_path(k).subrange(d, 256)),
    decreases n,
{
    if let Node::Branch(b) = n {
        lemma_key_suffix(k, d);
        if key_bit(k@, d) {
            lemma_proof_claims_stored_leaf(*b.right, d + 1, k, leaf, sibs);
        } else {
            lemma_proof_claims_stored_leaf(*b.left, d + 1, k, leaf, sibs);
        }
    } else if d == 256 {
        assert(key_path(k).subrange(d, 256) =~= Seq::<bool>::empty());
    }
}

/// A proof taken from a tree verifies against that tree's root digest and
/// root sum.
pub proof fn lemma_fresh_proof_verifies(t: Tree, p: Proof)
    requires
        t.wf(),
        p.taken_from(t.root),
    ensures
        p.valid_for(t.root.digest(), t.root.sum_of()),
{
    lemma_walk_follows(t.root, 0, p.key@, p.leaf, p.siblings@);
}

/// A proof that verifies against one root sum fails against any other root
/// sum, so a proof kept across an update that changed the total fails
/// against the new root.
pub proof fn lemma_proof_fails_on_other_sum(p: Proof, hash: Seq<u8>, sum: u64, new_hash: Seq<u8>, new_sum: u64)
    requires
        p.valid_for(hash, sum),
        new_sum != sum,
    ensures
        !p.valid_for(new_hash, new_sum),
{
}

/// A proof for a key that holds no leaf claims the position empty and
/// verifies against the root; once a leaf with a non-zero sum is stored
/// under that key, it no longer verifies against the new root.
pub proof fn lemma_absent_proof(t0: Tree, p: Proof, t1: Tree, value: [u8; 32], sum: u64)
    requires
        t0.wf(),
        t1.wf(),
        t0.get_spec(p.key) is None,
        p.taken_from(t0.root),
        Tree::inserted(t0, t1, p.key, value, sum),
        sum > 0,
    ensures
        p.leaf is None,
        p.valid_for(t0.root.digest(), t0.root.sum_of()),
        !p.valid_for(t1.root.digest(), t1.root.sum_of()),
{
    assert(key_path(p.key).subrange(0, 256) =~= key_path(p.key));
    lemma_follows_absent(t0.root, 0, p.key, p.leaf, p.siblings@);
    lemma_walk_follows(t0.root, 0, p.key@, p.leaf, p.siblings@);
}

} // verus!
