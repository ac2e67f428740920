use vstd::prelude::*;
use crate::hash::NodeHash;
use crate::hash::be64;
use crate::hash::push_be64;
use crate::hash::push_bytes;
use crate::hash::sha256;
use crate::hash::sha256_of;

verus! {

/// The number of levels below the root; leaves sit at this depth.
pub const MAX_TREE_LEVEL: usize = 256;

/// The digest of a leaf holding `value` and `sum`.
pub open spec fn leaf_digest(value: Seq<u8>, sum: u64) -> Seq<u8> {
    sha256_of(value + be64(sum))
}

/// The digest of a branch whose children have digests `left` and `right`
/// and whose subtree sums to `sum`.
pub open spec fn branch_digest(left: Seq<u8>, right: Seq<u8>, sum: u64) -> Seq<u8> {
    sha256_of(left + right + be64(sum))
}

/// The digest of a subtree with no leaves whose root sits at depth `d`.
pub open spec fn empty_digest(d: int) -> Seq<u8>
    decreases 256 - d,
{
    if d >= 256 {
        leaf_digest(Seq::new(32, |i: int| 0u8), 0)
    } else {
        branch_digest(empty_digest(d + 1), empty_digest(d + 1), 0)
    }
}

/// A leaf: a 32-byte value and a sum, with the digest of both.
pub struct LeafNode {
    pub value: [u8; 32],
    pub sum: u64,
    pub hash: NodeHash,
}

/// An inner node: two children, the sum of their sums, and the digest of
/// the children's digests and that sum.
pub struct BranchNode {
    pub left: Box<Node>,
    pub right: Box<Node>,
    pub sum: u64,
    pub hash: NodeHash,
}

/// A digest and a sum that stand for a subtree whose nodes are not held.
#[derive(Clone, Copy, Debug)]
pub struct ComputedNode {
    pub hash: NodeHash,
    pub sum: u64,
}

/// A node of the tree.
pub enum Node {
    /// A subtree without leaves; its digest depends on its depth alone.
    Empty(NodeHash),
    Leaf(LeafNode),
    Branch(BranchNode),
    Compacted(ComputedNode),
}

/// Which variant a node is.
#[derive(Clone, Copy, Debug, PartialEq, Eq, Structural)]
pub enum NodeKind {
    Empty,
    Leaf,
    Branch,
    Compacted,
}

impl LeafNode {
    /// Builds a leaf and computes its digest.
    pub fn new(value: [u8; 32], sum: u64) -> (r: LeafNode)
        ensures
            r.value == value,
            r.sum == sum,
            r.hash@ == leaf_digest(value@, sum),
    {
        let mut pre: Vec<u8> = Vec::new();
        push_bytes(&mut pre, &value);
        push_be64(&mut pre, sum);
        assert(pre@ == value@ + be64(sum));
        LeafNode { value, sum, hash: NodeHash(sha256(&pre)) }
    }

    /// Whether the leaf stands for an absent position: never, since its
    /// value always has 32 bytes and an absent position is an `Empty` node,
    /// so a leaf with the zero value and a zero sum stays a leaf.
    pub fn is_empty(&self) -> (r: bool)
        ensures
            !r,
    {
        self.value.len() == 0 && self.sum == 0
    }
}

impl Default for LeafNode {
    /// The leaf with the zero value and a zero sum.
    fn default() -> (r: LeafNode)
        ensures
            r.value@ == Seq::new(32, |i: int| 0u8),
            r.sum == 0,
            r.hash@ == empty_digest(256),
    {
        let r = LeafNode::new([0u8; 32], 0);
        assert(r.value@ =~= Seq::new(32, |i: int| 0u8));
        r
    }
}

impl ComputedNode {
    /// Pairs a digest with a sum.
    pub fn new(hash: NodeHash, sum: u64) -> (r: ComputedNode)
        ensures
            r.hash == hash,
            r.sum == sum,
    {
        ComputedNode { hash, sum }
    }
}

impl Node {
    /// The digest stored in the node.
    pub open spec fn digest(&self) -> Seq<u8> {
        match self {
            Node::Empty(h) => h@,
            Node::Leaf(l) => l.hash@,
            Node::Branch(b) => b.hash@,
            Node::Compacted(c) => c.hash@,
        }
    }

    /// The sum stored in the node.
    pub open spec fn sum_of(&self) -> u64 {
        match self {
            Node::Empty(_) => 0,
            Node::Leaf(l) => l.sum,
            Node::Branch(b) => b.sum,
            Node::Compacted(c) => c.sum,
        }
    }

    /// Whether the node is well formed as a subtree rooted at depth `d`:
    /// leaves only at the bottom, no branch over two empty children, every
    /// branch's sum the sum of its children's, every digest as the hashing
    /// rules give it.
    pub open spec fn wf(&self, d: int) -> bool
        decreases self,
    {
        match self {
            Node::Empty(h) => 0 <= d <= 256 && h@ == empty_digest(d),
            Node::Leaf(l) => d == 256 && l.hash@ == leaf_digest(l.value@, l.sum),
            Node::Branch(b) => {
                &&& 0 <= d < 256
                &&& b.left.wf(d + 1)
                &&& b.right.wf(d + 1)
                &&& !(*b.left is Empty && *b.right is Empty)
                &&& b.sum as int == b.left.sum_of() as int + b.right.sum_of() as int
                &&& b.hash@ == branch_digest(b.left.digest(), b.right.digest(), b.sum)
            },
            Node::Compacted(_) => false,
        }
    }

    /// The leaf's value and sum reached by following `path` (false: left,
    /// true: right) from this node, if there is one.
    pub open spec fn lookup(&self, path: Seq<bool>) -> Option<([u8; 32], u64)>
        decreases self,
    {
        match self {
            Node::Leaf(l) => Some((l.value, l.sum)),
            Node::Branch(b) => {
                if path.len() == 0 {
                    None
                } else if path[0] {
                    b.right.lookup(path.drop_first())
                } else {
                    b.left.lookup(path.drop_first())
                }
            },
            _ => None,
        }
    }

    /// The sum of the node.
    pub fn sum(&self) -> (r: u64)
        ensures
            r == self.sum_of(),
    {
        match self {
            Node::Empty(_) => 0,
            Node::Leaf(l) => l.sum,
            Node::Branch(b) => b.sum,
            Node::Compacted(c) => c.sum,
        }
    }

    /// The digest of the node.
    pub fn hash(&self) -> (r: NodeHash)
        ensures
            r@ == self.digest(),
    {
        match self {
            Node::Empty(h) => *h,
            Node::Leaf(l) => l.hash,
            Node::Branch(b) => b.hash,
            Node::Compacted(c) => c.hash,
        }
    }

    /// Which variant the node is.
    pub fn kind(&self) -> (r: NodeKind)
        ensures
            r == NodeKind::Empty <==> self is Empty,
            r == NodeKind::Leaf <==> self is Leaf,
            r == NodeKind::Branch <==> self is Branch,
            r == NodeKind::Compacted <==> self is Compacted,
    {
        match self {
            Node::Empty(_) => NodeKind::Empty,
            Node::Leaf(_) => NodeKind::Leaf,
            Node::Branch(_) => NodeKind::Branch,
            Node::Compacted(_) => NodeKind::Compacted,
        }
    }
}

impl BranchNode {
    /// Joins two children, summing their sums and hashing their digests.
    pub fn new(left: Node, right: Node) -> (r: BranchNode)
        requires
            left.sum_of() as int + right.sum_of() as int <= u64::MAX,
        ensures
            *r.left == left,
            *r.right == right,
            r.sum as int == left.sum_of() as int + right.sum_of() as int,
            r.hash@ == branch_digest(left.digest(), right.digest(), r.sum),
    {
        let sum = left.sum() + right.sum();
        let lh = left.hash();
        let rh = right.hash();
        let mut pre: Vec<u8> = Vec::new();
        push_bytes(&mut pre, &lh.0);
        push_bytes(&mut pre, &rh.0);
        push_be64(&mut pre, sum);
        let hash = NodeHash(sha256(&pre));
        BranchNode { left: Box::new(left), right: Box::new(right), sum, hash }
    }
}

/// The digests of empty subtrees at every depth from the root (0) to the
/// leaves (256), computed once.
pub struct EmptyTree {
    pub levels: Vec<NodeHash>,
}

impl EmptyTree {
    /// Whether entry `d` holds the empty digest of depth `d`.
    pub open spec fn wf(&self) -> bool {
        &&& self.levels@.len() == 257
        &&& forall|d: int| 0 <= d <= 256 ==> (#[trigger] self.levels@[d])@ == empty_digest(d)
    }

    /// The digest at depth `d`.
    pub open spec fn at(&self, d: int) -> NodeHash {
        self.levels@[d]
    }

    /// Builds the table from the leaves up.
    pub fn new() -> (r: EmptyTree)
        ensures
            r.wf(),
    {
        let zero = LeafNode::new([0u8; 32], 0);
        assert(zero.value@ =~= Seq::new(32, |i: int| 0u8));
        let mut rev: Vec<NodeHash> = Vec::new();
        rev.push(zero.hash);
        let mut k: usize = 0;
        while k < 256
            invariant
                0 <= k <= 256,
                rev@.len() == k + 1,
                forall|j: int| 0 <= j <= k ==> (#[trigger] rev@[j])@ == empty_digest(256 - j),
            decreases 256 - k,
        {
            let below = rev[k];
            let mut pre: Vec<u8> = Vec::new();
            push_bytes(&mut pre, &below.0);
            push_bytes(&mut pre, &below.0);
            push_be64(&mut pre, 0);
            rev.push(NodeHash(sha256(&pre)));
            k = k + 1;
        }
        let mut levels: Vec<NodeHash> = Vec::new();
        let mut d: usize = 0;
        while d <= 256
            invariant
                0 <= d <= 257,
                rev@.len() == 257,
                forall|j: int| 0 <= j <= 256 ==> (#[trigger] rev@[j])@ == empty_digest(256 - j),
                levels@.len() == d,
                forall|j: int| 0 <= j < d ==> (#[trigger] levels@[j])@ == empty_digest(j),
            decreases 257 - d,
        {
            levels.push(rev[256 - d]);
            d = d + 1;
        }
        EmptyTree { levels }
    }

    /// The empty subtree rooted at depth `d`.
    pub fn node_at(&self, d: usize) -> (r: Node)
        requires
            self.wf(),
            d <= 256,
        ensures
            r == Node::Empty(self.at(d as int)),
            r.wf(d as int),
            r.sum_of() == 0,
    {
        Node::Empty(self.levels[d])
    }

    /// The digest of the empty subtree rooted at depth `d`.
    pub fn hash_at(&self, d: usize) -> (r: NodeHash)
        requires
            self.wf(),
            d <= 256,
        ensures
            r@ == empty_digest(d as int),
    {
        self.levels[d]
    }
}

/// Every empty-subtree digest follows the recursive definition and every
/// empty subtree sums to zero.
pub proof fn lemma_empty_levels(t: EmptyTree, d: int)
    requires
        t.wf(),
        0 <= d <= 256,
    ensures
        d == 256 ==> t.at(d)@ == leaf_digest(Seq::new(32, |i: int| 0u8), 0),
        d < 256 ==> t.at(d)@ == branch_digest(t.at(d + 1)@, t.at(d + 1)@, 0),
        Node::Empty(t.at(d)).sum_of() == 0,
{
}

/// In every well-formed branch the sum is the sum of the children's sums.
pub proof fn lemma_branch_sum(n: Node, d: int)
    requires
        n.wf(d),
        n is Branch,
    ensures
        n->Branch_0.sum as int == n->Branch_0.left.sum_of() as int
            + n->Branch_0.right.sum_of() as int,
{
}

} // verus!
