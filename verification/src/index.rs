//! The balanced index: an ordered, height-balanced (AVL) binary search
//! structure over `(size, start)` keys.
//!
//! Every free block is registered here under the composite key
//! `(size, start)` — the pair, never the size alone, so that distinct
//! same-size blocks never collide. The in-order key sequence is
//! non-decreasing in `(size, start)`, which makes the leftmost match of
//! `find_at_least` the best fit by size with the lowest address as the
//! tie-break.

use vstd::prelude::*;

use vstd::arithmetic::power2::lemma2_to64;
use vstd::arithmetic::power2::lemma_pow2_strictly_increases;
use vstd::arithmetic::power2::lemma_pow2_unfold;
use vstd::arithmetic::power2::pow2;

use crate::AllocError;

verus! {

/// Strict lexicographic order on `(size, start)` keys: smaller size first,
/// lower start address breaking ties between equal sizes.
pub open spec fn key_lt(a: (int, int), b: (int, int)) -> bool {
    a.0 < b.0 || (a.0 == b.0 && a.1 < b.1)
}

struct Node {
    size: usize,
    start: usize,
    /// Height of the subtree rooted here, plus one (so an absent subtree
    /// counts as zero). A leaf stores 1.
    h1: usize,
    left: Option<Box<Node>>,
    right: Option<Box<Node>>,
}

/// A height-balanced search index over `(size, start)` keys.
///
/// Both mutating operations rebalance on the path back to the root, so the
/// two subtree heights of every node never differ by more than one level;
/// insert, remove and the searches are all logarithmic in the number of
/// entries.
pub struct Index {
    root: Option<Box<Node>>,
}

impl Node {
    spec fn key(self) -> (int, int) {
        (self.size as int, self.start as int)
    }

    spec fn opt_set(node: Option<Box<Node>>) -> Set<(int, int)>
        decreases node,
    {
        match node {
            None => Set::empty(),
            Some(n) => n.key_set(),
        }
    }

    spec fn key_set(self) -> Set<(int, int)>
        decreases self,
    {
        Node::opt_set(self.left).union(Node::opt_set(self.right)).insert(self.key())
    }

    spec fn opt_count(node: Option<Box<Node>>) -> nat
        decreases node,
    {
        match node {
            None => 0,
            Some(n) => n.count(),
        }
    }

    spec fn count(self) -> nat
        decreases self,
    {
        1 + Node::opt_count(self.left) + Node::opt_count(self.right)
    }

    spec fn opt_sum(node: Option<Box<Node>>) -> int
        decreases node,
    {
        match node {
            None => 0,
            Some(n) => n.sum(),
        }
    }

    /// Total of the size components of all keys in the subtree.
    spec fn sum(self) -> int
        decreases self,
    {
        self.size + Node::opt_sum(self.left) + Node::opt_sum(self.right)
    }

    /// Height with the classic convention: an empty subtree has height -1,
    /// a leaf has height 0.
    spec fn opt_height(node: Option<Box<Node>>) -> int
        decreases node,
    {
        match node {
            None => -1,
            Some(n) => n.height(),
        }
    }

    spec fn height(self) -> int
        decreases self,
    {
        let hl = Node::opt_height(self.left);
        let hr = Node::opt_height(self.right);
        1 + if hl >= hr { hl } else { hr }
    }

    spec fn opt_wf(node: Option<Box<Node>>) -> bool
        decreases node,
    {
        match node {
            None => true,
            Some(n) => n.wf(),
        }
    }

    /// Search-tree order, correct stored heights, and the balance rule
    /// (the two subtree heights differ by at most one), at every node.
    spec fn wf(self) -> bool
        decreases self,
    {
        &&& (forall|p: (int, int)| #[trigger] Node::opt_set(self.left).contains(p)
                ==> key_lt(p, self.key()))
        &&& (forall|p: (int, int)| #[trigger] Node::opt_set(self.right).contains(p)
                ==> key_lt(self.key(), p))
        &&& self.h1 == self.height() + 1
        &&& Node::opt_height(self.left) - Node::opt_height(self.right) <= 1
        &&& Node::opt_height(self.right) - Node::opt_height(self.left) <= 1
        &&& Node::opt_wf(self.left)
        &&& Node::opt_wf(self.right)
    }
}

/// Unfold the recursive measures of a node into those of its two subtrees.
proof fn lemma_node_parts(n: Node)
    ensures
        n.key_set() == Node::opt_set(n.left).union(Node::opt_set(n.right)).insert(n.key()),
        n.count() == 1 + Node::opt_count(n.left) + Node::opt_count(n.right),
        n.sum() == n.size + Node::opt_sum(n.left) + Node::opt_sum(n.right),
        ({
            let hl = Node::opt_height(n.left);
            let hr = Node::opt_height(n.right);
            n.height() == 1 + if hl >= hr { hl } else { hr }
        }),
{
}

/// A well-formed subtree's height is never below -1, the height of an
/// empty one (the stored height-plus-one field cannot go negative).
proof fn lemma_height_nonneg(node: Option<Box<Node>>)
    requires
        Node::opt_wf(node),
    ensures
        Node::opt_height(node) >= -1,
{
    match node {
        None => {}
        Some(n) => {
            assert(n.h1 >= 0);
        }
    }
}

/// Along any branch the height gains at least one node, so the height is
/// always strictly below the number of entries.
proof fn lemma_height_lt_count(node: Option<Box<Node>>)
    ensures
        Node::opt_height(node) + 1 <= Node::opt_count(node),
    decreases node,
{
    match node {
        None => {}
        Some(n) => {
            lemma_height_lt_count(n.left);
            lemma_height_lt_count(n.right);
        }
    }
}

/// Every key in a subtree contributes its (non-negative) size to the sum,
/// so the sum is at least the size component of any member.
proof fn lemma_member_le_sum(node: Option<Box<Node>>, p: (int, int))
    requires
        Node::opt_set(node).contains(p),
        0 <= p.0,
    ensures
        p.0 <= Node::opt_sum(node),
        0 <= Node::opt_sum(node),
    decreases node,
{
    lemma_sum_nonneg(node);
    match node {
        None => {}
        Some(n) => {
            lemma_sum_nonneg(n.left);
            lemma_sum_nonneg(n.right);
            if Node::opt_set(n.left).contains(p) {
                lemma_member_le_sum(n.left, p);
            } else if Node::opt_set(n.right).contains(p) {
                lemma_member_le_sum(n.right, p);
            }
        }
    }
}

proof fn lemma_sum_nonneg(node: Option<Box<Node>>)
    ensures
        0 <= Node::opt_sum(node),
    decreases node,
{
    match node {
        None => {}
        Some(n) => {
            lemma_sum_nonneg(n.left);
            lemma_sum_nonneg(n.right);
        }
    }
}

/// The balance rule forces a minimum population: a well-formed subtree of
/// height `h` holds at least `pow2((h + 1) / 2) - 1` keys.
proof fn lemma_min_count(node: Option<Box<Node>>)
    requires
        Node::opt_wf(node),
    ensures
        pow2(((Node::opt_height(node) + 1) / 2) as nat) <= Node::opt_count(node) + 1,
    decreases node,
{
    lemma2_to64();
    match node {
        None => {}
        Some(n) => {
            lemma_min_count(n.left);
            lemma_min_count(n.right);
            lemma_height_nonneg(n.left);
            lemma_height_nonneg(n.right);
            let h = Node::opt_height(node);
            let k = ((h + 1) / 2) as nat;
            if k >= 1 {
                let kl = ((Node::opt_height(n.left) + 1) / 2) as nat;
                let kr = ((Node::opt_height(n.right) + 1) / 2) as nat;
                assert(((k - 1) as nat) <= kl && ((k - 1) as nat) <= kr);
                assert(pow2((k - 1) as nat) <= Node::opt_count(n.left) + 1) by {
                    if ((k - 1) as nat) < kl {
                        lemma_pow2_strictly_increases((k - 1) as nat, kl);
                    }
                }
                assert(pow2((k - 1) as nat) <= Node::opt_count(n.right) + 1) by {
                    if ((k - 1) as nat) < kr {
                        lemma_pow2_strictly_increases((k - 1) as nat, kr);
                    }
                }
                lemma_pow2_unfold(k);
            }
        }
    }
}

/// Since every key's size component is at least one byte, an index never
/// holds more entries than the total of the sizes it indexes.
proof fn lemma_count_le_sum(node: Option<Box<Node>>)
    requires
        forall|p: (int, int)| #[trigger] Node::opt_set(node).contains(p) ==> 1 <= p.0,
    ensures
        Node::opt_count(node) <= Node::opt_sum(node),
    decreases node,
{
    match node {
        None => {}
        Some(n) => {
            assert(Node::opt_set(node).contains(n.key()));
            assert forall|p: (int, int)| #[trigger] Node::opt_set(n.left).contains(p)
                implies 1 <= p.0 by {
                assert(Node::opt_set(node).contains(p));
            }
            assert forall|p: (int, int)| #[trigger] Node::opt_set(n.right).contains(p)
                implies 1 <= p.0 by {
                assert(Node::opt_set(node).contains(p));
            }
            lemma_count_le_sum(n.left);
            lemma_count_le_sum(n.right);
        }
    }
}

impl Node {
    /// Stored height-plus-one of an optional subtree.
    fn opt_h1(node: &Option<Box<Node>>) -> (h: usize)
        requires
            Node::opt_wf(*node),
        ensures
            h == Node::opt_height(*node) + 1,
    {
        match node {
            None => 0,
            Some(n) => n.h1,
        }
    }

    /// Exact search for the key `(size, start)`.
    fn opt_contains(node: &Option<Box<Node>>, size: usize, start: usize) -> (r: bool)
        requires
            Node::opt_wf(*node),
        ensures
            r == Node::opt_set(*node).contains((size as int, start as int)),
        decreases *node,
    {
        match node {
            None => false,
            Some(n) => {
                if size == n.size && start == n.start {
                    true
                } else if size < n.size || (size == n.size && start < n.start) {
                    assert(!Node::opt_set(n.right).contains((size as int, start as int)));
                    Node::opt_contains(&n.left, size, start)
                } else {
                    assert(!Node::opt_set(n.left).contains((size as int, start as int)));
                    Node::opt_contains(&n.right, size, start)
                }
            }
        }
    }

    /// Best fit by size: the least key whose size component is at least
    /// `size`, in `(size, start)` order.
    fn opt_find_at_least(node: &Option<Box<Node>>, size: usize) -> (r: Option<(usize, usize)>)
        requires
            Node::opt_wf(*node),
        ensures
            match r {
                Some(p) => {
                    &&& Node::opt_set(*node).contains((p.0 as int, p.1 as int))
                    &&& p.0 >= size
                    &&& forall|q: (int, int)|
                        #[trigger] Node::opt_set(*node).contains(q) && q.0 >= size
                            ==> (q == (p.0 as int, p.1 as int)
                                 || key_lt((p.0 as int, p.1 as int), q))
                },
                None => forall|q: (int, int)|
                    #[trigger] Node::opt_set(*node).contains(q) ==> q.0 < size,
            },
        decreases *node,
    {
        match node {
            None => None,
            Some(n) => {
                if n.size >= size {
                    match Node::opt_find_at_least(&n.left, size) {
                        Some(p) => {
                            assert(Node::opt_set(n.left).contains((p.0 as int, p.1 as int)));
                            assert(key_lt((p.0 as int, p.1 as int), n.key()));
                            assert forall|q: (int, int)|
                                #[trigger] Node::opt_set(*node).contains(q) && q.0 >= size
                                implies (q == (p.0 as int, p.1 as int)
                                         || key_lt((p.0 as int, p.1 as int), q)) by {
                                if Node::opt_set(n.right).contains(q) {
                                    assert(key_lt(n.key(), q));
                                }
                            }
                            Some(p)
                        }
                        None => {
                            assert forall|q: (int, int)|
                                #[trigger] Node::opt_set(*node).contains(q) && q.0 >= size
                                implies (q == n.key() || key_lt(n.key(), q)) by {
                                if Node::opt_set(n.left).contains(q) {
                                    assert(q.0 < size);
                                } else if Node::opt_set(n.right).contains(q) {
                                    assert(key_lt(n.key(), q));
                                }
                            }
                            Some((n.size, n.start))
                        }
                    }
                } else {
                    let r = Node::opt_find_at_least(&n.right, size);
                    proof {
                        assert forall|q: (int, int)|
                            #[trigger] Node::opt_set(*node).contains(q) && q.0 >= size
                            implies Node::opt_set(n.right).contains(q) by {
                            if Node::opt_set(n.left).contains(q) {
                                assert(key_lt(q, n.key()));
                            }
                        }
                    }
                    r
                }
            }
        }
    }

    /// The greatest key in `(size, start)` order; its size component is the
    /// largest size present.
    fn opt_max_key(node: &Option<Box<Node>>) -> (r: Option<(usize, usize)>)
        requires
            Node::opt_wf(*node),
        ensures
            match r {
                Some(p) => {
                    &&& Node::opt_set(*node).contains((p.0 as int, p.1 as int))
                    &&& forall|q: (int, int)|
                        #[trigger] Node::opt_set(*node).contains(q)
                            ==> (q == (p.0 as int, p.1 as int)
                                 || key_lt(q, (p.0 as int, p.1 as int)))
                },
                None => Node::opt_set(*node).is_empty(),
            },
        decreases *node,
    {
        match node {
            None => {
                assert(Node::opt_set(*node) =~= Set::empty());
                None
            }
            Some(n) => {
                match Node::opt_max_key(&n.right) {
                    Some(p) => {
                        assert(Node::opt_set(n.right).contains((p.0 as int, p.1 as int)));
                        assert(key_lt(n.key(), (p.0 as int, p.1 as int)));
                        assert forall|q: (int, int)| #[trigger] Node::opt_set(*node).contains(q)
                            implies (q == (p.0 as int, p.1 as int)
                                     || key_lt(q, (p.0 as int, p.1 as int))) by {
                            if Node::opt_set(n.left).contains(q) {
                                assert(key_lt(q, n.key()));
                            }
                        }
                        Some(p)
                    }
                    None => {
                        assert(Node::opt_set(n.right).is_empty());
                        assert forall|q: (int, int)| #[trigger] Node::opt_set(*node).contains(q)
                            implies (q == n.key() || key_lt(q, n.key())) by {
                            if Node::opt_set(n.right).contains(q) {
                                assert(false);
                            } else if Node::opt_set(n.left).contains(q) {
                                assert(key_lt(q, n.key()));
                            }
                        }
                        Some((n.size, n.start))
                    }
                }
            }
        }
    }

    /// Assemble a node over two well-formed subtrees, recomputing the
    /// stored height.
    fn mk(size: usize, start: usize, left: Option<Box<Node>>, right: Option<Box<Node>>)
        -> (n: Box<Node>)
        requires
            Node::opt_wf(left),
            Node::opt_wf(right),
            Node::opt_height(left) + 2 <= usize::MAX,
            Node::opt_height(right) + 2 <= usize::MAX,
        ensures
            n.size == size,
            n.start == start,
            n.left == left,
            n.right == right,
            n.key() == (size as int, start as int),
            n.h1 == n.height() + 1,
            n.key_set() == Node::opt_set(left).union(Node::opt_set(right))
                .insert((size as int, start as int)),
            n.count() == 1 + Node::opt_count(left) + Node::opt_count(right),
            n.sum() == size + Node::opt_sum(left) + Node::opt_sum(right),
            ({
                let hl = Node::opt_height(left);
                let hr = Node::opt_height(right);
                n.height() == 1 + if hl >= hr { hl } else { hr }
            }),
            ({
                let k = (size as int, start as int);
                let hl = Node::opt_height(left);
                let hr = Node::opt_height(right);
                ((forall|p: (int, int)| #[trigger] Node::opt_set(left).contains(p)
                        ==> key_lt(p, k))
                    && (forall|p: (int, int)| #[trigger] Node::opt_set(right).contains(p)
                        ==> key_lt(k, p))
                    && hl - hr <= 1 && hr - hl <= 1) ==> n.wf()
            }),
    {
        let a = Node::opt_h1(&left);
        let b = Node::opt_h1(&right);
        let h1 = 1 + if a >= b { a } else { b };
        Box::new(Node { size, start, h1, left, right })
    }

    /// Restore the balance rule at a node whose subtrees are themselves
    /// well formed and whose heights differ by at most two, using a single
    /// or double rotation; the "inner" case (the taller child leaning
    /// opposite to the overall imbalance) pre-rotates that child.
    #[verifier::rlimit(80)]
    fn rebalance(n: Box<Node>) -> (r: Box<Node>)
        requires
            forall|p: (int, int)| #[trigger] Node::opt_set(n.left).contains(p)
                ==> key_lt(p, n.key()),
            forall|p: (int, int)| #[trigger] Node::opt_set(n.right).contains(p)
                ==> key_lt(n.key(), p),
            Node::opt_wf(n.left),
            Node::opt_wf(n.right),
            Node::opt_height(n.left) - Node::opt_height(n.right) <= 2,
            Node::opt_height(n.right) - Node::opt_height(n.left) <= 2,
            Node::opt_height(n.left) + 2 <= usize::MAX,
            Node::opt_height(n.right) + 2 <= usize::MAX,
        ensures
            r.wf(),
            r.key_set() == n.key_set(),
            r.count() == n.count(),
            r.sum() == n.sum(),
            ({
                let hl = Node::opt_height(n.left);
                let hr = Node::opt_height(n.right);
                let hstar = 1 + if hl >= hr { hl } else { hr };
                &&& (r.height() == hstar || r.height() == hstar - 1)
                &&& (hl - hr <= 1 && hr - hl <= 1 ==> r.height() == hstar)
            }),
    {
        let mut n = n;
        let ghost old_n = *n;
        let a = Node::opt_h1(&n.left);
        let b = Node::opt_h1(&n.right);
        if a > b + 1 {
            // left-heavy by two levels.
            let mut l = n.left.take().unwrap();
            let ghost old_l = *l;
            proof {
                lemma_node_parts(old_n);
                lemma_node_parts(old_l);
                assert(Node::opt_set(old_n.left) == old_l.key_set());
                assert(Node::opt_set(old_n.left).contains(old_l.key()));
            }
            if Node::opt_h1(&l.left) >= Node::opt_h1(&l.right) {
                // outer case: one right rotation.
                let lr = l.right.take();
                let nr = Node::mk(n.size, n.start, lr, n.right.take());
                proof {
                    assert forall|p: (int, int)| #[trigger] Node::opt_set(old_l.right).contains(p)
                        implies key_lt(p, old_n.key()) by {
                        assert(Node::opt_set(old_n.left).contains(p));
                    }
                    assert(nr.wf());
                }
                let r = Node::mk(l.size, l.start, l.left.take(), Some(nr));
                proof {
                    assert(Node::opt_set(Some(nr)) == nr.key_set());
                    assert forall|p: (int, int)| #[trigger] Node::opt_set(Some(nr)).contains(p)
                        implies key_lt(old_l.key(), p) by {
                        if Node::opt_set(old_l.right).contains(p) {
                            assert(key_lt(old_l.key(), p));
                        } else if Node::opt_set(old_n.right).contains(p) {
                            assert(key_lt(old_n.key(), p));
                            assert(key_lt(old_l.key(), old_n.key()));
                        } else {
                            assert(p == old_n.key());
                            assert(key_lt(old_l.key(), old_n.key()));
                        }
                    }
                    assert(r.wf());
                    assert(r.key_set() =~= old_n.key_set());
                }
                r
            } else {
                // inner case: pre-rotate the left child to the left, then
                // rotate right.
                let mut lr = l.right.take().unwrap();
                let ghost old_lr = *lr;
                proof {
                    assert(old_l.wf());
                    assert(old_lr.wf());
                    lemma_node_parts(old_lr);
                    assert(Node::opt_set(old_l.right) == old_lr.key_set());
                    assert(Node::opt_set(old_l.right).contains(old_lr.key()));
                    assert(key_lt(old_l.key(), old_lr.key()));
                    assert(Node::opt_set(old_n.left).contains(old_lr.key()));
                    assert(key_lt(old_lr.key(), old_n.key()));
                }
                let mid_l = lr.left.take();
                let mid_r = lr.right.take();
                let nl = Node::mk(l.size, l.start, l.left.take(), mid_l);
                proof {
                    assert forall|p: (int, int)| #[trigger] Node::opt_set(old_lr.left).contains(p)
                        implies key_lt(old_l.key(), p) by {
                        assert(Node::opt_set(old_l.right).contains(p));
                    }
                    assert(nl.wf());
                }
                let nr = Node::mk(n.size, n.start, mid_r, n.right.take());
                proof {
                    assert forall|p: (int, int)| #[trigger] Node::opt_set(old_lr.right).contains(p)
                        implies key_lt(p, old_n.key()) by {
                        assert(Node::opt_set(old_l.right).contains(p));
                        assert(Node::opt_set(old_n.left).contains(p));
                    }
                    assert(nr.wf());
                }
                let r = Node::mk(lr.size, lr.start, Some(nl), Some(nr));
                proof {
                    assert(Node::opt_set(Some(nl)) == nl.key_set());
                    assert(Node::opt_set(Some(nr)) == nr.key_set());
                    assert forall|p: (int, int)| #[trigger] Node::opt_set(Some(nl)).contains(p)
                        implies key_lt(p, old_lr.key()) by {
                        if Node::opt_set(old_l.left).contains(p) {
                            assert(key_lt(p, old_l.key()));
                        } else if Node::opt_set(old_lr.left).contains(p) {
                            assert(Node::opt_set(old_l.right).contains(p));
                            assert(key_lt(p, old_lr.key()));
                        } else {
                            assert(p == old_l.key());
                        }
                    }
                    assert forall|p: (int, int)| #[trigger] Node::opt_set(Some(nr)).contains(p)
                        implies key_lt(old_lr.key(), p) by {
                        if Node::opt_set(old_lr.right).contains(p) {
                            assert(Node::opt_set(old_l.right).contains(p));
                            assert(key_lt(old_lr.key(), p));
                        } else if Node::opt_set(old_n.right).contains(p) {
                            assert(key_lt(old_n.key(), p));
                        } else {
                            assert(p == old_n.key());
                        }
                    }
                    assert(r.wf());
                    assert(r.key_set() =~= old_n.key_set());
                }
                r
            }
        } else if b > a + 1 {
            // right-heavy by two levels.
            let mut rgt = n.right.take().unwrap();
            let ghost old_r = *rgt;
            proof {
                lemma_node_parts(old_n);
                lemma_node_parts(old_r);
                assert(Node::opt_set(old_n.right) == old_r.key_set());
                assert(Node::opt_set(old_n.right).contains(old_r.key()));
            }
            if Node::opt_h1(&rgt.right) >= Node::opt_h1(&rgt.left) {
                // outer case: one left rotation.
                let rl = rgt.left.take();
                let nl = Node::mk(n.size, n.start, n.left.take(), rl);
                proof {
                    assert forall|p: (int, int)| #[trigger] Node::opt_set(old_r.left).contains(p)
                        implies key_lt(old_n.key(), p) by {
                        assert(Node::opt_set(old_n.right).contains(p));
                    }
                    assert(nl.wf());
                }
                let r = Node::mk(rgt.size, rgt.start, Some(nl), rgt.right.take());
                proof {
                    assert(Node::opt_set(Some(nl)) == nl.key_set());
                    assert forall|p: (int, int)| #[trigger] Node::opt_set(Some(nl)).contains(p)
                        implies key_lt(p, old_r.key()) by {
                        if Node::opt_set(old_r.left).contains(p) {
                            assert(key_lt(p, old_r.key()));
                        } else if Node::opt_set(old_n.left).contains(p) {
                            assert(key_lt(p, old_n.key()));
                            assert(key_lt(old_n.key(), old_r.key()));
                        } else {
                            assert(p == old_n.key());
                            assert(key_lt(old_n.key(), old_r.key()));
                        }
                    }
                    assert(r.wf());
                    assert(r.key_set() =~= old_n.key_set());
                }
                r
            } else {
                // inner case: pre-rotate the right child to the right, then
                // rotate left.
                let mut rl = rgt.left.take().unwrap();
                let ghost old_rl = *rl;
                proof {
                    assert(old_r.wf());
                    assert(old_rl.wf());
                    lemma_node_parts(old_rl);
                    assert(Node::opt_set(old_r.left) == old_rl.key_set());
                    assert(Node::opt_set(old_r.left).contains(old_rl.key()));
                    assert(key_lt(old_rl.key(), old_r.key()));
                    assert(Node::opt_set(old_n.right).contains(old_rl.key()));
                    assert(key_lt(old_n.key(), old_rl.key()));
                }
                let mid_l = rl.left.take();
                let mid_r = rl.right.take();
                let nl = Node::mk(n.size, n.start, n.left.take(), mid_l);
                proof {
                    assert forall|p: (int, int)| #[trigger] Node::opt_set(old_rl.left).contains(p)
                        implies key_lt(old_n.key(), p) by {
                        assert(Node::opt_set(old_r.left).contains(p));
                        assert(Node::opt_set(old_n.right).contains(p));
                    }
                    assert(nl.wf());
                }
                let nr = Node::mk(rgt.size, rgt.start, mid_r, rgt.right.take());
                proof {
                    assert forall|p: (int, int)| #[trigger] Node::opt_set(old_rl.right).contains(p)
                        implies key_lt(p, old_r.key()) by {
                        assert(Node::opt_set(old_r.left).contains(p));
                    }
                    assert(nr.wf());
                }
                let r = Node::mk(rl.size, rl.start, Some(nl), Some(nr));
                proof {
                    assert(Node::opt_set(Some(nl)) == nl.key_set());
                    assert(Node::opt_set(Some(nr)) == nr.key_set());
                    assert forall|p: (int, int)| #[trigger] Node::opt_set(Some(nl)).contains(p)
                        implies key_lt(p, old_rl.key()) by {
                        if Node::opt_set(old_rl.left).contains(p) {
                            assert(Node::opt_set(old_r.left).contains(p));
                            assert(key_lt(p, old_rl.key()));
                        } else if Node::opt_set(old_n.left).contains(p) {
                            assert(key_lt(p, old_n.key()));
                        } else {
                            assert(p == old_n.key());
                        }
                    }
                    assert forall|p: (int, int)| #[trigger] Node::opt_set(Some(nr)).contains(p)
                        implies key_lt(old_rl.key(), p) by {
                        if Node::opt_set(old_rl.right).contains(p) {
                            assert(Node::opt_set(old_r.left).contains(p));
                            assert(key_lt(old_rl.key(), p));
                        } else if Node::opt_set(old_r.right).contains(p) {
                            assert(key_lt(old_r.key(), p));
                            assert(key_lt(old_rl.key(), old_r.key()));
                        } else {
                            assert(p == old_r.key());
                        }
                    }
                    assert(r.wf());
                    assert(r.key_set() =~= old_n.key_set());
                }
                r
            }
        } else {
            let h1 = 1 + if a >= b { a } else { b };
            n.h1 = h1;
            proof {
                lemma_node_parts(old_n);
                lemma_node_parts(*n);
                assert(n.left == old_n.left && n.right == old_n.right);
                assert(n.key_set() =~= old_n.key_set());
                assert(n.wf());
            }
            n
        }
    }

    fn opt_insert(node: &mut Option<Box<Node>>, size: usize, start: usize) -> (inserted: bool)
        requires
            Node::opt_wf(*old(node)),
            Node::opt_count(*old(node)) < usize::MAX,
        ensures
            Node::opt_wf(*final(node)),
            inserted == !Node::opt_set(*old(node)).contains((size as int, start as int)),
            !inserted ==> *final(node) == *old(node),
            inserted ==> {
                &&& Node::opt_set(*final(node))
                    == Node::opt_set(*old(node)).insert((size as int, start as int))
                &&& Node::opt_count(*final(node)) == Node::opt_count(*old(node)) + 1
                &&& Node::opt_sum(*final(node)) == Node::opt_sum(*old(node)) + size
                &&& (Node::opt_height(*final(node)) == Node::opt_height(*old(node))
                     || Node::opt_height(*final(node)) == Node::opt_height(*old(node)) + 1)
            },
        decreases *old(node),
    {
        let ghost k = (size as int, start as int);
        match node.take() {
            None => {
                *node = Some(Box::new(Node { size, start, h1: 1, left: None, right: None }));
                proof {
                    assert(Node::opt_set(*node) =~= Node::opt_set(*old(node)).insert(k));
                }
                true
            }
            Some(mut b) => {
                let ghost old_b = *b;
                if size == b.size && start == b.start {
                    *node = Some(b);
                    false
                } else if size < b.size || (size == b.size && start < b.start) {
                    assert(!Node::opt_set(old_b.right).contains(k));
                    let ins = Node::opt_insert(&mut b.left, size, start);
                    if ins {
                        proof {
                            lemma_height_lt_count(b.left);
                            lemma_height_lt_count(b.right);
                            assert forall|p: (int, int)|
                                #[trigger] Node::opt_set(b.left).contains(p)
                                implies key_lt(p, old_b.key()) by {
                                if p != k {
                                    assert(Node::opt_set(old_b.left).contains(p));
                                }
                            }
                        }
                        let ghost bm = *b;
                        let nb = Node::rebalance(b);
                        proof {
                            lemma_node_parts(old_b);
                            lemma_node_parts(bm);
                            assert(nb.key_set() =~= old_b.key_set().insert(k));
                        }
                        *node = Some(nb);
                    } else {
                        assert(*b == old_b);
                        *node = Some(b);
                    }
                    ins
                } else {
                    assert(!Node::opt_set(old_b.left).contains(k));
                    let ins = Node::opt_insert(&mut b.right, size, start);
                    if ins {
                        proof {
                            lemma_height_lt_count(b.left);
                            lemma_height_lt_count(b.right);
                            assert forall|p: (int, int)|
                                #[trigger] Node::opt_set(b.right).contains(p)
                                implies key_lt(old_b.key(), p) by {
                                if p != k {
                                    assert(Node::opt_set(old_b.right).contains(p));
                                }
                            }
                        }
                        let ghost bm = *b;
                        let nb = Node::rebalance(b);
                        proof {
                            lemma_node_parts(old_b);
                            lemma_node_parts(bm);
                            assert(nb.key_set() =~= old_b.key_set().insert(k));
                        }
                        *node = Some(nb);
                    } else {
                        assert(*b == old_b);
                        *node = Some(b);
                    }
                    ins
                }
            }
        }
    }

    /// Remove and return the least key of a non-empty subtree (the leftmost
    /// node).
    fn opt_remove_min(node: &mut Option<Box<Node>>) -> (k: (usize, usize))
        requires
            old(node).is_some(),
            Node::opt_wf(*old(node)),
        ensures
            Node::opt_wf(*final(node)),
            Node::opt_set(*old(node)).contains((k.0 as int, k.1 as int)),
            forall|q: (int, int)| #[trigger] Node::opt_set(*old(node)).contains(q)
                ==> (q == (k.0 as int, k.1 as int) || key_lt((k.0 as int, k.1 as int), q)),
            Node::opt_set(*final(node))
                == Node::opt_set(*old(node)).remove((k.0 as int, k.1 as int)),
            Node::opt_count(*final(node)) == Node::opt_count(*old(node)) - 1,
            Node::opt_sum(*final(node)) == Node::opt_sum(*old(node)) - k.0,
            Node::opt_height(*final(node)) == Node::opt_height(*old(node))
                || Node::opt_height(*final(node)) == Node::opt_height(*old(node)) - 1,
        decreases *old(node),
    {
        let mut b = node.take().unwrap();
        let ghost old_b = *b;
        if b.left.is_none() {
            let k = (b.size, b.start);
            *node = b.right.take();
            proof {
                assert(old_b.wf());
                lemma_node_parts(old_b);
                lemma_height_nonneg(old_b.right);
                assert(Node::opt_height(old_b.left) == -1);
                assert(Node::opt_count(old_b.left) == 0);
                assert(Node::opt_sum(old_b.left) == 0);
                assert(Node::opt_height(*old(node)) == old_b.height());
                assert(*node == old_b.right);
                assert(Node::opt_height(*node) == old_b.height() - 1
                    || Node::opt_height(*node) == old_b.height());
                assert(!Node::opt_set(old_b.right).contains(old_b.key()));
                assert(Node::opt_set(old_b.left) =~= Set::empty());
                assert(Node::opt_set(*node)
                    =~= old_b.key_set().remove((k.0 as int, k.1 as int)));
            }
            k
        } else {
            let k = Node::opt_remove_min(&mut b.left);
            let ghost ki = (k.0 as int, k.1 as int);
            proof {
                assert(Node::opt_set(old_b.left).contains(ki));
                assert(key_lt(ki, old_b.key()));
                assert forall|p: (int, int)| #[trigger] Node::opt_set(b.left).contains(p)
                    implies key_lt(p, old_b.key()) by {
                    assert(Node::opt_set(old_b.left).contains(p));
                }
            }
            let ghost bm = *b;
            let nb = Node::rebalance(b);
            proof {
                lemma_node_parts(old_b);
                lemma_node_parts(bm);
                assert(!Node::opt_set(old_b.right).contains(ki));
                assert(nb.key_set() =~= old_b.key_set().remove(ki));
                assert forall|q: (int, int)| #[trigger] old_b.key_set().contains(q)
                    implies (q == ki || key_lt(ki, q)) by {
                    if Node::opt_set(old_b.left).contains(q) {
                    } else if Node::opt_set(old_b.right).contains(q) {
                        assert(key_lt(old_b.key(), q));
                    } else {
                        assert(q == old_b.key());
                    }
                }
            }
            *node = Some(nb);
            proof {
                assert(Node::opt_height(*node) == nb.height());
                assert(Node::opt_height(*node) == Node::opt_height(*old(node))
                    || Node::opt_height(*node) == Node::opt_height(*old(node)) - 1);
            }
            k
        }
    }

    fn opt_remove(node: &mut Option<Box<Node>>, size: usize, start: usize) -> (removed: bool)
        requires
            Node::opt_wf(*old(node)),
        ensures
            Node::opt_wf(*final(node)),
            removed == Node::opt_set(*old(node)).contains((size as int, start as int)),
            !removed ==> *final(node) == *old(node),
            removed ==> {
                &&& Node::opt_set(*final(node))
                    == Node::opt_set(*old(node)).remove((size as int, start as int))
                &&& Node::opt_count(*final(node)) == Node::opt_count(*old(node)) - 1
                &&& Node::opt_sum(*final(node)) == Node::opt_sum(*old(node)) - size
                &&& (Node::opt_height(*final(node)) == Node::opt_height(*old(node))
                     || Node::opt_height(*final(node)) == Node::opt_height(*old(node)) - 1)
            },
        decreases *old(node),
    {
        let ghost k = (size as int, start as int);
        match node.take() {
            None => {
                *node = None;
                false
            }
            Some(mut b) => {
                let ghost old_b = *b;
                if size == b.size && start == b.start {
                    assert(!Node::opt_set(old_b.left).contains(k));
                    assert(!Node::opt_set(old_b.right).contains(k));
                    if b.left.is_none() {
                        *node = b.right.take();
                        proof {
                            assert(old_b.wf());
                            lemma_node_parts(old_b);
                            lemma_height_nonneg(old_b.right);
                            assert(Node::opt_height(old_b.left) == -1);
                            assert(Node::opt_count(old_b.left) == 0);
                            assert(Node::opt_sum(old_b.left) == 0);
                            assert(Node::opt_height(*old(node)) == old_b.height());
                            assert(Node::opt_set(old_b.left) =~= Set::empty());
                            assert(Node::opt_set(*node) =~= old_b.key_set().remove(k));
                        }
                    } else if b.right.is_none() {
                        *node = b.left.take();
                        proof {
                            assert(old_b.wf());
                            lemma_node_parts(old_b);
                            lemma_height_nonneg(old_b.left);
                            assert(Node::opt_height(old_b.right) == -1);
                            assert(Node::opt_count(old_b.right) == 0);
                            assert(Node::opt_sum(old_b.right) == 0);
                            assert(Node::opt_height(*old(node)) == old_b.height());
                            assert(Node::opt_set(old_b.right) =~= Set::empty());
                            assert(Node::opt_set(*node) =~= old_b.key_set().remove(k));
                        }
                    } else {
                        // interior node: replace the key with its in-order
                        // successor, the leftmost key of the right subtree.
                        let s = Node::opt_remove_min(&mut b.right);
                        let ghost si = (s.0 as int, s.1 as int);
                        b.size = s.0;
                        b.start = s.1;
                        proof {
                            assert(Node::opt_set(old_b.right).contains(si));
                            assert(key_lt(old_b.key(), si));
                            assert(b.key() == si);
                            assert forall|p: (int, int)|
                                #[trigger] Node::opt_set(b.left).contains(p)
                                implies key_lt(p, si) by {
                                assert(key_lt(p, old_b.key()));
                            }
                            assert forall|p: (int, int)|
                                #[trigger] Node::opt_set(b.right).contains(p)
                                implies key_lt(si, p) by {
                                assert(Node::opt_set(old_b.right).contains(p));
                                assert(p != si);
                            }
                        }
                        let ghost bm = *b;
                        let nb = Node::rebalance(b);
                        proof {
                            lemma_node_parts(old_b);
                            lemma_node_parts(bm);
                            assert(nb.key_set() =~= old_b.key_set().remove(k));
                        }
                        *node = Some(nb);
                    }
                    true
                } else if size < b.size || (size == b.size && start < b.start) {
                    assert(!Node::opt_set(old_b.right).contains(k));
                    let removed = Node::opt_remove(&mut b.left, size, start);
                    if removed {
                        proof {
                            assert forall|p: (int, int)|
                                #[trigger] Node::opt_set(b.left).contains(p)
                                implies key_lt(p, old_b.key()) by {
                                assert(Node::opt_set(old_b.left).contains(p));
                            }
                        }
                        let ghost bm = *b;
                        let nb = Node::rebalance(b);
                        proof {
                            lemma_node_parts(old_b);
                            lemma_node_parts(bm);
                            assert(nb.key_set() =~= old_b.key_set().remove(k));
                        }
                        *node = Some(nb);
                    } else {
                        assert(*b == old_b);
                        *node = Some(b);
                    }
                    removed
                } else {
                    assert(!Node::opt_set(old_b.left).contains(k));
                    let removed = Node::opt_remove(&mut b.right, size, start);
                    if removed {
                        proof {
                            assert forall|p: (int, int)|
                                #[trigger] Node::opt_set(b.right).contains(p)
                                implies key_lt(old_b.key(), p) by {
                                assert(Node::opt_set(old_b.right).contains(p));
                            }
                        }
                        let ghost bm = *b;
                        let nb = Node::rebalance(b);
                        proof {
                            lemma_node_parts(old_b);
                            lemma_node_parts(bm);
                            assert(nb.key_set() =~= old_b.key_set().remove(k));
                        }
                        *node = Some(nb);
                    } else {
                        assert(*b == old_b);
                        *node = Some(b);
                    }
                    removed
                }
            }
        }
    }
}

impl Index {
    /// The set of `(size, start)` keys currently registered.
    pub closed spec fn key_set(self) -> Set<(int, int)> {
        Node::opt_set(self.root)
    }

    /// Number of registered keys.
    pub closed spec fn count(self) -> nat {
        Node::opt_count(self.root)
    }

    /// Total of the size components of all registered keys.
    pub closed spec fn sum_sizes(self) -> int {
        Node::opt_sum(self.root)
    }

    /// Height of the index: -1 when empty, 0 for a single entry.
    pub closed spec fn height(self) -> int {
        Node::opt_height(self.root)
    }

    /// Search-tree order and the AVL balance rule hold at every node.
    pub closed spec fn wf(self) -> bool {
        Node::opt_wf(self.root)
    }

    /// The balance rule — at every node the two subtree heights differ by
    /// at most one, kept by `insert` and `remove` — bounds the depth: an
    /// index of height `h` holds at least `pow2((h + 1) / 2) - 1` keys, so
    /// the height, and with it every search, stays logarithmic in the
    /// number of entries.
    pub proof fn lemma_height_logarithmic(self)
        requires
            self.wf(),
        ensures
            pow2(((self.height() + 1) / 2) as nat) <= self.count() + 1,
    {
        lemma_min_count(self.root);
    }

    pub fn new() -> (idx: Index)
        ensures
            idx.wf(),
            idx.key_set() == Set::<(int, int)>::empty(),
            idx.count() == 0,
            idx.sum_sizes() == 0,
    {
        Index { root: None }
    }

    /// Whether the exact key `(size, start)` is registered.
    pub fn contains(&self, size: usize, start: usize) -> (r: bool)
        requires
            self.wf(),
        ensures
            r == self.key_set().contains((size as int, start as int)),
    {
        Node::opt_contains(&self.root, size, start)
    }

    /// The key with the smallest size at least `size`, ties broken by the
    /// lowest start address; `None` when no registered size reaches `size`.
    pub fn find_at_least(&self, size: usize) -> (r: Option<(usize, usize)>)
        requires
            self.wf(),
        ensures
            match r {
                Some(p) => {
                    &&& self.key_set().contains((p.0 as int, p.1 as int))
                    &&& p.0 >= size
                    &&& forall|q: (int, int)|
                        #[trigger] self.key_set().contains(q) && q.0 >= size
                            ==> (q == (p.0 as int, p.1 as int)
                                 || key_lt((p.0 as int, p.1 as int), q))
                },
                None => forall|q: (int, int)|
                    #[trigger] self.key_set().contains(q) ==> q.0 < size,
            },
    {
        Node::opt_find_at_least(&self.root, size)
    }

    /// Register a new key. A key identical to one already present is a
    /// logic error (a duplicate physical block) and is refused.
    pub fn insert(&mut self, size: usize, start: usize) -> (r: Result<(), AllocError>)
        requires
            old(self).wf(),
            old(self).count() < usize::MAX,
        ensures
            final(self).wf(),
            old(self).key_set().contains((size as int, start as int)) ==> {
                &&& r == Result::<(), AllocError>::Err(AllocError::DuplicateBlock)
                &&& *final(self) == *old(self)
            },
            !old(self).key_set().contains((size as int, start as int)) ==> {
                &&& r == Result::<(), AllocError>::Ok(())
                &&& final(self).key_set()
                    == old(self).key_set().insert((size as int, start as int))
                &&& final(self).count() == old(self).count() + 1
                &&& final(self).sum_sizes() == old(self).sum_sizes() + size
            },
    {
        let inserted = Node::opt_insert(&mut self.root, size, start);
        if inserted {
            Ok(())
        } else {
            Err(AllocError::DuplicateBlock)
        }
    }

    /// Remove the entry with exactly this key; fails when it is absent.
    pub fn remove(&mut self, size: usize, start: usize) -> (r: Result<(), AllocError>)
        requires
            old(self).wf(),
        ensures
            final(self).wf(),
            !old(self).key_set().contains((size as int, start as int)) ==> {
                &&& r == Result::<(), AllocError>::Err(AllocError::NotFound)
                &&& *final(self) == *old(self)
            },
            old(self).key_set().contains((size as int, start as int)) ==> {
                &&& r == Result::<(), AllocError>::Ok(())
                &&& final(self).key_set()
                    == old(self).key_set().remove((size as int, start as int))
                &&& final(self).count() == old(self).count() - 1
                &&& final(self).sum_sizes() == old(self).sum_sizes() - size
            },
    {
        let removed = Node::opt_remove(&mut self.root, size, start);
        if removed {
            Ok(())
        } else {
            Err(AllocError::NotFound)
        }
    }

    /// Every registered size is at least one byte, so the index never holds
    /// more entries than the total of the sizes it indexes.
    pub proof fn lemma_count_le_sum_sizes(self)
        requires
            forall|p: (int, int)| #[trigger] self.key_set().contains(p) ==> 1 <= p.0,
        ensures
            self.count() <= self.sum_sizes(),
    {
        assert forall|p: (int, int)| #[trigger] Node::opt_set(self.root).contains(p)
            implies 1 <= p.0 by {
            assert(self.key_set().contains(p));
        }
        lemma_count_le_sum(self.root);
    }

    /// A member's size never exceeds the byte total of the whole index.
    pub proof fn lemma_member_size_le_sum(self, p: (int, int))
        requires
            self.key_set().contains(p),
            0 <= p.0,
        ensures
            p.0 <= self.sum_sizes(),
            0 <= self.sum_sizes(),
    {
        lemma_member_le_sum(self.root, p);
    }

    /// The greatest registered key; its size component is the largest size
    /// present in the index.
    pub fn max_key(&self) -> (r: Option<(usize, usize)>)
        requires
            self.wf(),
        ensures
            match r {
                Some(p) => {
                    &&& self.key_set().contains((p.0 as int, p.1 as int))
                    &&& forall|q: (int, int)|
                        #[trigger] self.key_set().contains(q)
                            ==> (q == (p.0 as int, p.1 as int)
                                 || key_lt(q, (p.0 as int, p.1 as int)))
                },
                None => self.key_set().is_empty(),
            },
    {
        Node::opt_max_key(&self.root)
    }
}

} // verus!
