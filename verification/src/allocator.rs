//! The block pool and the allocator façade.
//!
//! An `Allocator` owns the partition of `[base, base + total_size)` into
//! power-of-two-sized blocks. Free blocks are registered in a balanced
//! index under `(size, start)` keys; allocated blocks are tracked in a
//! second index so that `free` can reject a block that is not currently
//! allocated. Allocation takes the best-fitting free block and splits it
//! down to the requested size class; freeing re-merges the block with its
//! buddy for as long as that buddy is itself free.

use vstd::prelude::*;

use vstd::arithmetic::div_mod::lemma_fundamental_div_mod;
use vstd::arithmetic::div_mod::lemma_fundamental_div_mod_converse;
use vstd::arithmetic::div_mod::lemma_mod_multiples_basic;
use vstd::arithmetic::div_mod::lemma_mod_multiples_vanish;
use vstd::arithmetic::power2::lemma2_to64;
use vstd::arithmetic::power2::lemma_pow2_adds;
use vstd::arithmetic::power2::lemma_pow2_pos;
use vstd::arithmetic::power2::lemma_pow2_strictly_increases;
use vstd::arithmetic::power2::lemma_pow2_unfold;
use vstd::arithmetic::power2::pow2;

use crate::index::key_lt;
use crate::index::Index;
use crate::AllocError;
use crate::Block;

verus! {

/// A pair describes a valid block of the managed range when its size is a
/// power of two of at least the minimum size class, its range lies inside
/// `[base, base + total)`, and its start is size-aligned relative to the
/// base (the alignment that makes the buddy relationship meaningful).
pub open spec fn valid_pair(p: (int, int), base: int, total: int, min_exp: nat) -> bool {
    &&& (exists|e: nat| min_exp <= e && p.0 == #[trigger] pow2(e))
    &&& base <= p.1
    &&& p.1 + p.0 <= base + total
    &&& (p.1 - base) % p.0 == 0
}

/// The two blocks' address ranges intersect.
pub open spec fn overlap(p: (int, int), q: (int, int)) -> bool {
    p.1 < q.1 + q.0 && q.1 < p.1 + p.0
}

/// Some block of `s` contains the address `a`.
pub open spec fn covered(s: Set<(int, int)>, a: int) -> bool {
    exists|p: (int, int)| #[trigger] s.contains(p) && p.1 <= a < p.1 + p.0
}

/// Some free block has exactly the size `n`.
pub open spec fn has_size(s: Set<(int, int)>, n: int) -> bool {
    exists|a: int| #[trigger] s.contains((n, a))
}

/// The blocks of `s` partition `[base, base + total)`: every block is
/// valid, no two overlap, and every address of the range is covered.
pub open spec fn blocks_wf(s: Set<(int, int)>, base: int, total: int, min_exp: nat) -> bool {
    &&& (forall|p: (int, int)| #[trigger] s.contains(p) ==> valid_pair(p, base, total, min_exp))
    &&& (forall|p: (int, int), q: (int, int)|
            #[trigger] s.contains(p) && #[trigger] s.contains(q) && p != q ==> !overlap(p, q))
    &&& (forall|a: int| base <= a < base + total ==> #[trigger] covered(s, a))
}

/// `t` is the size class a request of `size` is rounded up to: the
/// smallest power of two that is at least `size` and at least
/// `pow2(min_exp)`.
pub open spec fn is_target(t: int, size: int, min_exp: nat) -> bool {
    exists|e: nat|
        #[trigger] pow2(e) == t && min_exp <= e && size <= t
            && (e == min_exp || size > pow2((e - 1) as nat))
}

/// Some free block is large enough for a request of `size`.
pub open spec fn fits(fset: Set<(int, int)>, size: int, min_exp: nat) -> bool {
    exists|p: (int, int), t: int|
        #[trigger] fset.contains(p) && #[trigger] is_target(t, size, min_exp) && t <= p.0
}

/// What a successful allocation did: the returned block is the request's
/// size class, cut out of the best-fitting free block at that block's
/// address; the shed upper halves are the only new free blocks, the block
/// itself is now allocated, and the byte counters moved accordingly.
pub open spec fn allocate_post(pre: Allocator, post: Allocator, size: int, b: Block) -> bool {
    &&& is_target(b.size as int, size, pre.min_exp_spec())
    &&& exists|p: (int, int)|
        {
            &&& #[trigger] is_best_fit(pre.free_set(), b.size as int, p)
            &&& b.start as int == p.1
            &&& post.free_set() == pre.free_set().remove(p)
                .union(split_frees(p.0 as nat, p.1, b.size as nat))
        }
    &&& post.alloc_set() == pre.alloc_set().insert((b.size as int, b.start as int))
    &&& post.free_bytes_spec() == pre.free_bytes_spec() - b.size
    &&& post.alloc_bytes_spec() == pre.alloc_bytes_spec() + b.size
}

/// What a successful `free` did: the block's key left the allocated index,
/// the block was coalesced upward through the free set, the merged result
/// is the one new free block, and the byte counters moved by the block's
/// size.
pub open spec fn free_post(pre: Allocator, post: Allocator, b: Block) -> bool {
    let c = spec_coalesce(pre.free_set(), b.size as int, b.start as int, pre.base_spec(), 64);
    &&& post.free_set() == c.0.insert((c.1, c.2))
    &&& post.alloc_set() == pre.alloc_set().remove((b.size as int, b.start as int))
    &&& post.free_bytes_spec() == pre.free_bytes_spec() + b.size
    &&& post.alloc_bytes_spec() == pre.alloc_bytes_spec() - b.size
}

/// The best-fit rule: `p` is the free block with the smallest size at
/// least `t`, the lowest start address breaking ties among equal sizes.
pub open spec fn is_best_fit(fset: Set<(int, int)>, t: int, p: (int, int)) -> bool {
    &&& fset.contains(p)
    &&& t <= p.0
    &&& forall|q: (int, int)| #[trigger] fset.contains(q) && t <= q.0 ==> (q == p || key_lt(p, q))
}

/// The upper halves shed while splitting a block of size `s` at `a` down
/// to the size class `t`: one new free block of each intermediate size.
pub open spec fn split_frees(s: nat, a: int, t: nat) -> Set<(int, int)>
    decreases s,
{
    if s <= t || s == 0 {
        Set::empty()
    } else {
        let h = (s / 2) as int;
        split_frees(s / 2, a, t).insert((h, a + h))
    }
}

/// The buddy of a block of size `s` at offset `off` from the base: the
/// equal-size neighbour it can merge with — `off XOR s` for a size-aligned
/// offset, written arithmetically.
pub open spec fn buddy_offset(off: int, s: int) -> int {
    if (off / s) % 2 == 0 {
        off + s
    } else {
        off - s
    }
}

/// Coalescing from a block of size `s` at address `a`: while the block's
/// buddy is free, absorb it, doubling the block at the lower of the two
/// addresses. Returns the remaining free set and the final block.
pub open spec fn spec_coalesce(fset: Set<(int, int)>, s: int, a: int, base: int, fuel: nat)
    -> (Set<(int, int)>, int, int)
    decreases fuel,
{
    if fuel == 0 {
        (fset, s, a)
    } else {
        let b = base + buddy_offset(a - base, s);
        if fset.contains((s, b)) {
            let lower = if b < a { b } else { a };
            spec_coalesce(fset.remove((s, b)), 2 * s, lower, base, (fuel - 1) as nat)
        } else {
            (fset, s, a)
        }
    }
}

/// Summary of the pool: total managed bytes, how many are free and
/// allocated, and the size of the largest free block.
pub struct Stats {
    pub total: usize,
    pub free: usize,
    pub allocated: usize,
    pub largest_free_block: usize,
}

/// The allocator: the balanced index of free blocks, the index of
/// currently allocated blocks, the managed range, the size-class bounds,
/// and running byte counters for constant-time statistics.
pub struct Allocator {
    free_index: Index,
    alloc_index: Index,
    base: usize,
    total_size: usize,
    min_exp: u32,
    max_exp: u32,
    free_bytes: usize,
    alloc_bytes: usize,
}

impl Allocator {
    /// Keys of the free blocks.
    pub closed spec fn free_set(self) -> Set<(int, int)> {
        self.free_index.key_set()
    }

    /// Keys of the currently allocated blocks.
    pub closed spec fn alloc_set(self) -> Set<(int, int)> {
        self.alloc_index.key_set()
    }

    /// Keys of all blocks, free and allocated: the whole partition.
    pub open spec fn all_blocks(self) -> Set<(int, int)> {
        self.free_set().union(self.alloc_set())
    }

    pub closed spec fn base_spec(self) -> int {
        self.base as int
    }

    pub closed spec fn total_spec(self) -> int {
        self.total_size as int
    }

    pub closed spec fn min_exp_spec(self) -> nat {
        self.min_exp as nat
    }

    pub closed spec fn max_exp_spec(self) -> nat {
        self.max_exp as nat
    }

    /// Bytes held by free blocks.
    pub closed spec fn free_bytes_spec(self) -> int {
        self.free_bytes as int
    }

    /// Bytes held by allocated blocks.
    pub closed spec fn alloc_bytes_spec(self) -> int {
        self.alloc_bytes as int
    }

    /// The allocator's invariant: both indexes are well-formed search
    /// trees, the blocks partition the managed range exactly, no block is
    /// both free and allocated, and the byte counters agree with the
    /// indexed sizes and add up to the whole range.
    pub closed spec fn inv(self) -> bool {
        &&& self.free_index.wf()
        &&& self.alloc_index.wf()
        &&& self.min_exp <= self.max_exp
        &&& self.max_exp < 64
        &&& pow2(self.min_exp as nat) <= self.total_size
        &&& self.base + self.total_size <= usize::MAX
        &&& blocks_wf(self.all_blocks(), self.base as int, self.total_size as int,
                self.min_exp as nat)
        &&& self.free_set().disjoint(self.alloc_set())
        &&& self.free_bytes == self.free_index.sum_sizes()
        &&& self.alloc_bytes == self.alloc_index.sum_sizes()
        &&& self.free_bytes + self.alloc_bytes == self.total_size
    }

    /// Coverage: every address of the managed range lies in some block of
    /// the pool, free or allocated.
    pub proof fn lemma_coverage(self, addr: int)
        requires
            self.inv(),
            self.base_spec() <= addr < self.base_spec() + self.total_spec(),
        ensures
            covered(self.all_blocks(), addr),
    {
    }

    /// No overlap: two distinct blocks of the pool never share an address.
    pub proof fn lemma_no_overlap(self, p: (int, int), q: (int, int))
        requires
            self.inv(),
            self.all_blocks().contains(p),
            self.all_blocks().contains(q),
            p != q,
        ensures
            !overlap(p, q),
    {
    }

    /// A block is never both free and allocated.
    pub proof fn lemma_free_alloc_disjoint(self)
        requires
            self.inv(),
        ensures
            self.free_set().disjoint(self.alloc_set()),
    {
    }

    /// Every block of the pool is a valid block of the managed range: its
    /// size is a power of two of at least the minimum class, its range
    /// lies inside `[base, base + total)`, and its start is size-aligned
    /// relative to the base. With `lemma_coverage` this gives the full
    /// coverage statement: the union of the block ranges equals the
    /// managed range exactly.
    pub proof fn lemma_block_valid(self, p: (int, int))
        requires
            self.inv(),
            self.all_blocks().contains(p),
        ensures
            valid_pair(p, self.base_spec(), self.total_spec(), self.min_exp_spec()),
    {
    }

    /// A pool with nothing allocated can serve any request of at most the
    /// minimum block size: the range holds at least one block, and every
    /// block is at least one minimum class large.
    pub proof fn lemma_fresh_pool_fits(self, size: int)
        requires
            self.inv(),
            self.alloc_set().is_empty(),
            0 < size,
            size <= pow2(self.min_exp_spec()),
        ensures
            fits(self.free_set(), size, self.min_exp_spec()),
    {
        let minx = self.min_exp_spec();
        let t = pow2(minx) as int;
        lemma_pow2_pos(minx);
        assert(covered(self.all_blocks(), self.base_spec()));
        let p = choose|p: (int, int)|
            #[trigger] self.all_blocks().contains(p)
                && p.1 <= self.base_spec() < p.1 + p.0;
        assert(self.free_set().contains(p));
        assert(valid_pair(p, self.base_spec(), self.total_spec(), minx));
        let e = choose|e: nat| minx <= e && p.0 == #[trigger] pow2(e);
        if minx < e {
            lemma_pow2_strictly_increases(minx, e);
        }
        assert(t <= p.0);
        assert(is_target(t, size, minx));
        assert(fits(self.free_set(), size, minx));
    }
}

/// Relies on `rand::random`: an arbitrary value of the asked type; nothing
/// is promised of it, every draw may differ.
pub assume_specification<T>[ rand::random::<T> ]() -> (r: T)
    where
        rand::distributions::Standard: rand::distributions::Distribution<T>,
;

/// Compute `pow2(e)`, or report that it exceeds `limit`.
fn exp2_le(e: u32, limit: usize) -> (r: Option<usize>)
    ensures
        match r {
            Some(s) => s == pow2(e as nat) && s <= limit,
            None => pow2(e as nat) > limit,
        },
{
    if limit == 0 {
        proof {
            lemma_pow2_pos(e as nat);
        }
        return None;
    }
    let mut s: usize = 1;
    let mut i: u32 = 0;
    proof {
        lemma2_to64();
    }
    while i < e
        invariant
            i <= e,
            s == pow2(i as nat),
            s <= limit,
        decreases e - i,
    {
        if s > limit / 2 {
            proof {
                lemma_pow2_unfold((i + 1) as nat);
                if i + 1 < e {
                    lemma_pow2_strictly_increases((i + 1) as nat, e as nat);
                }
            }
            return None;
        }
        proof {
            lemma_pow2_unfold((i + 1) as nat);
        }
        s = s * 2;
        i = i + 1;
    }
    Some(s)
}

/// Draw a size-class exponent in `[min_exp, cap]`, weighting exponent `x`
/// by `max_exp - x` so that smaller classes are favoured and the initial
/// pool comes out fragmented rather than as a few giant blocks.
fn pick_exponent(min_exp: u32, cap: u32, max_exp: u32) -> (e: u32)
    requires
        min_exp <= cap <= max_exp,
        max_exp < 64,
    ensures
        min_exp <= e <= cap,
{
    let mut sum: usize = 0;
    let mut x = min_exp;
    while x <= cap
        invariant
            min_exp <= x <= cap + 1,
            cap <= max_exp < 64,
            sum <= (x - min_exp) * 64,
        decreases cap + 1 - x,
    {
        sum = sum + (max_exp - x) as usize;
        x = x + 1;
    }
    if sum == 0 {
        return cap;
    }
    let draw: usize = rand::random();
    let r = draw % sum;
    let mut cum: usize = 0;
    let mut x = min_exp;
    while x < cap
        invariant
            min_exp <= x <= cap,
            cap <= max_exp < 64,
            cum <= (x - min_exp) * 64,
        decreases cap - x,
    {
        cum = cum + (max_exp - x) as usize;
        if cum > r {
            return x;
        }
        x = x + 1;
    }
    cap
}

/// A positive multiple of `m` is at least `m`.
proof fn lemma_pos_multiple(x: int, m: int)
    requires
        1 <= m,
        0 < x,
        x % m == 0,
    ensures
        m <= x,
{
    lemma_fundamental_div_mod(x, m);
    assert(x == m * (x / m));
    assert(x / m >= 1) by (nonlinear_arith)
        requires
            x == m * (x / m),
            m >= 1,
            x > 0,
    {
    }
    assert(m * (x / m) >= m) by (nonlinear_arith)
        requires
            x / m >= 1,
            m >= 1,
    {
    }
}

/// Alignment to a size class implies alignment to every smaller class.
proof fn lemma_align_half(x: int, e: nat)
    requires
        1 <= e,
        x % (pow2(e) as int) == 0,
    ensures
        x % (pow2((e - 1) as nat) as int) == 0,
{
    let m = pow2((e - 1) as nat) as int;
    lemma_pow2_pos((e - 1) as nat);
    lemma_pow2_pos(e);
    lemma_pow2_unfold(e);
    lemma_fundamental_div_mod(x, 2 * m);
    let k = x / (2 * m);
    assert(x == 2 * m * k);
    assert(x == m * (2 * k)) by (nonlinear_arith)
        requires
            x == 2 * m * k,
    {
    }
    lemma_mod_multiples_basic(2 * k, m);
}

/// The sum of two multiples of `m` is a multiple of `m`.
proof fn lemma_mod_add(x: int, y: int, m: int)
    requires
        1 <= m,
        x % m == 0,
        y % m == 0,
    ensures
        (x + y) % m == 0,
{
    lemma_fundamental_div_mod(x, m);
    lemma_mod_multiples_vanish(x / m, y, m);
    assert(m * (x / m) + y == x + y);
}

/// Appending one size-aligned block right at the end of the tiled prefix
/// keeps the prefix a partition.
proof fn lemma_append_block(s: Set<(int, int)>, base: int, done: int, min_exp: nat, e: nat,
    blk: (int, int))
    requires
        blocks_wf(s, base, done, min_exp),
        0 <= done,
        min_exp <= e,
        blk.0 == pow2(e),
        blk.1 == base + done,
        (blk.1 - base) % blk.0 == 0,
    ensures
        blocks_wf(s.insert(blk), base, done + blk.0, min_exp),
{
    lemma_pow2_pos(e);
    let s2 = s.insert(blk);
    let total2 = done + blk.0;
    assert forall|p: (int, int)| #[trigger] s2.contains(p)
        implies valid_pair(p, base, total2, min_exp) by {
        if p == blk {
        } else {
            assert(s.contains(p));
            assert(valid_pair(p, base, done, min_exp));
        }
    }
    assert forall|p: (int, int), q: (int, int)|
        #[trigger] s2.contains(p) && #[trigger] s2.contains(q) && p != q
        implies !overlap(p, q) by {
        if p == blk {
            assert(s.contains(q));
            assert(q.1 + q.0 <= base + done);
        } else if q == blk {
            assert(s.contains(p));
            assert(p.1 + p.0 <= base + done);
        } else {
            assert(s.contains(p) && s.contains(q));
        }
    }
    assert forall|a: int| base <= a < base + total2 implies #[trigger] covered(s2, a) by {
        if a < base + done {
            assert(covered(s, a));
            let p = choose|p: (int, int)| #[trigger] s.contains(p) && p.1 <= a < p.1 + p.0;
            assert(s2.contains(p));
        } else {
            assert(s2.contains(blk) && blk.1 <= a < blk.1 + blk.0);
        }
    }
}

/// A request has exactly one target size class.
pub proof fn lemma_target_unique(t1: int, t2: int, size: int, min_exp: nat)
    requires
        is_target(t1, size, min_exp),
        is_target(t2, size, min_exp),
    ensures
        t1 == t2,
{
    let e1 = choose|e: nat|
        #[trigger] pow2(e) == t1 && min_exp <= e && size <= t1
            && (e == min_exp || size > pow2((e - 1) as nat));
    let e2 = choose|e: nat|
        #[trigger] pow2(e) == t2 && min_exp <= e && size <= t2
            && (e == min_exp || size > pow2((e - 1) as nat));
    if e1 < e2 {
        if e1 < e2 - 1 {
            lemma_pow2_strictly_increases(e1, (e2 - 1) as nat);
        }
        assert(pow2(e1) <= pow2((e2 - 1) as nat));
        assert(false);
    } else if e2 < e1 {
        if e2 < e1 - 1 {
            lemma_pow2_strictly_increases(e2, (e1 - 1) as nat);
        }
        assert(pow2(e2) <= pow2((e1 - 1) as nat));
        assert(false);
    }
}

/// When every free block is smaller than the request's size class,
/// nothing fits.
proof fn lemma_no_fit_small(fset: Set<(int, int)>, size: int, min_exp: nat, t: int)
    requires
        is_target(t, size, min_exp),
        forall|q: (int, int)| #[trigger] fset.contains(q) ==> q.0 < t,
    ensures
        !fits(fset, size, min_exp),
{
    if fits(fset, size, min_exp) {
        let (p, tt) = choose|p: (int, int), tt: int|
            #[trigger] fset.contains(p) && #[trigger] is_target(tt, size, min_exp) && tt <= p.0;
        lemma_target_unique(tt, t, size, min_exp);
        assert(p.0 < t);
        assert(false);
    }
}

/// When the request's size class already exceeds half the managed range at
/// some exponent `te` below it, no block of the range can fit the request.
proof fn lemma_no_fit_huge(fset: Set<(int, int)>, size: int, min_exp: nat, te: nat, base: int,
    total: int)
    requires
        min_exp <= te,
        pow2(te) < size,
        2 * pow2(te) > total,
        forall|q: (int, int)| #[trigger] fset.contains(q)
            ==> valid_pair(q, base, total, min_exp),
    ensures
        !fits(fset, size, min_exp),
{
    if fits(fset, size, min_exp) {
        let (p, tt) = choose|p: (int, int), tt: int|
            #[trigger] fset.contains(p) && #[trigger] is_target(tt, size, min_exp) && tt <= p.0;
        let et = choose|e: nat|
            #[trigger] pow2(e) == tt && min_exp <= e && size <= tt
                && (e == min_exp || size > pow2((e - 1) as nat));
        assert(pow2(te) < pow2(et));
        if et <= te {
            if et < te {
                lemma_pow2_strictly_increases(et, te);
            }
            assert(false);
        }
        lemma_pow2_unfold(et);
        if te < (et - 1) as nat {
            lemma_pow2_strictly_increases(te, (et - 1) as nat);
        }
        assert(pow2(te) <= pow2((et - 1) as nat));
        assert(tt >= 2 * pow2(te));
        assert(valid_pair(p, base, total, min_exp));
        assert(p.0 <= total);
        assert(false);
    }
}

/// An offset aligned to the next size class up has its buddy right above
/// it.
proof fn lemma_buddy_is_upper(off: int, e: nat)
    requires
        0 <= off,
        off % (pow2((e + 1) as nat) as int) == 0,
    ensures
        buddy_offset(off, pow2(e) as int) == off + pow2(e),
{
    let s = pow2(e) as int;
    let m = pow2((e + 1) as nat) as int;
    lemma_pow2_pos(e);
    lemma_pow2_unfold((e + 1) as nat);
    let k = off / m;
    lemma_fundamental_div_mod(off, m);
    assert(off == s * (2 * k)) by (nonlinear_arith)
        requires
            off == (2 * s) * k,
    {
    }
    lemma_fundamental_div_mod_converse(off, s, 2 * k, 0);
    lemma_mod_multiples_basic(k, 2);
}

/// Alignment to a size class implies alignment to every class below it.
proof fn lemma_align_down(x: int, i: nat, j: nat)
    requires
        i <= j,
        x % (pow2(j) as int) == 0,
    ensures
        x % (pow2(i) as int) == 0,
    decreases j - i,
{
    if i < j {
        lemma_align_half(x, j);
        lemma_align_down(x, i, (j - 1) as nat);
    }
}

/// Every half shed while splitting from class `es` down to class `et`
/// sits inside the split block, right above its own size.
proof fn lemma_split_members(es: nat, a: int, et: nat)
    requires
        et <= es,
    ensures
        forall|q: (int, int)| #[trigger] split_frees(pow2(es), a, pow2(et)).contains(q)
            ==> pow2(et) <= q.0 < pow2(es) && q.1 == a + q.0,
    decreases es - et,
{
    lemma_pow2_pos(et);
    lemma_pow2_pos(es);
    if et == es {
    } else {
        lemma_pow2_unfold(es);
        assert(pow2(es) / 2 == pow2((es - 1) as nat));
        lemma_pow2_strictly_increases(et, es);
        lemma_split_members((es - 1) as nat, a, et);
        assert forall|q: (int, int)|
            #[trigger] split_frees(pow2(es), a, pow2(et)).contains(q)
            implies pow2(et) <= q.0 < pow2(es) && q.1 == a + q.0 by {
            if q != (pow2((es - 1) as nat) as int, a + pow2((es - 1) as nat)) {
                assert(split_frees(pow2((es - 1) as nat), a, pow2(et)).contains(q));
            } else {
                lemma_pow2_strictly_increases((es - 1) as nat, es);
                if et < (es - 1) as nat {
                    lemma_pow2_strictly_increases(et, (es - 1) as nat);
                }
            }
        }
    }
}

/// Freeing the block cut out by a split walks the chain of shed halves
/// back up: each one is the buddy of the growing block, so coalescing
/// absorbs them all and continues exactly as if the original block had
/// been freed whole.
proof fn lemma_coalesce_chain(f0: Set<(int, int)>, es: nat, et: nat, a: int, base: int,
    fuel: nat)
    requires
        f0.contains((pow2(es) as int, a)),
        et <= es,
        base <= a,
        (a - base) % (pow2(es) as int) == 0,
        forall|p: (int, int), q: (int, int)|
            #[trigger] f0.contains(p) && #[trigger] f0.contains(q) && p != q ==> !overlap(p, q),
        es - et < fuel,
    ensures
        spec_coalesce(f0.remove((pow2(es) as int, a))
            .union(split_frees(pow2(es), a, pow2(et))), pow2(et) as int, a, base, fuel)
            == spec_coalesce(f0.remove((pow2(es) as int, a)), pow2(es) as int, a, base,
                (fuel - (es - et)) as nat),
    decreases es - et,
{
    let p0 = (pow2(es) as int, a);
    lemma_pow2_pos(et);
    lemma_pow2_pos(es);
    if et == es {
        assert(split_frees(pow2(es), a, pow2(et)) =~= Set::<(int, int)>::empty());
        assert(f0.remove(p0).union(split_frees(pow2(es), a, pow2(et))) =~= f0.remove(p0));
    } else {
        let t = pow2(et) as int;
        lemma_pow2_unfold((et + 1) as nat);
        lemma_pow2_strictly_increases(et, es);
        lemma_align_down(a - base, (et + 1) as nat, es);
        lemma_buddy_is_upper(a - base, et);
        // the shed half right above the block is its buddy and is free
        lemma_split_step(es, (et + 1) as nat, a);
        let f1 = f0.remove(p0).union(split_frees(pow2(es), a, pow2(et)));
        assert(split_frees(pow2(es), a, pow2(et)).contains((t, a + t)));
        assert(f1.contains((t, a + t)));
        assert(base + buddy_offset(a - base, t) == a + t);
        assert(spec_coalesce(f1, t, a, base, fuel)
            == spec_coalesce(f1.remove((t, a + t)), 2 * t, a, base, (fuel - 1) as nat));
        // taking the half out leaves the rest of the chain, untouched by
        // the original free set, whose blocks all avoid the split block
        if f0.remove(p0).contains((t, a + t)) {
            assert(f0.contains((t, a + t)) && (t, a + t) != p0);
            assert(overlap((t, a + t), p0));
            assert(false);
        }
        lemma_split_members(es, a, (et + 1) as nat);
        assert(!split_frees(pow2(es), a, pow2((et + 1) as nat)).contains((t, a + t)));
        assert(f1.remove((t, a + t))
            =~= f0.remove(p0).union(split_frees(pow2(es), a, pow2((et + 1) as nat))));
        lemma_coalesce_chain(f0, es, (et + 1) as nat, a, base, (fuel - 1) as nat);
    }
}

/// Coalescing a size-class-aligned block whose upper buddy is free merges
/// exactly the two of them into the parent block and stops there, as long
/// as the parent's own buddy is not free as well.
proof fn lemma_coalesce_restores_parent(fset: Set<(int, int)>, e: nat, a: int, base: int,
    fuel: nat)
    requires
        base <= a,
        ((a - base) % (pow2((e + 1) as nat) as int)) == 0,
        fset.contains((pow2(e) as int, a + pow2(e))),
        !fset.remove((pow2(e) as int, a + pow2(e))).contains(
            (pow2((e + 1) as nat) as int,
             base + buddy_offset(a - base, pow2((e + 1) as nat) as int))),
        2 <= fuel,
    ensures
        spec_coalesce(fset, pow2(e) as int, a, base, fuel)
            == (fset.remove((pow2(e) as int, a + pow2(e))), pow2((e + 1) as nat) as int, a),
{
    let s = pow2(e) as int;
    lemma_pow2_pos(e);
    lemma_pow2_unfold((e + 1) as nat);
    let off = a - base;
    lemma_buddy_is_upper(off, e);
    assert(base + buddy_offset(off, s) == a + s);
    let f1 = fset.remove((s, a + s));
    assert(spec_coalesce(fset, s, a, base, fuel)
        == spec_coalesce(f1, 2 * s, a, base, (fuel - 1) as nat));
    assert(spec_coalesce(f1, 2 * s, a, base, (fuel - 1) as nat) == (f1, 2 * s, a));
}

/// Round trip: allocating and immediately freeing the returned block
/// restores the pool's byte counters — the same total of free bytes and
/// of allocated bytes as before the allocation.
pub proof fn lemma_round_trip_bytes(pre: Allocator, mid: Allocator, post: Allocator,
    size: int, b: Block)
    requires
        allocate_post(pre, mid, size, b),
        free_post(mid, post, b),
    ensures
        post.free_bytes_spec() == pre.free_bytes_spec(),
        post.alloc_bytes_spec() == pre.alloc_bytes_spec(),
{
}

/// Round trip: `allocate` followed immediately by `free` of the returned
/// block restores the free pool exactly, whenever the block the allocation
/// was cut from had no free buddy of its own (with one, coalescing merges
/// further, which only lowers fragmentation; the byte counters are
/// restored in every case, see `lemma_round_trip_bytes`).
pub proof fn lemma_round_trip_exact(pre: Allocator, mid: Allocator, post: Allocator,
    size: int, b: Block, p0: (int, int), es: nat)
    requires
        pre.inv(),
        allocate_post(pre, mid, size, b),
        free_post(mid, post, b),
        mid.base_spec() == pre.base_spec(),
        is_best_fit(pre.free_set(), b.size as int, p0),
        p0.0 == pow2(es),
        !pre.free_set().remove(p0).contains(
            (pow2(es) as int,
             pre.base_spec() + buddy_offset(p0.1 - pre.base_spec(), pow2(es) as int))),
    ensures
        post.free_set() == pre.free_set(),
{
    let base = pre.base_spec();
    let f0 = pre.free_set();
    // the best fit is unique, so the block of `allocate_post` is `p0`
    let p = choose|p: (int, int)|
        {
            &&& #[trigger] is_best_fit(pre.free_set(), b.size as int, p)
            &&& b.start as int == p.1
            &&& mid.free_set() == pre.free_set().remove(p)
                .union(split_frees(p.0 as nat, p.1, b.size as nat))
        };
    assert(p == p0 || key_lt(p0, p));
    assert(p0 == p || key_lt(p, p0));
    assert(p == p0);
    // the allocated size class and the class of the block it was cut from
    let et = choose|e: nat|
        #[trigger] pow2(e) == b.size as int && pre.min_exp_spec() <= e && size <= b.size as int
            && (e == pre.min_exp_spec() || size > pow2((e - 1) as nat));
    assert(pow2(et) <= pow2(es));
    if es < et {
        lemma_pow2_strictly_increases(es, et);
        assert(false);
    }
    // the split block is a valid block of the pool
    assert(pre.all_blocks().contains(p0));
    assert(valid_pair(p0, base, pre.total_spec(), pre.min_exp_spec()));
    let ev = choose|e: nat| pre.min_exp_spec() <= e && p0.0 == #[trigger] pow2(e);
    if ev < es {
        lemma_pow2_strictly_increases(ev, es);
        assert(false);
    }
    if es < ev {
        lemma_pow2_strictly_increases(es, ev);
        assert(false);
    }
    assert((p0.1 - base) % (pow2(es) as int) == 0);
    // the chain of shed halves is at most as long as the address word
    lemma2_to64();
    lemma_pow2_pos(es);
    if 64 <= es {
        if 64 < es {
            lemma_pow2_strictly_increases(64, es);
        }
        assert(pow2(64) <= pow2(es));
        assert(p0.0 <= pre.total_spec());
        assert(false);
    }
    assert forall|x: (int, int), y: (int, int)|
        #[trigger] f0.contains(x) && #[trigger] f0.contains(y) && x != y
        implies !overlap(x, y) by {
        assert(pre.all_blocks().contains(x) && pre.all_blocks().contains(y));
    }
    lemma_coalesce_chain(f0, es, et, p0.1, base, 64);
    // from the rebuilt block, coalescing stops at once
    let rest = f0.remove(p0);
    let fuel2 = (64 - (es - et)) as nat;
    assert(spec_coalesce(rest, pow2(es) as int, p0.1, base, fuel2)
        == (rest, pow2(es) as int, p0.1));
    assert(post.free_set() =~= pre.free_set());
}

/// Coalescing correctness: freeing one half of a split while the other
/// half is already free produces exactly one free block equal to their
/// pre-split parent — provided the parent's own buddy is not free too,
/// which would only merge further.
pub proof fn lemma_free_restores_parent(pre: Allocator, post: Allocator, b: Block, e: nat)
    requires
        free_post(pre, post, b),
        b.size == pow2(e),
        pre.base_spec() <= b.start,
        ((b.start - pre.base_spec()) % (pow2((e + 1) as nat) as int)) == 0,
        pre.free_set().contains((b.size as int, b.start + b.size)),
        !pre.free_set().remove((b.size as int, b.start + b.size)).contains(
            (pow2((e + 1) as nat) as int,
             pre.base_spec() + buddy_offset(b.start - pre.base_spec(),
                pow2((e + 1) as nat) as int))),
    ensures
        post.free_set() == pre.free_set()
            .remove((b.size as int, b.start as int + b.size as int))
            .insert((pow2((e + 1) as nat) as int, b.start as int)),
{
    lemma_coalesce_restores_parent(pre.free_set(), e, b.start as int, pre.base_spec(), 64);
}

/// Splitting a block into its two halves keeps the pool a partition, and
/// neither half collides with an existing block.
proof fn lemma_split_blocks(u: Set<(int, int)>, base: int, total: int, min_exp: nat, e: nat,
    a: int)
    requires
        blocks_wf(u, base, total, min_exp),
        u.contains((pow2(e) as int, a)),
        min_exp < e,
    ensures
        ({
            let s = pow2(e) as int;
            let h = pow2((e - 1) as nat) as int;
            let u2 = u.remove((s, a)).insert((h, a)).insert((h, a + h));
            &&& blocks_wf(u2, base, total, min_exp)
            &&& !u.remove((s, a)).contains((h, a))
            &&& !u.remove((s, a)).contains((h, a + h))
        }),
{
    let s = pow2(e) as int;
    let h = pow2((e - 1) as nat) as int;
    let orig = (s, a);
    lemma_pow2_pos(e);
    lemma_pow2_pos((e - 1) as nat);
    lemma_pow2_unfold(e);
    assert(s == 2 * h);
    assert(valid_pair(orig, base, total, min_exp));
    lemma_align_half(a - base, e);
    assert(((a + h) - base) % h == 0) by {
        lemma_mod_add(a - base, h, h);
        lemma_mod_multiples_basic(1, h);
        assert(1 * h == h);
    }
    if u.remove(orig).contains((h, a)) {
        assert(u.contains((h, a)) && (h, a) != orig);
        assert(overlap((h, a), orig));
        assert(false);
    }
    if u.remove(orig).contains((h, a + h)) {
        assert(u.contains((h, a + h)) && (h, a + h) != orig);
        assert(overlap((h, a + h), orig));
        assert(false);
    }
    let u2 = u.remove(orig).insert((h, a)).insert((h, a + h));
    assert forall|p: (int, int)| #[trigger] u2.contains(p)
        implies valid_pair(p, base, total, min_exp) by {
        if p == (h, a) || p == (h, a + h) {
            assert(min_exp <= (e - 1) as nat && p.0 == pow2((e - 1) as nat));
        } else {
            assert(u.contains(p));
        }
    }
    assert forall|p: (int, int), q: (int, int)|
        #[trigger] u2.contains(p) && #[trigger] u2.contains(q) && p != q
        implies !overlap(p, q) by {
        let fresh_p = p == (h, a) || p == (h, a + h);
        let fresh_q = q == (h, a) || q == (h, a + h);
        if fresh_p && fresh_q {
        } else if fresh_p {
            assert(u.contains(q) && q != orig);
            assert(!overlap(orig, q));
        } else if fresh_q {
            assert(u.contains(p) && p != orig);
            assert(!overlap(orig, p));
        } else {
            assert(u.contains(p) && u.contains(q));
        }
    }
    assert forall|x: int| base <= x < base + total implies #[trigger] covered(u2, x) by {
        assert(covered(u, x));
        let p = choose|p: (int, int)| #[trigger] u.contains(p) && p.1 <= x < p.1 + p.0;
        if p == orig {
            if x < a + h {
                assert(u2.contains((h, a)) && a <= x < a + h);
            } else {
                assert(u2.contains((h, a + h)) && a + h <= x < a + h + h);
            }
        } else {
            assert(u2.contains(p));
        }
    }
}

/// Absorbing a block's free buddy into one block of the doubled size keeps
/// the pool a partition, and the merged block collides with nothing left.
proof fn lemma_merge_blocks(u: Set<(int, int)>, base: int, total: int, min_exp: nat, e: nat,
    a: int)
    requires
        blocks_wf(u, base, total, min_exp),
        min_exp <= e,
        u.contains((pow2(e) as int, a)),
        u.contains((pow2(e) as int, a + pow2(e))),
        (a - base) % (pow2((e + 1) as nat) as int) == 0,
    ensures
        ({
            let s = pow2(e) as int;
            let m = pow2((e + 1) as nat) as int;
            let u2 = u.remove((s, a)).remove((s, a + s)).insert((m, a));
            &&& blocks_wf(u2, base, total, min_exp)
            &&& !u.remove((s, a)).remove((s, a + s)).contains((m, a))
        }),
{
    let s = pow2(e) as int;
    let m = pow2((e + 1) as nat) as int;
    let p1 = (s, a);
    let p2 = (s, a + s);
    lemma_pow2_pos(e);
    lemma_pow2_unfold((e + 1) as nat);
    assert(m == 2 * s);
    assert(valid_pair(p1, base, total, min_exp));
    assert(valid_pair(p2, base, total, min_exp));
    let rest = u.remove(p1).remove(p2);
    if rest.contains((m, a)) {
        assert(u.contains((m, a)) && (m, a) != p1);
        assert(overlap((m, a), p1));
        assert(false);
    }
    let u2 = rest.insert((m, a));
    assert forall|p: (int, int)| #[trigger] u2.contains(p)
        implies valid_pair(p, base, total, min_exp) by {
        if p == (m, a) {
            assert((e + 1) as nat >= min_exp && p.0 == pow2((e + 1) as nat));
        } else {
            assert(u.contains(p));
        }
    }
    assert forall|p: (int, int), q: (int, int)|
        #[trigger] u2.contains(p) && #[trigger] u2.contains(q) && p != q
        implies !overlap(p, q) by {
        if p == (m, a) && q != (m, a) {
            assert(u.contains(q) && q != p1 && q != p2);
            assert(!overlap(p1, q) && !overlap(p2, q));
            assert(valid_pair(q, base, total, min_exp));
            let qe = choose|qe: nat| min_exp <= qe && q.0 == #[trigger] pow2(qe);
            lemma_pow2_pos(qe);
        } else if q == (m, a) && p != (m, a) {
            assert(u.contains(p) && p != p1 && p != p2);
            assert(!overlap(p1, p) && !overlap(p2, p));
            assert(valid_pair(p, base, total, min_exp));
            let pe = choose|pe: nat| min_exp <= pe && p.0 == #[trigger] pow2(pe);
            lemma_pow2_pos(pe);
        } else if p != (m, a) && q != (m, a) {
            assert(u.contains(p) && u.contains(q));
        }
    }
    assert forall|x: int| base <= x < base + total implies #[trigger] covered(u2, x) by {
        assert(covered(u, x));
        let p = choose|p: (int, int)| #[trigger] u.contains(p) && p.1 <= x < p.1 + p.0;
        if p == p1 || p == p2 {
            assert(u2.contains((m, a)) && a <= x < a + m);
        } else {
            assert(u2.contains(p));
        }
    }
}

/// The division/parity facts behind the buddy computation.
proof fn lemma_buddy_arith(off: int, s: int, q: int)
    requires
        1 <= s,
        0 <= off,
        off % s == 0,
        q == off / s,
    ensures
        off == s * q,
        0 <= q,
        q % 2 == 0 ==> buddy_offset(off, s) == off + s && off % (2 * s) == 0,
        q % 2 != 0 ==> s <= off && buddy_offset(off, s) == off - s && (off - s) % (2 * s) == 0,
{
    lemma_fundamental_div_mod(off, s);
    assert(q >= 0) by (nonlinear_arith)
        requires
            off == s * q,
            s >= 1,
            off >= 0,
    {
    }
    if q % 2 == 0 {
        lemma_fundamental_div_mod(q, 2);
        let k = q / 2;
        assert(off == (2 * s) * k) by (nonlinear_arith)
            requires
                off == s * q,
                q == 2 * k,
        {
        }
        lemma_mod_multiples_basic(k, 2 * s);
    } else {
        lemma_fundamental_div_mod(q, 2);
        let k = q / 2;
        assert(q == 2 * k + 1);
        assert(off >= s) by (nonlinear_arith)
            requires
                off == s * q,
                q >= 1,
                s >= 1,
        {
        }
        assert(off - s == (2 * s) * k) by (nonlinear_arith)
            requires
                off == s * q,
                q == 2 * k + 1,
        {
        }
        lemma_mod_multiples_basic(k, 2 * s);
    }
}

/// Lowering the split target by one size class sheds exactly one more
/// half-block.
proof fn lemma_split_step(es: nat, ec: nat, a: int)
    requires
        1 <= ec <= es,
    ensures
        split_frees(pow2(es), a, pow2((ec - 1) as nat))
            == split_frees(pow2(es), a, pow2(ec))
                .insert((pow2((ec - 1) as nat) as int, a + pow2((ec - 1) as nat))),
    decreases es,
{
    lemma_pow2_pos((ec - 1) as nat);
    lemma_pow2_pos(ec);
    lemma_pow2_pos(es);
    lemma_pow2_unfold(ec);
    if es == ec {
        lemma_pow2_strictly_increases((ec - 1) as nat, ec);
        assert(pow2(es) / 2 == pow2((ec - 1) as nat));
        assert(split_frees(pow2(es), a, pow2(ec)) == Set::<(int, int)>::empty());
        assert(split_frees(pow2((ec - 1) as nat), a, pow2((ec - 1) as nat))
            == Set::<(int, int)>::empty());
        assert(split_frees(pow2(es), a, pow2((ec - 1) as nat))
            =~= split_frees(pow2(es), a, pow2(ec))
                .insert((pow2((ec - 1) as nat) as int, a + pow2((ec - 1) as nat))));
    } else {
        lemma_pow2_unfold(es);
        assert(pow2(es) / 2 == pow2((es - 1) as nat));
        lemma_pow2_strictly_increases((ec - 1) as nat, es);
        lemma_pow2_strictly_increases(ec, es);
        lemma_split_step((es - 1) as nat, ec, a);
        assert(split_frees(pow2(es), a, pow2((ec - 1) as nat))
            =~= split_frees(pow2(es), a, pow2(ec))
                .insert((pow2((ec - 1) as nat) as int, a + pow2((ec - 1) as nat))));
    }
}

impl Allocator {
    /// Create the allocator over `[base, base + total_size)`, tiling the
    /// range left to right with free blocks of randomly drawn size
    /// classes, each the largest the remaining space, the class bounds and
    /// the alignment of its position admit or a smaller one, and
    /// registering every block in the free index.
    ///
    /// Fails with `RangeTooSmall` when the range cannot hold even one
    /// block of the minimum class. The range must end within the address
    /// space, the size classes must fit the address word, and a range
    /// large enough to be tiled at all must be a whole number of
    /// minimum-size blocks.
    pub fn initialize(base: usize, total_size: usize, min_exp: u32, max_exp: u32)
        -> (r: Result<Allocator, AllocError>)
        requires
            min_exp <= max_exp,
            max_exp < 64,
            base + total_size <= usize::MAX,
            (total_size as int) < pow2(min_exp as nat)
                || (total_size as int) % (pow2(min_exp as nat) as int) == 0,
        ensures
            match r {
                Result::Ok(al) => {
                    &&& pow2(min_exp as nat) <= total_size
                    &&& al.inv()
                    &&& al.base_spec() == base
                    &&& al.total_spec() == total_size
                    &&& al.min_exp_spec() == min_exp
                    &&& al.max_exp_spec() == max_exp
                    &&& al.alloc_set().is_empty()
                    &&& al.free_bytes_spec() == total_size
                    &&& al.alloc_bytes_spec() == 0
                    &&& forall|p: (int, int)| #[trigger] al.free_set().contains(p)
                            ==> p.0 <= pow2(max_exp as nat)
                },
                Result::Err(err) => {
                    &&& err == AllocError::RangeTooSmall
                    &&& total_size < pow2(min_exp as nat)
                },
            },
    {
        let min_block = match exp2_le(min_exp, total_size) {
            Some(mb) => mb,
            None => {
                return Err(AllocError::RangeTooSmall);
            }
        };
        let mut free_index = Index::new();
        let mut free_bytes: usize = 0;
        let mut remaining = total_size;
        proof {
            lemma_pow2_pos(min_exp as nat);
            assert(blocks_wf(free_index.key_set(), base as int, 0, min_exp as nat));
        }
        while remaining > 0
            invariant
                free_index.wf(),
                remaining <= total_size,
                base + total_size <= usize::MAX,
                min_exp <= max_exp,
                max_exp < 64,
                min_block == pow2(min_exp as nat),
                min_block <= total_size,
                (total_size as int) % (min_block as int) == 0,
                (remaining as int) % (min_block as int) == 0,
                blocks_wf(free_index.key_set(), base as int, (total_size - remaining) as int,
                    min_exp as nat),
                free_bytes == free_index.sum_sizes(),
                free_bytes == total_size - remaining,
                forall|p: (int, int)| #[trigger] free_index.key_set().contains(p)
                    ==> p.0 <= pow2(max_exp as nat),
            decreases remaining,
        {
            let done = total_size - remaining;
            let cur = base + done;
            let off = done;
            proof {
                lemma_pow2_pos(min_exp as nat);
                lemma_pos_multiple(remaining as int, min_block as int);
                // the tiled prefix is a multiple of the minimum class
                assert((-(remaining as int)) % (min_block as int) == 0) by {
                    lemma_fundamental_div_mod(remaining as int, min_block as int);
                    let q = (remaining as int) / (min_block as int);
                    assert(-(remaining as int) == (min_block as int) * (-q)) by (nonlinear_arith)
                        requires
                            remaining as int == (min_block as int) * q,
                    {
                    }
                    lemma_mod_multiples_basic(-q, min_block as int);
                }
                lemma_mod_add(total_size as int, -(remaining as int), min_block as int);
                assert((total_size as int) + (-(remaining as int)) == off as int);
            }
            // grow the class while the next one still fits the remaining
            // space, the bound, and the alignment of the current address
            let mut e = min_exp;
            let mut s = min_block;
            while e < max_exp
                invariant
                    min_exp <= e <= max_exp,
                    s == pow2(e as nat),
                    s <= remaining,
                    remaining <= total_size,
                    base + total_size <= usize::MAX,
                    (off as int) % (s as int) == 0,
                decreases max_exp - e,
            {
                if s > remaining / 2 {
                    break;
                }
                proof {
                    lemma_pow2_pos(e as nat);
                }
                let s2 = s * 2;
                if off % s2 != 0 {
                    break;
                }
                proof {
                    lemma_pow2_unfold((e + 1) as nat);
                }
                s = s2;
                e = e + 1;
            }
            // draw the class actually used, favouring smaller ones
            let pick = pick_exponent(min_exp, e, max_exp);
            while e > pick
                invariant
                    pick <= e <= max_exp,
                    min_exp <= pick,
                    s == pow2(e as nat),
                    s <= remaining,
                    (off as int) % (s as int) == 0,
                decreases e - pick,
            {
                proof {
                    lemma_pow2_unfold(e as nat);
                    lemma_align_half(off as int, e as nat);
                    lemma_pow2_pos((e - 1) as nat);
                }
                s = s / 2;
                e = e - 1;
            }
            proof {
                lemma_pow2_pos(e as nat);
                // the new key is fresh: every indexed block ends at or
                // before `cur`, the new one starts there
                if free_index.key_set().contains((s as int, cur as int)) {
                    assert(valid_pair((s as int, cur as int), base as int, off as int,
                        min_exp as nat));
                    assert(false);
                }
                // the index stays small enough for one more entry
                assert forall|p: (int, int)| #[trigger] free_index.key_set().contains(p)
                    implies 1 <= p.0 by {
                    let pe = choose|pe: nat| min_exp as nat <= pe && p.0 == pow2(pe);
                    lemma_pow2_pos(pe);
                }
                free_index.lemma_count_le_sum_sizes();
            }
            let ghost old_set = free_index.key_set();
            let _ = free_index.insert(s, cur);
            proof {
                lemma_append_block(old_set, base as int, off as int, min_exp as nat, e as nat,
                    (s as int, cur as int));
                // the new block keeps the size-class bound
                if e < max_exp {
                    lemma_pow2_strictly_increases(e as nat, max_exp as nat);
                }
                // divisibility of what is left
                assert((s as int) % (min_block as int) == 0) by {
                    if min_exp < e {
                        let d = (e - min_exp) as nat;
                        lemma_pow2_adds(min_exp as nat, d);
                        assert(min_exp as nat + d == e as nat);
                        assert(pow2(e as nat) == pow2(min_exp as nat) * pow2(d));
                        assert(s as int == (pow2(d) as int) * (min_block as int))
                            by (nonlinear_arith)
                            requires
                                s as int == (min_block as int) * (pow2(d) as int),
                        {
                        }
                        lemma_mod_multiples_basic(pow2(d) as int, min_block as int);
                    } else {
                        assert(s == min_block);
                        lemma_mod_multiples_basic(1, min_block as int);
                        assert(1 * (min_block as int) == min_block as int);
                    }
                }
                assert((-(s as int)) % (min_block as int) == 0) by {
                    lemma_fundamental_div_mod(s as int, min_block as int);
                    let q = (s as int) / (min_block as int);
                    assert(-(s as int) == (min_block as int) * (-q)) by (nonlinear_arith)
                        requires
                            s as int == (min_block as int) * q,
                    {
                    }
                    lemma_mod_multiples_basic(-q, min_block as int);
                }
                lemma_mod_add(remaining as int, -(s as int), min_block as int);
            }
            free_bytes = free_bytes + s;
            remaining = remaining - s;
        }
        let alloc_index = Index::new();
        let al = Allocator {
            free_index,
            alloc_index,
            base,
            total_size,
            min_exp,
            max_exp,
            free_bytes,
            alloc_bytes: 0,
        };
        proof {
            assert(al.all_blocks() =~= al.free_set());
            assert(al.alloc_set() =~= Set::empty());
        }
        Ok(al)
    }

    /// The allocator over the fixed user range: base `0x10000000`, size
    /// `0x10000000`, with size classes from 4 KiB (`2^12`) to 1 MiB
    /// (`2^20`).
    pub fn new() -> (al: Allocator)
        ensures
            al.inv(),
            al.base_spec() == 0x10000000,
            al.total_spec() == 0x10000000,
            al.min_exp_spec() == 12,
            al.max_exp_spec() == 20,
            al.alloc_set().is_empty(),
            al.free_bytes_spec() == 0x10000000,
            al.alloc_bytes_spec() == 0,
            forall|p: (int, int)| #[trigger] al.free_set().contains(p)
                ==> p.0 <= pow2(al.max_exp_spec()),
    {
        proof {
            lemma2_to64();
        }
        match Allocator::initialize(0x10000000, 0x10000000, 12, 20) {
            Ok(al) => al,
            Err(_) => {
                proof {
                    lemma2_to64();
                    assert(false);
                }
                vstd::pervasive::unreached()
            }
        }
    }

    /// Allocate a block for a request of `size` bytes.
    ///
    /// The request is rounded up to the smallest size class that holds it;
    /// the best-fitting free block — smallest adequate size, lowest start
    /// address — leaves the free index and is split down to that class,
    /// the shed upper halves staying free. Fails with `InvalidSize` for a
    /// zero-size request and with `OutOfMemory` when no free block is
    /// large enough.
    #[verifier::rlimit(100)]
    #[verifier::spinoff_prover]
    pub fn allocate(&mut self, size: usize) -> (r: Result<Block, AllocError>)
        requires
            old(self).inv(),
        ensures
            final(self).inv(),
            final(self).base_spec() == old(self).base_spec(),
            final(self).total_spec() == old(self).total_spec(),
            final(self).min_exp_spec() == old(self).min_exp_spec(),
            final(self).max_exp_spec() == old(self).max_exp_spec(),
            size == 0 ==> r == Result::<Block, AllocError>::Err(AllocError::InvalidSize)
                && *final(self) == *old(self),
            size > 0 && !fits(old(self).free_set(), size as int, old(self).min_exp_spec())
                ==> r == Result::<Block, AllocError>::Err(AllocError::OutOfMemory)
                    && *final(self) == *old(self),
            size > 0 && fits(old(self).free_set(), size as int, old(self).min_exp_spec())
                ==> r is Ok,
            r is Ok ==> size > 0
                && allocate_post(*old(self), *final(self), size as int, r->Ok_0),
    {
        if size == 0 {
            return Err(AllocError::InvalidSize);
        }
        let ghost minx = self.min_exp as nat;
        let mut t = match exp2_le(self.min_exp, self.total_size) {
            Some(tv) => tv,
            None => {
                proof {
                    assert(false);
                }
                vstd::pervasive::unreached()
            }
        };
        let ghost mut te: nat = self.min_exp as nat;
        while t < size
            invariant
                *self == *old(self),
                self.inv(),
                size > 0,
                t == pow2(te),
                minx == self.min_exp as nat,
                minx <= te,
                te == minx || size as int > pow2((te - 1) as nat),
            decreases usize::MAX - t,
        {
            if t > self.total_size / 2 {
                proof {
                    assert forall|q: (int, int)| #[trigger] self.free_set().contains(q)
                        implies valid_pair(q, self.base as int, self.total_size as int,
                            minx) by {
                        assert(self.all_blocks().contains(q));
                    }
                    lemma_no_fit_huge(self.free_set(), size as int, minx, te,
                        self.base as int, self.total_size as int);
                }
                return Err(AllocError::OutOfMemory);
            }
            proof {
                lemma_pow2_pos(te);
                lemma_pow2_unfold((te + 1) as nat);
            }
            t = t * 2;
            proof {
                te = te + 1;
            }
        }
        proof {
            assert(is_target(t as int, size as int, minx));
        }
        let found = self.free_index.find_at_least(t);
        match found {
            None => {
                proof {
                    lemma_no_fit_small(self.free_set(), size as int, minx, t as int);
                }
                let oom: Result<Block, AllocError> = Err(AllocError::OutOfMemory);
                proof {
                    assert(!(oom is Ok));
                    assert(!fits(old(self).free_set(), size as int, old(self).min_exp_spec()));
                }
                oom
            }
            Some(pr) => {
                let bs = pr.0;
                let ba = pr.1;
                let ghost p0 = (bs as int, ba as int);
                let ghost f0 = self.free_set();
                let ghost a0 = self.alloc_set();
                let ghost fb0 = self.free_bytes as int;
                let ghost ab0 = self.alloc_bytes as int;
                let ghost basei = self.base as int;
                let ghost totali = self.total_size as int;
                proof {
                    assert(is_best_fit(f0, t as int, p0));
                    assert(fits(f0, size as int, minx));
                    assert(self.all_blocks().contains(p0));
                    assert(valid_pair(p0, basei, totali, minx));
                    self.free_index.lemma_member_size_le_sum(p0);
                }
                let ghost es = choose|e: nat| minx <= e && p0.0 == #[trigger] pow2(e);
                proof {
                    if es < te {
                        lemma_pow2_strictly_increases(es, te);
                        assert(false);
                    }
                }
                let rr = self.free_index.remove(bs, ba);
                self.free_bytes = self.free_bytes - bs;
                let mut s = bs;
                let ghost mut ecur: nat = es;
                proof {
                    assert(self.free_set() == f0.remove(p0));
                    assert(self.free_set().union(split_frees(bs as nat, ba as int, bs as nat))
                        =~= self.free_set());
                    assert(self.free_set().union(self.alloc_set()).insert((s as int, ba as int))
                        =~= f0.union(a0));
                    if self.alloc_set().contains((s as int, ba as int)) {
                        assert(f0.disjoint(a0));
                        assert(false);
                    }
                }
                while s > t
                    invariant
                        self.free_index.wf(),
                        self.alloc_index == old(self).alloc_index,
                        self.alloc_index.wf(),
                        self.base == old(self).base,
                        self.total_size == old(self).total_size,
                        self.min_exp == old(self).min_exp,
                        self.max_exp == old(self).max_exp,
                        self.min_exp <= self.max_exp,
                        self.max_exp < 64,
                        self.base + self.total_size <= usize::MAX,
                        pow2(self.min_exp as nat) <= self.total_size,
                        self.alloc_bytes == old(self).alloc_bytes,
                        minx == self.min_exp as nat,
                        basei == self.base as int,
                        totali == self.total_size as int,
                        t == pow2(te),
                        minx <= te,
                        s == pow2(ecur),
                        te <= ecur <= es,
                        bs == pow2(es),
                        p0 == (bs as int, ba as int),
                        self.free_bytes as int == fb0 - s,
                        self.free_bytes == self.free_index.sum_sizes(),
                        fb0 + ab0 == totali,
                        ab0 == self.alloc_bytes as int,
                        0 <= ab0,
                        basei <= ba as int,
                        ba as int + s <= basei + totali,
                        ((ba as int) - basei) % (s as int) == 0,
                        blocks_wf(self.free_set().union(self.alloc_set())
                            .insert((s as int, ba as int)), basei, totali, minx),
                        !self.free_set().contains((s as int, ba as int)),
                        !self.alloc_set().contains((s as int, ba as int)),
                        self.free_set().disjoint(self.alloc_set()),
                        self.free_set() == f0.remove(p0)
                            .union(split_frees(bs as nat, ba as int, s as nat)),
                        self.alloc_set() == a0,
                        is_best_fit(f0, t as int, p0),
                        fits(f0, size as int, minx),
                        is_target(t as int, size as int, minx),
                        f0 == old(self).free_set(),
                        a0 == old(self).alloc_set(),
                        fb0 == old(self).free_bytes_spec(),
                        ab0 == old(self).alloc_bytes_spec(),
                    decreases s,
                {
                    let ghost u = self.free_set().union(self.alloc_set())
                        .insert((s as int, ba as int));
                    proof {
                        lemma_pow2_pos(te);
                        lemma_pow2_pos(ecur);
                        if ecur <= te {
                            if ecur < te {
                                lemma_pow2_strictly_increases(ecur, te);
                            }
                            assert(false);
                        }
                        assert(u.contains((pow2(ecur) as int, ba as int)));
                        lemma_split_blocks(u, basei, totali, minx, ecur, ba as int);
                        lemma_pow2_unfold(ecur);
                        lemma_align_half((ba as int) - basei, ecur);
                        assert(u.remove((s as int, ba as int)) =~= self.free_set().union(
                            self.alloc_set()));
                        // room in the index for the shed half
                        assert forall|p: (int, int)| #[trigger] self.free_set().contains(p)
                            implies 1 <= p.0 by {
                            assert(u.contains(p));
                            let pe = choose|pe: nat| minx <= pe && p.0 == #[trigger] pow2(pe);
                            lemma_pow2_pos(pe);
                        }
                        self.free_index.lemma_count_le_sum_sizes();
                    }
                    let h = s / 2;
                    proof {
                        assert(h == pow2((ecur - 1) as nat));
                    }
                    let _ = self.free_index.insert(h, ba + h);
                    self.free_bytes = self.free_bytes + h;
                    proof {
                        lemma_split_step(es, ecur, ba as int);
                        assert(self.free_set() =~= f0.remove(p0)
                            .union(split_frees(bs as nat, ba as int, h as nat)));
                        assert(self.free_set().union(self.alloc_set())
                            .insert((h as int, ba as int))
                            =~= u.remove((s as int, ba as int))
                                .insert((h as int, ba as int))
                                .insert((h as int, (ba as int) + h)));
                        ecur = (ecur - 1) as nat;
                    }
                    s = h;
                }
                proof {
                    // room in the allocated index for the block
                    assert forall|p: (int, int)| #[trigger] self.alloc_set().contains(p)
                        implies 1 <= p.0 by {
                        assert(self.free_set().union(self.alloc_set())
                            .insert((s as int, ba as int)).contains(p));
                        let pe = choose|pe: nat| minx <= pe && p.0 == #[trigger] pow2(pe);
                        lemma_pow2_pos(pe);
                    }
                    self.alloc_index.lemma_count_le_sum_sizes();
                    lemma_pow2_pos(ecur);
                }
                let _ = self.alloc_index.insert(s, ba);
                self.alloc_bytes = self.alloc_bytes + s;
                let b = Block { start: ba, size: s };
                proof {
                    if te < ecur {
                        lemma_pow2_strictly_increases(te, ecur);
                    }
                    assert(s == t);
                    assert(self.all_blocks() =~= self.free_set().union(a0)
                        .insert((s as int, ba as int)));
                    assert forall|p: (int, int)| #[trigger] self.free_set().contains(p)
                        implies !self.alloc_set().contains(p) by {
                        assert(p != (s as int, ba as int));
                    }
                    assert(self.free_set().disjoint(self.alloc_set()));
                    assert(is_best_fit(old(self).free_set(), b.size as int, p0));
                    assert(b.start as int == p0.1);
                    assert(self.free_set() == old(self).free_set().remove(p0)
                        .union(split_frees(p0.0 as nat, p0.1, b.size as nat)));
                    assert(exists|p: (int, int)|
                        {
                            &&& #[trigger] is_best_fit(old(self).free_set(), b.size as int, p)
                            &&& b.start as int == p.1
                            &&& self.free_set() == old(self).free_set().remove(p)
                                .union(split_frees(p.0 as nat, p.1, b.size as nat))
                        });
                    assert(allocate_post(*old(self), *self, size as int, b));
                }
                Ok(b)
            }
        }
    }

    /// Return an allocated block to the pool.
    ///
    /// Fails with `InvalidFree` unless a block of exactly this start and
    /// size is currently allocated (double frees and made-up blocks are
    /// both caught). On success the block becomes free and is repeatedly
    /// merged with its buddy — the equal-sized neighbour it was split from
    /// — for as long as that buddy is itself free, and the merged block is
    /// registered in the free index.
    #[verifier::rlimit(100)]
    pub fn free(&mut self, block: Block) -> (r: Result<(), AllocError>)
        requires
            old(self).inv(),
        ensures
            final(self).inv(),
            final(self).base_spec() == old(self).base_spec(),
            final(self).total_spec() == old(self).total_spec(),
            final(self).min_exp_spec() == old(self).min_exp_spec(),
            final(self).max_exp_spec() == old(self).max_exp_spec(),
            !old(self).alloc_set().contains((block.size as int, block.start as int))
                ==> r == Result::<(), AllocError>::Err(AllocError::InvalidFree)
                    && *final(self) == *old(self),
            old(self).alloc_set().contains((block.size as int, block.start as int))
                ==> r == Result::<(), AllocError>::Ok(())
                    && free_post(*old(self), *final(self), block),
    {
        let contained = self.alloc_index.contains(block.size, block.start);
        if !contained {
            return Err(AllocError::InvalidFree);
        }
        let ghost key = (block.size as int, block.start as int);
        let ghost f0 = self.free_set();
        let ghost a0 = self.alloc_set();
        let ghost fb0 = self.free_bytes as int;
        let ghost ab0 = self.alloc_bytes as int;
        let ghost basei = self.base as int;
        let ghost totali = self.total_size as int;
        let ghost minx = self.min_exp as nat;
        proof {
            assert(self.all_blocks().contains(key));
            assert(valid_pair(key, basei, totali, minx));
            self.alloc_index.lemma_member_size_le_sum(key);
        }
        let ghost e0 = choose|e: nat| minx <= e && key.0 == #[trigger] pow2(e);
        let _ = self.alloc_index.remove(block.size, block.start);
        self.alloc_bytes = self.alloc_bytes - block.size;
        let mut s = block.size;
        let mut a = block.start;
        let ghost mut fuel: nat = 64;
        let ghost mut ecur: nat = e0;
        proof {
            assert(self.free_set().union(self.alloc_set()).insert((s as int, a as int))
                =~= f0.union(a0));
            if self.free_set().contains((s as int, a as int)) {
                assert(f0.disjoint(a0));
                assert(false);
            }
        }
        loop
            invariant
                self.free_index.wf(),
                self.alloc_index.wf(),
                self.base == old(self).base,
                self.total_size == old(self).total_size,
                self.min_exp == old(self).min_exp,
                self.max_exp == old(self).max_exp,
                self.min_exp <= self.max_exp,
                self.max_exp < 64,
                self.base + self.total_size <= usize::MAX,
                pow2(self.min_exp as nat) <= self.total_size,
                minx == self.min_exp as nat,
                basei == self.base as int,
                totali == self.total_size as int,
                s == pow2(ecur),
                minx <= ecur,
                e0 <= ecur,
                ecur == e0 + 64 - fuel,
                fuel <= 64,
                key == (block.size as int, block.start as int),
                block.size == pow2(e0),
                block.size as int <= ab0,
                basei <= a as int,
                a as int + s <= basei + totali,
                ((a as int) - basei) % (s as int) == 0,
                blocks_wf(self.free_set().union(self.alloc_set())
                    .insert((s as int, a as int)), basei, totali, minx),
                !self.free_set().contains((s as int, a as int)),
                !self.alloc_set().contains((s as int, a as int)),
                self.free_set().disjoint(self.alloc_set()),
                self.alloc_set() == a0.remove(key),
                self.free_bytes == self.free_index.sum_sizes(),
                self.alloc_bytes == self.alloc_index.sum_sizes(),
                self.free_bytes as int == fb0 + block.size as int - s as int,
                self.alloc_bytes as int == ab0 - block.size,
                fb0 + ab0 == totali,
                spec_coalesce(f0, block.size as int, block.start as int, basei, 64)
                    == spec_coalesce(self.free_set(), s as int, a as int, basei, fuel),
                f0 == old(self).free_set(),
                a0 == old(self).alloc_set(),
                fb0 == old(self).free_bytes_spec(),
                ab0 == old(self).alloc_bytes_spec(),
            ensures
                spec_coalesce(f0, block.size as int, block.start as int, basei, 64)
                    == (self.free_set(), s as int, a as int),
            decreases fuel,
        {
            proof {
                lemma_pow2_pos(ecur);
            }
            let off = a - self.base;
            let q = off / s;
            proof {
                lemma_buddy_arith(off as int, s as int, q as int);
            }
            let buddy = if q % 2 == 0 { a + s } else { a - s };
            if self.free_index.contains(s, buddy) {
                let ghost u = self.free_set().union(self.alloc_set())
                    .insert((s as int, a as int));
                let ghost lower_g: int = if q % 2 == 0 { a as int } else { a as int - s as int };
                proof {
                    // the block doubles at every merge, so it outgrows the
                    // range long before the ghost fuel runs out
                    if fuel == 0 {
                        assert(ecur >= 64);
                        lemma2_to64();
                        if 64 < ecur {
                            lemma_pow2_strictly_increases(64, ecur);
                        }
                        assert(pow2(64) <= pow2(ecur));
                        assert((s as nat) < pow2(64));
                        assert(false);
                    }
                    assert(self.free_set().contains((s as int, buddy as int)));
                    assert(u.contains((s as int, buddy as int)));
                    assert(u.contains((s as int, a as int)));
                    assert((lower_g - basei) % (2 * (s as int)) == 0);
                    lemma_pow2_unfold((ecur + 1) as nat);
                    assert(u.contains((pow2(ecur) as int, lower_g)));
                    assert(u.contains((pow2(ecur) as int, lower_g + pow2(ecur))));
                    assert((lower_g - basei) % (pow2((ecur + 1) as nat) as int) == 0);
                    lemma_merge_blocks(u, basei, totali, minx, ecur, lower_g);
                    self.free_index.lemma_member_size_le_sum((s as int, buddy as int));
                }
                let ghost f_before = self.free_set();
                let _ = self.free_index.remove(s, buddy);
                self.free_bytes = self.free_bytes - s;
                let lower = if buddy < a { buddy } else { a };
                proof {
                    assert(buddy as int == basei + buddy_offset((a as int) - basei, s as int));
                    assert(lower as int == lower_g);
                    assert(spec_coalesce(f_before, s as int, a as int, basei, fuel)
                        == spec_coalesce(self.free_set(), 2 * (s as int), lower_g, basei,
                            (fuel - 1) as nat));
                    assert(self.free_set().union(self.alloc_set())
                        .insert((2 * (s as int), lower_g))
                        =~= u.remove((s as int, lower_g)).remove((s as int,
                            lower_g + s as int)).insert((2 * (s as int), lower_g)));
                    fuel = (fuel - 1) as nat;
                    ecur = ecur + 1;
                }
                s = s + s;
                a = lower;
            } else {
                proof {
                    assert(buddy as int == basei + buddy_offset((a as int) - basei, s as int));
                    assert(!self.free_set().contains((s as int, buddy as int)));
                }
                break;
            }
        }
        proof {
            assert forall|p: (int, int)| #[trigger] self.free_set().contains(p)
                implies 1 <= p.0 by {
                assert(self.free_set().union(self.alloc_set())
                    .insert((s as int, a as int)).contains(p));
                let pe = choose|pe: nat| minx <= pe && p.0 == #[trigger] pow2(pe);
                lemma_pow2_pos(pe);
            }
            self.free_index.lemma_count_le_sum_sizes();
            lemma_pow2_pos(ecur);
        }
        let ghost f_end = self.free_set();
        let ghost al_end = self.alloc_set();
        let _ = self.free_index.insert(s, a);
        self.free_bytes = self.free_bytes + s;
        proof {
            assert(self.free_set() == f_end.insert((s as int, a as int)));
            assert(self.all_blocks() =~= f_end.union(al_end).insert((s as int, a as int)));
            assert(blocks_wf(self.all_blocks(), basei, totali, minx));
            assert forall|p: (int, int)| #[trigger] self.free_set().contains(p)
                implies !self.alloc_set().contains(p) by {
                if p != (s as int, a as int) {
                    assert(f_end.contains(p));
                    assert(f_end.disjoint(al_end));
                }
            }
            assert(self.free_set().disjoint(self.alloc_set()));
            assert(free_post(*old(self), *self, block));
        }
        Ok(())
    }

    /// Allocate a block of at least `size` bytes and hand out its
    /// inclusive address bounds `(start, end)`; `None` for a zero-size
    /// request or when no free block is large enough.
    pub fn allocate_block(&mut self, size: usize) -> (r: Option<(usize, usize)>)
        requires
            old(self).inv(),
        ensures
            final(self).inv(),
            final(self).base_spec() == old(self).base_spec(),
            final(self).total_spec() == old(self).total_spec(),
            final(self).min_exp_spec() == old(self).min_exp_spec(),
            final(self).max_exp_spec() == old(self).max_exp_spec(),
            size == 0 ==> r is None,
            r is None ==> *final(self) == *old(self)
                && (size == 0
                    || !fits(old(self).free_set(), size as int, old(self).min_exp_spec())),
            size > 0 && fits(old(self).free_set(), size as int, old(self).min_exp_spec())
                ==> r is Some,
            r is Some ==> ({
                let pr = r.unwrap();
                exists|b: Block|
                    {
                        &&& #[trigger] allocate_post(*old(self), *final(self), size as int, b)
                        &&& b.start == pr.0
                        &&& b.size as int == pr.1 - pr.0 + 1
                    }
            }),
    {
        match self.allocate(size) {
            Ok(b) => {
                proof {
                    let key = (b.size as int, b.start as int);
                    assert(self.alloc_set().contains(key));
                    assert(self.all_blocks().contains(key));
                    assert(valid_pair(key, self.base as int, self.total_size as int,
                        self.min_exp as nat));
                    let be = choose|e: nat| (self.min_exp as nat) <= e
                        && key.0 == #[trigger] pow2(e);
                    lemma_pow2_pos(be);
                    assert(1 <= b.size);
                    assert(b.start + b.size <= usize::MAX);
                }
                Some((b.start, b.start + b.size - 1))
            }
            Err(_) => None,
        }
    }

    /// Read-only summary: the managed byte total, the free/allocated
    /// split, and the size of the largest free block (0 when nothing is
    /// free).
    pub fn stats(&self) -> (st: Stats)
        requires
            self.inv(),
        ensures
            st.total == self.total_spec(),
            st.free == self.free_bytes_spec(),
            st.allocated == self.alloc_bytes_spec(),
            st.free + st.allocated == st.total,
            self.free_set().is_empty() ==> st.largest_free_block == 0,
            !self.free_set().is_empty() ==> {
                &&& has_size(self.free_set(), st.largest_free_block as int)
                &&& forall|p: (int, int)| #[trigger] self.free_set().contains(p)
                        ==> p.0 <= st.largest_free_block
            },
    {
        let mk = self.free_index.max_key();
        let largest = match mk {
            Some(p) => p.0,
            None => 0,
        };
        let ghost li = largest as int;
        proof {
            match mk {
                Some(p) => {
                    assert(li == p.0 as int);
                    assert(self.free_set().contains((li, p.1 as int)));
                    assert(has_size(self.free_set(), li));
                    assert forall|q: (int, int)| #[trigger] self.free_set().contains(q)
                        implies q.0 <= li by {
                        assert(q == (p.0 as int, p.1 as int) || key_lt(q, (p.0 as int, p.1 as int)));
                    }
                }
                None => {}
            }
        }
        Stats {
            total: self.total_size,
            free: self.free_bytes,
            allocated: self.alloc_bytes,
            largest_free_block: largest,
        }
    }
}

} // verus!
