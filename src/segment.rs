//! Partition of a sample buffer into the blocks handed to the transform.
use vstd::prelude::*;
use vstd::arithmetic::div_mod::lemma_fundamental_div_mod;
use vstd::arithmetic::mul::lemma_mul_inequality;

verus! {

/// A contiguous index range `[start, start + len)` transformed as one unit.
#[derive(Debug, Clone, Copy, PartialEq, Eq, Structural)]
pub struct Block {
    pub start: usize,
    pub len: usize,
}

impl Block {
    /// One past the last index of the block.
    pub open spec fn end(self) -> int {
        self.start + self.len
    }

    /// Whether the block holds the index `i`.
    pub open spec fn contains(self, i: int) -> bool {
        self.start <= i < self.end()
    }
}

/// `n` is a power of two.
pub open spec fn is_power_of_two(n: nat) -> bool
    decreases n,
{
    if n == 1 {
        true
    } else if n < 2 || n % 2 != 0 {
        false
    } else {
        is_power_of_two(n / 2)
    }
}

/// `n` is a power of four.
pub open spec fn is_power_of_four(n: nat) -> bool
    decreases n,
{
    if n == 1 {
        true
    } else if n < 4 || n % 4 != 0 {
        false
    } else {
        is_power_of_four(n / 4)
    }
}

/// The largest power of four not above `r`, and 1 when `r < 4`.
pub open spec fn largest_power_of_four(r: nat) -> nat
    decreases r,
{
    if r < 4 {
        1
    } else {
        4 * largest_power_of_four(r / 4)
    }
}

/// The blocks that `segment(n, w)` produces: `n / w` full windows at
/// successive offsets, then, if `n % w > 0`, one block at `n - n % w` whose
/// length is the largest power of four not above the remainder.
pub open spec fn segment_spec(n: nat, w: nat) -> Seq<Block>
    recommends
        w > 0,
{
    let full = n / w;
    let rem = n % w;
    let count = if rem > 0 { full + 1 } else { full };
    Seq::new(
        count,
        |i: int|
            if i < full {
                Block { start: (i * w) as usize, len: w as usize }
            } else {
                Block { start: (n - rem) as usize, len: largest_power_of_four(rem) as usize }
            },
    )
}

/// Some block of `blocks` holds the index `x`.
pub open spec fn covered_by(blocks: Seq<Block>, x: int) -> bool {
    exists|i: int| 0 <= i < blocks.len() && #[trigger] blocks[i].contains(x)
}

/// The number of indices at the end of `[0, n)` that no block covers.
pub open spec fn untransformed_tail(n: nat, w: nat) -> nat
    recommends
        w > 0,
{
    let rem = n % w;
    if rem > 0 {
        (rem - largest_power_of_four(rem)) as nat
    } else {
        0
    }
}

proof fn lemma_power_of_four_bounds(r: nat)
    requires
        r >= 1,
    ensures
        is_power_of_four(largest_power_of_four(r)),
        largest_power_of_four(r) <= r < 4 * largest_power_of_four(r),
    decreases r,
{
    if r >= 4 {
        lemma_power_of_four_bounds(r / 4);
        let q = largest_power_of_four(r / 4);
        assert((4 * q) % 4 == 0);
        assert((4 * q) / 4 == q);
    }
}

/// A power of four `p` with `p <= r < 4 * p` is the largest one not above `r`.
proof fn lemma_power_of_four_unique(p: nat, r: nat)
    requires
        is_power_of_four(p),
        p <= r < 4 * p,
    ensures
        largest_power_of_four(r) == p,
    decreases r,
{
    if p != 1 {
        lemma_power_of_four_unique(p / 4, r / 4);
    }
}

/// Every power of four is a power of two.
pub proof fn lemma_power_of_four_is_power_of_two(p: nat)
    requires
        is_power_of_four(p),
    ensures
        is_power_of_two(p),
    decreases p,
{
    if p != 1 {
        let q = p / 4;
        lemma_power_of_four_is_power_of_two(q);
        assert(p == 4 * q);
        assert((2 * q) / 2 == q && (2 * q) % 2 == 0);
        assert(is_power_of_two(2 * q));
        assert(p / 2 == 2 * q && p % 2 == 0);
    }
}

/// The largest power of four that is at most `r` (the tail length of a
/// segmentation whose remainder is `r`), and 1 when `r < 4`.
pub fn largest_power_of_four_at_most(r: usize) -> (p: usize)
    ensures
        p as nat == largest_power_of_four(r as nat),
        is_power_of_four(p as nat),
        r < 4 ==> p == 1,
        r >= 1 ==> p <= r < 4 * p,
{
    let mut p: usize = 1;
    while p <= r / 4
        invariant
            1 <= p,
            r >= 1 ==> p <= r,
            r < 4 ==> p == 1,
            is_power_of_four(p as nat),
        decreases r - p,
    {
        assert(p * 4 <= r);
        assert((p * 4) % 4 == 0 && (p * 4) / 4 == p);
        p = p * 4;
    }
    proof {
        if r >= 1 {
            lemma_power_of_four_unique(p as nat, r as nat);
        }
    }
    p
}

/// Splits `[0, n)` into blocks of `window_size` samples, followed by at most
/// one shorter block whose length is the largest power of four that fits in
/// the remainder.
pub fn segment(n: usize, window_size: usize) -> (blocks: Vec<Block>)
    requires
        window_size > 0,
    ensures
        blocks@ == segment_spec(n as nat, window_size as nat),
{
    let full = n / window_size;
    let rem = n % window_size;
    let mut blocks: Vec<Block> = Vec::new();
    let mut i: usize = 0;
    while i < full
        invariant
            full == n / window_size,
            window_size > 0,
            i <= full,
            blocks@.len() == i,
            forall|k: int|
                0 <= k < i ==> blocks@[k] == segment_spec(n as nat, window_size as nat)[k],
        decreases full - i,
    {
        proof {
            lemma_fundamental_div_mod(n as int, window_size as int);
            lemma_mul_inequality(i as int, full as int, window_size as int);
        }
        blocks.push(Block { start: i * window_size, len: window_size });
        i = i + 1;
    }
    proof {
        lemma_fundamental_div_mod(n as int, window_size as int);
        assert(full * window_size >= 0) by (nonlinear_arith)
            requires full >= 0, window_size > 0;
    }
    if rem > 0 {
        let p = largest_power_of_four_at_most(rem);
        blocks.push(Block { start: n - rem, len: p });
    }
    assert(blocks@ =~= segment_spec(n as nat, window_size as nat));
    blocks
}

/// The blocks of a segmentation are nonempty, lie inside `[0, n)` in
/// increasing order and are pairwise disjoint; together they cover every
/// index of `[0, n)` but the last `untransformed_tail(n, w)`, which no block
/// touches.
pub proof fn lemma_segment_partition(n: nat, w: nat)
    requires
        w > 0,
        n <= usize::MAX,
        w <= usize::MAX,
    ensures
        forall|i: int|
            0 <= i < segment_spec(n, w).len() ==> segment_spec(n, w)[i].len > 0
                && segment_spec(n, w)[i].end() <= n,
        forall|i: int, j: int|
            0 <= i < j < segment_spec(n, w).len() ==> segment_spec(n, w)[i].end()
                <= segment_spec(n, w)[j].start,
        forall|i: int, j: int, x: int|
            0 <= i < segment_spec(n, w).len() && 0 <= j < segment_spec(n, w).len() && i != j
                ==> !(segment_spec(n, w)[i].contains(x) && segment_spec(n, w)[j].contains(x)),
        forall|x: int|
            0 <= x < n - untransformed_tail(n, w) ==> #[trigger] covered_by(segment_spec(n, w), x),
        forall|x: int|
            n - untransformed_tail(n, w) <= x ==> !#[trigger] covered_by(segment_spec(n, w), x),
{
    let segs = segment_spec(n, w);
    let full = n / w;
    let rem = n % w;
    lemma_fundamental_div_mod(n as int, w as int);
    assert(full * w >= 0) by (nonlinear_arith)
        requires full >= 0, w > 0;
    assert(n == full * w + rem);
    if rem > 0 {
        lemma_power_of_four_bounds(rem);
    }
    assert forall|i: int| 0 <= i < full implies segs[i].start == i * w && (i + 1) * w <= full * w
        && i * w >= 0 by {
        lemma_mul_inequality(i + 1, full as int, w as int);
        assert(i * w >= 0) by (nonlinear_arith)
            requires i >= 0, w > 0;
        assert((i + 1) * w == i * w + w) by (nonlinear_arith);
    }
    assert forall|i: int| 0 <= i < segs.len() implies segs[i].len > 0 && segs[i].end() <= n by {
        if i < full {
            assert((i + 1) * w == i * w + w) by (nonlinear_arith);
        }
    }
    assert forall|i: int, j: int| 0 <= i < j < segs.len() implies segs[i].end() <= segs[j].start by {
        assert((i + 1) * w == i * w + w) by (nonlinear_arith);
        if j < full {
            lemma_mul_inequality(i + 1, j, w as int);
        }
    }
    assert forall|i: int, j: int, x: int|
        0 <= i < segs.len() && 0 <= j < segs.len() && i != j
        implies !(segs[i].contains(x) && segs[j].contains(x)) by {
        if i < j {
            assert(segs[i].end() <= segs[j].start);
        } else {
            assert(segs[j].end() <= segs[i].start);
        }
    }
    assert forall|x: int| 0 <= x < n - untransformed_tail(n, w) implies #[trigger] covered_by(
        segs,
        x,
    ) by {
        if x < full * w {
            let wi = w as int;
            let i = x / wi;
            lemma_fundamental_div_mod(x, wi);
            assert(0 <= x % wi < wi);
            assert(i >= 0);
            if i >= full {
                lemma_mul_inequality(full as int, i, w as int);
                assert(w * i == i * w) by (nonlinear_arith);
            }
            assert((i + 1) * w == i * w + w) by (nonlinear_arith);
            assert(w * i == i * w) by (nonlinear_arith);
            assert(segs[i].contains(x));
        } else {
            assert(segs[full as int].contains(x));
        }
    }
    assert forall|i: int, x: int|
        0 <= i < segs.len() && n - untransformed_tail(n, w) <= x implies !(
        #[trigger] segs[i].contains(x)) by {
        if i < full {
            assert((i + 1) * w == i * w + w) by (nonlinear_arith);
        }
    }
    assert forall|x: int| n - untransformed_tail(n, w) <= x implies !#[trigger] covered_by(
        segs,
        x,
    ) by {
        if covered_by(segs, x) {
            let i = choose|i: int| 0 <= i < segs.len() && #[trigger] segs[i].contains(x);
            assert(segs[i].contains(x));
        }
    }
}

/// When the window length is a power of two, so is the length of every block.
pub proof fn lemma_segment_power_of_two_blocks(n: nat, w: nat)
    requires
        w > 0,
        n <= usize::MAX,
        w <= usize::MAX,
        is_power_of_two(w),
    ensures
        forall|i: int|
            0 <= i < segment_spec(n, w).len() ==> is_power_of_two(
                #[trigger] segment_spec(n, w)[i].len as nat,
            ),
{
    let rem = n % w;
    if rem > 0 {
        lemma_power_of_four_bounds(rem);
        lemma_power_of_four_is_power_of_two(largest_power_of_four(rem));
        assert(rem < w);
    }
}

/// With a power-of-two window, and a remainder `n % w` that lies less than
/// four above its largest power of four, the blocks are pairwise disjoint,
/// each has a power-of-two length, and they cover all of `[0, n)` but a
/// final stretch of at most three indices.
pub proof fn lemma_segment_short_tail(n: nat, w: nat)
    requires
        w > 0,
        n <= usize::MAX,
        w <= usize::MAX,
        is_power_of_two(w),
        n % w < largest_power_of_four(n % w) + 4,
    ensures
        untransformed_tail(n, w) <= 3,
        forall|i: int, j: int, x: int|
            0 <= i < segment_spec(n, w).len() && 0 <= j < segment_spec(n, w).len() && i != j
                ==> !(segment_spec(n, w)[i].contains(x) && segment_spec(n, w)[j].contains(x)),
        forall|i: int|
            0 <= i < segment_spec(n, w).len() ==> is_power_of_two(
                #[trigger] segment_spec(n, w)[i].len as nat,
            ),
        forall|x: int|
            0 <= x < n - untransformed_tail(n, w) ==> #[trigger] covered_by(segment_spec(n, w), x),
        forall|x: int|
            n - untransformed_tail(n, w) <= x ==> !#[trigger] covered_by(segment_spec(n, w), x),
{
    lemma_segment_partition(n, w);
    lemma_segment_power_of_two_blocks(n, w);
    if n % w > 0 {
        lemma_power_of_four_bounds(n % w);
    }
}

} // verus!
