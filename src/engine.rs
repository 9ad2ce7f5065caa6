//! Index logic of the radix-2 transform engine: the check of a block
//! length against the scratch workspace, the bit-reversal reordering of a
//! block carried out through that workspace, and the butterfly schedule of
//! each stage (which positions are combined, with which twiddle factor).
use vstd::prelude::*;
use crate::error::SpectrumError;
use crate::segment::{
    Block,
    is_power_of_two,
    segment_spec,
    lemma_segment_partition,
    lemma_segment_power_of_two_blocks,
};

verus! {

/// `2^k`.
pub open spec fn two_pow(k: nat) -> nat
    decreases k,
{
    if k == 0 {
        1
    } else {
        2 * two_pow((k - 1) as nat)
    }
}

/// Shifts the low `n` bits of `x` into `acc`, lowest bit first.
pub open spec fn reverse_into(x: nat, n: nat, acc: nat) -> nat
    decreases n,
{
    if n == 0 {
        acc
    } else {
        reverse_into(x / 2, (n - 1) as nat, 2 * acc + x % 2)
    }
}

/// The low `n` bits of `i` in reverse order.
pub open spec fn reverse_bits_spec(i: nat, n: nat) -> nat {
    reverse_into(i, n, 0)
}

/// `2^a <= 2^b` for `a <= b`.
pub proof fn lemma_two_pow_monotone(a: nat, b: nat)
    requires
        a <= b,
    ensures
        two_pow(a) <= two_pow(b),
    decreases b,
{
    if a < b {
        lemma_two_pow_monotone(a, (b - 1) as nat);
    }
}

proof fn lemma_two_pow_exceeds(k: nat)
    ensures
        k < two_pow(k),
    decreases k,
{
    if k > 0 {
        lemma_two_pow_exceeds((k - 1) as nat);
    }
}

proof fn lemma_reverse_into_bound(x: nat, n: nat, acc: nat)
    ensures
        reverse_into(x, n, acc) < (acc + 1) * two_pow(n),
    decreases n,
{
    if n > 0 {
        let m = (n - 1) as nat;
        let a2 = 2 * acc + x % 2;
        lemma_reverse_into_bound(x / 2, m, a2);
        assert((a2 + 1) * two_pow(m) <= (2 * acc + 2) * two_pow(m)) by (nonlinear_arith)
            requires a2 + 1 <= 2 * acc + 2;
        assert((2 * acc + 2) * two_pow(m) == (acc + 1) * two_pow(n)) by (nonlinear_arith)
            requires two_pow(n) == 2 * two_pow(m);
    } else {
        assert((acc + 1) * 1 == acc + 1);
    }
}

/// Reversing `n` bits gives an index below `2^n`.
pub proof fn lemma_reverse_bits_bound(i: nat, n: nat)
    ensures
        reverse_bits_spec(i, n) < two_pow(n),
{
    lemma_reverse_into_bound(i, n, 0);
    assert((0 + 1) * two_pow(n) == two_pow(n)) by (nonlinear_arith);
}

/// Checks that a block of `len` samples can be transformed with a scratch
/// workspace of `scratch_len` slots, and gives the number of butterfly
/// stages, `log2(len)`.
pub fn transform_stages(len: usize, scratch_len: usize) -> (r: Result<usize, SpectrumError>)
    ensures
        is_power_of_two(len as nat) && 4 * len <= scratch_len ==> r is Ok && two_pow(
            r->Ok_0 as nat,
        ) == len,
        !(is_power_of_two(len as nat) && 4 * len <= scratch_len) ==> r == Err::<
            usize,
            SpectrumError,
        >(SpectrumError::InvalidLength),
{
    let mut m: usize = len;
    let mut s: usize = 0;
    assert(two_pow(0) == 1);
    while m > 1 && m % 2 == 0
        invariant
            len == m * two_pow(s as nat),
            is_power_of_two(len as nat) == is_power_of_two(m as nat),
            m >= 1 || len == 0,
            len <= usize::MAX,
        decreases m,
    {
        proof {
            lemma_two_pow_exceeds(s as nat + 1);
            assert(m * two_pow(s as nat) == (m / 2) * two_pow(s as nat + 1)) by (nonlinear_arith)
                requires m % 2 == 0, two_pow(s as nat + 1) == 2 * two_pow(s as nat);
            assert(two_pow(s as nat + 1) <= len) by (nonlinear_arith)
                requires len == (m / 2) * two_pow(s as nat + 1), m / 2 >= 1;
        }
        m = m / 2;
        s = s + 1;
    }
    if m != 1 || len > scratch_len / 4 {
        return Err(SpectrumError::InvalidLength);
    }
    Ok(s)
}

proof fn lemma_reverse_into_shift(x: nat, n: nat, acc: nat)
    ensures
        reverse_into(x, n, acc) == acc * two_pow(n) + reverse_into(x, n, 0),
    decreases n,
{
    if n > 0 {
        let m = (n - 1) as nat;
        let b = x % 2;
        lemma_reverse_into_shift(x / 2, m, 2 * acc + b);
        lemma_reverse_into_shift(x / 2, m, b);
        assert((2 * acc + b) * two_pow(m) == acc * two_pow(n) + b * two_pow(m)) by (nonlinear_arith)
            requires two_pow(n) == 2 * two_pow(m);
    } else {
        assert(acc * 1 == acc);
    }
}

/// Reversing `n + m` bits of a value whose low `n` bits are the reversal of
/// `x` and whose higher bits are `a` gives `x` above the reversal of `a`.
proof fn lemma_reverse_concat(x: nat, n: nat, a: nat, m: nat)
    requires
        x < two_pow(n),
    ensures
        reverse_bits_spec(a * two_pow(n) + reverse_bits_spec(x, n), n + m) == x * two_pow(m)
            + reverse_bits_spec(a, m),
    decreases n,
{
    if n == 0 {
        assert(a * 1 == a);
        assert(x == 0);
    } else {
        let k = (n - 1) as nat;
        let b = x % 2;
        let x2 = x / 2;
        assert(x2 < two_pow(k));
        lemma_reverse_into_shift(x2, k, b);
        assert(reverse_bits_spec(x, n) == b * two_pow(k) + reverse_bits_spec(x2, k));
        assert(a * two_pow(n) + b * two_pow(k) == (2 * a + b) * two_pow(k)) by (nonlinear_arith)
            requires two_pow(n) == 2 * two_pow(k);
        lemma_reverse_concat(x2, k, 2 * a + b, m + 1);
        assert(k + (m + 1) == n + m);
        assert((2 * a + b) / 2 == a && (2 * a + b) % 2 == b);
        lemma_reverse_into_shift(a, m, b);
        assert(reverse_bits_spec(2 * a + b, m + 1) == b * two_pow(m) + reverse_bits_spec(a, m));
        assert(x2 * two_pow(m + 1) + b * two_pow(m) == x * two_pow(m)) by (nonlinear_arith)
            requires two_pow(m + 1) == 2 * two_pow(m), x == 2 * x2 + b;
    }
}

/// Bit reversal over `n` bits undoes itself on every index below `2^n`, so
/// the bit-reversed order of a block is a permutation of it.
pub proof fn lemma_reverse_bits_involution(i: nat, n: nat)
    requires
        i < two_pow(n),
    ensures
        reverse_bits_spec(reverse_bits_spec(i, n), n) == i,
{
    lemma_reverse_concat(i, n, 0, 0);
    assert(0 * two_pow(n) == 0);
    assert(two_pow(0) == 1);
    assert(i * 1 == i);
    assert(reverse_bits_spec(0, 0) == 0);
}

/// With a power-of-two window and a scratch workspace of at least four
/// windows, every block of a segmentation is accepted by `transform_stages`.
pub proof fn lemma_segment_blocks_accepted(n: nat, w: nat, scratch_len: nat)
    requires
        w > 0,
        n <= usize::MAX,
        w <= usize::MAX,
        is_power_of_two(w),
        4 * w <= scratch_len,
    ensures
        forall|i: int|
            0 <= i < segment_spec(n, w).len() ==> is_power_of_two(
                #[trigger] segment_spec(n, w)[i].len as nat,
            ) && 4 * segment_spec(n, w)[i].len <= scratch_len,
{
    lemma_segment_partition(n, w);
    lemma_segment_power_of_two_blocks(n, w);
    let rem = n % w;
    assert(rem < w);
}

/// One butterfly of a stage: the two positions it combines, and the index
/// of its twiddle factor `exp(-2*pi*i*twiddle/len)` among the `len / 2`
/// factors of a block of length `len`.
#[derive(Debug, Clone, Copy, PartialEq, Eq, Structural)]
pub struct Butterfly {
    pub top: usize,
    pub bottom: usize,
    pub twiddle: usize,
}

/// Butterfly number `idx` of the stage of span `span` over `block`: the
/// block falls into groups of `span` positions; butterfly `idx` is the
/// `idx % (span / 2)`-th of group `idx / (span / 2)`, and pairs a position of
/// the group's first half with the one `span / 2` later.
pub open spec fn butterfly_spec(block: Block, span: nat, idx: nat) -> Butterfly
    recommends
        span >= 2,
{
    let half = span / 2;
    let j = idx % half;
    let top = block.start + (idx / half) * span + j;
    Butterfly {
        top: top as usize,
        bottom: (top + half) as usize,
        twiddle: (j * (block.len as nat / span)) as usize,
    }
}

/// A smaller power of two divides a larger one.
pub proof fn lemma_power_of_two_divides(a: nat, b: nat)
    requires
        is_power_of_two(a),
        is_power_of_two(b),
        a <= b,
    ensures
        b % a == 0,
    decreases b,
{
    if a > 1 {
        assert(b != 1);
        lemma_power_of_two_divides(a / 2, b / 2);
        let q = (b / 2) / (a / 2);
        vstd::arithmetic::div_mod::lemma_fundamental_div_mod((b / 2) as int, (a / 2) as int);
        assert(b == a * q) by (nonlinear_arith)
            requires b == 2 * (b / 2), a == 2 * (a / 2), b / 2 == (a / 2) * q;
        vstd::arithmetic::div_mod::lemma_mod_multiples_basic(q as int, a as int);
        assert(((q * a) as int) % (a as int) == 0);
        assert(a * q == q * a) by (nonlinear_arith);
    }
}

/// Where butterfly `idx` of a stage stands, in terms of its group
/// `idx / (span / 2)` and its place `idx % (span / 2)` in the group.
proof fn lemma_butterfly_offsets(block: Block, span: nat, idx: nat)
    requires
        is_power_of_two(block.len as nat),
        is_power_of_two(span),
        2 <= span <= block.len,
        idx < block.len / 2,
        block.end() <= usize::MAX,
    ensures
        ({
            let half = span / 2;
            let q = block.len as nat / span;
            let g = idx / half;
            let j = idx % half;
            &&& span == 2 * half
            &&& block.len == span * q
            &&& block.len / 2 == half * q
            &&& idx == g * half + j
            &&& j < half
            &&& g < q
            &&& 0 <= g * span
            &&& g * span + j + half < block.len
            &&& j * q < half * q
            &&& butterfly_spec(block, span, idx).top == block.start + g * span + j
            &&& butterfly_spec(block, span, idx).bottom == block.start + g * span + j + half
            &&& butterfly_spec(block, span, idx).twiddle == j * q
        }),
{
    let half = span / 2;
    let q = block.len as nat / span;
    lemma_power_of_two_divides(span, block.len as nat);
    vstd::arithmetic::div_mod::lemma_fundamental_div_mod(block.len as int, span as int);
    assert(span % 2 == 0) by {
        assert(span != 1);
    }
    assert(block.len == span * q);
    assert(block.len / 2 == half * q) by (nonlinear_arith)
        requires block.len == span * q, span == 2 * half;
    vstd::arithmetic::div_mod::lemma_fundamental_div_mod(idx as int, half as int);
    let g = idx / half;
    assert(idx == g * half + idx % half) by (nonlinear_arith)
        requires idx == half * g + idx % half;
    assert(g < q) by (nonlinear_arith)
        requires idx == half * g + idx % half, idx % half >= 0, idx < half * q, half > 0;
    assert(q > 0) by {
        if q == 0 {
            assert(span * q == 0) by (nonlinear_arith)
                requires q == 0;
        }
    }
    vstd::arithmetic::mul::lemma_mul_inequality((g + 1) as int, q as int, span as int);
    assert((g + 1) * span == g * span + span) by (nonlinear_arith);
    assert(q * span == span * q) by (nonlinear_arith);
    assert(g * span + idx % half + half < block.len);
    vstd::arithmetic::mul::lemma_mul_strict_inequality((idx % half) as int, half as int, q as int);
    assert(g * span >= 0) by (nonlinear_arith)
        requires g >= 0, span >= 0;
}

/// In every stage the butterflies pair up the positions of the block: no
/// position belongs to two butterflies, and every position belongs to one.
pub proof fn lemma_stage_partitions_block(block: Block, span: nat)
    requires
        is_power_of_two(block.len as nat),
        is_power_of_two(span),
        2 <= span <= block.len,
        block.end() <= usize::MAX,
    ensures
        forall|a: nat, b: nat|
            a < block.len / 2 && b < block.len / 2 && a != b ==> {
                let x = #[trigger] butterfly_spec(block, span, a);
                let y = #[trigger] butterfly_spec(block, span, b);
                x.top != y.top && x.bottom != y.bottom && x.top != y.bottom
            },
        forall|p: int|
            #[trigger] block.contains(p) ==> exists|a: nat|
                a < block.len / 2 && (#[trigger] butterfly_spec(block, span, a).top == p
                    || butterfly_spec(block, span, a).bottom == p),
{
    let half = span / 2;
    let q = block.len as nat / span;
    lemma_butterfly_offsets(block, span, 0);
    assert forall|a: nat, b: nat| a < block.len / 2 && b < block.len / 2 && a != b implies {
        let x = #[trigger] butterfly_spec(block, span, a);
        let y = #[trigger] butterfly_spec(block, span, b);
        x.top != y.top && x.bottom != y.bottom && x.top != y.bottom
    } by {
        lemma_butterfly_offsets(block, span, a);
        lemma_butterfly_offsets(block, span, b);
        let ga = a / half;
        let ja = a % half;
        let gb = b / half;
        let jb = b % half;
        let x = butterfly_spec(block, span, a);
        let y = butterfly_spec(block, span, b);
        if x.top == y.top || x.bottom == y.bottom {
            vstd::arithmetic::div_mod::lemma_fundamental_div_mod_converse(
                (ga * span + ja) as int, span as int, ga as int, ja as int);
            vstd::arithmetic::div_mod::lemma_fundamental_div_mod_converse(
                (gb * span + jb) as int, span as int, gb as int, jb as int);
            assert(ga * span + ja == gb * span + jb);
            assert(ga == gb && ja == jb);
        }
        if x.top == y.bottom {
            vstd::arithmetic::div_mod::lemma_fundamental_div_mod_converse(
                (ga * span + ja) as int, span as int, ga as int, ja as int);
            vstd::arithmetic::div_mod::lemma_fundamental_div_mod_converse(
                (gb * span + jb + half) as int, span as int, gb as int, (jb + half) as int);
            assert(ga * span + ja == gb * span + (jb + half));
        }
    }
    assert forall|p: int| #[trigger] block.contains(p) implies exists|a: nat|
        a < block.len / 2 && (#[trigger] butterfly_spec(block, span, a).top == p
            || butterfly_spec(block, span, a).bottom == p) by {
        let off = p - block.start;
        vstd::arithmetic::div_mod::lemma_fundamental_div_mod(off, span as int);
        let g = off / (span as int);
        let r = off % (span as int);
        assert(off == g * span + r) by (nonlinear_arith)
            requires off == span * g + r;
        assert(0 <= g < q) by (nonlinear_arith)
            requires off == g * span + r, 0 <= r < span, 0 <= off < block.len, block.len == span * q;
        let j = if r < half { r } else { r - half };
        let a = (g * half + j) as nat;
        assert(a < block.len / 2) by (nonlinear_arith)
            requires a == g * half + j, 0 <= j < half, g < q, block.len / 2 == half * q, g >= 0;
        vstd::arithmetic::div_mod::lemma_fundamental_div_mod_converse(
            a as int, half as int, g, j);
        lemma_butterfly_offsets(block, span, a);
        assert(g * span == 2 * (g * half)) by (nonlinear_arith)
            requires span == 2 * half;
    }
}

/// The positions and twiddle index of butterfly `idx` of the stage of span
/// `span` over `block`. Both positions lie inside the block, and the
/// twiddle index is below `block.len / 2`.
pub fn butterfly(block: Block, span: usize, idx: usize) -> (r: Butterfly)
    requires
        is_power_of_two(block.len as nat),
        is_power_of_two(span as nat),
        2 <= span <= block.len,
        idx < block.len / 2,
        block.end() <= usize::MAX,
    ensures
        r == butterfly_spec(block, span as nat, idx as nat),
        block.start <= r.top < r.bottom < block.end(),
        r.bottom == r.top + span / 2,
        r.twiddle < block.len / 2,
{
    let half = span / 2;
    let q = block.len / span;
    proof {
        lemma_butterfly_offsets(block, span as nat, idx as nat);
    }
    let j = idx % half;
    let top = block.start + (idx / half) * span + j;
    Butterfly { top, bottom: top + half, twiddle: j * q }
}

/// The low `bits` bits of `i` in reverse order.
pub fn reverse_bits(i: usize, bits: usize) -> (r: usize)
    requires
        two_pow(bits as nat) <= usize::MAX,
    ensures
        r as nat == reverse_bits_spec(i as nat, bits as nat),
        r < two_pow(bits as nat),
{
    let mut x: usize = i;
    let mut m: usize = bits;
    let mut r: usize = 0;
    while m > 0
        invariant
            m <= bits,
            two_pow(bits as nat) <= usize::MAX,
            r < two_pow((bits - m) as nat),
            reverse_into(x as nat, m as nat, r as nat) == reverse_bits_spec(i as nat, bits as nat),
        decreases m,
    {
        proof {
            let t = (bits - m) as nat;
            assert(two_pow(t + 1) == 2 * two_pow(t));
            lemma_two_pow_monotone(t + 1, bits as nat);
        }
        r = 2 * r + x % 2;
        x = x / 2;
        m = m - 1;
    }
    proof {
        lemma_reverse_bits_bound(i as nat, bits as nat);
    }
    r
}

/// Reorders the block `block` of `v` into bit-reversed order: afterwards the
/// element at offset `k` of the block is the one that stood at offset
/// `reverse_bits(k, bits)`. The block is first copied into `scratch`; no
/// index of `v` outside the block is touched.
pub fn bit_reverse_block<T: Copy>(v: &mut Vec<T>, block: Block, bits: usize, scratch: &mut Vec<T>)
    requires
        block.len == two_pow(bits as nat),
        block.end() <= old(v)@.len(),
        block.len <= old(scratch)@.len(),
    ensures
        final(v)@.len() == old(v)@.len(),
        final(scratch)@.len() == old(scratch)@.len(),
        forall|k: int|
            0 <= k < block.len ==> #[trigger] final(v)@[block.start + k] == old(v)@[block.start
                + reverse_bits_spec(k as nat, bits as nat)],
        forall|i: int|
            0 <= i < old(v)@.len() && !block.contains(i) ==> #[trigger] final(v)@[i] == old(v)@[i],
{
    let len = block.len;
    let n = v.len();
    let mut k: usize = 0;
    while k < len
        invariant
            len == block.len,
            n == v@.len(),
            block.end() <= v@.len(),
            len <= scratch@.len(),
            v@ == old(v)@,
            scratch@.len() == old(scratch)@.len(),
            k <= len,
            forall|j: int| 0 <= j < k ==> #[trigger] scratch@[j] == old(v)@[block.start + j],
        decreases len - k,
    {
        scratch.set(k, v[block.start + k]);
        k = k + 1;
    }
    let mut k: usize = 0;
    while k < len
        invariant
            len == block.len,
            n == v@.len(),
            len == two_pow(bits as nat),
            block.end() <= v@.len(),
            len <= scratch@.len(),
            v@.len() == old(v)@.len(),
            scratch@.len() == old(scratch)@.len(),
            k <= len,
            forall|j: int| 0 <= j < len ==> #[trigger] scratch@[j] == old(v)@[block.start + j],
            forall|j: int|
                0 <= j < k ==> #[trigger] v@[block.start + j] == old(v)@[block.start
                    + reverse_bits_spec(j as nat, bits as nat)],
            forall|i: int|
                0 <= i < v@.len() && !(block.start <= i < block.start + k) ==> #[trigger] v@[i]
                    == old(v)@[i],
        decreases len - k,
    {
        let j = reverse_bits(k, bits);
        v.set(block.start + k, scratch[j]);
        k = k + 1;
    }
}

} // verus!
