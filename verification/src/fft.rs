//! The index logic of the iterative radix-2 fast Fourier transform: bit
//! reversal of indices and the reordering of the input that starts the
//! transform.

use vstd::prelude::*;
use vstd::arithmetic::power2::{pow2, lemma_pow2_unfold, lemma_pow2_pos, lemma2_to64, lemma_pow2_adds};
use vstd::arithmetic::div_mod::{
    lemma_mod_breakdown, lemma_fundamental_div_mod_converse, lemma_div_denominator,
};

verus! {

/// The low `width` bits of `n`, least significant first.
pub open spec fn low_bits(n: nat, width: nat) -> Seq<bool>
    decreases width,
{
    if width == 0 {
        Seq::empty()
    } else {
        seq![n % 2 == 1] + low_bits(n / 2, (width - 1) as nat)
    }
}

/// The number whose binary digits, least significant first, are `bits`.
pub open spec fn from_bits(bits: Seq<bool>) -> nat
    decreases bits.len(),
{
    if bits.len() == 0 {
        0
    } else {
        (if bits[0] { 1nat } else { 0nat }) + 2 * from_bits(bits.drop_first())
    }
}

/// `n` with its low `width` bits in reverse order; higher bits are dropped.
pub open spec fn reversed_bits(n: nat, width: nat) -> nat {
    from_bits(low_bits(n, width).reverse())
}

/// The base-2 logarithm of `n`, rounded down (0 for `n < 2`).
pub open spec fn floor_log2(n: nat) -> nat
    decreases n,
{
    if n < 2 {
        0
    } else {
        1 + floor_log2(n / 2)
    }
}

/// Where the bit-reversal reordering of a sequence of length `len` takes the
/// element that ends at position `p`: the indices below the largest power of
/// two that fits in `len` trade places with their bit reversal, the others stay.
pub open spec fn bit_reversed_position(p: nat, len: nat) -> nat {
    let width = floor_log2(len);
    if p < pow2(width) {
        reversed_bits(p, width)
    } else {
        p
    }
}

proof fn lemma_low_bits_len(n: nat, width: nat)
    ensures
        low_bits(n, width).len() == width,
    decreases width,
{
    if width > 0 {
        lemma_low_bits_len(n / 2, (width - 1) as nat);
    }
}

/// Reading back the low bits of `n` gives `n` modulo `2^width`.
proof fn lemma_from_low_bits(n: nat, width: nat)
    ensures
        from_bits(low_bits(n, width)) == n % pow2(width),
    decreases width,
{
    if width == 0 {
        lemma2_to64();
        assert(n % 1 == 0);
    } else {
        let w1 = (width - 1) as nat;
        lemma_from_low_bits(n / 2, w1);
        let bits = low_bits(n, width);
        assert(bits.drop_first() =~= low_bits(n / 2, w1));
        lemma_pow2_unfold(width);
        lemma_pow2_pos(w1);
        lemma_mod_breakdown(n as int, 2, pow2(w1) as int);
    }
}

/// The bits of the number made of `bits` are `bits` again.
proof fn lemma_low_bits_of_from_bits(bits: Seq<bool>)
    ensures
        low_bits(from_bits(bits), bits.len()) == bits,
    decreases bits.len(),
{
    if bits.len() > 0 {
        let rest = bits.drop_first();
        lemma_low_bits_of_from_bits(rest);
        let b: int = if bits[0] { 1 } else { 0 };
        let f = from_bits(bits);
        lemma_fundamental_div_mod_converse(f as int, 2, from_bits(rest) as int, b);
        assert(low_bits(f, bits.len()) =~= seq![bits[0]] + low_bits(from_bits(rest), rest.len()));
        assert(seq![bits[0]] + rest =~= bits);
    }
}

/// A number made of `k` binary digits is below `2^k`.
proof fn lemma_from_bits_bound(bits: Seq<bool>)
    ensures
        from_bits(bits) < pow2(bits.len()),
    decreases bits.len(),
{
    if bits.len() > 0 {
        lemma_from_bits_bound(bits.drop_first());
        lemma_pow2_unfold(bits.len());
    } else {
        lemma2_to64();
    }
}

/// Taking one more bit appends the next binary digit.
proof fn lemma_low_bits_push(n: nat, width: nat)
    ensures
        low_bits(n, width + 1) == low_bits(n, width).push((n / pow2(width)) % 2 == 1),
    decreases width,
{
    if width == 0 {
        lemma2_to64();
        assert(n / 1 == n);
        assert(low_bits(n / 2, 0) =~= Seq::<bool>::empty());
        assert(low_bits(n, 0) =~= Seq::<bool>::empty());
        assert(low_bits(n, 1) =~= low_bits(n, 0).push((n / pow2(0)) % 2 == 1));
    } else {
        let w1 = (width - 1) as nat;
        lemma_low_bits_push(n / 2, w1);
        lemma_pow2_unfold(width);
        lemma_pow2_pos(w1);
        lemma_div_denominator(n as int, 2, pow2(w1) as int);
        assert(low_bits(n, width + 1) =~= low_bits(n, width).push((n / pow2(width)) % 2 == 1));
    }
}

/// A number made of a leading digit followed by `rest` is that digit plus
/// twice the number made of `rest`.
proof fn lemma_from_bits_cons(b: bool, rest: Seq<bool>)
    ensures
        from_bits(seq![b] + rest) == (if b { 1nat } else { 0nat }) + 2 * from_bits(rest),
{
    assert((seq![b] + rest).drop_first() =~= rest);
}

/// Binary digit `k` of the number made of `bits` is `bits[k]`.
proof fn lemma_from_bits_digit(bits: Seq<bool>, k: nat)
    requires
        k < bits.len(),
    ensures
        (from_bits(bits) / pow2(k)) % 2 == if bits[k as int] { 1nat } else { 0nat },
    decreases k,
{
    let b: int = if bits[0] { 1 } else { 0 };
    let rest = bits.drop_first();
    lemma_fundamental_div_mod_converse(from_bits(bits) as int, 2, from_bits(rest) as int, b);
    if k == 0 {
        lemma2_to64();
    } else {
        lemma_from_bits_digit(rest, (k - 1) as nat);
        lemma_pow2_unfold(k);
        lemma_pow2_pos((k - 1) as nat);
        lemma_div_denominator(from_bits(bits) as int, 2, pow2((k - 1) as nat) as int);
    }
}

/// Bit `i` of the low bits of `n` is binary digit `i` of `n`.
proof fn lemma_low_bits_digit(n: nat, width: nat, i: nat)
    requires
        i < width,
    ensures
        low_bits(n, width)[i as int] == ((n / pow2(i)) % 2 == 1),
    decreases i,
{
    lemma_low_bits_len(n, width);
    if i == 0 {
        lemma2_to64();
    } else {
        lemma_low_bits_digit(n / 2, (width - 1) as nat, (i - 1) as nat);
        lemma_pow2_unfold(i);
        lemma_pow2_pos((i - 1) as nat);
        lemma_div_denominator(n as int, 2, pow2((i - 1) as nat) as int);
    }
}

/// Digit by digit, bit reversal over `width` bits puts binary digit
/// `width - 1 - k` of `n` at digit `k` of the result, for every `k < width`.
pub proof fn lemma_reversed_bits_digits(n: nat, width: nat, k: nat)
    requires
        k < width,
    ensures
        (reversed_bits(n, width) / pow2(k)) % 2 == (n / pow2((width - 1 - k) as nat)) % 2,
{
    let bits = low_bits(n, width);
    lemma_low_bits_len(n, width);
    lemma_from_bits_digit(bits.reverse(), k);
    lemma_low_bits_digit(n, width, (width - 1 - k) as nat);
}

/// Bit reversal over `width` bits is below `2^width`.
pub proof fn lemma_reversed_bits_bound(n: nat, width: nat)
    ensures
        reversed_bits(n, width) < pow2(width),
{
    lemma_low_bits_len(n, width);
    lemma_from_bits_bound(low_bits(n, width).reverse());
}

/// Reversing the low `width` bits twice gives back those bits: bit reversal is
/// its own inverse on the numbers below `2^width`.
pub proof fn lemma_reversed_bits_involution(n: nat, width: nat)
    ensures
        reversed_bits(reversed_bits(n, width), width) == n % pow2(width),
{
    let bits = low_bits(n, width);
    lemma_low_bits_len(n, width);
    let rev = bits.reverse();
    lemma_low_bits_of_from_bits(rev);
    assert(rev.reverse() =~= bits);
    lemma_from_low_bits(n, width);
}

/// One more step of the reversal loop: the next digit of `n` enters as the
/// least significant digit of the result.
proof fn lemma_reversed_bits_step(n: nat, width: nat)
    ensures
        reversed_bits(n, width + 1) == 2 * reversed_bits(n, width) + (n / pow2(width)) % 2,
{
    lemma_low_bits_push(n, width);
    let bits = low_bits(n, width);
    let b = (n / pow2(width)) % 2 == 1;
    assert(bits.push(b).reverse() =~= seq![b] + bits.reverse());
    lemma_from_bits_cons(b, bits.reverse());
}

/// `2^floor_log2(n)` is the largest power of two not above `n`.
pub proof fn lemma_floor_log2_bounds(n: nat)
    requires
        n >= 1,
    ensures
        pow2(floor_log2(n)) <= n < pow2(floor_log2(n) + 1),
    decreases n,
{
    if n < 2 {
        lemma2_to64();
    } else {
        lemma_floor_log2_bounds(n / 2);
        lemma_pow2_unfold(floor_log2(n));
        lemma_pow2_unfold(floor_log2(n) + 1);
    }
}

/// The logarithm of a power of two is its exponent.
pub proof fn lemma_floor_log2_pow2(k: nat)
    ensures
        floor_log2(pow2(k)) == k,
    decreases k,
{
    if k == 0 {
        lemma2_to64();
    } else {
        lemma_floor_log2_pow2((k - 1) as nat);
        lemma_pow2_unfold(k);
        lemma_pow2_pos((k - 1) as nat);
    }
}

/// On a sequence whose length is a power of two, `2^k`, the reordering moves
/// every element to the bit reversal of its index over `k` bits.
pub proof fn lemma_bit_reversed_position_pow2(p: nat, k: nat)
    requires
        p < pow2(k),
    ensures
        bit_reversed_position(p, pow2(k)) == reversed_bits(p, k),
{
    lemma_floor_log2_pow2(k);
}

/// Reverse the bits of `n` up to the highest bit `highest_bit`: the low
/// `highest_bit` bits of `n` come out in reverse order, and the bits above them
/// are dropped.
///
/// For example, `reverse_bits(0b101010, 6) == 0b010101`.
pub fn reverse_bits(n: usize, highest_bit: u32) -> (reversed: usize)
    requires
        1 <= highest_bit <= usize::BITS,
    ensures
        reversed == reversed_bits(n as nat, highest_bit as nat),
{
    let mut rest: usize = n;
    let mut reversed: usize = 0;
    let mut j: u32 = 0;
    proof {
        lemma2_to64();
        assert(low_bits(n as nat, 0).reverse() =~= Seq::<bool>::empty());
    }
    while j < highest_bit
        invariant
            j <= highest_bit <= usize::BITS,
            rest == n as nat / pow2(j as nat),
            reversed == reversed_bits(n as nat, j as nat),
            reversed < pow2(j as nat),
        decreases highest_bit - j,
    {
        proof {
            lemma_reversed_bits_step(n as nat, j as nat);
            lemma_pow2_unfold((j + 1) as nat);
            lemma_pow2_pos(j as nat);
            lemma_div_denominator(n as int, pow2(j as nat) as int, 2);
            lemma2_to64();
            if j + 1 < usize::BITS {
                vstd::arithmetic::power2::lemma_pow2_strictly_increases((j + 1) as nat, usize::BITS as nat);
            }
            assert(pow2((j + 1) as nat) <= pow2(usize::BITS as nat));
        }
        reversed = 2 * reversed + rest % 2;
        rest = rest / 2;
        j = j + 1;
    }
    reversed
}

/// Reversing the low `highest_bit` bits twice gives back every `n` below
/// `2^highest_bit`, for every width up to the whole machine word.
pub proof fn lemma_reverse_bits_round_trip(n: nat, highest_bit: nat)
    requires
        n < pow2(highest_bit),
    ensures
        reversed_bits(reversed_bits(n, highest_bit), highest_bit) == n,
{
    lemma_reversed_bits_involution(n, highest_bit);
    vstd::arithmetic::div_mod::lemma_small_mod(n, pow2(highest_bit));
}

/// The base-2 logarithm of `n`, rounded down.
fn ilog2(n: usize) -> (log: u32)
    requires
        n >= 1,
    ensures
        log == floor_log2(n as nat),
        log < usize::BITS,
{
    let mut m: usize = n;
    let mut log: u32 = 0;
    proof {
        lemma_floor_log2_bounds(n as nat);
        lemma2_to64();
        if floor_log2(n as nat) >= usize::BITS {
            if floor_log2(n as nat) > usize::BITS {
                vstd::arithmetic::power2::lemma_pow2_strictly_increases(
                    usize::BITS as nat,
                    floor_log2(n as nat),
                );
            }
        }
    }
    while m >= 2
        invariant
            m >= 1,
            log + floor_log2(m as nat) == floor_log2(n as nat),
            log as nat + floor_log2(m as nat) < usize::BITS,
        decreases m,
    {
        m = m / 2;
        log = log + 1;
    }
    log
}

/// Every position below `len` is found again after two bit-reversal
/// reorderings, and the reordering stays within the sequence.
pub proof fn lemma_bit_reversed_position_involution(p: nat, len: nat)
    requires
        p < len,
    ensures
        bit_reversed_position(p, len) < len,
        bit_reversed_position(bit_reversed_position(p, len), len) == p,
{
    let width = floor_log2(len);
    lemma_floor_log2_bounds(len);
    if p < pow2(width) {
        lemma_reversed_bits_bound(p, width);
        lemma_reversed_bits_involution(p, width);
        vstd::arithmetic::div_mod::lemma_small_mod(p, pow2(width));
    }
}

/// Reorder `data` so that each index below the largest power of two that fits
/// in its length trades places with its bit reversal; this is the first stage
/// of the iterative radix-2 FFT.
pub fn bit_reverse_permutation<T: Copy>(data: &mut Vec<T>)
    requires
        old(data).len() >= 2,
    ensures
        final(data).len() == old(data).len(),
        forall|p: int|
            0 <= p < old(data).len() ==> final(data)@[p] == old(data)@[bit_reversed_position(
                p as nat,
                old(data).len() as nat,
            ) as int],
{
    let len = data.len();
    let highest_bit = ilog2(len);
    let ghost orig = data@;
    let ghost width = highest_bit as nat;
    let ghost top = pow2(width);
    proof {
        lemma_floor_log2_bounds(len as nat);
    }
    let mut i: usize = 0;
    while i < len
        invariant
            len == data.len(),
            orig.len() == len,
            0 < highest_bit < usize::BITS,
            width == highest_bit,
            width == floor_log2(len as nat),
            top == pow2(width),
            top <= len,
            i <= len,
            forall|p: int|
                #![trigger data@[p]]
                0 <= p < len ==> data@[p] == orig[if p < top && (p < i || reversed_bits(
                    p as nat,
                    width,
                ) < i) {
                    reversed_bits(p as nat, width) as int
                } else {
                    p
                }],
        decreases len - i,
    {
        let reversed = reverse_bits(i, highest_bit);
        proof {
            lemma_reversed_bits_bound(i as nat, width);
            lemma_reversed_bits_involution(i as nat, width);
            if i < top {
                vstd::arithmetic::div_mod::lemma_small_mod(i as nat, top);
            }
        }
        if i < reversed {
            let ghost before = data@;
            assert(data@[i as int] == orig[i as int]);
            assert(data@[reversed as int] == orig[reversed as int]);
            let a = data[i];
            let b = data[reversed];
            data.set(i, b);
            data.set(reversed, a);
            assert forall|p: int| 0 <= p < len implies #[trigger] data@[p] == orig[if p < top
                && (p < i + 1 || reversed_bits(p as nat, width) < i + 1) {
                reversed_bits(p as nat, width) as int
            } else {
                p
            }] by {
                if p != i && p != reversed {
                    assert(data@[p] == before[p]);
                    if p < top {
                        lemma_reversed_bits_involution(p as nat, width);
                        vstd::arithmetic::div_mod::lemma_small_mod(p as nat, top);
                    }
                }
            }
        } else {
            assert forall|p: int| 0 <= p < len implies #[trigger] data@[p] == orig[if p < top
                && (p < i + 1 || reversed_bits(p as nat, width) < i + 1) {
                reversed_bits(p as nat, width) as int
            } else {
                p
            }] by {
                if p == i {
                } else if p < top {
                    lemma_reversed_bits_involution(p as nat, width);
                    vstd::arithmetic::div_mod::lemma_small_mod(p as nat, top);
                }
            }
        }
        i = i + 1;
    }
    proof {
        assert forall|p: int| 0 <= p < len implies #[trigger] data@[p] == orig[
            bit_reversed_position(p as nat, len as nat) as int] by {
            if p < top {
                lemma_reversed_bits_bound(p as nat, width);
            }
        }
    }
}

/// The `e`-th butterfly of stage `stage` of the iterative radix-2 FFT: the
/// stage combines blocks of `2^(stage + 1)` elements, and its `e`-th butterfly
/// pairs the element at offset `j = e mod 2^stage` of block `e / 2^stage` with
/// the element `2^stage` further on, using the `j`-th power of the stage's
/// twiddle factor. The result is `(top, bottom, j)`.
pub open spec fn butterfly(stage: nat, e: nat) -> (int, int, int) {
    let half = pow2(stage) as int;
    let j = e as int % half;
    let start = (e as int / half) * (2 * half);
    (start + j, start + j + half, j)
}

/// The layout of a stage's butterflies: the `e`-th butterfly of stage `s`
/// pairs `top` with `bottom = top + 2^s`; `top` lies in block `e / 2^s` of size
/// `2^(s+1)` at offset `e mod 2^s`; and its twiddle power is that same offset,
/// so within a block the powers run `0, 1, ..., 2^s - 1` and restart with the
/// next block.
pub proof fn lemma_butterfly_layout(stage: nat, e: nat)
    ensures
        ({
            let (top, bottom, twiddle) = butterfly(stage, e);
            &&& 0 <= twiddle < pow2(stage)
            &&& twiddle == e % pow2(stage)
            &&& bottom == top + pow2(stage)
            &&& top / (pow2(stage + 1) as int) == e / pow2(stage)
            &&& top % (pow2(stage + 1) as int) == twiddle
            &&& top == (e / pow2(stage)) * pow2(stage + 1) + e % pow2(stage)
        }),
{
    let h = pow2(stage) as int;
    lemma_pow2_pos(stage);
    lemma_pow2_unfold(stage + 1);
    vstd::arithmetic::div_mod::lemma_mod_pos_bound(e as int, h);
    let b = e as int / h;
    let j = e as int % h;
    vstd::arithmetic::div_mod::lemma_div_pos_is_pos(e as int, h);
    let (top, _, _) = butterfly(stage, e);
    assert(pow2(stage + 1) == 2 * h);
    lemma_fundamental_div_mod_converse(top, 2 * h, b, j);
}

/// Consecutive butterflies of a stage: inside a block the next butterfly moves
/// both elements one place on and raises the twiddle power by one; at a block
/// boundary it starts the next block, `2^(s+1)` further on, with power 0.
pub proof fn lemma_butterfly_successor(stage: nat, e: nat)
    ensures
        ({
            let (top, bottom, twiddle) = butterfly(stage, e);
            let (next_top, next_bottom, next_twiddle) = butterfly(stage, e + 1);
            if twiddle + 1 < pow2(stage) {
                &&& next_twiddle == twiddle + 1
                &&& next_top == top + 1
                &&& next_bottom == bottom + 1
            } else {
                &&& next_twiddle == 0
                &&& next_top == top - twiddle + pow2(stage + 1)
            }
        }),
{
    let h = pow2(stage) as int;
    lemma_pow2_pos(stage);
    lemma_pow2_unfold(stage + 1);
    lemma_butterfly_layout(stage, e);
    lemma_butterfly_layout(stage, e + 1);
    let b = e as int / h;
    let j = e as int % h;
    vstd::arithmetic::div_mod::lemma_fundamental_div_mod(e as int, h);
    if j + 1 < h {
        lemma_fundamental_div_mod_converse(e + 1 as int, h, b, j + 1);
    } else {
        vstd::arithmetic::div_mod::lemma_mod_pos_bound(e as int, h);
        assert((b + 1) * h == h * b + h) by (nonlinear_arith);
        lemma_fundamental_div_mod_converse(e + 1 as int, h, b + 1, 0);
        assert((b + 1) * (2 * h) == b * (2 * h) + 2 * h) by (nonlinear_arith);
    }
}

/// Within a stage, no element takes part in two butterflies: distinct
/// butterflies have distinct top and bottom elements, and no element is the top
/// of one and the bottom of another.
pub proof fn lemma_butterflies_disjoint(stage: nat, e1: nat, e2: nat)
    requires
        e1 != e2,
    ensures
        butterfly(stage, e1).0 != butterfly(stage, e2).0,
        butterfly(stage, e1).1 != butterfly(stage, e2).1,
        butterfly(stage, e1).0 != butterfly(stage, e2).1,
{
    let h = pow2(stage) as int;
    lemma_pow2_pos(stage);
    let b1 = e1 as int / h;
    let j1 = e1 as int % h;
    let b2 = e2 as int / h;
    let j2 = e2 as int % h;
    vstd::arithmetic::div_mod::lemma_fundamental_div_mod(e1 as int, h);
    vstd::arithmetic::div_mod::lemma_fundamental_div_mod(e2 as int, h);
    vstd::arithmetic::div_mod::lemma_mod_pos_bound(e1 as int, h);
    vstd::arithmetic::div_mod::lemma_mod_pos_bound(e2 as int, h);
    let (t1, u1, _) = butterfly(stage, e1);
    let (t2, u2, _) = butterfly(stage, e2);
    lemma_fundamental_div_mod_converse(t1, 2 * h, b1, j1);
    lemma_fundamental_div_mod_converse(t2, 2 * h, b2, j2);
    lemma_fundamental_div_mod_converse(u1, 2 * h, b1, j1 + h);
    lemma_fundamental_div_mod_converse(u2, 2 * h, b2, j2 + h);
    if t1 == t2 || u1 == u2 {
        assert(b1 == b2 && j1 == j2);
        assert(e1 == e2);
    }
}

/// The butterflies of stage `stage` of the FFT of a sequence whose length is a
/// power of two, in the order the transform performs them: block by block, and
/// within a block by offset. Every index is inside the sequence.
pub fn butterfly_schedule(len: usize, stage: u32) -> (schedule: Vec<(usize, usize, usize)>)
    requires
        len >= 2,
        pow2(floor_log2(len as nat)) == len,
        stage < floor_log2(len as nat),
    ensures
        schedule.len() == len / 2,
        forall|e: int|
            0 <= e < schedule.len() ==> {
                let (top, bottom, j) = #[trigger] schedule@[e];
                &&& (top as int, bottom as int, j as int) == butterfly(stage as nat, e as nat)
                &&& top < bottom < len
            },
{
    let ghost log = floor_log2(len as nat);
    let ghost blocks_log = (log - stage - 1) as nat;
    proof {
        lemma_pow2_adds((stage + 1) as nat, blocks_log);
        lemma_pow2_unfold((stage + 1) as nat);
        lemma_pow2_pos(stage as nat);
        lemma_pow2_pos(blocks_log);
        vstd::arithmetic::mul::lemma_mul_increases(pow2(blocks_log) as int, pow2((stage + 1) as nat) as int);
    }
    let mut half: usize = 1;
    let mut k: u32 = 0;
    proof {
        lemma2_to64();
    }
    while k < stage
        invariant
            k <= stage,
            half == pow2(k as nat),
            pow2(stage as nat) * 2 <= len,
        decreases stage - k,
    {
        proof {
            lemma_pow2_unfold((k + 1) as nat);
            if k + 1 < stage {
                vstd::arithmetic::power2::lemma_pow2_strictly_increases((k + 1) as nat, stage as nat);
            }
        }
        half = half * 2;
        k = k + 1;
    }
    let size = 2 * half;
    let blocks = len / size;
    proof {
        assert(len == size * pow2(blocks_log));
        lemma_fundamental_div_mod_converse(len as int, size as int, pow2(blocks_log) as int, 0);
        assert(blocks == pow2(blocks_log));
    }
    let mut schedule: Vec<(usize, usize, usize)> = Vec::new();
    let mut b: usize = 0;
    while b < blocks
        invariant
            half == pow2(stage as nat),
            half > 0,
            size == 2 * half,
            len == size * blocks,
            b <= blocks,
            schedule.len() == b * half,
            forall|e: int|
                0 <= e < schedule.len() ==> {
                    let (top, bottom, j) = #[trigger] schedule@[e];
                    &&& (top as int, bottom as int, j as int) == butterfly(stage as nat, e as nat)
                    &&& top < bottom < len
                },
        decreases blocks - b,
    {
        proof {
            vstd::arithmetic::mul::lemma_mul_inequality((b + 1) as int, blocks as int, size as int);
            vstd::arithmetic::mul::lemma_mul_is_distributive_add_other_way(size as int, b as int, 1);
        }
        let start = b * size;
        let mut j: usize = 0;
        while j < half
            invariant
                half == pow2(stage as nat),
                half > 0,
                size == 2 * half,
                len == size * blocks,
                b < blocks,
                start == b * size,
                start + size <= len,
                j <= half,
                schedule.len() == b * half + j,
                forall|e: int|
                    0 <= e < schedule.len() ==> {
                        let (top, bottom, j) = #[trigger] schedule@[e];
                        &&& (top as int, bottom as int, j as int) == butterfly(stage as nat, e as nat)
                        &&& top < bottom < len
                    },
            decreases half - j,
        {
            proof {
                let e = b * half + j;
                lemma_fundamental_div_mod_converse(e as int, half as int, b as int, j as int);
                assert(butterfly(stage as nat, e as nat) == (
                    (start + j) as int,
                    (start + j + half) as int,
                    j as int,
                )) by {
                    assert((b as int) * (2 * half as int) == b * size);
                }
            }
            schedule.push((start + j, start + j + half, j));
            j = j + 1;
        }
        proof {
            vstd::arithmetic::mul::lemma_mul_is_distributive_add_other_way(half as int, b as int, 1);
        }
        b = b + 1;
    }
    proof {
        let count = schedule.len() as int;
        assert(len as int == count * 2) by (nonlinear_arith)
            requires
                count == blocks * half,
                len == size * blocks,
                size == 2 * half,
        ;
        lemma_fundamental_div_mod_converse(len as int, 2, count, 0);
    }
    schedule
}

} // verus!
