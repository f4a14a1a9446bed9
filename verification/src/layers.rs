//! How many records each layer of the graph holds.
//!
//! The base layer holds all records. Each layer above holds the share of the
//! layer below that the layer ratio gives, rounded down, as long as that is
//! at least `M` records.

use vstd::prelude::*;
use vstd::arithmetic::div_mod::{lemma_div_denominator, lemma_multiply_divide_lt};
use vstd::arithmetic::power2::{lemma2_to64, lemma_pow2_pos, lemma_pow2_strictly_increases, lemma_pow2_unfold, pow2};
use crate::bits::{in_unit_interval, ONE};
use crate::node::M;

verus! {

/// Two to the number of fraction bits of a pattern.
pub const FRACTION: u32 = 0x80_0000;

/// The significand of a positive pattern, as an integer.
pub open spec fn significand(bits: u32) -> nat {
    if bits / FRACTION == 0 {
        (bits % FRACTION) as nat
    } else {
        (FRACTION + bits % FRACTION) as nat
    }
}

/// The power of two by which the significand of a pattern below `1.0` is
/// divided: the pattern's value is `significand / 2^scale`.
pub open spec fn scale(bits: u32) -> nat {
    if bits / FRACTION == 0 {
        149
    } else {
        (150 - bits / FRACTION) as nat
    }
}

/// `len` times the ratio, rounded down, for a ratio between 0 and 1.
pub open spec fn scaled(len: nat, ratio: u32) -> nat {
    (len * significand(ratio)) / pow2(scale(ratio))
}

/// The size of the layer above one of `len` records. A ratio that is not
/// between 0 and 1 gives no layer above.
pub open spec fn next_size(len: nat, ratio: u32) -> nat {
    if in_unit_interval(ratio) {
        scaled(len, ratio)
    } else {
        0
    }
}

/// The sizes of the layers over `len` records, from the base upward.
pub open spec fn layer_sizes(len: nat, ratio: u32) -> Seq<nat>
    decreases len,
{
    let next = next_size(len, ratio);
    if next < M || next >= len {
        seq![len]
    } else {
        seq![len].add(layer_sizes(next, ratio))
    }
}

/// A ratio between 0 and 1 makes a layer smaller.
pub proof fn lemma_scaled_shrinks(len: nat, ratio: u32)
    requires
        in_unit_interval(ratio),
        len > 0,
    ensures
        scaled(len, ratio) < len,
{
    let m = significand(ratio);
    let s = scale(ratio);
    assert(ratio / FRACTION <= 126);
    assert(s >= 24);
    lemma2_to64();
    if s > 24 {
        lemma_pow2_strictly_increases(24, s);
    }
    lemma_pow2_pos(s);
    assert(m < pow2(s));
    assert(len * m < pow2(s) * len) by (nonlinear_arith)
        requires
            m < pow2(s),
            len > 0,
    ;
    lemma_multiply_divide_lt((len * m) as int, pow2(s) as int, len as int);
}

/// Computes `scaled`.
pub fn shrink(len: usize, ratio: u32) -> (r: usize)
    requires
        in_unit_interval(ratio),
    ensures
        r == scaled(len as nat, ratio),
        len > 0 ==> r < len,
        len == 0 ==> r == 0,
{
    let e: u32 = ratio / FRACTION;
    let f: u32 = ratio % FRACTION;
    let m: u32 = if e == 0 {
        f
    } else {
        FRACTION + f
    };
    let s: u32 = if e == 0 {
        149
    } else {
        150 - e
    };
    assert((len as u128) * (m as u128) < 0x1_0000_0000_0000_0000_0000_0000u128) by (nonlinear_arith)
        requires
            len <= 0xFFFF_FFFF_FFFF_FFFFu128,
            m < 0x100_0000u128,
    ;
    let product: u128 = (len as u128) * (m as u128);
    let mut x: u128 = product;
    let mut i: u32 = 0;
    proof {
        lemma2_to64();
        assert(pow2(0) == 1);
    }
    while i < s
        invariant
            i <= s,
            x == (product as int) / (pow2(i as nat) as int),
        decreases s - i,
    {
        proof {
            lemma_pow2_pos(i as nat);
            lemma_pow2_unfold((i + 1) as nat);
            lemma_div_denominator(product as int, pow2(i as nat) as int, 2);
            assert(pow2(i as nat) * 2 == pow2((i + 1) as nat));
        }
        x = x / 2;
        i += 1;
    }
    proof {
        if len > 0 {
            lemma_scaled_shrinks(len as nat, ratio);
        } else {
            lemma_pow2_pos(s as nat);
            assert(product == 0);
            assert(0int / (pow2(s as nat) as int) == 0) by (nonlinear_arith)
                requires
                    pow2(s as nat) > 0,
            ;
        }
    }
    x as usize
}

/// Computes `layer_sizes`.
pub fn sizes(len: usize, ratio: u32) -> (r: Vec<usize>)
    ensures
        r@.len() == layer_sizes(len as nat, ratio).len(),
        forall|i: int| 0 <= i < r@.len() ==> r@[i] as nat == #[trigger] layer_sizes(len as nat, ratio)[i],
        r@.len() >= 1,
        r@[0] == len,
        forall|i: int| 0 < i < r@.len() ==> M <= #[trigger] r@[i] < r@[i - 1],
        forall|i: int| 0 <= i < r@.len() ==> #[trigger] r@[i] <= len,
{
    let mut r: Vec<usize> = Vec::new();
    r.push(len);
    if ratio == 0 || ratio >= ONE {
        return r;
    }
    let mut current: usize = len;
    let ghost mut done: Seq<nat> = Seq::empty();
    loop
        invariant
            in_unit_interval(ratio),
            r@.len() == done.len() + 1,
            forall|i: int| 0 <= i < done.len() ==> r@[i] as nat == #[trigger] done[i],
            r@[r@.len() - 1] == current,
            layer_sizes(len as nat, ratio) == done.add(layer_sizes(current as nat, ratio)),
            r@[0] == len,
            forall|i: int| 0 < i < r@.len() ==> M <= #[trigger] r@[i] < r@[i - 1],
            forall|i: int| 0 <= i < r@.len() ==> #[trigger] r@[i] <= len,
        ensures
            r@.len() == layer_sizes(len as nat, ratio).len(),
            forall|i: int| 0 <= i < r@.len() ==> r@[i] as nat == #[trigger] layer_sizes(len as nat, ratio)[i],
            r@.len() >= 1,
            r@[0] == len,
            forall|i: int| 0 < i < r@.len() ==> M <= #[trigger] r@[i] < r@[i - 1],
            forall|i: int| 0 <= i < r@.len() ==> #[trigger] r@[i] <= len,
        decreases current,
    {
        let next: usize = shrink(current, ratio);
        if next < M || next >= current {
            assert(layer_sizes(current as nat, ratio) == seq![current as nat]);
            break ;
        }
        proof {
            let tail = layer_sizes(next as nat, ratio);
            assert(layer_sizes(current as nat, ratio) == seq![current as nat].add(tail));
            assert(done.add(seq![current as nat].add(tail)) =~= done.push(current as nat).add(tail));
            done = done.push(current as nat);
        }
        r.push(next);
        current = next;
    }
    r
}

} // verus!
