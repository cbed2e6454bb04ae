//! Conversion between binary digit strings and the integers the algorithm
//! works on: parsing an observation line into a query value, and rendering
//! the resolved secret as a fixed-width digit sequence.

use vstd::prelude::*;
use vstd::arithmetic::power2::{
    lemma2_to64, lemma2_to64_rest, lemma_pow2_strictly_increases, lemma_pow2_unfold, pow2,
};
use vstd::bits::{lemma_u64_pow2_no_overflow, lemma_u64_shl_is_mul};

use crate::model::{all_ones, bin_val, is_bin_seq};

verus! {

/// The value of a binary digit string is below 2 to the power of its length.
pub proof fn lemma_bin_val_bound(s: Seq<char>)
    ensures
        bin_val(s) < pow2(s.len()),
    decreases s.len(),
{
    if s.len() == 0 {
        lemma2_to64();
    } else {
        lemma_bin_val_bound(s.drop_last());
        lemma_pow2_unfold(s.len());
    }
}

/// Parse a binary digit string as an unsigned integer.
pub fn bin_to_int(bin_str: &str) -> (r: u64)
    requires
        1 <= bin_str@.len() <= 64,
        is_bin_seq(bin_str@),
    ensures
        r as nat == bin_val(bin_str@),
{
    let n = bin_str.unicode_len();
    let mut value: u64 = 0;
    let mut i: usize = 0;
    proof {
        assert(bin_str@.take(0) =~= Seq::<char>::empty());
    }
    while i < n
        invariant
            n == bin_str@.len(),
            1 <= n <= 64,
            is_bin_seq(bin_str@),
            0 <= i <= n,
            value as nat == bin_val(bin_str@.take(i as int)),
        decreases n - i,
    {
        let c = bin_str.get_char(i);
        let bit: u64 = if c == '1' {
            1
        } else {
            0
        };
        proof {
            lemma_bin_val_bound(bin_str@.take(i as int));
            if (i as nat) < 63 {
                lemma_pow2_strictly_increases(i as nat, 63);
            }
            lemma2_to64();
            lemma2_to64_rest();
        }
        value = value * 2 + bit;
        i += 1;
        proof {
            assert(bin_str@.take(i as int).drop_last() =~= bin_str@.take(i as int - 1));
            assert(bin_str@.take(i as int).last() == bin_str@[i as int - 1]);
        }
    }
    proof {
        assert(bin_str@.take(n as int) =~= bin_str@);
    }
    value
}

/// Shifting away all `l` significant bits of a width-`l` value leaves zero.
proof fn lemma_high_shift_zero(v: u64, l: u64)
    requires
        1 <= l <= 64,
        v <= all_ones(l),
    ensures
        v >> l == 0,
{
    if l == 64 {
        assert(v >> 64u64 == 0) by (bit_vector);
    } else {
        lemma_u64_pow2_no_overflow(l as nat);
        lemma_u64_shl_is_mul(1, l);
        assert(v >> l == 0) by (bit_vector)
            requires
                l < 64 && v < (1u64 << l),
        ;
    }
}

/// Peeling one bit off a right shift.
proof fn lemma_shift_step(v: u64, sh: u64)
    by (bit_vector)
    requires
        sh < 64,
    ensures
        (v >> sh) as int == 2 * ((v >> (sh + 1)) as int) + ((v >> sh) & 1) as int,
        ((v >> sh) & 1) == 0 || ((v >> sh) & 1) == 1,
{
}

/// Render `v` as a binary digit string of exactly `l` characters, zero-padded
/// on the left.  Re-parsing the result gives back `v`: together with
/// `bin_to_int` this is the width round trip of the printed secret.
pub fn int_to_bin(l: u64, v: u64) -> (r: Vec<char>)
    requires
        1 <= l <= 64,
        v <= all_ones(l),
    ensures
        r@.len() == l,
        is_bin_seq(r@),
        bin_val(r@) == v as nat,
{
    let mut out: Vec<char> = Vec::new();
    let mut i: u64 = 0;
    proof {
        lemma_high_shift_zero(v, l);
        if l < 64 {
            assert(v >> l == v >> ((l - i) as u64));
        } else {
            assert(v >> 64u64 == v >> ((l - i) as u64));
        }
    }
    while i < l
        invariant
            1 <= l <= 64,
            0 <= i <= l,
            out@.len() == i,
            is_bin_seq(out@),
            bin_val(out@) == (v >> ((l - i) as u64)) as nat,
        decreases l - i,
    {
        let shift = l - 1 - i;
        let b = (v >> shift) & 1;
        let c = if b == 1 {
            '1'
        } else {
            '0'
        };
        proof {
            lemma_shift_step(v, shift);
        }
        let ghost out_old = out@;
        let ghost i_old = i;
        out.push(c);
        i += 1;
        proof {
            assert(out@.drop_last() =~= out_old);
            assert(out@.last() == c);
            assert((l - i_old) as u64 == shift + 1);
            assert(bin_val(out@) == 2 * bin_val(out_old) + (if c == '1' {
                1nat
            } else {
                0nat
            }));
        }
    }
    proof {
        assert(v >> 0u64 == v) by (bit_vector);
    }
    out
}

} // verus!
