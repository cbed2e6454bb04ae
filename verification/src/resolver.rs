//! Executable secret resolution: a single forward pass over the queries with
//! incremental constraint propagation and an early exit when the constraints
//! force a unique secret.

use vstd::prelude::*;
use vstd::arithmetic::power2::{lemma2_to64, lemma_pow2_pos};
use vstd::bits::{lemma_u64_pow2_no_overflow, lemma_u64_shl_is_mul};
use vstd::seq_lib::lemma_no_dup_in_concat;

use crate::model::{
    all_ones, delta_set, fallback_from, forced_pick, remaining_count, resolve_from,
    resolved_secret,
};

verus! {

broadcast use vstd::seq_lib::group_seq_properties;

/// Linear membership test on a vector of queries or candidates.
fn contains_u64(v: &Vec<u64>, x: u64) -> (r: bool)
    ensures
        r == v@.contains(x),
{
    let mut i: usize = 0;
    while i < v.len()
        invariant
            0 <= i <= v@.len(),
            forall|k: int| 0 <= k < i ==> v@[k] != x,
        decreases v@.len() - i,
    {
        if v[i] == x {
            return true;
        }
        i += 1;
    }
    false
}

/// The all-ones value of width `l`, computed with a shift.
pub fn width_mask(l: u64) -> (r: u64)
    requires
        1 <= l <= 64,
    ensures
        r == all_ones(l),
{
    if l == 64 {
        proof {
            lemma2_to64();
        }
        u64::MAX
    } else {
        proof {
            lemma_u64_pow2_no_overflow(l as nat);
            lemma_u64_shl_is_mul(1, l);
            lemma_pow2_pos(l as nat);
        }
        (1u64 << l) - 1
    }
}

/// The largest value in `[1, hi]` outside the forbidden set, or zero when
/// every such value is forbidden.
fn largest_allowed(hi: u64, forb: &Vec<u64>) -> (r: u64)
    ensures
        r == fallback_from(hi, forb@.to_set()),
        r <= hi,
{
    let mut cand: u64 = hi;
    while cand > 0
        invariant
            cand <= hi,
            fallback_from(hi, forb@.to_set()) == fallback_from(cand, forb@.to_set()),
        decreases cand,
    {
        if !contains_u64(forb, cand) {
            return cand;
        }
        cand = cand - 1;
    }
    0
}

/// XOR with a fixed value is injective.
proof fn lemma_xor_cancel(q: u64, a: u64, b: u64)
    by (bit_vector)
    ensures
        q ^ a == q ^ b ==> a == b,
        q ^ (q ^ a) == a,
{
}

/// The XOR of two values of width `l` stays within width `l`.
proof fn lemma_xor_within_width(a: u64, b: u64, l: u64)
    by (bit_vector)
    requires
        l < 64,
        a <= (1u64 << l) - 1,
        b <= (1u64 << l) - 1,
    ensures
        a ^ b <= (1u64 << l) - 1,
{
}

/// `forced_pick` returns the pair value of the first unique query whose pair
/// lands in `valid`.
proof fn lemma_forced_pick_at(q: u64, uniq: Seq<u64>, valid: Set<u64>, j: int)
    requires
        0 <= j < uniq.len(),
        valid.contains(q ^ uniq[j]),
        forall|k: int| 0 <= k < j ==> !valid.contains(q ^ uniq[k]),
    ensures
        forced_pick(q, uniq, valid) == q ^ uniq[j],
    decreases j,
{
    if j > 0 {
        lemma_forced_pick_at(q, uniq.drop_first(), valid, j - 1);
    }
}

/// Resolve the secret of width `l` from the ordered query sequence.
///
/// The result is exactly what the mathematical pass `resolved_secret`
/// prescribes: the forced secret if the constraints ever pin it down
/// mid-scan, otherwise the largest nonzero candidate that no pair of
/// distinct queries has ruled out (all ones when there are no queries).
pub fn resolve_secret(l: u64, queries: &Vec<u64>) -> (s: u64)
    requires
        1 <= l <= 64,
    ensures
        s == resolved_secret(l, queries@),
        (forall|k: int| 0 <= k < queries@.len() ==> #[trigger] queries@[k] <= all_ones(l)) ==> s
            <= all_ones(l),
{
    let ghost in_width = forall|k: int|
        0 <= k < queries@.len() ==> #[trigger] queries@[k] <= all_ones(l);
    let total = width_mask(l);
    let mut uniq: Vec<u64> = Vec::new();
    let mut forb: Vec<u64> = Vec::new();
    let mut i: usize = 0;
    proof {
        assert(queries@.skip(0) =~= queries@);
        assert(uniq@ =~= Seq::<u64>::empty());
        assert(forb@.to_set() =~= Set::<u64>::empty());
    }
    while i < queries.len()
        invariant
            1 <= l <= 64,
            total == all_ones(l),
            0 <= i <= queries@.len(),
            uniq@.no_duplicates(),
            forb@.no_duplicates(),
            in_width == (forall|k: int|
                0 <= k < queries@.len() ==> #[trigger] queries@[k] <= all_ones(l)),
            in_width ==> (forall|k: int|
                0 <= k < uniq@.len() ==> #[trigger] uniq@[k] <= all_ones(l)),
            resolved_secret(l, queries@) == resolve_from(
                l,
                queries@.skip(i as int),
                uniq@,
                forb@.to_set(),
            ),
        decreases queries@.len() - i,
    {
        let q = queries[i];
        let ghost rest = queries@.skip(i as int);
        proof {
            assert(rest[0] == queries@[i as int]);
            assert(rest.drop_first() =~= queries@.skip(i as int + 1));
        }
        if contains_u64(&uniq, q) {
            // a duplicate adds no information: skip it
            i += 1;
        } else {
            // the new candidates this query points at, minus those already
            // ruled out
            let ghost forb_set = forb@.to_set();
            let ghost xor_q = |u: u64| q ^ u;
            let mut valid: Vec<u64> = Vec::new();
            let mut j: usize = 0;
            while j < uniq.len()
                invariant
                    0 <= j <= uniq@.len(),
                    uniq@.no_duplicates(),
                    forb@.no_duplicates(),
                    forb_set == forb@.to_set(),
                    xor_q == (|u: u64| q ^ u),
                    valid@.no_duplicates(),
                    forall|m: int|
                        0 <= m < valid@.len() ==> uniq@.take(j as int).map_values(xor_q).contains(
                            #[trigger] valid@[m],
                        ) && !forb_set.contains(valid@[m]),
                    forall|k: int|
                        0 <= k < j ==> forb_set.contains(q ^ #[trigger] uniq@[k])
                            || valid@.contains(q ^ uniq@[k]),
                decreases uniq@.len() - j,
            {
                let x = q ^ uniq[j];
                let ghost old_valid = valid@;
                let ghost prev_map = uniq@.take(j as int).map_values(xor_q);
                let ghost new_map = uniq@.take(j as int + 1).map_values(xor_q);
                proof {
                    assert(new_map =~= prev_map.push(x));
                }
                if !contains_u64(&forb, x) {
                    proof {
                        // x is new even among the candidates gathered so far:
                        // its partner index j is not among the earlier ones
                        if old_valid.contains(x) {
                            let m = choose|m: int|
                                0 <= m < old_valid.len() && old_valid[m] == x;
                            assert(prev_map.contains(x));
                            let k = choose|k: int|
                                0 <= k < prev_map.len() && prev_map[k] == x;
                            assert(prev_map[k] == xor_q(uniq@.take(j as int)[k]));
                            assert(q ^ uniq@[k] == q ^ uniq@[j as int]);
                            lemma_xor_cancel(q, uniq@[k], uniq@[j as int]);
                            assert(false);
                        }
                    }
                    valid.push(x);
                } else {
                    proof {
                        assert(forb_set.contains(x));
                    }
                }
                j += 1;
            }
            let ghost dset = delta_set(q, uniq@);
            let ghost vset = valid@.to_set();
            proof {
                assert(uniq@.take(uniq@.len() as int) =~= uniq@);
                assert forall|y: u64| #[trigger] vset.contains(y) implies dset.difference(
                    forb_set,
                ).contains(y) by {
                    let m = choose|m: int| 0 <= m < valid@.len() && valid@[m] == y;
                    assert(uniq@.map_values(xor_q).contains(y));
                }
                assert forall|y: u64| dset.difference(forb_set).contains(y) implies #[trigger] vset
                    .contains(y) by {
                    assert(uniq@.map_values(xor_q).contains(y));
                    let k = choose|k: int|
                        0 <= k < uniq@.map_values(xor_q).len() && uniq@.map_values(xor_q)[k] == y;
                    assert(q ^ uniq@[k] == y);
                    assert(valid@.contains(y));
                }
                assert(vset =~= dset.difference(forb_set));
                valid@.unique_seq_to_set();
                forb@.unique_seq_to_set();
            }
            // count of candidates not yet ruled out, before this query
            let flen_usize = forb.len();
            let flen: u64 = flen_usize as u64;
            let remaining: u64 = if total >= flen {
                total - flen
            } else {
                0
            };
            proof {
                assert(remaining == remaining_count(l, forb_set));
            }
            if remaining > 0 && remaining == valid.len() as u64 {
                // forced: exactly the candidates this query introduces are
                // left, so pair q with the earliest unique query that
                // reconstructs one of them
                proof {
                    assert(valid@.len() > 0);
                    assert(vset.contains(valid@[0]));
                    assert(dset.contains(valid@[0]));
                    assert(uniq@.map_values(xor_q).contains(valid@[0]));
                    let k = choose|k: int|
                        0 <= k < uniq@.map_values(xor_q).len() && uniq@.map_values(xor_q)[k]
                            == valid@[0];
                    assert(vset.contains(q ^ uniq@[k]));
                }
                let ghost j0 = choose|k: int|
                    0 <= k < uniq@.len() && vset.contains(q ^ uniq@[k]);
                let un: usize = uniq.len();
                let mut m: usize = 0;
                while !contains_u64(&valid, q ^ uniq[m])
                    invariant
                        un == uniq@.len(),
                        0 <= m <= j0 < un,
                        vset == valid@.to_set(),
                        vset.contains(q ^ uniq@[j0]),
                        forall|k: int| 0 <= k < m ==> !vset.contains(q ^ uniq@[k]),
                    decreases j0 - m,
                {
                    proof {
                        assert(!vset.contains(q ^ uniq@[m as int]));
                        assert(m < j0);
                    }
                    m += 1;
                }
                let s = q ^ uniq[m];
                proof {
                    lemma_forced_pick_at(q, uniq@, vset, m as int);
                    if in_width && l < 64 {
                        lemma_u64_pow2_no_overflow(l as nat);
                        lemma_u64_shl_is_mul(1, l);
                        lemma_xor_within_width(q, uniq@[m as int], l);
                    }
                    if l == 64 {
                        lemma2_to64();
                    }
                }
                return s;
            }
            // not forced: commit the new constraints and keep scanning
            proof {
                assert forall|a: int, b: int|
                    0 <= a < forb@.len() && 0 <= b < valid@.len() implies forb@[a] != valid@[b] by {
                    assert(vset.contains(valid@[b]));
                    assert(forb@.contains(forb@[a]));
                }
                lemma_no_dup_in_concat(forb@, valid@);
            }
            let ghost forb0 = forb@;
            let mut k: usize = 0;
            while k < valid.len()
                invariant
                    0 <= k <= valid@.len(),
                    forb@ == forb0 + valid@.take(k as int),
                decreases valid@.len() - k,
            {
                let x = valid[k];
                forb.push(x);
                k += 1;
                proof {
                    assert(forb0 + valid@.take(k as int) =~= (forb0 + valid@.take(k as int - 1)).push(
                        x,
                    ));
                }
            }
            proof {
                assert(forb@ =~= forb0 + valid@);
                assert forall|y: u64|
                    #[trigger] forb@.to_set().contains(y) <==> forb_set.union(dset).contains(
                        y,
                    ) by {
                    assert(forb@.contains(y) <==> forb0.contains(y) || valid@.contains(y));
                    if vset.contains(y) {
                        assert(dset.contains(y));
                    }
                    if dset.contains(y) && !forb_set.contains(y) {
                        assert(vset.contains(y));
                    }
                }
                assert(forb@.to_set() =~= forb_set.union(dset));
            }
            uniq.push(q);
            i += 1;
        }
    }
    proof {
        assert(queries@.skip(i as int) =~= Seq::<u64>::empty());
    }
    largest_allowed(total, &forb)
}

} // verus!
