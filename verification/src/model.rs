//! Mathematical model of the resolver and the labeler.
//!
//! The executable functions of the crate are specified against the spec
//! functions of this module: `resolved_secret` says which secret a query
//! sequence resolves to, and `label_code` says which label each query
//! position receives once the secret is fixed.

use vstd::prelude::*;
use vstd::arithmetic::power2::pow2;

verus! {

/// The all-ones value of bit-width `l`, that is 2^l - 1; also the number of
/// nonzero candidate secrets of width `l`.
pub open spec fn all_ones(l: u64) -> u64 {
    (pow2(l as nat) - 1) as u64
}

/// Numeric value of a big-endian binary digit string.
pub open spec fn bin_val(s: Seq<char>) -> nat
    decreases s.len(),
{
    if s.len() == 0 {
        0
    } else {
        2 * bin_val(s.drop_last()) + (if s.last() == '1' {
            1nat
        } else {
            0nat
        })
    }
}

/// Every character of `s` is a binary digit.
pub open spec fn is_bin_seq(s: Seq<char>) -> bool {
    forall|i: int| 0 <= i < s.len() ==> s[i] == '0' || s[i] == '1'
}

/// The query values that a sequence of observation lines parses to.
pub open spec fn parsed_queries(qs: Seq<String>) -> Seq<u64> {
    qs.map_values(|t: String| bin_val(t@) as u64)
}

/// The candidate secrets a new unique query `q` points at: its XOR with every
/// unique query seen before it.
pub open spec fn delta_set(q: u64, uniq: Seq<u64>) -> Set<u64> {
    uniq.map_values(|u: u64| q ^ u).to_set()
}

/// How many nonzero candidates of width `l` are not yet ruled out by `forb`
/// (saturating at zero).
pub open spec fn remaining_count(l: u64, forb: Set<u64>) -> nat {
    if forb.len() >= all_ones(l) {
        0
    } else {
        (all_ones(l) - forb.len()) as nat
    }
}

/// The forced secret: `q` XOR the earliest unique query whose pair value lies
/// in `valid`.  The zero default is never reached when `valid` is a nonempty
/// subset of `delta_set(q, uniq)`.
pub open spec fn forced_pick(q: u64, uniq: Seq<u64>, valid: Set<u64>) -> u64
    decreases uniq.len(),
{
    if uniq.len() == 0 {
        0
    } else if valid.contains(q ^ uniq[0]) {
        q ^ uniq[0]
    } else {
        forced_pick(q, uniq.drop_first(), valid)
    }
}

/// The largest value in `[1, hi]` not in `forb`, or zero when all of them are.
pub open spec fn fallback_from(hi: u64, forb: Set<u64>) -> u64
    decreases hi,
{
    if hi == 0 {
        0
    } else if !forb.contains(hi) {
        hi
    } else {
        fallback_from((hi - 1) as u64, forb)
    }
}

/// One forward pass of the resolver over the remaining queries `rest`, with
/// `uniq` the unique queries already folded in (in arrival order) and `forb`
/// the candidates already ruled out.
pub open spec fn resolve_from(l: u64, rest: Seq<u64>, uniq: Seq<u64>, forb: Set<u64>) -> u64
    decreases rest.len(),
{
    if rest.len() == 0 {
        fallback_from(all_ones(l), forb)
    } else {
        let q = rest[0];
        if uniq.contains(q) {
            resolve_from(l, rest.drop_first(), uniq, forb)
        } else {
            let valid = delta_set(q, uniq).difference(forb);
            if remaining_count(l, forb) > 0 && remaining_count(l, forb) == valid.len() {
                forced_pick(q, uniq, valid)
            } else {
                resolve_from(l, rest.drop_first(), uniq.push(q), forb.union(delta_set(q, uniq)))
            }
        }
    }
}

/// The secret that a full query sequence resolves to.
pub open spec fn resolved_secret(l: u64, queries: Seq<u64>) -> u64 {
    resolve_from(l, queries, Seq::empty(), Set::empty())
}

/// Canonical representative of the equivalence pair `{q, q ^ s}`: its smaller
/// member.
pub open spec fn rep(q: u64, s: u64) -> u64 {
    if q <= q ^ s {
        q
    } else {
        q ^ s
    }
}

/// The distinct class representatives of `qs` under secret `s`, in
/// first-encounter order.
pub open spec fn reps_seen(qs: Seq<u64>, s: u64) -> Seq<u64>
    decreases qs.len(),
{
    if qs.len() == 0 {
        Seq::empty()
    } else {
        let prev = reps_seen(qs.drop_last(), s);
        if prev.contains(rep(qs.last(), s)) {
            prev
        } else {
            prev.push(rep(qs.last(), s))
        }
    }
}

/// How many classes the labeler can name: label codes run from 'A' upward
/// through the byte range, and the cursor must still be able to advance past
/// the last assigned code.
pub const MAX_CLASSES: usize = 190;

/// Label code of the query at position `i`: 'A' plus the encounter rank of
/// this query's class representative.
pub open spec fn label_code(qs: Seq<u64>, s: u64, i: int) -> int {
    ('A' as int) + reps_seen(qs.take(i + 1), s).index_of(rep(qs[i], s))
}

/// The label character of the query at position `i`.
pub open spec fn label_char(qs: Seq<u64>, s: u64, i: int) -> char {
    (label_code(qs, s, i) as u8) as char
}

/// In a duplicate-free sequence, any position holding `x` is `index_of(x)`.
pub proof fn lemma_index_of_unique(r: Seq<u64>, x: u64, idx: int)
    requires
        r.no_duplicates(),
        0 <= idx < r.len(),
        r[idx] == x,
    ensures
        r.index_of(x) == idx,
{
    assert(r.contains(x));
}

/// The representatives seen never repeat.
pub proof fn lemma_reps_seen_no_dup(qs: Seq<u64>, s: u64)
    ensures
        reps_seen(qs, s).no_duplicates(),
    decreases qs.len(),
{
    broadcast use vstd::seq_lib::group_seq_properties;

    if qs.len() > 0 {
        lemma_reps_seen_no_dup(qs.drop_last(), s);
        let prev = reps_seen(qs.drop_last(), s);
        let r = rep(qs.last(), s);
        if !prev.contains(r) {
            assert(prev.push(r) =~= prev + seq![r]);
            vstd::seq_lib::lemma_no_dup_in_concat(prev, seq![r]);
        }
    }
}

/// The representatives of a prefix of the queries are a prefix of the
/// representatives of the whole sequence.
pub proof fn lemma_reps_seen_prefix(qs: Seq<u64>, s: u64, i: int)
    requires
        0 <= i <= qs.len(),
    ensures
        reps_seen(qs.take(i), s).len() <= reps_seen(qs, s).len(),
        forall|k: int|
            0 <= k < reps_seen(qs.take(i), s).len() ==> reps_seen(qs.take(i), s)[k] == reps_seen(
                qs,
                s,
            )[k],
    decreases qs.len(),
{
    if i < qs.len() {
        assert(qs.take(i) =~= qs.drop_last().take(i));
        lemma_reps_seen_prefix(qs.drop_last(), s, i);
    } else {
        assert(qs.take(i) =~= qs);
    }
}

/// The label of position `i` can be read off the full representative
/// sequence: it is 'A' plus the rank of this query's representative there.
pub proof fn lemma_label_code_from_full(qs: Seq<u64>, s: u64, i: int)
    requires
        0 <= i < qs.len(),
    ensures
        reps_seen(qs, s).contains(rep(qs[i], s)),
        label_code(qs, s, i) == ('A' as int) + reps_seen(qs, s).index_of(rep(qs[i], s)),
{
    broadcast use vstd::seq_lib::group_seq_properties;

    let r = rep(qs[i], s);
    let pre = qs.take(i + 1);
    assert(pre.drop_last() =~= qs.take(i));
    assert(pre.last() == qs[i]);
    let pre_reps = reps_seen(pre, s);
    assert(pre_reps.contains(r));
    lemma_reps_seen_no_dup(pre, s);
    let idx = pre_reps.index_of(r);
    lemma_reps_seen_prefix(qs, s, i + 1);
    assert(reps_seen(qs, s)[idx] == r);
    lemma_reps_seen_no_dup(qs, s);
    lemma_index_of_unique(reps_seen(qs, s), r, idx);
}

} // verus!
