//! Possibility counts: how many trees of each size a nonterminal, or the
//! tail of a rule's right-hand side, derives.
//!
//! Tables are kept by size `n` (a layer per size). In layer `n`, the entry of
//! nonterminal `nt` is at `nt`; the entry of rule `r` from its `k`-th
//! reference on is at `rhs_off(r) + (len_r - k)`, so that the entries of a
//! rule are filled in increasing index order.
use vstd::prelude::*;
use crate::newtypes::RuleID;
use crate::rule::Rule;

verus! {

pub open spec fn sat16(x: int) -> int {
    if x > 65535 { 65535 } else { x }
}

pub open spec fn sat32(x: int) -> int {
    if x > u32::MAX { u32::MAX as int } else { x }
}

/// The number of references of rule `r`.
pub open spec fn rlen(rules: Seq<Rule>, r: int) -> int {
    rules[r].nonterms@.len() as int
}

/// Where the entries of rule `r` start in a layer.
pub open spec fn rhs_off(rules: Seq<Rule>, r: int) -> int
    decreases r,
{
    if r <= 0 { 0 } else { rhs_off(rules, r - 1) + rlen(rules, r - 1) + 1 }
}

/// Trees of size `n` derivable from `nt` (saturated).
pub open spec fn ntc(nt_l: Seq<Seq<u16>>, nt: int, n: int) -> int {
    if n < 1 { 0 } else { nt_l[n][nt] as int }
}

/// Expansions of the references of rule `r` from the `k`-th on into exactly
/// `n` nodes (saturated at `u32::MAX`).
pub open spec fn rhs32(rules: Seq<Rule>, rh_l: Seq<Seq<u32>>, r: int, k: int, n: int) -> int {
    rh_l[n][rhs_off(rules, r) + (rlen(rules, r) - k)] as int
}

/// The same count, saturated at `u16::MAX`.
pub open spec fn rhs16(rules: Seq<Rule>, rh_l: Seq<Seq<u32>>, r: int, k: int, n: int) -> int {
    sat16(rhs32(rules, rh_l, r, k, n))
}

/// The sum over the first `j` rules of `rids` of their counts for `n - 1`
/// nodes below the root.
pub open spec fn rules_sum(rules: Seq<Rule>, rh_l: Seq<Seq<u32>>, rids: Seq<RuleID>, j: int, n: int) -> int
    decreases j,
{
    if j <= 0 { 0 } else { rules_sum(rules, rh_l, rids, j - 1, n) + rhs16(rules, rh_l, rids[j - 1] as int, 0, n - 1) }
}

/// The product term of giving `t` nodes to the rest of the references after
/// the `k`-th, and `n - t` to the `k`-th.
pub open spec fn split_term(rules: Seq<Rule>, nt_l: Seq<Seq<u16>>, rh_l: Seq<Seq<u32>>, r: int, k: int, n: int, t: int) -> int {
    sat16(rhs16(rules, rh_l, r, k + 1, t) * ntc(nt_l, rules[r].nonterms@[k] as int, n - t))
}

/// The sum of the first `s` split terms.
pub open spec fn split_sum(rules: Seq<Rule>, nt_l: Seq<Seq<u16>>, rh_l: Seq<Seq<u32>>, r: int, k: int, n: int, s: int) -> int
    decreases s,
{
    if s <= 0 { 0 } else { split_sum(rules, nt_l, rh_l, r, k, n, s - 1) + split_term(rules, nt_l, rh_l, r, k, n, s - 1) }
}

/// What the entry of `nt` for size `n` must hold.
pub open spec fn nt_entry(rules: Seq<Rule>, nt_rules: Seq<Seq<RuleID>>, rh_l: Seq<Seq<u32>>, nt: int, n: int) -> int {
    if n < 1 { 0 } else { sat16(rules_sum(rules, rh_l, nt_rules[nt], nt_rules[nt].len() as int, n)) }
}

/// What the entry of rule `r` from reference `k` for size `n` must hold.
pub open spec fn rhs_entry(rules: Seq<Rule>, nt_l: Seq<Seq<u16>>, rh_l: Seq<Seq<u32>>, r: int, k: int, n: int) -> int {
    if k >= rlen(rules, r) {
        if n == 0 { 1 } else { 0 }
    } else {
        sat32(split_sum(rules, nt_l, rh_l, r, k, n, n + 1))
    }
}

/// The first `layers` layers of the tables hold the counts.
pub open spec fn counts_ok(
    rules: Seq<Rule>,
    nt_rules: Seq<Seq<RuleID>>,
    num_nts: int,
    nt_l: Seq<Seq<u16>>,
    rh_l: Seq<Seq<u32>>,
    layers: int,
) -> bool {
    &&& nt_l.len() == layers
    &&& rh_l.len() == layers
    &&& forall|n: int| 0 <= n < layers ==> (#[trigger] nt_l[n]).len() == num_nts
    &&& forall|n: int| 0 <= n < layers ==> (#[trigger] rh_l[n]).len() == rhs_off(rules, rules.len() as int)
    &&& forall|n: int, nt: int| 0 <= n < layers && 0 <= nt < num_nts ==>
        #[trigger] nt_l[n][nt] as int == nt_entry(rules, nt_rules, rh_l, nt, n)
    &&& forall|n: int, r: int, k: int| 0 <= n < layers && 0 <= r < rules.len() && 0 <= k <= rlen(rules, r) ==>
        #[trigger] rhs32(rules, rh_l, r, k, n) == rhs_entry(rules, nt_l, rh_l, r, k, n)
}

pub proof fn lemma_rhs_off_mono(rules: Seq<Rule>, a: int, b: int)
    requires
        0 <= a <= b <= rules.len(),
    ensures
        rhs_off(rules, a) + (if a < b { rlen(rules, a) + 1 } else { 0 }) <= rhs_off(rules, b),
        rhs_off(rules, a) >= 0,
    decreases b - a,
{
    if a < b {
        lemma_rhs_off_mono(rules, a + 1, b);
    }
    lemma_rhs_off_nonneg(rules, a);
}

proof fn lemma_rhs_off_nonneg(rules: Seq<Rule>, a: int)
    requires
        0 <= a <= rules.len(),
    ensures
        rhs_off(rules, a) >= 0,
    decreases a,
{
    if a > 0 {
        lemma_rhs_off_nonneg(rules, a - 1);
    }
}

proof fn lemma_rules_sum_frame(rules: Seq<Rule>, l1: Seq<Seq<u32>>, l2: Seq<Seq<u32>>, rids: Seq<RuleID>, j: int, n: int)
    requires
        forall|i: int| 0 <= i < j ==> rhs16(rules, l1, rids[i] as int, 0, n - 1) == rhs16(rules, l2, rids[i] as int, 0, n - 1),
    ensures
        rules_sum(rules, l1, rids, j, n) == rules_sum(rules, l2, rids, j, n),
    decreases j,
{
    if j > 0 {
        lemma_rules_sum_frame(rules, l1, l2, rids, j - 1, n);
    }
}

proof fn lemma_split_sum_frame(
    rules: Seq<Rule>,
    n1: Seq<Seq<u16>>,
    l1: Seq<Seq<u32>>,
    n2: Seq<Seq<u16>>,
    l2: Seq<Seq<u32>>,
    r: int,
    k: int,
    n: int,
    s: int,
)
    requires
        forall|t: int| 0 <= t < s ==> split_term(rules, n1, l1, r, k, n, t) == split_term(rules, n2, l2, r, k, n, t),
    ensures
        split_sum(rules, n1, l1, r, k, n, s) == split_sum(rules, n2, l2, r, k, n, s),
    decreases s,
{
    if s > 0 {
        lemma_split_sum_frame(rules, n1, l1, n2, l2, r, k, n, s - 1);
    }
}

/// Split sums are never negative.
pub proof fn lemma_sums_nonneg(rules: Seq<Rule>, nt_l: Seq<Seq<u16>>, rh_l: Seq<Seq<u32>>, r: int, k: int, n: int, s: int)
    ensures
        split_sum(rules, nt_l, rh_l, r, k, n, s) >= 0,
    decreases s,
{
    if s > 0 {
        lemma_sums_nonneg(rules, nt_l, rh_l, r, k, n, s - 1);
        let a = rhs16(rules, rh_l, r, k + 1, s - 1);
        let b = ntc(nt_l, rules[r].nonterms@[k] as int, n - (s - 1));
        assert(a >= 0 && b >= 0);
        assert(a * b >= 0) by (nonlinear_arith) requires a >= 0 && b >= 0;
    }
}

/// Fills the count tables for sizes `0..max_len`.
pub fn calc_counts(rules: &Vec<Rule>, nt_rules: &Vec<Vec<RuleID>>, num_nts: usize, max_len: usize)
    -> (res: (Vec<Vec<u16>>, Vec<Vec<u32>>))
    requires
        nt_rules@.len() == num_nts,
        forall|r: int, k: int| 0 <= r < rules@.len() && 0 <= k < rlen(rules@, r) ==> (#[trigger] rules@[r].nonterms@[k]) < num_nts,
        forall|nt: int, j: int| 0 <= nt < num_nts && 0 <= j < nt_rules@[nt]@.len() ==> (#[trigger] nt_rules@[nt]@[j]) < rules@.len(),
        rhs_off(rules@, rules@.len() as int) <= usize::MAX,
    ensures
        counts_ok(rules@, nt_rules@.map_values(|v: Vec<RuleID>| v@), num_nts as int,
            res.0@.map_values(|v: Vec<u16>| v@), res.1@.map_values(|v: Vec<u32>| v@), max_len as int),
{
    let ghost rs = rules@;
    let ghost ntr = nt_rules@.map_values(|v: Vec<RuleID>| v@);
    let nr = rules.len();
    let mut nt_layers: Vec<Vec<u16>> = Vec::new();
    let mut rh_layers: Vec<Vec<u32>> = Vec::new();
    let mut n: usize = 0;
    while n < max_len
        invariant
            n <= max_len,
            nr == rs.len(),
            rs == rules@,
            ntr == nt_rules@.map_values(|v: Vec<RuleID>| v@),
            nt_rules@.len() == num_nts,
            forall|r: int, k: int| 0 <= r < rules@.len() && 0 <= k < rlen(rules@, r) ==> (#[trigger] rules@[r].nonterms@[k]) < num_nts,
            forall|nt: int, j: int| 0 <= nt < num_nts && 0 <= j < nt_rules@[nt]@.len() ==> (#[trigger] nt_rules@[nt]@[j]) < rules@.len(),
            rhs_off(rs, nr as int) <= usize::MAX,
            counts_ok(rs, ntr, num_nts as int, nt_layers@.map_values(|v: Vec<u16>| v@), rh_layers@.map_values(|v: Vec<u32>| v@), n as int),
        decreases max_len - n,
    {
        let ghost ntl = nt_layers@.map_values(|v: Vec<u16>| v@);
        let ghost rhl = rh_layers@.map_values(|v: Vec<u32>| v@);
        // Nonterminal entries of layer n.
        let mut ntv: Vec<u16> = Vec::new();
        let mut nt: usize = 0;
        while nt < num_nts
            invariant
                nt <= num_nts,
                ntv@.len() == nt,
                nr == rs.len(),
                rs == rules@,
                ntr == nt_rules@.map_values(|v: Vec<RuleID>| v@),
                nt_rules@.len() == num_nts,
                forall|q: int, j: int| 0 <= q < num_nts && 0 <= j < nt_rules@[q]@.len() ==> (#[trigger] nt_rules@[q]@[j]) < rules@.len(),
                rhs_off(rs, nr as int) <= usize::MAX,
                counts_ok(rs, ntr, num_nts as int, ntl, rhl, n as int),
                ntl == nt_layers@.map_values(|v: Vec<u16>| v@),
                rhl == rh_layers@.map_values(|v: Vec<u32>| v@),
                forall|q: int| 0 <= q < nt ==> ntv@[q] as int == nt_entry(rs, ntr, rhl, q, n as int),
            decreases num_nts - nt,
        {
            let mut acc: u32 = 0;
            if n >= 1 {
                let rids = &nt_rules[nt];
                let mut j: usize = 0;
                while j < rids.len()
                    invariant
                        n >= 1,
                        j <= rids@.len(),
                        rids@ == ntr[nt as int],
                        nr == rs.len(),
                        rs == rules@,
                        forall|i: int| 0 <= i < rids@.len() ==> (#[trigger] rids@[i]) < nr,
                        rhs_off(rs, nr as int) <= usize::MAX,
                        counts_ok(rs, ntr, num_nts as int, ntl, rhl, n as int),
                        rhl == rh_layers@.map_values(|v: Vec<u32>| v@),
                        acc as int == sat16(rules_sum(rs, rhl, rids@, j as int, n as int)),
                    decreases rids@.len() - j,
                {
                    let r = rids[j];
                    let off = rule_offset(rules, r);
                    let len_r = rules[r].nonterms.len();
                    proof {
                        lemma_rhs_off_mono(rs, r as int, nr as int);
                        assert(rhl[n - 1].len() == rhs_off(rs, nr as int));
                    }
                    let x = rh_layers[n - 1][off + len_r];
                    let x16: u32 = if x > 65535 { 65535 } else { x };
                    assert(x16 as int == rhs16(rs, rhl, r as int, 0, n - 1));
                    acc = if acc + x16 > 65535 { 65535 } else { acc + x16 };
                    j = j + 1;
                }
            }
            ntv.push(acc as u16);
            nt = nt + 1;
        }
        let ghost ntl2 = ntl.push(ntv@);
        // Rule entries of layer n.
        let mut rhv: Vec<u32> = Vec::new();
        let mut r: usize = 0;
        proof {
            assert forall|t: int| 0 <= t < n as int implies #[trigger] ntl2[t] == ntl[t] by {}
        }
        while r < nr
            invariant
                n < max_len,
                rh_layers@.len() == n,
                nt_layers@.len() == n,
                r <= nr,
                nr == rs.len(),
                rs == rules@,
                ntr == nt_rules@.map_values(|v: Vec<RuleID>| v@),
                forall|q: int, k: int| 0 <= q < rules@.len() && 0 <= k < rlen(rules@, q) ==> (#[trigger] rules@[q].nonterms@[k]) < num_nts,
                rhs_off(rs, nr as int) <= usize::MAX,
                counts_ok(rs, ntr, num_nts as int, ntl, rhl, n as int),
                ntl == nt_layers@.map_values(|v: Vec<u16>| v@),
                rhl == rh_layers@.map_values(|v: Vec<u32>| v@),
                ntl2 == ntl.push(ntv@),
                ntv@.len() == num_nts,
                rhv@.len() == rhs_off(rs, r as int),
                forall|q: int, k: int| 0 <= q < r && 0 <= k <= rlen(rs, q) ==>
                    #[trigger] rhs32(rs, rhl.push(rhv@), q, k, n as int) == rhs_entry(rs, ntl2, rhl.push(rhv@), q, k, n as int),
            decreases nr - r,
        {
            proof {
                lemma_rhs_off_mono(rs, r as int, nr as int);
            }
            let len_r = rules[r].nonterms.len();
            let base = rhv.len();
            let mut j: usize = 0;
            while j <= len_r
                invariant
                    n < max_len,
                    rh_layers@.len() == n,
                    nt_layers@.len() == n,
                    j <= len_r + 1,
                    r < nr,
                    len_r == rlen(rs, r as int),
                    base == rhs_off(rs, r as int),
                    rhv@.len() == base + j,
                    base + len_r + 1 <= rhs_off(rs, nr as int),
                    nr == rs.len(),
                    rs == rules@,
                    forall|q: int, k: int| 0 <= q < rules@.len() && 0 <= k < rlen(rules@, q) ==> (#[trigger] rules@[q].nonterms@[k]) < num_nts,
                    rhs_off(rs, nr as int) <= usize::MAX,
                    counts_ok(rs, ntr, num_nts as int, ntl, rhl, n as int),
                    ntl == nt_layers@.map_values(|v: Vec<u16>| v@),
                    rhl == rh_layers@.map_values(|v: Vec<u32>| v@),
                    ntl2 == ntl.push(ntv@),
                    ntv@.len() == num_nts,
                    forall|q: int, k: int| 0 <= q < r && 0 <= k <= rlen(rs, q) ==>
                        #[trigger] rhs32(rs, rhl.push(rhv@), q, k, n as int) == rhs_entry(rs, ntl2, rhl.push(rhv@), q, k, n as int),
                    forall|k: int| len_r - j < k <= len_r ==>
                        #[trigger] rhs32(rs, rhl.push(rhv@), r as int, k, n as int) == rhs_entry(rs, ntl2, rhl.push(rhv@), r as int, k, n as int),
                decreases len_r + 1 - j,
            {
                let k = len_r - j;
                let ghost before = rhl.push(rhv@);
                let v: u32 = if k == len_r {
                    if n == 0 { 1 } else { 0 }
                } else {
                    let head = rules[r].nonterms[k];
                    let mut acc: u32 = 0;
                    let mut t: usize = 0;
                    while t <= n
                        invariant
                            t <= n + 1,
                            n < max_len,
                            r < nr,
                            nr == rs.len(),
                            rs == rules@,
                            rhs_off(rs, nr as int) <= usize::MAX,
                            rh_layers@.len() == n,
                            nt_layers@.len() == n,
                            k < len_r,
                            k == len_r - j,
                            head == rs[r as int].nonterms@[k as int],
                            head < num_nts,
                            ntv@.len() == num_nts,
                            rhv@.len() == base + j,
                            j >= 1,
                            before == rhl.push(rhv@),
                            counts_ok(rs, ntr, num_nts as int, ntl, rhl, n as int),
                            ntl == nt_layers@.map_values(|v: Vec<u16>| v@),
                            rhl == rh_layers@.map_values(|v: Vec<u32>| v@),
                            ntl2 == ntl.push(ntv@),
                            base == rhs_off(rs, r as int),
                            base + len_r + 1 <= rhs_off(rs, nr as int),
                            len_r == rlen(rs, r as int),
                            acc as int == sat32(split_sum(rs, ntl2, before, r as int, k as int, n as int, t as int)),
                        decreases n + 1 - t,
                    {
                        let idx = base + (len_r - (k + 1));
                        proof {
                            if t < n {
                                assert(rhl[t as int].len() == rhs_off(rs, nr as int));
                            }
                        }
                        let a0: u32 = if t < n { rh_layers[t][idx] } else { rhv[idx] };
                        let a: u64 = if a0 > 65535 { 65535 } else { a0 as u64 };
                        let m = n - t;
                        proof {
                            if m >= 1 && t > 0 {
                                assert(ntl[m as int].len() == num_nts);
                            }
                        }
                        let b: u64 = if m < 1 { 0 } else if t == 0 { ntv[head] as u64 } else { nt_layers[m][head] as u64 };
                        assert(a as int == rhs16(rs, before, r as int, k + 1, t as int));
                        assert(b as int == ntc(ntl2, head as int, n - t));
                        assert(a * b <= 65535 * 65535) by (nonlinear_arith) requires a <= 65535, b <= 65535;
                        let p = a * b;
                        let term: u64 = if p > 65535 { 65535 } else { p };
                        let sum = acc as u64 + term;
                        proof {
                            lemma_sums_nonneg(rs, ntl2, before, r as int, k as int, n as int, t as int);
                        }
                        acc = if sum > 0xffff_ffff { 0xffff_ffff } else { sum as u32 };
                        t = t + 1;
                    }
                    acc
                };
                rhv.push(v);
                proof {
                    let after = rhl.push(rhv@);
                    assert(after[n as int] == rhv@);
                    // Entries computed before read only indices below `base + j`.
                    assert forall|q: int, kk: int| 0 <= q < r && 0 <= kk <= rlen(rs, q) implies
                        #[trigger] rhs32(rs, after, q, kk, n as int) == rhs_entry(rs, ntl2, after, q, kk, n as int) by {
                        lemma_rhs_off_mono(rs, q, r as int);
                        assert(rhs32(rs, after, q, kk, n as int) == rhs32(rs, before, q, kk, n as int));
                        if kk < rlen(rs, q) {
                            assert forall|t: int| 0 <= t < n + 1 implies split_term(rs, ntl2, before, q, kk, n as int, t)
                                == split_term(rs, ntl2, after, q, kk, n as int, t) by {
                                assert(rhs32(rs, after, q, kk + 1, t) == rhs32(rs, before, q, kk + 1, t));
                            }
                            lemma_split_sum_frame(rs, ntl2, before, ntl2, after, q, kk, n as int, n + 1);
                        }
                    }
                    assert forall|kk: int| len_r - (j + 1) < kk <= len_r implies
                        #[trigger] rhs32(rs, after, r as int, kk, n as int) == rhs_entry(rs, ntl2, after, r as int, kk, n as int) by {
                        if kk < len_r {
                            assert forall|t: int| 0 <= t < n + 1 implies split_term(rs, ntl2, before, r as int, kk, n as int, t)
                                == split_term(rs, ntl2, after, r as int, kk, n as int, t) by {
                                assert(rhs32(rs, after, r as int, kk + 1, t) == rhs32(rs, before, r as int, kk + 1, t));
                            }
                            lemma_split_sum_frame(rs, ntl2, before, ntl2, after, r as int, kk, n as int, n + 1);
                        }
                        if kk > k {
                            assert(rhs32(rs, after, r as int, kk, n as int) == rhs32(rs, before, r as int, kk, n as int));
                        }
                    }
                }
                j = j + 1;
            }
            r = r + 1;
        }
        let ghost rhl2 = rhl.push(rhv@);
        nt_layers.push(ntv);
        rh_layers.push(rhv);
        proof {
            assert(nt_layers@.map_values(|v: Vec<u16>| v@) =~= ntl2);
            assert(rh_layers@.map_values(|v: Vec<u32>| v@) =~= rhl2);
            assert forall|m: int, q: int| 0 <= m < n + 1 && 0 <= q < num_nts implies
                #[trigger] ntl2[m][q] as int == nt_entry(rs, ntr, rhl2, q, m) by {
                if m >= 1 {
                    assert forall|i: int| 0 <= i < ntr[q].len() implies rhs16(rs, rhl, ntr[q][i] as int, 0, m - 1)
                        == rhs16(rs, rhl2, ntr[q][i] as int, 0, m - 1) by {}
                    lemma_rules_sum_frame(rs, rhl, rhl2, ntr[q], ntr[q].len() as int, m);
                }
            }
            assert forall|m: int, q: int, kk: int| 0 <= m < n && 0 <= q < rs.len() && 0 <= kk <= rlen(rs, q) implies
                #[trigger] rhs32(rs, rhl2, q, kk, m) == rhs_entry(rs, ntl2, rhl2, q, kk, m) by {
                assert(rhs32(rs, rhl2, q, kk, m) == rhs32(rs, rhl, q, kk, m));
                if kk < rlen(rs, q) {
                    assert forall|t: int| 0 <= t < m + 1 implies split_term(rs, ntl, rhl, q, kk, m, t)
                        == split_term(rs, ntl2, rhl2, q, kk, m, t) by {}
                    lemma_split_sum_frame(rs, ntl, rhl, ntl2, rhl2, q, kk, m, m + 1);
                }
            }
        }
        n = n + 1;
    }
    (nt_layers, rh_layers)
}

/// Where the entries of rule `r` start in a layer.
pub(crate) fn rule_offset(rules: &Vec<Rule>, r: usize) -> (off: usize)
    requires
        r < rules@.len(),
        rhs_off(rules@, rules@.len() as int) <= usize::MAX,
    ensures
        off == rhs_off(rules@, r as int),
        off + rlen(rules@, r as int) + 1 <= rhs_off(rules@, rules@.len() as int),
{
    proof {
        lemma_rhs_off_mono(rules@, r as int, rules@.len() as int);
    }
    let mut off: usize = 0;
    let mut q: usize = 0;
    while q < r
        invariant
            q <= r < rules@.len(),
            off == rhs_off(rules@, q as int),
            rhs_off(rules@, r as int) + rlen(rules@, r as int) + 1 <= rhs_off(rules@, rules@.len() as int),
            rhs_off(rules@, rules@.len() as int) <= usize::MAX,
        decreases r - q,
    {
        proof {
            lemma_rhs_off_mono(rules@, q + 1, r as int);
        }
        off = off + rules[q].nonterms.len() + 1;
        q = q + 1;
    }
    off
}

} // verus!
