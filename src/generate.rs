//! Size-aware sampling of derivation trees from the count tables.
use vstd::prelude::*;
use crate::context::Context;
use crate::counts::{ntc, rhs16, rhs32, rlen, rule_offset, rules_sum, split_sum, split_term, rhs_off, sat16};
use crate::newtypes::{NTermID, RuleID};
use crate::random::{lemma_wsum_mono, lemma_wsum_prefix, sample_weighted, wsum};
use crate::rule::{NodeRuleView, NormalOrCustomRule};
use crate::tree::{parents_spec, node_views, lemma_rev_nts, lemma_run_compose, lemma_run_frame, lemma_run_parents, nodes_valid, resolve, rev_nts, run_stack, tree_wf, Tree, TreeLike};

verus! {

impl Context {
    /// Sampling works on the count tables.
    pub open spec fn can_sample(&self) -> bool {
        &&& self.ready()
        &&& !self.dumb
        &&& self.max_len <= 0xffff_ffff
        &&& forall|nt: int| 0 <= nt < self.num_nts() ==> (#[trigger] self.nt_rules_view()[nt]).len() <= 0xffff_ffff
    }

    /// The entry of rule `r` from reference `k` for size `n`, saturated at `u16::MAX`.
    fn rhs16_at(&self, r: RuleID, k: usize, n: usize) -> (v: u64)
        requires
            self.can_sample(),
            r < self.rules@.len(),
            k <= rlen(self.rules@, r as int),
            n < self.max_len,
        ensures
            v == rhs16(self.rules@, self.rhs_counts(), r as int, k as int, n as int),
            v <= 65535,
    {
        proof {
            crate::counts::lemma_rhs_off_mono(self.rules@, r as int, self.rules@.len() as int);
            assert(self.rhs_counts()[n as int].len() == rhs_off(self.rules@, self.rules@.len() as int));
        }
        let off = rule_offset(&self.rules, r);
        let x = self.rhs_and_n_to_count[n][off + (self.rules[r].nonterms.len() - k)];
        if x > 65535 { 65535 } else { x as u64 }
    }

    /// The count of trees of size `n` from `nt`.
    fn ntc_at(&self, nt: NTermID, n: usize) -> (v: u64)
        requires
            self.can_sample(),
            nt < self.num_nts(),
            n < self.max_len,
        ensures
            v == ntc(self.nt_counts(), nt as int, n as int),
            v <= 65535,
    {
        if n < 1 {
            return 0;
        }
        proof {
            assert(self.nt_counts()[n as int].len() == self.num_nts());
        }
        self.nt_and_n_to_count[n][nt] as u64
    }

    /// The number of nodes that the `k`-th reference of rule `r` gets when its
    /// references from the `k`-th on share `len` nodes: drawn in proportion to
    /// the trees for that reference times the expansions of the rest into the
    /// remaining nodes. The draw always leaves both sides derivable.
    pub fn get_random_len(&self, len: usize, r: RuleID, k: usize) -> (res: usize)
        requires
            self.can_sample(),
            r < self.rules@.len(),
            k < rlen(self.rules@, r as int),
            len < self.max_len,
            rhs32(self.rules@, self.rhs_counts(), r as int, k as int, len as int) > 0,
        ensures
            res <= len,
            split_term(self.rules@, self.nt_counts(), self.rhs_counts(), r as int, k as int, len as int, len - res) > 0,
    {
        let rules = &self.rules;
        let nlen = rules[r].nonterms.len();
        let head = rules[r].nonterms[k];
        proof {
            crate::context::lemma_refs_nonterms(self.rules@[r as int], self.num_nts());
        }
        let mut w: Vec<u64> = Vec::new();
        let mut t: usize = 0;
        while t <= len
            invariant
                self.can_sample(),
                r < self.rules@.len(),
                k < rlen(self.rules@, r as int),
                nlen == rlen(self.rules@, r as int),
                head == self.rules@[r as int].nonterms@[k as int],
                head < self.num_nts(),
                len < self.max_len,
                t <= len + 1,
                w@.len() == t,
                wsum(w@, t as int) == split_sum(self.rules@, self.nt_counts(), self.rhs_counts(), r as int, k as int, len as int, t as int),
                forall|i: int| 0 <= i < t ==> #[trigger] w@[i] as int == split_term(self.rules@, self.nt_counts(), self.rhs_counts(), r as int, k as int, len as int, i),
                wsum(w@, t as int) <= 65535 * t,
            decreases len + 1 - t,
        {
            let a = self.rhs16_at(r, k + 1, t);
            let b = self.ntc_at(head, len - t);
            assert(a * b <= 65535 * 65535) by (nonlinear_arith) requires a <= 65535, b <= 65535;
            let p = a * b;
            let term: u64 = if p > 65535 { 65535 } else { p };
            let ghost w0 = w@;
            w.push(term);
            proof {
                lemma_wsum_prefix(w@, w0, t as int);
            }
            t = t + 1;
        }
        proof {
            let n = len as int;
            assert(rhs32(self.rules@, self.rhs_counts(), r as int, k as int, n)
                == crate::counts::rhs_entry(self.rules@, self.nt_counts(), self.rhs_counts(), r as int, k as int, n));
        }
        let i = sample_weighted(&w);
        len - i
    }

    /// A rule of `nt` drawn in proportion to the number of trees of size
    /// `len` it derives; it always derives at least one.
    pub fn get_random_rule_for_nt(&self, nt: NTermID, len: usize) -> (res: RuleID)
        requires
            self.can_sample(),
            nt < self.num_nts(),
            1 <= len < self.max_len,
            ntc(self.nt_counts(), nt as int, len as int) > 0,
        ensures
            res < self.rules@.len(),
            self.rules@[res as int].nonterm == nt,
            rhs16(self.rules@, self.rhs_counts(), res as int, 0, len - 1) > 0,
    {
        let rids = &self.nts_to_rules[nt];
        let ghost ids = self.nt_rules_view()[nt as int];
        let mut w: Vec<u64> = Vec::new();
        let mut j: usize = 0;
        while j < rids.len()
            invariant
                self.can_sample(),
                nt < self.num_nts(),
                1 <= len < self.max_len,
                rids@ == ids,
                ids == self.nt_rules_view()[nt as int],
                j <= ids.len(),
                w@.len() == j,
                wsum(w@, j as int) == rules_sum(self.rules@, self.rhs_counts(), ids, j as int, len as int),
                forall|i: int| 0 <= i < j ==> #[trigger] w@[i] as int == rhs16(self.rules@, self.rhs_counts(), ids[i] as int, 0, len - 1),
                wsum(w@, j as int) <= 65535 * j,
            decreases ids.len() - j,
        {
            let rid = rids[j];
            proof {
                assert(ids[j as int] < self.rules@.len());
            }
            let x = self.rhs16_at(rid, 0, len - 1);
            let ghost w0 = w@;
            w.push(x);
            proof {
                lemma_wsum_prefix(w@, w0, j as int);
            }
            j = j + 1;
        }
        let i = sample_weighted(&w);
        proof {
            assert(ids[i as int] < self.rules@.len());
        }
        rids[i]
    }

    /// Appends to `nodes` a tree in pre-order whose root has rule `r` and
    /// which has exactly `len` nodes below the root.
    fn gen_rule(&self, r: RuleID, len: usize, nodes: &mut Vec<NormalOrCustomRule>)
        requires
            self.can_sample(),
            r < self.rules@.len(),
            len < self.max_len,
            rhs32(self.rules@, self.rhs_counts(), r as int, 0, len as int) > 0,
        ensures
            final(nodes)@.len() == old(nodes)@.len() + len + 1,
            forall|i: int| 0 <= i < old(nodes)@.len() ==> #[trigger] final(nodes)@[i] == old(nodes)@[i],
            final(nodes)@[old(nodes)@.len() as int]@ == NodeRuleView::NormalRule(r),
            forall|i: int| old(nodes)@.len() <= i < final(nodes)@.len() ==>
                (#[trigger] final(nodes)@[i]@ matches NodeRuleView::NormalRule(id) && id < self.rules@.len()),
            forall|base: Seq<(NTermID, usize)>, p: usize| #[trigger] run_stack(self.grammar(), node_views(final(nodes)@),
                old(nodes)@.len() as int, final(nodes)@.len() as int, base.push((self.rules@[r as int].nonterm, p))) == Some(base),
        decreases len,
    {
        let start = nodes.len();
        let ghost g = self.grammar();
        let ghost x_nt = self.rules@[r as int].nonterm;
        let ghost rv = rev_nts(self.rules@[r as int]@.children, start);
        nodes.push(NormalOrCustomRule::NormalRule(r));
        let nts = &self.rules[r].nonterms;
        proof {
            crate::context::lemma_refs_nonterms(self.rules@[r as int], self.num_nts());
            assert(self.rules@[r as int].wf());
            lemma_rev_nts(self.rules@[r as int]@.children, start);
            let nv = node_views(nodes@);
            assert(nv[start as int] == NodeRuleView::NormalRule(r));
            assert(resolve(g, nv[start as int]) == self.rules@[r as int]@);
            assert forall|base: Seq<(NTermID, usize)>, p: usize| #[trigger] run_stack(g, nv, start as int, nv.len() as int, base.push((x_nt, p)))
                == Some(base + rv.subrange(0, nts@.len() - 0)) by {
                let st = base.push((x_nt, p));
                assert(st.drop_last() =~= base);
                assert(rv.subrange(0, nts@.len() as int) =~= rv);
                assert(run_stack(g, nv, start + 1, nv.len() as int, base + rv) == Some(base + rv));
            }
        }
        let mut remaining: usize = len;
        let mut k: usize = 0;
        while k < nts.len()
            invariant
                self.can_sample(),
                r < self.rules@.len(),
                nts == &self.rules@[r as int].nonterms,
                forall|q: int| 0 <= q < nts@.len() ==> #[trigger] nts@[q] < self.num_nts(),
                k <= nts@.len(),
                remaining <= len,
                len < self.max_len,
                rhs32(self.rules@, self.rhs_counts(), r as int, k as int, remaining as int) > 0,
                nodes@.len() == start + 1 + (len - remaining),
                start == old(nodes)@.len(),
                forall|i: int| 0 <= i < start ==> #[trigger] nodes@[i] == old(nodes)@[i],
                nodes@[start as int]@ == NodeRuleView::NormalRule(r),
                forall|i: int| start <= i < nodes@.len() ==>
                    (#[trigger] nodes@[i]@ matches NodeRuleView::NormalRule(id) && id < self.rules@.len()),
                g == self.grammar(),
                x_nt == self.rules@[r as int].nonterm,
                rv == rev_nts(self.rules@[r as int]@.children, start),
                rv.len() == nts@.len(),
                forall|q: int| 0 <= q < nts@.len() ==> #[trigger] rv[rv.len() - 1 - q] == (nts@[q], start),
                forall|base: Seq<(NTermID, usize)>, p: usize| #[trigger] run_stack(g, node_views(nodes@), start as int,
                    nodes@.len() as int, base.push((x_nt, p))) == Some(base + rv.subrange(0, nts@.len() - k)),
            decreases nts@.len() - k,
        {
            let b = self.get_random_len(remaining, r, k);
            let head = nts[k];
            let ghost rest = remaining - b;
            proof {
                let a = rhs16(self.rules@, self.rhs_counts(), r as int, k + 1, rest);
                let c = ntc(self.nt_counts(), head as int, b as int);
                assert(a >= 0 && c >= 0);
                assert(sat16(a * c) > 0);
                assert(a > 0 && c > 0) by (nonlinear_arith) requires a * c > 0, a >= 0, c >= 0;
            }
            let rid = self.get_random_rule_for_nt(head, b);
            let ghost nv0 = node_views(nodes@);
            let ghost c0 = nodes@.len() as int;
            self.gen_rule(rid, b - 1, nodes);
            proof {
                let nv1 = node_views(nodes@);
                let c1 = nodes@.len() as int;
                let len_r = nts@.len() as int;
                assert forall|base: Seq<(NTermID, usize)>, p: usize| #[trigger] run_stack(g, nv1, start as int, c1, base.push((x_nt, p)))
                    == Some(base + rv.subrange(0, len_r - (k + 1))) by {
                    let st = base.push((x_nt, p));
                    lemma_run_compose(g, nv1, start as int, c0, c1, st);
                    assert forall|q: int| start <= q < c0 implies nv1[q] == nv0[q] by {}
                    lemma_run_frame(g, nv0, nv1, start as int, c0, st);
                    assert(run_stack(g, nv0, start as int, c0, st) == Some(base + rv.subrange(0, len_r - k)));
                    let base2 = base + rv.subrange(0, len_r - (k + 1));
                    assert(rv[len_r - 1 - k] == (head, start));
                    assert(base + rv.subrange(0, len_r - k) =~= base2.push((head, start)));
                    assert(run_stack(g, nv1, c0, c1, base2.push((self.rules@[rid as int].nonterm, start))) == Some(base2));
                }
            }
            remaining = remaining - b;
            k = k + 1;
        }
        proof {
            assert forall|base: Seq<(NTermID, usize)>, p: usize| #[trigger] run_stack(g, node_views(nodes@),
                start as int, nodes@.len() as int, base.push((x_nt, p))) == Some(base) by {
                assert(base + rv.subrange(0, 0) =~= base);
            }
        }
        proof {
            assert(rhs32(self.rules@, self.rhs_counts(), r as int, k as int, remaining as int)
                == crate::counts::rhs_entry(self.rules@, self.nt_counts(), self.rhs_counts(), r as int, k as int, remaining as int));
        }
    }

    /// A tree whose root has rule `r` and `len` nodes below it; `None` when
    /// the rule derives no such tree.
    pub fn generate_tree_from_rule(&self, r: RuleID, len: usize) -> (res: Option<Tree>)
        requires
            self.can_sample(),
            r < self.rules@.len(),
            len < self.max_len,
        ensures
            rhs16(self.rules@, self.rhs_counts(), r as int, 0, len as int) == 0 <==> res is None,
            res matches Some(t) ==> t.rules@.len() == len + 1 && tree_wf(&t, self.grammar()) && parents_spec(self.grammar(), t.nodes()) == Some(t.paren@)
                && t.nodes()[0] == NodeRuleView::NormalRule(r),
    {
        if self.rhs16_at(r, 0, len) == 0 {
            return None;
        }
        let mut nodes: Vec<NormalOrCustomRule> = Vec::new();
        self.gen_rule(r, len, &mut nodes);
        proof {
            let nv = node_views(nodes@);
            assert forall|i: int| 0 <= i < nv.len() implies
                (#[trigger] nv[i] matches NodeRuleView::NormalRule(id) ==> id < self.grammar().len()) by {
                assert(nodes@[i]@ matches NodeRuleView::NormalRule(id) && id < self.rules@.len());
            }
            assert(nodes_valid(self.grammar(), nv));
            let x_nt = self.rules@[r as int].nonterm;
            let st = Seq::<(NTermID, usize)>::empty().push((x_nt, 0usize));
            assert(run_stack(self.grammar(), nv, 0, nv.len() as int, st) is Some);
            lemma_run_parents(self.grammar(), nv, 0, st);
            assert(resolve(self.grammar(), nv[0]) == self.rules@[r as int]@);
            assert(st =~= seq![(resolve(self.grammar(), nv[0]).nonterm, 0usize)]);
        }
        let t = Tree::from_rule_vec(nodes, self);
        t
    }

    /// A tree of exactly `max_len` nodes derived from `nt`; `None` when `nt`
    /// derives no tree of that size.
    pub fn generate_tree_from_nt(&self, nt: NTermID, max_len: usize) -> (res: Option<Tree>)
        requires
            self.can_sample(),
            nt < self.num_nts(),
        ensures
            (max_len < 1 || max_len >= self.max_len || ntc(self.nt_counts(), nt as int, max_len as int) == 0) <==> res is None,
            res matches Some(t) ==> t.rules@.len() == max_len && tree_wf(&t, self.grammar()) && parents_spec(self.grammar(), t.nodes()) == Some(t.paren@)
                && max_len >= self.nts_to_min_size@[nt as int]
                && (t.nodes()[0] matches NodeRuleView::NormalRule(id) && self.rules@[id as int].nonterm == nt),
    {
        if max_len < 1 || max_len >= self.max_len {
            return None;
        }
        if self.ntc_at(nt, max_len) == 0 {
            return None;
        }
        proof {
            crate::size_laws::lemma_nt_count_lower(self, nt as int, max_len as int);
        }
        let r = self.get_random_rule_for_nt(nt, max_len);
        self.generate_tree_from_rule(r, max_len - 1)
    }

    /// A number of nodes below the root for which rule `rule_id` derives a
    /// tree, drawn uniformly among all such numbers; `None` if there is none.
    pub fn get_random_len_for_ruleid(&self, rule_id: RuleID) -> (res: Option<usize>)
        requires
            self.can_sample(),
            rule_id < self.rules@.len(),
        ensures
            res matches Some(l) ==> l + 1 < self.max_len && rhs16(self.rules@, self.rhs_counts(), rule_id as int, 0, l as int) != 0,
            res is None ==> forall|l: int| 0 <= l && l + 1 < self.max_len ==> rhs16(self.rules@, self.rhs_counts(), rule_id as int, 0, l) == 0,
    {
        let mut lens: Vec<usize> = Vec::new();
        let mut i: usize = 1;
        while i < self.max_len
            invariant
                self.can_sample(),
                rule_id < self.rules@.len(),
                1 <= i <= self.max_len || self.max_len == 0,
                forall|k: int| 0 <= k < lens@.len() ==> #[trigger] lens@[k] + 1 < self.max_len
                    && rhs16(self.rules@, self.rhs_counts(), rule_id as int, 0, lens@[k] as int) != 0,
                lens@.len() == 0 ==> forall|l: int| 0 <= l && l + 1 < i ==> rhs16(self.rules@, self.rhs_counts(), rule_id as int, 0, l) == 0,
            decreases self.max_len - i,
        {
            if self.rhs16_at(rule_id, 0, i - 1) != 0 {
                lens.push(i - 1);
            }
            i = i + 1;
        }
        if lens.len() == 0 {
            return None;
        }
        let k = crate::random::random_below(lens.len() as u64) as usize;
        Some(lens[k])
    }

    /// A tree size for `nt`, drawn in proportion to the number of trees of
    /// each size below `max_len`; `None` when `nt` derives none.
    pub fn get_random_len_for_nt(&self, nt: NTermID) -> (res: Option<usize>)
        requires
            self.can_sample(),
            nt < self.num_nts(),
        ensures
            res matches Some(n) ==> 1 <= n < self.max_len && ntc(self.nt_counts(), nt as int, n as int) > 0,
            res is None ==> forall|n: int| 1 <= n < self.max_len ==> ntc(self.nt_counts(), nt as int, n) == 0,
    {
        let mut w: Vec<u64> = Vec::new();
        let mut n: usize = 0;
        while n < self.max_len
            invariant
                self.can_sample(),
                nt < self.num_nts(),
                n <= self.max_len,
                w@.len() == n,
                forall|k: int| 0 <= k < n ==> #[trigger] w@[k] as int == ntc(self.nt_counts(), nt as int, k),
                wsum(w@, n as int) <= 65535 * n,
                wsum(w@, n as int) == 0 ==> forall|k: int| 0 <= k < n ==> ntc(self.nt_counts(), nt as int, k) == 0,
            decreases self.max_len - n,
        {
            let x = self.ntc_at(nt, n);
            let ghost w0 = w@;
            w.push(x);
            proof {
                lemma_wsum_prefix(w@, w0, n as int);
                lemma_wsum_mono(w0, n as int, n as int);
            }
            n = n + 1;
        }
        proof {
            lemma_wsum_mono(w@, 0, n as int);
        }
        let mut total: u64 = 0;
        let mut k: usize = 0;
        while k < w.len()
            invariant
                k <= w@.len(),
                total == wsum(w@, k as int),
                wsum(w@, w@.len() as int) <= 65535 * w@.len(),
                w@.len() <= 0xffff_ffff,
            decreases w@.len() - k,
        {
            proof {
                lemma_wsum_mono(w@, k + 1, w@.len() as int);
            }
            total = total + w[k];
            k = k + 1;
        }
        if total == 0 {
            return None;
        }
        let i = sample_weighted(&w);
        Some(i)
    }

    /// The number of expansions of the references of rule `r` from the
    /// `k`-th on into exactly `len` nodes, saturated at `u16::MAX`.
    pub fn get_possibilities_for_rule(&self, r: RuleID, k: usize, len: usize) -> (res: u16)
        requires
            self.can_sample(),
            r < self.rules@.len(),
            k <= rlen(self.rules@, r as int),
            len < self.max_len,
        ensures
            res as int == rhs16(self.rules@, self.rhs_counts(), r as int, k as int, len as int),
    {
        self.rhs16_at(r, k, len) as u16
    }

    /// The same count, saturated at `u32::MAX`.
    pub fn get_possibilities_for_rule_u32(&self, r: RuleID, k: usize, len: usize) -> (res: u32)
        requires
            self.can_sample(),
            r < self.rules@.len(),
            k <= rlen(self.rules@, r as int),
            len < self.max_len,
        ensures
            res as int == rhs32(self.rules@, self.rhs_counts(), r as int, k as int, len as int),
    {
        proof {
            crate::counts::lemma_rhs_off_mono(self.rules@, r as int, self.rules@.len() as int);
            assert(self.rhs_counts()[len as int].len() == rhs_off(self.rules@, self.rules@.len() as int));
        }
        let off = rule_offset(&self.rules, r);
        self.rhs_and_n_to_count[len][off + (self.rules[r].nonterms.len() - k)]
    }

    /// Whether `nt` derives more than one tree of the sizes below `max_len`
    /// (more than one rule, without the count tables).
    pub fn check_if_nterm_has_multiple_possiblities(&self, nt: NTermID) -> (res: bool)
        requires
            self.ready(),
            nt < self.num_nts(),
            !self.dumb ==> self.can_sample(),
        ensures
            self.dumb ==> res == (self.nt_rules_view()[nt as int].len() > 1),
            !self.dumb ==> res == (wsum_counts(self.nt_counts(), nt as int, self.max_len as int) > 1),
    {
        if self.dumb {
            return self.nts_to_rules[nt].len() > 1;
        }
        let mut counter: u64 = 0;
        let mut i: usize = 1;
        proof {
            assert(wsum_counts(self.nt_counts(), nt as int, 0) == 0);
            assert(wsum_counts(self.nt_counts(), nt as int, 1) == 0);
        }
        while i < self.max_len
            invariant
                self.can_sample(),
                nt < self.num_nts(),
                1 <= i <= self.max_len || self.max_len == 0,
                counter as int == wsum_counts(self.nt_counts(), nt as int, i as int),
                counter <= 1,
            decreases self.max_len - i,
        {
            let x = self.ntc_at(nt, i);
            counter = counter + x;
            if counter > 1 {
                proof {
                    lemma_counts_grow(self.nt_counts(), nt as int, i + 1, self.max_len as int);
                }
                return true;
            }
            i = i + 1;
        }
        proof {
            if self.max_len == 0 {
                assert(wsum_counts(self.nt_counts(), nt as int, 0) == 0);
            } else {
                assert(i == self.max_len);
            }
        }
        false
    }

    /// The size of the smallest tree derived from `nt`.
    pub fn get_min_len_for_nt(&self, nt: NTermID) -> (r: usize)
        requires
            self.ready(),
            nt < self.num_nts(),
        ensures
            r == self.nts_to_min_size@[nt as int],
    {
        self.nts_to_min_size[nt]
    }

    /// The rules of `nt`, smallest first.
    pub fn get_rules_for_nt(&self, nt: NTermID) -> (r: &Vec<RuleID>)
        requires
            self.wf(),
            nt < self.num_nts(),
        ensures
            r@ == self.nt_rules_view()[nt as int],
    {
        &self.nts_to_rules[nt]
    }
}

impl Tree {
    /// Replaces this tree with one of exactly `len` nodes derived from
    /// `start`; returns `false`, leaving the tree as it was, when there is
    /// no such tree.
    pub fn generate_from_nt(&mut self, start: NTermID, len: usize, ctx: &Context) -> (ok: bool)
        requires
            ctx.can_sample(),
            start < ctx.num_nts(),
        ensures
            ok <==> 1 <= len < ctx.max_len && crate::counts::ntc(ctx.nt_counts(), start as int, len as int) > 0,
            ok ==> final(self).rules@.len() == len && tree_wf(final(self), ctx.grammar())
                && parents_spec(ctx.grammar(), final(self).nodes()) == Some(final(self).paren@),
            !ok ==> *final(self) == *old(self),
    {
        match ctx.generate_tree_from_nt(start, len) {
            Some(t) => {
                *self = t;
                true
            },
            None => false,
        }
    }
}

/// The number of trees from `nt` of the sizes below `m`.
pub open spec fn wsum_counts(nt_l: Seq<Seq<u16>>, nt: int, m: int) -> int
    decreases m,
{
    if m <= 0 { 0 } else { wsum_counts(nt_l, nt, m - 1) + ntc(nt_l, nt, m - 1) }
}

proof fn lemma_counts_grow(nt_l: Seq<Seq<u16>>, nt: int, a: int, b: int)
    requires
        0 <= a <= b,
    ensures
        wsum_counts(nt_l, nt, a) <= wsum_counts(nt_l, nt, b),
    decreases b - a,
{
    if a < b {
        lemma_counts_grow(nt_l, nt, a, b - 1);
        if b - 1 >= 1 {
            assert(ntc(nt_l, nt, b - 1) >= 0);
        }
    }
}

} // verus!
