//! Sampling without the count tables: rules drawn uniformly among those
//! whose minimal size fits, sizes spread by taking the least of several
//! uniform draws.
use vstd::prelude::*;
use crate::context::{sorted_by_key, size_from_mins, Context};
use crate::newtypes::{NTermID, RuleID};
use crate::random::random_below;
use crate::rule::{NodeRuleView, NormalOrCustomRule};
use crate::size_laws::{lemma_rule_min, tail_min};
use crate::tree::{TreeLike, parents_spec, lemma_rev_nts, lemma_run_compose, lemma_run_frame, lemma_run_parents, node_views, nodes_valid, resolve, rev_nts, run_stack, tree_wf, Tree};

verus! {

impl Context {
    /// The least of `total_remaining_len` and `number_of_children - 1`
    /// uniform draws from `0..=total_remaining_len`: the share of the first
    /// of that many children.
    pub fn dumb_get_random_len(&self, number_of_children: usize, total_remaining_len: usize) -> (res: usize)
        requires
            total_remaining_len < usize::MAX,
        ensures
            res <= total_remaining_len,
            number_of_children <= 1 ==> res == total_remaining_len,
    {
        let mut picks: Vec<usize> = Vec::new();
        let mut i: usize = 1;
        while i < number_of_children
            invariant
                total_remaining_len < usize::MAX,
                1 <= i,
                number_of_children <= 1 ==> picks@.len() == 0,
            decreases number_of_children - i,
        {
            picks.push(random_below(total_remaining_len as u64 + 1) as usize);
            i = i + 1;
        }
        min_of_picks(&picks, total_remaining_len)
    }

    /// A rule of `nt` drawn uniformly among those whose minimal size is at
    /// most `max_len`; there is one whenever `max_len` reaches the minimal
    /// size of `nt`.
    pub fn dumb_get_random_rule_for_nt(&self, nt: NTermID, max_len: usize) -> (res: Option<RuleID>)
        requires
            self.ready(),
            nt < self.num_nts(),
        ensures
            res matches Some(r) ==> r < self.rules@.len() && self.rules@[r as int].nonterm == nt
                && self.rules_to_min_size@[r as int] <= max_len,
            max_len >= self.nts_to_min_size@[nt as int] && self.nts_to_min_size@[nt as int] != 0 ==> res is Some,
    {
        let rids = &self.nts_to_rules[nt];
        let ghost key = self.rules_to_min_size@;
        let mut count: usize = 0;
        while count < rids.len() && self.rules_to_min_size[rids[count]] <= max_len
            invariant
                self.ready(),
                nt < self.num_nts(),
                rids@ == self.nt_rules_view()[nt as int],
                key == self.rules_to_min_size@,
                count <= rids@.len(),
                forall|j: int| 0 <= j < count ==> #[trigger] key[rids@[j] as int] <= max_len,
            decreases rids@.len() - count,
        {
            proof {
                assert(rids@[count as int] < self.rules@.len());
            }
            count = count + 1;
        }
        if count == 0 {
            proof {
                let m = self.nts_to_min_size@[nt as int];
                if max_len >= m && m != 0 {
                    let r = choose|r: int| 0 <= r < self.rules@.len() && self.rules@[r].nonterm == nt && key[r] == m;
                    assert(self.nts_to_rules@[self.rules@[r].nonterm as int]@.contains(r as RuleID));
                    let j = choose|j: int| 0 <= j < rids@.len() && rids@[j] == r as RuleID;
                    assert(sorted_by_key(rids@, key));
                    if j > 0 {
                        assert(key[rids@[0] as int] <= key[rids@[j] as int]);
                    }
                    assert(rids@.len() > 0);
                    assert(key[rids@[0] as int] <= max_len);
                }
            }
            return None;
        }
        let k = random_below(count as u64) as usize;
        proof {
            assert(rids@[k as int] < self.rules@.len());
        }
        Some(rids[k])
    }

    /// Appends a tree in pre-order whose root has rule `r` and at most `len`
    /// nodes below it; returns its size.
    fn dumb_gen_rule(&self, r: RuleID, len: usize, nodes: &mut Vec<NormalOrCustomRule>) -> (size: usize)
        requires
            self.ready(),
            r < self.rules@.len(),
            self.rules_to_min_size@[r as int] <= len + 1,
            len < usize::MAX,
        ensures
            self.rules_to_min_size@[r as int] <= size <= len + 1,
            final(nodes)@.len() == old(nodes)@.len() + size,
            forall|i: int| 0 <= i < old(nodes)@.len() ==> #[trigger] final(nodes)@[i] == old(nodes)@[i],
            final(nodes)@[old(nodes)@.len() as int]@ == NodeRuleView::NormalRule(r),
            forall|i: int| old(nodes)@.len() <= i < final(nodes)@.len() ==>
                (#[trigger] final(nodes)@[i]@ matches NodeRuleView::NormalRule(id) && id < self.rules@.len()),
            forall|base: Seq<(NTermID, usize)>, p: usize| #[trigger] run_stack(self.grammar(), node_views(final(nodes)@),
                old(nodes)@.len() as int, final(nodes)@.len() as int, base.push((self.rules@[r as int].nonterm, p))) == Some(base),
        decreases len,
    {
        let ghost mins = self.nts_to_min_size@;
        let ghost nv = self.rules@[r as int].nonterms@;
        proof {
            assert(size_from_mins(mins, nv) == Some(self.rules_to_min_size@[r as int]));
            lemma_rule_min(mins, nv, self.rules_to_min_size@[r as int]);
            crate::context::lemma_refs_nonterms(self.rules@[r as int], self.num_nts());
        }
        let start = nodes.len();
        let ghost g = self.grammar();
        let ghost x_nt = self.rules@[r as int].nonterm;
        let ghost rv = rev_nts(self.rules@[r as int]@.children, start);
        nodes.push(NormalOrCustomRule::NormalRule(r));
        let nts = &self.rules[r].nonterms;
        proof {
            assert(self.rules@[r as int].wf());
            lemma_rev_nts(self.rules@[r as int]@.children, start);
            let vv = node_views(nodes@);
            assert(vv[start as int] == NodeRuleView::NormalRule(r));
            assert(resolve(g, vv[start as int]) == self.rules@[r as int]@);
            assert forall|base: Seq<(NTermID, usize)>, p: usize| #[trigger] run_stack(g, vv, start as int, vv.len() as int, base.push((x_nt, p)))
                == Some(base + rv.subrange(0, nts@.len() - 0)) by {
                let st = base.push((x_nt, p));
                assert(st.drop_last() =~= base);
                assert(rv.subrange(0, nts@.len() as int) =~= rv);
                assert(run_stack(g, vv, start + 1, vv.len() as int, base + rv) == Some(base + rv));
            }
        }
        let mut remaining: usize = len - (self.rules_to_min_size[r] - 1);
        let mut consumed: usize = 0;
        let mut k: usize = 0;
        while k < nts.len()
            invariant
                self.ready(),
                r < self.rules@.len(),
                nts@ == nv,
                nv == self.rules@[r as int].nonterms@,
                mins == self.nts_to_min_size@,
                forall|q: int| 0 <= q < nv.len() ==> #[trigger] nv[q] < self.num_nts(),
                size_from_mins(mins, nv) is Some,
                k <= nv.len(),
                remaining + tail_min(mins, nv, k as int) + consumed == len,
                consumed >= tail_min(mins, nv, 0) - tail_min(mins, nv, k as int),
                len < usize::MAX,
                nodes@.len() == start + 1 + consumed,
                start == old(nodes)@.len(),
                forall|i: int| 0 <= i < start ==> #[trigger] nodes@[i] == old(nodes)@[i],
                nodes@[start as int]@ == NodeRuleView::NormalRule(r),
                forall|i: int| start <= i < nodes@.len() ==>
                    (#[trigger] nodes@[i]@ matches NodeRuleView::NormalRule(id) && id < self.rules@.len()),
                g == self.grammar(),
                x_nt == self.rules@[r as int].nonterm,
                rv == rev_nts(self.rules@[r as int]@.children, start),
                rv.len() == nv.len(),
                forall|q: int| 0 <= q < nv.len() ==> #[trigger] rv[rv.len() - 1 - q] == (nv[q], start),
                forall|base: Seq<(NTermID, usize)>, p: usize| #[trigger] run_stack(g, node_views(nodes@), start as int,
                    nodes@.len() as int, base.push((x_nt, p))) == Some(base + rv.subrange(0, nv.len() - k)),
            decreases nv.len() - k,
        {
            let head = nts[k];
            proof {
                crate::size_laws::lemma_tail_bounds(mins, nv, k as int);
                crate::size_laws::lemma_no_unknown(mins, nv, k as int);
            }
            let share = self.dumb_get_random_len(nts.len() - k, remaining);
            let cur = share + self.nts_to_min_size[head];
            let rid = self.dumb_get_random_rule_for_nt(head, cur).unwrap();
            let ghost nv0 = node_views(nodes@);
            let ghost c0 = nodes@.len() as int;
            let used = self.dumb_gen_rule(rid, cur - 1, nodes);
            proof {
                let nv1 = node_views(nodes@);
                let c1 = nodes@.len() as int;
                let len_r = nv.len() as int;
                assert forall|base: Seq<(NTermID, usize)>, p: usize| #[trigger] run_stack(g, nv1, start as int, c1, base.push((x_nt, p)))
                    == Some(base + rv.subrange(0, len_r - (k + 1))) by {
                    let st = base.push((x_nt, p));
                    lemma_run_compose(g, nv1, start as int, c0, c1, st);
                    assert forall|q: int| start <= q < c0 implies nv1[q] == nv0[q] by {}
                    lemma_run_frame(g, nv0, nv1, start as int, c0, st);
                    let base2 = base + rv.subrange(0, len_r - (k + 1));
                    assert(rv[len_r - 1 - k] == (head, start));
                    assert(base + rv.subrange(0, len_r - k) =~= base2.push((head, start)));
                    assert(run_stack(g, nv1, c0, c1, base2.push((self.rules@[rid as int].nonterm, start))) == Some(base2));
                }
                assert(self.rules@[rid as int].nonterm == head);
                assert(self.nts_to_min_size@[head as int] <= self.rules_to_min_size@[rid as int]);
            }
            remaining = remaining + self.nts_to_min_size[head] - used;
            consumed = consumed + used;
            k = k + 1;
        }
        proof {
            assert forall|base: Seq<(NTermID, usize)>, p: usize| #[trigger] run_stack(g, node_views(nodes@),
                start as int, nodes@.len() as int, base.push((x_nt, p))) == Some(base) by {
                assert(base + rv.subrange(0, 0) =~= base);
            }
        }
        consumed + 1
    }

    /// A tree derived from `nt` with between its minimal size and `max_len`
    /// nodes, built without the count tables; `None` when `max_len` is
    /// below the minimal size.
    pub fn dumb_generate_tree_from_nt(&self, nt: NTermID, max_len: usize) -> (res: Option<Tree>)
        requires
            self.ready(),
            nt < self.num_nts(),
        ensures
            max_len < self.nts_to_min_size@[nt as int] || self.nts_to_min_size@[nt as int] == 0 || max_len == 0 <==> res is None,
            res matches Some(t) ==> self.nts_to_min_size@[nt as int] <= t.rules@.len() <= max_len
                && tree_wf(&t, self.grammar()) && parents_spec(self.grammar(), t.nodes()) == Some(t.paren@),
    {
        if max_len == 0 || self.nts_to_min_size[nt] == 0 || max_len < self.nts_to_min_size[nt] {
            return None;
        }
        let r = self.dumb_get_random_rule_for_nt(nt, max_len).unwrap();
        let mut nodes: Vec<NormalOrCustomRule> = Vec::new();
        let size = self.dumb_gen_rule(r, max_len - 1, &mut nodes);
        proof {
            assert(self.nts_to_min_size@[nt as int] <= self.rules_to_min_size@[r as int]);
            let nv = nodes@.map_values(|x: NormalOrCustomRule| x@);
            assert forall|i: int| 0 <= i < nv.len() implies
                (#[trigger] nv[i] matches NodeRuleView::NormalRule(id) ==> id < self.grammar().len()) by {
                assert(nodes@[i]@ matches NodeRuleView::NormalRule(id) && id < self.rules@.len());
            }
            assert(nodes_valid(self.grammar(), nv));
            let x_nt = self.rules@[r as int].nonterm;
            let st = Seq::<(NTermID, usize)>::empty().push((x_nt, 0usize));
            assert(nv == node_views(nodes@));
            assert(run_stack(self.grammar(), nv, 0, nv.len() as int, st) is Some);
            lemma_run_parents(self.grammar(), nv, 0, st);
            assert(resolve(self.grammar(), nv[0]) == self.rules@[r as int]@);
            assert(st =~= seq![(resolve(self.grammar(), nv[0]).nonterm, 0usize)]);
        }
        Tree::from_rule_vec(nodes, self)
    }
}

/// The least of `total` and the values of `picks`.
pub open spec fn min_picks(picks: Seq<usize>, total: usize) -> usize
    decreases picks.len(),
{
    if picks.len() == 0 {
        total
    } else {
        let m = min_picks(picks.drop_last(), total);
        if picks.last() < m { picks.last() } else { m }
    }
}

/// The least of `total` and the drawn `picks`.
pub fn min_of_picks(picks: &Vec<usize>, total: usize) -> (res: usize)
    ensures
        res == min_picks(picks@, total),
        res <= total,
{
    let mut res = total;
    let mut i: usize = 0;
    while i < picks.len()
        invariant
            i <= picks@.len(),
            res == min_picks(picks@.subrange(0, i as int), total),
            res <= total,
        decreases picks@.len() - i,
    {
        proof {
            assert(picks@.subrange(0, i + 1).drop_last() =~= picks@.subrange(0, i as int));
        }
        if picks[i] < res {
            res = picks[i];
        }
        i = i + 1;
    }
    assert(picks@.subrange(0, i as int) =~= picks@);
    res
}

} // verus!
