//! Choices of the random tree mutations: which subtree is replaced, and by
//! what. The caller builds the mutation with `Tree::mutate_replace_from_tree`.
use vstd::prelude::*;
use crate::chunkstore::ChunkStore;
use crate::context::Context;
use crate::newtypes::NodeID;
use crate::random::random_below;
use crate::newtypes::{copy_bytes, NTermID};
use crate::rule::{ChildView, NodeRuleView, NormalOrCustomRule, Rule, RuleChild};
use crate::tree::{get_rule, parents_spec, resolve, tree_wf, Tree, TreeLike};
use crate::counts::{ntc, rhs16};
use crate::newtypes::RuleID;
use crate::afl::{max_data_len, AFL_HAVOC_BLK_LARGE};

verus! {

/// A random node of `t`.
pub fn random_node(t: &Tree) -> (n: NodeID)
    requires
        t.rules@.len() > 0,
    ensures
        n < t.rules@.len(),
{
    random_below(t.rules.len() as u64) as usize
}

/// The nonterminal at node `n` of `t`.
pub open spec fn nt_of(ctx: &Context, t: &Tree, n: int) -> NTermID {
    resolve(ctx.grammar(), t.nodes()[n]).nonterm
}

/// `nt` derives a tree of some size below the table bound.
pub open spec fn derives_some_size(ctx: &Context, nt: NTermID) -> bool {
    exists|s: int| 1 <= s < ctx.max_len && ntc(ctx.nt_counts(), nt as int, s) > 0
}

/// A fresh subtree for node `n`: drawn from the node's nonterminal with a
/// size drawn in proportion to the number of trees of each size. There is
/// one exactly when that nonterminal derives some tree.
pub fn replacement_at(ctx: &Context, t: &Tree, n: NodeID) -> (res: Option<Tree>)
    requires
        ctx.can_sample(),
        tree_wf(t, ctx.grammar()),
        n < t.rules@.len(),
    ensures
        res is Some <==> nt_of(ctx, t, n as int) < ctx.num_nts() && derives_some_size(ctx, nt_of(ctx, t, n as int)),
        res matches Some(sub) ==> tree_wf(&sub, ctx.grammar()) && sub.rules@.len() > 0
            && (sub.nodes()[0] matches NodeRuleView::NormalRule(id) && ctx.rules@[id as int].nonterm == nt_of(ctx, t, n as int)),
{
    assert(t.nodes().len() == t.rules@.len());
    let nt = get_rule(t, n, ctx).nonterm;
    if nt >= ctx.nt_ids_to_name.len() {
        return None;
    }
    match ctx.get_random_len_for_nt(nt) {
        None => None,
        Some(len) => ctx.generate_tree_from_nt(nt, len),
    }
}

/// A fresh subtree for a random node (see `replacement_at`): the node and
/// the new subtree, whose root is node 0.
pub fn mut_random(ctx: &Context, t: &Tree) -> (res: Option<(NodeID, Tree)>)
    requires
        ctx.can_sample(),
        tree_wf(t, ctx.grammar()),
    ensures
        res matches Some((n, sub)) ==> n < t.rules@.len() && tree_wf(&sub, ctx.grammar()) && sub.rules@.len() > 0
            && (sub.nodes()[0] matches NodeRuleView::NormalRule(id) && ctx.rules@[id as int].nonterm == nt_of(ctx, t, n as int)),
        res is None ==> t.rules@.len() == 0 || exists|n: int| 0 <= n < t.rules@.len()
            && !(nt_of(ctx, t, n) < ctx.num_nts() && derives_some_size(ctx, nt_of(ctx, t, n))),
{
    if t.rules.len() == 0 {
        return None;
    }
    let n = random_node(t);
    match replacement_at(ctx, t, n) {
        None => None,
        Some(sub) => Some((n, sub)),
    }
}

/// Node `n` has a grammar rule, and the store holds a subtree for its
/// nonterminal whose root has another rule.
pub open spec fn can_splice(ctx: &Context, t: &Tree, cks: &ChunkStore, n: int) -> bool {
    t.nodes()[n] matches NodeRuleView::NormalRule(r) && !cks.no_alternative(ctx.rules@[r as int].nonterm, r)
}

/// A stored subtree to put at node `n`: same nonterminal, another rule at
/// its root; drawn uniformly among those. There is one exactly when
/// `can_splice` holds.
pub fn splice_at<'a>(ctx: &Context, t: &Tree, n: NodeID, cks: &'a ChunkStore) -> (res: Option<(&'a Tree, NodeID)>)
    requires
        tree_wf(t, ctx.grammar()),
        cks.wf(),
        n < t.rules@.len(),
    ensures
        res is Some <==> can_splice(ctx, t, cks, n as int),
        res matches Some((donor, dn)) ==> dn < donor.rules@.len()
            && (t.nodes()[n as int] matches NodeRuleView::NormalRule(r) && donor.nodes()[dn as int] != NodeRuleView::NormalRule(r)),
{
    assert(t.nodes().len() == t.rules@.len());
    match t.rules[n].get_rule_id() {
        None => None,
        Some(r) => {
            assert(t.nodes()[n as int] == NodeRuleView::NormalRule(r));
            cks.get_alternative_to(r, ctx)
        },
    }
}

/// A random node and a stored subtree for it (see `splice_at`):
/// `(node, donor tree, donor node)`.
pub fn mut_splice<'a>(ctx: &Context, t: &Tree, cks: &'a ChunkStore) -> (res: Option<(NodeID, &'a Tree, NodeID)>)
    requires
        tree_wf(t, ctx.grammar()),
        cks.wf(),
    ensures
        res matches Some((n, donor, dn)) ==> n < t.rules@.len() && dn < donor.rules@.len()
            && (t.nodes()[n as int] matches NodeRuleView::NormalRule(r) && donor.nodes()[dn as int] != NodeRuleView::NormalRule(r)),
        res is None ==> t.rules@.len() == 0 || exists|n: int| 0 <= n < t.rules@.len() && !can_splice(ctx, t, cks, n),
{
    if t.rules.len() == 0 {
        return None;
    }
    let n = random_node(t);
    match splice_at(ctx, t, n, cks) {
        None => None,
        Some((donor, dn)) => Some((n, donor, dn)),
    }
}

/// A recursion pair drawn uniformly, with the number of times to repeat
/// it: `2^k` for `k` drawn from `1..=7`. Replacing the inner node's subtree
/// by the outer one's grows the recursion, the other way round shrinks it.
pub fn mut_random_recursion(recursions: &Vec<(NodeID, NodeID)>) -> (res: Option<((NodeID, NodeID), usize)>)
    ensures
        res matches Some((p, times)) ==> recursions@.contains(p) && 2 <= times <= 128,
        res is None <==> recursions@.len() == 0,
{
    if recursions.len() == 0 {
        return None;
    }
    let k = random_below(recursions.len() as u64) as usize;
    let times = repetitions(random_below(7));
    Some((recursions[k], times))
}

/// `2^(e + 1)` for `e` below 7.
pub fn repetitions(e: u64) -> (r: usize)
    ensures
        e == 0 ==> r == 2,
        e >= 6 ==> r == 128,
        2 <= r <= 128,
{
    if e == 0 { 2 } else if e == 1 { 4 } else if e == 2 { 8 } else if e == 3 { 16 } else if e == 4 { 32 } else if e == 5 { 64 } else { 128 }
}

/// Node `n` is a leaf whose rule is a single terminal.
pub open spec fn is_terminal_leaf(ctx: &Context, t: &Tree, n: int) -> bool {
    let rule = resolve(ctx.grammar(), t.nodes()[n]);
    &&& t.sizes@[n] == 1
    &&& rule.children.len() == 1
    &&& (rule.children[0] is Term || rule.children[0] is CustomTerm)
}

/// The bytes of node `n` when it is a leaf whose rule is a single terminal:
/// the bytes that the byte mutator works on.
pub fn terminal_of(ctx: &Context, t: &Tree, n: NodeID) -> (res: Option<(NTermID, Vec<u8>)>)
    requires
        tree_wf(t, ctx.grammar()),
        n < t.rules@.len(),
    ensures
        res is Some <==> is_terminal_leaf(ctx, t, n as int),
        res matches Some((nt, b)) ==> ({
            let rule = resolve(ctx.grammar(), t.nodes()[n as int]);
            &&& rule.nonterm == nt
            &&& (rule.children[0] == ChildView::Term(b@) || rule.children[0] == ChildView::CustomTerm(b@))
        }),
{
    assert(t.nodes().len() == t.rules@.len());
    let rule = get_rule(t, n, ctx);
    if t.sizes[n] != 1 || rule.children.len() != 1 {
        return None;
    }
    assert(rule@.children[0] == rule.children@[0]@);
    match &rule.children[0] {
        RuleChild::Term(b) => Some((rule.nonterm, copy_bytes(b))),
        RuleChild::CustomTerm(b) => Some((rule.nonterm, copy_bytes(b))),
        RuleChild::NTerm(_) => None,
    }
}

/// The one-node tree whose rule is `nt -> bytes` with havoc-made bytes.
pub fn custom_leaf(nt: NTermID, bytes: Vec<u8>) -> (t: Tree)
    ensures
        t.rules@.len() == 1,
        t.sizes@ == seq![1usize],
        t.paren@ == seq![0usize],
        t.nodes()[0] matches NodeRuleView::CustomRule(r) && r.nonterm == nt && r.children == seq![ChildView::CustomTerm(bytes@)],
{
    let ghost b = bytes@;
    let t = Tree {
        rules: vec![NormalOrCustomRule::CustomRule(Rule::from_custom_term(nt, bytes))],
        sizes: vec![1],
        paren: vec![0],
    };
    assert(t.nodes()[0] == t.rules@[0]@);
    t
}

/// Node `n` is a terminal leaf whose bytes havoc accepts.
pub open spec fn can_havoc(ctx: &Context, t: &Tree, n: int) -> bool {
    is_terminal_leaf(ctx, t, n) && ({
        let c = resolve(ctx.grammar(), t.nodes()[n]).children[0];
        &&& (c matches ChildView::Term(b) ==> b.len() <= max_data_len() - 128 * AFL_HAVOC_BLK_LARGE)
        &&& (c matches ChildView::CustomTerm(b) ==> b.len() <= max_data_len() - 128 * AFL_HAVOC_BLK_LARGE)
    })
}

/// The terminal at node `n` after a havoc round, as a one-node tree. There
/// is one exactly when `can_havoc` holds.
pub fn havoc_terminal_at(ctx: &Context, t: &Tree, n: NodeID) -> (res: Option<Tree>)
    requires
        tree_wf(t, ctx.grammar()),
        n < t.rules@.len(),
    ensures
        res is Some <==> can_havoc(ctx, t, n as int),
        res matches Some(leaf) ==> leaf.rules@.len() == 1 && leaf.sizes@ == seq![1usize] && leaf.paren@ == seq![0usize]
            && (leaf.nodes()[0] matches NodeRuleView::CustomRule(r) && r.nonterm == nt_of(ctx, t, n as int)),
{
    match terminal_of(ctx, t, n) {
        None => None,
        Some((nt, bytes)) => {
            let mut data = bytes;
            if data.len() > usize::MAX / 16 - 128 * AFL_HAVOC_BLK_LARGE {
                return None;
            }
            let mut state = crate::afl::MutationState::new_bitflip(Vec::new());
            state.options.change_size = true;
            state.havoc(&mut data);
            Some(custom_leaf(nt, data))
        },
    }
}

/// A random node and its terminal after a havoc round (see
/// `havoc_terminal_at`): `(node, replacement)`.
pub fn mut_havoc_terminal(ctx: &Context, t: &Tree) -> (res: Option<(NodeID, Tree)>)
    requires
        tree_wf(t, ctx.grammar()),
    ensures
        res matches Some((n, leaf)) ==> n < t.rules@.len() && is_terminal_leaf(ctx, t, n as int) && leaf.rules@.len() == 1
            && leaf.sizes@ == seq![1usize] && leaf.paren@ == seq![0usize]
            && (leaf.nodes()[0] matches NodeRuleView::CustomRule(r) && r.nonterm == nt_of(ctx, t, n as int)),
        res is None ==> t.rules@.len() == 0 || exists|n: int| 0 <= n < t.rules@.len() && !can_havoc(ctx, t, n),
{
    if t.rules.len() == 0 {
        return None;
    }
    let n = random_node(t);
    match havoc_terminal_at(ctx, t, n) {
        None => None,
        Some(leaf) => Some((n, leaf)),
    }
}

/// Node `n` can be replaced by a strictly smaller tree of its nonterminal.
pub open spec fn can_shrink(ctx: &Context, t: &Tree, n: int) -> bool {
    let nt = nt_of(ctx, t, n);
    &&& nt < ctx.num_nts()
    &&& n + t.sizes@[n] <= t.rules@.len()
    &&& ctx.nts_to_min_size@[nt as int] != 0
    &&& ctx.nts_to_min_size@[nt as int] < t.sizes@[n]
    &&& ctx.nts_to_min_size@[nt as int] < ctx.max_len
}

/// Minimization of a tree over a window of its nodes, one candidate at a
/// time: each node whose subtree is larger than the smallest tree of its
/// nonterminal is offered a smallest tree.
pub struct Minimizer {
    pub node: NodeID,
    pub end: NodeID,
}

impl Minimizer {
    pub fn new(start: NodeID, end: NodeID) -> (m: Self)
        ensures
            m.node == start,
            m.end == end,
    {
        Minimizer { node: start, end }
    }

    /// The next node of the window that `can_shrink`, with a smallest tree
    /// for it; `None` exactly when no node left in the window can shrink.
    pub fn next_candidate(&mut self, ctx: &Context, t: &Tree) -> (res: Option<(NodeID, Tree)>)
        requires
            ctx.can_sample(),
            tree_wf(t, ctx.grammar()),
        ensures
            final(self).end == old(self).end,
            res matches Some((n, small)) ==> old(self).node <= n < old(self).end && n < t.rules@.len()
                && can_shrink(ctx, t, n as int)
                && final(self).node == n + 1
                && small.rules@.len() == ctx.nts_to_min_size@[nt_of(ctx, t, n as int) as int]
                && small.rules@.len() < t.sizes@[n as int]
                && tree_wf(&small, ctx.grammar()) && small.rules@.len() > 0
                && small.sizes@[0] == small.rules@.len()
                && (small.nodes()[0] matches NodeRuleView::NormalRule(id)
                    && ctx.rules@[id as int].nonterm == nt_of(ctx, t, n as int)),
            res is None ==> forall|m: int| old(self).node <= m < old(self).end && m < t.rules@.len() ==> !can_shrink(ctx, t, m),
    {
        assert(t.nodes().len() == t.rules@.len());
        while self.node < self.end && self.node < t.rules.len()
            invariant
                ctx.can_sample(),
                tree_wf(t, ctx.grammar()),
                t.nodes().len() == t.rules@.len(),
                self.end == old(self).end,
                self.node >= old(self).node,
                forall|m: int| old(self).node <= m < self.node && m < t.rules@.len() ==> !can_shrink(ctx, t, m),
            decreases t.rules@.len() - self.node,
        {
            let n = self.node;
            self.node = self.node + 1;
            let nt = get_rule(t, n, ctx).nonterm;
            if nt < ctx.nt_ids_to_name.len() && t.sizes[n] <= t.rules.len() - n {
                let min = ctx.nts_to_min_size[nt];
                if min != 0 && min < t.sizes[n] && min < ctx.max_len {
                    proof {
                        crate::size_laws::lemma_count_at_min(ctx, nt as int);
                    }
                    let small = ctx.generate_tree_from_nt(nt, min).unwrap();
                    return Some((n, small));
                }
            }
        }
        None
    }
}

/// Rule `j` of the nonterminal at node `n` is another rule than the node's,
/// and derives a tree of the node's current size.
pub open spec fn can_substitute(ctx: &Context, t: &Tree, n: int, j: int) -> bool {
    let nt = nt_of(ctx, t, n);
    let rules = ctx.nt_rules_view()[nt as int];
    &&& nt < ctx.num_nts()
    &&& n + t.sizes@[n] <= t.rules@.len()
    &&& 1 <= t.sizes@[n] <= ctx.max_len
    &&& 0 <= j < rules.len()
    &&& t.nodes()[n] != NodeRuleView::NormalRule(rules[j])
    &&& rhs16(ctx.rules@, ctx.rhs_counts(), rules[j] as int, 0, t.sizes@[n] - 1) != 0
}

/// Deterministic rule substitution over a window of nodes: for each node,
/// each other rule of its nonterminal in turn, with a tree derived from it
/// of the node's current size.
pub struct RuleSubstitution {
    pub node: NodeID,
    pub rule_index: usize,
    pub end: NodeID,
}

impl RuleSubstitution {
    pub fn new(start: NodeID, end: NodeID) -> (m: Self)
        ensures
            m.node == start,
            m.rule_index == 0,
            m.end == end,
    {
        RuleSubstitution { node: start, rule_index: 0, end }
    }

    /// The next pair of node and rule (in order) that `can_substitute`, with
    /// a tree of that rule and the node's size; `None` exactly when no pair
    /// is left in the window.
    pub fn next_candidate(&mut self, ctx: &Context, t: &Tree) -> (res: Option<(NodeID, Tree)>)
        requires
            ctx.can_sample(),
            tree_wf(t, ctx.grammar()),
        ensures
            final(self).end == old(self).end,
            res matches Some((n, sub)) ==> old(self).node <= n < old(self).end && n < t.rules@.len()
                && n + t.sizes@[n as int] <= t.rules@.len()
                && final(self).node == n && final(self).rule_index >= 1
                && can_substitute(ctx, t, n as int, final(self).rule_index - 1)
                && tree_wf(&sub, ctx.grammar()) && sub.rules@.len() == t.sizes@[n as int]
                && sub.sizes@[0] == sub.rules@.len()
                && sub.nodes()[0] == NodeRuleView::NormalRule(ctx.nt_rules_view()[nt_of(ctx, t, n as int) as int][final(self).rule_index - 1]),
            res is None ==> forall|m: int, j: int| old(self).node <= m < old(self).end && m < t.rules@.len()
                && (m == old(self).node ==> j >= old(self).rule_index) ==> !can_substitute(ctx, t, m, j),
    {
        assert(t.nodes().len() == t.rules@.len());
        while self.node < self.end && self.node < t.rules.len()
            invariant
                ctx.can_sample(),
                tree_wf(t, ctx.grammar()),
                t.nodes().len() == t.rules@.len(),
                self.end == old(self).end,
                self.node >= old(self).node,
                self.node > old(self).node ==> self.rule_index == 0,
                self.node == old(self).node ==> self.rule_index == old(self).rule_index,
                forall|m: int, j: int| old(self).node <= m < self.node && m < t.rules@.len()
                    && (m == old(self).node ==> j >= old(self).rule_index) ==> !can_substitute(ctx, t, m, j),
            decreases t.rules@.len() - self.node,
        {
            let n = self.node;
            let nt = get_rule(t, n, ctx).nonterm;
            let ghost start_j = self.rule_index;
            if nt < ctx.nt_ids_to_name.len() && t.sizes[n] <= t.rules.len() - n && t.sizes[n] >= 1 && t.sizes[n] <= ctx.max_len {
                let rules = ctx.get_rules_for_nt(nt);
                while self.rule_index < rules.len()
                    invariant
                        ctx.can_sample(),
                        tree_wf(t, ctx.grammar()),
                        t.nodes().len() == t.rules@.len(),
                        self.end == old(self).end,
                        self.node == n,
                        old(self).node <= n < old(self).end,
                        n < t.rules@.len(),
                        nt == nt_of(ctx, t, n as int),
                        nt < ctx.num_nts(),
                        rules@ == ctx.nt_rules_view()[nt as int],
                        1 <= t.sizes@[n as int] <= ctx.max_len,
                        n + t.sizes@[n as int] <= t.rules@.len(),
                        self.rule_index >= start_j,
                        forall|j: int| start_j <= j < self.rule_index ==> !can_substitute(ctx, t, n as int, j),
                    decreases rules@.len() - self.rule_index,
                {
                    let j = self.rule_index;
                    self.rule_index = self.rule_index + 1;
                    let rid = rules[j];
                    let same = match t.rules[n].get_rule_id() {
                        Some(x) => x == rid,
                        None => false,
                    };
                    proof {
                        assert(t.nodes()[n as int] == t.rules@[n as int]@);
                        assert(rid < ctx.rules@.len());
                    }
                    if !same {
                        match ctx.generate_tree_from_rule(rid, t.sizes[n] - 1) {
                            None => {},
                            Some(sub) => {
                                return Some((n, sub));
                            },
                        }
                    }
                }
            }
            self.node = self.node + 1;
            self.rule_index = 0;
        }
        None
    }
}

/// Replacing the outer node's subtree by the inner one's shrinks the tree.
pub open spec fn can_shrink_recursion(t: &Tree, p: int, c: int) -> bool {
    &&& 0 <= p < t.rules@.len()
    &&& 0 <= c < t.rules@.len()
    &&& p + t.sizes@[p] <= t.rules@.len()
    &&& c + t.sizes@[c] <= t.rules@.len()
    &&& t.sizes@[c] < t.sizes@[p]
}

/// The first recursion pair from index `start` on whose inner subtree can
/// replace the outer one, with its index: one step of recursion
/// minimization. `None` exactly when no pair from `start` on can.
pub fn next_recursion_shrink(t: &Tree, recursions: &Vec<(NodeID, NodeID)>, start: usize) -> (res: Option<(usize, NodeID, NodeID)>)
    requires
        t.sizes@.len() == t.rules@.len(),
    ensures
        res matches Some((k, p, c)) ==> start <= k < recursions@.len() && recursions@[k as int] == (p, c)
            && can_shrink_recursion(t, p as int, c as int)
            && forall|j: int| start <= j < k ==> !can_shrink_recursion(t, (#[trigger] recursions@[j]).0 as int, recursions@[j].1 as int),
        res is None ==> forall|j: int| start <= j < recursions@.len() ==>
            !can_shrink_recursion(t, (#[trigger] recursions@[j]).0 as int, recursions@[j].1 as int),
{
    let n = t.rules.len();
    let mut k = start;
    while k < recursions.len()
        invariant
            t.sizes@.len() == t.rules@.len(),
            n == t.rules@.len(),
            k >= start,
            forall|j: int| start <= j < k ==> !can_shrink_recursion(t, (#[trigger] recursions@[j]).0 as int, recursions@[j].1 as int),
        decreases recursions@.len() - k,
    {
        let (p, c) = recursions[k];
        if p < n && c < n && t.sizes[p] <= n - p && t.sizes[c] <= n - c && t.sizes[c] < t.sizes[p] {
            return Some((k, p, c));
        }
        k = k + 1;
    }
    None
}

/// `t` with the recursion from `outer` to `inner` repeated: up to `times`
/// times the subtree at the current inner position is replaced by the outer
/// subtree, and the inner position moves one period on; it stops early
/// when the tree would exceed `max_size` nodes or a splice does not fit.
/// `None` exactly when `t` is not a derivation.
pub fn grow_recursion(ctx: &Context, t: &Tree, outer: NodeID, inner: NodeID, times: usize, max_size: usize) -> (res: Option<Tree>)
    requires
        tree_wf(t, ctx.grammar()),
    ensures
        res is None <==> parents_spec(ctx.grammar(), t.nodes()) is None,
        res matches Some(g) ==> tree_wf(&g, ctx.grammar()) && parents_spec(ctx.grammar(), g.nodes()) == Some(g.paren@)
            && g.rules@.len() <= (if t.rules@.len() > max_size { t.rules@.len() as int } else { max_size as int }),
{
    let mut cur = match t.duplicate(ctx) {
        Some(c) => c,
        None => {
            return None;
        },
    };
    if inner <= outer || outer >= t.rules.len() {
        return Some(cur);
    }
    let mut pos = inner;
    let mut k: usize = 0;
    while k < times
        invariant
            tree_wf(t, ctx.grammar()),
            parents_spec(ctx.grammar(), t.nodes()) is Some,
            tree_wf(&cur, ctx.grammar()),
            parents_spec(ctx.grammar(), cur.nodes()) == Some(cur.paren@),
            outer < t.rules@.len(),
            outer < inner,
            cur.rules@.len() <= (if t.rules@.len() > max_size { t.rules@.len() as int } else { max_size as int }),
        decreases times - k,
    {
        if cur.rules.len() > max_size || t.sizes[outer] > max_size - cur.rules.len() {
            return Some(cur);
        }
        let ghost len0 = cur.rules@.len();
        let next = match cur.try_mutate_replace_from_tree(pos, t, outer) {
            None => None,
            Some(m) => {
                proof {
                    crate::tree::lemma_splice_valid(ctx.grammar(), m, cur, *t, pos as int, outer as int);
                    assert(m.nodes().len() == (m.prefix@ + m.repl@ + m.postfix@).len());
                    assert(m.nodes().len() <= len0 + t.sizes@[outer as int]);
                }
                match m.to_tree(ctx) {
                    None => None,
                    Some(g) => {
                        proof {
                            assert(g.nodes().len() == g.rules@.len());
                        }
                        Some(g)
                    },
                }
            },
        };
        match next {
            None => {
                return Some(cur);
            },
            Some(g) => {
                cur = g;
            },
        }
        if pos > usize::MAX - (inner - outer) {
            return Some(cur);
        }
        pos = pos + (inner - outer);
        k = k + 1;
    }
    Some(cur)
}

/// Whether a minimization candidate is kept: its run must cover every
/// entry that the input was the first to cover. With no such entry there
/// is nothing to keep, and minimization changes nothing.
pub fn keeps_fresh_bits(fresh_bits: &Vec<usize>, run: &Vec<u8>) -> (r: bool)
    ensures
        r == (fresh_bits@.len() > 0 && forall|k: int| 0 <= k < fresh_bits@.len() ==> #[trigger] fresh_bits@[k] < run@.len() && run@[fresh_bits@[k] as int] != 0),
        fresh_bits@.len() == 0 ==> !r,
{
    fresh_bits.len() > 0 && crate::fuzzer::has_bits(run, fresh_bits)
}

} // verus!
