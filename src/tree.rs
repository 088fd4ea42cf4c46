//! Derivation trees as flat pre-order vectors, and spliced views of them.
use vstd::prelude::*;
use vstd::slice::slice_subrange;
use crate::context::Context;
use crate::newtypes::{NodeID, NTermID};
use crate::rule::{ChildView, NodeRuleView, NormalOrCustomRule, Rule, RuleChild, RuleView};

verus! {

/// The values of a sequence of node rules.
pub open spec fn node_views(v: Seq<NormalOrCustomRule>) -> Seq<NodeRuleView> {
    v.map_values(|r: NormalOrCustomRule| r@)
}

/// The rule that a node stands for, given the grammar's rules.
pub open spec fn resolve(grammar: Seq<RuleView>, n: NodeRuleView) -> RuleView {
    match n {
        NodeRuleView::NormalRule(id) => grammar[id as int],
        NodeRuleView::CustomRule(r) => r,
    }
}

/// Every grammar rule that the nodes name exists.
pub open spec fn nodes_valid(grammar: Seq<RuleView>, nodes: Seq<NodeRuleView>) -> bool {
    forall|i: int| 0 <= i < nodes.len() ==> (#[trigger] nodes[i] matches NodeRuleView::NormalRule(id) ==> id < grammar.len())
}

/// Pops terminals off the top of `stack` and appends their bytes to `out`,
/// until a nonterminal reference (popped and returned) or the bottom.
pub open spec fn drain(stack: Seq<ChildView>, out: Seq<u8>) -> (Seq<ChildView>, Seq<u8>, Option<NTermID>)
    decreases stack.len(),
{
    if stack.len() == 0 {
        (stack, out, None)
    } else {
        match stack.last() {
            ChildView::Term(d) => drain(stack.drop_last(), out + d),
            ChildView::CustomTerm(d) => drain(stack.drop_last(), out + d),
            ChildView::NTerm(n) => (stack.drop_last(), out, Some(n)),
        }
    }
}

/// The children of a rule in the order they are pushed: the first child ends
/// on top of the stack.
pub open spec fn pushed(cs: Seq<ChildView>) -> Seq<ChildView> {
    cs.reverse()
}

/// Unparsing nodes `i..` of a tree, with `stack` the pending children and
/// `out` the bytes produced so far; `None` when a node's nonterminal is not
/// the one its parent expects there, or references are left unexpanded.
pub open spec fn unparse_from(
    grammar: Seq<RuleView>,
    nodes: Seq<NodeRuleView>,
    i: int,
    stack: Seq<ChildView>,
    out: Seq<u8>,
) -> Option<Seq<u8>>
    decreases nodes.len() - i,
{
    let (st, o, nt) = drain(stack, out);
    if i >= nodes.len() {
        if nt is Some { None } else { Some(o) }
    } else {
        let rule = resolve(grammar, nodes[i]);
        if nt matches Some(x) && x != rule.nonterm {
            None
        } else {
            unparse_from(grammar, nodes, i + 1, st + pushed(rule.children), o)
        }
    }
}

/// The bytes of the subtree rooted at node `n` and everything after it in
/// pre-order.
pub open spec fn unparse_spec(grammar: Seq<RuleView>, nodes: Seq<NodeRuleView>, n: int) -> Option<Seq<u8>> {
    unparse_from(grammar, nodes, n, Seq::empty(), Seq::empty())
}

/// A tree or a spliced view of trees: a sequence of node rules in pre-order.
pub trait TreeLike {
    spec fn nodes(&self) -> Seq<NodeRuleView>;

    /// The node count fits in a `usize`.
    spec fn inv(&self) -> bool;

    fn size(&self) -> (r: usize)
        requires
            self.inv(),
        ensures
            r == self.nodes().len();

    fn get_node(&self, n: NodeID) -> (r: &NormalOrCustomRule)
        requires
            self.inv(),
            n < self.nodes().len(),
        ensures
            r@ == self.nodes()[n as int];
}

/// The rule of node `n`.
pub fn get_rule<'a, T: TreeLike>(t: &'a T, n: NodeID, ctx: &'a Context) -> (r: &'a Rule)
    requires
        t.inv(),
        n < t.nodes().len(),
        nodes_valid(ctx.grammar(), t.nodes()),
    ensures
        r@ == resolve(ctx.grammar(), t.nodes()[n as int]),
{
    match t.get_node(n) {
        NormalOrCustomRule::NormalRule(id) => {
            assert(t.nodes()[n as int] matches NodeRuleView::NormalRule(x) && x == *id);
            ctx.get_rule(*id)
        },
        NormalOrCustomRule::CustomRule(r) => r,
    }
}

fn push_child(stack: &mut Vec<RuleChild>, c: &RuleChild)
    ensures
        final(stack)@.map_values(|x: RuleChild| x@) == old(stack)@.map_values(|x: RuleChild| x@).push(c@),
{
    stack.push(c.duplicate());
    assert(final(stack)@.map_values(|x: RuleChild| x@) =~= old(stack)@.map_values(|x: RuleChild| x@).push(c@));
}

fn append_bytes(out: &mut Vec<u8>, d: &Vec<u8>)
    ensures
        final(out)@ == old(out)@ + d@,
{
    let mut i: usize = 0;
    let ghost o0 = out@;
    while i < d.len()
        invariant
            i <= d.len(),
            out@ == o0 + d@.subrange(0, i as int),
        decreases d.len() - i,
    {
        out.push(d[i]);
        i = i + 1;
        assert(out@ =~= o0 + d@.subrange(0, i as int));
    }
    assert(d@.subrange(0, i as int) =~= d@);
}

/// Pops terminals off `stack` into `out` up to the next nonterminal reference.
fn drain_exec(stack: &mut Vec<RuleChild>, out: &mut Vec<u8>) -> (r: Option<NTermID>)
    ensures
        (final(stack)@.map_values(|x: RuleChild| x@), final(out)@, r)
            == drain(old(stack)@.map_values(|x: RuleChild| x@), old(out)@),
{
    loop
        invariant
            drain(stack@.map_values(|x: RuleChild| x@), out@)
                == drain(old(stack)@.map_values(|x: RuleChild| x@), old(out)@),
        decreases stack.len(),
    {
        let ghost sv = stack@.map_values(|x: RuleChild| x@);
        match stack.pop() {
            None => {
                assert(sv.len() == 0);
                return None;
            },
            Some(c) => {
                assert(stack@.map_values(|x: RuleChild| x@) =~= sv.drop_last());
                match c {
                    RuleChild::Term(d) => append_bytes(out, &d),
                    RuleChild::CustomTerm(d) => append_bytes(out, &d),
                    RuleChild::NTerm(n) => {
                        return Some(n);
                    },
                }
            },
        }
    }
}

/// Unparses the nodes of `t` from `n` on: the bytes of the subtree at `n`
/// followed by those of the nodes after it; `None` when `t` is not a valid
/// tree for the grammar.
pub fn unparse_node_to_vec<T: TreeLike>(t: &T, n: NodeID, ctx: &Context) -> (r: Option<Vec<u8>>)
    requires
        t.inv(),
        nodes_valid(ctx.grammar(), t.nodes()),
    ensures
        r matches Some(v) ==> unparse_spec(ctx.grammar(), t.nodes(), n as int) == Some(v@),
        r is None ==> unparse_spec(ctx.grammar(), t.nodes(), n as int) is None,
{
    let mut stack: Vec<RuleChild> = Vec::new();
    let mut out: Vec<u8> = Vec::new();
    let size = t.size();
    let mut i: usize = n;
    assert(stack@.map_values(|x: RuleChild| x@) =~= Seq::<ChildView>::empty());
    while i < size
        invariant
            t.inv(),
            size == t.nodes().len(),
            nodes_valid(ctx.grammar(), t.nodes()),
            n <= i || size <= n,
            unparse_from(ctx.grammar(), t.nodes(), i as int, stack@.map_values(|x: RuleChild| x@), out@)
                == unparse_spec(ctx.grammar(), t.nodes(), n as int),
        decreases size - i,
    {
        let nt = drain_exec(&mut stack, &mut out);
        let rule = get_rule(t, i, ctx);
        match nt {
            Some(x) => {
                if x != rule.nonterm {
                    return None;
                }
            },
            None => {},
        }
        let ghost before = stack@.map_values(|x: RuleChild| x@);
        let mut k: usize = rule.children.len();
        while k > 0
            invariant
                k <= rule.children.len(),
                stack@.map_values(|x: RuleChild| x@) == before + pushed(rule@.children).subrange(0, rule.children.len() - k),
            decreases k,
        {
            k = k - 1;
            push_child(&mut stack, &rule.children[k]);
            assert(stack@.map_values(|x: RuleChild| x@) =~= before + pushed(rule@.children).subrange(0, rule.children.len() - k));
        }
        assert(pushed(rule@.children).subrange(0, rule.children.len() as int) =~= pushed(rule@.children));
        i = i + 1;
    }
    let nt = drain_exec(&mut stack, &mut out);
    if nt.is_some() {
        return None;
    }
    Some(out)
}

/// A derivation tree: node rules, subtree sizes and parents, in pre-order.
#[derive(Debug)]
pub struct Tree {
    pub rules: Vec<NormalOrCustomRule>,
    pub sizes: Vec<usize>,
    pub paren: Vec<NodeID>,
}

impl TreeLike for Tree {
    open spec fn nodes(&self) -> Seq<NodeRuleView> {
        self.rules@.map_values(|r: NormalOrCustomRule| r@)
    }

    open spec fn inv(&self) -> bool {
        true
    }

    fn size(&self) -> (r: usize) {
        self.rules.len()
    }

    fn get_node(&self, n: NodeID) -> (r: &NormalOrCustomRule) {
        &self.rules[n]
    }
}

/// The sum of `sizes[j]` over the nodes `j` in `[lo, hi)` whose parent is `k`.
pub open spec fn child_sum(paren: Seq<usize>, sizes: Seq<usize>, k: int, lo: int, hi: int) -> int
    decreases hi - lo,
{
    if lo >= hi {
        0
    } else {
        (if paren[lo] == k { sizes[lo] as int } else { 0 }) + child_sum(paren, sizes, k, lo + 1, hi)
    }
}

/// The sum of `sizes[0..i]`.
pub open spec fn prefix_sum(sizes: Seq<usize>, i: int) -> int
    decreases i,
{
    if i <= 0 { 0 } else { prefix_sum(sizes, i - 1) + sizes[i - 1] }
}

/// Every node but the root has a parent before it.
pub open spec fn parents_ordered(paren: Seq<usize>) -> bool {
    &&& paren.len() > 0 ==> paren[0] == 0
    &&& forall|i: int| 0 < i < paren.len() ==> #[trigger] paren[i] < i
}

/// The tree invariant: the root's subtree holds every node, and each node's
/// size is one more than the sizes of its children.
pub open spec fn sizes_consistent(paren: Seq<usize>, sizes: Seq<usize>) -> bool {
    &&& sizes.len() == paren.len()
    &&& parents_ordered(paren)
    &&& sizes.len() > 0 ==> sizes[0] == sizes.len()
    &&& forall|i: int| 0 <= i < sizes.len() ==> #[trigger] sizes[i] == 1 + child_sum(paren, sizes, i, i + 1, sizes.len() as int)
}

proof fn lemma_child_sum_frame(paren: Seq<usize>, s1: Seq<usize>, s2: Seq<usize>, k: int, lo: int, hi: int)
    requires
        forall|j: int| lo <= j < hi ==> s1[j] == s2[j],
    ensures
        child_sum(paren, s1, k, lo, hi) == child_sum(paren, s2, k, lo, hi),
    decreases hi - lo,
{
    if lo < hi {
        lemma_child_sum_frame(paren, s1, s2, k, lo + 1, hi);
    }
}

proof fn lemma_prefix_sum_update(s: Seq<usize>, p: int, i: int, v: usize)
    requires
        0 <= p < i <= s.len(),
    ensures
        prefix_sum(s.update(p, v), i) == prefix_sum(s, i) - s[p] + v,
    decreases i,
{
    if i - 1 > p {
        lemma_prefix_sum_update(s, p, i - 1, v);
    } else {
        assert(s.update(p, v).subrange(0, p) =~= s.subrange(0, p));
        lemma_prefix_sum_frame(s.update(p, v), s, p);
    }
}

proof fn lemma_prefix_sum_frame(s1: Seq<usize>, s2: Seq<usize>, i: int)
    requires
        0 <= i <= s1.len(),
        i <= s2.len(),
        forall|j: int| 0 <= j < i ==> s1[j] == s2[j],
    ensures
        prefix_sum(s1, i) == prefix_sum(s2, i),
    decreases i,
{
    if i > 0 {
        lemma_prefix_sum_frame(s1, s2, i - 1);
    }
}

proof fn lemma_prefix_sum_bound(s: Seq<usize>, i: int, j: int)
    requires
        0 <= j < i <= s.len(),
        forall|k: int| 0 <= k < i ==> s[k] >= 1,
    ensures
        s[j] <= prefix_sum(s, i),
        prefix_sum(s, i) >= 0,
    decreases i,
{
    if i - 1 > j {
        lemma_prefix_sum_bound(s, i - 1, j);
    }
    lemma_prefix_sum_nonneg(s, i - 1);
}

proof fn lemma_prefix_sum_nonneg(s: Seq<usize>, i: int)
    requires
        0 <= i <= s.len(),
    ensures
        prefix_sum(s, i) >= 0,
    decreases i,
{
    if i > 0 {
        lemma_prefix_sum_nonneg(s, i - 1);
    }
}

proof fn lemma_prefix_sum_ones(s: Seq<usize>, i: int)
    requires
        0 <= i <= s.len(),
        forall|k: int| 0 <= k < s.len() ==> s[k] == 1,
    ensures
        prefix_sum(s, i) == i,
    decreases i,
{
    if i > 0 {
        lemma_prefix_sum_ones(s, i - 1);
    }
}

/// Subtree sizes from parent links: every node counts itself, then each node
/// from the last to the second adds its size to its parent's.
pub fn calc_sizes(paren: &Vec<NodeID>) -> (sizes: Vec<usize>)
    requires
        parents_ordered(paren@),
    ensures
        sizes_consistent(paren@, sizes@),
{
    let n = paren.len();
    let mut sizes: Vec<usize> = Vec::new();
    let mut k: usize = 0;
    while k < n
        invariant
            k <= n,
            n == paren.len(),
            sizes@.len() == k,
            forall|j: int| 0 <= j < k ==> sizes@[j] == 1,
        decreases n - k,
    {
        sizes.push(1);
        k = k + 1;
    }
    if n == 0 {
        return sizes;
    }
    proof {
        lemma_prefix_sum_ones(sizes@, n as int);
        assert forall|j: int| 0 <= j < n implies #[trigger] sizes@[j] == 1 + child_sum(paren@, sizes@, j, n as int, n as int) by {}
    }
    let mut i: usize = n - 1;
    while i > 0
        invariant
            0 <= i < n,
            n == paren.len(),
            n == sizes@.len(),
            parents_ordered(paren@),
            prefix_sum(sizes@, i + 1) == n,
            forall|j: int| 0 <= j < n ==> #[trigger] sizes@[j] >= 1,
            forall|j: int| 0 <= j < n ==> #[trigger] sizes@[j] == 1 + child_sum(paren@, sizes@, j, i + 1, n as int),
        decreases i,
    {
        let p = paren[i];
        proof {
            lemma_prefix_sum_bound(sizes@, i + 1, p as int);
            lemma_prefix_sum_bound(sizes@, i + 1, i as int);
            assert(prefix_sum(sizes@, i + 1) == prefix_sum(sizes@, i as int) + sizes@[i as int]);
            lemma_prefix_sum_nonneg(sizes@, i as int);
            lemma_prefix_sum_bound(sizes@, i as int, p as int);
        }
        let ghost old_sizes = sizes@;
        let v = sizes[p] + sizes[i];
        sizes.set(p, v);
        proof {
            lemma_prefix_sum_update(old_sizes, p as int, i as int, v);
            assert forall|j: int| 0 <= j < n implies #[trigger] sizes@[j] == 1 + child_sum(paren@, sizes@, j, i as int, n as int) by {
                lemma_child_sum_frame(paren@, sizes@, old_sizes, j, i + 1, n as int);
                assert(child_sum(paren@, sizes@, j, i as int, n as int)
                    == (if paren@[i as int] == j { sizes@[i as int] as int } else { 0 }) + child_sum(paren@, sizes@, j, i + 1, n as int));
            }
        }
        i = i - 1;
    }
    proof {
        assert(prefix_sum(sizes@, 0) == 0);
        assert(prefix_sum(sizes@, 1) == sizes@[0]);
        assert forall|j: int| 0 <= j < n implies #[trigger] sizes@[j] == 1 + child_sum(paren@, sizes@, j, j + 1, n as int) by {
            lemma_child_sum_skip(paren@, sizes@, j, 1, n as int);
        }
    }
    sizes
}

proof fn lemma_child_sum_skip(paren: Seq<usize>, sizes: Seq<usize>, k: int, lo: int, hi: int)
    requires
        parents_ordered(paren),
        1 <= lo <= k + 1,
        k + 1 <= hi <= paren.len(),
    ensures
        child_sum(paren, sizes, k, lo, hi) == child_sum(paren, sizes, k, k + 1, hi),
    decreases k + 1 - lo,
{
    if lo < k + 1 {
        assert(paren[lo] < lo);
        lemma_child_sum_skip(paren, sizes, k, lo + 1, hi);
    }
}

/// The nonterminal references of `cs` from the last to the first, each with
/// the node that expects it: the order in which they are pushed.
pub open spec fn rev_nts(cs: Seq<ChildView>, node: NodeID) -> Seq<(NTermID, NodeID)>
    decreases cs.len(),
{
    if cs.len() == 0 {
        Seq::empty()
    } else {
        let rest = rev_nts(cs.drop_last(), node);
        match cs.last() {
            ChildView::NTerm(nt) => seq![(nt, node)] + rest,
            _ => rest,
        }
    }
}

/// Parent links of nodes `i..`, with `stack` the nonterminal references still
/// to be expanded and the nodes that expect them; `None` when the nodes do
/// not form a derivation.
pub open spec fn parents_from(
    grammar: Seq<RuleView>,
    nodes: Seq<NodeRuleView>,
    i: int,
    stack: Seq<(NTermID, NodeID)>,
) -> Option<Seq<NodeID>>
    decreases nodes.len() - i,
{
    if i >= nodes.len() || i < 0 {
        Some(Seq::empty())
    } else if stack.len() == 0 {
        None
    } else {
        let (nt, node) = stack.last();
        let rule = resolve(grammar, nodes[i]);
        if nt != rule.nonterm {
            None
        } else {
            match parents_from(grammar, nodes, i + 1, stack.drop_last() + rev_nts(rule.children, i as NodeID)) {
                Some(rest) => Some(seq![node] + rest),
                None => None,
            }
        }
    }
}

proof fn lemma_parents_from_len(grammar: Seq<RuleView>, nodes: Seq<NodeRuleView>, i: int, stack: Seq<(NTermID, NodeID)>)
    requires
        0 <= i <= nodes.len(),
    ensures
        parents_from(grammar, nodes, i, stack) matches Some(r) ==> r.len() == nodes.len() - i,
    decreases nodes.len() - i,
{
    if i < nodes.len() && stack.len() > 0 {
        let (nt, node) = stack.last();
        let rule = resolve(grammar, nodes[i]);
        lemma_parents_from_len(grammar, nodes, i + 1, stack.drop_last() + rev_nts(rule.children, i as NodeID));
    }
}

/// The parent links of a tree with the given nodes, `None` when the nodes
/// do not form a derivation from the root's nonterminal.
pub open spec fn parents_spec(grammar: Seq<RuleView>, nodes: Seq<NodeRuleView>) -> Option<Seq<NodeID>> {
    if nodes.len() == 0 {
        Some(Seq::empty())
    } else {
        parents_from(grammar, nodes, 0, seq![(resolve(grammar, nodes[0]).nonterm, 0usize)])
    }
}

/// Computes the parent of each node by replaying the derivation with a stack
/// of pending nonterminal references.
pub fn calc_parents<T: TreeLike>(t: &T, ctx: &Context) -> (r: Option<Vec<NodeID>>)
    requires
        t.inv(),
        nodes_valid(ctx.grammar(), t.nodes()),
    ensures
        r matches Some(p) ==> parents_spec(ctx.grammar(), t.nodes()) == Some(p@) && parents_ordered(p@)
            && p@.len() == t.nodes().len(),
        r is None ==> parents_spec(ctx.grammar(), t.nodes()) is None,
{
    let n = t.size();
    let mut paren: Vec<NodeID> = Vec::new();
    if n == 0 {
        return Some(paren);
    }
    let mut stack: Vec<(NTermID, NodeID)> = Vec::new();
    stack.push((get_rule(t, 0, ctx).nonterm, 0));
    let mut i: usize = 0;
    proof {
        assert(stack@ =~= seq![(resolve(ctx.grammar(), t.nodes()[0]).nonterm, 0usize)]);
        lemma_parents_from_len(ctx.grammar(), t.nodes(), 0, stack@);
        match parents_spec(ctx.grammar(), t.nodes()) {
            Some(all) => {
                assert(all.subrange(0, n as int) =~= all);
                assert(all.subrange(0, 0) =~= paren@);
            },
            None => {},
        }
    }
    while i < n
        invariant
            t.inv(),
            n == t.nodes().len(),
            n > 0,
            i <= n,
            nodes_valid(ctx.grammar(), t.nodes()),
            paren@.len() == i,
            parents_ordered(paren@),
            forall|j: int| 0 <= j < stack@.len() ==> (#[trigger] stack@[j]).1 < i || (i == 0 && stack@[j].1 == 0),
            match parents_spec(ctx.grammar(), t.nodes()) {
                Some(all) => parents_from(ctx.grammar(), t.nodes(), i as int, stack@) == Some(all.subrange(i as int, n as int))
                    && all.subrange(0, i as int) == paren@,
                None => parents_from(ctx.grammar(), t.nodes(), i as int, stack@) is None,
            },
        decreases n - i,
    {
        let rule = get_rule(t, i, ctx);
        let ghost stack_before = stack@;
        let top = stack.pop();
        match top {
            None => {
                return None;
            },
            Some((nt, node)) => {
                if nt != rule.nonterm {
                    return None;
                }
                let ghost st0 = stack@;
                proof {
                    assert(stack_before.drop_last() =~= st0);
                    assert(stack_before.last() == (nt, node));
                }
                paren.push(node);
                let mut k: usize = rule.children.len();
                proof {
                    assert(rule@.children.subrange(0, k as int) =~= rule@.children);
                }
                while k > 0
                    invariant
                        k <= rule.children.len(),
                        stack@ + rev_nts(rule@.children.subrange(0, k as int), i) == st0 + rev_nts(rule@.children, i),
                        forall|j: int| 0 <= j < stack@.len() ==> (#[trigger] stack@[j]).1 <= i,
                    decreases k,
                {
                    k = k - 1;
                    proof {
                        assert(rule@.children.subrange(0, k + 1).drop_last() =~= rule@.children.subrange(0, k as int));
                    }
                    match &rule.children[k] {
                        RuleChild::NTerm(x) => {
                            stack.push((*x, i));
                            proof {
                                let sub = rule@.children.subrange(0, k as int);
                                assert(stack@ + rev_nts(sub, i) =~= (stack@.drop_last() + rev_nts(rule@.children.subrange(0, k + 1), i)));
                            }
                        },
                        _ => {},
                    }
                }
                proof {
                    assert(rule@.children.subrange(0, 0) =~= Seq::<ChildView>::empty());
                    assert(stack@ =~= st0 + rev_nts(rule@.children, i));
                    if i > 0 {
                        assert(node < i);
                    }
                    let g = ctx.grammar();
                    let nodes = t.nodes();
                    assert(parents_from(g, nodes, i as int, stack_before) == match parents_from(g, nodes, i + 1, stack@) {
                        Some(rest) => Some(seq![node] + rest),
                        None => None,
                    });
                    match parents_spec(ctx.grammar(), t.nodes()) {
                        Some(all) => {
                            lemma_parents_from_len(ctx.grammar(), t.nodes(), 0, seq![(resolve(ctx.grammar(), t.nodes()[0]).nonterm, 0usize)]);
                            lemma_parents_from_len(ctx.grammar(), t.nodes(), i + 1, stack@);
                            assert(all.subrange(i as int, n as int)[0] == node);
                            assert(all[i as int] == node);
                            match parents_from(g, nodes, i + 1, stack@) {
                                Some(rest) => {
                                    assert((seq![node] + rest).subrange(1, (seq![node] + rest).len() as int) =~= rest);
                                    assert(all.subrange(i as int, n as int).subrange(1, n - i) =~= all.subrange(i + 1, n as int));
                                    assert(rest =~= all.subrange(i + 1, n as int));
                                },
                                None => {},
                            }
                            assert(all.subrange(i as int, n as int) =~= seq![node] + all.subrange(i + 1, n as int));
                            assert(all.subrange(0, i + 1) =~= all.subrange(0, i as int).push(node));
                        },
                        None => {},
                    }
                }
            },
        }
        i = i + 1;
    }
    proof {
        match parents_spec(ctx.grammar(), t.nodes()) {
            Some(all) => {
                lemma_parents_from_len(ctx.grammar(), t.nodes(), 0, seq![(resolve(ctx.grammar(), t.nodes()[0]).nonterm, 0usize)]);
                assert(all.subrange(0, n as int) =~= all);
            },
            None => {},
        }
    }
    Some(paren)
}

/// A well-formed tree over a grammar: consistent sizes and parents, and only
/// rules that exist.
pub open spec fn tree_wf(t: &Tree, grammar: Seq<RuleView>) -> bool {
    &&& t.rules@.len() == t.sizes@.len()
    &&& sizes_consistent(t.paren@, t.sizes@)
    &&& nodes_valid(grammar, t.nodes())
}

impl Tree {
    /// The tree with the given rules in pre-order, its parents and sizes
    /// computed; `None` when the rules do not form a derivation.
    pub fn from_rule_vec(rules: Vec<NormalOrCustomRule>, ctx: &Context) -> (r: Option<Tree>)
        requires
            nodes_valid(ctx.grammar(), rules@.map_values(|x: NormalOrCustomRule| x@)),
        ensures
            r matches Some(t) ==> tree_wf(&t, ctx.grammar()) && t.nodes() == rules@.map_values(|x: NormalOrCustomRule| x@)
                && parents_spec(ctx.grammar(), t.nodes()) == Some(t.paren@),
            r is None <==> parents_spec(ctx.grammar(), rules@.map_values(|x: NormalOrCustomRule| x@)) is None,
    {
        let mut t = Tree { rules, sizes: Vec::new(), paren: Vec::new() };
        match calc_parents(&t, ctx) {
            None => None,
            Some(paren) => {
                let sizes = calc_sizes(&paren);
                t.paren = paren;
                t.sizes = sizes;
                Some(t)
            },
        }
    }

    pub fn get_normal_rule_or_custom_rule(&self, n: NodeID) -> (r: &NormalOrCustomRule)
        requires
            n < self.rules@.len(),
        ensures
            r == &self.rules@[n as int],
    {
        &self.rules[n]
    }

    /// The number of nodes in the subtree rooted at `n`.
    pub fn subtree_size(&self, n: NodeID) -> (r: usize)
        requires
            n < self.sizes@.len(),
        ensures
            r == self.sizes@[n as int],
    {
        self.sizes[n]
    }

    /// The parent of `n`; the root has none.
    pub fn get_parent(&self, n: NodeID) -> (r: Option<NodeID>)
        requires
            n < self.paren@.len(),
        ensures
            r == (if n == 0 { None } else { Some(self.paren@[n as int]) }),
    {
        if n != 0 {
            return Some(self.paren[n]);
        }
        None
    }

    /// Removes every node.
    pub fn truncate(&mut self)
        ensures
            final(self).rules@.len() == 0,
            final(self).sizes@.len() == 0,
            final(self).paren@.len() == 0,
    {
        self.rules.truncate(0);
        self.sizes.truncate(0);
        self.paren.truncate(0);
    }

    /// Rules `from..to` of the tree.
    pub fn slice(&self, from: NodeID, to: NodeID) -> (r: &[NormalOrCustomRule])
        requires
            from <= to <= self.rules@.len(),
        ensures
            r@ == self.rules@.subrange(from as int, to as int),
    {
        slice_subrange(self.rules.as_slice(), from, to)
    }

    /// The view of this tree with the subtree at `n` replaced by the subtree
    /// of `other` at `other_node`.
    pub fn mutate_replace_from_tree<'a>(&'a self, n: NodeID, other: &'a Tree, other_node: NodeID) -> (r: TreeMutation<'a>)
        requires
            n < self.rules@.len(),
            n + self.sizes@[n as int] <= self.rules@.len(),
            other_node < other.rules@.len(),
            other_node + other.sizes@[other_node as int] <= other.rules@.len(),
            self.sizes@.len() == self.rules@.len(),
            other.sizes@.len() == other.rules@.len(),
            self.rules@.len() + other.rules@.len() <= usize::MAX,
        ensures
            r.inv(),
            r.prefix@ == self.rules@.subrange(0, n as int),
            r.repl@ == other.rules@.subrange(other_node as int, other_node + other.sizes@[other_node as int]),
            r.postfix@ == self.rules@.subrange(n + self.sizes@[n as int], self.rules@.len() as int),
    {
        let old_size = self.subtree_size(n);
        let new_size = other.subtree_size(other_node);
        TreeMutation {
            prefix: self.slice(0, n),
            repl: other.slice(other_node, other_node + new_size),
            postfix: self.slice(n + old_size, self.rules.len()),
        }
    }

    /// The view of this tree with the subtree at `n` replaced by the subtree
    /// of `other` at `other_node`; `None` when a node or a subtree range is
    /// out of bounds.
    pub fn try_mutate_replace_from_tree<'a>(&'a self, n: NodeID, other: &'a Tree, other_node: NodeID) -> (r: Option<TreeMutation<'a>>)
        requires
            self.sizes@.len() == self.rules@.len(),
            other.sizes@.len() == other.rules@.len(),
        ensures
            r is Some <==> n < self.rules@.len() && n + self.sizes@[n as int] <= self.rules@.len()
                && other_node < other.rules@.len() && other_node + other.sizes@[other_node as int] <= other.rules@.len()
                && self.rules@.len() + other.rules@.len() <= usize::MAX,
            r matches Some(m) ==> m.inv()
                && m.prefix@ == self.rules@.subrange(0, n as int)
                && m.repl@ == other.rules@.subrange(other_node as int, other_node + other.sizes@[other_node as int])
                && m.postfix@ == self.rules@.subrange(n + self.sizes@[n as int], self.rules@.len() as int),
    {
        let len = self.rules.len();
        let olen = other.rules.len();
        if n >= len || self.sizes[n] > len - n || other_node >= olen || other.sizes[other_node] > olen - other_node
            || len > usize::MAX - olen {
            return None;
        }
        Some(self.mutate_replace_from_tree(n, other, other_node))
    }

    /// A copy of the tree, rebuilt from its rules; `None` exactly when the
    /// rules do not form a derivation.
    pub fn duplicate(&self, ctx: &Context) -> (r: Option<Tree>)
        requires
            nodes_valid(ctx.grammar(), self.nodes()),
        ensures
            r is None <==> parents_spec(ctx.grammar(), self.nodes()) is None,
            r matches Some(t) ==> t.nodes() == self.nodes() && tree_wf(&t, ctx.grammar())
                && parents_spec(ctx.grammar(), t.nodes()) == Some(t.paren@),
    {
        let n = self.rules.len();
        let mut v: Vec<NormalOrCustomRule> = Vec::new();
        let mut i: usize = 0;
        while i < n
            invariant
                n == self.rules@.len(),
                i <= n,
                v@.len() == i,
                forall|j: int| 0 <= j < i ==> (#[trigger] v@[j])@ == self.rules@[j]@,
            decreases n - i,
        {
            v.push(self.rules[i].duplicate());
            i = i + 1;
        }
        assert(v@.map_values(|x: NormalOrCustomRule| x@) =~= self.nodes());
        Tree::from_rule_vec(v, ctx)
    }

    /// Replaces the rule of the leaf `node_id` with a custom rule.
    pub fn replace_with_custom_rule(&mut self, node_id: NodeID, new_rule: Rule)
        requires
            node_id < old(self).rules@.len(),
            old(self).sizes@.len() == old(self).rules@.len(),
            old(self).sizes@[node_id as int] == 1,
        ensures
            final(self).rules@.len() == old(self).rules@.len(),
            final(self).nodes() == old(self).nodes().update(node_id as int, NodeRuleView::CustomRule(new_rule@)),
            final(self).sizes@ == old(self).sizes@,
            final(self).paren@ == old(self).paren@,
    {
        let ghost r = new_rule@;
        self.rules.set(node_id, NormalOrCustomRule::CustomRule(new_rule));
        assert(self.nodes() =~= old(self).nodes().update(node_id as int, NodeRuleView::CustomRule(r)));
    }
}

/// A tree with one subtree replaced, viewed without copying: the nodes before
/// the subtree, the replacement, and the nodes after it.
pub struct TreeMutation<'a> {
    pub prefix: &'a [NormalOrCustomRule],
    pub repl: &'a [NormalOrCustomRule],
    pub postfix: &'a [NormalOrCustomRule],
}

impl<'a> TreeLike for TreeMutation<'a> {
    open spec fn nodes(&self) -> Seq<NodeRuleView> {
        (self.prefix@ + self.repl@ + self.postfix@).map_values(|r: NormalOrCustomRule| r@)
    }

    open spec fn inv(&self) -> bool {
        self.prefix@.len() + self.repl@.len() + self.postfix@.len() <= usize::MAX
    }

    fn size(&self) -> (r: usize) {
        self.prefix.len() + self.repl.len() + self.postfix.len()
    }

    fn get_node(&self, n: NodeID) -> (r: &NormalOrCustomRule) {
        let end0 = self.prefix.len();
        if n < end0 {
            return &self.prefix[n];
        }
        let end1 = end0 + self.repl.len();
        if n < end1 {
            return &self.repl[n - end0];
        }
        &self.postfix[n - end1]
    }
}

/// A tree of its own with the nodes of `t`; `None` exactly when they do not
/// form a derivation.
pub fn materialize<T: TreeLike>(t: &T, ctx: &Context) -> (r: Option<Tree>)
    requires
        t.inv(),
        nodes_valid(ctx.grammar(), t.nodes()),
    ensures
        r is None <==> parents_spec(ctx.grammar(), t.nodes()) is None,
        r matches Some(x) ==> x.nodes() == t.nodes() && tree_wf(&x, ctx.grammar())
            && parents_spec(ctx.grammar(), x.nodes()) == Some(x.paren@),
{
    let n = t.size();
    let mut v: Vec<NormalOrCustomRule> = Vec::new();
    let mut i: usize = 0;
    while i < n
        invariant
            t.inv(),
            n == t.nodes().len(),
            i <= n,
            v@.len() == i,
            forall|j: int| 0 <= j < i ==> (#[trigger] v@[j])@ == t.nodes()[j],
        decreases n - i,
    {
        v.push(t.get_node(i).duplicate());
        i = i + 1;
    }
    assert(v@.map_values(|x: NormalOrCustomRule| x@) =~= t.nodes());
    Tree::from_rule_vec(v, ctx)
}

/// The nodes of a splice of two trees whose rules exist are rules that exist.
pub proof fn lemma_splice_valid(g: Seq<RuleView>, m: TreeMutation, t: Tree, o: Tree, n: int, on: int)
    requires
        nodes_valid(g, t.nodes()),
        nodes_valid(g, o.nodes()),
        0 <= n <= t.rules@.len(),
        m.prefix@ == t.rules@.subrange(0, n),
        exists|a: int, b: int| 0 <= a <= b <= o.rules@.len() && m.repl@ == o.rules@.subrange(a, b),
        exists|a: int| 0 <= a <= t.rules@.len() && m.postfix@ == t.rules@.subrange(a, t.rules@.len() as int),
    ensures
        nodes_valid(g, m.nodes()),
{
    let (ra, rb) = choose|a: int, b: int| 0 <= a <= b <= o.rules@.len() && m.repl@ == o.rules@.subrange(a, b);
    let pa = choose|a: int| 0 <= a <= t.rules@.len() && m.postfix@ == t.rules@.subrange(a, t.rules@.len() as int);
    let all = m.prefix@ + m.repl@ + m.postfix@;
    assert forall|i: int| 0 <= i < m.nodes().len() implies
        (#[trigger] m.nodes()[i] matches NodeRuleView::NormalRule(id) ==> id < g.len()) by {
        assert(m.nodes()[i] == all[i]@);
        if i < m.prefix@.len() {
            assert(all[i] == t.rules@[i]);
            assert(t.nodes()[i] == t.rules@[i]@);
        } else if i < m.prefix@.len() + m.repl@.len() {
            let k = ra + i - m.prefix@.len();
            assert(all[i] == o.rules@[k]);
            assert(o.nodes()[k] == o.rules@[k]@);
        } else {
            let k = pa + i - m.prefix@.len() - m.repl@.len();
            assert(all[i] == t.rules@[k]);
            assert(t.nodes()[k] == t.rules@[k]@);
        }
    }
}

impl<'a> TreeMutation<'a> {
    /// Materializes the view into a tree of its own.
    pub fn to_tree(&self, ctx: &Context) -> (r: Option<Tree>)
        requires
            self.inv(),
            nodes_valid(ctx.grammar(), self.nodes()),
        ensures
            r matches Some(t) ==> t.nodes() == self.nodes() && tree_wf(&t, ctx.grammar())
                && parents_spec(ctx.grammar(), t.nodes()) == Some(t.paren@),
            r is None <==> parents_spec(ctx.grammar(), self.nodes()) is None,
    {
        let n = self.size();
        let mut v: Vec<NormalOrCustomRule> = Vec::new();
        let mut i: usize = 0;
        while i < n
            invariant
                self.inv(),
                n == self.nodes().len(),
                i <= n,
                v@.len() == i,
                forall|j: int| 0 <= j < i ==> (#[trigger] v@[j])@ == self.nodes()[j],
            decreases n - i,
        {
            v.push(self.get_node(i).duplicate());
            i = i + 1;
        }
        assert(v@.map_values(|x: NormalOrCustomRule| x@) =~= self.nodes());
        Tree::from_rule_vec(v, ctx)
    }

    /// The bytes of the spliced tree; `None` when it is not a valid tree.
    pub fn unparse_to_vec(&self, ctx: &Context) -> (r: Option<Vec<u8>>)
        requires
            self.inv(),
            nodes_valid(ctx.grammar(), self.nodes()),
        ensures
            r matches Some(v) ==> unparse_spec(ctx.grammar(), self.nodes(), 0) == Some(v@),
            r is None ==> unparse_spec(ctx.grammar(), self.nodes(), 0) is None,
    {
        unparse_node_to_vec(self, 0, ctx)
    }
}

/// Unparsing is deterministic: two trees with the same node rules, over the
/// same grammar, give the same bytes (or are both rejected).
pub proof fn lemma_unparse_deterministic(t1: Tree, t2: Tree, grammar: Seq<RuleView>, n: int)
    requires
        t1.nodes() == t2.nodes(),
    ensures
        unparse_spec(grammar, t1.nodes(), n) == unparse_spec(grammar, t2.nodes(), n),
{
}

/// Unparsing a spliced view gives the same bytes as unparsing the tree that
/// `to_tree` materializes from it.
pub proof fn lemma_mutation_unparse(m: TreeMutation, t: Tree, grammar: Seq<RuleView>)
    requires
        t.nodes() == m.nodes(),
    ensures
        unparse_spec(grammar, m.nodes(), 0) == unparse_spec(grammar, t.nodes(), 0),
{
}

impl Tree {
    /// The bytes of the tree; `None` when it is not a valid tree.
    pub fn unparse_to_vec(&self, ctx: &Context) -> (r: Option<Vec<u8>>)
        requires
            nodes_valid(ctx.grammar(), self.nodes()),
        ensures
            r matches Some(v) ==> unparse_spec(ctx.grammar(), self.nodes(), 0) == Some(v@),
            r is None ==> unparse_spec(ctx.grammar(), self.nodes(), 0) is None,
    {
        unparse_node_to_vec(self, 0, ctx)
    }

    /// Pairs `(ancestor, node)` of nodes with the same nonterminal, looking
    /// at most 17 levels up from each of the last 9,999 nodes (the root is
    /// never taken as the ancestor); `None` when there are none.
    pub fn has_recursions(&self, ctx: &Context) -> (r: Option<Vec<(NodeID, NodeID)>>)
        requires
            tree_wf(self, ctx.grammar()),
        ensures
            r matches Some(v) ==> v@.len() > 0 && recursion_pairs(self, ctx.grammar(), v@)
                && recursions_complete(self, ctx.grammar(), v@),
            r is None ==> recursions_complete(self, ctx.grammar(), Seq::empty()),
    {
        let recursions = self.find_recursions_iter(ctx);
        if recursions.len() == 0 {
            proof {
                assert(recursions@ =~= Seq::<(NodeID, NodeID)>::empty());
            }
            return None;
        }
        Some(recursions)
    }

    fn find_recursions_iter(&self, ctx: &Context) -> (r: Vec<(NodeID, NodeID)>)
        requires
            tree_wf(self, ctx.grammar()),
        ensures
            recursion_pairs(self, ctx.grammar(), r@),
            recursions_complete(self, ctx.grammar(), r@),
    {
        let mut found: Vec<(NodeID, NodeID)> = Vec::new();
        let size = self.rules.len();
        assert(self.nodes().len() == size);
        let limit: usize = if size < 10000 { size } else { 10000 };
        let mut i: usize = 1;
        let ghost g = ctx.grammar();
        while i < limit
            invariant
                tree_wf(self, ctx.grammar()),
                g == ctx.grammar(),
                size == self.rules@.len(),
                size == self.nodes().len(),
                size == self.paren@.len(),
                1 <= i,
                limit <= size,
                limit == (if size < 10000 { size } else { 10000 }),
                i <= limit || limit <= 1,
                recursion_pairs(self, g, found@),
                forall|c: int, d: int| size - i < c < size && c > size - limit && walked(self.paren@, c, d)
                    && resolve(g, self.nodes()[ancestor(self.paren@, c, d)]).nonterm == resolve(g, self.nodes()[c]).nonterm
                    ==> found@.contains((ancestor(self.paren@, c, d) as NodeID, c as NodeID)),
            decreases limit - i,
        {
            let node_id = size - i;
            let nterm = get_rule(self, node_id, ctx).nonterm;
            let mut cur = self.paren[node_id];
            let mut depth: usize = 0;
            let ghost before = found@;
            while cur != 0 && depth <= 16
                invariant
                    tree_wf(self, ctx.grammar()),
                    g == ctx.grammar(),
                    size == self.rules@.len(),
                    size == self.nodes().len(),
                    size == self.paren@.len(),
                    0 < node_id < size,
                    cur < node_id,
                    depth <= 17,
                    depth <= 16 ==> cur == ancestor(self.paren@, node_id as int, depth as int),
                    forall|e: int| 0 <= e < depth ==> #[trigger] ancestor(self.paren@, node_id as int, e) != 0,
                    nterm == resolve(g, self.nodes()[node_id as int]).nonterm,
                    recursion_pairs(self, g, found@),
                    forall|x: (NodeID, NodeID)| before.contains(x) ==> found@.contains(x),
                    forall|e: int| 0 <= e < depth && resolve(g, self.nodes()[ancestor(self.paren@, node_id as int, e)]).nonterm == nterm
                        ==> found@.contains((#[trigger] ancestor(self.paren@, node_id as int, e) as NodeID, node_id)),
                decreases 17 - depth,
            {
                proof {
                    lemma_ancestor_below(self.paren@, node_id as int, depth as int);
                }
                let ghost f0 = found@;
                let same = get_rule(self, cur, ctx).nonterm == nterm;
                if same {
                    found.push((cur, node_id));
                }
                proof {
                    assert forall|x: (NodeID, NodeID)| f0.contains(x) implies found@.contains(x) by {
                        if f0.contains(x) {
                            let k = choose|k: int| 0 <= k < f0.len() && f0[k] == x;
                            assert(found@[k] == x);
                        }
                    }
                    if same {
                        assert(found@[found@.len() - 1] == (cur, node_id));
                    }
                }
                if depth < 16 {
                    cur = self.paren[cur];
                }
                depth = depth + 1;
            }
            proof {
                assert forall|c: int, d: int| size - (i + 1) < c < size && c > size - limit && walked(self.paren@, c, d)
                    && resolve(g, self.nodes()[ancestor(self.paren@, c, d)]).nonterm == resolve(g, self.nodes()[c]).nonterm
                    implies found@.contains((ancestor(self.paren@, c, d) as NodeID, c as NodeID)) by {
                    if c == node_id {
                        if d >= depth as int {
                            assert(depth <= 16);
                            assert(ancestor(self.paren@, c, depth as int) == 0);
                        }
                    } else {
                        assert(before.contains((ancestor(self.paren@, c, d) as NodeID, c as NodeID)));
                    }
                }
            }
            i = i + 1;
        }
        proof {
            assert forall|c: int, d: int| size - limit < c < size && walked(self.paren@, c, d)
                && resolve(g, self.nodes()[ancestor(self.paren@, c, d)]).nonterm == resolve(g, self.nodes()[c]).nonterm
                implies found@.contains((ancestor(self.paren@, c, d) as NodeID, c as NodeID)) by {
                assert(size - i < c);
            }
        }
        found
    }
}

/// The `d`-th ancestor of node `c`: its parent for `d == 0`.
pub open spec fn ancestor(paren: Seq<usize>, c: int, d: int) -> int
    decreases d,
{
    if d <= 0 { paren[c] as int } else { paren[ancestor(paren, c, d - 1)] as int }
}

/// The scan from node `c` reaches its `d`-th ancestor: at most 17 levels,
/// stopping at the root.
pub open spec fn walked(paren: Seq<usize>, c: int, d: int) -> bool {
    0 <= d <= 16 && forall|e: int| 0 <= e <= d ==> #[trigger] ancestor(paren, c, e) != 0
}

proof fn lemma_ancestor_below(paren: Seq<usize>, c: int, d: int)
    requires
        parents_ordered(paren),
        0 < c < paren.len(),
        d >= 0,
        forall|e: int| 0 <= e < d ==> #[trigger] ancestor(paren, c, e) != 0,
    ensures
        0 <= ancestor(paren, c, d) < c,
    decreases d,
{
    if d > 0 {
        lemma_ancestor_below(paren, c, d - 1);
        assert(ancestor(paren, c, d - 1) != 0);
    }
}

/// Every pair that the scan reaches, of a scanned node and an ancestor with
/// the same nonterminal, is in `v`. The scanned nodes are the last 9,999.
pub open spec fn recursions_complete(t: &Tree, grammar: Seq<RuleView>, v: Seq<(NodeID, NodeID)>) -> bool {
    let size = t.rules@.len() as int;
    let limit = if size < 10000 { size } else { 10000 };
    forall|c: int, d: int| size - limit < c < size && walked(t.paren@, c, d)
        && resolve(grammar, t.nodes()[ancestor(t.paren@, c, d)]).nonterm == resolve(grammar, t.nodes()[c]).nonterm
        ==> v.contains((ancestor(t.paren@, c, d) as NodeID, c as NodeID))
}

/// Each pair is an earlier and a later node of `t` with the same nonterminal.
pub open spec fn recursion_pairs(t: &Tree, grammar: Seq<RuleView>, v: Seq<(NodeID, NodeID)>) -> bool {
    forall|k: int| 0 <= k < v.len() ==> {
        let (p, c) = #[trigger] v[k];
        &&& p < c < t.nodes().len()
        &&& resolve(grammar, t.nodes()[p as int]).nonterm == resolve(grammar, t.nodes()[c as int]).nonterm
    }
}

/// The stack of pending references after replaying nodes `i..j` from
/// stack `st`; `None` when a node does not match the reference it expands.
pub open spec fn run_stack(
    g: Seq<RuleView>,
    nodes: Seq<NodeRuleView>,
    i: int,
    j: int,
    st: Seq<(NTermID, NodeID)>,
) -> Option<Seq<(NTermID, NodeID)>>
    decreases j - i,
{
    if i >= j || i < 0 {
        Some(st)
    } else if st.len() == 0 {
        None
    } else {
        let (nt, node) = st.last();
        let rule = resolve(g, nodes[i]);
        if nt != rule.nonterm {
            None
        } else {
            run_stack(g, nodes, i + 1, j, st.drop_last() + rev_nts(rule.children, i as NodeID))
        }
    }
}

/// Replaying `i..j` is replaying `i..k`, then `k..j`.
pub proof fn lemma_run_compose(g: Seq<RuleView>, nodes: Seq<NodeRuleView>, i: int, k: int, j: int, st: Seq<(NTermID, NodeID)>)
    requires
        0 <= i <= k <= j,
    ensures
        run_stack(g, nodes, i, j, st) == match run_stack(g, nodes, i, k, st) {
            Some(s2) => run_stack(g, nodes, k, j, s2),
            None => None,
        },
    decreases k - i,
{
    if i < k && st.len() > 0 {
        let (nt, node) = st.last();
        let rule = resolve(g, nodes[i]);
        if nt == rule.nonterm {
            lemma_run_compose(g, nodes, i + 1, k, j, st.drop_last() + rev_nts(rule.children, i as NodeID));
        }
    }
}

/// Replaying `i..j` reads only those nodes.
pub proof fn lemma_run_frame(g: Seq<RuleView>, n1: Seq<NodeRuleView>, n2: Seq<NodeRuleView>, i: int, j: int, st: Seq<(NTermID, NodeID)>)
    requires
        0 <= i <= j,
        j <= n1.len(),
        j <= n2.len(),
        forall|k: int| i <= k < j ==> n1[k] == n2[k],
    ensures
        run_stack(g, n1, i, j, st) == run_stack(g, n2, i, j, st),
    decreases j - i,
{
    if i < j && st.len() > 0 {
        let rule = resolve(g, n1[i]);
        lemma_run_frame(g, n1, n2, i + 1, j, st.drop_last() + rev_nts(rule.children, i as NodeID));
    }
}

/// A replay to the end without mismatch yields parent links.
pub proof fn lemma_run_parents(g: Seq<RuleView>, nodes: Seq<NodeRuleView>, i: int, st: Seq<(NTermID, NodeID)>)
    requires
        0 <= i <= nodes.len(),
        run_stack(g, nodes, i, nodes.len() as int, st) is Some,
    ensures
        parents_from(g, nodes, i, st) is Some,
    decreases nodes.len() - i,
{
    if i < nodes.len() {
        let (nt, node) = st.last();
        let rule = resolve(g, nodes[i]);
        lemma_run_parents(g, nodes, i + 1, st.drop_last() + rev_nts(rule.children, i as NodeID));
    }
}

/// The pushed references are the rule's references, last first.
pub proof fn lemma_rev_nts(cs: Seq<ChildView>, node: NodeID)
    ensures
        rev_nts(cs, node).len() == crate::rule::nonterms_of(cs).len(),
        forall|k: int| 0 <= k < crate::rule::nonterms_of(cs).len() ==>
            #[trigger] rev_nts(cs, node)[rev_nts(cs, node).len() - 1 - k] == (crate::rule::nonterms_of(cs)[k], node),
    decreases cs.len(),
{
    if cs.len() > 0 {
        lemma_rev_nts(cs.drop_last(), node);
        let rest = rev_nts(cs.drop_last(), node);
        let nr = crate::rule::nonterms_of(cs.drop_last());
        match cs.last() {
            ChildView::NTerm(nt) => {
                let all = seq![(nt, node)] + rest;
                assert forall|k: int| 0 <= k < nr.len() + 1 implies
                    #[trigger] all[all.len() - 1 - k] == (nr.push(nt)[k], node) by {
                    if k < nr.len() {
                        assert(all[all.len() - 1 - k] == rest[rest.len() - 1 - k]);
                    }
                }
            },
            _ => {},
        }
    }
}

} // verus!
