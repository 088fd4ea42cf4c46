//! A pool of small subtrees per nonterminal, the donors for splicing.
use vstd::prelude::*;
use crate::context::Context;
use crate::newtypes::{NodeID, NTermID, RuleID};
use crate::random::random_below;
use crate::rule::NodeRuleView;
use crate::tree::{get_rule, resolve, tree_wf, Tree, TreeLike};

verus! {

/// Largest subtree kept as a chunk.
pub const MAX_CHUNK_SIZE: usize = 30;

/// Trees harvested from the queue and, per nonterminal, the locations
/// `(tree index, node)` of their small subtrees.
pub struct ChunkStore {
    pub nts_to_chunks: Vec<Vec<(usize, NodeID)>>,
    pub trees: Vec<Tree>,
}

/// Every list of `a` is a prefix of the list of `b` for the same nonterminal.
pub open spec fn chunks_kept(a: Seq<Vec<(usize, NodeID)>>, b: Seq<Vec<(usize, NodeID)>>) -> bool {
    &&& a.len() <= b.len()
    &&& forall|nt: int| 0 <= nt < a.len() ==> #[trigger] b[nt]@.len() >= a[nt]@.len()
        && b[nt]@.subrange(0, a[nt]@.len() as int) == a[nt]@
}

/// The nonterminal at node `n` of `t`.
pub open spec fn nt_at(t: &Tree, grammar: Seq<crate::rule::RuleView>, n: int) -> NTermID {
    resolve(grammar, t.nodes()[n]).nonterm
}

impl ChunkStore {
    /// Every chunk points at a node of a stored tree.
    pub open spec fn wf(&self) -> bool {
        forall|nt: int, j: int| 0 <= nt < self.nts_to_chunks@.len() && 0 <= j < self.nts_to_chunks@[nt]@.len() ==> {
            let (tid, nid) = #[trigger] self.nts_to_chunks@[nt]@[j];
            tid < self.trees@.len() && nid < self.trees@[tid as int].rules@.len()
        }
    }

    /// Every stored chunk of `nt` has rule `r` at its root (or there is none).
    pub open spec fn no_alternative(&self, nt: NTermID, r: RuleID) -> bool {
        !(nt < self.nts_to_chunks@.len()) || forall|j: int|
            0 <= j < self.nts_to_chunks@[nt as int]@.len() ==> {
                let (tid, nid) = #[trigger] self.nts_to_chunks@[nt as int]@[j];
                self.trees@[tid as int].nodes()[nid as int] == NodeRuleView::NormalRule(r)
            }
    }

    pub fn new() -> (r: Self)
        ensures
            r.wf(),
            r.trees@.len() == 0,
            r.nts_to_chunks@.len() == 0,
    {
        ChunkStore { nts_to_chunks: Vec::new(), trees: Vec::new() }
    }

    /// Stores `tree` and records each of its nodes whose subtree has at most
    /// 30 nodes under the node's nonterminal.
    pub fn add_tree(&mut self, tree: Tree, ctx: &Context)
        requires
            old(self).wf(),
            tree_wf(&tree, ctx.grammar()),
        ensures
            final(self).wf(),
            final(self).trees@ == old(self).trees@.push(tree),
            forall|n: int| 0 <= n < tree.rules@.len() && #[trigger] tree.sizes@[n] <= MAX_CHUNK_SIZE ==> {
                let nt = nt_at(&tree, ctx.grammar(), n);
                &&& nt < final(self).nts_to_chunks@.len()
                &&& final(self).nts_to_chunks@[nt as int]@.contains((old(self).trees@.len() as usize, n as NodeID))
            },
            forall|nt: int, j: int| 0 <= nt < final(self).nts_to_chunks@.len() && 0 <= j < final(self).nts_to_chunks@[nt]@.len()
                && (#[trigger] final(self).nts_to_chunks@[nt]@[j]).0 == old(self).trees@.len() ==> ({
                    let nid = final(self).nts_to_chunks@[nt]@[j].1 as int;
                    tree.sizes@[nid] <= MAX_CHUNK_SIZE && nt_at(&tree, ctx.grammar(), nid) == nt
                }),
            chunks_kept(old(self).nts_to_chunks@, final(self).nts_to_chunks@),
    {
        let id = self.trees.len();
        let size = tree.rules.len();
        let ghost g = ctx.grammar();
        assert(tree.nodes().len() == size);
        proof {
            assert forall|nt: int| 0 <= nt < self.nts_to_chunks@.len() implies
                #[trigger] self.nts_to_chunks@[nt]@.len() >= self.nts_to_chunks@[nt]@.len()
                && self.nts_to_chunks@[nt]@.subrange(0, self.nts_to_chunks@[nt]@.len() as int) == self.nts_to_chunks@[nt]@ by {
                assert(self.nts_to_chunks@[nt]@.subrange(0, self.nts_to_chunks@[nt]@.len() as int) =~= self.nts_to_chunks@[nt]@);
            }
        }
        let mut i: usize = 0;
        while i < size
            invariant
                i <= size,
                size == tree.rules@.len(),
                size == tree.nodes().len(),
                tree_wf(&tree, g),
                g == ctx.grammar(),
                id == self.trees@.len(),
                self.trees@ == old(self).trees@,
                forall|n: int| 0 <= n < i && #[trigger] tree.sizes@[n] <= MAX_CHUNK_SIZE ==> {
                    let nt = nt_at(&tree, g, n);
                    &&& nt < self.nts_to_chunks@.len()
                    &&& self.nts_to_chunks@[nt as int]@.contains((id, n as NodeID))
                },
                forall|nt: int, j: int| 0 <= nt < self.nts_to_chunks@.len() && 0 <= j < self.nts_to_chunks@[nt]@.len() ==> {
                    let (tid, nid) = #[trigger] self.nts_to_chunks@[nt]@[j];
                    (tid < id && nid < self.trees@[tid as int].rules@.len()) || (tid == id && nid < size
                        && tree.sizes@[nid as int] <= MAX_CHUNK_SIZE && nt_at(&tree, g, nid as int) == nt)
                },
                chunks_kept(old(self).nts_to_chunks@, self.nts_to_chunks@),
            decreases size - i,
        {
            if tree.sizes[i] <= MAX_CHUNK_SIZE {
                let nt = get_rule(&tree, i, ctx).nonterm;
                let ghost pre = self.nts_to_chunks@;
                while self.nts_to_chunks.len() <= nt
                    invariant
                        self.trees@ == old(self).trees@,
                        self.nts_to_chunks@.len() >= pre.len(),
                        forall|m: int| 0 <= m < pre.len() ==> #[trigger] self.nts_to_chunks@[m] == pre[m],
                        forall|m: int| pre.len() <= m < self.nts_to_chunks@.len() ==> (#[trigger] self.nts_to_chunks@[m])@.len() == 0,
                    decreases nt + 1 - self.nts_to_chunks@.len(),
                {
                    self.nts_to_chunks.push(Vec::new());
                }
                let ghost mid = self.nts_to_chunks@;
                let mut list = copy_pairs(&self.nts_to_chunks[nt]);
                list.push((id, i));
                self.nts_to_chunks.set(nt, list);
                proof {
                    let a = old(self).nts_to_chunks@;
                    assert forall|m: int| 0 <= m < a.len() implies #[trigger] self.nts_to_chunks@[m]@.len() >= a[m]@.len()
                        && self.nts_to_chunks@[m]@.subrange(0, a[m]@.len() as int) == a[m]@ by {
                        assert(pre[m]@.len() >= a[m]@.len() && pre[m]@.subrange(0, a[m]@.len() as int) == a[m]@);
                        assert(mid[m] == pre[m]);
                        if m == nt {
                            assert(self.nts_to_chunks@[m]@ == mid[m]@.push((id, i)));
                            assert(self.nts_to_chunks@[m]@.subrange(0, a[m]@.len() as int) =~= pre[m]@.subrange(0, a[m]@.len() as int));
                        }
                    }
                    assert forall|m: int, j: int| 0 <= m < self.nts_to_chunks@.len() && 0 <= j < self.nts_to_chunks@[m]@.len() implies {
                        let (tid, nid) = #[trigger] self.nts_to_chunks@[m]@[j];
                        (tid < id && nid < self.trees@[tid as int].rules@.len()) || (tid == id && nid < size
                            && tree.sizes@[nid as int] <= MAX_CHUNK_SIZE && nt_at(&tree, g, nid as int) == m)
                    } by {
                        if m < pre.len() && !(m == nt && j == mid[m]@.len()) {
                            assert(self.nts_to_chunks@[m]@[j] == pre[m]@[j]);
                        }
                    }
                    assert forall|n: int| 0 <= n < i + 1 && #[trigger] tree.sizes@[n] <= MAX_CHUNK_SIZE implies {
                        let nt2 = nt_at(&tree, g, n);
                        &&& nt2 < self.nts_to_chunks@.len()
                        &&& self.nts_to_chunks@[nt2 as int]@.contains((id, n as NodeID))
                    } by {
                        if n < i {
                            let nt2 = nt_at(&tree, g, n);
                            assert(pre[nt2 as int]@.contains((id, n as NodeID)));
                            let j2 = choose|j2: int| 0 <= j2 < pre[nt2 as int]@.len() && pre[nt2 as int]@[j2] == (id, n as NodeID);
                            assert(mid[nt2 as int] == pre[nt2 as int]);
                            if nt2 == nt {
                                assert(self.nts_to_chunks@[nt2 as int]@ == mid[nt2 as int]@.push((id, i)));
                            }
                            assert(self.nts_to_chunks@[nt2 as int]@[j2] == (id, n as NodeID));
                        } else {
                            assert(self.nts_to_chunks@[nt as int]@[mid[nt as int]@.len() as int] == (id, i));
                        }
                    }
                }
            }
            i = i + 1;
        }
        self.trees.push(tree);
        proof {
            assert forall|nt: int, j: int| 0 <= nt < self.nts_to_chunks@.len() && 0 <= j < self.nts_to_chunks@[nt]@.len() implies {
                let (tid, nid) = #[trigger] self.nts_to_chunks@[nt]@[j];
                tid < self.trees@.len() && nid < self.trees@[tid as int].rules@.len()
            } by {
                let (tid, nid) = self.nts_to_chunks@[nt]@[j];
                if tid < id {
                    assert(self.trees@[tid as int] == old(self).trees@[tid as int]);
                }
                assert(self.trees@[id as int] == tree);
            }
        }
    }

    /// A stored subtree for the nonterminal of rule `r` whose root has a rule
    /// other than `r`, drawn uniformly; `None` when there is none.
    pub fn get_alternative_to<'a>(&'a self, r: RuleID, ctx: &Context) -> (res: Option<(&'a Tree, NodeID)>)
        requires
            self.wf(),
            r < ctx.rules@.len(),
        ensures
            res matches Some((t, nid)) ==> exists|tid: int| 0 <= tid < self.trees@.len() && *t == self.trees@[tid]
                && nid < t.rules@.len() && t.nodes()[nid as int] != NodeRuleView::NormalRule(r)
                && ctx.rules@[r as int].nonterm < self.nts_to_chunks@.len()
                && self.nts_to_chunks@[ctx.rules@[r as int].nonterm as int]@.contains((tid as usize, nid)),
            res is None <==> self.no_alternative(ctx.rules@[r as int].nonterm, r),
    {
        let nt = ctx.get_nt(r);
        if nt >= self.nts_to_chunks.len() {
            return None;
        }
        let chunks = &self.nts_to_chunks[nt];
        let mut relevant: Vec<(usize, NodeID)> = Vec::new();
        let mut j: usize = 0;
        while j < chunks.len()
            invariant
                self.wf(),
                nt < self.nts_to_chunks@.len(),
                chunks == &self.nts_to_chunks@[nt as int],
                j <= chunks@.len(),
                forall|k: int| 0 <= k < relevant@.len() ==> {
                    let (tid, nid) = #[trigger] relevant@[k];
                    &&& chunks@.contains((tid, nid))
                    &&& tid < self.trees@.len()
                    &&& nid < self.trees@[tid as int].rules@.len()
                    &&& self.trees@[tid as int].nodes()[nid as int] != NodeRuleView::NormalRule(r)
                },
                relevant@.len() == 0 ==> forall|k: int| 0 <= k < j ==> {
                    let (tid, nid) = #[trigger] chunks@[k];
                    self.trees@[tid as int].nodes()[nid as int] == NodeRuleView::NormalRule(r)
                },
            decreases chunks@.len() - j,
        {
            let (tid, nid) = chunks[j];
            let keep = match self.trees[tid].rules[nid].get_rule_id() {
                Some(x) => x != r,
                None => true,
            };
            if keep {
                relevant.push((tid, nid));
            }
            j = j + 1;
        }
        if relevant.len() == 0 {
            return None;
        }
        let k = random_below(relevant.len() as u64) as usize;
        let (tid, nid) = relevant[k];
        Some((&self.trees[tid], nid))
    }

    /// The number of stored trees.
    pub fn trees(&self) -> (r: usize)
        ensures
            r == self.trees@.len(),
    {
        self.trees.len()
    }
}

fn copy_pairs(v: &Vec<(usize, NodeID)>) -> (r: Vec<(usize, NodeID)>)
    ensures
        r@ == v@,
{
    let mut r: Vec<(usize, NodeID)> = Vec::new();
    let mut i: usize = 0;
    while i < v.len()
        invariant
            i <= v.len(),
            r@ == v@.subrange(0, i as int),
        decreases v.len() - i,
    {
        r.push(v[i]);
        i = i + 1;
        assert(r@ =~= v@.subrange(0, i as int));
    }
    assert(r@ =~= v@);
    r
}

} // verus!
