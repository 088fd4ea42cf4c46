//! Grammar rules: a left-hand nonterminal and a right-hand side of terminals
//! and nonterminal references.
use vstd::prelude::*;
use vstd::string::StringSliceAdditionalSpecFns;
use crate::newtypes::{bytes_of, copy_bytes, copy_ids, NTermID, RuleID};

verus! {

/// One element of a rule's right-hand side.
#[derive(Debug, PartialEq, Eq)]
pub enum RuleChild {
    /// Literal bytes of the grammar.
    Term(Vec<u8>),
    /// Bytes produced by havoc mutation.
    CustomTerm(Vec<u8>),
    /// A reference to a nonterminal.
    NTerm(NTermID),
}

/// The mathematical value of a `RuleChild`.
pub enum ChildView {
    Term(Seq<u8>),
    CustomTerm(Seq<u8>),
    NTerm(NTermID),
}

impl View for RuleChild {
    type V = ChildView;

    open spec fn view(&self) -> ChildView {
        match self {
            RuleChild::Term(d) => ChildView::Term(d@),
            RuleChild::CustomTerm(d) => ChildView::CustomTerm(d@),
            RuleChild::NTerm(n) => ChildView::NTerm(*n),
        }
    }
}

/// The nonterminal references among `cs`, in order.
pub open spec fn nonterms_of(cs: Seq<ChildView>) -> Seq<NTermID>
    decreases cs.len(),
{
    if cs.len() == 0 {
        Seq::empty()
    } else {
        let rest = nonterms_of(cs.drop_last());
        match cs.last() {
            ChildView::NTerm(n) => rest.push(n),
            _ => rest,
        }
    }
}

/// The mathematical value of a `Rule`.
pub struct RuleView {
    pub nonterm: NTermID,
    pub children: Seq<ChildView>,
}

/// A production `nonterm -> children`.
#[derive(Debug, PartialEq, Eq)]
pub struct Rule {
    pub nonterm: NTermID,
    pub children: Vec<RuleChild>,
    /// The nonterminal references among `children`, kept for fast counting.
    pub nonterms: Vec<NTermID>,
}

impl View for Rule {
    type V = RuleView;

    open spec fn view(&self) -> RuleView {
        RuleView { nonterm: self.nonterm, children: self.children@.map_values(|c: RuleChild| c@) }
    }
}

/// A node's rule: one of the grammar, or a custom one carried in the tree.
#[derive(Debug, PartialEq, Eq)]
pub enum NormalOrCustomRule {
    NormalRule(RuleID),
    CustomRule(Rule),
}

/// The mathematical value of a `NormalOrCustomRule`.
pub enum NodeRuleView {
    NormalRule(RuleID),
    CustomRule(RuleView),
}

impl View for NormalOrCustomRule {
    type V = NodeRuleView;

    open spec fn view(&self) -> NodeRuleView {
        match self {
            NormalOrCustomRule::NormalRule(r) => NodeRuleView::NormalRule(*r),
            NormalOrCustomRule::CustomRule(r) => NodeRuleView::CustomRule(r@),
        }
    }
}

impl NormalOrCustomRule {
    /// The grammar rule of a node, `None` for a custom rule.
    pub fn get_rule_id(&self) -> (r: Option<RuleID>)
        ensures
            r == (match self@ {
                NodeRuleView::NormalRule(id) => Some(id),
                NodeRuleView::CustomRule(_) => None::<RuleID>,
            }),
    {
        match self {
            NormalOrCustomRule::NormalRule(r) => Some(*r),
            NormalOrCustomRule::CustomRule(_) => None,
        }
    }

    /// A copy with the same value.
    pub fn duplicate(&self) -> (r: Self)
        ensures
            r@ == self@,
    {
        match self {
            NormalOrCustomRule::NormalRule(r) => NormalOrCustomRule::NormalRule(*r),
            NormalOrCustomRule::CustomRule(r) => NormalOrCustomRule::CustomRule(r.duplicate()),
        }
    }
}

impl RuleChild {
    /// A terminal child holding the bytes of `lit`.
    pub fn from_lit(lit: &str) -> (r: Self)
        ensures
            r@ == ChildView::Term(lit.spec_bytes()),
    {
        RuleChild::Term(bytes_of(lit))
    }

    /// A copy with the same value.
    pub fn duplicate(&self) -> (r: Self)
        ensures
            r@ == self@,
    {
        match self {
            RuleChild::Term(d) => RuleChild::Term(copy_bytes(d)),
            RuleChild::CustomTerm(d) => RuleChild::CustomTerm(copy_bytes(d)),
            RuleChild::NTerm(n) => RuleChild::NTerm(*n),
        }
    }
}

impl Rule {
    /// Whether the cached `nonterms` are the nonterminal references of `children`.
    pub open spec fn wf(&self) -> bool {
        self.nonterms@ == nonterms_of(self@.children)
    }

    /// The rule `nt -> term` for literal bytes `term`.
    pub fn from_term(ntermid: NTermID, term: &Vec<u8>) -> (r: Self)
        ensures
            r.wf(),
            r@ == (RuleView { nonterm: ntermid, children: seq![ChildView::Term(term@)] }),
    {
        let children = vec![RuleChild::Term(copy_bytes(term))];
        let r = Rule { nonterm: ntermid, children, nonterms: Vec::new() };
        assert(r@.children =~= seq![ChildView::Term(term@)]);
        assert(r@.children.drop_last() =~= Seq::<ChildView>::empty());
        assert(nonterms_of(Seq::<ChildView>::empty()) =~= Seq::<NTermID>::empty());
        assert(r.nonterms@ =~= nonterms_of(r@.children));
        r
    }

    /// The rule `nt -> term` for bytes produced by havoc mutation.
    pub fn from_custom_term(ntermid: NTermID, term: Vec<u8>) -> (r: Self)
        ensures
            r.wf(),
            r@ == (RuleView { nonterm: ntermid, children: seq![ChildView::CustomTerm(term@)] }),
    {
        let ghost t = term@;
        let children = vec![RuleChild::CustomTerm(term)];
        let r = Rule { nonterm: ntermid, children, nonterms: Vec::new() };
        assert(r@.children =~= seq![ChildView::CustomTerm(t)]);
        assert(r@.children.drop_last() =~= Seq::<ChildView>::empty());
        assert(nonterms_of(Seq::<ChildView>::empty()) =~= Seq::<NTermID>::empty());
        assert(r.nonterms@ =~= nonterms_of(r@.children));
        r
    }

    /// A copy with the same value.
    pub fn duplicate(&self) -> (r: Self)
        ensures
            r@ == self@,
            r.nonterms@ == self.nonterms@,
    {
        let mut children: Vec<RuleChild> = Vec::new();
        let mut i: usize = 0;
        while i < self.children.len()
            invariant
                i <= self.children.len(),
                children@.len() == i,
                forall|j: int| 0 <= j < i ==> children@[j]@ == self.children@[j]@,
            decreases self.children.len() - i,
        {
            children.push(self.children[i].duplicate());
            i = i + 1;
        }
        let r = Rule { nonterm: self.nonterm, children, nonterms: copy_ids(&self.nonterms) };
        assert(r@.children =~= self@.children);
        r
    }

    pub fn nonterms(&self) -> (r: &Vec<NTermID>)
        ensures
            r == &self.nonterms,
    {
        &self.nonterms
    }

    pub fn children(&self) -> (r: &Vec<RuleChild>)
        ensures
            r == &self.children,
    {
        &self.children
    }

    /// How many nonterminal references the right-hand side holds.
    pub fn number_of_nonterms(&self) -> (r: usize)
        ensures
            r == self.nonterms@.len(),
    {
        self.nonterms.len()
    }

    /// The left-hand side.
    pub fn nonterm(&self) -> (r: NTermID)
        ensures
            r == self.nonterm,
    {
        self.nonterm
    }
}

} // verus!
