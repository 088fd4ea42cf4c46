//! The grammar database: rules, nonterminals, size tables and samplers.
use vstd::prelude::*;
use vstd::string::StringSliceAdditionalSpecFns;
use crate::counts::{calc_counts, counts_ok, rhs_off, rlen};
use crate::format::{parse_format, parse_from, FormatPart, PartView};
use crate::newtypes::{bytes_of, copy_bytes, copy_ids, copy_table, copy_vec, NTermID, RuleID};
use crate::rule::{nonterms_of, ChildView, Rule, RuleChild, RuleView};

verus! {

/// Why a grammar cannot be used.
#[derive(Debug, Clone, Copy, PartialEq, Eq, Structural)]
pub enum GrammarError {
    /// A `{...}` reference in a rule format is not `{Name}` or `{Name:alias}`.
    BadReference,
    /// Some rule has no finite derivation.
    Unproductive,
    /// The count tables would not fit in memory.
    TooLarge,
}

/// The grammar and the tables computed from it.
pub struct Context {
    pub rules: Vec<Rule>,
    /// For each nonterminal, its rules; sorted by minimal size after `initialize`.
    pub nts_to_rules: Vec<Vec<RuleID>>,
    /// For each nonterminal, its name.
    pub nt_ids_to_name: Vec<Vec<u8>>,
    /// For each rule, the size of its smallest derivation (0 before `initialize`).
    pub rules_to_min_size: Vec<usize>,
    /// For each nonterminal, the size of its smallest derivation.
    pub nts_to_min_size: Vec<usize>,
    /// `nt_and_n_to_count[n][nt]`: trees of size `n` from `nt`, saturated at
    /// `u16::MAX` (see `counts`).
    pub nt_and_n_to_count: Vec<Vec<u16>>,
    /// `rhs_and_n_to_count[n]`: for each rule and each tail of its references,
    /// the expansions into exactly `n` nodes, saturated at `u32::MAX` (see `counts`).
    pub rhs_and_n_to_count: Vec<Vec<u32>>,
    pub max_len: usize,
    pub dumb: bool,
}

/// Equality of byte strings.
pub fn bytes_eq(a: &Vec<u8>, b: &Vec<u8>) -> (r: bool)
    ensures
        r == (a@ == b@),
{
    if a.len() != b.len() {
        return false;
    }
    let mut i: usize = 0;
    while i < a.len()
        invariant
            i <= a.len(),
            a.len() == b.len(),
            forall|j: int| 0 <= j < i ==> a@[j] == b@[j],
        decreases a.len() - i,
    {
        if a[i] != b[i] {
            return false;
        }
        i = i + 1;
    }
    assert(a@ =~= b@);
    true
}

/// Every nonterminal reference of `cs` is below `n`.
pub open spec fn refs_below(cs: Seq<ChildView>, n: int) -> bool {
    forall|k: int| 0 <= k < cs.len() ==> (#[trigger] cs[k] matches ChildView::NTerm(x) ==> x < n)
}

impl Context {
    /// The rules of the grammar.
    pub open spec fn grammar(&self) -> Seq<RuleView> {
        self.rules@.map_values(|r: Rule| r@)
    }

    /// The names of the nonterminals.
    pub open spec fn names(&self) -> Seq<Seq<u8>> {
        self.nt_ids_to_name@.map_values(|v: Vec<u8>| v@)
    }

    pub open spec fn num_nts(&self) -> int {
        self.nt_ids_to_name@.len() as int
    }

    /// The structural invariant: rules name existing nonterminals, cache their
    /// references, and are listed under their left-hand side.
    pub open spec fn wf(&self) -> bool {
        &&& self.nts_to_rules@.len() == self.nt_ids_to_name@.len()
        &&& forall|i: int, j: int| 0 <= i < j < self.num_nts() ==> self.names()[i] != self.names()[j]
        &&& forall|r: int| 0 <= r < self.rules@.len() ==> {
            &&& (#[trigger] self.rules@[r]).wf()
            &&& self.rules@[r].nonterm < self.num_nts()
            &&& refs_below(self.rules@[r]@.children, self.num_nts())
        }
        &&& forall|nt: int, k: int| 0 <= nt < self.num_nts() && 0 <= k < self.nts_to_rules@[nt]@.len() ==> {
            &&& #[trigger] self.nts_to_rules@[nt]@[k] < self.rules@.len()
            &&& self.rules@[self.nts_to_rules@[nt]@[k] as int].nonterm == nt
        }
        &&& forall|r: int| 0 <= r < self.rules@.len() ==> self.nts_to_rules@[(#[trigger] self.rules@[r]).nonterm as int]@.contains(r as RuleID)
        &&& self.rules@.len() <= usize::MAX
    }

    /// An empty grammar.
    pub fn new() -> (r: Self)
        ensures
            r.wf(),
            r.rules@.len() == 0,
            r.num_nts() == 0,
            !r.dumb,
    {
        Self::with_dump(false)
    }

    /// An empty grammar; `dumb` selects uniform sampling.
    pub fn with_dump(dumb: bool) -> (r: Self)
        ensures
            r.wf(),
            r.rules@.len() == 0,
            r.num_nts() == 0,
            r.dumb == dumb,
    {
        Context {
            rules: Vec::new(),
            nts_to_rules: Vec::new(),
            nt_ids_to_name: Vec::new(),
            rules_to_min_size: Vec::new(),
            nts_to_min_size: Vec::new(),
            nt_and_n_to_count: Vec::new(),
            rhs_and_n_to_count: Vec::new(),
            max_len: 0,
            dumb,
        }
    }

    pub fn get_rule(&self, r: RuleID) -> (res: &Rule)
        requires
            r < self.grammar().len(),
        ensures
            res@ == self.grammar()[r as int],
            res == &self.rules@[r as int],
    {
        &self.rules[r]
    }

    /// The left-hand side of rule `r`.
    pub fn get_nt(&self, r: RuleID) -> (res: NTermID)
        requires
            r < self.rules@.len(),
        ensures
            res == self.rules@[r as int].nonterm,
    {
        self.rules[r].nonterm
    }

    /// The number of nonterminal references of rule `r`.
    pub fn get_num_children(&self, r: RuleID) -> (res: usize)
        requires
            r < self.rules@.len(),
        ensures
            res == self.rules@[r as int].nonterms@.len(),
    {
        self.rules[r].number_of_nonterms()
    }

    pub fn is_dumb(&self) -> (r: bool)
        ensures
            r == self.dumb,
    {
        self.dumb
    }

    /// The id of the nonterminal called `name`, if there is one.
    pub fn find_nt(&self, name: &Vec<u8>) -> (r: Option<NTermID>)
        ensures
            r matches Some(id) ==> id < self.num_nts() && self.names()[id as int] == name@,
            r is None ==> forall|i: int| 0 <= i < self.num_nts() ==> self.names()[i] != name@,
    {
        let mut i: usize = 0;
        while i < self.nt_ids_to_name.len()
            invariant
                i <= self.nt_ids_to_name@.len(),
                forall|j: int| 0 <= j < i ==> self.names()[j] != name@,
            decreases self.nt_ids_to_name@.len() - i,
        {
            if bytes_eq(&self.nt_ids_to_name[i], name) {
                return Some(i);
            }
            i = i + 1;
        }
        None
    }

    /// The id of the nonterminal called `nt`, if there is one.
    pub fn nt_id(&self, nt: &str) -> (r: Option<NTermID>)
        ensures
            r matches Some(id) ==> id < self.num_nts() && self.names()[id as int] == nt.spec_bytes(),
            r is None ==> forall|i: int| 0 <= i < self.num_nts() ==> self.names()[i] != nt.spec_bytes(),
    {
        let name = bytes_of(nt);
        self.find_nt(&name)
    }

    /// The name of nonterminal `nt`.
    pub fn nt_id_to_s(&self, nt: NTermID) -> (r: Vec<u8>)
        requires
            nt < self.num_nts(),
        ensures
            r@ == self.names()[nt as int],
    {
        copy_bytes(&self.nt_ids_to_name[nt])
    }

    /// The id of the nonterminal called `name`, created if it is new.
    pub fn aquire_nt_id_bytes(&mut self, name: &Vec<u8>) -> (r: NTermID)
        requires
            old(self).wf(),
        ensures
            final(self).wf(),
            r < final(self).num_nts(),
            final(self).names()[r as int] == name@,
            old(self).names().contains(name@) ==> final(self).names() == old(self).names(),
            !old(self).names().contains(name@) ==> final(self).names() == old(self).names().push(name@)
                && r == old(self).num_nts(),
            final(self).rules@ == old(self).rules@,
            final(self).dumb == old(self).dumb,
            forall|nt: int| 0 <= nt < old(self).num_nts() ==> final(self).nts_to_rules@[nt] == old(self).nts_to_rules@[nt],
    {
        match self.find_nt(name) {
            Some(id) => id,
            None => {
                let id = self.nt_ids_to_name.len();
                proof {
                    assert(!self.names().contains(name@));
                }
                self.nt_ids_to_name.push(copy_bytes(name));
                self.nts_to_rules.push(Vec::new());
                proof {
                    assert(self.names() =~= old(self).names().push(name@));
                    assert forall|r: int| 0 <= r < self.rules@.len() implies refs_below(#[trigger] self.rules@[r]@.children, self.num_nts()) by {
                        assert(refs_below(old(self).rules@[r]@.children, old(self).num_nts()));
                    }
                }
                id
            },
        }
    }

    /// The id of the nonterminal called `nt`, created if it is new.
    pub fn aquire_nt_id(&mut self, nt: &str) -> (r: NTermID)
        requires
            old(self).wf(),
        ensures
            final(self).wf(),
            r < final(self).num_nts(),
            final(self).names()[r as int] == nt.spec_bytes(),
            old(self).names().contains(nt.spec_bytes()) ==> final(self).names() == old(self).names(),
            !old(self).names().contains(nt.spec_bytes()) ==> final(self).names() == old(self).names().push(nt.spec_bytes())
                && r == old(self).num_nts(),
            final(self).rules@ == old(self).rules@,
            final(self).dumb == old(self).dumb,
    {
        let name = bytes_of(nt);
        self.aquire_nt_id_bytes(&name)
    }

    /// Appends rule `rule` to the table and lists it under its left-hand side.
    fn push_rule(&mut self, rule: Rule) -> (r: RuleID)
        requires
            old(self).wf(),
            rule.wf(),
            rule.nonterm < old(self).num_nts(),
            refs_below(rule@.children, old(self).num_nts()),
        ensures
            final(self).wf(),
            r == old(self).rules@.len(),
            final(self).rules@ == old(self).rules@.push(rule),
            final(self).names() == old(self).names(),
            final(self).dumb == old(self).dumb,
    {
        let rid = self.rules.len();
        let nt = rule.nonterm;
        self.rules.push(rule);
        let _ = self.rules.len();
        let mut list = copy_ids(&self.nts_to_rules[nt]);
        list.push(rid);
        self.nts_to_rules.set(nt, list);
        proof {
            assert(self.names() =~= old(self).names());
            assert forall|n: int, k: int| 0 <= n < self.num_nts() && 0 <= k < self.nts_to_rules@[n]@.len() implies {
                &&& #[trigger] self.nts_to_rules@[n]@[k] < self.rules@.len()
                &&& self.rules@[self.nts_to_rules@[n]@[k] as int].nonterm == n
            } by {
                if n != nt || k < old(self).nts_to_rules@[n]@.len() {
                    assert(self.nts_to_rules@[n]@[k] == old(self).nts_to_rules@[n]@[k]);
                }
            }
            assert forall|q: int| 0 <= q < self.rules@.len() implies
                self.nts_to_rules@[(#[trigger] self.rules@[q]).nonterm as int]@.contains(q as RuleID) by {
                let m = self.rules@[q].nonterm as int;
                if q == rid {
                    assert(self.nts_to_rules@[m]@.last() == rid);
                } else {
                    assert(self.rules@[q] == old(self).rules@[q]);
                    assert(old(self).nts_to_rules@[m]@.contains(q as RuleID));
                    let j = choose|j: int| 0 <= j < old(self).nts_to_rules@[m]@.len() && old(self).nts_to_rules@[m]@[j] == q as RuleID;
                    assert(self.nts_to_rules@[m]@[j] == q as RuleID);
                }
            }
        }
        rid
    }

    /// Adds the rule `nt -> format`; references in the format name
    /// nonterminals, which are created as needed.
    pub fn add_rule(&mut self, nt: &str, format: &str) -> (r: Result<RuleID, GrammarError>)
        requires
            old(self).wf(),
        ensures
            final(self).wf(),
            final(self).dumb == old(self).dumb,
            r is Err <==> parse_from(format.spec_bytes(), 0) is None,
            r is Err ==> final(self).rules@ == old(self).rules@,
            r matches Ok(id) ==> id == old(self).rules@.len() && final(self).rules@.len() == id + 1
                && final(self).rules@.subrange(0, id as int) == old(self).rules@
                && final(self).names()[final(self).rules@[id as int].nonterm as int] == nt.spec_bytes()
                && parts_match(parse_from(format.spec_bytes(), 0).unwrap(), final(self).grammar()[id as int].children, final(self).names()),
    {
        let fbytes = bytes_of(format);
        let parts = match parse_format(&fbytes) {
            None => {
                return Err(GrammarError::BadReference);
            },
            Some(p) => p,
        };
        let ghost pv = parts@.map_values(|p: FormatPart| p@);
        let mut children: Vec<RuleChild> = Vec::new();
        let mut nonterms: Vec<NTermID> = Vec::new();
        let mut i: usize = 0;
        while i < parts.len()
            invariant
                self.wf(),
                self.rules@ == old(self).rules@,
                self.dumb == old(self).dumb,
                i <= parts@.len(),
                pv == parts@.map_values(|p: FormatPart| p@),
                children@.len() == i,
                nonterms@ == nonterms_of(children@.map_values(|c: RuleChild| c@)),
                refs_below(children@.map_values(|c: RuleChild| c@), self.num_nts()),
                parts_match(pv.subrange(0, i as int), children@.map_values(|c: RuleChild| c@), self.names()),
            decreases parts@.len() - i,
        {
            let ghost before = children@.map_values(|c: RuleChild| c@);
            let ghost names0 = self.names();
            match &parts[i] {
                FormatPart::Literal(lit) => {
                    children.push(RuleChild::Term(copy_bytes(lit)));
                },
                FormatPart::Nonterminal(name) => {
                    let id = self.aquire_nt_id_bytes(name);
                    children.push(RuleChild::NTerm(id));
                    nonterms.push(id);
                },
            }
            proof {
                let after = children@.map_values(|c: RuleChild| c@);
                assert(after.drop_last() =~= before);
                assert(pv.subrange(0, i + 1).drop_last() =~= pv.subrange(0, i as int));
                assert(names0 =~= self.names().subrange(0, names0.len() as int));
                lemma_parts_match_names_grow(pv.subrange(0, i as int), before, names0, self.names());
                assert forall|k: int| 0 <= k < after.len() implies (#[trigger] after[k] matches ChildView::NTerm(x) ==> x < self.num_nts()) by {
                    if k < before.len() {
                        assert(after[k] == before[k]);
                    }
                }
            }
            i = i + 1;
        }
        let lhs = self.aquire_nt_id(nt);
        let ghost names1 = self.names();
        proof {
            assert(pv.subrange(0, i as int) =~= pv);
        }
        let rule = Rule { nonterm: lhs, children, nonterms };
        let rid = self.push_rule(rule);
        proof {
            assert(self.rules@.subrange(0, rid as int) =~= old(self).rules@);
            assert(names1 =~= self.names().subrange(0, names1.len() as int));
            lemma_parts_match_names_grow(pv, rule@.children, names1, self.names());
        }
        Ok(rid)
    }

    /// Adds the rule `nt -> term` for literal bytes `term`.
    pub fn add_term_rule(&mut self, nt: &str, term: &Vec<u8>) -> (r: RuleID)
        requires
            old(self).wf(),
        ensures
            final(self).wf(),
            final(self).dumb == old(self).dumb,
            r == old(self).rules@.len(),
            final(self).rules@.len() == r + 1,
            final(self).rules@.subrange(0, r as int) == old(self).rules@,
            final(self).grammar()[r as int].children == seq![ChildView::Term(term@)],
            final(self).names()[final(self).rules@[r as int].nonterm as int] == nt.spec_bytes(),
    {
        let ntid = self.aquire_nt_id(nt);
        let rule = Rule::from_term(ntid, term);
        proof {
            assert(rule@.children[0] == ChildView::Term(term@));
        }
        let rid = self.push_rule(rule);
        proof {
            assert(self.rules@.subrange(0, rid as int) =~= old(self).rules@);
        }
        rid
    }
}

/// The children of a rule are the parts of its format: literals as terminal
/// bytes, references as the nonterminals with those names.
pub open spec fn parts_match(parts: Seq<PartView>, children: Seq<ChildView>, names: Seq<Seq<u8>>) -> bool {
    &&& parts.len() == children.len()
    &&& forall|k: int| 0 <= k < parts.len() ==> match (#[trigger] parts[k], children[k]) {
        (PartView::Literal(l), ChildView::Term(t)) => l == t,
        (PartView::Nonterminal(name), ChildView::NTerm(id)) => 0 <= id < names.len() && names[id as int] == name,
        _ => false,
    }
}

proof fn lemma_parts_match_names_grow(parts: Seq<PartView>, children: Seq<ChildView>, n1: Seq<Seq<u8>>, n2: Seq<Seq<u8>>)
    requires
        parts_match(parts, children, n1),
        n1.len() <= n2.len(),
        n1 == n2.subrange(0, n1.len() as int),
    ensures
        parts_match(parts, children, n2),
{
    assert forall|k: int| 0 <= k < parts.len() implies match (#[trigger] parts[k], children[k]) {
        (PartView::Literal(l), ChildView::Term(t)) => l == t,
        (PartView::Nonterminal(name), ChildView::NTerm(id)) => 0 <= id < n2.len() && n2[id as int] == name,
        _ => false,
    } by {
        match (parts[k], children[k]) {
            (PartView::Nonterminal(name), ChildView::NTerm(id)) => {
                assert(n1[id as int] == n2.subrange(0, n1.len() as int)[id as int]);
            },
            _ => {},
        }
    }
}

/// `1 +` the sum of the minimal sizes of `nts`; `None` while one of them is
/// unknown (0) or the sum leaves `usize`.
pub open spec fn size_from_mins(mins: Seq<usize>, nts: Seq<NTermID>) -> Option<usize>
    decreases nts.len(),
{
    if nts.len() == 0 {
        Some(1)
    } else {
        match size_from_mins(mins, nts.drop_last()) {
            Some(s) => {
                let m = mins[nts.last() as int];
                if m == 0 || s + m > usize::MAX { None } else { Some((s + m) as usize) }
            },
            None => None,
        }
    }
}

/// Weight of a table entry: unknown entries weigh more than any size.
pub open spec fn entry_weight(x: usize) -> int {
    if x == 0 { usize::MAX as int + 1 } else { x as int }
}

pub open spec fn weight_sum(v: Seq<usize>, n: int) -> int
    decreases n,
{
    if n <= 0 { 0 } else { weight_sum(v, n - 1) + entry_weight(v[n - 1]) }
}

proof fn lemma_weight_update(v: Seq<usize>, i: int, x: usize, n: int)
    requires
        0 <= i < n <= v.len(),
    ensures
        weight_sum(v.update(i, x), n) == weight_sum(v, n) - entry_weight(v[i]) + entry_weight(x),
    decreases n,
{
    if n - 1 > i {
        lemma_weight_update(v, i, x, n - 1);
    } else {
        lemma_weight_frame(v.update(i, x), v, i);
    }
}

proof fn lemma_weight_frame(a: Seq<usize>, b: Seq<usize>, n: int)
    requires
        0 <= n <= a.len(),
        n <= b.len(),
        forall|j: int| 0 <= j < n ==> a[j] == b[j],
    ensures
        weight_sum(a, n) == weight_sum(b, n),
    decreases n,
{
    if n > 0 {
        lemma_weight_frame(a, b, n - 1);
    }
}

proof fn lemma_weight_nonneg(v: Seq<usize>, n: int)
    requires
        0 <= n <= v.len(),
    ensures
        weight_sum(v, n) >= 0,
    decreases n,
{
    if n > 0 {
        lemma_weight_nonneg(v, n - 1);
    }
}

/// Lowering known minima never turns a known rule size into an unknown one,
/// nor raises it.
proof fn lemma_size_monotone(m1: Seq<usize>, m2: Seq<usize>, nts: Seq<NTermID>)
    requires
        m1.len() == m2.len(),
        forall|k: int| 0 <= k < m1.len() && m1[k] != 0 ==> m2[k] != 0 && m2[k] <= m1[k],
        forall|k: int| 0 <= k < nts.len() ==> nts[k] < m1.len(),
    ensures
        size_from_mins(m1, nts) matches Some(a) ==> (size_from_mins(m2, nts) matches Some(b) && b <= a),
    decreases nts.len(),
{
    if nts.len() > 0 {
        lemma_size_monotone(m1, m2, nts.drop_last());
    }
}

/// The minimal-size tables are a fixpoint: each rule's size is one more than
/// the minima of its references, and each nonterminal's minimum is the
/// smallest size of its rules.
pub open spec fn min_sizes_fixpoint(rules: Seq<Rule>, rule_min: Seq<usize>, nt_min: Seq<usize>) -> bool {
    &&& rule_min.len() == rules.len()
    &&& forall|r: int| 0 <= r < rules.len() ==> size_from_mins(nt_min, (#[trigger] rules[r]).nonterms@) == Some(rule_min[r])
    &&& forall|r: int| 0 <= r < rules.len() ==> nt_min[(#[trigger] rules[r]).nonterm as int] <= rule_min[r]
        && nt_min[rules[r].nonterm as int] != 0
    &&& forall|nt: int| 0 <= nt < nt_min.len() && #[trigger] nt_min[nt] != 0 ==>
        exists|r: int| 0 <= r < rules.len() && rules[r].nonterm == nt && rule_min[r] == nt_min[nt]
}

/// The size of rule `r`'s smallest derivation from the current minima.
fn rule_size(rules: &Vec<Rule>, mins: &Vec<usize>, r: usize) -> (res: Option<usize>)
    requires
        r < rules@.len(),
        forall|k: int| 0 <= k < rules@[r as int].nonterms@.len() ==> #[trigger] rules@[r as int].nonterms@[k] < mins@.len(),
    ensures
        res == size_from_mins(mins@, rules@[r as int].nonterms@),
{
    let nts = &rules[r].nonterms;
    let mut s: usize = 1;
    let mut k: usize = 0;
    while k < nts.len()
        invariant
            k <= nts@.len(),
            nts == &rules@[r as int].nonterms,
            forall|j: int| 0 <= j < nts@.len() ==> #[trigger] nts@[j] < mins@.len(),
            size_from_mins(mins@, nts@.subrange(0, k as int)) == Some(s),
        decreases nts@.len() - k,
    {
        let m = mins[nts[k]];
        proof {
            assert(nts@.subrange(0, k + 1).drop_last() =~= nts@.subrange(0, k as int));
        }
        if m == 0 || s > usize::MAX - m {
            proof {
                lemma_size_none_extends(mins@, nts@, k as int + 1);
            }
            return None;
        }
        s = s + m;
        k = k + 1;
    }
    assert(nts@.subrange(0, k as int) =~= nts@);
    Some(s)
}

proof fn lemma_size_none_extends(mins: Seq<usize>, nts: Seq<NTermID>, k: int)
    requires
        0 <= k <= nts.len(),
        size_from_mins(mins, nts.subrange(0, k)) is None,
    ensures
        size_from_mins(mins, nts) is None,
    decreases nts.len() - k,
{
    if k < nts.len() {
        assert(nts.subrange(0, k + 1).drop_last() =~= nts.subrange(0, k));
        lemma_size_none_extends(mins, nts, k + 1);
    } else {
        assert(nts.subrange(0, k) =~= nts);
    }
}

impl Context {
    /// Computes the minimal derivation size of every rule and nonterminal by
    /// iterating to a fixpoint; `Unproductive` if some rule keeps no size.
    pub fn calc_min_len(&mut self) -> (r: Result<(), GrammarError>)
        requires
            old(self).wf(),
        ensures
            final(self).wf(),
            final(self).rules@ == old(self).rules@,
            final(self).names() == old(self).names(),
            final(self).nts_to_rules@ == old(self).nts_to_rules@,
            final(self).dumb == old(self).dumb,
            final(self).max_len == old(self).max_len,
            final(self).nts_to_min_size@.len() == final(self).num_nts(),
            final(self).rules_to_min_size@.len() == final(self).rules@.len(),
            r is Ok ==> min_sizes_fixpoint(final(self).rules@, final(self).rules_to_min_size@, final(self).nts_to_min_size@)
                && all_rules_productive(final(self).rules@),
            r is Err ==> exists|k: int| 0 <= k < final(self).rules@.len()
                && size_from_mins(final(self).nts_to_min_size@, final(self).rules@[k].nonterms@) is None,
            r == Err::<(), GrammarError>(GrammarError::Unproductive) ==> !all_rules_productive(final(self).rules@),
            r == Err::<(), GrammarError>(GrammarError::TooLarge) ==> exists|k: int| 0 <= k < final(self).rules@.len()
                && known_children(final(self).nts_to_min_size@, final(self).rules@[k].nonterms@)
                && size_from_mins(final(self).nts_to_min_size@, final(self).rules@[k].nonterms@) is None,
            r is Err ==> r == Err::<(), GrammarError>(GrammarError::Unproductive) || r == Err::<(), GrammarError>(GrammarError::TooLarge),
    {
        let nr = self.rules.len();
        let nn = self.nt_ids_to_name.len();
        let mut rule_min: Vec<usize> = Vec::new();
        let mut nt_min: Vec<usize> = Vec::new();
        let mut k: usize = 0;
        while k < nr
            invariant
                k <= nr,
                rule_min@.len() == k,
                forall|j: int| 0 <= j < k ==> rule_min@[j] == 0,
            decreases nr - k,
        {
            rule_min.push(0);
            k = k + 1;
        }
        k = 0;
        while k < nn
            invariant
                k <= nn,
                nt_min@.len() == k,
                forall|j: int| 0 <= j < k ==> nt_min@[j] == 0,
            decreases nn - k,
        {
            nt_min.push(0);
            k = k + 1;
        }
        let ghost rules = self.rules@;
        let mut done = false;
        proof {
            lemma_weight_nonneg(rule_min@, nr as int);
            lemma_weight_nonneg(nt_min@, nn as int);
        }
        while !done
            invariant
                self.wf(),
                rules == self.rules@,
                nr == rules.len(),
                nn == self.num_nts(),
                rule_min@.len() == nr,
                nt_min@.len() == nn,
                forall|r: int| 0 <= r < nr && rule_min@[r] != 0 ==>
                    (size_from_mins(nt_min@, (#[trigger] rules[r]).nonterms@) matches Some(c) && c <= rule_min@[r]),
                forall|r: int| 0 <= r < nr && #[trigger] rule_min@[r] != 0 ==> nt_min@[rules[r].nonterm as int] != 0
                    && nt_min@[rules[r].nonterm as int] <= rule_min@[r],
                forall|nt: int| 0 <= nt < nn && #[trigger] nt_min@[nt] != 0 ==>
                    exists|r: int| 0 <= r < nr && rules[r].nonterm == nt && rule_min@[r] == nt_min@[nt],
                forall|nt: int| 0 <= nt < nt_min@.len() && #[trigger] nt_min@[nt] != 0 ==> derivable(rules, nt, nt_min@[nt] as int),
                done ==> forall|q: int| 0 <= q < nr ==> (size_from_mins(nt_min@, (#[trigger] rules[q]).nonterms@) matches Some(c)
                    ==> rule_min@[q] == c),
                done ==> forall|q: int| 0 <= q < nr && size_from_mins(nt_min@, (#[trigger] rules[q]).nonterms@) is None ==> rule_min@[q] == 0,
                weight_sum(rule_min@, nr as int) >= 0,
                weight_sum(nt_min@, nn as int) >= 0,
            decreases weight_sum(rule_min@, nr as int) + weight_sum(nt_min@, nn as int) + (if done { 0int } else { 1 }),
        {
            let ghost w0 = weight_sum(rule_min@, nr as int) + weight_sum(nt_min@, nn as int);
            let mut changed = false;
            let mut r: usize = 0;
            while r < nr
                invariant
                    self.wf(),
                    rules == self.rules@,
                    nr == rules.len(),
                    nn == self.num_nts(),
                    r <= nr,
                    rule_min@.len() == nr,
                    nt_min@.len() == nn,
                    forall|q: int| 0 <= q < nr && rule_min@[q] != 0 ==>
                        (size_from_mins(nt_min@, (#[trigger] rules[q]).nonterms@) matches Some(c) && c <= rule_min@[q]),
                    forall|q: int| 0 <= q < nr && #[trigger] rule_min@[q] != 0 ==> nt_min@[rules[q].nonterm as int] != 0
                        && nt_min@[rules[q].nonterm as int] <= rule_min@[q],
                    forall|nt: int| 0 <= nt < nn && #[trigger] nt_min@[nt] != 0 ==>
                        exists|q: int| 0 <= q < nr && rules[q].nonterm == nt && rule_min@[q] == nt_min@[nt],
                    forall|nt: int| 0 <= nt < nt_min@.len() && #[trigger] nt_min@[nt] != 0 ==> derivable(rules, nt, nt_min@[nt] as int),
                    changed ==> weight_sum(rule_min@, nr as int) + weight_sum(nt_min@, nn as int) < w0,
                    !changed ==> weight_sum(rule_min@, nr as int) + weight_sum(nt_min@, nn as int) == w0,
                    !changed ==> forall|q: int| 0 <= q < r ==> (size_from_mins(nt_min@, (#[trigger] rules[q]).nonterms@) matches Some(c)
                        ==> rule_min@[q] == c),
                    !changed ==> forall|q: int| 0 <= q < r && size_from_mins(nt_min@, (#[trigger] rules[q]).nonterms@) is None ==> rule_min@[q] == 0,
                    weight_sum(rule_min@, nr as int) >= 0,
                    weight_sum(nt_min@, nn as int) >= 0,
                decreases nr - r,
            {
                proof {
                    assert(self.rules@[r as int].wf());
                    assert(refs_below(self.rules@[r as int]@.children, nn as int));
                    lemma_refs_nonterms(self.rules@[r as int], nn as int);
                }
                match rule_size(&self.rules, &nt_min, r) {
                    None => {
                        proof {
                            if rule_min@[r as int] != 0 {
                                assert(size_from_mins(nt_min@, rules[r as int].nonterms@) is Some);
                            }
                        }
                    },
                    Some(c) => {
                        let nt = self.rules[r].nonterm;
                        let ghost rm0 = rule_min@;
                        let ghost nm0 = nt_min@;
                        proof {
                            lemma_size_at_least_one(nt_min@, rules[r as int].nonterms@);
                        }
                        let rule_changed = rule_min[r] != c;
                        if rule_changed {
                            proof {
                                lemma_weight_update(rule_min@, r as int, c, nr as int);
                            }
                            rule_min.set(r, c);
                            changed = true;
                        }
                        let nt_changed = nt_min[nt] == 0 || c < nt_min[nt];
                        if nt_changed {
                            proof {
                                lemma_weight_update(nt_min@, nt as int, c, nn as int);
                            }
                            nt_min.set(nt, c);
                            changed = true;
                        }
                        proof {
                            lemma_weight_nonneg(rule_min@, nr as int);
                            lemma_weight_nonneg(nt_min@, nn as int);
                            if nt_changed {
                                lemma_rule_derivable(rules, nm0, r as int, c);
                            }
                            assert forall|n2: int| 0 <= n2 < nt_min@.len() && #[trigger] nt_min@[n2] != 0 implies
                                derivable(rules, n2, nt_min@[n2] as int) by {
                                if !(n2 == nt && nt_changed) {
                                    assert(nt_min@[n2] == nm0[n2]);
                                }
                            }
                            assert forall|q: int| 0 <= q < nr && rule_min@[q] != 0 implies
                                (size_from_mins(nt_min@, (#[trigger] rules[q]).nonterms@) matches Some(cc) && cc <= rule_min@[q]) by {
                                lemma_refs_nonterms(rules[q], nn as int);
                                lemma_size_monotone(nm0, nt_min@, rules[q].nonterms@);
                            }
                            assert forall|q: int| 0 <= q < nr && #[trigger] rule_min@[q] != 0 implies nt_min@[rules[q].nonterm as int] != 0
                                && nt_min@[rules[q].nonterm as int] <= rule_min@[q] by {
                                if q != r {
                                    assert(rule_min@[q] == rm0[q]);
                                }
                            }
                            assert forall|n2: int| 0 <= n2 < nn && #[trigger] nt_min@[n2] != 0 implies
                                exists|q: int| 0 <= q < nr && rules[q].nonterm == n2 && rule_min@[q] == nt_min@[n2] by {
                                if n2 == nt && nt_changed {
                                    assert(rules[r as int].nonterm == n2 && rule_min@[r as int] == nt_min@[n2]);
                                } else {
                                    assert(nt_min@[n2] == nm0[n2]);
                                    let q0 = choose|q: int| 0 <= q < nr && rules[q].nonterm == n2 && rm0[q] == nm0[n2];
                                    if q0 == r && rule_changed {
                                        assert(false);
                                    }
                                    assert(rules[q0].nonterm == n2 && rule_min@[q0] == nt_min@[n2]);
                                }
                            }
                        }
                    },
                }
                r = r + 1;
            }
            if !changed {
                done = true;
            }
        }
        let mut bad = false;
        let mut overflow = false;
        let mut q: usize = 0;
        let mut witness: usize = 0;
        while q < nr
            invariant
                self.wf(),
                rules == self.rules@,
                nr == rules.len(),
                nn == self.num_nts(),
                nt_min@.len() == nn,
                forall|r: int| 0 <= r < nr && #[trigger] rule_min@[r] != 0 ==> nt_min@[rules[r].nonterm as int] != 0
                    && nt_min@[rules[r].nonterm as int] <= rule_min@[r],
                forall|nt: int| 0 <= nt < nn && #[trigger] nt_min@[nt] != 0 ==>
                    exists|r: int| 0 <= r < nr && rules[r].nonterm == nt && rule_min@[r] == nt_min@[nt],
                forall|nt: int| 0 <= nt < nt_min@.len() && #[trigger] nt_min@[nt] != 0 ==> derivable(rules, nt, nt_min@[nt] as int),
                forall|q: int| 0 <= q < nr ==> (size_from_mins(nt_min@, (#[trigger] rules[q]).nonterms@) matches Some(c)
                    ==> rule_min@[q] == c),
                forall|q: int| 0 <= q < nr && size_from_mins(nt_min@, (#[trigger] rules[q]).nonterms@) is None ==> rule_min@[q] == 0,
                q <= nr,
                rule_min@.len() == nr,
                !bad ==> forall|j: int| 0 <= j < q ==> #[trigger] rule_min@[j] != 0,
                overflow ==> bad,
                bad ==> witness < nr && rule_min@[witness as int] == 0,
                overflow ==> witness < nr && rule_min@[witness as int] == 0 && known_children(nt_min@, rules[witness as int].nonterms@),
                !overflow ==> forall|j: int| 0 <= j < q && known_children(nt_min@, (#[trigger] rules[j]).nonterms@) ==> rule_min@[j] != 0,
                bad && !overflow ==> !known_children(nt_min@, rules[witness as int].nonterms@),
            decreases nr - q,
        {
            if rule_min[q] == 0 && !overflow {
                proof {
                    assert(self.rules@[q as int].wf());
                    lemma_refs_nonterms(self.rules@[q as int], nn as int);
                }
                if children_known(&self.rules, &nt_min, q) {
                    overflow = true;
                    bad = true;
                    witness = q;
                } else if !bad {
                    bad = true;
                    witness = q;
                }
            }
            q = q + 1;
        }
        let ghost pre = *self;
        self.rules_to_min_size = rule_min;
        self.nts_to_min_size = nt_min;
        proof {
            assert(self.rules@ == pre.rules@);
            assert(self.nts_to_rules@ == pre.nts_to_rules@);
            assert(self.nt_ids_to_name@ == pre.nt_ids_to_name@);
            assert(self.names() =~= pre.names());
            assert(self.wf());
        }
        if overflow {
            proof {
                if size_from_mins(self.nts_to_min_size@, rules[witness as int].nonterms@) is Some {
                    lemma_size_at_least_one(self.nts_to_min_size@, rules[witness as int].nonterms@);
                }
            }
            return Err(GrammarError::TooLarge);
        }
        if bad {
            proof {
                let mins = self.nts_to_min_size@;
                let nts = rules[witness as int].nonterms@;
                let j = choose|j: int| 0 <= j < nts.len() && !(mins[#[trigger] nts[j] as int] != 0);
                let c = nts[j] as int;
                assert(self.rules@[witness as int].wf());
                lemma_refs_nonterms(self.rules@[witness as int], nn as int);
                assert forall|q: int| 0 <= q < nr && known_children(mins, (#[trigger] rules[q]).nonterms@) implies
                    size_from_mins(mins, rules[q].nonterms@) is Some by {
                    if size_from_mins(mins, rules[q].nonterms@) is Some {
                        lemma_size_at_least_one(mins, rules[q].nonterms@);
                    }
                }
                assert forall|k: int| !derivable(rules, c, k) by {
                    if derivable(rules, c, k) {
                        lemma_fixpoint_complete(rules, self.rules_to_min_size@, mins, c, k);
                    }
                }
                assert(!productive(rules, rules[witness as int].nonterms@[j] as int));
            }
            return Err(GrammarError::Unproductive);
        }
        proof {
            assert forall|r: int| 0 <= r < nr implies size_from_mins(self.nts_to_min_size@, (#[trigger] rules[r]).nonterms@) == Some(self.rules_to_min_size@[r]) by {
                assert(self.rules_to_min_size@[r] != 0);
            }
            assert forall|r: int, j: int| 0 <= r < nr && 0 <= j < rules[r].nonterms@.len() implies
                productive(rules, #[trigger] rules[r].nonterms@[j] as int) by {
                let nts = rules[r].nonterms@;
                crate::size_laws::lemma_no_unknown(self.nts_to_min_size@, nts, j);
                assert(self.rules@[r].wf());
                lemma_refs_nonterms(self.rules@[r], nn as int);
                assert(derivable(rules, nts[j] as int, self.nts_to_min_size@[nts[j] as int] as int));
            }
        }
        Ok(())
    }
}

/// `nt` has a derivation of depth at most `k`: some rule of `nt` whose
/// references all have derivations of depth at most `k - 1`.
pub open spec fn derivable(rules: Seq<Rule>, nt: int, k: int) -> bool
    decreases k,
{
    k > 0 && exists|r: int| 0 <= r < rules.len() && #[trigger] rules[r].nonterm == nt
        && forall|j: int| 0 <= j < rules[r].nonterms@.len() ==> derivable(rules, #[trigger] rules[r].nonterms@[j] as int, k - 1)
}

/// `nt` has a finite derivation.
pub open spec fn productive(rules: Seq<Rule>, nt: int) -> bool {
    exists|k: int| derivable(rules, nt, k)
}

/// Every nonterminal that a rule references has a finite derivation.
pub open spec fn all_rules_productive(rules: Seq<Rule>) -> bool {
    forall|r: int, j: int| 0 <= r < rules.len() && 0 <= j < rules[r].nonterms@.len() ==>
        productive(rules, #[trigger] rules[r].nonterms@[j] as int)
}

/// The minimal size of every reference of `nts` is known.
pub open spec fn known_children(mins: Seq<usize>, nts: Seq<NTermID>) -> bool {
    forall|j: int| 0 <= j < nts.len() ==> mins[#[trigger] nts[j] as int] != 0
}

/// A derivation of depth `k` is one of every greater depth too.
pub proof fn lemma_derivable_mono(rules: Seq<Rule>, nt: int, k: int, k2: int)
    requires
        derivable(rules, nt, k),
        k <= k2,
    ensures
        derivable(rules, nt, k2),
    decreases k,
{
    let r = choose|r: int| 0 <= r < rules.len() && #[trigger] rules[r].nonterm == nt
        && forall|j: int| 0 <= j < rules[r].nonterms@.len() ==> derivable(rules, #[trigger] rules[r].nonterms@[j] as int, k - 1);
    assert forall|j: int| 0 <= j < rules[r].nonterms@.len() implies derivable(rules, #[trigger] rules[r].nonterms@[j] as int, k2 - 1) by {
        lemma_derivable_mono(rules, rules[r].nonterms@[j] as int, k - 1, k2 - 1);
    }
}

/// At the fixpoint, when no rule with known references overflows, every
/// nonterminal with a derivation has a known minimal size.
proof fn lemma_fixpoint_complete(rules: Seq<Rule>, rule_min: Seq<usize>, nt_min: Seq<usize>, nt: int, k: int)
    requires
        rule_min.len() == rules.len(),
        forall|q: int| 0 <= q < rules.len() ==> (size_from_mins(nt_min, (#[trigger] rules[q]).nonterms@) matches Some(c) ==> rule_min[q] == c),
        forall|q: int| 0 <= q < rules.len() && #[trigger] rule_min[q] != 0 ==> nt_min[rules[q].nonterm as int] != 0,
        forall|q: int| 0 <= q < rules.len() && known_children(nt_min, (#[trigger] rules[q]).nonterms@) ==>
            size_from_mins(nt_min, rules[q].nonterms@) is Some,
        derivable(rules, nt, k),
    ensures
        nt_min[nt] != 0,
    decreases k,
{
    let r = choose|r: int| 0 <= r < rules.len() && #[trigger] rules[r].nonterm == nt
        && forall|j: int| 0 <= j < rules[r].nonterms@.len() ==> derivable(rules, #[trigger] rules[r].nonterms@[j] as int, k - 1);
    assert forall|j: int| 0 <= j < rules[r].nonterms@.len() implies nt_min[#[trigger] rules[r].nonterms@[j] as int] != 0 by {
        lemma_fixpoint_complete(rules, rule_min, nt_min, rules[r].nonterms@[j] as int, k - 1);
    }
    assert(known_children(nt_min, rules[r].nonterms@));
    let c = size_from_mins(nt_min, rules[r].nonterms@).unwrap();
    crate::size_laws::lemma_rule_min(nt_min, rules[r].nonterms@, c);
    assert(rule_min[r] == c);
}

/// A rule whose references have known, derivable minimal sizes makes its
/// nonterminal derivable at the rule's size.
proof fn lemma_rule_derivable(rules: Seq<Rule>, nt_min: Seq<usize>, r: int, c: usize)
    requires
        0 <= r < rules.len(),
        size_from_mins(nt_min, rules[r].nonterms@) == Some(c),
        forall|nt: int| 0 <= nt < nt_min.len() && #[trigger] nt_min[nt] != 0 ==> derivable(rules, nt, nt_min[nt] as int),
        forall|j: int| 0 <= j < rules[r].nonterms@.len() ==> (#[trigger] rules[r].nonterms@[j]) < nt_min.len(),
    ensures
        derivable(rules, rules[r].nonterm as int, c as int),
{
    let nts = rules[r].nonterms@;
    crate::size_laws::lemma_rule_min(nt_min, nts, c);
    assert forall|j: int| 0 <= j < nts.len() implies derivable(rules, #[trigger] rules[r].nonterms@[j] as int, c - 1) by {
        crate::size_laws::lemma_no_unknown(nt_min, nts, j);
        crate::size_laws::lemma_tail_ge(nt_min, nts, 0, j);
        lemma_derivable_mono(rules, nts[j] as int, nt_min[nts[j] as int] as int, c - 1);
    }
    assert(rules[r].nonterm == rules[r].nonterm);
}

/// The minimal sizes of the references of `nts` are all known.
fn children_known(rules: &Vec<Rule>, mins: &Vec<usize>, r: usize) -> (res: bool)
    requires
        r < rules@.len(),
        forall|k: int| 0 <= k < rules@[r as int].nonterms@.len() ==> #[trigger] rules@[r as int].nonterms@[k] < mins@.len(),
    ensures
        res == known_children(mins@, rules@[r as int].nonterms@),
{
    let nts = &rules[r].nonterms;
    let mut k: usize = 0;
    while k < nts.len()
        invariant
            k <= nts@.len(),
            nts == &rules@[r as int].nonterms,
            forall|q: int| 0 <= q < nts@.len() ==> #[trigger] nts@[q] < mins@.len(),
            forall|q: int| 0 <= q < k ==> mins@[#[trigger] nts@[q] as int] != 0,
        decreases nts@.len() - k,
    {
        if mins[nts[k]] == 0 {
            return false;
        }
        k = k + 1;
    }
    true
}

/// A rule whose references lie below `n` caches nonterminals below `n`.
pub proof fn lemma_refs_nonterms(rule: Rule, n: int)
    requires
        rule.wf(),
        refs_below(rule@.children, n),
    ensures
        forall|k: int| 0 <= k < rule.nonterms@.len() ==> #[trigger] rule.nonterms@[k] < n,
{
    lemma_nonterms_of_below(rule@.children, n);
}

proof fn lemma_nonterms_of_below(cs: Seq<ChildView>, n: int)
    requires
        refs_below(cs, n),
    ensures
        forall|k: int| 0 <= k < nonterms_of(cs).len() ==> #[trigger] nonterms_of(cs)[k] < n,
    decreases cs.len(),
{
    if cs.len() > 0 {
        let d = cs.drop_last();
        assert(refs_below(d, n)) by {
            assert forall|k: int| 0 <= k < d.len() implies (#[trigger] d[k] matches ChildView::NTerm(x) ==> x < n) by {
                assert(d[k] == cs[k]);
            }
        }
        lemma_nonterms_of_below(d, n);
        let rest = nonterms_of(d);
        assert(cs[cs.len() - 1] == cs.last());
        assert forall|k: int| 0 <= k < nonterms_of(cs).len() implies #[trigger] nonterms_of(cs)[k] < n by {
            if k < rest.len() {
                assert(nonterms_of(cs)[k] == rest[k]);
            }
        }
    }
}

proof fn lemma_size_at_least_one(mins: Seq<usize>, nts: Seq<NTermID>)
    ensures
        size_from_mins(mins, nts) matches Some(s) ==> s >= 1,
    decreases nts.len(),
{
    if nts.len() > 0 {
        lemma_size_at_least_one(mins, nts.drop_last());
    }
}

/// The ids in `s` are in non-decreasing order of `key`.
pub open spec fn sorted_by_key(s: Seq<usize>, key: Seq<usize>) -> bool {
    forall|a: int, b: int| 0 <= a < b < s.len() ==> key[s[a] as int] <= key[s[b] as int]
}

proof fn lemma_swap_multiset(s: Seq<usize>, i: int, j: int)
    requires
        0 <= i < s.len(),
        0 <= j < s.len(),
    ensures
        s.update(i, s[j]).update(j, s[i]).to_multiset() == s.to_multiset(),
{
    broadcast use vstd::multiset::group_multiset_axioms, vstd::seq_lib::to_multiset_update, vstd::seq_lib::to_multiset_contains;
    let t = s.update(i, s[j]);
    assert(s.contains(s[i]));
    assert(s.contains(s[j]));
    assert(t.to_multiset() == s.to_multiset().insert(s[j]).remove(s[i]));
    assert(t.update(j, s[i]).to_multiset() == t.to_multiset().insert(s[i]).remove(t[j]));
    if i == j {
        assert(s.update(i, s[j]).update(j, s[i]) =~= s);
    } else {
        assert(t[j] == s[j]);
        assert(s.to_multiset().insert(s[j]).remove(s[i]).insert(s[i]).remove(s[j]) =~= s.to_multiset());
    }
}

/// Stable insertion sort of rule ids by `key`.
fn sort_by_key(list: &mut Vec<usize>, key: &Vec<usize>)
    requires
        forall|k: int| 0 <= k < old(list)@.len() ==> #[trigger] old(list)@[k] < key@.len(),
    ensures
        final(list)@.to_multiset() == old(list)@.to_multiset(),
        final(list)@.len() == old(list)@.len(),
        sorted_by_key(final(list)@, key@),
        forall|k: int| 0 <= k < final(list)@.len() ==> #[trigger] final(list)@[k] < key@.len(),
{
    let n = list.len();
    let mut i: usize = 1;
    if n == 0 {
        return;
    }
    while i < n
        invariant
            1 <= i <= n,
            n == list@.len(),
            list@.to_multiset() == old(list)@.to_multiset(),
            forall|k: int| 0 <= k < n ==> #[trigger] list@[k] < key@.len(),
            sorted_by_key(list@.subrange(0, i as int), key@),
        decreases n - i,
    {
        let mut j: usize = i;
        proof {
            assert forall|a: int, b: int| 0 <= a < b <= i && a != j && b != j implies key@[#[trigger] list@[a] as int] <= key@[#[trigger] list@[b] as int] by {
                assert(list@.subrange(0, i as int)[a] == list@[a]);
                assert(list@.subrange(0, i as int)[b] == list@[b]);
            }
        }
        while j > 0 && key[list[j - 1]] > key[list[j]]
            invariant
                0 <= j <= i < n,
                n == list@.len(),
                list@.to_multiset() == old(list)@.to_multiset(),
                forall|k: int| 0 <= k < n ==> #[trigger] list@[k] < key@.len(),
                forall|a: int, b: int| 0 <= a < b <= i && a != j && b != j ==> key@[list@[a] as int] <= key@[list@[b] as int],
                forall|b: int| j < b <= i ==> key@[list@[j as int] as int] <= key@[list@[b] as int],
            decreases j,
        {
            let x = list[j - 1];
            let y = list[j];
            proof {
                lemma_swap_multiset(list@, j - 1, j as int);
            }
            list.set(j - 1, y);
            list.set(j, x);
            j = j - 1;
        }
        proof {
            assert forall|a: int, b: int| 0 <= a < b < i + 1 implies key@[#[trigger] list@[a] as int] <= key@[#[trigger] list@[b] as int] by {
                if a == j as int && j > 0 {
                    assert(key@[list@[j - 1] as int] <= key@[list@[j as int] as int]);
                }
            }
            assert(sorted_by_key(list@.subrange(0, i + 1), key@));
        }
        i = i + 1;
    }
    assert(list@.subrange(0, n as int) =~= list@);
}

impl Context {
    /// Sorts the rules of every nonterminal by their minimal size, keeping
    /// the order of rules of equal size.
    pub fn calc_rule_order(&mut self)
        requires
            old(self).wf(),
            old(self).rules_to_min_size@.len() == old(self).rules@.len(),
        ensures
            final(self).wf(),
            final(self).rules@ == old(self).rules@,
            final(self).names() == old(self).names(),
            final(self).dumb == old(self).dumb,
            final(self).max_len == old(self).max_len,
            final(self).rules_to_min_size@ == old(self).rules_to_min_size@,
            final(self).nts_to_min_size@ == old(self).nts_to_min_size@,
            final(self).nts_to_rules@.len() == old(self).nts_to_rules@.len(),
            forall|nt: int| 0 <= nt < final(self).num_nts() ==> {
                &&& (#[trigger] final(self).nts_to_rules@[nt])@.to_multiset() == old(self).nts_to_rules@[nt]@.to_multiset()
                &&& sorted_by_key(final(self).nts_to_rules@[nt]@, final(self).rules_to_min_size@)
            },
    {
        let n = self.nts_to_rules.len();
        let mut nt: usize = 0;
        while nt < n
            invariant
                self.wf(),
                n == self.num_nts(),
                self.rules@ == old(self).rules@,
                self.names() == old(self).names(),
                self.dumb == old(self).dumb,
                self.max_len == old(self).max_len,
                self.rules_to_min_size@ == old(self).rules_to_min_size@,
                self.rules_to_min_size@.len() == self.rules@.len(),
                self.nts_to_min_size@ == old(self).nts_to_min_size@,
                self.nts_to_rules@.len() == n,
                nt <= n,
                forall|m: int| nt <= m < n ==> #[trigger] self.nts_to_rules@[m] == old(self).nts_to_rules@[m],
                forall|m: int| 0 <= m < nt ==> {
                    &&& (#[trigger] self.nts_to_rules@[m])@.to_multiset() == old(self).nts_to_rules@[m]@.to_multiset()
                    &&& sorted_by_key(self.nts_to_rules@[m]@, self.rules_to_min_size@)
                },
            decreases n - nt,
        {
            let mut list = copy_ids(&self.nts_to_rules[nt]);
            proof {
                assert forall|k: int| 0 <= k < list@.len() implies #[trigger] list@[k] < self.rules_to_min_size@.len() by {
                    assert(self.nts_to_rules@[nt as int]@[k] < self.rules@.len());
                }
            }
            sort_by_key(&mut list, &self.rules_to_min_size);
            let ghost pre = *self;
            let ghost sorted = list@;
            self.nts_to_rules.set(nt, list);
            proof {
                assert(self.names() =~= pre.names());
                assert forall|m: int, k: int| 0 <= m < self.num_nts() && 0 <= k < self.nts_to_rules@[m]@.len() implies {
                    &&& #[trigger] self.nts_to_rules@[m]@[k] < self.rules@.len()
                    &&& self.rules@[self.nts_to_rules@[m]@[k] as int].nonterm == m
                } by {
                    if m == nt {
                        let x = sorted[k];
                        broadcast use vstd::seq_lib::to_multiset_contains;
                        assert(sorted.to_multiset().count(x) > 0);
                        assert(pre.nts_to_rules@[m]@.to_multiset().count(x) > 0);
                        assert(pre.nts_to_rules@[m]@.contains(x));
                        let k2 = choose|k2: int| 0 <= k2 < pre.nts_to_rules@[m]@.len() && pre.nts_to_rules@[m]@[k2] == x;
                        assert(pre.nts_to_rules@[m]@[k2] < pre.rules@.len());
                    } else {
                        assert(self.nts_to_rules@[m] == pre.nts_to_rules@[m]);
                    }
                }
                assert forall|q: int| 0 <= q < self.rules@.len() implies
                    self.nts_to_rules@[(#[trigger] self.rules@[q]).nonterm as int]@.contains(q as RuleID) by {
                    let m = self.rules@[q].nonterm as int;
                    assert(pre.nts_to_rules@[m]@.contains(q as RuleID));
                    if m == nt {
                        broadcast use vstd::seq_lib::to_multiset_contains;
                        assert(pre.nts_to_rules@[m]@.to_multiset().count(q as RuleID) > 0);
                        assert(sorted.to_multiset().count(q as RuleID) > 0);
                    }
                }
            }
            nt = nt + 1;
        }
    }
}

impl Context {
    pub open spec fn nt_rules_view(&self) -> Seq<Seq<RuleID>> {
        self.nts_to_rules@.map_values(|v: Vec<RuleID>| v@)
    }

    pub open spec fn nt_counts(&self) -> Seq<Seq<u16>> {
        self.nt_and_n_to_count@.map_values(|v: Vec<u16>| v@)
    }

    pub open spec fn rhs_counts(&self) -> Seq<Seq<u32>> {
        self.rhs_and_n_to_count@.map_values(|v: Vec<u32>| v@)
    }

    /// The state after a successful `initialize`: minimal sizes at their
    /// fixpoint, rules ordered by them, counts for every size below `max_len`.
    pub open spec fn ready(&self) -> bool {
        &&& self.wf()
        &&& self.nts_to_min_size@.len() == self.num_nts()
        &&& min_sizes_fixpoint(self.rules@, self.rules_to_min_size@, self.nts_to_min_size@)
        &&& forall|nt: int| 0 <= nt < self.num_nts() ==> sorted_by_key(#[trigger] self.nt_rules_view()[nt], self.rules_to_min_size@)
        &&& (!self.dumb ==> counts_ok(self.rules@, self.nt_rules_view(), self.num_nts(), self.nt_counts(), self.rhs_counts(), self.max_len as int)
            && rhs_off(self.rules@, self.rules@.len() as int) <= usize::MAX)
    }

    /// Computes minimal sizes, orders each nonterminal's rules by them, and
    /// counts the trees of every size up to `max_len + 1`.
    pub fn initialize(&mut self, max_len: usize) -> (r: Result<(), GrammarError>)
        requires
            old(self).wf(),
            max_len <= usize::MAX - 2,
        ensures
            final(self).wf(),
            final(self).rules@ == old(self).rules@,
            final(self).names() == old(self).names(),
            final(self).dumb == old(self).dumb,
            r is Ok ==> final(self).ready() && final(self).max_len == max_len + 2 && all_rules_productive(final(self).rules@),
            r is Ok ==> final(self).nts_to_rules@.len() == old(self).nts_to_rules@.len() && forall|nt: int| 0 <= nt < final(self).num_nts() ==>
                (#[trigger] final(self).nts_to_rules@[nt])@.to_multiset() == old(self).nts_to_rules@[nt]@.to_multiset(),
            r == Err::<(), GrammarError>(GrammarError::Unproductive) ==> !all_rules_productive(final(self).rules@),
            all_rules_productive(final(self).rules@) ==> r is Ok || r == Err::<(), GrammarError>(GrammarError::TooLarge),
            r == Err::<(), GrammarError>(GrammarError::TooLarge) ==> (exists|k: int| 0 <= k < final(self).rules@.len()
                && known_children(final(self).nts_to_min_size@, final(self).rules@[k].nonterms@)
                && size_from_mins(final(self).nts_to_min_size@, final(self).rules@[k].nonterms@) is None)
                || (!old(self).dumb && rhs_off(final(self).rules@, final(self).rules@.len() as int) > usize::MAX),
            r is Err ==> r == Err::<(), GrammarError>(GrammarError::Unproductive) || r == Err::<(), GrammarError>(GrammarError::TooLarge),
    {
        let res = self.calc_min_len();
        if res.is_err() {
            return res;
        }
        self.calc_rule_order();
        self.max_len = max_len + 2;
        if !self.dumb {
            let total = rhs_total(&self.rules);
            match total {
                None => {
                    return Err(GrammarError::TooLarge);
                },
                Some(_) => {},
            }
            proof {
                assert forall|r: int, k: int| 0 <= r < self.rules@.len() && 0 <= k < rlen(self.rules@, r) implies
                    (#[trigger] self.rules@[r].nonterms@[k]) < self.nt_rules_view().len() by {
                    lemma_refs_nonterms(self.rules@[r], self.num_nts());
                }
            }
            let (ntc, rhc) = calc_counts(&self.rules, &self.nts_to_rules, self.nt_ids_to_name.len(), self.max_len);
            let ghost pre = *self;
            self.nt_and_n_to_count = ntc;
            self.rhs_and_n_to_count = rhc;
            proof {
                assert(self.names() =~= pre.names());
                assert(self.nt_rules_view() =~= pre.nt_rules_view());
                assert(self.wf());
            }
        }
        Ok(())
    }
}

/// The size of a count layer, if it fits in a `usize`.
fn rhs_total(rules: &Vec<Rule>) -> (r: Option<usize>)
    ensures
        r matches Some(t) ==> t == rhs_off(rules@, rules@.len() as int),
        r is None ==> rhs_off(rules@, rules@.len() as int) > usize::MAX,
{
    let mut off: usize = 0;
    let mut q: usize = 0;
    while q < rules.len()
        invariant
            q <= rules@.len(),
            off == rhs_off(rules@, q as int),
        decreases rules@.len() - q,
    {
        let l = rules[q].nonterms.len();
        if l > usize::MAX - 1 || off > usize::MAX - 1 - l {
            proof {
                crate::counts::lemma_rhs_off_mono(rules@, q + 1, rules@.len() as int);
            }
            return None;
        }
        off = off + l + 1;
        q = q + 1;
    }
    Some(off)
}

/// The tables of a context, without anything drawn at random, to be stored
/// and loaded again.
pub struct SerializableContext {
    pub rules: Vec<Rule>,
    pub nts_to_rules: Vec<Vec<RuleID>>,
    pub nt_ids_to_name: Vec<Vec<u8>>,
    pub rules_to_min_size: Vec<usize>,
    pub nts_to_min_size: Vec<usize>,
    pub nt_and_n_to_count: Vec<Vec<u16>>,
    pub rhs_and_n_to_count: Vec<Vec<u32>>,
    pub max_len: usize,
    pub hash_of_original: u64,
    pub dumb: bool,
}

fn copy_rules(v: &Vec<Rule>) -> (r: Vec<Rule>)
    ensures
        r@.len() == v@.len(),
        forall|i: int| 0 <= i < v@.len() ==> (#[trigger] r@[i])@ == v@[i]@ && r@[i].nonterms@ == v@[i].nonterms@,
{
    let mut r: Vec<Rule> = Vec::new();
    let mut i: usize = 0;
    while i < v.len()
        invariant
            i <= v.len(),
            r@.len() == i,
            forall|j: int| 0 <= j < i ==> (#[trigger] r@[j])@ == v@[j]@ && r@[j].nonterms@ == v@[j].nonterms@,
        decreases v.len() - i,
    {
        r.push(v[i].duplicate());
        i = i + 1;
    }
    r
}

/// Two contexts hold the same tables.
pub open spec fn same_tables(a: &Context, b: &Context) -> bool {
    &&& a.grammar() == b.grammar()
    &&& a.rules@.len() == b.rules@.len()
    &&& forall|i: int| 0 <= i < a.rules@.len() ==> (#[trigger] a.rules@[i]).nonterms@ == b.rules@[i].nonterms@
    &&& a.nt_rules_view() == b.nt_rules_view()
    &&& a.names() == b.names()
    &&& a.rules_to_min_size@ == b.rules_to_min_size@
    &&& a.nts_to_min_size@ == b.nts_to_min_size@
    &&& a.nt_counts() == b.nt_counts()
    &&& a.rhs_counts() == b.rhs_counts()
    &&& a.max_len == b.max_len
}

impl Context {
    /// A copy of the tables, tagged with `hash_of_original`.
    pub fn create_serializable_context(&self, hash_of_original: u64) -> (r: SerializableContext)
        ensures
            same_tables(self, &r.to_context_spec(self.dumb)),
            r.hash_of_original == hash_of_original,
            r.dumb == self.dumb,
    {
        let r = SerializableContext {
            rules: copy_rules(&self.rules),
            nts_to_rules: copy_table(&self.nts_to_rules),
            nt_ids_to_name: copy_table(&self.nt_ids_to_name),
            rules_to_min_size: copy_vec(&self.rules_to_min_size),
            nts_to_min_size: copy_vec(&self.nts_to_min_size),
            nt_and_n_to_count: copy_table(&self.nt_and_n_to_count),
            rhs_and_n_to_count: copy_table(&self.rhs_and_n_to_count),
            max_len: self.max_len,
            hash_of_original,
            dumb: self.dumb,
        };
        proof {
            let c = r.to_context_spec(self.dumb);
            assert(c.grammar() =~= self.grammar());
        }
        r
    }

    /// The context that `saved` holds; `dumb` selects uniform sampling.
    pub fn from_serialized_context(saved: SerializableContext, dumb: bool) -> (r: Context)
        ensures
            r == saved.to_context_spec(dumb),
    {
        Context {
            rules: saved.rules,
            nts_to_rules: saved.nts_to_rules,
            nt_ids_to_name: saved.nt_ids_to_name,
            rules_to_min_size: saved.rules_to_min_size,
            nts_to_min_size: saved.nts_to_min_size,
            nt_and_n_to_count: saved.nt_and_n_to_count,
            rhs_and_n_to_count: saved.rhs_and_n_to_count,
            max_len: saved.max_len,
            dumb,
        }
    }
}

impl SerializableContext {
    pub open spec fn to_context_spec(self, dumb: bool) -> Context {
        Context {
            rules: self.rules,
            nts_to_rules: self.nts_to_rules,
            nt_ids_to_name: self.nt_ids_to_name,
            rules_to_min_size: self.rules_to_min_size,
            nts_to_min_size: self.nts_to_min_size,
            nt_and_n_to_count: self.nt_and_n_to_count,
            rhs_and_n_to_count: self.rhs_and_n_to_count,
            max_len: self.max_len,
            dumb,
        }
    }
}

/// Storing a context and loading it back gives the same rules, minimal
/// sizes, possibility counts and size bound.
pub proof fn lemma_serialization_round_trip(c: Context, saved: SerializableContext, loaded: Context)
    requires
        same_tables(&c, &saved.to_context_spec(c.dumb)),
        loaded == saved.to_context_spec(c.dumb),
    ensures
        same_tables(&c, &loaded),
{
}

} // verus!
