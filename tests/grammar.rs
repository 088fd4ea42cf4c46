use gramfuzz::chunkstore::ChunkStore;
use gramfuzz::context::{Context, GrammarError};
use gramfuzz::mutator::{havoc_terminal_at, keeps_fresh_bits, next_recursion_shrink, replacement_at, splice_at, Minimizer, RuleSubstitution};
use gramfuzz::newtypes::{NodeID, RuleID};
use gramfuzz::rule::{NormalOrCustomRule, RuleChild};
use gramfuzz::tree::{calc_parents, calc_sizes, get_rule, unparse_node_to_vec, Tree};
use std::collections::HashMap;
use std::collections::HashSet;

fn empty_tree() -> Tree {
    Tree { rules: vec![], sizes: vec![], paren: vec![] }
}

fn nt(ctx: &Context, name: &str) -> usize {
    ctx.nt_id(name).expect("no such nonterminal")
}

fn add(ctx: &mut Context, lhs: &str, format: &str) -> RuleID {
    ctx.add_rule(lhs, format).expect("bad rule format")
}

/// Sizes and parents of the subtree at `n`, by recursion on the rules.
fn calc_subtree_sizes_and_parents_rec_test(tree: &mut Tree, n: NodeID, ctx: &Context) -> usize {
    let mut cur = n + 1;
    let mut size = 1;
    for _ in 0..get_rule(&*tree, n, ctx).number_of_nonterms() {
        tree.paren[cur] = n;
        let sub_size = calc_subtree_sizes_and_parents_rec_test(tree, cur, ctx);
        cur = cur + sub_size;
        size += sub_size;
    }
    tree.sizes[n] = size;
    size
}

/// Unparses the subtree at `n` by recursion; returns the next node.
fn unparse_rec(tree: &Tree, n: NodeID, ctx: &Context, out: &mut Vec<u8>) -> NodeID {
    let mut cur = n;
    for child in get_rule(tree, n, ctx).children().iter() {
        match child {
            RuleChild::Term(d) | RuleChild::CustomTerm(d) => out.extend_from_slice(d),
            RuleChild::NTerm(_) => cur = unparse_rec(tree, cur + 1, ctx, out),
        }
    }
    cur
}

fn deep_grammar() -> Context {
    let mut ctx = Context::new();
    add(&mut ctx, "C", "c{B}c3");
    add(&mut ctx, "B", "b{A}b23");
    add(&mut ctx, "A", "aasdf {A}");
    add(&mut ctx, "A", "a2 {A}");
    add(&mut ctx, "A", "a sdf{A}");
    add(&mut ctx, "A", "a 34{A}");
    add(&mut ctx, "A", "adfe {A}");
    add(&mut ctx, "A", "a32");
    ctx.initialize(50).expect("grammar");
    ctx
}

fn recursive_grammar() -> Context {
    let mut ctx = Context::new();
    add(&mut ctx, "C", "c{B}c");
    add(&mut ctx, "B", "b{A}b");
    add(&mut ctx, "A", "a {A}");
    add(&mut ctx, "A", "a {A}");
    add(&mut ctx, "A", "a {A}");
    add(&mut ctx, "A", "a {A}");
    add(&mut ctx, "A", "a {A}");
    add(&mut ctx, "A", "a");
    ctx.initialize(20).expect("grammar");
    ctx
}

fn lens_grammar() -> Context {
    let mut ctx = Context::new();
    add(&mut ctx, "C", "c{B}c");
    add(&mut ctx, "B", "b{D}b");
    add(&mut ctx, "B", "b");
    add(&mut ctx, "D", "{B}");
    add(&mut ctx, "A", "a {A}");
    add(&mut ctx, "A", "a {A}");
    add(&mut ctx, "A", "a {A}");
    add(&mut ctx, "A", "a {A}");
    add(&mut ctx, "A", "a {A}");
    add(&mut ctx, "A", "a {B}");
    add(&mut ctx, "A", "a");
    ctx.initialize(10).expect("grammar");
    ctx
}

#[test]
fn chunk_store() {
    let mut ctx = Context::new();
    let r1 = add(&mut ctx, "A", "a {B:a}");
    let r2 = add(&mut ctx, "B", "b {C:a}");
    let _ = add(&mut ctx, "C", "c");
    ctx.initialize(101).expect("grammar");
    let random_size = ctx.get_random_len_for_ruleid(r1).expect("a size");
    println!("random_size: {}", random_size);
    let tree = ctx.generate_tree_from_rule(r1, random_size).expect("a tree");
    let mut cks = ChunkStore::new();
    cks.add_tree(tree, &ctx);
    assert_eq!(cks.nts_to_chunks[nt(&ctx, "A")].len(), 1);
    let (tree_id, _) = cks.nts_to_chunks[nt(&ctx, "A")][0];
    assert_eq!(cks.trees[tree_id].unparse_to_vec(&ctx).unwrap(), "a b c".as_bytes());

    let random_size = ctx.get_random_len_for_ruleid(r2).expect("a size");
    let tree = ctx.generate_tree_from_rule(r2, random_size).expect("a tree");
    cks.add_tree(tree, &ctx);
    let (tree_id, node_id) = cks.nts_to_chunks[nt(&ctx, "B")][0];
    assert_eq!(
        unparse_node_to_vec(&cks.trees[tree_id], node_id, &ctx).unwrap(),
        "b c".as_bytes()
    );
}

#[test]
fn simple_context() {
    let mut ctx = Context::new();
    let r = add(&mut ctx, "F", "foo{A:a}\\{bar\\}{B:b}asd{C}");
    let soll = vec![
        RuleChild::from_lit("foo"),
        RuleChild::NTerm(nt(&ctx, "A")),
        RuleChild::from_lit("{bar}"),
        RuleChild::NTerm(nt(&ctx, "B")),
        RuleChild::from_lit("asd"),
        RuleChild::NTerm(nt(&ctx, "C")),
    ];
    let rule = ctx.get_rule(r);
    assert_eq!(rule.children(), &soll);
    assert_eq!(rule.nonterms()[0], nt(&ctx, "A"));
    assert_eq!(rule.nonterms()[1], nt(&ctx, "B"));
    assert_eq!(rule.nonterms()[2], nt(&ctx, "C"));
}

#[test]
fn test_context() {
    let mut ctx = Context::new();
    let r0 = add(&mut ctx, "C", "c{B}c");
    let r1 = add(&mut ctx, "B", "b{A}b");
    let _ = add(&mut ctx, "A", "a {A}");
    let _ = add(&mut ctx, "A", "a {A}");
    let _ = add(&mut ctx, "A", "a {A}");
    let _ = add(&mut ctx, "A", "a {A}");
    let _ = add(&mut ctx, "A", "a {A}");
    let r3 = add(&mut ctx, "A", "a");
    ctx.initialize(5).expect("grammar");
    assert_eq!(ctx.get_min_len_for_nt(nt(&ctx, "A")), 1);
    assert_eq!(ctx.get_min_len_for_nt(nt(&ctx, "B")), 2);
    assert_eq!(ctx.get_min_len_for_nt(nt(&ctx, "C")), 3);
    let mut tree = empty_tree();
    assert!(tree.generate_from_nt(nt(&ctx, "C"), 3, &ctx));
    assert_eq!(
        tree.rules,
        vec![
            NormalOrCustomRule::NormalRule(r0),
            NormalOrCustomRule::NormalRule(r1),
            NormalOrCustomRule::NormalRule(r3),
        ]
    );
    let data = tree.unparse_to_vec(&ctx).expect("RAND_498873613");
    assert_eq!(String::from_utf8(data).expect("RAND_3377050372"), "cbabc");
}

#[test]
fn get_random_len_for_ruleid() {
    let ctx = lens_grammar();
    let mut lens_for_a = HashSet::new();
    let mut lens_for_b = HashSet::new();
    for _ in 0..100 {
        lens_for_a.insert(ctx.get_random_len_for_ruleid(4).unwrap());
        lens_for_b.insert(ctx.get_random_len_for_ruleid(1).unwrap());
    }
    for l in 1..11 {
        assert!(lens_for_a.contains(&l));
    }
    assert!(!lens_for_a.contains(&11));
    for l in [2, 4, 6, 8, 10] {
        assert!(lens_for_b.contains(&l));
    }
    for l in [1, 3, 5, 7, 9] {
        assert!(!lens_for_b.contains(&l));
    }
    assert!(!lens_for_a.contains(&11));
}

#[test]
fn test_generate_len() {
    let mut ctx = Context::new();
    let r0 = add(&mut ctx, "E", "({E}+{E})");
    let r1 = add(&mut ctx, "E", "({E}*{E})");
    let r2 = add(&mut ctx, "E", "({E}-{E})");
    let r3 = add(&mut ctx, "E", "({E}/{E})");
    let r4 = add(&mut ctx, "E", "1");
    ctx.initialize(11).expect("grammar");
    assert_eq!(ctx.get_min_len_for_nt(nt(&ctx, "E")), 1);

    for _ in 0..100 {
        let mut tree = empty_tree();
        tree.generate_from_nt(nt(&ctx, "E"), 9, &ctx);
        assert!(tree.rules.len() < 10);
        assert!(tree.rules.len() >= 1);
    }

    let rules = vec![
        NormalOrCustomRule::NormalRule(r0),
        NormalOrCustomRule::NormalRule(r1),
        NormalOrCustomRule::NormalRule(r4),
        NormalOrCustomRule::NormalRule(r4),
        NormalOrCustomRule::NormalRule(r4),
    ];
    let tree = Tree::from_rule_vec(rules, &ctx).unwrap();
    let data = tree.unparse_to_vec(&ctx).expect("RAND_2530190768");
    assert_eq!(String::from_utf8(data).expect("RAND_3492562908"), "((1*1)+1)");

    let rules = vec![
        NormalOrCustomRule::NormalRule(r0),
        NormalOrCustomRule::NormalRule(r1),
        NormalOrCustomRule::NormalRule(r2),
        NormalOrCustomRule::NormalRule(r3),
        NormalOrCustomRule::NormalRule(r4),
        NormalOrCustomRule::NormalRule(r4),
        NormalOrCustomRule::NormalRule(r4),
        NormalOrCustomRule::NormalRule(r4),
        NormalOrCustomRule::NormalRule(r4),
    ];
    let tree = Tree::from_rule_vec(rules, &ctx).unwrap();
    let data = tree.unparse_to_vec(&ctx).expect("RAND_3988925787");
    assert_eq!(String::from_utf8(data).expect("RAND_4245419893"), "((((1/1)-1)*1)+1)");
}

#[test]
fn test_context_serialization() {
    let ctx = lens_grammar();
    let serial_ctx = ctx.create_serializable_context(1);
    let ctx2 = Context::from_serialized_context(serial_ctx, false);
    assert_eq!(ctx.rules, ctx2.rules);
    assert_eq!(ctx.nts_to_rules, ctx2.nts_to_rules);
    assert_eq!(ctx.nt_ids_to_name, ctx2.nt_ids_to_name);
    assert_eq!(ctx.rules_to_min_size, ctx2.rules_to_min_size);
    assert_eq!(ctx.nts_to_min_size, ctx2.nts_to_min_size);
    assert_eq!(ctx.nt_and_n_to_count, ctx2.nt_and_n_to_count);
    assert_eq!(ctx.rhs_and_n_to_count, ctx2.rhs_and_n_to_count);
    assert_eq!(ctx.max_len, ctx2.max_len);
}

#[test]
fn check_calc_sizes_iter() {
    let ctx = deep_grammar();
    let mut tree = empty_tree();
    for _ in 0..100 {
        tree.truncate();
        assert!(tree.generate_from_nt(nt(&ctx, "C"), 50, &ctx));
        calc_subtree_sizes_and_parents_rec_test(&mut tree, 0, &ctx);
        let vec1 = tree.sizes.clone();
        let vec2 = calc_sizes(&tree.paren);
        assert_eq!(vec1, vec2);
    }
}

#[test]
fn check_calc_paren_iter() {
    let ctx = deep_grammar();
    let mut tree = empty_tree();
    for _ in 0..100 {
        tree.truncate();
        assert!(tree.generate_from_nt(nt(&ctx, "C"), 50, &ctx));
        calc_subtree_sizes_and_parents_rec_test(&mut tree, 0, &ctx);
        let vec1 = tree.paren.clone();
        let vec2 = calc_parents(&tree, &ctx).unwrap();
        assert_eq!(vec1, vec2);
    }
}

#[test]
fn check_unparse_iter() {
    let ctx = deep_grammar();
    let mut tree = empty_tree();
    for _ in 0..100 {
        tree.truncate();
        assert!(tree.generate_from_nt(nt(&ctx, "C"), 50, &ctx));
        let mut vec1 = vec![];
        unparse_rec(&tree, 0, &ctx, &mut vec1);
        let vec2 = tree.unparse_to_vec(&ctx).expect("RAND_2991612983");
        assert_eq!(vec1, vec2);
    }
}

#[test]
fn check_find_recursions() {
    let ctx = recursive_grammar();
    let mut tree = empty_tree();
    for _ in 0..100 {
        tree.truncate();
        assert!(tree.generate_from_nt(nt(&ctx, "C"), 20, &ctx));
        let recursions = tree.has_recursions(&ctx).expect("RAND_1192228626");
        assert_ne!(recursions.len(), 0);
        for tuple in recursions {
            assert!(tuple.0 < tuple.1);
        }
    }
}

#[test]
fn check_find_recursions_iter() {
    let ctx = recursive_grammar();
    let mut tree = empty_tree();
    for _ in 0..100 {
        tree.truncate();
        assert!(tree.generate_from_nt(nt(&ctx, "C"), 20, &ctx));
        let mut parents = HashMap::new();
        let parent_nonterm = get_rule(&tree, 0, &ctx).nonterm();
        parents.insert(parent_nonterm, vec![0usize]);
    }
}

#[test]
fn recursion_pairs_share_a_nonterminal() {
    let mut ctx = Context::new();
    add(&mut ctx, "A", "{A}a");
    add(&mut ctx, "A", "a");
    ctx.initialize(20).expect("grammar");
    let a = nt(&ctx, "A");
    let mut tree = empty_tree();
    assert!(tree.generate_from_nt(a, 6, &ctx));
    let pairs = tree.has_recursions(&ctx).expect("recursions");
    assert!(!pairs.is_empty());
    for (p, c) in pairs {
        assert!(p < c);
        assert_eq!(get_rule(&tree, p, &ctx).nonterm(), a);
        assert_eq!(get_rule(&tree, c, &ctx).nonterm(), a);
    }
}

#[test]
fn bad_reference_is_rejected() {
    let mut ctx = Context::new();
    assert_eq!(ctx.add_rule("A", "x{lower}y"), Err(GrammarError::BadReference));
    assert_eq!(ctx.rules.len(), 0);
}

#[test]
fn unproductive_grammar_is_rejected() {
    let mut ctx = Context::new();
    add(&mut ctx, "A", "a{A}");
    assert_eq!(ctx.initialize(10), Err(GrammarError::Unproductive));
}

#[test]
fn rules_are_sorted_by_min_size() {
    let mut ctx = Context::new();
    add(&mut ctx, "A", "({A}{A})");
    add(&mut ctx, "A", "[{A}]");
    add(&mut ctx, "A", "x");
    ctx.initialize(10).expect("grammar");
    let rules = ctx.get_rules_for_nt(nt(&ctx, "A"));
    assert_eq!(rules, &vec![2, 1, 0]);
    let sizes: Vec<usize> = rules.iter().map(|r| ctx.rules_to_min_size[*r]).collect();
    assert_eq!(sizes, vec![1, 2, 3]);
}

#[test]
fn possibility_counts_of_binary_expressions() {
    let mut ctx = Context::new();
    add(&mut ctx, "E", "({E}+{E})");
    add(&mut ctx, "E", "1");
    ctx.initialize(10).expect("grammar");
    let e = nt(&ctx, "E");
    // Binary trees: 1, 1, 2, 5 shapes with 1, 3, 5, 7 nodes.
    assert_eq!(ctx.nt_and_n_to_count[1][e], 1);
    assert_eq!(ctx.nt_and_n_to_count[2][e], 0);
    assert_eq!(ctx.nt_and_n_to_count[3][e], 1);
    assert_eq!(ctx.nt_and_n_to_count[5][e], 2);
    assert_eq!(ctx.nt_and_n_to_count[7][e], 5);
}

#[test]
fn random_len_leaves_both_sides_derivable() {
    let mut ctx = Context::new();
    let r = add(&mut ctx, "E", "({E}+{E})");
    add(&mut ctx, "E", "1");
    ctx.initialize(12).expect("grammar");
    for _ in 0..200 {
        let l = ctx.get_random_len(8, r, 0);
        assert!(l % 2 == 1 && l <= 7);
    }
    // Exactly the minimal sizes: the only split gives each side one node.
    for _ in 0..20 {
        assert_eq!(ctx.get_random_len(2, r, 0), 1);
    }
}

#[test]
fn generated_trees_have_consistent_sizes() {
    let ctx = deep_grammar();
    for _ in 0..50 {
        let t = ctx.generate_tree_from_nt(nt(&ctx, "C"), 30).expect("tree");
        assert_eq!(t.sizes[0], t.rules.len());
        for i in 1..t.rules.len() {
            assert!(t.paren[i] < i);
        }
        for i in 0..t.rules.len() {
            let child_sum: usize = (i + 1..t.rules.len()).filter(|j| t.paren[*j] == i).map(|j| t.sizes[j]).sum();
            assert_eq!(t.sizes[i], child_sum + 1);
        }
    }
}

#[test]
fn no_tree_of_impossible_size() {
    let mut ctx = Context::new();
    add(&mut ctx, "E", "({E}+{E})");
    add(&mut ctx, "E", "1");
    ctx.initialize(10).expect("grammar");
    assert!(ctx.generate_tree_from_nt(nt(&ctx, "E"), 4).is_none());
    assert!(ctx.generate_tree_from_nt(nt(&ctx, "E"), 0).is_none());
}

#[test]
fn mutation_unparses_like_its_tree() {
    let mut ctx = Context::new();
    let r0 = add(&mut ctx, "E", "({E}+{E})");
    let r1 = add(&mut ctx, "E", "1");
    let r2 = add(&mut ctx, "E", "2");
    ctx.initialize(10).expect("grammar");
    let a = Tree::from_rule_vec(
        vec![NormalOrCustomRule::NormalRule(r0), NormalOrCustomRule::NormalRule(r1), NormalOrCustomRule::NormalRule(r1)],
        &ctx,
    )
    .unwrap();
    let b = Tree::from_rule_vec(
        vec![NormalOrCustomRule::NormalRule(r0), NormalOrCustomRule::NormalRule(r2), NormalOrCustomRule::NormalRule(r2)],
        &ctx,
    )
    .unwrap();
    let m = a.mutate_replace_from_tree(2, &b, 0);
    let bytes = m.unparse_to_vec(&ctx).unwrap();
    assert_eq!(bytes, b"(1+(2+2))".to_vec());
    let t = m.to_tree(&ctx).unwrap();
    assert_eq!(t.unparse_to_vec(&ctx).unwrap(), bytes);
    assert_eq!(t.sizes, vec![5, 1, 3, 1, 1]);
}

#[test]
fn invalid_rule_sequence_is_rejected() {
    let mut ctx = Context::new();
    let r0 = add(&mut ctx, "E", "({E}+{E})");
    let r1 = add(&mut ctx, "E", "1");
    let _ = add(&mut ctx, "F", "f");
    ctx.initialize(10).expect("grammar");
    let r2 = 2;
    assert!(Tree::from_rule_vec(vec![NormalOrCustomRule::NormalRule(r0), NormalOrCustomRule::NormalRule(r2)], &ctx).is_none());
    let short = Tree { rules: vec![NormalOrCustomRule::NormalRule(r0), NormalOrCustomRule::NormalRule(r1)], sizes: vec![2, 1], paren: vec![0, 0] };
    assert!(short.unparse_to_vec(&ctx).is_none());
}

#[test]
fn custom_rule_replaces_a_leaf() {
    let mut ctx = Context::new();
    let r0 = add(&mut ctx, "E", "({E}+{E})");
    let r1 = add(&mut ctx, "E", "1");
    ctx.initialize(10).expect("grammar");
    let mut t = Tree::from_rule_vec(
        vec![NormalOrCustomRule::NormalRule(r0), NormalOrCustomRule::NormalRule(r1), NormalOrCustomRule::NormalRule(r1)],
        &ctx,
    )
    .unwrap();
    let e = nt(&ctx, "E");
    t.replace_with_custom_rule(2, gramfuzz::rule::Rule::from_custom_term(e, b"42".to_vec()));
    assert_eq!(t.unparse_to_vec(&ctx).unwrap(), b"(1+42)".to_vec());
    assert_eq!(t.get_parent(2), Some(0));
    assert_eq!(t.get_parent(0), None);
    assert_eq!(t.subtree_size(0), 3);
}

#[test]
fn chunk_store_alternatives_differ_from_the_rule() {
    let mut ctx = Context::new();
    let r0 = add(&mut ctx, "E", "({E}+{E})");
    let r1 = add(&mut ctx, "E", "1");
    ctx.initialize(10).expect("grammar");
    let t = Tree::from_rule_vec(
        vec![NormalOrCustomRule::NormalRule(r0), NormalOrCustomRule::NormalRule(r1), NormalOrCustomRule::NormalRule(r1)],
        &ctx,
    )
    .unwrap();
    let mut cks = ChunkStore::new();
    cks.add_tree(t, &ctx);
    assert_eq!(cks.trees(), 1);
    assert_eq!(cks.nts_to_chunks[nt(&ctx, "E")], vec![(0, 0), (0, 1), (0, 2)]);
    for _ in 0..20 {
        let (tree, n) = cks.get_alternative_to(r1, &ctx).expect("alternative");
        assert_eq!(tree.rules[n], NormalOrCustomRule::NormalRule(r0));
        let (_, m) = cks.get_alternative_to(r0, &ctx).expect("alternative");
        assert!(m == 1 || m == 2);
    }
}

#[test]
fn dumb_generation_stays_within_bounds() {
    let mut ctx = Context::with_dump(true);
    add(&mut ctx, "C", "c{B}c");
    add(&mut ctx, "B", "b{A}b");
    add(&mut ctx, "A", "a {A}");
    add(&mut ctx, "A", "({A}{A})");
    add(&mut ctx, "A", "a");
    ctx.initialize(30).expect("grammar");
    let c = nt(&ctx, "C");
    for _ in 0..100 {
        let t = ctx.dumb_generate_tree_from_nt(c, 20).expect("tree");
        assert!(t.rules.len() >= 3 && t.rules.len() <= 20);
        assert_eq!(t.sizes[0], t.rules.len());
        assert!(t.unparse_to_vec(&ctx).is_some());
    }
    assert!(ctx.dumb_generate_tree_from_nt(c, 2).is_none());
    assert_eq!(ctx.dumb_get_random_rule_for_nt(nt(&ctx, "A"), 1), Some(4));
    assert!(ctx.dumb_get_random_len(3, 10) <= 10);
}

#[test]
fn minimizer_offers_smaller_subtrees() {
    let ctx = deep_grammar();
    let t = ctx.generate_tree_from_nt(nt(&ctx, "C"), 12).expect("tree");
    let mut m = Minimizer::new(0, 100);
    let mut offers = 0;
    while let Some((n, small)) = m.next_candidate(&ctx, &t) {
        assert!(small.rules.len() < t.sizes[n]);
        let mutated = t.mutate_replace_from_tree(n, &small, 0);
        let shorter = mutated.to_tree(&ctx).expect("valid");
        assert!(shorter.rules.len() < t.rules.len());
        offers += 1;
    }
    assert!(offers > 0);
    // Nothing to keep: no candidate is accepted.
    assert!(!keeps_fresh_bits(&vec![], &vec![1, 1, 1]));
    assert!(keeps_fresh_bits(&vec![2], &vec![0, 0, 1]));
    assert!(!keeps_fresh_bits(&vec![1], &vec![0, 0, 1]));
}

#[test]
fn rule_substitution_offers_other_rules() {
    let mut ctx = Context::new();
    let r0 = add(&mut ctx, "E", "({E}+{E})");
    let r1 = add(&mut ctx, "E", "1");
    let r2 = add(&mut ctx, "E", "2");
    ctx.initialize(10).expect("grammar");
    let t = Tree::from_rule_vec(
        vec![NormalOrCustomRule::NormalRule(r0), NormalOrCustomRule::NormalRule(r1), NormalOrCustomRule::NormalRule(r1)],
        &ctx,
    )
    .unwrap();
    let mut s = RuleSubstitution::new(0, 3);
    let mut seen = vec![];
    while let Some((n, sub)) = s.next_candidate(&ctx, &t) {
        assert_ne!(sub.rules[0], t.rules[n]);
        seen.push((n, sub.rules[0].get_rule_id().unwrap()));
    }
    // Alternatives keep the node's size: a one-node leaf can only become
    // another leaf, and no other rule derives three nodes.
    assert_eq!(seen, vec![(1, r2), (2, r2)]);
}

#[test]
fn possibility_queries() {
    let mut ctx = Context::new();
    let r = add(&mut ctx, "E", "({E}+{E})");
    add(&mut ctx, "E", "1");
    add(&mut ctx, "F", "f");
    ctx.initialize(10).expect("grammar");
    // Two references sharing 4 nodes: 1+3 or 3+1.
    assert_eq!(ctx.get_possibilities_for_rule(r, 0, 4), 2);
    assert_eq!(ctx.get_possibilities_for_rule_u32(r, 0, 4), 2);
    assert_eq!(ctx.get_possibilities_for_rule(r, 0, 3), 0);
    assert_eq!(ctx.get_possibilities_for_rule(r, 2, 0), 1);
    assert!(ctx.check_if_nterm_has_multiple_possiblities(nt(&ctx, "E")));
    assert!(!ctx.check_if_nterm_has_multiple_possiblities(nt(&ctx, "F")));
}

#[test]
fn productive_grammar_initializes() {
    let mut ctx = Context::new();
    add(&mut ctx, "C", "c{B}c");
    add(&mut ctx, "B", "b{A}b");
    add(&mut ctx, "A", "a");
    assert_eq!(ctx.initialize(5), Ok(()));
    let mut bad = Context::new();
    add(&mut bad, "S", "{A}{B}");
    add(&mut bad, "A", "a");
    add(&mut bad, "B", "b{B}");
    assert_eq!(bad.initialize(5), Err(GrammarError::Unproductive));
}

#[test]
fn per_node_mutation_steps() {
    let mut ctx = Context::new();
    let r0 = add(&mut ctx, "E", "({E}+{E})");
    let r1 = add(&mut ctx, "E", "1");
    ctx.initialize(10).expect("grammar");
    let t = Tree::from_rule_vec(
        vec![NormalOrCustomRule::NormalRule(r0), NormalOrCustomRule::NormalRule(r1), NormalOrCustomRule::NormalRule(r1)],
        &ctx,
    )
    .unwrap();
    let sub = replacement_at(&ctx, &t, 1).expect("E derives trees");
    assert_eq!(sub.sizes[0], sub.rules.len());
    let leaf = havoc_terminal_at(&ctx, &t, 1).expect("a terminal leaf");
    assert_eq!(leaf.rules.len(), 1);
    assert!(havoc_terminal_at(&ctx, &t, 0).is_none());
    let mut cks = ChunkStore::new();
    assert!(splice_at(&ctx, &t, 1, &cks).is_none());
    cks.add_tree(Tree::from_rule_vec(vec![NormalOrCustomRule::NormalRule(r1)], &ctx).unwrap(), &ctx);
    assert!(splice_at(&ctx, &t, 1, &cks).is_none());
    let (_, dn) = splice_at(&ctx, &t, 0, &cks).expect("a leaf for the root");
    assert_eq!(dn, 0);
}

#[test]
fn recursion_shrinking_candidates() {
    let mut ctx = Context::new();
    add(&mut ctx, "A", "{A}a");
    add(&mut ctx, "A", "a");
    ctx.initialize(20).expect("grammar");
    let t = ctx.generate_tree_from_nt(nt(&ctx, "A"), 5).expect("tree");
    let pairs = t.has_recursions(&ctx).expect("pairs");
    // A chain of five nodes: each of nodes 1..3 is an ancestor of every later node.
    assert_eq!(pairs.len(), 6);
    let (k, outer, inner) = next_recursion_shrink(&t, &pairs, 0).expect("a shrink");
    assert_eq!(pairs[k], (outer, inner));
    assert!(t.sizes[inner] < t.sizes[outer]);
    assert!(next_recursion_shrink(&t, &pairs, pairs.len()).is_none());
}
