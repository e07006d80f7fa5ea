use turing_solver::catalogue::{categorize_codes, find_unique, SolutionCatalogue};
use turing_solver::construct_tree::{get_permutations, optimal_tree, resolve_round_code, BinaryTree};
use turing_solver::rules::{apply_rule, Code};

fn code(blue: u8, yellow: u8, purple: u8) -> Code {
    Code { blue, yellow, purple }
}

/// Walk the tree with the given outcome vector, as a player following the
/// passed/failed edges would, and return the leaf's code.
fn walk_tree(tree: &BinaryTree, outcomes: &[u8]) -> Code {
    match tree {
        BinaryTree::Leaf(c) => *c,
        BinaryTree::Branch(b) => {
            if outcomes[b.test.0] == b.test.1 {
                walk_tree(&b.correct, outcomes)
            } else {
                walk_tree(&b.incorrect, outcomes)
            }
        },
    }
}

fn leaf_count(tree: &BinaryTree) -> usize {
    match tree {
        BinaryTree::Leaf(_) => 1,
        BinaryTree::Branch(b) => leaf_count(&b.correct) + leaf_count(&b.incorrect),
    }
}

/// Check every branch of the tree: each subtree must hold at least one
/// leaf, and at most one fewer than its sibling pair allows.
fn branches_nonempty(tree: &BinaryTree) -> bool {
    match tree {
        BinaryTree::Leaf(_) => true,
        BinaryTree::Branch(b) => {
            leaf_count(&b.correct) >= 1
                && leaf_count(&b.incorrect) >= 1
                && branches_nonempty(&b.correct)
                && branches_nonempty(&b.incorrect)
        },
    }
}

/// Collect the round-start nodes with their committed windows and check
/// each round code against the criteria cards that the run activated.
fn round_codes_reproduce(tree: &BinaryTree, rules: &Vec<usize>, tests_per_round: u8, level: u8) -> bool {
    match tree {
        BinaryTree::Leaf(_) => true,
        BinaryTree::Branch(b) => {
            if level % tests_per_round == 0 {
                let c = match b.code {
                    Some(c) => c,
                    None => return false,
                };
                for (test, res) in b.get_tests(tests_per_round - 1) {
                    if apply_rule(rules[test], &c) != Some(res) {
                        return false;
                    }
                }
            } else if b.code.is_some() {
                return false;
            }
            let next = (level + 1) % tests_per_round;
            round_codes_reproduce(&b.correct, rules, tests_per_round, next)
                && round_codes_reproduce(&b.incorrect, rules, tests_per_round, next)
        },
    }
}

fn two_candidates() -> (Vec<(Vec<u8>, Code)>, SolutionCatalogue) {
    let a = code(1, 1, 1);
    let b = code(2, 2, 2);
    let entries = vec![(vec![0u8], a), (vec![1u8], b)];
    let cat = SolutionCatalogue { entries: vec![(vec![0u8], vec![a]), (vec![1u8], vec![b])] };
    (entries, cat)
}

fn four_candidates() -> (Vec<(Vec<u8>, Code)>, SolutionCatalogue) {
    let a = code(1, 1, 1);
    let b = code(2, 2, 2);
    let c = code(3, 3, 3);
    let d = code(4, 4, 4);
    let entries = vec![
        (vec![0u8, 0u8], a),
        (vec![0u8, 1u8], b),
        (vec![1u8, 0u8], c),
        (vec![1u8, 1u8], d),
    ];
    let cat = SolutionCatalogue {
        entries: vec![
            (vec![0u8, 0u8], vec![a]),
            (vec![0u8, 1u8], vec![b]),
            (vec![1u8, 0u8], vec![c]),
            (vec![1u8, 1u8], vec![d]),
        ],
    };
    (entries, cat)
}

#[test]
fn empty_batch_yields_no_tree() {
    let entries: Vec<(Vec<u8>, Code)> = Vec::new();
    let cat = SolutionCatalogue { entries: Vec::new() };
    assert!(optimal_tree(&entries, &cat, 3).is_none());
}

#[test]
fn single_candidate_yields_leaf() {
    let a = code(1, 2, 3);
    let entries = vec![(vec![0u8], a)];
    let cat = SolutionCatalogue { entries: vec![(vec![0u8], vec![a])] };
    let tree = optimal_tree(&entries, &cat, 3).expect("one candidate always has a tree");
    assert_eq!(tree.max_depth(), 0);
    assert_eq!(tree.total_depth(), 0);
    match &tree {
        BinaryTree::Leaf(c) => assert_eq!(*c, a),
        BinaryTree::Branch(_) => panic!("a single candidate must give a leaf"),
    }
}

#[test]
fn perfect_separator_yields_single_branch() {
    let (entries, cat) = two_candidates();
    let tree = optimal_tree(&entries, &cat, 1).expect("the separating test gives a tree");
    assert_eq!(tree.max_depth(), 1);
    assert_eq!(tree.total_depth(), 1);
    match &tree {
        BinaryTree::Branch(b) => {
            assert!(matches!(b.correct, BinaryTree::Leaf(_)));
            assert!(matches!(b.incorrect, BinaryTree::Leaf(_)));
            assert!(b.code.is_some());
        },
        BinaryTree::Leaf(_) => panic!("two candidates need one test"),
    }
    assert_eq!(walk_tree(&tree, &[0]), code(1, 1, 1));
    assert_eq!(walk_tree(&tree, &[1]), code(2, 2, 2));
}

#[test]
fn every_candidate_walks_to_its_own_leaf() {
    let (entries, cat) = four_candidates();
    let tree = optimal_tree(&entries, &cat, 2).expect("the two tests separate all four");
    assert_eq!(tree.max_depth(), 2);
    for (outcomes, sol) in &entries {
        assert_eq!(walk_tree(&tree, outcomes), *sol);
    }
    assert_eq!(leaf_count(&tree), entries.len());
    assert!(branches_nonempty(&tree));
}

#[test]
fn rerun_is_stable() {
    let (entries, cat) = four_candidates();
    let first = optimal_tree(&entries, &cat, 2).unwrap();
    let second = optimal_tree(&entries, &cat, 2).unwrap();
    assert_eq!(first.max_depth(), second.max_depth());
    assert_eq!(first.total_depth(), second.total_depth());
}

#[test]
fn round_size_leaves_depth_level() {
    let (entries, cat) = four_candidates();
    let mut depths = Vec::new();
    for tpr in [1u8, 2, 3] {
        let tree = optimal_tree(&entries, &cat, tpr).expect("all round sizes work here");
        depths.push(tree.max_depth());
    }
    // more tests per round never bought a shallower tree, nor cost a
    // deeper one, on this instance
    assert_eq!(depths, vec![2, 2, 2]);
}

#[test]
fn empty_catalogue_rejects_every_round_code() {
    let (entries, _) = four_candidates();
    let cat = SolutionCatalogue { entries: Vec::new() };
    assert!(optimal_tree(&entries, &cat, 1).is_none());
    assert!(optimal_tree(&entries, &cat, 2).is_none());
}

#[test]
fn claimed_test_without_alternative_fails() {
    // the only informative test is the first; the second never separates
    let a = code(1, 1, 1);
    let b = code(2, 2, 2);
    let c = code(3, 3, 3);
    let entries = vec![
        (vec![0u8, 0u8], a),
        (vec![1u8, 0u8], b),
        (vec![2u8, 0u8], c),
    ];
    let cat = SolutionCatalogue {
        entries: vec![
            (vec![0u8, 0u8], vec![a]),
            (vec![1u8, 0u8], vec![b]),
            (vec![2u8, 0u8], vec![c]),
        ],
    };
    // a round of two tests would have to use the first test twice
    assert!(optimal_tree(&entries, &cat, 2).is_none());
    // with one test per round the claim is released at every level
    let tree = optimal_tree(&entries, &cat, 1).expect("single-test rounds succeed");
    assert_eq!(tree.max_depth(), 2);
}

#[test]
fn search_backs_off_to_alternative_split() {
    // the second test is useless at the root but rescues the sub-batch
    // once the first test is claimed
    let a = code(1, 1, 1);
    let b = code(2, 2, 2);
    let c = code(3, 3, 3);
    let entries = vec![
        (vec![0u8, 0u8], a),
        (vec![1u8, 0u8], b),
        (vec![2u8, 1u8], c),
    ];
    let cat = SolutionCatalogue {
        entries: vec![
            (vec![0u8, 0u8], vec![a]),
            (vec![1u8, 0u8], vec![b]),
            (vec![2u8, 1u8], vec![c]),
        ],
    };
    let tree = optimal_tree(&entries, &cat, 2).expect("an alternative split exists");
    assert_eq!(tree.max_depth(), 2);
    for (outcomes, sol) in &entries {
        assert_eq!(walk_tree(&tree, outcomes), *sol);
    }
    assert!(branches_nonempty(&tree));
}

#[test]
fn pipeline_round_codes_reproduce_committed_results() {
    // a small population, categorized by real criteria cards, then solved
    let mut codes = Vec::new();
    for blue in 1u8..=5 {
        for yellow in 1u8..=3 {
            codes.push(code(blue, yellow, 2));
        }
    }
    let rules: Vec<usize> = vec![0, 4, 10];
    let solutions = categorize_codes(&codes, &rules);
    let unique = find_unique(&solutions);
    assert!(!unique.is_empty());
    let tree = optimal_tree(&unique, &solutions, 3).expect("this puzzle is solvable");
    for (outcomes, sol) in &unique {
        assert_eq!(walk_tree(&tree, outcomes), *sol);
    }
    assert_eq!(leaf_count(&tree), unique.len());
    assert!(branches_nonempty(&tree));
    assert!(round_codes_reproduce(&tree, &rules, 3, 0));
}

#[test]
fn pipeline_is_stable_across_reruns() {
    let mut codes = Vec::new();
    for blue in 1u8..=5 {
        for purple in 1u8..=4 {
            codes.push(code(blue, 2, purple));
        }
    }
    let rules: Vec<usize> = vec![1, 6, 11];
    let solutions = categorize_codes(&codes, &rules);
    let unique = find_unique(&solutions);
    assert!(!unique.is_empty());
    let first = optimal_tree(&unique, &solutions, 3).expect("solvable");
    let second = optimal_tree(&unique, &solutions, 3).expect("solvable");
    assert_eq!(first.max_depth(), second.max_depth());
    assert_eq!(first.total_depth(), second.total_depth());
    assert!(round_codes_reproduce(&first, &rules, 3, 0));
}

#[test]
fn tree_queries_match_shape() {
    let a = code(1, 1, 1);
    let b = code(2, 2, 2);
    let c = code(3, 3, 3);
    let inner = BinaryTree::Branch(Box::new(turing_solver::construct_tree::Branch {
        test: (1, 0),
        correct: BinaryTree::Leaf(b),
        incorrect: BinaryTree::Leaf(c),
        code: None,
    }));
    let tree = BinaryTree::Branch(Box::new(turing_solver::construct_tree::Branch {
        test: (0, 1),
        correct: BinaryTree::Leaf(a),
        incorrect: inner,
        code: Some(a),
    }));
    assert_eq!(tree.max_depth(), 2);
    assert_eq!(tree.total_depth(), 2);
    assert_eq!(tree.size(), 5);
    let close = tree.get_tests(0);
    assert!(close.contains(&(0, 1)));
    assert!(!close.contains(&(1, 0)));
    let wide = tree.get_tests(1);
    assert!(wide.contains(&(0, 1)));
    assert!(wide.contains(&(1, 0)));
    let copy = tree.duplicate();
    assert_eq!(copy.max_depth(), 2);
    assert_eq!(copy.size(), 5);
    assert_eq!(walk_tree(&copy, &[1, 0]), a);
    assert_eq!(walk_tree(&copy, &[0, 0]), b);
    assert_eq!(walk_tree(&copy, &[0, 1]), c);
}

#[test]
fn permutations_cover_the_product() {
    let input = vec![vec![0u8, 1u8], vec![2u8]];
    let perms = get_permutations(&input);
    assert_eq!(perms.len(), 2);
    assert!(perms.contains(&vec![0u8, 2u8]));
    assert!(perms.contains(&vec![1u8, 2u8]));
}

#[test]
fn round_code_resolution_fixes_committed_tests() {
    let x = code(5, 5, 5);
    let tests = vec![vec![0u8, 1u8], vec![0u8, 1u8]];
    let cat = SolutionCatalogue { entries: vec![(vec![1u8, 0u8], vec![x])] };
    let committed = vec![(0usize, 1u8)];
    assert_eq!(resolve_round_code(&tests, &committed, &cat), Some(x));
    // a committed result the catalogue cannot reproduce finds nothing
    let committed = vec![(0usize, 0u8)];
    assert_eq!(resolve_round_code(&tests, &committed, &cat), None);
    // two contradictory commitments on one test admit no code at all
    let committed = vec![(0usize, 0u8), (0usize, 1u8)];
    assert_eq!(resolve_round_code(&tests, &committed, &cat), None);
}

#[test]
fn full_round_of_three_shares_one_code() {
    // eight candidates separated by three tests, all inside one round
    let mut entries = Vec::new();
    let mut cat_entries = Vec::new();
    for bits in 0u8..8 {
        let c = code(bits / 4 + 1, (bits / 2) % 2 + 1, bits % 2 + 1);
        let outcomes = vec![bits / 4, (bits / 2) % 2, bits % 2];
        entries.push((outcomes.clone(), c));
        cat_entries.push((outcomes, vec![c]));
    }
    let cat = SolutionCatalogue { entries: cat_entries };
    let tree = optimal_tree(&entries, &cat, 3).expect("three tests separate eight candidates");
    assert_eq!(tree.max_depth(), 3);
    assert_eq!(leaf_count(&tree), 8);
    for (outcomes, sol) in &entries {
        assert_eq!(walk_tree(&tree, outcomes), *sol);
    }
    // the root opens the round: its code's outcome vector must reproduce
    // every result committed anywhere in the round's window
    match &tree {
        BinaryTree::Branch(b) => {
            let c = b.code.expect("a round-start node carries a code");
            let key = vec![c.blue - 1, c.yellow - 1, c.purple - 1];
            assert!(cat.get(&key).is_some());
            for (test, res) in b.get_tests(2) {
                assert_eq!(key[test], res);
            }
        },
        BinaryTree::Leaf(_) => panic!("eight candidates need tests"),
    }
}
