//! Library-wide guarantees, stated and proved once: what a sound decision
//! tree (`tree_ok`, as `optimal_tree` ensures of every tree it returns)
//! promises to whoever walks it.
use vstd::prelude::*;

use crate::catalogue::{cat_truthful, passes_all, rule_vec};
use crate::construct_tree::{
    lemma_split_contains, lemma_tree_ok_bounds, next_level, spec_tests, split_fail, split_pass,
    tree_ok, walk, BinaryTree, Test,
};
use crate::rules::{spec_rule, Code};

verus! {

broadcast use vstd::seq_lib::group_seq_properties;

/// Soundness of the tree's paths: every solution of the batch is found by
/// walking the tree according to its own outcome vector, following the
/// passed edge exactly where the solution's outcome at a node's test
/// equals the committed result.
pub proof fn lemma_tree_paths(
    t: BinaryTree,
    batch: Seq<(Seq<u8>, Code)>,
    cat: Seq<(Seq<u8>, Seq<Code>)>,
    tpr: nat,
    level: nat,
    n_tests: nat,
)
    requires
        tree_ok(t, batch, cat, tpr, level, n_tests),
    ensures
        forall|k: int| 0 <= k < batch.len() ==> walk(t, (#[trigger] batch[k]).0) == batch[k].1,
    decreases t,
{
    match t {
        BinaryTree::Leaf(_) => {},
        BinaryTree::Branch(b) => {
            let pass = split_pass(batch, b.test);
            let fail = split_fail(batch, b.test);
            let next = next_level(tpr, level);
            lemma_tree_paths(b.correct, pass, cat, tpr, next, n_tests);
            lemma_tree_paths(b.incorrect, fail, cat, tpr, next, n_tests);
            assert forall|k: int|
                0 <= k < batch.len() implies walk(t, (#[trigger] batch[k]).0) == batch[k].1 by {
                let e = batch[k];
                assert(batch.contains(e));
                lemma_split_contains(batch, b.test, e);
                if e.0[b.test.0 as int] == b.test.1 {
                    let w = choose|w: int| 0 <= w < pass.len() && pass[w] == e;
                    assert(walk(b.correct, e.0) == e.1);
                } else {
                    let w = choose|w: int| 0 <= w < fail.len() && fail[w] == e;
                    assert(walk(b.incorrect, e.0) == e.1);
                }
            }
        },
    }
}

/// No vacuous splits: at a branch of a sound tree both subtrees stand for
/// a non-empty share of the batch.  Since the subtrees are sound for
/// their shares in turn, this holds at every internal node of the tree.
pub proof fn lemma_no_vacuous_splits(
    t: BinaryTree,
    batch: Seq<(Seq<u8>, Code)>,
    cat: Seq<(Seq<u8>, Seq<Code>)>,
    tpr: nat,
    level: nat,
    n_tests: nat,
)
    requires
        tree_ok(t, batch, cat, tpr, level, n_tests),
    ensures
        t matches BinaryTree::Branch(b) ==> split_pass(batch, b.test).len() > 0 && split_fail(
            batch,
            b.test,
        ).len() > 0 && tree_ok(
            b.correct,
            split_pass(batch, b.test),
            cat,
            tpr,
            next_level(tpr, level),
            n_tests,
        ) && tree_ok(
            b.incorrect,
            split_fail(batch, b.test),
            cat,
            tpr,
            next_level(tpr, level),
            n_tests,
        ),
{
}

/// Round-code validity over a whole tree: every node standing at a round
/// start carries a code, and evaluating the criteria cards on that code
/// reproduces the committed result of every test within the node's round
/// window.
pub open spec fn round_codes_valid(t: BinaryTree, rules: Seq<usize>, tpr: nat, level: nat) -> bool
    decreases t,
{
    match t {
        BinaryTree::Leaf(_) => true,
        BinaryTree::Branch(b) => {
            let next = next_level(tpr, level);
            &&& (level == 0 ==> (b.code matches Some(c) && (forall|s: Test|
                #[trigger] spec_tests(t, (tpr - 1) as nat).contains(s) ==> spec_rule(
                    rules[s.0 as int] as int,
                    c,
                ) == Some(s.1))))
            &&& round_codes_valid(b.correct, rules, tpr, next)
            &&& round_codes_valid(b.incorrect, rules, tpr, next)
        },
    }
}

/// With a truthful catalogue -- one whose every listed code produces its
/// key as its outcome vector, as `categorize_codes` builds it -- a sound
/// tree's round codes are valid: performing the tests of a round window
/// with the round's code yields exactly the results the tree committed.
pub proof fn lemma_round_codes_valid(
    t: BinaryTree,
    batch: Seq<(Seq<u8>, Code)>,
    cat: Seq<(Seq<u8>, Seq<Code>)>,
    rules: Seq<usize>,
    tpr: nat,
    level: nat,
)
    requires
        tree_ok(t, batch, cat, tpr, level, rules.len()),
        cat_truthful(cat, rules),
    ensures
        round_codes_valid(t, rules, tpr, level),
    decreases t,
{
    match t {
        BinaryTree::Leaf(_) => {},
        BinaryTree::Branch(b) => {
            let pass = split_pass(batch, b.test);
            let fail = split_fail(batch, b.test);
            let next = next_level(tpr, level);
            lemma_round_codes_valid(b.correct, pass, cat, rules, tpr, next);
            lemma_round_codes_valid(b.incorrect, fail, cat, rules, tpr, next);
            if level == 0 {
                let wset = spec_tests(t, (tpr - 1) as nat);
                let j = choose|j: int|
                    {
                        &&& 0 <= j < cat.len()
                        &&& (#[trigger] cat[j]).0.len() == rules.len()
                        &&& cat[j].1.len() > 0
                        &&& b.code == Some(cat[j].1[0])
                        &&& forall|s: Test|
                            #[trigger] wset.contains(s) ==> cat[j].0[s.0 as int] == s.1
                    };
                let c = cat[j].1[0];
                assert(passes_all(c, rules) && rule_vec(c, rules) == cat[j].0);
                lemma_tree_ok_bounds(t, batch, cat, tpr, level, rules.len());
                assert forall|s: Test|
                    #[trigger] wset.contains(s) implies spec_rule(rules[s.0 as int] as int, c)
                    == Some(s.1) by {
                    assert((s.0 as int) < rules.len());
                    assert(cat[j].0[s.0 as int] == s.1);
                    assert(rule_vec(c, rules)[s.0 as int] == spec_rule(
                        rules[s.0 as int] as int,
                        c,
                    ).unwrap());
                    assert(spec_rule(rules[s.0 as int] as int, c) is Some);
                }
            }
        },
    }
}

/// The tie-breaking summed depth is no choice at all: every sound tree
/// for a batch holds exactly one branch fewer than the batch holds
/// solutions, whatever its shape, its round size or its catalogue.
/// Re-running the search on the same inputs therefore always returns a
/// tree of the same summed depth.
pub proof fn lemma_total_depth_determined(
    t1: BinaryTree,
    t2: BinaryTree,
    batch: Seq<(Seq<u8>, Code)>,
    cat1: Seq<(Seq<u8>, Seq<Code>)>,
    cat2: Seq<(Seq<u8>, Seq<Code>)>,
    tpr1: nat,
    tpr2: nat,
    level1: nat,
    level2: nat,
    n1: nat,
    n2: nat,
)
    requires
        tree_ok(t1, batch, cat1, tpr1, level1, n1),
        tree_ok(t2, batch, cat2, tpr2, level2, n2),
    ensures
        crate::construct_tree::spec_total_depth(t1) == crate::construct_tree::spec_total_depth(
            t2,
        ),
{
    lemma_tree_ok_bounds(t1, batch, cat1, tpr1, level1, n1);
    lemma_tree_ok_bounds(t2, batch, cat2, tpr2, level2, n2);
}

/// The shape a sound tree takes over a batch of exactly two solutions:
/// one branch whose children are the two leaves, so one test decides, the
/// worst case and the total depth are both a single test, and a tree at a
/// round start carries a round code.
pub proof fn lemma_pair_tree_shape(
    t: BinaryTree,
    batch: Seq<(Seq<u8>, Code)>,
    cat: Seq<(Seq<u8>, Seq<Code>)>,
    tpr: nat,
    level: nat,
    n_tests: nat,
)
    requires
        tree_ok(t, batch, cat, tpr, level, n_tests),
        batch.len() == 2,
    ensures
        t matches BinaryTree::Branch(b) ==> b.correct is Leaf && b.incorrect is Leaf && (level
            == 0 ==> b.code is Some),
        t is Branch,
        crate::construct_tree::spec_max_depth(t) == 1,
        crate::construct_tree::spec_total_depth(t) == 1,
{
    lemma_tree_ok_bounds(t, batch, cat, tpr, level, n_tests);
    match t {
        BinaryTree::Leaf(_) => {},
        BinaryTree::Branch(b) => {
            let pass = split_pass(batch, b.test);
            let fail = split_fail(batch, b.test);
            let next = next_level(tpr, level);
            lemma_tree_ok_bounds(b.correct, pass, cat, tpr, next, n_tests);
            lemma_tree_ok_bounds(b.incorrect, fail, cat, tpr, next, n_tests);
            match b.correct {
                BinaryTree::Leaf(_) => {},
                BinaryTree::Branch(_) => {
                    assert(false);
                },
            }
            match b.incorrect {
                BinaryTree::Leaf(_) => {},
                BinaryTree::Branch(_) => {
                    assert(false);
                },
            }
        },
    }
}

/// Two batch solutions that both pass the test keep distinct positions in
/// the passing split.
proof fn lemma_split_pass_two(batch: Seq<(Seq<u8>, Code)>, t: Test, k: int, l: int)
    requires
        0 <= k < l < batch.len(),
        batch[k].0[t.0 as int] == t.1,
        batch[l].0[t.0 as int] == t.1,
    ensures
        exists|k2: int, l2: int|
            #![trigger split_pass(batch, t)[k2], split_pass(batch, t)[l2]]
            0 <= k2 < l2 < split_pass(batch, t).len() && split_pass(batch, t)[k2] == batch[k]
                && split_pass(batch, t)[l2] == batch[l],
    decreases batch.len(),
{
    let prefix = batch.drop_last();
    let sp = split_pass(batch, t);
    let rest = split_pass(prefix, t);
    if l == batch.len() - 1 {
        assert(prefix[k] == batch[k]);
        assert(prefix.contains(batch[k]));
        lemma_split_contains(prefix, t, batch[k]);
        let k2 = choose|k2: int| 0 <= k2 < rest.len() && rest[k2] == batch[k];
        assert(sp[k2] == batch[k]);
        assert(sp[rest.len() as int] == batch[l]);
    } else {
        lemma_split_pass_two(prefix, t, k, l);
        let (k2, l2): (int, int) = choose|k2: int, l2: int|
            #![trigger rest[k2], rest[l2]]
            0 <= k2 < l2 < rest.len() && rest[k2] == prefix[k] && rest[l2] == prefix[l];
        assert(sp[k2] == batch[k]);
        assert(sp[l2] == batch[l]);
    }
}

/// Two batch solutions that both fail the test keep distinct positions in
/// the failing split.
proof fn lemma_split_fail_two(batch: Seq<(Seq<u8>, Code)>, t: Test, k: int, l: int)
    requires
        0 <= k < l < batch.len(),
        batch[k].0[t.0 as int] != t.1,
        batch[l].0[t.0 as int] != t.1,
    ensures
        exists|k2: int, l2: int|
            #![trigger split_fail(batch, t)[k2], split_fail(batch, t)[l2]]
            0 <= k2 < l2 < split_fail(batch, t).len() && split_fail(batch, t)[k2] == batch[k]
                && split_fail(batch, t)[l2] == batch[l],
    decreases batch.len(),
{
    let prefix = batch.drop_last();
    let sf = split_fail(batch, t);
    let rest = split_fail(prefix, t);
    if l == batch.len() - 1 {
        assert(prefix[k] == batch[k]);
        assert(prefix.contains(batch[k]));
        lemma_split_contains(prefix, t, batch[k]);
        let k2 = choose|k2: int| 0 <= k2 < rest.len() && rest[k2] == batch[k];
        assert(sf[k2] == batch[k]);
        assert(sf[rest.len() as int] == batch[l]);
    } else {
        lemma_split_fail_two(prefix, t, k, l);
        let (k2, l2): (int, int) = choose|k2: int, l2: int|
            #![trigger rest[k2], rest[l2]]
            0 <= k2 < l2 < rest.len() && rest[k2] == prefix[k] && rest[l2] == prefix[l];
        assert(sf[k2] == batch[k]);
        assert(sf[l2] == batch[l]);
    }
}

/// Uniqueness of the tree's paths: within a sound tree's batch no outcome
/// vector repeats, so every solution answers some committed test unlike
/// every other and takes a root-to-leaf path of its own.  Together with
/// `lemma_tree_paths` and the leaf count of `lemma_tree_ok_bounds`, the
/// batch's solutions and the tree's leaves correspond one to one.
pub proof fn lemma_batch_vectors_distinct(
    t: BinaryTree,
    batch: Seq<(Seq<u8>, Code)>,
    cat: Seq<(Seq<u8>, Seq<Code>)>,
    tpr: nat,
    level: nat,
    n_tests: nat,
)
    requires
        tree_ok(t, batch, cat, tpr, level, n_tests),
    ensures
        forall|k: int, l: int|
            0 <= k < l < batch.len() ==> (#[trigger] batch[k]).0 != (#[trigger] batch[l]).0,
    decreases t,
{
    match t {
        BinaryTree::Leaf(_) => {},
        BinaryTree::Branch(b) => {
            let pass = split_pass(batch, b.test);
            let fail = split_fail(batch, b.test);
            let next = next_level(tpr, level);
            lemma_batch_vectors_distinct(b.correct, pass, cat, tpr, next, n_tests);
            lemma_batch_vectors_distinct(b.incorrect, fail, cat, tpr, next, n_tests);
            assert forall|k: int, l: int|
                0 <= k < l < batch.len() implies (#[trigger] batch[k]).0 != (
            #[trigger] batch[l]).0 by {
                if batch[k].0 == batch[l].0 {
                    if batch[k].0[b.test.0 as int] == b.test.1 {
                        lemma_split_pass_two(batch, b.test, k, l);
                        let (k2, l2): (int, int) = choose|k2: int, l2: int|
                            #![trigger pass[k2], pass[l2]]
                            0 <= k2 < l2 < pass.len() && pass[k2] == batch[k] && pass[l2]
                                == batch[l];
                        assert(pass[k2].0 != pass[l2].0);
                    } else {
                        lemma_split_fail_two(batch, b.test, k, l);
                        let (k2, l2): (int, int) = choose|k2: int, l2: int|
                            #![trigger fail[k2], fail[l2]]
                            0 <= k2 < l2 < fail.len() && fail[k2] == batch[k] && fail[l2]
                                == batch[l];
                        assert(fail[k2].0 != fail[l2].0);
                    }
                }
            }
        },
    }
}

} // verus!
