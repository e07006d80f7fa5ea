//! Construction of an optimal binary decision tree over a set of feasible
//! solutions for "guess who"-style binary search games.
//!
//! Beyond plain decision-tree search, the algorithm honours a round
//! constraint: a fixed number of consecutive tests (a round) have to be
//! performed with the same input code.  At every round boundary the search
//! certifies that one code exists which is consistent with every branch
//! the tree might take during that round.
use vstd::prelude::*;

use crate::catalogue::{batch_view, cat_wf, clone_vec_u8, Feasible, SolutionCatalogue};
use crate::rules::Code;

verus! {

broadcast use vstd::seq_lib::group_seq_properties;

/// A representation of a test, consisting of its test number as well as
/// its result.
pub type Test = (usize, u8);

/// A binary tree used to navigate the solution space with given tests.
///
/// A tree consists of branches, which have two children, and leaves, which
/// correspond to the feasible solutions.
///
/// To find the correct solution, start at the root of the binary tree and
/// -- assuming that it is a branch -- evaluate its test.  Depending on
/// whether the result of that test is true or false, move on to the
/// correct or incorrect child, respectively.  Repeat until you reach a
/// leaf, at which point you've found the correct combination.
#[derive(Debug)]
pub enum BinaryTree {
    Leaf(Code),
    Branch(Box<Branch>),
}

/// A branch within the tree.  See the description of BinaryTree for more
/// details.
#[derive(Debug)]
pub struct Branch {
    /// which test to perform.
    pub test: Test,
    /// the child tree containing all feasible solutions that pass the test.
    pub correct: BinaryTree,
    /// the child tree containing all feasible solutions that do not pass
    /// the test.
    pub incorrect: BinaryTree,
    /// an optional code that can be used to perform all the tests required
    /// for this round.
    pub code: Option<Code>,
}

/// The maximum depth of a tree: leaves have none, a branch adds one level
/// to its deeper child.
pub open spec fn spec_max_depth(t: BinaryTree) -> nat
    decreases t,
{
    match t {
        BinaryTree::Leaf(_) => 0,
        BinaryTree::Branch(b) => 1 + if spec_max_depth(b.correct) >= spec_max_depth(b.incorrect) {
            spec_max_depth(b.correct)
        } else {
            spec_max_depth(b.incorrect)
        },
    }
}

/// The total depth of a tree: leaves count nothing, every branch counts
/// one on top of both children.
pub open spec fn spec_total_depth(t: BinaryTree) -> nat
    decreases t,
{
    match t {
        BinaryTree::Leaf(_) => 0,
        BinaryTree::Branch(b) => 1 + spec_total_depth(b.correct) + spec_total_depth(b.incorrect),
    }
}

/// The number of nodes within a tree, leaves included.
pub open spec fn spec_size(t: BinaryTree) -> nat
    decreases t,
{
    match t {
        BinaryTree::Leaf(_) => 1,
        BinaryTree::Branch(b) => 1 + spec_size(b.correct) + spec_size(b.incorrect),
    }
}

/// The number of leaves of a tree.
pub open spec fn spec_leaf_count(t: BinaryTree) -> nat
    decreases t,
{
    match t {
        BinaryTree::Leaf(_) => 1,
        BinaryTree::Branch(b) => spec_leaf_count(b.correct) + spec_leaf_count(b.incorrect),
    }
}

/// The set of tests a walk down the tree might perform, from this node
/// down to `window` additional levels (inclusive).
pub open spec fn spec_tests(t: BinaryTree, window: nat) -> Set<Test>
    decreases t,
{
    match t {
        BinaryTree::Leaf(_) => Set::empty(),
        BinaryTree::Branch(b) => set![b.test].union(
            if window > 0 {
                spec_tests(b.correct, (window - 1) as nat).union(
                    spec_tests(b.incorrect, (window - 1) as nat),
                )
            } else {
                Set::empty()
            },
        ),
    }
}

/// The code a walk down the tree arrives at when every test is answered
/// according to `outcomes`.
pub open spec fn walk(t: BinaryTree, outcomes: Seq<u8>) -> Code
    decreases t,
{
    match t {
        BinaryTree::Leaf(c) => c,
        BinaryTree::Branch(b) => if outcomes[b.test.0 as int] == b.test.1 {
            walk(b.correct, outcomes)
        } else {
            walk(b.incorrect, outcomes)
        },
    }
}

/// The solutions of `batch` whose outcome at the test's number equals the
/// test's result, in order.
pub open spec fn split_pass(batch: Seq<(Seq<u8>, Code)>, t: Test) -> Seq<(Seq<u8>, Code)>
    decreases batch.len(),
{
    if batch.len() == 0 {
        Seq::empty()
    } else {
        let rest = split_pass(batch.drop_last(), t);
        if batch.last().0[t.0 as int] == t.1 {
            rest.push(batch.last())
        } else {
            rest
        }
    }
}

/// The solutions of `batch` whose outcome at the test's number differs
/// from the test's result, in order.
pub open spec fn split_fail(batch: Seq<(Seq<u8>, Code)>, t: Test) -> Seq<(Seq<u8>, Code)>
    decreases batch.len(),
{
    if batch.len() == 0 {
        Seq::empty()
    } else {
        let rest = split_fail(batch.drop_last(), t);
        if batch.last().0[t.0 as int] != t.1 {
            rest.push(batch.last())
        } else {
            rest
        }
    }
}

/// Whether some test of the window pins position `t` of the outcome
/// vector.
pub open spec fn window_pins(window: Set<Test>, t: int) -> bool {
    exists|s: Test| #[trigger] window.contains(s) && s.0 == t
}

/// Whether `code` is certified by the catalogue as a round code for the
/// given window of tests: some catalogue entry lists it first, that
/// entry's outcome vector reproduces the result of every test in the
/// window, and every position the window leaves free holds an outcome
/// value observed within the batch.
pub open spec fn round_code_ok(
    code: Option<Code>,
    window: Set<Test>,
    cat: Seq<(Seq<u8>, Seq<Code>)>,
    n_tests: nat,
    batch: Seq<(Seq<u8>, Code)>,
) -> bool {
    exists|j: int|
        {
            &&& 0 <= j < cat.len()
            &&& (#[trigger] cat[j]).0.len() == n_tests
            &&& cat[j].1.len() > 0
            &&& code == Some(cat[j].1[0])
            &&& forall|s: Test| #[trigger] window.contains(s) ==> cat[j].0[s.0 as int] == s.1
            &&& forall|t: int|
                0 <= t < n_tests && !window_pins(window, t) ==> value_observed(
                    batch,
                    t,
                    cat[j].0[t],
                )
        }
}

/// The round-relative level of the tree node one step below a node at
/// round-relative `level`, for a round of `tpr` tests: levels run from 0
/// to one below the round size and then wrap to start a new round.
pub open spec fn next_level(tpr: nat, level: nat) -> nat {
    if level + 1 == tpr {
        0nat
    } else {
        level + 1
    }
}

/// Soundness of a decision tree for a batch of solutions.
///
/// A leaf stands for the batch's single solution.  A branch names a test
/// whose number lies within the catalogue of active tests, partitions the
/// batch into two non-empty halves exactly along that test, and carries
/// sound subtrees for the halves.  A node at a round start (level 0 of the
/// current round) carries a round code certified by the catalogue for the
/// whole round window; every other node carries none.
pub open spec fn tree_ok(
    t: BinaryTree,
    batch: Seq<(Seq<u8>, Code)>,
    cat: Seq<(Seq<u8>, Seq<Code>)>,
    tpr: nat,
    level: nat,
    n_tests: nat,
) -> bool
    decreases t,
{
    match t {
        BinaryTree::Leaf(c) => batch.len() == 1 && batch[0].1 == c,
        BinaryTree::Branch(b) => {
            let pass = split_pass(batch, b.test);
            let fail = split_fail(batch, b.test);
            let next = next_level(tpr, level);
            &&& (b.test.0 as int) < n_tests
            &&& pass.len() > 0
            &&& fail.len() > 0
            &&& tree_ok(b.correct, pass, cat, tpr, next, n_tests)
            &&& tree_ok(b.incorrect, fail, cat, tpr, next, n_tests)
            &&& (level == 0 ==> round_code_ok(
                b.code,
                spec_tests(t, (tpr - 1) as nat),
                cat,
                n_tests,
                batch,
            ))
            &&& (level != 0 ==> b.code is None)
        },
    }
}

/// The two splits of a batch partition it: their lengths sum to its own.
pub proof fn lemma_split_counts(batch: Seq<(Seq<u8>, Code)>, t: Test)
    ensures
        split_pass(batch, t).len() + split_fail(batch, t).len() == batch.len(),
    decreases batch.len(),
{
    if batch.len() > 0 {
        lemma_split_counts(batch.drop_last(), t);
    }
}

/// Every solution of the passing split comes from the batch and passes the
/// test; symmetrically for the failing split.
pub proof fn lemma_split_elems(batch: Seq<(Seq<u8>, Code)>, t: Test)
    ensures
        forall|k: int|
            0 <= k < split_pass(batch, t).len() ==> batch.contains(
                #[trigger] split_pass(batch, t)[k],
            ) && split_pass(batch, t)[k].0[t.0 as int] == t.1,
        forall|k: int|
            0 <= k < split_fail(batch, t).len() ==> batch.contains(
                #[trigger] split_fail(batch, t)[k],
            ) && split_fail(batch, t)[k].0[t.0 as int] != t.1,
    decreases batch.len(),
{
    if batch.len() > 0 {
        let prefix = batch.drop_last();
        lemma_split_elems(prefix, t);
        assert forall|e: (Seq<u8>, Code)| prefix.contains(e) implies batch.contains(e) by {
            let w = choose|w: int| 0 <= w < prefix.len() && prefix[w] == e;
            assert(batch[w] == e);
        }
        assert(batch.contains(batch.last())) by {
            assert(batch[batch.len() - 1] == batch.last());
        }
        let sp = split_pass(batch, t);
        let rp = split_pass(prefix, t);
        assert forall|k: int|
            0 <= k < sp.len() implies batch.contains(#[trigger] sp[k]) && sp[k].0[t.0 as int]
            == t.1 by {
            if k < rp.len() {
                assert(sp[k] == rp[k]);
            } else {
                assert(sp[k] == batch.last());
            }
        }
        let sf = split_fail(batch, t);
        let rf = split_fail(prefix, t);
        assert forall|k: int|
            0 <= k < sf.len() implies batch.contains(#[trigger] sf[k]) && sf[k].0[t.0 as int]
            != t.1 by {
            if k < rf.len() {
                assert(sf[k] == rf[k]);
            } else {
                assert(sf[k] == batch.last());
            }
        }
    }
}

/// A batch solution that passes the test is contained in the passing
/// split; one that fails it, in the failing split.
pub proof fn lemma_split_contains(batch: Seq<(Seq<u8>, Code)>, t: Test, e: (Seq<u8>, Code))
    requires
        batch.contains(e),
    ensures
        e.0[t.0 as int] == t.1 ==> split_pass(batch, t).contains(e),
        e.0[t.0 as int] != t.1 ==> split_fail(batch, t).contains(e),
    decreases batch.len(),
{
    if batch.len() > 0 {
        let prefix = batch.drop_last();
        if e == batch.last() {
            if e.0[t.0 as int] == t.1 {
                assert(split_pass(batch, t).last() == e);
            } else {
                assert(split_fail(batch, t).last() == e);
            }
        } else {
            let w = choose|w: int| 0 <= w < batch.len() && batch[w] == e;
            assert(prefix[w] == e);
            assert(prefix.contains(e));
            lemma_split_contains(prefix, t, e);
        }
    }
}

/// Bounds a sound tree obeys: its maximum depth stays below the batch
/// size, its total depth is exactly one branch per batch solution but
/// one, it has exactly one leaf per batch solution, and every test it
/// might perform is an active test of the catalogue.
pub proof fn lemma_tree_ok_bounds(
    t: BinaryTree,
    batch: Seq<(Seq<u8>, Code)>,
    cat: Seq<(Seq<u8>, Seq<Code>)>,
    tpr: nat,
    level: nat,
    n_tests: nat,
)
    requires
        tree_ok(t, batch, cat, tpr, level, n_tests),
    ensures
        spec_max_depth(t) < batch.len(),
        spec_total_depth(t) + 1 == batch.len(),
        spec_leaf_count(t) == batch.len(),
        forall|w: nat, s: Test|
            #[trigger] spec_tests(t, w).contains(s) ==> (s.0 as int) < n_tests,
    decreases t,
{
    match t {
        BinaryTree::Leaf(_) => {
            assert forall|w: nat, s: Test|
                #[trigger] spec_tests(t, w).contains(s) implies (s.0 as int) < n_tests by {
                assert(spec_tests(t, w) == Set::<Test>::empty());
            }
        },
        BinaryTree::Branch(b) => {
            let pass = split_pass(batch, b.test);
            let fail = split_fail(batch, b.test);
            let next = next_level(tpr, level);
            lemma_split_counts(batch, b.test);
            lemma_tree_ok_bounds(b.correct, pass, cat, tpr, next, n_tests);
            lemma_tree_ok_bounds(b.incorrect, fail, cat, tpr, next, n_tests);
            assert forall|w: nat, s: Test|
                #[trigger] spec_tests(t, w).contains(s) implies (s.0 as int) < n_tests by {
                if s != b.test {
                    assert(w > 0);
                    assert(spec_tests(b.correct, (w - 1) as nat).contains(s) || spec_tests(
                        b.incorrect,
                        (w - 1) as nat,
                    ).contains(s));
                }
            }
        },
    }
}

impl BinaryTree {
    /// Return the maximum depth of the tree (leaves do not have depth).
    /// An optimal tree minimizes this value.
    pub fn max_depth(&self) -> (r: u8)
        requires
            spec_max_depth(*self) <= u8::MAX,
        ensures
            r == spec_max_depth(*self),
        decreases *self,
    {
        match self {
            BinaryTree::Leaf(_) => 0,
            BinaryTree::Branch(b) => b.max_depth(),
        }
    }

    /// Return the total depth of the tree (leaves do not have depth).
    /// An optimal tree minimizes this value as its tie-breaker.
    pub fn total_depth(&self) -> (r: usize)
        requires
            spec_total_depth(*self) <= usize::MAX,
        ensures
            r == spec_total_depth(*self),
        decreases *self,
    {
        match self {
            BinaryTree::Leaf(_) => 0,
            BinaryTree::Branch(b) => b.total_depth(),
        }
    }

    /// Return the number of nodes within this tree.
    pub fn size(&self) -> (r: u8)
        requires
            spec_size(*self) <= u8::MAX,
        ensures
            r == spec_size(*self),
        decreases *self,
    {
        match self {
            BinaryTree::Leaf(_) => 1,
            BinaryTree::Branch(b) => {
                let c = b.correct.size();
                let i = b.incorrect.size();
                1 + c + i
            },
        }
    }

    /// Get the tests required to follow this tree `sub_levels` deep.  This
    /// is important to make sure it's actually possible to perform all
    /// tests of a round using the same code.
    pub fn get_tests(&self, sub_levels: u8) -> (r: Vec<Test>)
        ensures
            forall|s: Test|
                r@.contains(s) <==> spec_tests(*self, sub_levels as nat).contains(s),
        decreases *self,
    {
        match self {
            BinaryTree::Leaf(_) => Vec::new(),
            BinaryTree::Branch(b) => b.get_tests(sub_levels),
        }
    }

    /// A structural copy of the tree.
    pub fn duplicate(&self) -> (r: BinaryTree)
        ensures
            r == *self,
        decreases *self,
    {
        match self {
            BinaryTree::Leaf(c) => BinaryTree::Leaf(*c),
            BinaryTree::Branch(b) => BinaryTree::Branch(
                Box::new(
                    Branch {
                        test: b.test,
                        correct: b.correct.duplicate(),
                        incorrect: b.incorrect.duplicate(),
                        code: b.code,
                    },
                ),
            ),
        }
    }
}

impl Branch {
    /// The tests reachable from this branch within `sub_levels` further
    /// levels: its own test, and for a positive window the tests of both
    /// children one window step down.
    pub fn get_tests(&self, sub_levels: u8) -> (r: Vec<Test>)
        ensures
            forall|s: Test|
                r@.contains(s) <==> (s == self.test || (sub_levels > 0 && (spec_tests(
                    self.correct,
                    (sub_levels - 1) as nat,
                ).contains(s) || spec_tests(self.incorrect, (sub_levels - 1) as nat).contains(
                    s,
                )))),
        decreases *self,
    {
        let mut tests: Vec<Test> = Vec::new();
        tests.push(self.test);
        if sub_levels > 0 {
            let mut c = self.correct.get_tests(sub_levels - 1);
            let mut i = self.incorrect.get_tests(sub_levels - 1);
            let ghost c_snap = c@;
            let ghost i_snap = i@;
            tests.append(&mut c);
            tests.append(&mut i);
            proof {
                assert(tests@ =~= seq![self.test] + c_snap + i_snap);
            }
        }
        tests
    }

    /// see above
    pub fn max_depth(&self) -> (r: u8)
        requires
            spec_max_depth(self.correct) < u8::MAX,
            spec_max_depth(self.incorrect) < u8::MAX,
        ensures
            r as nat == 1 + if spec_max_depth(self.correct) >= spec_max_depth(self.incorrect) {
                spec_max_depth(self.correct)
            } else {
                spec_max_depth(self.incorrect)
            },
        decreases *self,
    {
        let c = self.correct.max_depth();
        let i = self.incorrect.max_depth();
        if c >= i {
            1 + c
        } else {
            1 + i
        }
    }

    /// see above
    pub fn total_depth(&self) -> (r: usize)
        requires
            1 + spec_total_depth(self.correct) + spec_total_depth(self.incorrect) <= usize::MAX,
        ensures
            r as nat == 1 + spec_total_depth(self.correct) + spec_total_depth(self.incorrect),
        decreases *self,
    {
        let c = self.correct.total_depth();
        let i = self.incorrect.total_depth();
        1 + c + i
    }
}

/// The result of performing a certain test and sorting the feasible
/// solutions by whether they passed the test or not.
struct TestResult {
    test: Test,
    correct: Vec<Feasible>,
    incorrect: Vec<Feasible>,
}

/// The heuristic promise of a split: the smaller partition's size.
spec fn spec_estimate(tr: TestResult) -> nat {
    if tr.correct@.len() <= tr.incorrect@.len() {
        tr.correct@.len()
    } else {
        tr.incorrect@.len()
    }
}

/// A test result usable as a branch of the search: its test is an active
/// test, it partitions the batch exactly, and neither side is empty.
spec fn split_ok(tr: TestResult, batch: Seq<(Seq<u8>, Code)>, n_tests: int) -> bool {
    &&& (tr.test.0 as int) < n_tests
    &&& batch_view(tr.correct@) == split_pass(batch, tr.test)
    &&& batch_view(tr.incorrect@) == split_fail(batch, tr.test)
    &&& tr.correct@.len() > 0
    &&& tr.incorrect@.len() > 0
    &&& tr.correct@.len() + tr.incorrect@.len() == batch.len()
}

impl TestResult {
    /// Perform a test on a set of feasible solutions and return the
    /// results.
    fn from_test(entries: &Vec<Feasible>, test: Test) -> (r: TestResult)
        requires
            forall|k: int|
                0 <= k < entries@.len() ==> (test.0 as int) < (#[trigger] entries@[k]).0@.len(),
        ensures
            r.test == test,
            batch_view(r.correct@) == split_pass(batch_view(entries@), test),
            batch_view(r.incorrect@) == split_fail(batch_view(entries@), test),
            r.correct@.len() + r.incorrect@.len() == entries@.len(),
    {
        let ghost bv = batch_view(entries@);
        let mut correct: Vec<Feasible> = Vec::new();
        let mut incorrect: Vec<Feasible> = Vec::new();
        let mut k: usize = 0;
        while k < entries.len()
            invariant
                k <= entries.len(),
                forall|t: int|
                    0 <= t < entries@.len() ==> (test.0 as int) < (
                    #[trigger] entries@[t]).0@.len(),
                bv == batch_view(entries@),
                bv.len() == entries@.len(),
                batch_view(correct@) == split_pass(bv.take(k as int), test),
                batch_view(incorrect@) == split_fail(bv.take(k as int), test),
                correct@.len() + incorrect@.len() == k,
            decreases entries.len() - k,
        {
            let ghost prev_c = correct@;
            let ghost prev_i = incorrect@;
            let e = &entries[k];
            let copy = (clone_vec_u8(&e.0), e.1);
            let ghost fv = (copy.0@, copy.1);
            proof {
                assert(fv == bv[k as int]);
            }
            if copy.0[test.0] == test.1 {
                correct.push(copy);
                proof {
                    assert(batch_view(correct@) =~= batch_view(prev_c).push(fv));
                }
            } else {
                incorrect.push(copy);
                proof {
                    assert(batch_view(incorrect@) =~= batch_view(prev_i).push(fv));
                }
            }
            proof {
                assert(bv.take(k + 1).drop_last() =~= bv.take(k as int));
                assert(bv.take(k + 1).last() == bv[k as int]);
                assert(batch_view(correct@) == split_pass(bv.take(k + 1), test));
                assert(batch_view(incorrect@) == split_fail(bv.take(k + 1), test));
            }
            k += 1;
        }
        proof {
            assert(bv.take(bv.len() as int) =~= bv);
        }
        TestResult { test, correct, incorrect }
    }

    /// A heuristic value determining how promising this test is to
    /// perform.
    ///
    /// Under the hood, this simply tries to split the current test
    /// results as evenly as possible: the value is the smaller partition
    /// size.
    fn estimated_value(&self) -> (r: usize)
        ensures
            r == spec_estimate(*self),
    {
        if self.correct.len() <= self.incorrect.len() {
            self.correct.len()
        } else {
            self.incorrect.len()
        }
    }
}

/// Form every usable split of the batch: for each active test not yet
/// claimed this round, and each of its observed outcome values, partition
/// the batch and keep the splits where both sides are inhabited.
///
/// No kept split reuses a claimed test number.  A ghost test may be
/// pinned: one that is active, unclaimed and splits the batch without a
/// vacuous side is then guaranteed a place in the result.
#[verifier::loop_isolation(false)]
fn gather_splits(
    entries: &Vec<Feasible>,
    tests: &Vec<Vec<u8>>,
    used_tests: &Vec<Test>,
    Ghost(pin): Ghost<(bool, Test)>,
) -> (nodes: Vec<TestResult>)
    requires
        forall|k: int|
            0 <= k < entries@.len() ==> (#[trigger] entries@[k]).0@.len() == tests@.len(),
        pin.0 ==> {
            &&& (pin.1.0 as int) < tests@.len()
            &&& tests@[pin.1.0 as int]@.contains(pin.1.1)
            &&& !committed_at(used_tests@, pin.1.0 as int)
            &&& split_pass(batch_view(entries@), pin.1).len() > 0
            &&& split_fail(batch_view(entries@), pin.1).len() > 0
        },
    ensures
        forall|i: int|
            0 <= i < nodes@.len() ==> split_ok(
                #[trigger] nodes@[i],
                batch_view(entries@),
                tests@.len() as int,
            ),
        forall|i: int|
            0 <= i < nodes@.len() ==> !committed_at(
                used_tests@,
                (#[trigger] nodes@[i]).test.0 as int,
            ),
        pin.0 ==> exists|m: int| 0 <= m < nodes@.len() && (#[trigger] nodes@[m]).test == pin.1,
{
    let ghost batch = batch_view(entries@);
    let ghost pvi: int = if pin.0 {
        choose|pvi: int|
            0 <= pvi < tests@[pin.1.0 as int]@.len() && tests@[pin.1.0 as int]@[pvi] == pin.1.1
    } else {
        0
    };
    let ghost mut ppos: int = 0;
    let ghost mut placed: bool = false;
    let mut nodes: Vec<TestResult> = Vec::new();
    let mut i: usize = 0;
    while i < tests.len()
        invariant
            i <= tests.len(),
            forall|k: int|
                0 <= k < entries@.len() ==> (#[trigger] entries@[k]).0@.len() == tests@.len(),
            forall|t: int|
                0 <= t < nodes@.len() ==> split_ok(
                    #[trigger] nodes@[t],
                    batch,
                    tests@.len() as int,
                ),
            forall|t: int|
                0 <= t < nodes@.len() ==> !committed_at(
                    used_tests@,
                    (#[trigger] nodes@[t]).test.0 as int,
                ),
            pin.0 ==> {
                &&& (pin.1.0 as int) < tests@.len()
                &&& 0 <= pvi < tests@[pin.1.0 as int]@.len()
                &&& tests@[pin.1.0 as int]@[pvi] == pin.1.1
                &&& !committed_at(used_tests@, pin.1.0 as int)
                &&& split_pass(batch, pin.1).len() > 0
                &&& split_fail(batch, pin.1).len() > 0
            },
            placed ==> 0 <= ppos < nodes@.len() && nodes@[ppos].test == pin.1,
            pin.0 && (pin.1.0 as int) < i ==> placed,
        decreases tests.len() - i,
    {
        // ignore tests if the same test has been used in a previous
        // attempt this round
        let mut used = false;
        let ghost mut uw: int = 0;
        let mut u: usize = 0;
        while u < used_tests.len()
            invariant
                u <= used_tests.len(),
                !used ==> forall|t: int| 0 <= t < u ==> (#[trigger] used_tests@[t]).0 != i,
                used ==> 0 <= uw < used_tests@.len() && used_tests@[uw].0 == i,
            decreases used_tests.len() - u,
        {
            if used_tests[u].0 == i {
                used = true;
                proof {
                    uw = u as int;
                }
            }
            u += 1;
        }
        proof {
            if used {
                assert(used_tests@.contains(used_tests@[uw]));
                assert(committed_at(used_tests@, i as int));
            } else {
                if committed_at(used_tests@, i as int) {
                    let st = choose|st: Test| #[trigger] used_tests@.contains(st) && st.0 == i;
                    let w = choose|w: int| 0 <= w < used_tests@.len() && used_tests@[w] == st;
                    assert(false);
                }
            }
        }
        if !used {
            let mut vi: usize = 0;
            while vi < tests[i].len()
                invariant
                    i < tests@.len(),
                    vi <= tests@[i as int]@.len(),
                    !committed_at(used_tests@, i as int),
                    forall|k: int|
                        0 <= k < entries@.len() ==> (#[trigger] entries@[k]).0@.len()
                            == tests@.len(),
                    forall|t: int|
                        0 <= t < nodes@.len() ==> split_ok(
                            #[trigger] nodes@[t],
                            batch,
                            tests@.len() as int,
                        ),
                    forall|t: int|
                        0 <= t < nodes@.len() ==> !committed_at(
                            used_tests@,
                            (#[trigger] nodes@[t]).test.0 as int,
                        ),
                    pin.0 ==> {
                        &&& 0 <= pvi < tests@[pin.1.0 as int]@.len()
                        &&& tests@[pin.1.0 as int]@[pvi] == pin.1.1
                        &&& split_pass(batch, pin.1).len() > 0
                        &&& split_fail(batch, pin.1).len() > 0
                    },
                    placed ==> 0 <= ppos < nodes@.len() && nodes@[ppos].test == pin.1,
                    pin.0 && (pin.1.0 as int) < i ==> placed,
                    pin.0 && (pin.1.0 as int) == i && pvi < vi ==> placed,
                decreases tests@[i as int]@.len() - vi,
            {
                let v = tests[i][vi];
                let res = TestResult::from_test(entries, (i, v));
                if res.correct.len() > 0 && res.incorrect.len() > 0 {
                    proof {
                        assert(batch_view(res.correct@).len() == res.correct@.len());
                        assert(batch_view(entries@).len() == entries@.len());
                    }
                    nodes.push(res);
                    proof {
                        if pin.0 && (pin.1.0 as int) == i as int && pvi == vi as int {
                            ppos = nodes@.len() - 1;
                            placed = true;
                        }
                    }
                } else {
                    proof {
                        if pin.0 && (pin.1.0 as int) == i as int && pvi == vi as int {
                            assert(batch_view(res.correct@).len() == split_pass(
                                batch,
                                pin.1,
                            ).len());
                            assert(batch_view(res.incorrect@).len() == split_fail(
                                batch,
                                pin.1,
                            ).len());
                            assert(false);
                        }
                    }
                }
                vi += 1;
            }
        }
        i += 1;
    }
    proof {
        if pin.0 {
            assert(placed);
            assert(nodes@[ppos].test == pin.1);
        }
    }
    nodes
}

/// Order the splits by descending heuristic value, most promising first:
/// the more information we are guaranteed to get from a test, the more
/// promising it is.  Splits of equal promise keep their relative order;
/// a pinned test keeps its place in the result.
fn order_splits(
    nodes: Vec<TestResult>,
    Ghost(batch): Ghost<Seq<(Seq<u8>, Code)>>,
    Ghost(n_tests): Ghost<int>,
    Ghost(used): Ghost<Seq<Test>>,
    Ghost(pin): Ghost<(bool, Test)>,
) -> (r: Vec<TestResult>)
    requires
        forall|i: int| 0 <= i < nodes@.len() ==> split_ok(#[trigger] nodes@[i], batch, n_tests),
        forall|i: int|
            0 <= i < nodes@.len() ==> !committed_at(used, (#[trigger] nodes@[i]).test.0 as int),
        pin.0 ==> exists|m: int| 0 <= m < nodes@.len() && (#[trigger] nodes@[m]).test == pin.1,
    ensures
        forall|i: int| 0 <= i < r@.len() ==> split_ok(#[trigger] r@[i], batch, n_tests),
        forall|i: int|
            0 <= i < r@.len() ==> !committed_at(used, (#[trigger] r@[i]).test.0 as int),
        r@.len() == nodes@.len(),
        forall|i1: int, i2: int|
            0 <= i1 < i2 < r@.len() ==> spec_estimate(#[trigger] r@[i1]) >= spec_estimate(
                #[trigger] r@[i2],
            ),
        pin.0 ==> exists|m: int| 0 <= m < r@.len() && (#[trigger] r@[m]).test == pin.1,
{
    let ghost total = nodes@.len();
    let ghost mut ppos: int = if pin.0 {
        choose|m: int| 0 <= m < nodes@.len() && (#[trigger] nodes@[m]).test == pin.1
    } else {
        0
    };
    let ghost mut placed: bool = false;
    let mut rest = nodes;
    let mut sorted: Vec<TestResult> = Vec::new();
    while rest.len() > 0
        invariant
            forall|i: int| 0 <= i < rest@.len() ==> split_ok(#[trigger] rest@[i], batch, n_tests),
            forall|i: int|
                0 <= i < sorted@.len() ==> split_ok(#[trigger] sorted@[i], batch, n_tests),
            forall|i: int|
                0 <= i < rest@.len() ==> !committed_at(
                    used,
                    (#[trigger] rest@[i]).test.0 as int,
                ),
            forall|i: int|
                0 <= i < sorted@.len() ==> !committed_at(
                    used,
                    (#[trigger] sorted@[i]).test.0 as int,
                ),
            sorted@.len() + rest@.len() == total,
            forall|i1: int, i2: int|
                0 <= i1 < i2 < sorted@.len() ==> spec_estimate(#[trigger] sorted@[i1])
                    >= spec_estimate(#[trigger] sorted@[i2]),
            forall|i1: int, i2: int|
                #![trigger sorted@[i1], rest@[i2]]
                0 <= i1 < sorted@.len() && 0 <= i2 < rest@.len() ==> spec_estimate(sorted@[i1])
                    >= spec_estimate(rest@[i2]),
            pin.0 && !placed ==> 0 <= ppos < rest@.len() && rest@[ppos].test == pin.1,
            pin.0 && placed ==> 0 <= ppos < sorted@.len() && sorted@[ppos].test == pin.1,
        decreases rest.len(),
    {
        let mut best: usize = 0;
        let mut bi: usize = 1;
        while bi < rest.len()
            invariant
                rest@.len() > 0,
                best < rest@.len(),
                bi <= rest@.len(),
                forall|t: int|
                    0 <= t < bi ==> spec_estimate(rest@[best as int]) >= spec_estimate(
                        #[trigger] rest@[t],
                    ),
            decreases rest.len() - bi,
        {
            if rest[bi].estimated_value() > rest[best].estimated_value() {
                best = bi;
            }
            bi += 1;
        }
        let ghost old_rest = rest@;
        let tr = rest.remove(best);
        proof {
            assert(forall|t: int|
                0 <= t < rest@.len() ==> #[trigger] rest@[t] == if t < best {
                    old_rest[t]
                } else {
                    old_rest[t + 1]
                });
        }
        sorted.push(tr);
        proof {
            if pin.0 && !placed {
                if ppos == best {
                    placed = true;
                    ppos = sorted@.len() - 1;
                } else if ppos > best {
                    ppos = ppos - 1;
                }
            }
        }
    }
    proof {
        if pin.0 {
            assert(placed);
            assert(sorted@[ppos].test == pin.1);
        }
    }
    sorted
}

/// A test-for-test copy of a window of committed tests.
fn clone_tests(v: &Vec<Test>) -> (r: Vec<Test>)
    ensures
        r@ == v@,
{
    let mut r: Vec<Test> = Vec::new();
    let mut i: usize = 0;
    while i < v.len()
        invariant
            i <= v.len(),
            r@ =~= v@.take(i as int),
        decreases v.len() - i,
    {
        r.push(v[i]);
        i += 1;
    }
    proof {
        assert(r@ =~= v@);
    }
    r
}

/// Whether two windows of committed tests agree: no test number may
/// appear in both with two different results, for then no single round
/// code could reproduce both.
fn tests_consistent(a: &Vec<Test>, b: &Vec<Test>) -> (r: bool)
    ensures
        r <==> forall|x: Test, y: Test|
            #![trigger a@.contains(x), b@.contains(y)]
            a@.contains(x) && b@.contains(y) && x.0 == y.0 ==> x.1 == y.1,
{
    let mut ia: usize = 0;
    while ia < a.len()
        invariant
            ia <= a.len(),
            forall|t: int, y: Test|
                #![trigger a@[t], b@.contains(y)]
                0 <= t < ia && b@.contains(y) && a@[t].0 == y.0 ==> a@[t].1 == y.1,
        decreases a.len() - ia,
    {
        let mut ib: usize = 0;
        while ib < b.len()
            invariant
                ia < a@.len(),
                ib <= b.len(),
                forall|t: int, y: Test|
                    #![trigger a@[t], b@.contains(y)]
                    0 <= t < ia && b@.contains(y) && a@[t].0 == y.0 ==> a@[t].1 == y.1,
                forall|t: int|
                    0 <= t < ib && a@[ia as int].0 == (#[trigger] b@[t]).0 ==> a@[ia as int].1
                        == b@[t].1,
            decreases b.len() - ib,
        {
            if a[ia].0 == b[ib].0 && a[ia].1 != b[ib].1 {
                proof {
                    assert(a@.contains(a@[ia as int]));
                    assert(b@.contains(b@[ib as int]));
                }
                return false;
            }
            ib += 1;
        }
        proof {
            assert forall|y: Test| b@.contains(y) && a@[ia as int].0 == y.0 implies a@[
                ia as int
            ].1 == y.1 by {
                let w = choose|w: int| 0 <= w < b@.len() && b@[w] == y;
            }
        }
        ia += 1;
    }
    proof {
        assert forall|x: Test, y: Test|
            #![trigger a@.contains(x), b@.contains(y)]
            a@.contains(x) && b@.contains(y) && x.0 == y.0 implies x.1 == y.1 by {
            let w = choose|w: int| 0 <= w < a@.len() && a@[w] == x;
        }
    }
    true
}

/// The number of combinations the per-position value sets admit: the
/// product of their sizes.
pub open spec fn product_of(input: Seq<Vec<u8>>) -> nat
    decreases input.len(),
{
    if input.len() == 0 {
        1
    } else {
        product_of(input.drop_last()) * input.last()@.len()
    }
}

/// Whether `s` picks, for every position, one of the values that the
/// per-position value sets of `input` offer there.
pub open spec fn selects_from(s: Seq<u8>, input: Seq<Vec<u8>>) -> bool {
    s.len() == input.len() && (forall|i: int|
        0 <= i < input.len() ==> (#[trigger] input[i])@.contains(s[i]))
}

/// All combinations of one value per test, over the given per-test value
/// sets: the candidate outcome vectors a round code may produce.  The
/// enumeration is sound and complete, and it returns exactly as many
/// vectors as the sets admit combinations, so with duplicate-free sets
/// each combination appears exactly once; empty input yields the one
/// empty combination.
pub fn get_permutations(input: &Vec<Vec<u8>>) -> (r: Vec<Vec<u8>>)
    ensures
        forall|p: int| 0 <= p < r@.len() ==> (#[trigger] r@[p])@.len() == input@.len(),
        forall|p: int, t: int|
            #![trigger r@[p]@[t]]
            0 <= p < r@.len() && 0 <= t < input@.len() ==> input@[t]@.contains(r@[p]@[t]),
        forall|s: Seq<u8>|
            #[trigger] selects_from(s, input@) ==> exists|p: int|
                0 <= p < r@.len() && (#[trigger] r@[p])@ == s,
        r@.len() == product_of(input@),
{
    let mut results: Vec<Vec<u8>> = Vec::new();
    results.push(Vec::new());
    proof {
        assert forall|s: Seq<u8>| #[trigger] selects_from(s, input@.take(0)) implies exists|
        p: int,
        |
            0 <= p < results@.len() && (#[trigger] results@[p])@ == s by {
            assert(s =~= results@[0]@);
        }
    }
    let mut i: usize = 0;
    while i < input.len()
        invariant
            i <= input.len(),
            forall|p: int| 0 <= p < results@.len() ==> (#[trigger] results@[p])@.len() == i as int,
            forall|p: int, t: int|
                #![trigger results@[p]@[t]]
                0 <= p < results@.len() && 0 <= t < i ==> input@[t]@.contains(results@[p]@[t]),
            forall|s: Seq<u8>|
                #[trigger] selects_from(s, input@.take(i as int)) ==> exists|p: int|
                    0 <= p < results@.len() && (#[trigger] results@[p])@ == s,
            results@.len() == product_of(input@.take(i as int)),
        decreases input.len() - i,
    {
        let mut new_results: Vec<Vec<u8>> = Vec::new();
        proof {
            assert(input@.take(i + 1).drop_last() =~= input@.take(i as int));
            assert(input@.take(i + 1).last() == input@[i as int]);
            assert(product_of(input@.take(i + 1)) == product_of(input@.take(i as int))
                * input@[i as int]@.len());
            assert forall|s: Seq<u8>|
                #[trigger] selects_from(s, input@.take(i + 1)) implies selects_from(
                s.take(i as int),
                input@.take(i as int),
            ) by {
                assert(forall|t: int|
                    0 <= t < i ==> (#[trigger] input@.take(i as int)[t]) == input@.take(
                        i + 1,
                    )[t]);
            }
        }
        while results.len() > 0
            invariant
                i < input@.len(),
                forall|p: int|
                    0 <= p < results@.len() ==> (#[trigger] results@[p])@.len() == i as int,
                forall|p: int, t: int|
                    #![trigger results@[p]@[t]]
                    0 <= p < results@.len() && 0 <= t < i ==> input@[t]@.contains(
                        results@[p]@[t],
                    ),
                forall|p: int|
                    0 <= p < new_results@.len() ==> (#[trigger] new_results@[p])@.len() == i + 1,
                forall|p: int, t: int|
                    #![trigger new_results@[p]@[t]]
                    0 <= p < new_results@.len() && 0 <= t < i + 1 ==> input@[t]@.contains(
                        new_results@[p]@[t],
                    ),
                forall|s: Seq<u8>|
                    #[trigger] selects_from(s, input@.take(i + 1)) ==> (exists|p: int|
                        0 <= p < new_results@.len() && (#[trigger] new_results@[p])@ == s) || (
                    exists|q: int|
                        0 <= q < results@.len() && (#[trigger] results@[q])@ == s.take(i as int)),
                new_results@.len() + results@.len() * input@[i as int]@.len() == product_of(
                    input@.take(i + 1),
                ),
            decreases results.len(),
        {
            let ghost pre_results = results@;
            let popped = results.pop();
            let rr = popped.unwrap();
            let ghost nr_start = new_results@;
            let mut vi: usize = 0;
            while vi < input[i].len()
                invariant
                    i < input@.len(),
                    vi <= input@[i as int]@.len(),
                    rr@.len() == i as int,
                    forall|t: int| 0 <= t < i ==> input@[t]@.contains(#[trigger] rr@[t]),
                    forall|p: int|
                        0 <= p < new_results@.len() ==> (#[trigger] new_results@[p])@.len() == i
                            + 1,
                    forall|p: int, t: int|
                        #![trigger new_results@[p]@[t]]
                        0 <= p < new_results@.len() && 0 <= t < i + 1 ==> input@[t]@.contains(
                            new_results@[p]@[t],
                        ),
                    new_results@.len() == nr_start.len() + vi,
                    forall|p: int|
                        0 <= p < nr_start.len() ==> #[trigger] new_results@[p] == nr_start[p],
                    forall|v2: int|
                        #![trigger input@[i as int]@[v2]]
                        0 <= v2 < vi ==> exists|p: int|
                            0 <= p < new_results@.len() && (#[trigger] new_results@[p])@
                                == rr@.push(input@[i as int]@[v2]),
                decreases input@[i as int]@.len() - vi,
            {
                let mut new = clone_vec_u8(&rr);
                new.push(input[i][vi]);
                proof {
                    assert(new@ =~= rr@.push(input@[i as int]@[vi as int]));
                    assert(new@[i as int] == input@[i as int]@[vi as int]);
                    assert(input@[i as int]@.contains(new@[i as int]));
                }
                let ghost old_nr = new_results@;
                new_results.push(new);
                proof {
                    assert forall|v2: int|
                        #![trigger input@[i as int]@[v2]]
                        0 <= v2 < vi + 1 implies exists|p: int|
                        0 <= p < new_results@.len() && (#[trigger] new_results@[p])@ == rr@.push(
                            input@[i as int]@[v2],
                        ) by {
                        if v2 < vi {
                            let p = choose|p: int|
                                0 <= p < old_nr.len() && (#[trigger] old_nr[p])@ == rr@.push(
                                    input@[i as int]@[v2],
                                );
                            assert(new_results@[p]@ == rr@.push(input@[i as int]@[v2]));
                        } else {
                            assert(new_results@[old_nr.len() as int]@ == rr@.push(
                                input@[i as int]@[v2],
                            ));
                        }
                    }
                }
                vi += 1;
            }
            proof {
                assert(results@ =~= pre_results.drop_last());
                assert(rr@ == pre_results.last()@);
                assert(pre_results.len() * input@[i as int]@.len() == results@.len() * input@[
                    i as int
                ]@.len() + input@[i as int]@.len()) by (nonlinear_arith)
                    requires
                        pre_results.len() == results@.len() + 1,
                ;
                assert forall|s: Seq<u8>|
                    #[trigger] selects_from(s, input@.take(i + 1)) implies (exists|p: int|
                    0 <= p < new_results@.len() && (#[trigger] new_results@[p])@ == s) || (exists|
                q: int,
                |
                    0 <= q < results@.len() && (#[trigger] results@[q])@ == s.take(i as int)) by {
                    if exists|p: int|
                        0 <= p < nr_start.len() && (#[trigger] nr_start[p])@ == s {
                        let p = choose|p: int|
                            0 <= p < nr_start.len() && (#[trigger] nr_start[p])@ == s;
                        assert(new_results@[p]@ == s);
                    } else {
                        let q = choose|q: int|
                            0 <= q < pre_results.len() && (#[trigger] pre_results[q])@ == s.take(
                                i as int,
                            );
                        if q < pre_results.len() - 1 {
                            assert(results@[q]@ == s.take(i as int));
                        } else {
                            assert(rr@ == s.take(i as int));
                            assert(s.len() == i + 1);
                            assert(input@.take(i + 1)[i as int] == input@[i as int]);
                            assert(input@[i as int]@.contains(s[i as int]));
                            let v2 = choose|v2: int|
                                0 <= v2 < input@[i as int]@.len() && input@[i as int]@[v2] == s[
                                    i as int
                                ];
                            let p = choose|p: int|
                                0 <= p < new_results@.len() && (#[trigger] new_results@[p])@
                                    == rr@.push(input@[i as int]@[v2]);
                            assert(s =~= s.take(i as int).push(s[i as int]));
                            assert(new_results@[p]@ == s);
                        }
                    }
                }
            }
        }
        results = new_results;
        i += 1;
    }
    proof {
        assert(input@.take(input@.len() as int) =~= input@);
    }
    results
}

/// Whether some committed test pins position `i` of the outcome vector.
pub open spec fn committed_at(committed: Seq<Test>, i: int) -> bool {
    exists|s: Test| #[trigger] committed.contains(s) && s.0 == i
}

/// Whether a catalogue key could serve a round with the given committed
/// tests: it spans every active test, reproduces every committed result,
/// and holds one of the observed outcome values at every free position.
pub open spec fn key_compatible(k: Seq<u8>, tests: Seq<Vec<u8>>, committed: Seq<Test>) -> bool {
    &&& k.len() == tests.len()
    &&& (forall|s: Test| #[trigger] committed.contains(s) ==> k[s.0 as int] == s.1)
    &&& (forall|i: int|
        0 <= i < tests.len() && !committed_at(committed, i) ==> (#[trigger] tests[i])@.contains(
            k[i],
        ))
}

/// Determine a code with which a round's committed tests can all be
/// performed: fix every committed test's result, leave every other test
/// free over its observed outcome values, and probe the catalogue with
/// each complete outcome vector so formed.  The first vector the
/// catalogue knows yields the code.
///
/// `Some` names the first code of a compatible catalogue entry; `None`
/// comes exactly when the catalogue holds no compatible key at all, so no
/// legal code is consistent with the round.
pub fn resolve_round_code(
    tests: &Vec<Vec<u8>>,
    committed: &Vec<Test>,
    solution_map: &SolutionCatalogue,
) -> (r: Option<Code>)
    requires
        forall|t: int|
            0 <= t < committed@.len() ==> ((#[trigger] committed@[t]).0 as int) < tests@.len(),
        cat_wf(solution_map@),
    ensures
        r matches Some(c) ==> exists|j: int|
            {
                &&& 0 <= j < solution_map@.len()
                &&& (#[trigger] solution_map@[j]).0.len() == tests@.len()
                &&& solution_map@[j].1.len() > 0
                &&& c == solution_map@[j].1[0]
                &&& forall|s: Test|
                    #[trigger] committed@.contains(s) ==> solution_map@[j].0[s.0 as int] == s.1
                &&& forall|t: int|
                    0 <= t < tests@.len() && !committed_at(committed@, t) ==> (
                    #[trigger] tests@[t])@.contains(solution_map@[j].0[t])
            },
        r is None ==> forall|j: int|
            0 <= j < solution_map@.len() ==> !key_compatible(
                (#[trigger] solution_map@[j]).0,
                tests@,
                committed@,
            ),
{
    // a round whose committed tests disagree admits no code at all
    let selfcheck = tests_consistent(committed, committed);
    if !selfcheck {
        proof {
            let (x, y): (Test, Test) = choose|x: Test, y: Test|
                committed@.contains(x) && committed@.contains(y) && x.0 == y.0 && x.1 != y.1;
            assert forall|j: int|
                0 <= j < solution_map@.len() implies !key_compatible(
                (#[trigger] solution_map@[j]).0,
                tests@,
                committed@,
            ) by {
                if key_compatible(solution_map@[j].0, tests@, committed@) {
                    assert(solution_map@[j].0[x.0 as int] == x.1);
                    assert(solution_map@[j].0[y.0 as int] == y.1);
                }
            }
        }
        return None;
    }
    // per-test candidate value sets: committed tests collapse to their
    // single committed value
    let mut results: Vec<Vec<u8>> = Vec::new();
    let mut i: usize = 0;
    while i < tests.len()
        invariant
            i <= tests.len(),
            results@.len() == i as int,
            forall|t: int|
                0 <= t < committed@.len() ==> ((#[trigger] committed@[t]).0 as int)
                    < tests@.len(),
            forall|x: Test, y: Test|
                #![trigger committed@.contains(x), committed@.contains(y)]
                committed@.contains(x) && committed@.contains(y) && x.0 == y.0 ==> x.1 == y.1,
            forall|s: Test|
                #[trigger] committed@.contains(s) && (s.0 as int) < i ==> results@[s.0 as int]@.len()
                    == 1 && results@[s.0 as int]@[0] == s.1,
            forall|t: int|
                0 <= t < i ==> committed_at(committed@, t) || (#[trigger] results@[t])@
                    == tests@[t]@,
        decreases tests.len() - i,
    {
        let mut found = false;
        let mut val: u8 = 0;
        let mut u: usize = 0;
        while u < committed.len()
            invariant
                u <= committed.len(),
                !found ==> forall|t: int| 0 <= t < u ==> (#[trigger] committed@[t]).0 != i,
                found ==> exists|t: int|
                    0 <= t < committed@.len() && (#[trigger] committed@[t]).0 == i
                        && committed@[t].1 == val,
            decreases committed.len() - u, (if found { 0int } else { 1int }),
        {
            if committed[u].0 == i {
                if !found {
                    found = true;
                    val = committed[u].1;
                    proof {
                        assert(committed@[u as int].0 == i && committed@[u as int].1 == val);
                    }
                }
            }
            u += 1;
        }
        let ghost old_results = results@;
        if found {
            let mut single: Vec<u8> = Vec::new();
            single.push(val);
            results.push(single);
        } else {
            results.push(clone_vec_u8(&tests[i]));
        }
        proof {
            assert forall|s: Test|
                #[trigger] committed@.contains(s) && (s.0 as int) < i + 1 implies results@[
                s.0 as int
            ]@.len() == 1 && results@[s.0 as int]@[0] == s.1 by {
                if (s.0 as int) == i as int {
                    assert(found) by {
                        if !found {
                            let w = choose|w: int| 0 <= w < committed@.len() && committed@[w] == s;
                        }
                    }
                    let t = choose|t: int|
                        0 <= t < committed@.len() && (#[trigger] committed@[t]).0 == i
                            && committed@[t].1 == val;
                    assert(committed@.contains(committed@[t]));
                    assert(s.1 == val);
                }
            }
            if found {
                let t = choose|t: int|
                    0 <= t < committed@.len() && (#[trigger] committed@[t]).0 == i
                        && committed@[t].1 == val;
                assert(committed@.contains(committed@[t]));
                assert(committed_at(committed@, i as int));
            } else {
                assert(results@[i as int]@ == tests@[i as int]@);
            }
        }
        i += 1;
    }
    let permutations = get_permutations(&results);
    let mut p: usize = 0;
    while p < permutations.len()
        invariant
            forall|t: int|
                0 <= t < committed@.len() ==> ((#[trigger] committed@[t]).0 as int)
                    < tests@.len(),
            forall|s: Test|
                #[trigger] committed@.contains(s) ==> results@[s.0 as int]@.len() == 1
                    && results@[s.0 as int]@[0] == s.1,
            results@.len() == tests@.len(),
            forall|q: int|
                0 <= q < permutations@.len() ==> (#[trigger] permutations@[q])@.len()
                    == results@.len(),
            forall|q: int, t: int|
                #![trigger permutations@[q]@[t]]
                0 <= q < permutations@.len() && 0 <= t < results@.len() ==> results@[t]@.contains(
                    permutations@[q]@[t],
                ),
            forall|t: int|
                0 <= t < results@.len() ==> committed_at(committed@, t) || (
                #[trigger] results@[t])@ == tests@[t]@,
            forall|s: Seq<u8>|
                #[trigger] selects_from(s, results@) ==> exists|q: int|
                    0 <= q < permutations@.len() && (#[trigger] permutations@[q])@ == s,
            forall|q: int, j: int|
                #![trigger permutations@[q], solution_map@[j]]
                0 <= q < p && 0 <= j < solution_map@.len() ==> solution_map@[j].0
                    != permutations@[q]@,
            cat_wf(solution_map@),
        decreases permutations.len() - p,
    {
        let hit = solution_map.get(&permutations[p]);
        if let Some(codes) = hit {
            proof {
                let j = choose|j: int|
                    0 <= j < solution_map@.len() && (#[trigger] solution_map@[j]).0
                        == permutations@[p as int]@ && solution_map@[j].1 == codes@;
                assert(solution_map@[j].1.len() > 0);
                assert forall|s: Test| #[trigger] committed@.contains(s) implies solution_map@[
                j
                ].0[s.0 as int] == s.1 by {
                    let perm = permutations@[p as int]@;
                    assert(results@[s.0 as int]@.contains(perm[s.0 as int]));
                    assert(results@[s.0 as int]@[0] == s.1);
                    let w = choose|w: int|
                        0 <= w < results@[s.0 as int]@.len() && results@[s.0 as int]@[w]
                            == perm[s.0 as int];
                    assert(w == 0);
                };
                assert forall|t: int|
                    0 <= t < tests@.len() && !committed_at(committed@, t) implies (
                #[trigger] tests@[t])@.contains(solution_map@[j].0[t]) by {
                    assert(results@[t]@ == tests@[t]@);
                    assert(results@[t]@.contains(permutations@[p as int]@[t]));
                };
            }
            return Some(codes[0]);
        }
        p += 1;
    }
    proof {
        assert forall|j: int|
            0 <= j < solution_map@.len() implies !key_compatible(
            (#[trigger] solution_map@[j]).0,
            tests@,
            committed@,
        ) by {
            if key_compatible(solution_map@[j].0, tests@, committed@) {
                let k = solution_map@[j].0;
                assert(selects_from(k, results@)) by {
                    assert forall|t: int|
                        0 <= t < results@.len() implies (#[trigger] results@[t])@.contains(
                        k[t],
                    ) by {
                        if committed_at(committed@, t) {
                            let s = choose|s: Test| #[trigger] committed@.contains(s) && s.0 == t;
                            assert(results@[t]@.len() == 1 && results@[t]@[0] == s.1);
                            assert(k[t] == s.1);
                            assert(results@[t]@[0] == k[t]);
                        } else {
                            assert(results@[t]@ == tests@[t]@);
                        }
                    }
                }
                let q = choose|q: int|
                    0 <= q < permutations@.len() && (#[trigger] permutations@[q])@ == k;
                assert(solution_map@[j].0 != permutations@[q]@);
                assert(false);
            }
        }
    }
    None
}


/// Two to the given power.
pub open spec fn two_to(e: nat) -> nat
    decreases e,
{
    if e == 0 {
        1
    } else {
        2 * two_to((e - 1) as nat)
    }
}

/// A smaller exponent gives no larger a power.
proof fn lemma_two_to_le(a: nat, b: nat)
    requires
        a <= b,
    ensures
        two_to(a) <= two_to(b),
    decreases b,
{
    if a < b {
        lemma_two_to_le(a, (b - 1) as nat);
    }
}

/// Two to the given small power, computed by doubling.
fn small_pow2(e: u8) -> (r: usize)
    requires
        e <= 9,
    ensures
        r as nat == two_to(e as nat),
{
    let mut r: usize = 1;
    let mut i: u8 = 0;
    while i < e
        invariant
            i <= e,
            e <= 9,
            r as nat == two_to(i as nat),
        decreases e - i,
    {
        proof {
            reveal_with_fuel(two_to, 11);
            lemma_two_to_le(i as nat, 8);
            assert(two_to(8) == 256);
        }
        r = r * 2;
        i += 1;
    }
    r
}

/// Whether a value already occurs among a test's observed outcome values.
pub fn contains_u8(v: &Vec<u8>, x: u8) -> (r: bool)
    ensures
        r <==> v@.contains(x),
{
    let mut i: usize = 0;
    while i < v.len()
        invariant
            i <= v.len(),
            forall|t: int| 0 <= t < i ==> v@[t] != x,
        decreases v.len() - i,
    {
        if v[i] == x {
            return true;
        }
        i += 1;
    }
    false
}

/// A certificate that a batch of two solutions is owed a tree: some test
/// separates the pair, and some catalogue entry commits that test to one
/// of the two observed results while holding an observed outcome value at
/// every position.
pub open spec fn pair_split_certified(
    batch: Seq<(Seq<u8>, Code)>,
    cat: Seq<(Seq<u8>, Seq<Code>)>,
    i: int,
    j: int,
) -> bool {
    &&& batch.len() == 2
    &&& 0 <= i < batch[0].0.len()
    &&& batch[1].0.len() == batch[0].0.len()
    &&& batch[0].0[i] != batch[1].0[i]
    &&& 0 <= j < cat.len()
    &&& cat[j].0.len() == batch[0].0.len()
    &&& cat[j].1.len() > 0
    &&& (cat[j].0[i] == batch[0].0[i] || cat[j].0[i] == batch[1].0[i])
    &&& forall|t: int|
        0 <= t < cat[j].0.len() ==> value_observed(batch, t, #[trigger] cat[j].0[t])
}

/// Whether some solution of the batch shows outcome `v` at test `t`.
pub open spec fn value_observed(batch: Seq<(Seq<u8>, Code)>, t: int, v: u8) -> bool {
    exists|k: int| 0 <= k < batch.len() && (#[trigger] batch[k]).0[t] == v
}

/// The window of tests below a branch with the given parts: its own test
/// and, for a positive window, both children's windows one step down.
pub open spec fn branch_window(test: Test, correct: BinaryTree, incorrect: BinaryTree, window: nat) -> Set<Test> {
    set![test].union(
        if window > 0 {
            spec_tests(correct, (window - 1) as nat).union(
                spec_tests(incorrect, (window - 1) as nat),
            )
        } else {
            Set::empty()
        },
    )
}

/// Whether every test in the `w`-deep window of `t` avoids the test
/// numbers in `used`.
pub open spec fn window_avoids(t: BinaryTree, w: nat, used: Seq<Test>) -> bool {
    forall|s: Test| #[trigger] spec_tests(t, w).contains(s) ==> !committed_at(used, s.0 as int)
}

/// Enumerate sound decision trees for a batch of feasible solutions.
///
/// For every usable split, ordered by promise, both partitions are solved
/// recursively -- through a fresh top-level search when the split closes a
/// round -- and the sub-trees are recombined pairwise.  A pair is rejected
/// when its two windows commit the same test to different results, when it
/// cannot beat the best worst-case depth found so far, or, at a round
/// start, when no round code is consistent with the committed window.
///
/// Every returned tree is sound for the batch, keeps its remaining round
/// window clear of the claimed test numbers, and stands no deeper than any
/// tree found before it; a single-entry batch yields exactly its leaf, and
/// a top-level pair of solutions with a certified separating split is owed
/// a tree.  At the absolute root the search stops early once a tree of
/// ideal total size is found.
#[verifier::loop_isolation(false)]
#[verifier::rlimit(100)]
pub fn construct_trees_rec(
    entries: &Vec<Feasible>,
    tests: &Vec<Vec<u8>>,
    solution_map: &SolutionCatalogue,
    current_level: u8,
    abort_level: Option<u8>,
    tests_per_round: u8,
    optimal_depth: usize,
    used_tests: &Vec<Test>,
) -> (r: Vec<BinaryTree>)
    requires
        1 <= entries@.len() <= 256,
        tests_per_round >= 1,
        current_level < tests_per_round,
        tests@.len() <= usize::MAX,
        forall|k: int|
            0 <= k < entries@.len() ==> (#[trigger] entries@[k]).0@.len() == tests@.len(),
        forall|k: int, t: int|
            #![trigger entries@[k].0@[t]]
            0 <= k < entries@.len() && 0 <= t < tests@.len() ==> tests@[t]@.contains(
                entries@[k].0@[t],
            ),
        current_level == 0 ==> (forall|t: int, v: u8|
            #![trigger tests@[t]@.contains(v)]
            0 <= t < tests@.len() ==> (tests@[t]@.contains(v) <==> value_observed(
                batch_view(entries@),
                t,
                v,
            ))),
        cat_wf(solution_map@),
        abort_level matches Some(a) ==> (entries@.len() > 1 ==> current_level < a),
    ensures
        forall|i: int|
            0 <= i < r@.len() ==> tree_ok(
                #[trigger] r@[i],
                batch_view(entries@),
                solution_map@,
                tests_per_round as nat,
                current_level as nat,
                tests@.len() as nat,
            ),
        entries@.len() == 1 ==> r@.len() == 1 && r@[0] == BinaryTree::Leaf(entries@[0].1),
        forall|i1: int, i2: int|
            0 <= i1 < i2 < r@.len() ==> spec_max_depth(#[trigger] r@[i1]) >= spec_max_depth(
                #[trigger] r@[i2],
            ),
        forall|i: int|
            0 <= i < r@.len() ==> window_avoids(
                #[trigger] r@[i],
                (tests_per_round - (current_level % tests_per_round) - 1) as nat,
                used_tests@,
            ),
        current_level == 0 && abort_level is None && used_tests@.len() == 0 && (exists|
        i: int,
        j: int,
        |
            pair_split_certified(batch_view(entries@), solution_map@, i, j)) ==> r@.len() > 0,
    decreases entries@.len(), 0int,
{
    let ghost batch = batch_view(entries@);
    let ghost tpr = tests_per_round as nat;
    let ghost n_tests = tests@.len() as nat;
    let ghost level = current_level as nat;

    // identify leaves
    if entries.len() == 1 {
        let mut r: Vec<BinaryTree> = Vec::new();
        r.push(BinaryTree::Leaf(entries[0].1));
        proof {
            assert(batch.len() == 1 && batch[0].1 == entries@[0].1);
        }
        return r;
    }

    // figure out possible tests, most promising first; a certified
    // separating split of a two-solution batch is pinned so that the
    // search is provably owed a tree for it
    let ghost cert = current_level == 0 && abort_level is None && used_tests@.len() == 0
        && exists|i: int, j: int| pair_split_certified(batch, solution_map@, i, j);
    let ghost (cidx, cjdx): (int, int) = if cert {
        choose|i: int, j: int| pair_split_certified(batch, solution_map@, i, j)
    } else {
        (0int, 0int)
    };
    let ghost cval: u8 = if cert {
        solution_map@[cjdx].0[cidx]
    } else {
        0u8
    };
    let ghost pin: (bool, Test) = (cert, (cidx as usize, cval));
    proof {
        if cert {
            assert(pair_split_certified(batch, solution_map@, cidx, cjdx));
            assert(batch[0].0 == entries@[0].0@ && batch[1].0 == entries@[1].0@);
            assert((cidx as usize) as int == cidx);
            assert(value_observed(batch, cidx, cval));
            assert(tests@[cidx]@.contains(cval));
            if committed_at(used_tests@, cidx) {
                let st = choose|st: Test| #[trigger] used_tests@.contains(st) && st.0 as int
                    == cidx;
                let w = choose|w: int| 0 <= w < used_tests@.len() && used_tests@[w] == st;
                assert(false);
            }
            assert(batch.contains(batch[0]) && batch.contains(batch[1]));
            lemma_split_contains(batch, (cidx as usize, cval), batch[0]);
            lemma_split_contains(batch, (cidx as usize, cval), batch[1]);
            assert(split_pass(batch, (cidx as usize, cval)).len() > 0);
            assert(split_fail(batch, (cidx as usize, cval)).len() > 0);
        }
    }
    let nodes = gather_splits(entries, tests, used_tests, Ghost(pin));
    let nodes = order_splits(
        nodes,
        Ghost(batch),
        Ghost(n_tests as int),
        Ghost(used_tests@),
        Ghost(pin),
    );

    let is_round_last = current_level % tests_per_round == tests_per_round - 1;
    let is_round_start = current_level % tests_per_round == 0;
    let sub_levels = tests_per_round - (current_level % tests_per_round) - 1;
    let ghost next_lv = next_level(tpr, level);
    proof {
        vstd::arithmetic::div_mod::lemma_small_mod(level, tpr);
        assert(is_round_start <==> level == 0);
        assert(is_round_last <==> level + 1 == tpr);
    }

    // go through all possible tests and see what trees they yield
    proof {
        if cert {
            let m = choose|m: int| 0 <= m < nodes@.len() && (#[trigger] nodes@[m]).test == pin.1;
            assert(nodes@[m].test == (cidx as usize, cval));
        }
    }
    let mut solutions: Vec<BinaryTree> = Vec::new();
    let mut best_depth: Option<u8> = None;
    let mut ni: usize = 0;
    while ni < nodes.len()
        invariant
            ni <= nodes@.len(),
            forall|i: int|
                0 <= i < solutions@.len() ==> tree_ok(
                    #[trigger] solutions@[i],
                    batch,
                    solution_map@,
                    tpr,
                    level,
                    n_tests,
                ),
            best_depth matches Some(d) ==> d >= 1,
            best_depth is Some <==> solutions@.len() > 0,
            best_depth matches Some(d) ==> spec_max_depth(solutions@.last()) == d,
            forall|i1: int, i2: int|
                0 <= i1 < i2 < solutions@.len() ==> spec_max_depth(#[trigger] solutions@[i1])
                    >= spec_max_depth(#[trigger] solutions@[i2]),
            forall|i: int|
                0 <= i < solutions@.len() ==> window_avoids(
                    #[trigger] solutions@[i],
                    sub_levels as nat,
                    used_tests@,
                ),
            cert && solutions@.len() == 0 ==> exists|m: int|
                ni <= m < nodes@.len() && (#[trigger] nodes@[m]).test == (cidx as usize, cval),
        decreases nodes.len() - ni,
    {
        let node = &nodes[ni];
        let ghost at_target = cert && node.test == (cidx as usize, cval);
        let ghost sol0 = solutions@.len();

        // if we are in the middle of a round, mark the test as claimed
        // for the next level
        let next_splits: Vec<Test> = if is_round_last {
            Vec::new()
        } else {
            let mut v = clone_tests(used_tests);
            v.push(node.test);
            v
        };

        // within d remaining levels we can distinguish up to 2^d
        // different solutions, so skip a split once either partition is
        // larger than that
        let abort: Option<u8> = if current_level == 0 {
            best_depth
        } else {
            abort_level
        };
        if let Some(a) = abort {
            proof {
                assert(current_level < a);
            }
            let shift = a - 1 - current_level;
            let max_splits: usize = if shift >= 9 {
                257
            } else {
                small_pow2(shift)
            };
            if node.correct.len() > max_splits || node.incorrect.len() > max_splits {
                ni += 1;
                continue ;
            }
            proof {
                if node.correct@.len() > 1 || node.incorrect@.len() > 1 {
                    if shift == 0 {
                        assert(max_splits == 1);
                        assert(false);
                    }
                    assert(current_level + 1 < a);
                }
            }
        }

        // the partitions carry outcome vectors of the batch, all of the
        // full width
        proof {
            lemma_split_elems(batch, node.test);
            assert forall|k: int|
                0 <= k < node.correct@.len() implies (#[trigger] node.correct@[k]).0@.len()
                == tests@.len() by {
                assert(batch_view(node.correct@)[k] == split_pass(batch, node.test)[k]);
                let w = choose|w: int|
                    0 <= w < batch.len() && batch[w] == split_pass(batch, node.test)[k];
                assert(batch[w].0 == entries@[w].0@);
            }
            assert forall|k: int|
                0 <= k < node.incorrect@.len() implies (#[trigger] node.incorrect@[k]).0@.len()
                == tests@.len() by {
                assert(batch_view(node.incorrect@)[k] == split_fail(batch, node.test)[k]);
                let w = choose|w: int|
                    0 <= w < batch.len() && batch[w] == split_fail(batch, node.test)[k];
                assert(batch[w].0 == entries@[w].0@);
            }
            assert forall|k: int, t: int|
                #![trigger node.correct@[k].0@[t]]
                0 <= k < node.correct@.len() && 0 <= t < tests@.len() implies tests@[t]@.contains(
                node.correct@[k].0@[t]) by {
                assert(batch_view(node.correct@)[k] == split_pass(batch, node.test)[k]);
                let w = choose|w: int|
                    0 <= w < batch.len() && batch[w] == split_pass(batch, node.test)[k];
                assert(batch[w].0 == entries@[w].0@);
                assert(tests@[t]@.contains(entries@[w].0@[t]));
            }
            assert forall|k: int, t: int|
                #![trigger node.incorrect@[k].0@[t]]
                0 <= k < node.incorrect@.len() && 0 <= t < tests@.len() implies tests@[t]@.contains(
                node.incorrect@[k].0@[t]) by {
                assert(batch_view(node.incorrect@)[k] == split_fail(batch, node.test)[k]);
                let w = choose|w: int|
                    0 <= w < batch.len() && batch[w] == split_fail(batch, node.test)[k];
                assert(batch[w].0 == entries@[w].0@);
                assert(tests@[t]@.contains(entries@[w].0@[t]));
            }
        }

        // construct possible correct and incorrect subtrees; a split that
        // closes the round hands each partition to a fresh top-level
        // search
        let correct_trees: Vec<BinaryTree> = if !is_round_last {
            construct_trees_rec(
                &node.correct,
                tests,
                solution_map,
                current_level + 1,
                abort,
                tests_per_round,
                optimal_depth,
                &next_splits,
            )
        } else {
            match optimal_tree(&node.correct, solution_map, tests_per_round) {
                Some(rr) => {
                    let mut v: Vec<BinaryTree> = Vec::new();
                    v.push(rr);
                    v
                },
                None => Vec::new(),
            }
        };
        let incorrect_trees: Vec<BinaryTree> = if !is_round_last {
            construct_trees_rec(
                &node.incorrect,
                tests,
                solution_map,
                current_level + 1,
                abort,
                tests_per_round,
                optimal_depth,
                &next_splits,
            )
        } else {
            match optimal_tree(&node.incorrect, solution_map, tests_per_round) {
                Some(rr) => {
                    let mut v: Vec<BinaryTree> = Vec::new();
                    v.push(rr);
                    v
                },
                None => Vec::new(),
            }
        };
        proof {
            assert(forall|i: int|
                0 <= i < correct_trees@.len() ==> tree_ok(
                    #[trigger] correct_trees@[i],
                    batch_view(node.correct@),
                    solution_map@,
                    tpr,
                    next_lv,
                    n_tests,
                ));
            assert(forall|i: int|
                0 <= i < incorrect_trees@.len() ==> tree_ok(
                    #[trigger] incorrect_trees@[i],
                    batch_view(node.incorrect@),
                    solution_map@,
                    tpr,
                    next_lv,
                    n_tests,
                ));
            if at_target {
                assert(batch.len() == 2);
                assert(node.correct@.len() == 1 && node.incorrect@.len() == 1);
                assert(correct_trees@.len() == 1 && correct_trees@[0] == BinaryTree::Leaf(
                    node.correct@[0].1,
                ));
                assert(incorrect_trees@.len() == 1 && incorrect_trees@[0] == BinaryTree::Leaf(
                    node.incorrect@[0].1,
                ));
            }
        }

        // check the validity of each combination
        let mut ci: usize = 0;
        while ci < correct_trees.len()
            invariant
                ci <= correct_trees@.len(),
                forall|i: int|
                    0 <= i < solutions@.len() ==> tree_ok(
                        #[trigger] solutions@[i],
                        batch,
                        solution_map@,
                        tpr,
                        level,
                        n_tests,
                    ),
                best_depth matches Some(d) ==> d >= 1,
                best_depth is Some <==> solutions@.len() > 0,
                best_depth matches Some(d) ==> spec_max_depth(solutions@.last()) == d,
                forall|i1: int, i2: int|
                    0 <= i1 < i2 < solutions@.len() ==> spec_max_depth(
                        #[trigger] solutions@[i1],
                    ) >= spec_max_depth(#[trigger] solutions@[i2]),
                forall|i: int|
                    0 <= i < solutions@.len() ==> window_avoids(
                        #[trigger] solutions@[i],
                        sub_levels as nat,
                        used_tests@,
                    ),
                sol0 <= solutions@.len(),
                at_target && solutions@.len() == 0 ==> ci == 0,
            decreases correct_trees.len() - ci,
        {
            let c_tests = correct_trees[ci].get_tests(sub_levels);
            let mut ii: usize = 0;
            while ii < incorrect_trees.len()
                invariant
                    ii <= incorrect_trees@.len(),
                    forall|i: int|
                        0 <= i < solutions@.len() ==> tree_ok(
                            #[trigger] solutions@[i],
                            batch,
                            solution_map@,
                            tpr,
                            level,
                            n_tests,
                        ),
                    best_depth matches Some(d) ==> d >= 1,
                    best_depth is Some <==> solutions@.len() > 0,
                    best_depth matches Some(d) ==> spec_max_depth(solutions@.last()) == d,
                    forall|i1: int, i2: int|
                        0 <= i1 < i2 < solutions@.len() ==> spec_max_depth(
                            #[trigger] solutions@[i1],
                        ) >= spec_max_depth(#[trigger] solutions@[i2]),
                    forall|i: int|
                        0 <= i < solutions@.len() ==> window_avoids(
                            #[trigger] solutions@[i],
                            sub_levels as nat,
                            used_tests@,
                        ),
                    sol0 <= solutions@.len(),
                    at_target && solutions@.len() == 0 ==> ci == 0 && ii == 0,
                decreases incorrect_trees.len() - ii,
            {
                let i_tests = incorrect_trees[ii].get_tests(sub_levels);
                let consistent = tests_consistent(&c_tests, &i_tests);
                proof {
                    if at_target && solutions@.len() == 0 {
                        assert(spec_tests(correct_trees@[ci as int], sub_levels as nat)
                            =~= Set::<Test>::empty());
                        assert(spec_tests(incorrect_trees@[ii as int], sub_levels as nat)
                            =~= Set::<Test>::empty());
                        assert(forall|s: Test| !c_tests@.contains(s));
                        assert(forall|s: Test| !i_tests@.contains(s));
                        assert(consistent);
                    }
                }
                if consistent {
                    let mut branch = Branch {
                        test: node.test,
                        correct: correct_trees[ci].duplicate(),
                        incorrect: incorrect_trees[ii].duplicate(),
                        code: None,
                    };
                    proof {
                        lemma_tree_ok_bounds(
                            branch.correct,
                            batch_view(node.correct@),
                            solution_map@,
                            tpr,
                            next_lv,
                            n_tests,
                        );
                        lemma_tree_ok_bounds(
                            branch.incorrect,
                            batch_view(node.incorrect@),
                            solution_map@,
                            tpr,
                            next_lv,
                            n_tests,
                        );
                        lemma_split_counts(batch, node.test);
                    }
                    let bd = branch.max_depth();
                    let mut reject = false;
                    if let Some(d) = best_depth {
                        if d < bd {
                            reject = true;
                        }
                    }
                    if !reject {
                        let mut code_ok = true;
                        if is_round_start {
                            let window = branch.get_tests(tests_per_round - 1);
                            proof {
                                assert forall|t: int|
                                    0 <= t < window@.len() implies ((
                                #[trigger] window@[t]).0 as int) < tests@.len() by {
                                    let s = window@[t];
                                    assert(window@.contains(s));
                                    if s != branch.test {
                                        assert(spec_tests(
                                            branch.correct,
                                            ((tests_per_round - 1) - 1) as nat,
                                        ).contains(s) || spec_tests(
                                            branch.incorrect,
                                            ((tests_per_round - 1) - 1) as nat,
                                        ).contains(s));
                                    }
                                }
                            }
                            match resolve_round_code(tests, &window, solution_map) {
                                Some(c) => {
                                    branch.code = Some(c);
                                    proof {
                                        let wset = branch_window(
                                            branch.test,
                                            branch.correct,
                                            branch.incorrect,
                                            (tpr - 1) as nat,
                                        );
                                        assert forall|s: Test|
                                            wset.contains(s) implies window@.contains(s) by {}
                                        assert forall|s: Test|
                                            window@.contains(s) implies wset.contains(s) by {}
                                        let j = choose|j: int|
                                            {
                                                &&& 0 <= j < solution_map@.len()
                                                &&& (#[trigger] solution_map@[j]).0.len()
                                                    == tests@.len()
                                                &&& solution_map@[j].1.len() > 0
                                                &&& c == solution_map@[j].1[0]
                                                &&& forall|s: Test|
                                                    #[trigger] window@.contains(s)
                                                        ==> solution_map@[j].0[s.0 as int] == s.1
                                                &&& forall|t: int|
                                                    0 <= t < tests@.len() && !committed_at(
                                                        window@,
                                                        t,
                                                    ) ==> (#[trigger] tests@[t])@.contains(
                                                        solution_map@[j].0[t],
                                                    )
                                            };
                                        assert(level == 0);
                                        assert forall|t: int|
                                            0 <= t < n_tests && !window_pins(
                                                wset,
                                                t,
                                            ) implies value_observed(
                                            batch,
                                            t,
                                            solution_map@[j].0[t],
                                        ) by {
                                            if committed_at(window@, t) {
                                                let st = choose|st: Test|
                                                    #[trigger] window@.contains(st) && st.0
                                                        as int == t;
                                                assert(wset.contains(st));
                                                assert(window_pins(wset, t));
                                                assert(false);
                                            }
                                            assert(tests@[t]@.contains(solution_map@[j].0[t]));
                                        }
                                        assert(round_code_ok(
                                            Some(c),
                                            wset,
                                            solution_map@,
                                            n_tests,
                                            batch,
                                        ));
                                    }
                                },
                                None => {
                                    code_ok = false;
                                    proof {
                                        if at_target && solutions@.len() == 0 {
                                            assert(pair_split_certified(
                                                batch,
                                                solution_map@,
                                                cidx,
                                                cjdx,
                                            ));
                                            let k = solution_map@[cjdx].0;
                                            assert(branch.test == (cidx as usize, cval));
                                            assert(k.len() == tests@.len());
                                            assert(k[cidx] == cval);
                                            assert(window@.contains(branch.test));
                                            assert(forall|s: Test|
                                                #[trigger] window@.contains(s) ==> s
                                                    == branch.test);
                                            assert(forall|s: Test|
                                                #[trigger] window@.contains(s) ==> k[s.0 as int]
                                                    == s.1);
                                            assert forall|t: int|
                                                0 <= t < tests@.len() && !committed_at(
                                                    window@,
                                                    t,
                                                ) implies (#[trigger] tests@[t])@.contains(
                                                k[t]) by {
                                                assert(value_observed(batch, t, k[t]));
                                            }
                                            assert(key_compatible(k, tests@, window@));
                                            assert(false);
                                        }
                                    }
                                },
                            }
                        }
                        if code_ok {
                            let ghost bsnap = branch;
                            let tree = BinaryTree::Branch(Box::new(branch));
                            proof {
                                assert(split_pass(batch, bsnap.test) == batch_view(
                                    node.correct@,
                                ));
                                assert(split_fail(batch, bsnap.test) == batch_view(
                                    node.incorrect@,
                                ));
                                if level == 0 {
                                    assert(spec_tests(tree, (tpr - 1) as nat) == branch_window(
                                        bsnap.test,
                                        bsnap.correct,
                                        bsnap.incorrect,
                                        (tpr - 1) as nat,
                                    ));
                                }
                                assert(tree_ok(tree, batch, solution_map@, tpr, level, n_tests));
                            }
                            proof {
                                assert forall|s: Test|
                                    #[trigger] spec_tests(tree, sub_levels as nat).contains(
                                        s,
                                    ) implies !committed_at(used_tests@, s.0 as int) by {
                                    if s == bsnap.test {
                                        assert(!committed_at(
                                            used_tests@,
                                            nodes@[ni as int].test.0 as int,
                                        ));
                                    } else {
                                        assert(sub_levels > 0);
                                        assert(spec_tests(
                                            bsnap.correct,
                                            (sub_levels - 1) as nat,
                                        ).contains(s) || spec_tests(
                                            bsnap.incorrect,
                                            (sub_levels - 1) as nat,
                                        ).contains(s));
                                        assert(!is_round_last);
                                        vstd::arithmetic::div_mod::lemma_small_mod(
                                            (level + 1) as nat,
                                            tpr,
                                        );
                                        assert((tests_per_round as int - ((
                                        current_level as int + 1) % (tests_per_round as int))
                                            - 1) as nat == (sub_levels - 1) as nat);
                                        assert(!committed_at(next_splits@, s.0 as int));
                                        if committed_at(used_tests@, s.0 as int) {
                                            let st = choose|st: Test|
                                                #[trigger] used_tests@.contains(st) && st.0
                                                    as int == s.0 as int;
                                            let w = choose|w: int|
                                                0 <= w < used_tests@.len() && used_tests@[w]
                                                    == st;
                                            assert(next_splits@[w] == st);
                                            assert(next_splits@.contains(st));
                                            assert(false);
                                        }
                                    }
                                }
                                assert(window_avoids(tree, sub_levels as nat, used_tests@));
                            }
                            let td = tree.total_depth();
                            let d2 = tree.max_depth();
                            let ghost prev_sols = solutions@;
                            best_depth = Some(d2);
                            solutions.push(tree);
                            proof {
                                assert(solutions@.last() == solutions@[solutions@.len() - 1]);
                                assert(forall|i1: int|
                                    0 <= i1 < prev_sols.len() ==> spec_max_depth(
                                        #[trigger] prev_sols[i1],
                                    ) >= spec_max_depth(prev_sols.last()));
                            }

                            // be greedy: once an ideal tree is found at
                            // the absolute root, stop looking for more
                            if current_level == 0 && td == optimal_depth {
                                return solutions;
                            }
                        }
                    }
                }
                ii += 1;
            }
            ci += 1;
        }
        proof {
            if cert && solutions@.len() == 0 {
                assert(sol0 == 0);
                let m = choose|m: int|
                    ni <= m < nodes@.len() && (#[trigger] nodes@[m]).test == (
                        cidx as usize,
                        cval,
                    );
                if m == ni {
                    assert(nodes@[ni as int].test == (cidx as usize, cval));
                    assert(at_target);
                    assert(correct_trees@.len() == 1);
                    assert(ci == correct_trees@.len());
                    assert(ci == 0);
                    assert(false);
                }
                assert(ni + 1 <= m < nodes@.len());
                assert(nodes@[m].test == (cidx as usize, cval));
            }
        }
        ni += 1;
    }
    proof {
        assert(sub_levels as nat == (tests_per_round - (current_level % tests_per_round)
            - 1) as nat);
        if cert {
            assert(solutions@.len() > 0);
        }
    }

    // return all possible trees
    solutions
}

/// Build a decision tree of minimal worst-case depth (total depth breaks
/// ties among the trees found) over the given feasible solutions, with
/// tests grouped into rounds of `tests_per_round` tests that share one
/// committed code.
///
/// Returns `None` when no solutions are given or when no round-consistent
/// tree exists; a pair of solutions separated by one test that the
/// catalogue certifies with a round code is always owed a tree.  Batches
/// are capped at 256 solutions so that every tree depth fits the depth
/// counters.
#[verifier::loop_isolation(false)]
#[verifier::rlimit(100)]
pub fn optimal_tree(
    entries: &Vec<Feasible>,
    solution_map: &SolutionCatalogue,
    tests_per_round: u8,
) -> (r: Option<BinaryTree>)
    requires
        entries@.len() <= 256,
        tests_per_round >= 1,
        cat_wf(solution_map@),
        forall|k: int|
            0 <= k < entries@.len() ==> (#[trigger] entries@[k]).0@.len()
                == entries@[0].0@.len(),
    ensures
        entries@.len() == 0 ==> r is None,
        r matches Some(t) ==> tree_ok(
            t,
            batch_view(entries@),
            solution_map@,
            tests_per_round as nat,
            0,
            entries@[0].0@.len(),
        ),
        entries@.len() == 1 ==> r == Some(BinaryTree::Leaf(entries@[0].1)),
        (exists|i: int, j: int|
            pair_split_certified(batch_view(entries@), solution_map@, i, j)) ==> r is Some,
    decreases entries@.len(), 1int,
{
    if entries.len() == 0 {
        proof {
            if exists|i: int, j: int|
                pair_split_certified(batch_view(entries@), solution_map@, i, j) {
                let (i, j): (int, int) = choose|i: int, j: int|
                    pair_split_certified(batch_view(entries@), solution_map@, i, j);
                assert(false);
            }
        }
        return None;
    }
    let ghost batch = batch_view(entries@);
    let ghost tpr = tests_per_round as nat;

    // check which test results appear within the unique solutions
    let n_tests = entries[0].0.len();
    let mut tests: Vec<Vec<u8>> = Vec::new();
    let mut i: usize = 0;
    while i < n_tests
        invariant
            i <= n_tests,
            tests@.len() == i as int,
            entries@.len() >= 1,
            n_tests == entries@[0].0@.len(),
            forall|k: int|
                0 <= k < entries@.len() ==> (#[trigger] entries@[k]).0@.len() == n_tests,
            forall|t: int, v: u8|
                #![trigger tests@[t]@.contains(v)]
                0 <= t < i ==> (tests@[t]@.contains(v) <==> value_observed(batch, t, v)),
        decreases n_tests - i,
    {
        let mut vals: Vec<u8> = Vec::new();
        let mut k: usize = 0;
        while k < entries.len()
            invariant
                i < n_tests,
                k <= entries.len(),
                batch.len() == entries@.len(),
                forall|k2: int|
                    0 <= k2 < entries@.len() ==> (#[trigger] entries@[k2]).0@.len() == n_tests,
                forall|v: u8|
                    #![trigger vals@.contains(v)]
                    vals@.contains(v) <==> exists|k2: int|
                        0 <= k2 < k && (#[trigger] batch[k2]).0[i as int] == v,
            decreases entries.len() - k,
        {
            let v = entries[k].0[i];
            proof {
                assert(batch[k as int].0[i as int] == v);
            }
            let ghost old_vals = vals@;
            if !contains_u8(&vals, v) {
                vals.push(v);
            }
            proof {
                assert forall|v2: u8| #![trigger vals@.contains(v2)]
                    vals@.contains(v2) <==> exists|k2: int|
                        0 <= k2 < k + 1 && (#[trigger] batch[k2]).0[i as int] == v2 by {
                    if vals@.contains(v2) {
                        if old_vals.contains(v2) {
                        } else {
                            assert(v2 == v);
                        }
                    }
                    if exists|k2: int|
                        0 <= k2 < k + 1 && (#[trigger] batch[k2]).0[i as int] == v2 {
                        let k2 = choose|k2: int|
                            0 <= k2 < k + 1 && (#[trigger] batch[k2]).0[i as int] == v2;
                        if k2 == k {
                            assert(v2 == v);
                            assert(vals@.contains(v));
                        }
                    }
                }
            }
            k += 1;
        }
        tests.push(vals);
        proof {
            assert forall|t: int, v: u8|
                #![trigger tests@[t]@.contains(v)]
                0 <= t < i + 1 implies (tests@[t]@.contains(v) <==> value_observed(
                batch,
                t,
                v,
            )) by {
                if t == i {
                    assert(tests@[t] == vals);
                }
            }
        }
        i += 1;
    }
    proof {
        assert forall|k: int, t: int|
            #![trigger entries@[k].0@[t]]
            0 <= k < entries@.len() && 0 <= t < tests@.len() implies tests@[t]@.contains(
            entries@[k].0@[t]) by {
            assert(batch[k].0[t] == entries@[k].0@[t]);
            assert(value_observed(batch, t, entries@[k].0@[t]));
        }
    }

    // what would be the ideal solution tree?
    let size = entries.len();
    let mut last_pot_2: usize = 1;
    while last_pot_2 <= size / 2
        invariant
            1 <= last_pot_2 <= size,
        decreases size - last_pot_2,
    {
        last_pot_2 = last_pot_2 * 2;
    }
    let deep = (size - last_pot_2) * 2;
    proof {
        assert(deep <= size);
    }
    let shallow = size - deep;
    proof {
        assert(shallow * last_pot_2 <= 256 * 256) by (nonlinear_arith)
            requires
                0 <= shallow <= 256,
                0 <= last_pot_2 <= 256,
        ;
        assert(deep * last_pot_2 <= 256 * 256) by (nonlinear_arith)
            requires
                0 <= deep <= 256,
                0 <= last_pot_2 <= 256,
        ;
    }
    let total_size = shallow * last_pot_2 + deep * last_pot_2 * 2;

    // recursively construct solution trees
    let empty_used: Vec<Test> = Vec::new();
    let trees = construct_trees_rec(
        entries,
        &tests,
        solution_map,
        0,
        None,
        tests_per_round,
        total_size,
        &empty_used,
    );
    if trees.len() == 0 {
        proof {
            if exists|i: int, j: int| pair_split_certified(batch, solution_map@, i, j) {
                assert(empty_used@.len() == 0);
                assert(false);
            }
        }
        return None;
    }

    // pick the best tree: worst-case depth first, total depth as the
    // tie-breaker; on full ties the later tree wins, as it was built
    // under the sharper bound
    let mut best: usize = 0;
    let mut j: usize = 1;
    while j < trees.len()
        invariant
            1 <= trees@.len(),
            best < trees@.len(),
            j <= trees@.len(),
        decreases trees.len() - j,
    {
        proof {
            lemma_tree_ok_bounds(
                trees@[j as int],
                batch,
                solution_map@,
                tpr,
                0,
                tests@.len() as nat,
            );
            lemma_tree_ok_bounds(
                trees@[best as int],
                batch,
                solution_map@,
                tpr,
                0,
                tests@.len() as nat,
            );
        }
        let dj = trees[j].max_depth();
        let db = trees[best].max_depth();
        let tj = trees[j].total_depth();
        let tb = trees[best].total_depth();
        if dj < db || (dj == db && tj <= tb) {
            best = j;
        }
        j += 1;
    }
    let mut trees = trees;
    let best_tree = trees.remove(best);
    Some(best_tree)
}

} // verus!


