//! The solution catalogue: which codes produce which outcome vectors.
//!
//! An outcome vector lists, for every active criteria card, the category
//! the card assigns.  The catalogue maps each outcome vector observed over
//! a population of codes to the non-empty list of codes producing it.  The
//! whole list is kept, not just the vectors naming a unique code, because
//! round-code resolution must find *any* legal code reproducing a target
//! vector, even one shared by several codes.
use vstd::prelude::*;

use crate::rules::{apply_rule, spec_rule, Code, RULE_COUNT};

verus! {

broadcast use vstd::seq_lib::group_seq_properties;

/// A possible solution to the puzzle, paired with the outcome vector it
/// produces (the first element of the pair).
///
/// A solution handed to the tree search should be uniquely identifiable by
/// its outcome vector.
pub type Feasible = (Vec<u8>, Code);

/// The mathematical value of a feasible solution: its outcome vector as a
/// sequence, next to its code.
pub open spec fn feasible_view(e: Feasible) -> (Seq<u8>, Code) {
    (e.0@, e.1)
}

/// The mathematical value of a batch of feasible solutions.
pub open spec fn batch_view(s: Seq<Feasible>) -> Seq<(Seq<u8>, Code)> {
    Seq::new(s.len(), |i: int| feasible_view(s[i]))
}

/// Whether every card in `rules` assigns `c` a category.
pub open spec fn passes_all(c: Code, rules: Seq<usize>) -> bool {
    forall|i: int| 0 <= i < rules.len() ==> (#[trigger] spec_rule(rules[i] as int, c)) is Some
}

/// The outcome vector that the cards in `rules` assign to `c`; meaningful
/// only where `passes_all(c, rules)` holds.
pub open spec fn rule_vec(c: Code, rules: Seq<usize>) -> Seq<u8> {
    Seq::new(rules.len(), |i: int| spec_rule(rules[i] as int, c).unwrap())
}

/// Mapping from an outcome vector to the non-empty list of codes that
/// produce it.
///
/// Entries are kept in the order of first discovery; keys are pairwise
/// distinct, so a linear lookup is unambiguous.
pub struct SolutionCatalogue {
    pub entries: Vec<(Vec<u8>, Vec<Code>)>,
}

impl View for SolutionCatalogue {
    type V = Seq<(Seq<u8>, Seq<Code>)>;

    open spec fn view(&self) -> Seq<(Seq<u8>, Seq<Code>)> {
        Seq::new(self.entries@.len(), |j: int| (self.entries@[j].0@, self.entries@[j].1@))
    }
}

/// Every catalogue entry names at least one code.
pub open spec fn cat_wf(cat: Seq<(Seq<u8>, Seq<Code>)>) -> bool {
    forall|j: int| 0 <= j < cat.len() ==> (#[trigger] cat[j]).1.len() > 0
}

/// Every code listed under a catalogue key really produces that key as its
/// outcome vector under `rules`.
pub open spec fn cat_truthful(cat: Seq<(Seq<u8>, Seq<Code>)>, rules: Seq<usize>) -> bool {
    forall|j: int, l: int|
        #![trigger cat[j].1[l]]
        0 <= j < cat.len() && 0 <= l < cat[j].1.len() ==> passes_all(cat[j].1[l], rules)
            && rule_vec(cat[j].1[l], rules) == cat[j].0
}

impl SolutionCatalogue {
    /// An empty catalogue.
    pub fn new() -> (r: SolutionCatalogue)
        ensures
            r@ =~= Seq::<(Seq<u8>, Seq<Code>)>::empty(),
    {
        SolutionCatalogue { entries: Vec::new() }
    }

    /// Look an outcome vector up, returning the codes that produce it.
    pub fn get(&self, key: &Vec<u8>) -> (r: Option<&Vec<Code>>)
        ensures
            match r {
                Some(codes) => exists|j: int|
                    0 <= j < self@.len() && (#[trigger] self@[j]).0 == key@ && self@[j].1
                        == codes@,
                None => forall|j: int| 0 <= j < self@.len() ==> (#[trigger] self@[j]).0 != key@,
            },
    {
        let mut j: usize = 0;
        while j < self.entries.len()
            invariant
                j <= self.entries.len(),
                forall|t: int| 0 <= t < j ==> (#[trigger] self@[t]).0 != key@,
            decreases self.entries.len() - j,
        {
            if vec_u8_eq(&self.entries[j].0, key) {
                proof {
                    assert(0 <= j < self@.len() && (self@[j as int]).0 == key@ && self@[
                        j as int
                    ].1 == self.entries@[j as int].1@);
                }
                return Some(&self.entries[j].1);
            }
            j += 1;
        }
        None
    }
}

/// Whether two byte vectors hold the same digits in the same order.
pub fn vec_u8_eq(a: &Vec<u8>, b: &Vec<u8>) -> (r: bool)
    ensures
        r <==> a@ == b@,
{
    if a.len() != b.len() {
        return false;
    }
    let mut i: usize = 0;
    while i < a.len()
        invariant
            i <= a.len(),
            a@.len() == b@.len(),
            forall|t: int| 0 <= t < i ==> a@[t] == b@[t],
        decreases a.len() - i,
    {
        if a[i] != b[i] {
            return false;
        }
        i += 1;
    }
    proof {
        assert(a@ =~= b@);
    }
    true
}

/// A digit-for-digit copy of a byte vector.
pub fn clone_vec_u8(v: &Vec<u8>) -> (r: Vec<u8>)
    ensures
        r@ == v@,
{
    let mut r: Vec<u8> = Vec::new();
    let mut i: usize = 0;
    while i < v.len()
        invariant
            i <= v.len(),
            r@ =~= v@.take(i as int),
        decreases v.len() - i,
    {
        r.push(v[i]);
        i += 1;
    }
    proof {
        assert(r@ =~= v@);
    }
    r
}

/// Group a population of codes by the outcome vector the cards in `rules`
/// assign to them.  A code that some card cannot categorize is left out.
///
/// The returned catalogue is truthful (each listed code produces its key),
/// complete over the population, and keyed by pairwise distinct vectors of
/// length `rules.len()`.
pub fn categorize_codes(codes: &Vec<Code>, rules: &Vec<usize>) -> (cat: SolutionCatalogue)
    requires
        forall|i: int| 0 <= i < rules@.len() ==> (#[trigger] rules@[i]) < RULE_COUNT,
    ensures
        cat_wf(cat@),
        cat_truthful(cat@, rules@),
        forall|j: int| 0 <= j < cat@.len() ==> (#[trigger] cat@[j]).0.len() == rules@.len(),
        forall|j1: int, j2: int|
            0 <= j1 < cat@.len() && 0 <= j2 < cat@.len() && j1 != j2 ==> (#[trigger] cat@[j1]).0
                != (#[trigger] cat@[j2]).0,
        forall|j: int, l: int|
            #![trigger cat@[j].1[l]]
            0 <= j < cat@.len() && 0 <= l < cat@[j].1.len() ==> codes@.contains(cat@[j].1[l]),
        forall|k: int|
            0 <= k < codes@.len() && passes_all(#[trigger] codes@[k], rules@) ==> exists|j: int|
                0 <= j < cat@.len() && (#[trigger] cat@[j]).0 == rule_vec(codes@[k], rules@)
                    && cat@[j].1.contains(codes@[k]),
{
    let mut entries: Vec<(Vec<u8>, Vec<Code>)> = Vec::new();
    let mut k: usize = 0;
    while k < codes.len()
        invariant
            k <= codes.len(),
            forall|i: int| 0 <= i < rules@.len() ==> (#[trigger] rules@[i]) < RULE_COUNT,
            forall|j: int| 0 <= j < entries@.len() ==> (#[trigger] entries@[j]).1@.len() > 0,
            forall|j: int| 0 <= j < entries@.len() ==> (#[trigger] entries@[j]).0@.len()
                == rules@.len(),
            forall|j: int, l: int|
                #![trigger entries@[j].1@[l]]
                0 <= j < entries@.len() && 0 <= l < entries@[j].1@.len() ==> passes_all(
                    entries@[j].1@[l],
                    rules@,
                ) && rule_vec(entries@[j].1@[l], rules@) == entries@[j].0@,
            forall|j1: int, j2: int|
                0 <= j1 < entries@.len() && 0 <= j2 < entries@.len() && j1 != j2 ==> (
                #[trigger] entries@[j1]).0@ != (#[trigger] entries@[j2]).0@,
            forall|j: int, l: int|
                #![trigger entries@[j].1@[l]]
                0 <= j < entries@.len() && 0 <= l < entries@[j].1@.len() ==> codes@.contains(
                    entries@[j].1@[l],
                ),
            forall|t: int|
                0 <= t < k && passes_all(#[trigger] codes@[t], rules@) ==> exists|j: int|
                    0 <= j < entries@.len() && (#[trigger] entries@[j]).0@ == rule_vec(
                        codes@[t],
                        rules@,
                    ) && entries@[j].1@.contains(codes@[t]),
        decreases codes.len() - k,
    {
        let code = codes[k];

        // evaluate every active card on the code
        let mut results: Vec<u8> = Vec::new();
        let mut complete = true;
        let mut i: usize = 0;
        while i < rules.len()
            invariant
                i <= rules.len(),
                forall|t: int| 0 <= t < rules@.len() ==> (#[trigger] rules@[t]) < RULE_COUNT,
                complete ==> results@.len() == i as int,
                complete ==> forall|t: int|
                    0 <= t < i ==> (#[trigger] spec_rule(rules@[t] as int, code)) == Some(
                        results@[t],
                    ),
                !complete ==> exists|t: int|
                    0 <= t < i && (#[trigger] spec_rule(rules@[t] as int, code)) is None,
            decreases rules.len() - i,
        {
            match apply_rule(rules[i], &code) {
                Some(v) => {
                    results.push(v);
                },
                None => {
                    complete = false;
                },
            }
            i += 1;
        }

        if complete {
            proof {
                assert(passes_all(code, rules@));
                assert(results@ =~= rule_vec(code, rules@));
            }
            // find the entry holding this outcome vector, if any
            let mut j: usize = 0;
            let mut found = false;
            while j < entries.len() && !found
                invariant
                    j <= entries.len(),
                    !found ==> forall|t: int|
                        0 <= t < j ==> (#[trigger] entries@[t]).0@ != results@,
                    found ==> j < entries@.len() && entries@[j as int].0@ == results@,
                decreases entries.len() - j, (if found { 0int } else { 1int }),
            {
                if vec_u8_eq(&entries[j].0, &results) {
                    found = true;
                } else {
                    j += 1;
                }
            }
            if found {
                let ghost old_entries = entries@;
                let mut entry = entries.remove(j);
                entry.1.push(code);
                let ghost new_entry = (entry.0@, entry.1@);
                entries.insert(j, entry);
                proof {
                    assert(entries@.len() == old_entries.len());
                    assert(forall|t: int|
                        0 <= t < entries@.len() && t != j ==> entries@[t] == old_entries[t]);
                    assert(entries@[j as int].0@ == old_entries[j as int].0@);
                    assert(entries@[j as int].1@ =~= old_entries[j as int].1@.push(code));
                    assert(entries@[j as int].1@.contains(code)) by {
                        assert(entries@[j as int].1@.last() == code);
                    }
                    assert forall|t: int|
                        0 <= t < k + 1 && passes_all(#[trigger] codes@[t], rules@) implies exists|
                        jj: int,
                    |
                        0 <= jj < entries@.len() && (#[trigger] entries@[jj]).0@ == rule_vec(
                            codes@[t],
                            rules@,
                        ) && entries@[jj].1@.contains(codes@[t]) by {
                        if t == k {
                            assert(entries@[j as int].0@ == rule_vec(codes@[t], rules@));
                        } else {
                            let jj = choose|jj: int|
                                0 <= jj < old_entries.len() && (#[trigger] old_entries[jj]).0@
                                    == rule_vec(codes@[t], rules@) && old_entries[jj].1@.contains(
                                    codes@[t],
                                );
                            if jj == j {
                                assert(entries@[jj].0@ == rule_vec(codes@[t], rules@));
                                assert(old_entries[jj].1@.contains(codes@[t]));
                                let w = choose|w: int|
                                    0 <= w < old_entries[jj].1@.len() && old_entries[jj].1@[w]
                                        == codes@[t];
                                assert(entries@[jj].1@[w] == codes@[t]);
                                assert(entries@[jj].1@.contains(codes@[t]));
                            } else {
                                assert(entries@[jj] == old_entries[jj]);
                            }
                        }
                    }
                }
            } else {
                let ghost old_entries = entries@;
                let mut sols: Vec<Code> = Vec::new();
                sols.push(code);
                entries.push((results, sols));
                proof {
                    let n = old_entries.len() as int;
                    assert(entries@[n].1@[0] == code);
                    assert(entries@[n].1@.contains(code));
                    assert(entries@[n].0@ == rule_vec(code, rules@));
                    assert forall|t: int|
                        0 <= t < k + 1 && passes_all(#[trigger] codes@[t], rules@) implies exists|
                        jj: int,
                    |
                        0 <= jj < entries@.len() && (#[trigger] entries@[jj]).0@ == rule_vec(
                            codes@[t],
                            rules@,
                        ) && entries@[jj].1@.contains(codes@[t]) by {
                        if t < k {
                            let jj = choose|jj: int|
                                0 <= jj < old_entries.len() && (#[trigger] old_entries[jj]).0@
                                    == rule_vec(codes@[t], rules@) && old_entries[jj].1@.contains(
                                    codes@[t],
                                );
                            assert(entries@[jj] == old_entries[jj]);
                        }
                    }
                }
            }
        }
        k += 1;
    }
    let cat = SolutionCatalogue { entries };
    proof {
        assert(forall|j: int|
            0 <= j < cat@.len() ==> (#[trigger] cat@[j]) == (
                cat.entries@[j].0@,
                cat.entries@[j].1@,
            ));
        assert forall|t: int|
            0 <= t < codes@.len() && passes_all(#[trigger] codes@[t], rules@) implies exists|
            j: int,
        |
            0 <= j < cat@.len() && (#[trigger] cat@[j]).0 == rule_vec(codes@[t], rules@)
                && cat@[j].1.contains(codes@[t]) by {
            let jj = choose|jj: int|
                0 <= jj < cat.entries@.len() && (#[trigger] cat.entries@[jj]).0@ == rule_vec(
                    codes@[t],
                    rules@,
                ) && cat.entries@[jj].1@.contains(codes@[t]);
            assert(cat@[jj].0 == rule_vec(codes@[t], rules@));
            assert(cat@[jj].1.contains(codes@[t]));
        }
    }
    cat
}

/// The catalogue entries naming exactly one code, in order, each reduced to
/// the pair of its outcome vector and that single code.
pub open spec fn unique_entries(cat: Seq<(Seq<u8>, Seq<Code>)>) -> Seq<(Seq<u8>, Code)>
    decreases cat.len(),
{
    if cat.len() == 0 {
        Seq::empty()
    } else {
        let rest = unique_entries(cat.drop_last());
        let last = cat.last();
        if last.1.len() == 1 {
            rest.push((last.0, last.1[0]))
        } else {
            rest
        }
    }
}

/// Keep only the outcome vectors that name exactly one code: these are the
/// candidates among which a decision tree can discriminate.
///
/// Order follows the catalogue; each kept entry becomes the pair of its
/// outcome vector and its single code.
pub fn find_unique(solutions: &SolutionCatalogue) -> (r: Vec<Feasible>)
    ensures
        batch_view(r@) == unique_entries(solutions@),
{
    let mut r: Vec<Feasible> = Vec::new();
    let mut j: usize = 0;
    while j < solutions.entries.len()
        invariant
            j <= solutions.entries.len(),
            solutions@.len() == solutions.entries@.len(),
            batch_view(r@) == unique_entries(solutions@.take(j as int)),
        decreases solutions.entries.len() - j,
    {
        let ghost prev = r@;
        if solutions.entries[j].1.len() == 1 {
            let key = clone_vec_u8(&solutions.entries[j].0);
            let code = solutions.entries[j].1[0];
            let ghost fv = (key@, code);
            r.push((key, code));
            proof {
                assert(fv == (solutions@[j as int].0, solutions@[j as int].1[0]));
                assert(batch_view(r@) =~= batch_view(prev).push(fv));
            }
        }
        proof {
            let s = solutions@;
            assert(s.take(j + 1).drop_last() =~= s.take(j as int));
            assert(s.take(j + 1).last() == s[j as int]);
            if s[j as int].1.len() == 1 {
                assert(unique_entries(s.take(j + 1)) == unique_entries(s.take(j as int)).push(
                    (s[j as int].0, s[j as int].1[0]),
                ));
                assert(batch_view(r@) == unique_entries(s.take(j + 1)));
            } else {
                assert(unique_entries(s.take(j + 1)) == unique_entries(s.take(j as int)));
                assert(batch_view(r@) == unique_entries(s.take(j + 1)));
            }
        }
        j += 1;
    }
    proof {
        assert(solutions@.take(solutions@.len() as int) =~= solutions@);
    }
    r
}

} // verus!
