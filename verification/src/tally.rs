//! Counts of crops by label, and their sum over the workers of a run.
use crate::text::{
    lemma_lex_le_antisymmetric, lemma_lex_le_reflexive, lemma_lex_le_total,
    lemma_lex_le_transitive, lex_le, lex_lt, str_le,
};
use vstd::prelude::*;

verus! {

/// How often `label` was counted in `entries`.
pub open spec fn count_in(entries: Seq<(String, usize)>, label: Seq<char>) -> nat
    decreases entries.len(),
{
    if entries.len() == 0 {
        0
    } else {
        count_in(entries.drop_last(), label) + if entries.last().0@ == label {
            entries.last().1 as nat
        } else {
            0
        }
    }
}

/// The sum of the counts of `entries`.
pub open spec fn total_in(entries: Seq<(String, usize)>) -> nat
    decreases entries.len(),
{
    if entries.len() == 0 {
        0
    } else {
        total_in(entries.drop_last()) + entries.last().1 as nat
    }
}

/// Whether the labels of `entries` go up from one to the next, so that none comes twice.
pub open spec fn ascending(entries: Seq<(String, usize)>) -> bool {
    forall|i: int, j: int|
        0 <= i < j < entries.len() ==> lex_lt((#[trigger] entries[i]).0@, (#[trigger] entries[j]).0@)
}

/// Whether `entries` can be a tally: labels going up, no count of 0, a sum that fits.
pub open spec fn well_kept(entries: Seq<(String, usize)>) -> bool {
    &&& ascending(entries)
    &&& forall|i: int| 0 <= i < entries.len() ==> (#[trigger] entries[i]).1 > 0
    &&& total_in(entries) <= usize::MAX
}

/// The counts of two lists of entries, one after the other, are the sums of their counts.
pub(crate) proof fn lemma_add(a: Seq<(String, usize)>, b: Seq<(String, usize)>, label: Seq<char>)
    ensures
        count_in(a + b, label) == count_in(a, label) + count_in(b, label),
        total_in(a + b) == total_in(a) + total_in(b),
    decreases b.len(),
{
    if b.len() > 0 {
        lemma_add(a, b.drop_last(), label);
        assert((a + b).drop_last() =~= a + b.drop_last());
    }
}

/// The counts of a single entry.
pub(crate) proof fn lemma_one(e: (String, usize), label: Seq<char>)
    ensures
        count_in(seq![e], label) == if e.0@ == label {
            e.1 as nat
        } else {
            0
        },
        total_in(seq![e]) == e.1,
{
    assert(count_in(seq![e].drop_last(), label) == 0);
    assert(total_in(seq![e].drop_last()) == 0);
}

/// A label that no entry carries was not counted.
pub(crate) proof fn lemma_absent(entries: Seq<(String, usize)>, label: Seq<char>)
    requires
        forall|i: int| 0 <= i < entries.len() ==> (#[trigger] entries[i]).0@ != label,
    ensures
        count_in(entries, label) == 0,
    decreases entries.len(),
{
    if entries.len() > 0 {
        lemma_absent(entries.drop_last(), label);
    }
}

/// Where the labels go up, the count of a label is the count of its entry.
pub(crate) proof fn lemma_present(entries: Seq<(String, usize)>, i: int)
    requires
        ascending(entries),
        0 <= i < entries.len(),
    ensures
        count_in(entries, entries[i].0@) == entries[i].1,
        entries[i].1 <= total_in(entries),
{
    let label = entries[i].0@;
    let front = entries.take(i);
    let back = entries.skip(i + 1);
    assert(entries =~= front + seq![entries[i]] + back);
    lemma_add(front + seq![entries[i]], back, label);
    lemma_add(front, seq![entries[i]], label);
    lemma_one(entries[i], label);
    lemma_absent(front, label);
    lemma_absent(back, label);
}

/// Putting an entry in, or taking one out, changes the counts by that entry.
pub(crate) proof fn lemma_insert(entries: Seq<(String, usize)>, p: int, e: (String, usize), label: Seq<char>)
    requires
        0 <= p <= entries.len(),
    ensures
        count_in(entries.insert(p, e), label) == count_in(entries, label) + count_in(
            seq![e],
            label,
        ),
        total_in(entries.insert(p, e)) == total_in(entries) + e.1,
{
    let front = entries.take(p);
    let back = entries.skip(p);
    assert(entries =~= front + back);
    assert(entries.insert(p, e) =~= front + seq![e] + back);
    lemma_add(front, back, label);
    lemma_add(front + seq![e], back, label);
    lemma_add(front, seq![e], label);
    lemma_one(e, label);
}

/// Counts `n` more for `label`.
fn bump(entries: &mut Vec<(String, usize)>, label: &str, n: usize)
    requires
        well_kept(old(entries)@),
        n > 0,
        total_in(old(entries)@) + n <= usize::MAX,
    ensures
        well_kept(final(entries)@),
        total_in(final(entries)@) == total_in(old(entries)@) + n,
        forall|l: Seq<char>| #[trigger]
            count_in(final(entries)@, l) == count_in(old(entries)@, l) + if l == label@ {
                n as nat
            } else {
                0
            },
{
    let ghost before = entries@;
    let mut p: usize = 0;
    while p < entries.len() && !str_le(label, entries[p].0.as_str())
        invariant
            p <= entries.len(),
            entries@ == before,
            forall|q: int| 0 <= q < p ==> !lex_le(label@, (#[trigger] before[q]).0@),
        decreases entries.len() - p,
    {
        p += 1;
    }
    let found = p < entries.len() && str_le(entries[p].0.as_str(), label);
    let entry = if found {
        proof {
            lemma_lex_le_antisymmetric(label@, before[p as int].0@);
            lemma_present(before, p as int);
        }
        let (name, count) = entries.remove(p);
        (name, count + n)
    } else {
        (label.to_owned(), n)
    };
    let ghost rest = entries@;
    entries.insert(p, entry);
    proof {
        let after = entries@;
        assert(after == rest.insert(p as int, entry));
        assert(entry.0@ == label@);
        assert forall|i: int, j: int| 0 <= i < j < after.len() implies lex_lt(
            (#[trigger] after[i]).0@,
            (#[trigger] after[j]).0@,
        ) by {
            if found {
                assert(after[i].0@ == before[i].0@);
                assert(after[j].0@ == before[j].0@);
            } else if j == p {
                lemma_lex_le_total(label@, before[i].0@);
                lemma_lex_le_reflexive(label@);
            } else if i == p {
                let first = before[p as int].0@;
                let other = before[j - 1].0@;
                assert(after[j] == before[j - 1]);
                lemma_lex_le_reflexive(first);
                lemma_lex_le_transitive(label@, first, other);
                if label@ == other {
                    lemma_lex_le_antisymmetric(first, other);
                }
            } else {
                let a = if i < p {
                    i
                } else {
                    i - 1
                };
                let b = if j < p {
                    j
                } else {
                    j - 1
                };
                assert(after[i] == before[a] && after[j] == before[b]);
            }
        }
        assert forall|l: Seq<char>| #[trigger]
            count_in(after, l) == count_in(before, l) + if l == label@ {
                n as nat
            } else {
                0
            } by {
            lemma_insert(rest, p as int, entry, l);
            lemma_one(entry, l);
            if found {
                assert(before =~= rest.insert(p as int, before[p as int]));
                lemma_insert(rest, p as int, before[p as int], l);
                lemma_one(before[p as int], l);
            }
        }
        lemma_insert(rest, p as int, entry, label@);
        if found {
            assert(before =~= rest.insert(p as int, before[p as int]));
            lemma_insert(rest, p as int, before[p as int], label@);
        }
        assert forall|i: int| 0 <= i < after.len() implies (#[trigger] after[i]).1 > 0 by {
            if i < p {
                assert(after[i] == rest[i]);
            } else if i > p {
                assert(after[i] == rest[i - 1]);
            }
        }
    }
}

/// How many crops were made, by label.
pub struct Tally {
    entries: Vec<(String, usize)>,
}

impl Tally {
    /// The labels go up, no count is 0, and the sum of the counts can be held.
    #[verifier::type_invariant]
    spec fn kept(self) -> bool {
        well_kept(self.entries@)
    }

    /// The labels with their counts, by ascending label.
    pub closed spec fn pairs(&self) -> Seq<(String, usize)> {
        self.entries@
    }

    /// How many crops carry `label`.
    pub open spec fn count(&self, label: Seq<char>) -> nat {
        count_in(self.pairs(), label)
    }

    /// How many crops there are.
    pub open spec fn sum(&self) -> nat {
        total_in(self.pairs())
    }

    /// The tally of no crops.
    pub fn new() -> (t: Tally)
        ensures
            t.pairs() == Seq::<(String, usize)>::empty(),
    {
        Tally { entries: Vec::new() }
    }

    /// Counts `n` more crops of `label`.
    pub fn add(&mut self, label: &str, n: usize)
        requires
            old(self).sum() + n <= usize::MAX,
        ensures
            final(self).sum() == old(self).sum() + n,
            forall|l: Seq<char>| #[trigger]
                final(self).count(l) == old(self).count(l) + if l == label@ {
                    n as nat
                } else {
                    0
                },
    {
        proof {
            use_type_invariant(&*self);
        }
        if n > 0 {
            let mut entries: Vec<(String, usize)> = Vec::new();
            core::mem::swap(&mut self.entries, &mut entries);
            bump(&mut entries, label, n);
            self.entries = entries;
        }
    }

    /// Counts the crops of `other` too.
    pub fn merge(&mut self, other: &Tally)
        requires
            old(self).sum() + other.sum() <= usize::MAX,
        ensures
            final(self).sum() == old(self).sum() + other.sum(),
            forall|l: Seq<char>| #[trigger]
                final(self).count(l) == old(self).count(l) + other.count(l),
    {
        proof {
            use_type_invariant(&*self);
            use_type_invariant(other);
        }
        let ghost before = self.entries@;
        let mut entries: Vec<(String, usize)> = Vec::new();
        core::mem::swap(&mut self.entries, &mut entries);
        let mut i: usize = 0;
        while i < other.entries.len()
            invariant
                i <= other.entries.len(),
                well_kept(entries@),
                well_kept(other.entries@),
                total_in(before) + total_in(other.entries@) <= usize::MAX,
                total_in(entries@) == total_in(before) + total_in(other.entries@.take(i as int)),
                forall|l: Seq<char>| #[trigger]
                    count_in(entries@, l) == count_in(before, l) + count_in(
                        other.entries@.take(i as int),
                        l,
                    ),
            decreases other.entries.len() - i,
        {
            let ghost done = other.entries@.take(i as int);
            let ghost entry = other.entries@[i as int];
            proof {
                assert(other.entries@.take(i + 1) =~= done + seq![entry]);
                assert(other.entries@ =~= other.entries@.take(i + 1) + other.entries@.skip(i + 1));
                lemma_add(other.entries@.take(i + 1), other.entries@.skip(i + 1), entry.0@);
                lemma_add(done, seq![entry], entry.0@);
                lemma_one(entry, entry.0@);
                assert forall|l: Seq<char>| #[trigger]
                    count_in(done + seq![entry], l) == count_in(done, l) + if l == entry.0@ {
                        entry.1 as nat
                    } else {
                        0
                    } by {
                    lemma_add(done, seq![entry], l);
                    lemma_one(entry, l);
                }
            }
            bump(&mut entries, other.entries[i].0.as_str(), other.entries[i].1);
            i += 1;
        }
        assert(other.entries@.take(i as int) =~= other.entries@);
        self.entries = entries;
    }

    /// How many crops carry `label`.
    pub fn get(&self, label: &str) -> (n: usize)
        ensures
            n == self.count(label@),
    {
        proof {
            use_type_invariant(self);
        }
        let mut i: usize = 0;
        while i < self.entries.len()
            invariant
                i <= self.entries.len(),
                well_kept(self.entries@),
                forall|j: int| 0 <= j < i ==> (#[trigger] self.entries@[j]).0@ != label@,
            decreases self.entries.len() - i,
        {
            if str_le(label, self.entries[i].0.as_str()) && str_le(
                self.entries[i].0.as_str(),
                label,
            ) {
                proof {
                    lemma_lex_le_antisymmetric(label@, self.entries@[i as int].0@);
                    lemma_present(self.entries@, i as int);
                }
                return self.entries[i].1;
            }
            proof {
                if self.entries@[i as int].0@ == label@ {
                    lemma_lex_le_reflexive(label@);
                }
            }
            i += 1;
        }
        proof {
            lemma_absent(self.entries@, label@);
        }
        0
    }

    /// How many crops there are.
    pub fn total(&self) -> (n: usize)
        ensures
            n == self.sum(),
    {
        proof {
            use_type_invariant(self);
        }
        let mut n: usize = 0;
        let mut i: usize = 0;
        while i < self.entries.len()
            invariant
                i <= self.entries.len(),
                total_in(self.entries@) <= usize::MAX,
                n == total_in(self.entries@.take(i as int)),
            decreases self.entries.len() - i,
        {
            proof {
                let next = self.entries@.take(i + 1);
                assert(next.drop_last() =~= self.entries@.take(i as int));
                assert(self.entries@ =~= next + self.entries@.skip(i + 1));
                lemma_add(next, self.entries@.skip(i + 1), Seq::empty());
            }
            n = n + self.entries[i].1;
            i += 1;
        }
        assert(self.entries@.take(i as int) =~= self.entries@);
        n
    }

    /// The labels with their counts, by ascending label. Every label that was counted
    /// is there once, with its count.
    pub fn entries(&self) -> (list: Vec<(String, usize)>)
        ensures
            list@ == self.pairs(),
            ascending(list@),
            forall|i: int|
                0 <= i < list.len() ==> (#[trigger] list[i]).1 > 0 && self.count(list[i].0@)
                    == list[i].1,
            forall|l: Seq<char>|
                self.count(l) > 0 ==> exists|i: int|
                    0 <= i < list.len() && (#[trigger] list[i]).0@ == l,
    {
        proof {
            use_type_invariant(self);
        }
        let mut list: Vec<(String, usize)> = Vec::new();
        let mut i: usize = 0;
        while i < self.entries.len()
            invariant
                i <= self.entries.len(),
                list@ == self.entries@.take(i as int),
            decreases self.entries.len() - i,
        {
            list.push((self.entries[i].0.clone(), self.entries[i].1));
            i += 1;
        }
        proof {
            assert(self.entries@.take(i as int) =~= self.entries@);
            assert forall|k: int| 0 <= k < list.len() implies (#[trigger] list[k]).1 > 0
                && self.count(list[k].0@) == list[k].1 by {
                lemma_present(self.entries@, k);
            }
            assert forall|l: Seq<char>| self.count(l) > 0 implies exists|k: int|
                0 <= k < list.len() && (#[trigger] list[k]).0@ == l by {
                if forall|k: int| 0 <= k < list.len() ==> (#[trigger] list[k]).0@ != l {
                    lemma_absent(self.entries@, l);
                }
            }
        }
        list
    }
}

} // verus!
