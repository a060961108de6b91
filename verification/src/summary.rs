//! What a run is about to process: how many objects of which label, and which images
//! more than one annotation refers to.
use crate::annotation::{object_views, with_name, Annotation, ObjectView};
use crate::crops::{get_image_path, image_path, Dataset};
use crate::tally::{ascending, count_in, lemma_insert, lemma_present, Tally};
use crate::text::lex_lt;
use vstd::prelude::*;

verus! {

/// The annotations of a run in numbers.
#[derive(Debug, PartialEq, Eq)]
pub struct Summary {
    /// How many annotations there are.
    pub annotations: usize,
    /// How many objects they have together.
    pub objects: usize,
    /// The labels with the number of their objects, the most frequent first, labels of
    /// one frequency by ascending label.
    pub labels: Vec<(String, usize)>,
    /// The images that more than one annotation refers to, by ascending path, with the
    /// number of annotations.
    pub shared_images: Vec<(String, usize)>,
}

/// How many objects the first `upto` annotations have.
pub open spec fn objects_upto(annotations: Seq<Annotation>, upto: int) -> nat
    decreases upto,
{
    if upto <= 0 {
        0
    } else {
        objects_upto(annotations, upto - 1) + annotations[upto - 1]@.objects.len()
    }
}

/// How many objects of the first `upto` annotations carry `label`.
pub open spec fn labelled_upto(annotations: Seq<Annotation>, upto: int, label: Seq<char>) -> nat
    decreases upto,
{
    if upto <= 0 {
        0
    } else {
        labelled_upto(annotations, upto - 1, label) + with_name(
            annotations[upto - 1]@.objects,
            label,
        ).len()
    }
}

/// How many of the first `upto` annotations have their image at `path`.
pub open spec fn pictured_upto(
    annotations: Seq<Annotation>,
    upto: int,
    image_dir: Option<String>,
    dataset: Dataset,
    path: Seq<char>,
) -> nat
    decreases upto,
{
    if upto <= 0 {
        0
    } else {
        pictured_upto(annotations, upto - 1, image_dir, dataset, path) + if image_path(
            annotations[upto - 1],
            image_dir,
            dataset,
        ) == path {
            1nat
        } else {
            0
        }
    }
}

/// Whether `list` goes from the largest count down, entries of one count by ascending
/// label.
pub open spec fn ranked(list: Seq<(String, usize)>) -> bool {
    forall|i: int, j: int|
        0 <= i < j < list.len() ==> {
            ||| (#[trigger] list[i]).1 > (#[trigger] list[j]).1
            ||| list[i].1 == list[j].1 && lex_lt(list[i].0@, list[j].0@)
        }
}

/// More annotations have no fewer objects.
proof fn lemma_objects_grow(annotations: Seq<Annotation>, a: int, b: int)
    requires
        a <= b,
    ensures
        objects_upto(annotations, a) <= objects_upto(annotations, b),
    decreases b - a,
{
    if a < b {
        lemma_objects_grow(annotations, a, b - 1);
    }
}

/// How many objects the annotations have together, if that many can be counted.
pub fn count_objects(annotations: &Vec<Annotation>) -> (n: Option<usize>)
    ensures
        match n {
            Some(n) => n == objects_upto(annotations@, annotations.len() as int),
            None => objects_upto(annotations@, annotations.len() as int) > usize::MAX,
        },
{
    let mut n: usize = 0;
    let mut i: usize = 0;
    while i < annotations.len()
        invariant
            i <= annotations.len(),
            n == objects_upto(annotations@, i as int),
        decreases annotations.len() - i,
    {
        let more = match &annotations[i].objects {
            Some(objects) => objects.len(),
            None => 0,
        };
        match n.checked_add(more) {
            Some(sum) => {
                n = sum;
            },
            None => {
                proof {
                    lemma_objects_grow(annotations@, i + 1, annotations.len() as int);
                }
                return None;
            },
        }
        i += 1;
    }
    Some(n)
}

/// Counts the objects of one annotation by label.
fn count_labels(annotation: &Annotation, tally: &mut Tally)
    requires
        old(tally).sum() + annotation@.objects.len() <= usize::MAX,
    ensures
        final(tally).sum() == old(tally).sum() + annotation@.objects.len(),
        forall|l: Seq<char>| #[trigger]
            final(tally).count(l) == old(tally).count(l) + with_name(annotation@.objects, l).len(),
{
    let ghost before = *tally;
    match &annotation.objects {
        None => {},
        Some(objects) => {
            let ghost all = object_views(objects@);
            let mut j: usize = 0;
            while j < objects.len()
                invariant
                    j <= objects.len(),
                    all == object_views(objects@),
                    before.sum() + objects.len() <= usize::MAX,
                    tally.sum() == before.sum() + j,
                    forall|l: Seq<char>| #[trigger]
                        tally.count(l) == before.count(l) + with_name(all.take(j as int), l).len(),
                decreases objects.len() - j,
            {
                proof {
                    assert(all.take(j + 1) =~= all.take(j as int).push(all[j as int]));
                    assert forall|l: Seq<char>| #[trigger]
                        with_name(all.take(j + 1), l).len() == with_name(all.take(j as int), l).len()
                            + if l == all[j as int].name {
                            1nat
                        } else {
                            0
                        } by {
                        all.take(j as int).lemma_filter_push(
                            all[j as int],
                            |o: ObjectView| o.name == l,
                        );
                    }
                }
                tally.add(objects[j].name.as_str(), 1);
                j += 1;
            }
            assert(all.take(j as int) =~= all);
        },
    }
}

/// The entries of a tally, the largest count first.
fn rank(entries: Vec<(String, usize)>) -> (list: Vec<(String, usize)>)
    requires
        ascending(entries@),
    ensures
        ranked(list@),
        list.len() == entries.len(),
        forall|l: Seq<char>| #[trigger] count_in(list@, l) == count_in(entries@, l),
        forall|q: int| 0 <= q < list.len() ==> entries@.contains(#[trigger] list[q]),
{
    let ghost all = entries@;
    let mut list: Vec<(String, usize)> = Vec::new();
    let ghost mut from: Seq<int> = Seq::empty();
    assert(all.take(0) =~= Seq::<(String, usize)>::empty());
    for entry in it: entries
        invariant
            it.seq() == all,
            ascending(all),
            ranked(list@),
            list.len() == it.index(),
            from.len() == list.len(),
            forall|q: int|
                0 <= q < list.len() ==> 0 <= #[trigger] from[q] < it.index() && list[q]
                    == all[from[q]],
            forall|l: Seq<char>| #[trigger]
                count_in(list@, l) == count_in(all.take(it.index() as int), l),
    {
        let ghost i = it.index() as int;
        let ghost before = list@;
        let mut p: usize = 0;
        while p < list.len() && list[p].1 >= entry.1
            invariant
                p <= list.len(),
                list@ == before,
                forall|q: int| 0 <= q < p ==> (#[trigger] before[q]).1 >= entry.1,
            decreases list.len() - p,
        {
            p += 1;
        }
        proof {
            let after = before.insert(p as int, entry);
            assert forall|a: int, b: int| 0 <= a < b < after.len() implies {
                ||| (#[trigger] after[a]).1 > (#[trigger] after[b]).1
                ||| after[a].1 == after[b].1 && lex_lt(after[a].0@, after[b].0@)
            } by {
                if b == p {
                    assert(after[a] == before[a]);
                    assert(before[a] == all[from[a]]);
                } else if a == p {
                    assert(after[b] == before[b - 1]);
                } else {
                    let x = if a < p {
                        a
                    } else {
                        a - 1
                    };
                    let y = if b < p {
                        b
                    } else {
                        b - 1
                    };
                    assert(after[a] == before[x] && after[b] == before[y]);
                }
            }
            assert(all.take(i + 1) =~= all.take(i).push(entry));
            assert forall|l: Seq<char>| #[trigger]
                count_in(after, l) == count_in(all.take(i + 1), l) by {
                lemma_insert(before, p as int, entry, l);
                lemma_insert(all.take(i), i, entry, l);
                assert(all.take(i).insert(i, entry) =~= all.take(i + 1));
            }
            from = from.insert(p as int, i);
        }
        list.insert(p, entry);
    }
    assert(all.take(all.len() as int) =~= all);
    assert forall|q: int| 0 <= q < list.len() implies all.contains(#[trigger] list[q]) by {
        assert(list[q] == all[from[q]]);
    }
    list
}

/// The annotations of a run in numbers.
pub fn summarize(annotations: &Vec<Annotation>, image_dir: &Option<String>, dataset: &Dataset) -> (summary:
    Summary)
    requires
        objects_upto(annotations@, annotations.len() as int) <= usize::MAX,
    ensures
        summary.annotations == annotations.len(),
        summary.objects == objects_upto(annotations@, annotations.len() as int),
        ranked(summary.labels@),
        forall|l: Seq<char>| #[trigger]
            count_in(summary.labels@, l) == labelled_upto(
                annotations@,
                annotations.len() as int,
                l,
            ),
        forall|i: int| 0 <= i < summary.labels.len() ==> (#[trigger] summary.labels[i]).1 > 0,
        ascending(summary.shared_images@),
        forall|i: int|
            0 <= i < summary.shared_images.len() ==> {
                let (path, n) = #[trigger] summary.shared_images[i];
                n > 1 && n == pictured_upto(
                    annotations@,
                    annotations.len() as int,
                    *image_dir,
                    *dataset,
                    path@,
                )
            },
        forall|path: Seq<char>|
            (#[trigger] pictured_upto(
                annotations@,
                annotations.len() as int,
                *image_dir,
                *dataset,
                path,
            )) > 1 ==> exists|i: int|
                0 <= i < summary.shared_images.len() && (#[trigger] summary.shared_images[i]).0@
                    == path,
{
    let mut labels = Tally::new();
    let mut images = Tally::new();
    let mut i: usize = 0;
    while i < annotations.len()
        invariant
            i <= annotations.len(),
            objects_upto(annotations@, annotations.len() as int) <= usize::MAX,
            labels.sum() == objects_upto(annotations@, i as int),
            images.sum() == i,
            forall|l: Seq<char>| #[trigger] labels.count(l) == labelled_upto(annotations@, i as int, l),
            forall|path: Seq<char>| #[trigger]
                images.count(path) == pictured_upto(
                    annotations@,
                    i as int,
                    *image_dir,
                    *dataset,
                    path,
                ),
        decreases annotations.len() - i,
    {
        proof {
            lemma_objects_grow(annotations@, i + 1, annotations.len() as int);
        }
        count_labels(&annotations[i], &mut labels);
        let path = get_image_path(&annotations[i], image_dir, dataset);
        images.add(path.as_str(), 1);
        i += 1;
    }
    let objects = labels.total();
    let by_label = labels.entries();
    let ranked_labels = rank(by_label);
    proof {
        assert forall|l: Seq<char>| #[trigger]
            count_in(ranked_labels@, l) == labelled_upto(
                annotations@,
                annotations.len() as int,
                l,
            ) by {
            assert(count_in(by_label@, l) == labels.count(l));
        }
    }
    let by_path = images.entries();
    let mut shared: Vec<(String, usize)> = Vec::new();
    let ghost mut from: Seq<int> = Seq::empty();
    let mut k: usize = 0;
    while k < by_path.len()
        invariant
            k <= by_path.len(),
            by_path@ == images.pairs(),
            ascending(by_path@),
            from.len() == shared.len(),
            forall|q: int|
                0 <= q < shared.len() ==> 0 <= #[trigger] from[q] < k && shared[q].0@
                    == by_path[from[q]].0@ && shared[q].1 == by_path[from[q]].1 && shared[q].1 > 1,
            forall|q: int, r: int| 0 <= q < r < shared.len() ==> from[q] < from[r],
            forall|j: int|
                0 <= j < k && (#[trigger] by_path[j]).1 > 1 ==> exists|q: int|
                    0 <= q < shared.len() && from[q] == j,
        decreases by_path.len() - k,
    {
        let ghost found = from;
        if by_path[k].1 > 1 {
            shared.push((by_path[k].0.clone(), by_path[k].1));
            proof {
                from = from.push(k as int);
            }
        }
        proof {
            assert forall|j: int| 0 <= j < k + 1 && (#[trigger] by_path[j]).1 > 1 implies exists|
                q: int,
            |
                0 <= q < shared.len() && from[q] == j by {
                if j < k {
                    let q = choose|q: int| 0 <= q < found.len() && found[q] == j;
                    assert(from[q] == j);
                } else {
                    assert(from[shared.len() - 1] == j);
                }
            }
        }
        k += 1;
    }
    proof {
        assert forall|a: int, b: int| 0 <= a < b < shared.len() implies lex_lt(
            (#[trigger] shared[a]).0@,
            (#[trigger] shared[b]).0@,
        ) by {
            assert(from[a] < from[b]);
        }
        assert forall|q: int| 0 <= q < shared.len() implies {
            let (path, n) = #[trigger] shared[q];
            n > 1 && n == pictured_upto(
                annotations@,
                annotations.len() as int,
                *image_dir,
                *dataset,
                path@,
            )
        } by {
            lemma_present(by_path@, from[q]);
        }
        assert forall|path: Seq<char>|
            (#[trigger] pictured_upto(
                annotations@,
                annotations.len() as int,
                *image_dir,
                *dataset,
                path,
            )) > 1 implies exists|q: int|
            0 <= q < shared.len() && (#[trigger] shared[q]).0@ == path by {
            assert(images.count(path) > 1);
            let j = choose|j: int| 0 <= j < by_path.len() && (#[trigger] by_path[j]).0@ == path;
            lemma_present(by_path@, j);
            let q = choose|q: int| 0 <= q < shared.len() && from[q] == j;
            assert(shared[q].0@ == path);
        }
    }
    Summary { annotations: annotations.len(), objects, labels: ranked_labels, shared_images: shared }
}

} // verus!
