//! The annotations of a run, gathered from the files of a dataset.
use crate::annotation::{labels_view, retained, Annotation};
use vstd::prelude::*;

verus! {

/// The annotations to process, and how many files gave none: files whose objects were
/// all filtered out (`skipped`), and files that could not be read (`invalid`).
#[derive(Debug, PartialEq, Eq)]
pub struct Batch {
    pub annotations: Vec<Annotation>,
    pub skipped: usize,
    pub invalid: usize,
}

/// Whether a file could not be read.
pub open spec fn is_invalid(outcome: Option<Annotation>) -> bool {
    outcome is None
}

/// Whether a file was read and the filter leaves some of its objects.
pub open spec fn is_kept(outcome: Option<Annotation>, labels: Option<Vec<String>>) -> bool {
    outcome matches Some(a) && retained(a@.objects, labels_view(labels)).len() > 0
}

/// Whether a file was read and the filter leaves none of its objects.
pub open spec fn is_skipped(outcome: Option<Annotation>, labels: Option<Vec<String>>) -> bool {
    outcome matches Some(a) && retained(a@.objects, labels_view(labels)).len() == 0
}

/// The files that are kept, in order.
pub open spec fn kept(outcomes: Seq<Option<Annotation>>, labels: Option<Vec<String>>) -> Seq<
    Option<Annotation>,
> {
    outcomes.filter(|o: Option<Annotation>| is_kept(o, labels))
}

/// Gathers the annotations of a run from what reading each file gave: the annotation of
/// the file, or nothing where the file could not be read. A file whose annotation has
/// objects left after filtering gives that filtered annotation; the others are counted.
pub fn collect(outcomes: Vec<Option<Annotation>>, labels: &Option<Vec<String>>) -> (batch: Batch)
    ensures
        batch.invalid == outcomes@.filter(|o: Option<Annotation>| is_invalid(o)).len(),
        batch.skipped == outcomes@.filter(|o: Option<Annotation>| is_skipped(o, *labels)).len(),
        batch.annotations.len() == kept(outcomes@, *labels).len(),
        batch.annotations.len() + batch.skipped + batch.invalid == outcomes.len(),
        forall|k: int|
            0 <= k < batch.annotations.len() ==> {
                let from = kept(outcomes@, *labels)[k].unwrap();
                let a = #[trigger] batch.annotations[k];
                &&& a.folder == from.folder
                &&& a.filename == from.filename
                &&& a.objects is Some
                &&& a@.objects == retained(from@.objects, labels_view(*labels))
            },
{
    let ghost all = outcomes@;
    assert(all.len() == outcomes.len());
    let ghost bad = |o: Option<Annotation>| is_invalid(o);
    let ghost none = |o: Option<Annotation>| is_skipped(o, *labels);
    let ghost some = |o: Option<Annotation>| is_kept(o, *labels);
    let mut annotations: Vec<Annotation> = Vec::new();
    let mut skipped: usize = 0;
    let mut invalid: usize = 0;
    proof {
        all.take(0).lemma_filter_len(bad);
        all.take(0).lemma_filter_len(none);
        all.take(0).lemma_filter_len(some);
    }
    for outcome in it: outcomes
        invariant
            it.seq() == all,
            all.len() <= usize::MAX,
            bad == |o: Option<Annotation>| is_invalid(o),
            none == |o: Option<Annotation>| is_skipped(o, *labels),
            some == |o: Option<Annotation>| is_kept(o, *labels),
            invalid == all.take(it.index() as int).filter(bad).len(),
            skipped == all.take(it.index() as int).filter(none).len(),
            annotations.len() == all.take(it.index() as int).filter(some).len(),
            annotations.len() + skipped + invalid == it.index(),
            forall|k: int|
                0 <= k < annotations.len() ==> {
                    let from = all.take(it.index() as int).filter(some)[k].unwrap();
                    let a = #[trigger] annotations[k];
                    &&& a.folder == from.folder
                    &&& a.filename == from.filename
                    &&& a.objects is Some
                    &&& a@.objects == retained(from@.objects, labels_view(*labels))
                },
    {
        let ghost i = it.index() as int;
        proof {
            assert(all.take(i + 1) =~= all.take(i).push(outcome));
            all.take(i).lemma_filter_push(outcome, bad);
            all.take(i).lemma_filter_push(outcome, none);
            all.take(i).lemma_filter_push(outcome, some);
        }
        match outcome {
            None => {
                invalid += 1;
            },
            Some(annotation) => match annotation.with_filtered_objects(labels) {
                Some(filtered) => {
                    annotations.push(filtered);
                },
                None => {
                    skipped += 1;
                },
            },
        }
    }
    assert(all.take(all.len() as int) =~= all);
    Batch { annotations, skipped, invalid }
}

} // verus!
