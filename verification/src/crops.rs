//! What a worker does with one annotation: where its image lies, which crops to make
//! and how to name them, and how the crops are counted.
use crate::annotation::{accepts, allowed, labels_view, Annotation, Bndbox};
use crate::partition::{section_hi, section_lo};
use crate::paths::{find_extension_point, join, joined, without_extension};
use crate::tally::Tally;
use crate::text::{chars_of, decimal_chars, decimal_digits, string_of};
use vstd::prelude::*;

verus! {

/// Where a dataset lies.
#[derive(Debug, Clone, PartialEq, Eq)]
pub enum Dataset {
    /// PASCAL VOC files under `root`, each naming the folder of its image.
    Pascal { root: String },
    /// YOLO label files in `label_dir` for the images in `image_dir`, the labels of
    /// the classes listed in `names_file`.
    Yolo { image_dir: String, label_dir: String, names_file: String },
}

/// Where the image of an annotation lies: in the directory of images that was given;
/// without one, in the image directory of a YOLO dataset, or in the annotation's folder
/// under the root of a PASCAL VOC dataset.
pub open spec fn image_path(annotation: Annotation, image_dir: Option<String>, dataset: Dataset) -> Seq<
    char,
> {
    let dir = match image_dir {
        Some(dir) => dir@,
        None => match dataset {
            Dataset::Yolo { image_dir, .. } => image_dir@,
            Dataset::Pascal { root } => joined(root@, annotation.folder@),
        },
    };
    joined(dir, annotation.filename@)
}

/// Where the image of `annotation` lies.
pub fn get_image_path(annotation: &Annotation, image_dir: &Option<String>, dataset: &Dataset) -> (path:
    String)
    ensures
        path@ == image_path(*annotation, *image_dir, *dataset),
{
    match image_dir {
        Some(dir) => join(dir.as_str(), annotation.filename.as_str()),
        None => match dataset {
            Dataset::Yolo { image_dir, .. } => join(
                image_dir.as_str(),
                annotation.filename.as_str(),
            ),
            Dataset::Pascal { root } => {
                let dir = join(root.as_str(), annotation.folder.as_str());
                join(dir.as_str(), annotation.filename.as_str())
            },
        },
    }
}

/// The name of the file that holds the crop of object `index`: the image's file name
/// without its extension, `_`, the index, and `.png`.
pub open spec fn crop_file_name(filename: Seq<char>, index: nat) -> Seq<char> {
    without_extension(filename) + seq!['_'] + decimal_digits(index) + seq!['.', 'p', 'n', 'g']
}

/// The name of the file for the crop of object `idx` of the image `filename`.
pub fn transform_filename(filename: &str, idx: usize) -> (name: String)
    ensures
        name@ == crop_file_name(filename@, idx as nat),
{
    let mut chars = chars_of(filename);
    match find_extension_point(&chars) {
        Some(point) => {
            chars.truncate(point);
        },
        None => {},
    }
    let mut digits = decimal_chars(idx);
    chars.push('_');
    chars.append(&mut digits);
    chars.push('.');
    chars.push('p');
    chars.push('n');
    chars.push('g');
    string_of(&chars)
}

/// One crop to make.
#[derive(Debug, Clone, PartialEq, Eq)]
pub struct CropTask {
    /// The place of the object among the objects of its annotation, from 0.
    pub index: usize,
    /// The label of the object: the directory of the crop under the output directory.
    pub label: String,
    /// The name of the crop's file in that directory.
    pub file_name: String,
    /// The box to cut out.
    pub bndbox: Bndbox,
}

/// The crop to make of object `index` of `annotation`.
pub open spec fn task_of(annotation: Annotation, index: int, task: CropTask) -> bool {
    &&& annotation.objects matches Some(objects)
    &&& 0 <= index < objects.len()
    &&& task.index == index
    &&& task.label@ == objects[index].name@
    &&& task.file_name@ == crop_file_name(annotation.filename@, index as nat)
    &&& task.bndbox == objects[index].bndbox
}

/// The places of the objects of `annotation` that the filter lets through, ascending.
pub open spec fn accepted(annotation: Annotation, labels: Option<Vec<String>>) -> Seq<int> {
    match annotation.objects {
        None => Seq::empty(),
        Some(objects) => Seq::new(objects.len() as nat, |i: int| i).filter(
            |i: int| allowed(labels_view(labels), objects[i].name@),
        ),
    }
}

/// The crops to make of an annotation: one for each object that the filter lets
/// through, in the order of the objects, each named by the place of its object among
/// all objects of the annotation.
pub fn plan_crops(annotation: &Annotation, labels: &Option<Vec<String>>) -> (tasks: Vec<CropTask>)
    ensures
        tasks.len() == accepted(*annotation, *labels).len(),
        forall|k: int|
            0 <= k < tasks.len() ==> task_of(
                *annotation,
                accepted(*annotation, *labels)[k],
                #[trigger] tasks[k],
            ),
{
    let mut tasks: Vec<CropTask> = Vec::new();
    match &annotation.objects {
        None => {},
        Some(objects) => {
            let ghost places = Seq::new(objects.len() as nat, |i: int| i);
            let ghost pred = |i: int| allowed(labels_view(*labels), objects[i].name@);
            let mut i: usize = 0;
            while i < objects.len()
                invariant
                    i <= objects.len(),
                    annotation.objects == Some(*objects),
                    places == Seq::new(objects.len() as nat, |i: int| i),
                    pred == |i: int| allowed(labels_view(*labels), objects[i].name@),
                    tasks.len() == places.take(i as int).filter(pred).len(),
                    forall|k: int|
                        0 <= k < tasks.len() ==> task_of(
                            *annotation,
                            places.take(i as int).filter(pred)[k],
                            #[trigger] tasks[k],
                        ),
                decreases objects.len() - i,
            {
                proof {
                    assert(places.take(i + 1) =~= places.take(i as int).push(i as int));
                    places.take(i as int).lemma_filter_push(i as int, pred);
                }
                if accepts(labels, &objects[i].name) {
                    let task = CropTask {
                        index: i,
                        label: objects[i].name.clone(),
                        file_name: transform_filename(annotation.filename.as_str(), i),
                        bndbox: objects[i].bndbox,
                    };
                    tasks.push(task);
                }
                i += 1;
            }
            assert(places.take(i as int) =~= places);
        },
    }
    tasks
}

/// How many of `tasks` carry `label`.
pub open spec fn crops_of(tasks: Seq<CropTask>, label: Seq<char>) -> nat {
    tasks.filter(|t: CropTask| t.label@ == label).len()
}

/// Counts the crops of `tasks` in `tally`, one for each, by label. Returns their number.
pub fn record_crops(tasks: &Vec<CropTask>, tally: &mut Tally) -> (n: usize)
    requires
        old(tally).sum() + tasks.len() <= usize::MAX,
    ensures
        n == tasks.len(),
        final(tally).sum() == old(tally).sum() + tasks.len(),
        forall|l: Seq<char>| #[trigger]
            final(tally).count(l) == old(tally).count(l) + crops_of(tasks@, l),
{
    let ghost before = *tally;
    let mut i: usize = 0;
    while i < tasks.len()
        invariant
            i <= tasks.len(),
            before.sum() + tasks.len() <= usize::MAX,
            tally.sum() == before.sum() + i,
            forall|l: Seq<char>| #[trigger]
                tally.count(l) == before.count(l) + crops_of(tasks@.take(i as int), l),
        decreases tasks.len() - i,
    {
        proof {
            assert(tasks@.take(i + 1) =~= tasks@.take(i as int).push(tasks@[i as int]));
            assert forall|l: Seq<char>| #[trigger]
                crops_of(tasks@.take(i + 1), l) == crops_of(tasks@.take(i as int), l) + if l
                    == tasks@[i as int].label@ {
                    1nat
                } else {
                    0
                } by {
                tasks@.take(i as int).lemma_filter_push(
                    tasks@[i as int],
                    |t: CropTask| t.label@ == l,
                );
            }
        }
        tally.add(tasks[i].label.as_str(), 1);
        i += 1;
    }
    assert(tasks@.take(i as int) =~= tasks@);
    i
}

/// The sum of the numbers `counts[lo..hi]`.
pub open spec fn range_sum(counts: Seq<nat>, lo: int, hi: int) -> nat
    decreases hi - lo,
{
    if hi <= lo {
        0
    } else {
        range_sum(counts, lo, hi - 1) + counts[hi - 1]
    }
}

/// What the first `upto` of `workers` workers count together, where item `k` of the
/// batch counts `counts[k]`.
pub open spec fn workers_sum(counts: Seq<nat>, workers: nat, upto: nat) -> nat
    decreases upto,
{
    if upto == 0 {
        0
    } else {
        let i = (upto - 1) as nat;
        workers_sum(counts, workers, i) + range_sum(
            counts,
            section_lo(counts.len(), workers, i) as int,
            section_hi(counts.len(), workers, i) as int,
        )
    }
}

/// The sum over a range is the sum over its two parts.
proof fn lemma_range_sum_split(counts: Seq<nat>, lo: int, mid: int, hi: int)
    requires
        lo <= mid <= hi,
    ensures
        range_sum(counts, lo, hi) == range_sum(counts, lo, mid) + range_sum(counts, mid, hi),
    decreases hi - mid,
{
    if mid < hi {
        lemma_range_sum_split(counts, lo, mid, hi - 1);
    }
}

/// What the first workers count together is what their shares, taken as one range, hold.
proof fn lemma_workers_sum(counts: Seq<nat>, workers: nat, upto: nat)
    requires
        1 <= upto <= workers,
    ensures
        workers_sum(counts, workers, upto) == range_sum(
            counts,
            0,
            section_hi(counts.len(), workers, (upto - 1) as nat) as int,
        ),
    decreases upto,
{
    let n = counts.len();
    let i = (upto - 1) as nat;
    let base = n / workers;
    if upto == 1 {
        assert(workers_sum(counts, workers, 0) == 0);
    } else {
        lemma_workers_sum(counts, workers, i);
        let before = (i - 1) as nat;
        assert(before * base + base == i * base) by (nonlinear_arith)
            requires
                before + 1 == i,
        ;
        lemma_range_sum_split(
            counts,
            0,
            section_lo(n, workers, i) as int,
            section_hi(n, workers, i) as int,
        );
    }
}

/// The count of a run does not depend on the number of its workers. Where item `k` of a
/// batch counts `counts[k]` (its crops of one label, or all its crops), the workers
/// together count what one worker counts on the whole batch.
pub proof fn lemma_count_whatever_the_workers(counts: Seq<nat>, workers: nat)
    requires
        workers >= 1,
    ensures
        workers_sum(counts, workers, workers) == range_sum(counts, 0, counts.len() as int),
        workers_sum(counts, workers, workers) == workers_sum(counts, 1, 1),
{
    let n = counts.len();
    lemma_workers_sum(counts, workers, workers);
    lemma_workers_sum(counts, 1, 1);
    assert(n == workers * (n / workers) + n % workers) by (nonlinear_arith)
        requires
            workers > 0,
    ;
    let last = (workers - 1) as nat;
    assert(last * (n / workers) + n / workers == workers * (n / workers)) by (nonlinear_arith)
        requires
            last + 1 == workers,
    ;
}

/// The sum of the first `upto` tallies, for one label.
pub open spec fn counted(tallies: Seq<Tally>, upto: int, label: Seq<char>) -> nat
    decreases upto,
{
    if upto <= 0 {
        0
    } else {
        counted(tallies, upto - 1, label) + tallies[upto - 1].count(label)
    }
}

/// The sum of the first `upto` tallies, all labels together.
pub open spec fn counted_in_all(tallies: Seq<Tally>, upto: int) -> nat
    decreases upto,
{
    if upto <= 0 {
        0
    } else {
        counted_in_all(tallies, upto - 1) + tallies[upto - 1].sum()
    }
}

/// How many crops the tallies count together, if that many can be counted.
pub fn count_crops(tallies: &Vec<Tally>) -> (n: Option<usize>)
    ensures
        match n {
            Some(n) => n == counted_in_all(tallies@, tallies.len() as int),
            None => counted_in_all(tallies@, tallies.len() as int) > usize::MAX,
        },
{
    let mut n: usize = 0;
    let mut i: usize = 0;
    while i < tallies.len()
        invariant
            i <= tallies.len(),
            n == counted_in_all(tallies@, i as int),
        decreases tallies.len() - i,
    {
        match n.checked_add(tallies[i].total()) {
            Some(sum) => {
                n = sum;
            },
            None => {
                proof {
                    lemma_counted_grows(tallies@, i + 1, tallies.len() as int);
                }
                return None;
            },
        }
        i += 1;
    }
    Some(n)
}

/// The tallies of all workers as one: for every label the sum of its counts.
pub fn aggregate(tallies: &Vec<Tally>) -> (merged: Tally)
    requires
        counted_in_all(tallies@, tallies.len() as int) <= usize::MAX,
    ensures
        merged.sum() == counted_in_all(tallies@, tallies.len() as int),
        forall|l: Seq<char>| #[trigger] merged.count(l) == counted(tallies@, tallies.len() as int, l),
{
    let mut merged = Tally::new();
    let mut i: usize = 0;
    while i < tallies.len()
        invariant
            i <= tallies.len(),
            counted_in_all(tallies@, tallies.len() as int) <= usize::MAX,
            merged.sum() == counted_in_all(tallies@, i as int),
            forall|l: Seq<char>| #[trigger] merged.count(l) == counted(tallies@, i as int, l),
        decreases tallies.len() - i,
    {
        proof {
            lemma_counted_grows(tallies@, i + 1, tallies.len() as int);
        }
        merged.merge(&tallies[i]);
        i += 1;
    }
    merged
}

/// The sum of more tallies is no less.
proof fn lemma_counted_grows(tallies: Seq<Tally>, a: int, b: int)
    requires
        a <= b,
    ensures
        counted_in_all(tallies, a) <= counted_in_all(tallies, b),
    decreases b - a,
{
    if a < b {
        lemma_counted_grows(tallies, a, b - 1);
    }
}

/// The sum of the first tallies, for one label, where each tally counts its share.
proof fn lemma_counted_by_workers(
    tallies: Seq<Tally>,
    counts: Seq<nat>,
    label: Seq<char>,
    upto: nat,
)
    requires
        upto <= tallies.len(),
        forall|i: int|
            0 <= i < tallies.len() ==> (#[trigger] tallies[i]).count(label) == range_sum(
                counts,
                section_lo(counts.len(), tallies.len(), i as nat) as int,
                section_hi(counts.len(), tallies.len(), i as nat) as int,
            ),
    ensures
        counted(tallies, upto as int, label) == workers_sum(counts, tallies.len(), upto),
    decreases upto,
{
    if upto > 0 {
        lemma_counted_by_workers(tallies, counts, label, (upto - 1) as nat);
    }
}

/// The sum of the first tallies, all labels together, where each tally counts its share.
proof fn lemma_summed_by_workers(tallies: Seq<Tally>, counts: Seq<nat>, upto: nat)
    requires
        upto <= tallies.len(),
        forall|i: int|
            0 <= i < tallies.len() ==> (#[trigger] tallies[i]).sum() == range_sum(
                counts,
                section_lo(counts.len(), tallies.len(), i as nat) as int,
                section_hi(counts.len(), tallies.len(), i as nat) as int,
            ),
    ensures
        counted_in_all(tallies, upto as int) == workers_sum(counts, tallies.len(), upto),
    decreases upto,
{
    if upto > 0 {
        lemma_summed_by_workers(tallies, counts, (upto - 1) as nat);
    }
}

/// The tallies of the workers of a run, taken together, count a label as one worker
/// alone would. Where item `k` of the batch has `counts[k]` crops of `label`, and the
/// tally of each worker counts the crops of its share of the batch, the sum of the
/// tallies counts the crops of the whole batch.
pub proof fn lemma_label_count_of_run(tallies: Seq<Tally>, counts: Seq<nat>, label: Seq<char>)
    requires
        tallies.len() >= 1,
        forall|i: int|
            0 <= i < tallies.len() ==> (#[trigger] tallies[i]).count(label) == range_sum(
                counts,
                section_lo(counts.len(), tallies.len(), i as nat) as int,
                section_hi(counts.len(), tallies.len(), i as nat) as int,
            ),
    ensures
        counted(tallies, tallies.len() as int, label) == range_sum(counts, 0, counts.len() as int),
{
    lemma_counted_by_workers(tallies, counts, label, tallies.len());
    lemma_count_whatever_the_workers(counts, tallies.len());
}

/// The tallies of the workers of a run, taken together, count as many crops as one
/// worker alone would. Where item `k` of the batch has `counts[k]` crops, and the tally
/// of each worker counts the crops of its share of the batch, the sum of the tallies is
/// the number of crops of the whole batch.
pub proof fn lemma_total_of_run(tallies: Seq<Tally>, counts: Seq<nat>)
    requires
        tallies.len() >= 1,
        forall|i: int|
            0 <= i < tallies.len() ==> (#[trigger] tallies[i]).sum() == range_sum(
                counts,
                section_lo(counts.len(), tallies.len(), i as nat) as int,
                section_hi(counts.len(), tallies.len(), i as nat) as int,
            ),
    ensures
        counted_in_all(tallies, tallies.len() as int) == range_sum(counts, 0, counts.len() as int),
{
    lemma_summed_by_workers(tallies, counts, tallies.len());
    lemma_count_whatever_the_workers(counts, tallies.len());
}

} // verus!
