use imgcrop::annotation::{Annotation, Bndbox, Object};
use imgcrop::crops::{aggregate, plan_crops, record_crops};
use imgcrop::partition::partition;
use imgcrop::tally::Tally;

fn entries(tally: &Tally) -> Vec<(String, usize)> {
    tally.entries()
}

fn pairs(list: &[(&str, usize)]) -> Vec<(String, usize)> {
    list.iter().map(|(l, n)| (l.to_string(), *n)).collect()
}

#[test]
fn new_tally_is_empty() {
    let tally = Tally::new();
    assert_eq!(tally.total(), 0);
    assert_eq!(tally.get("a"), 0);
    assert_eq!(entries(&tally), vec![]);
}

#[test]
fn counts_add_up_by_label() {
    let mut tally = Tally::new();
    tally.add("b", 1);
    tally.add("a", 2);
    tally.add("b", 3);
    tally.add("c", 0);
    tally.add("", 5);
    assert_eq!(tally.get("a"), 2);
    assert_eq!(tally.get("b"), 4);
    assert_eq!(tally.get("c"), 0);
    assert_eq!(tally.get(""), 5);
    assert_eq!(tally.get("ab"), 0);
    assert_eq!(tally.total(), 11);
    assert_eq!(entries(&tally), pairs(&[("", 5), ("a", 2), ("b", 4)]));
}

#[test]
fn labels_come_sorted() {
    let mut tally = Tally::new();
    for label in ["pear", "Apple", "fig", "apple", "Fig", "fig", "zebra", "a"] {
        tally.add(label, 1);
    }
    assert_eq!(
        entries(&tally),
        pairs(&[("Apple", 1), ("Fig", 1), ("a", 1), ("apple", 1), ("fig", 2), ("pear", 1), ("zebra", 1)])
    );
}

#[test]
fn merge_sums_for_every_label() {
    let mut a = Tally::new();
    a.add("x", 1);
    a.add("y", 2);
    let mut b = Tally::new();
    b.add("y", 10);
    b.add("z", 20);
    a.merge(&b);
    assert_eq!(entries(&a), pairs(&[("x", 1), ("y", 12), ("z", 20)]));
    assert_eq!(a.total(), 33);
    assert_eq!(entries(&b), pairs(&[("y", 10), ("z", 20)]));
    a.merge(&Tally::new());
    assert_eq!(a.total(), 33);
}

#[test]
fn aggregate_of_no_tallies_is_empty() {
    let merged = aggregate(&Vec::new());
    assert_eq!(merged.total(), 0);
    assert_eq!(entries(&merged), vec![]);
}

#[test]
fn aggregate_sums_the_workers() {
    let mut a = Tally::new();
    a.add("cat", 2);
    let mut b = Tally::new();
    b.add("dog", 1);
    b.add("cat", 1);
    let c = Tally::new();
    let merged = aggregate(&vec![a, b, c]);
    assert_eq!(entries(&merged), pairs(&[("cat", 3), ("dog", 1)]));
    assert_eq!(merged.total(), 4);
}

fn object(name: &str) -> Object {
    Object { name: name.to_string(), bndbox: Bndbox { xmin: 0, ymin: 0, xmax: 4, ymax: 4 } }
}

fn dataset() -> Vec<Annotation> {
    vec![
        Annotation {
            folder: "imgs".to_string(),
            filename: "one.png".to_string(),
            objects: Some(vec![object("cat"), object("dog"), object("dog")]),
        },
        Annotation {
            folder: "imgs".to_string(),
            filename: "two.png".to_string(),
            objects: Some(vec![object("bird"), object("cat")]),
        },
    ]
}

/// What a run with `workers` workers counts, every image loading.
fn run(annotations: &[Annotation], workers: usize) -> Tally {
    let mut tallies = Vec::new();
    for section in partition(annotations.len(), workers) {
        let mut tally = Tally::new();
        for annotation in &annotations[section.lo..section.hi] {
            let tasks = plan_crops(annotation, &None);
            assert_eq!(record_crops(&tasks, &mut tally), tasks.len());
        }
        tallies.push(tally);
    }
    aggregate(&tallies)
}

#[test]
fn one_worker_counts_all_retained_objects() {
    let annotations = dataset();
    let summary = run(&annotations, 1);
    assert_eq!(summary.total(), 5);
    assert_eq!(entries(&summary), pairs(&[("bird", 1), ("cat", 2), ("dog", 2)]));
}

#[test]
fn two_workers_count_what_one_counts() {
    let annotations = dataset();
    let one = run(&annotations, 1);
    let two = run(&annotations, 2);
    assert_eq!(two.total(), one.total());
    assert_eq!(entries(&two), entries(&one));
    assert_eq!(two.total(), 5);
}

#[test]
fn any_number_of_workers_counts_the_same() {
    let mut annotations = Vec::new();
    for i in 0..23 {
        annotations.push(Annotation {
            folder: "imgs".to_string(),
            filename: format!("{}.png", i),
            objects: Some((0..(i % 4 + 1)).map(|k| object(["a", "b", "c"][(i + k) % 3])).collect()),
        });
    }
    let one = run(&annotations, 1);
    for workers in 2..=23 {
        let many = run(&annotations, workers);
        assert_eq!(many.total(), one.total());
        assert_eq!(entries(&many), entries(&one));
    }
}
