use imgcrop::partition::{partition, section, worker_count, workers_for, Section};

#[test]
fn worker_count_is_never_more_than_the_items() {
    assert_eq!(worker_count(Some(4), 8, 10), 4);
    assert_eq!(worker_count(None, 8, 10), 8);
    assert_eq!(worker_count(Some(16), 8, 10), 10);
    assert_eq!(worker_count(None, 8, 3), 3);
    assert_eq!(worker_count(Some(0), 8, 3), 0);
    assert_eq!(worker_count(None, 8, 0), 0);
}

#[test]
fn last_worker_takes_the_remainder() {
    assert_eq!(
        partition(10, 3),
        vec![Section { lo: 0, hi: 3 }, Section { lo: 3, hi: 6 }, Section { lo: 6, hi: 10 }]
    );
    assert_eq!(
        partition(11, 4),
        vec![
            Section { lo: 0, hi: 2 },
            Section { lo: 2, hi: 4 },
            Section { lo: 4, hi: 6 },
            Section { lo: 6, hi: 11 }
        ]
    );
    assert_eq!(section(11, 4, 3), Section { lo: 6, hi: 11 });
    assert_eq!(section(11, 4, 0), Section { lo: 0, hi: 2 });
}

#[test]
fn even_split_and_single_worker() {
    assert_eq!(partition(6, 3), vec![Section { lo: 0, hi: 2 }, Section { lo: 2, hi: 4 }, Section { lo: 4, hi: 6 }]);
    assert_eq!(partition(7, 1), vec![Section { lo: 0, hi: 7 }]);
    assert_eq!(partition(1, 1), vec![Section { lo: 0, hi: 1 }]);
    assert_eq!(partition(2, 2), vec![Section { lo: 0, hi: 1 }, Section { lo: 1, hi: 2 }]);
}

#[test]
fn more_workers_than_items_leaves_all_but_the_last_idle() {
    assert_eq!(
        partition(2, 3),
        vec![Section { lo: 0, hi: 0 }, Section { lo: 0, hi: 0 }, Section { lo: 0, hi: 2 }]
    );
    assert_eq!(partition(0, 2), vec![Section { lo: 0, hi: 0 }, Section { lo: 0, hi: 0 }]);
}

#[test]
fn sections_tile_the_batch() {
    for n in 1..60usize {
        for w in 1..=n {
            let sections = partition(n, w);
            assert_eq!(sections.len(), w);
            assert_eq!(sections[0].lo, 0);
            assert_eq!(sections[w - 1].hi, n);
            for i in 0..w {
                let size = sections[i].hi - sections[i].lo;
                if i + 1 < w {
                    assert_eq!(sections[i].hi, sections[i + 1].lo);
                    assert_eq!(size, n / w);
                } else {
                    assert_eq!(size, n / w + n % w);
                }
                assert!(size >= 1);
            }
        }
    }
}

#[test]
fn sections_of_a_huge_batch() {
    let sections = partition(usize::MAX, 2);
    assert_eq!(sections[0], Section { lo: 0, hi: usize::MAX / 2 });
    assert_eq!(sections[1], Section { lo: usize::MAX / 2, hi: usize::MAX });
}

#[test]
fn workers_are_asked_of_the_machine_when_none_are_asked_for() {
    assert_eq!(workers_for(Some(4), 10), 4);
    assert_eq!(workers_for(Some(16), 10), 10);
    assert_eq!(workers_for(Some(0), 10), 0);
    assert_eq!(workers_for(None, 0), 0);
    assert_eq!(workers_for(None, 1), 1);
    let workers = workers_for(None, 1000);
    assert!(1 <= workers && workers <= 1000);
}
