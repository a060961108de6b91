//! Static partition of a batch over a fixed number of workers.
use vstd::prelude::*;

verus! {

/// A half-open range of indices into the batch: `lo <= index < hi`.
#[derive(Debug, Clone, Copy, PartialEq, Eq, Structural)]
pub struct Section {
    pub lo: usize,
    pub hi: usize,
}

/// Where the share of worker `i` starts, among `workers` workers and `items` items.
pub open spec fn section_lo(items: nat, workers: nat, i: nat) -> nat {
    i * (items / workers)
}

/// Where the share of worker `i` ends. Every worker takes `items / workers` items; the
/// last one takes the remainder too.
pub open spec fn section_hi(items: nat, workers: nat, i: nat) -> nat {
    i * (items / workers) + items / workers + if i + 1 == workers {
        items % workers
    } else {
        0
    }
}

/// Whether item `k` is in the share of worker `i`.
pub open spec fn holds(items: nat, workers: nat, i: nat, k: nat) -> bool {
    section_lo(items, workers, i) <= k < section_hi(items, workers, i)
}

/// Whether some worker has item `k` in its share.
pub open spec fn assigned(items: nat, workers: nat, k: nat) -> bool {
    exists|i: nat| i < workers && #[trigger] holds(items, workers, i, k)
}

/// The shares end where they should: within the batch, each after its start.
proof fn lemma_section_bounds(items: nat, workers: nat, i: nat)
    requires
        i < workers,
    ensures
        section_lo(items, workers, i) <= section_hi(items, workers, i) <= items,
        i + 1 == workers ==> section_hi(items, workers, i) == items,
        i + 1 < workers ==> section_hi(items, workers, i) == section_lo(items, workers, i + 1),
{
    let base = items / workers;
    assert(items == workers * base + items % workers) by (nonlinear_arith)
        requires
            workers > 0,
            base == items / workers,
    ;
    assert(i * base + base == (i + 1) * base) by (nonlinear_arith);
    assert((i + 1) * base <= workers * base) by (nonlinear_arith)
        requires
            i + 1 <= workers,
    ;
}

/// The number of workers to run: the number asked for, or else what the machine offers,
/// and never more than there are items.
pub fn worker_count(configured: Option<usize>, available: usize, items: usize) -> (w: usize)
    ensures
        w == vstd::math::min(
            match configured {
                Some(c) => c as int,
                None => available as int,
            },
            items as int,
        ),
{
    let wanted = match configured {
        Some(c) => c,
        None => available,
    };
    if wanted < items {
        wanted
    } else {
        items
    }
}

/// `num_cpus::get` gives the number of processors that the machine offers to the
/// program, which is at least 1.
pub assume_specification[ num_cpus::get ]() -> (n: usize)
    ensures
        n >= 1,
;

/// The number of workers of a run over `items` items: the number asked for, or else,
/// asked of the machine only then, the number of processors that it offers; and never
/// more than there are items.
pub fn workers_for(configured: Option<usize>, items: usize) -> (w: usize)
    ensures
        w <= items,
        configured matches Some(c) ==> w == vstd::math::min(c as int, items as int),
        configured is None && items >= 1 ==> w >= 1,
{
    match configured {
        Some(c) => worker_count(Some(c), c, items),
        None => worker_count(None, num_cpus::get(), items),
    }
}

/// The share of worker `i`.
pub fn section(items: usize, workers: usize, i: usize) -> (s: Section)
    requires
        i < workers,
    ensures
        s.lo == section_lo(items as nat, workers as nat, i as nat),
        s.hi == section_hi(items as nat, workers as nat, i as nat),
        s.lo <= s.hi <= items,
{
    proof {
        lemma_section_bounds(items as nat, workers as nat, i as nat);
    }
    let base = items / workers;
    let extra = items % workers;
    let lo = i * base;
    let hi = lo + base + if i == workers - 1 {
        extra
    } else {
        0
    };
    Section { lo, hi }
}

/// The shares of all workers, by worker.
pub fn partition(items: usize, workers: usize) -> (sections: Vec<Section>)
    requires
        workers >= 1,
    ensures
        sections.len() == workers,
        forall|i: int|
            0 <= i < workers ==> {
                &&& (#[trigger] sections[i]).lo == section_lo(
                    items as nat,
                    workers as nat,
                    i as nat,
                )
                &&& sections[i].hi == section_hi(items as nat, workers as nat, i as nat)
            },
{
    let mut sections: Vec<Section> = Vec::new();
    let mut i: usize = 0;
    while i < workers
        invariant
            i <= workers,
            sections.len() == i,
            forall|j: int|
                0 <= j < i ==> {
                    &&& (#[trigger] sections[j]).lo == section_lo(
                        items as nat,
                        workers as nat,
                        j as nat,
                    )
                    &&& sections[j].hi == section_hi(items as nat, workers as nat, j as nat)
                },
        decreases workers - i,
    {
        sections.push(section(items, workers, i));
        i += 1;
    }
    sections
}

/// The shares tile the batch. They follow one another without gap or overlap from 0 to
/// `items`, so every index falls in the share of exactly one worker. Every share but the
/// last has `items / workers` items, and the last has `items % workers` more. With no more
/// workers than items no share is empty.
pub proof fn lemma_partition_tiles(items: nat, workers: nat)
    requires
        workers >= 1,
    ensures
        section_lo(items, workers, 0) == 0,
        section_hi(items, workers, (workers - 1) as nat) == items,
        forall|i: nat|
            i + 1 < workers ==> #[trigger] section_hi(items, workers, i) == section_lo(
                items,
                workers,
                i + 1,
            ),
        forall|i: nat|
            i < workers ==> #[trigger] section_hi(items, workers, i) - section_lo(
                items,
                workers,
                i,
            ) == items / workers + if i + 1 == workers {
                items % workers
            } else {
                0
            },
        forall|k: nat| k < items ==> #[trigger] assigned(items, workers, k),
        forall|i: nat, j: nat, k: nat|
            i < workers && j < workers && #[trigger] holds(items, workers, i, k) && #[trigger] holds(
                items,
                workers,
                j,
                k,
            ) ==> i == j,
        workers <= items ==> forall|i: nat|
            i < workers ==> section_lo(items, workers, i) < #[trigger] section_hi(
                items,
                workers,
                i,
            ),
{
    let base = items / workers;
    lemma_section_bounds(items, workers, (workers - 1) as nat);
    assert forall|i: nat| i + 1 < workers implies #[trigger] section_hi(items, workers, i)
        == section_lo(items, workers, i + 1) by {
        lemma_section_bounds(items, workers, i);
    }
    assert forall|k: nat| k < items implies #[trigger] assigned(items, workers, k) by {
        let last = (workers - 1) as nat;
        let q = if base == 0 {
            last
        } else {
            (k / base) as nat
        };
        let i = if q < workers {
            q
        } else {
            last
        };
        lemma_section_bounds(items, workers, i);
        if base > 0 {
            assert(q * base <= k < q * base + base) by (nonlinear_arith)
                requires
                    base > 0,
                    q == k / base,
            ;
            if q >= workers {
                assert(last * base <= q * base) by (nonlinear_arith)
                    requires
                        last <= q,
                ;
            }
        } else {
            assert(last * base == 0) by (nonlinear_arith)
                requires
                    base == 0,
            ;
        }
        assert(holds(items, workers, i, k));
    }
    assert forall|i: nat, j: nat, k: nat|
        i < workers && j < workers && #[trigger] holds(items, workers, i, k) && #[trigger] holds(
            items,
            workers,
            j,
            k,
        ) implies i == j by {
        lemma_section_bounds(items, workers, i);
        lemma_section_bounds(items, workers, j);
        if i < j {
            assert((i + 1) * base <= j * base) by (nonlinear_arith)
                requires
                    i + 1 <= j,
            ;
        }
        if j < i {
            assert((j + 1) * base <= i * base) by (nonlinear_arith)
                requires
                    j + 1 <= i,
            ;
        }
    }
}

} // verus!
