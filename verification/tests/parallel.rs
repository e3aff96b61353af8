//! The two engines and a parallel run all agree: parallelism changes
//! timing, never the result.
use std::sync::atomic::AtomicU64;
use std::sync::atomic::Ordering;

use tatami::defs::PNUM;
use tatami::defs::SMAX;
use tatami::primes::Primes;
use tatami::prune::Tatami;
use tatami::queue;

fn merge_min(g: &AtomicU64, v: u64) {
    let mut cur = g.load(Ordering::Relaxed);
    while v < cur {
        match g.compare_exchange(cur, v, Ordering::Relaxed, Ordering::Relaxed) {
            Ok(_) => break,
            Err(now) => cur = now,
        }
    }
}

// The serial engine and the task engine return the same minimum.
#[test]
fn serial_and_task_engines_agree() {
    let table = Primes::new(PNUM);
    let mut xp = queue::Factors::new();
    let mut bound = SMAX;
    queue::twork(&table.primes, SMAX, &mut xp, 5, &mut bound);
    assert_eq!(bound, 1320);

    let mut tatami = Tatami::new();
    assert_eq!(tatami.inv(5).unwrap(), bound);
}

// Several workers racing over the shared bound settle on the same
// answer as a single serial pass.
#[test]
fn parallel_run_matches_serial_run() {
    let table = Primes::new(PNUM);
    let pr = table.primes;
    let g_min = AtomicU64::new(SMAX);
    rayon::scope(|scope| {
        for _ in 0..4 {
            let pr = &pr;
            let g_min = &g_min;
            scope.spawn(move |_| {
                let mut xp = queue::Factors::new();
                let mut local = g_min.load(Ordering::Relaxed);
                queue::twork(pr, SMAX, &mut xp, 5, &mut local);
                merge_min(g_min, local);
            });
        }
    });
    let parallel = g_min.load(Ordering::Relaxed);
    assert_eq!(parallel, 1320);

    let mut tatami = Tatami::new();
    assert_eq!(tatami.inv(5).unwrap(), parallel);
}
