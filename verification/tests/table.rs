//! The generated prime table.
use tatami::defs::PNUM;
use tatami::primes::Primes;

#[test]
fn first_ten_primes() {
    let table = Primes::new(10);
    assert_eq!(table.primes, vec![2, 3, 5, 7, 11, 13, 17, 19, 23, 29]);
}

#[test]
fn default_table_shape() {
    let table = Primes::new(PNUM);
    assert_eq!(table.primes.len(), PNUM);
    assert_eq!(table.primes[0], 2);
    assert_eq!(table.primes[1], 3);
    assert_eq!(*table.primes.last().unwrap(), 10657);
    for w in table.primes.windows(2) {
        assert!(w[0] < w[1]);
    }
}

#[test]
fn tiny_tables() {
    assert_eq!(Primes::new(0).primes.len(), 0);
    assert_eq!(Primes::new(1).primes, vec![2]);
    assert_eq!(Primes::new(2).primes, vec![2, 3]);
}
