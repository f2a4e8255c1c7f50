use algos::numerics::fibonacci::{
    big_fast_doubling_fibonacci, dynamic_fibonacci, fast_doubling_fibonacci, recursive_fibonacci,
    BigFib, Fib, LAST_INDEX,
};
use num::BigUint;

fn take(source: &mut Fib, count: usize) -> Vec<u128> {
    let mut taken = Vec::new();
    for _ in 0..count {
        assert!(source.has_next());
        taken.push(source.next().unwrap());
    }
    taken
}

fn take_big(source: &mut BigFib, count: usize) -> Vec<BigUint> {
    let mut taken = Vec::new();
    for _ in 0..count {
        taken.push(source.next().unwrap());
    }
    taken
}

fn big(digits: &str) -> BigUint {
    BigUint::parse_bytes(digits.as_bytes(), 10).unwrap()
}

#[test]
fn recursive_test() {
    let sure = vec![0, 1, 1, 2, 3, 5, 8, 13, 21, 34, 55, 89, 144, 233, 377, 610, 987, 1597];
    let test: Vec<_> = (0..sure.len() as u128).map(recursive_fibonacci).collect();
    assert_eq!(sure, test);
}

#[test]
fn dynamic_test() {
    let sure = vec![0, 1, 1, 2, 3, 5, 8, 13, 21, 34, 55, 89, 144, 233, 377, 610, 987, 1597];
    let test: Vec<_> = (0..sure.len() as u128).map(dynamic_fibonacci).collect();
    assert_eq!(sure, test);
}

#[test]
fn fast_doubling_test() {
    let sure = vec![0, 1, 1, 2, 3, 5, 8, 13, 21, 34, 55, 89, 144, 233, 377, 610, 987, 1597];
    let test: Vec<_> = (0..sure.len() as u128).map(fast_doubling_fibonacci).collect();
    assert_eq!(sure, test);
}

#[test]
fn fast_doubling_bignum_test() {
    let sure: Vec<_> =
        vec![0, 1, 1, 2, 3, 5, 8, 13, 21, 34, 55, 89, 144, 233, 377, 610, 987, 1597]
            .iter()
            .map(|x| BigUint::from(*x as u32))
            .collect();

    let test: Vec<_> = (0..sure.len() as u128)
        .map(|nth| big_fast_doubling_fibonacci(BigUint::from(nth)))
        .collect();
    assert_eq!(sure, test);
}

#[test]
fn iterator_test() {
    let sure = vec![0, 1, 1, 2, 3, 5, 8, 13, 21, 34, 55, 89, 144, 233, 377, 610, 987, 1597];
    let test: Vec<_> = take(&mut Fib::new(), sure.len());
    assert_eq!(sure, test);
}

#[test]
fn iterator_bignum_test() {
    let sure: Vec<_> =
        vec![0, 1, 1, 2, 3, 5, 8, 13, 21, 34, 55, 89, 144, 233, 377, 610, 987, 1597]
            .iter()
            .map(|x| BigUint::from(*x as u32))
            .collect();

    let test: Vec<_> = take_big(&mut BigFib::new(), sure.len());
    assert_eq!(sure, test);
}

#[test]
fn last_index_is_186() {
    assert_eq!(LAST_INDEX, 186);
}

#[test]
fn dynamic_reaches_the_last_index_but_one() {
    assert_eq!(dynamic_fibonacci(185), 205697230343233228174223751303346572685);
    assert_eq!(dynamic_fibonacci(93), 12200160415121876738);
}

#[test]
fn fast_doubling_reaches_the_last_index_but_one() {
    assert_eq!(fast_doubling_fibonacci(185), 205697230343233228174223751303346572685);
    assert_eq!(fast_doubling_fibonacci(184), 127127879743834334146972278486287885163);
    assert_eq!(fast_doubling_fibonacci(94), 19740274219868223167);
}

#[test]
fn recursive_follows_the_recurrence() {
    assert_eq!(recursive_fibonacci(0), 0);
    assert_eq!(recursive_fibonacci(1), 1);
    assert_eq!(recursive_fibonacci(2), 1);
    assert_eq!(recursive_fibonacci(25), 75025);
}

#[test]
fn the_three_strategies_agree() {
    for nth in 0..28 {
        assert_eq!(recursive_fibonacci(nth), dynamic_fibonacci(nth));
        assert_eq!(dynamic_fibonacci(nth), fast_doubling_fibonacci(nth));
    }
    for nth in 28..186 {
        assert_eq!(dynamic_fibonacci(nth), fast_doubling_fibonacci(nth));
    }
}

#[test]
fn fib_starts_at_a_given_index() {
    assert_eq!(take(&mut Fib::at(10u8), 4), vec![55, 89, 144, 233]);
    assert_eq!(take(&mut Fib::at(0u32), 3), vec![0, 1, 1]);
    assert_eq!(take(&mut Fib::at(90u128), 2), vec![2880067194370816120, 4660046610375530309]);
}

#[test]
fn fib_steps_185_times_from_zero() {
    let mut source = Fib::new();
    let taken = take(&mut source, 185);
    assert_eq!(taken[184], 127127879743834334146972278486287885163);
    assert!(!source.has_next());
}

#[test]
fn fib_at_the_last_index_but_one_cannot_step() {
    assert!(!Fib::at(185u8).has_next());
    assert!(Fib::at(184u8).has_next());
}

#[test]
fn fib_default_yields_zeros() {
    let mut source = Fib::default();
    assert_eq!(take(&mut source, 3), vec![0, 0, 0]);
    let mut source = BigFib::default();
    assert_eq!(take_big(&mut source, 2), vec![BigUint::from(0u8), BigUint::from(0u8)]);
}

#[test]
fn fib_clone_stands_where_the_source_stands() {
    let mut source = Fib::at(20u8);
    let mut copy = source.clone();
    assert_eq!(source.next(), Some(6765));
    assert_eq!(copy.next(), Some(6765));
    assert_eq!(copy.next(), Some(10946));
    let mut source = BigFib::at(BigUint::from(20u8));
    let mut copy = source.clone();
    assert_eq!(source.next(), Some(BigUint::from(6765u32)));
    assert_eq!(copy.next(), Some(BigUint::from(6765u32)));
    assert_eq!(copy.next(), Some(BigUint::from(10946u32)));
}

#[test]
fn big_fast_doubling_goes_past_u128() {
    assert_eq!(
        big_fast_doubling_fibonacci(BigUint::from(186u8)),
        big("332825110087067562321196029789634457848")
    );
    assert_eq!(
        big_fast_doubling_fibonacci(BigUint::from(187u8)),
        big("538522340430300790495419781092981030533")
    );
    assert_eq!(
        big_fast_doubling_fibonacci(BigUint::from(300u16)),
        big("222232244629420445529739893461909967206666939096499764990979600")
    );
}

#[test]
fn big_fib_starts_at_a_given_index() {
    let mut source = BigFib::at(BigUint::from(185u8));
    assert_eq!(
        take_big(&mut source, 3),
        vec![
            big("205697230343233228174223751303346572685"),
            big("332825110087067562321196029789634457848"),
            big("538522340430300790495419781092981030533"),
        ]
    );
}

#[test]
fn big_and_small_agree() {
    for nth in 0..186u128 {
        assert_eq!(
            big_fast_doubling_fibonacci(BigUint::from(nth)),
            BigUint::from(fast_doubling_fibonacci(nth))
        );
    }
}
