use gridpath::divisors::gcd;
use gridpath::divisors::gcd_extended;
use gridpath::divisors::lcm;
use gridpath::eratosthenes_sieve::Sieve;
use gridpath::fibonacci_gen::Fibseq;
use gridpath::num_factors::num_factors;
use gridpath::num_factors::num_factors_alt;
use gridpath::prime_factors::is_prime;
use gridpath::prime_factors::prime_factors;
use gridpath::sums::sum_numbers;
use gridpath::sums::sum_squares;

#[test]
fn test_prime_factors() {
    assert_eq!(prime_factors(84), vec![2, 2, 3, 7]);
}

#[test]
fn test_num_factors() {
    // Some triangle numbers
    assert_eq!(num_factors(1), 1);
    assert_eq!(num_factors(3), 2);
    assert_eq!(num_factors(6), 4);
    assert_eq!(num_factors(10), 4);
    assert_eq!(num_factors(15), 4);
    assert_eq!(num_factors(21), 4);
    assert_eq!(num_factors(28), 6);
    assert_eq!(num_factors(84), 12);
}

#[test]
fn test_num_factors_alt() {
    // Some triangle numbers
    assert_eq!(num_factors_alt(1), 1);
    assert_eq!(num_factors_alt(3), 2);
    assert_eq!(num_factors_alt(6), 4);
    assert_eq!(num_factors_alt(10), 4);
    assert_eq!(num_factors_alt(15), 4);
    assert_eq!(num_factors_alt(21), 4);
    assert_eq!(num_factors_alt(28), 6);
    assert_eq!(num_factors_alt(84), 12);
}

#[test]
fn test_fibonacci() {
    let mut seq = Fibseq::new();
    seq.next(); // 1
    seq.next(); // 1
    seq.next(); // 2
    seq.next(); // 3
    seq.next(); // 5
    let result = seq.next(); // 8
    assert_eq!(result, Some(8));
}

#[test]
fn fibonacci_stops_before_overflow() {
    let mut seq = Fibseq::new();
    let mut last = 0;
    let mut count = 0;
    while let Some(v) = seq.next() {
        last = v;
        count += 1;
    }
    assert_eq!(last, 4660046610375530309);
    assert_eq!(count, 91);
    assert_eq!(seq.next(), None);
}

#[test]
fn test_sieve() {
    let mut seq = Sieve::new(50);
    seq.next(); // 2
    seq.next(); // 3
    seq.next(); // 5
    seq.next(); // 7
    seq.next(); // 11
    let result = seq.next(); // 13
    assert_eq!(result, Some(13));
    while let Some(p) = seq.next() {
        println!("{}", p);
    }
}

#[test]
fn sieve_lists_small_primes() {
    let mut seq = Sieve::new(30);
    let mut primes = Vec::new();
    while let Some(p) = seq.next() {
        primes.push(p);
    }
    assert_eq!(primes, vec![2, 3, 5, 7, 11, 13, 17, 19, 23, 29]);
}

#[test]
fn test_gcd() {
    let result = gcd(10, 25);
    assert_eq!(result, 5);
}

#[test]
fn gcd_test() {
    let g = gcd(39, 15);
    assert_eq!(g, 3);
}

#[test]
fn extended_gcd_test() {
    let a = 94;
    let b = 22;
    let (g, x, y) = gcd_extended(a, b);
    assert_eq!(g, 2);
    assert_eq!(a * x + b * y, g);
}

#[test]
fn extended_gcd_all_solutions_test() {
    // any value of k also gives solutions
    let a = 94;
    let b = 22;
    let (g, x, y) = gcd_extended(a, b);
    let mut k = 0;
    while k < 10 {
        let xn = x + ((k * b) / g);
        let yn = y - ((k * a) / g);
        assert_eq!(a * xn + b * yn, g);
        k += 1;
    }
}

#[test]
fn lcm_test() {
    assert_eq!(lcm(94, 34), 1598);
}

#[test]
fn prime_check_agrees_with_factoring() {
    assert!(is_prime(2));
    assert!(is_prime(7));
    assert!(is_prime(97));
    assert!(!is_prime(0));
    assert!(!is_prime(1));
    assert!(!is_prime(84));
}

#[test]
fn sum_formulas_give_exact_values() {
    assert_eq!(sum_numbers(0), 0);
    assert_eq!(sum_numbers(10), 55);
    assert_eq!(sum_squares(0), 0);
    assert_eq!(sum_squares(10), 385);
}

#[test]
fn factoring_edge_cases() {
    assert_eq!(prime_factors(0), Vec::<usize>::new());
    assert_eq!(prime_factors(1), Vec::<usize>::new());
    assert_eq!(prime_factors(2), vec![2]);
    assert_eq!(prime_factors(97), vec![97]);
    assert_eq!(prime_factors(1024), vec![2; 10]);
    assert_eq!(num_factors(1024), 11);
}
