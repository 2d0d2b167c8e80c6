use concurrency_kit::game::{checkable_expression, interleave_all, mk_ops, prepare, verify};
use concurrency_kit::primes::{is_prime, primes_in_stride};

#[test]
fn test_mk_ops() {
    let symbols = vec!['+', '-', '*', '/'];
    let n = 4;
    let result = mk_ops(&symbols, n);
    assert_eq!(result.len(), symbols.len().pow(n as u32));

    let res = prepare("23423");
    println!("{} {:?}", res.len(), res.iter().take(n).collect::<Vec<_>>());
}

#[test]
fn mk_ops_lists_words_in_symbol_order() {
    let result = mk_ops(&['a', 'b'], 2);
    assert_eq!(result, vec!["aa", "ab", "ba", "bb"]);
    assert_eq!(mk_ops(&['x', 'y', 'z'], 0), vec![String::new()]);
    assert!(mk_ops(&[], 3).is_empty());
}

#[test]
fn interleave_all_alternates_digits_and_operators() {
    let perms = vec![vec!['1', '2', '3'], vec!['3', '2', '1']];
    let ops = vec!["+-".to_string(), "*".to_string()];
    let result = interleave_all(&perms, &ops);
    assert_eq!(result, vec!["1+2-3", "1*23", "3+2-1", "3*21"]);
}

#[test]
fn prepare_lists_every_permutation_with_every_operator_word() {
    let res = prepare("12");
    assert_eq!(res.len(), 2 * 256);
    assert_eq!(res[0], "1+2+");
    assert_eq!(res[1], "1+2+");
    assert_eq!(res[256], "2+1+");
    let res = prepare("23423");
    assert_eq!(res.len(), 120 * 256);
    assert_eq!(res[0], "2+3+4+2+3");
    assert_eq!(res[1], "2+3+4+2-3");
}

#[test]
fn verify_keeps_the_expressions_worth_ten() {
    let v: Vec<String> = ["1+9", "2*5", "9-1", "8/2+6", "7/2+3", "5/0+5", "2+2*4", "9+9/9", "1-1+10"]
        .iter()
        .map(|s| s.to_string())
        .collect();
    let result = verify(&v);
    assert_eq!(result, vec!["1+9", "2*5", "8/2+6", "2+2*4", "9+9/9"]);
}

#[test]
fn verify_skips_divisions_by_zero_and_with_remainder() {
    let v: Vec<String> = ["5/0*2", "9/2+6", "6/3*5"].iter().map(|s| s.to_string()).collect();
    assert_eq!(verify(&v), vec!["6/3*5"]);
}

#[test]
fn verify_handles_negative_terms_and_unknown_operators() {
    let v: Vec<String> = ["1-3*2+9+6", "1-9/3+9+3", "5?5+5", "9"].iter().map(|s| s.to_string()).collect();
    // 1 - 6 + 9 + 6 = 10; 1 - 3 + 9 + 3 = 10; '?' leaves the term at 5, then 5 + 5 = 10
    assert_eq!(verify(&v), vec!["1-3*2+9+6", "1-9/3+9+3", "5?5+5"]);
}

#[test]
fn the_game_finds_solutions_for_12345() {
    let candidates = prepare("12345");
    let solutions = verify(&candidates);
    assert!(solutions.contains(&"4+3-2+1*5".to_string()));
    assert!(!solutions.contains(&"1+2+3+4+5".to_string()));
    assert!(solutions.iter().all(|s| s.len() == 9));
}

#[test]
fn is_prime_by_trial_division() {
    let primes: Vec<u64> = (0..30).filter(|&n| is_prime(n)).collect();
    assert_eq!(primes, vec![2, 3, 5, 7, 11, 13, 17, 19, 23, 29]);
    assert!(is_prime(7919));
    assert!(!is_prime(7917));
    assert!(is_prime(4294967291));
    assert!(!is_prime(4294967291 * 3));
}

#[test]
fn strides_share_the_search_among_workers() {
    assert_eq!(primes_in_stride(2, 30, 3), vec![2, 5, 11, 17, 23, 29]);
    assert_eq!(primes_in_stride(3, 30, 3), vec![3]);
    assert_eq!(primes_in_stride(4, 30, 3), vec![7, 13, 19]);
    assert_eq!(primes_in_stride(40, 30, 3), Vec::<u64>::new());
    let mut all: Vec<u64> = (0..4).flat_map(|i| primes_in_stride(2 + i, 100, 4)).collect();
    all.sort();
    let expected: Vec<u64> = (2..=100).filter(|&n| is_prime(n)).collect();
    assert_eq!(all, expected);
    assert_eq!(primes_in_stride(u64::MAX - 1, u64::MAX, 7), Vec::<u64>::new());
}

#[test]
fn checkable_expressions_are_those_verify_can_evaluate() {
    assert!(checkable_expression("1+9"));
    assert!(checkable_expression("7"));
    assert!(!checkable_expression(""));
    assert!(!checkable_expression("+1"));
    assert!(!checkable_expression("1+x"));
    // the evaluation stops at the division by zero, before the letter
    assert!(checkable_expression("8/0+x"));
    // 9 * 9 * ... overflows an i64 after twenty factors
    let long = std::iter::repeat("9").take(25).collect::<Vec<_>>().join("*");
    assert!(!checkable_expression(&long));
    let short = std::iter::repeat("9").take(19).collect::<Vec<_>>().join("*");
    assert!(checkable_expression(&short));
    assert!(prepare("12345").iter().all(|e| checkable_expression(e)));
}
