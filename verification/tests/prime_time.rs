use protohackers::prime_time::{answer, answer_malformed, is_prime, Response};

#[test]
fn small_numbers_are_told_apart() {
    let primes = [2u32, 3, 5, 7, 11, 13, 17, 19, 23, 29, 31, 37, 41, 43, 47];
    for n in 0..50u32 {
        assert_eq!(is_prime(n), primes.contains(&n), "{}", n);
    }
}

#[test]
fn squares_and_their_neighbours_are_told_apart() {
    assert!(!is_prime(4));
    assert!(!is_prime(9));
    assert!(!is_prime(25));
    assert!(!is_prime(49));
    assert!(!is_prime(121));
    assert!(!is_prime(4293001441));
    assert!(is_prime(65521));
    assert!(!is_prime(65536));
    assert!(is_prime(65537));
    assert!(!is_prime(4294836225));
}

#[test]
fn large_numbers_are_told_apart() {
    assert!(is_prime(2147483647));
    assert!(is_prime(4294967291));
    assert!(!is_prime(4294967295));
    assert!(!is_prime(4294967293));
    assert!(!is_prime(2147483649));
}

#[test]
fn the_answer_names_the_method_and_says_whether_the_number_is_prime() {
    assert_eq!(
        answer(&"isPrime".to_string(), 7),
        Response { prime: true, method: "isPrime".to_string() }
    );
    assert_eq!(
        answer(&"isPrime".to_string(), 9),
        Response { prime: false, method: "isPrime".to_string() }
    );
}

#[test]
fn another_method_is_answered_with_false() {
    assert_eq!(
        answer(&"is_prime".to_string(), 7),
        Response { prime: false, method: "isPrime".to_string() }
    );
    assert_eq!(
        answer(&String::new(), 7),
        Response { prime: false, method: "isPrime".to_string() }
    );
    assert_eq!(answer_malformed(), Response { prime: false, method: "isPrime".to_string() });
}
