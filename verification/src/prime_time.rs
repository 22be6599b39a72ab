//! Answers to the question whether a number is prime.
//!
//! A request names a method and a number.  The only method is `isPrime`;
//! the answer to a request for any other method, or to a line that is no
//! request at all, says `false`.

use vstd::prelude::*;

verus! {

/// Whether `n` is a prime number.
pub open spec fn prime(n: int) -> bool {
    n >= 2 && forall|d: int| 2 <= d < n ==> #[trigger] (n % d) != 0
}

/// The name of the one method.
pub open spec fn method_name() -> Seq<char> {
    "isPrime"@
}

/// The answer to a request.
#[derive(Debug, PartialEq, Eq)]
pub struct Response {
    pub prime: bool,
    pub method: String,
}

/// A divisor of `n` that is not small has a partner that is.
proof fn lemma_small_divisor(n: int, d: int, bound: int)
    requires
        2 <= bound,
        bound <= d < n,
        n < bound * bound,
        n % d == 0,
    ensures
        2 <= n / d < bound,
        n % (n / d) == 0,
{
    let q = n / d;
    assert(n == q * d) by (nonlinear_arith)
        requires
            n % d == 0,
            q == n / d,
            d > 0,
    ;
    assert(q >= 2) by (nonlinear_arith)
        requires
            n == q * d,
            0 < d < n,
    ;
    assert(q < bound) by (nonlinear_arith)
        requires
            n == q * d,
            n < bound * bound,
            bound <= d,
            2 <= bound,
            q >= 2,
    ;
    assert(n % q == 0) by (nonlinear_arith)
        requires
            n == q * d,
            q > 0,
    ;
}

/// Whether `n` is a prime number, by trial division.
pub fn is_prime(n: u32) -> (yes: bool)
    ensures
        yes == prime(n as int),
{
    if n <= 1 {
        return false;
    }
    let wide: u64 = n as u64;
    let mut i: u64 = 2;
    loop
        invariant
            2 <= i <= wide,
            i <= 0x1_0000,
            wide == n,
            forall|d: int| 2 <= d < i ==> #[trigger] (n as int % d) != 0,
        ensures
            2 <= i <= wide,
            wide < i * i,
            forall|d: int| 2 <= d < i ==> #[trigger] (n as int % d) != 0,
        decreases wide - i,
    {
        assert(i * i <= 0x1_0000 * 0x1_0000) by (nonlinear_arith)
            requires
                0 <= i <= 0x1_0000,
        ;
        if i * i > wide {
            break;
        }
        assert(i < wide && i < 0x1_0000) by (nonlinear_arith)
            requires
                i * i <= wide,
                i >= 2,
                wide <= 0xffff_ffff,
        ;
        if wide % i == 0 {
            return false;
        }
        i += 1;
    }
    proof {
        assert forall|d: int| 2 <= d < n implies #[trigger] (n as int % d) != 0 by {
            if d >= i && n as int % d == 0 {
                lemma_small_divisor(n as int, d, i as int);
                assert(n as int % (n as int / d) != 0);
            }
        }
    }
    true
}

/// The answer to a request for `method` on `number`: whether the number is
/// prime, and `false` when the method is not `isPrime`.
pub fn answer(method: &String, number: u32) -> (response: Response)
    ensures
        response.method@ == method_name(),
        response.prime == (method@ == method_name() && prime(number as int)),
{
    let known = "isPrime".to_owned();
    let prime = *method == known && is_prime(number);
    Response { prime, method: known }
}

/// The answer to a line that is no request.
pub fn answer_malformed() -> (response: Response)
    ensures
        response.method@ == method_name(),
        !response.prime,
{
    Response { prime: false, method: "isPrime".to_owned() }
}

} // verus!
