use vstd::arithmetic::div_mod::lemma_fundamental_div_mod;
use vstd::prelude::*;

verus! {

/// `n` has a divisor `d` with `lo <= d < hi`.
pub open spec fn has_divisor_in(n: int, lo: int, hi: int) -> bool {
    exists|d: int| lo <= d < hi && #[trigger] (n % d) == 0
}

/// The verdict of plain trial division: `n` is nonzero and no `d` with
/// `2 <= d < n` divides it. (So 1 counts as prime and 0 does not.)
pub open spec fn trial_division_prime(n: int) -> bool {
    n != 0 && !has_divisor_in(n, 2, n)
}

/// `r` is the integer square root of `n`.
pub open spec fn is_floor_sqrt(n: int, r: int) -> bool {
    0 <= r && r * r <= n < (r + 1) * (r + 1)
}

/// The integer square root, defined by counting up.
pub open spec fn floor_sqrt(n: nat) -> nat
    decreases n,
{
    if n == 0 {
        0
    } else {
        let r = floor_sqrt((n - 1) as nat);
        if (r + 1) * (r + 1) <= n {
            r + 1
        } else {
            r
        }
    }
}

pub proof fn lemma_floor_sqrt(n: nat)
    ensures
        is_floor_sqrt(n as int, floor_sqrt(n) as int),
    decreases n,
{
    if n > 0 {
        lemma_floor_sqrt((n - 1) as nat);
        let r = floor_sqrt((n - 1) as nat) as int;
        if (r + 1) * (r + 1) <= n {
            assert((r + 1) * (r + 1) <= n < (r + 2) * (r + 2)) by (nonlinear_arith)
                requires
                    (r + 1) * (r + 1) <= n,
                    n - 1 < (r + 1) * (r + 1),
                    r >= 0,
            ;
        }
    }
}

/// The integer square root is unique.
pub proof fn lemma_floor_sqrt_unique(n: int, r: int)
    requires
        n >= 0,
        is_floor_sqrt(n, r),
    ensures
        r == floor_sqrt(n as nat),
{
    lemma_floor_sqrt(n as nat);
    let s = floor_sqrt(n as nat) as int;
    if r < s {
        assert((r + 1) * (r + 1) <= s * s) by (nonlinear_arith)
            requires
                0 <= r + 1 <= s,
        ;
    } else if s < r {
        assert((s + 1) * (s + 1) <= r * r) by (nonlinear_arith)
            requires
                0 <= s + 1 <= r,
        ;
    }
}

/// For positive `i`: `i <= n / i` exactly when `i * i <= n`.
proof fn lemma_square_below(n: int, i: int)
    requires
        n >= 0,
        i > 0,
    ensures
        (i <= n / i) <==> (i * i <= n),
{
    lemma_fundamental_div_mod(n, i);
    let q = n / i;
    let m = n % i;
    if i <= q {
        assert(i * i <= i * q) by (nonlinear_arith)
            requires
                i <= q,
                i > 0,
        ;
    } else {
        assert(i * i >= i * q + i) by (nonlinear_arith)
            requires
                i >= q + 1,
                i > 0,
        ;
    }
}

/// A proper divisor of `n` always has a partner at most the square root.
proof fn lemma_small_cofactor(n: int, s: int, d: int) -> (e: int)
    requires
        is_floor_sqrt(n, s),
        2 <= d < n,
        n % d == 0,
    ensures
        2 <= e <= s,
        e <= d,
        n % e == 0,
{
    lemma_fundamental_div_mod(n, d);
    let q = n / d;
    assert(n == d * q);
    assert(q >= 2) by (nonlinear_arith)
        requires
            n == d * q,
            2 <= d < n,
    ;
    if d <= s {
        d
    } else {
        assert(q <= s) by (nonlinear_arith)
            requires
                n == d * q,
                d >= s + 1,
                n < (s + 1) * (s + 1),
                s >= 0,
                q >= 2,
        ;
        assert(n % q == 0) by {
            vstd::arithmetic::div_mod::lemma_mod_multiples_basic(d, q);
            assert(d * q == q * d) by (nonlinear_arith);
        }
        q
    }
}

/// A number without a divisor up to its square root passes trial division.
pub proof fn lemma_no_small_divisor(n: int, s: int)
    requires
        n >= 1,
        is_floor_sqrt(n, s),
        !has_divisor_in(n, 2, s + 1),
    ensures
        trial_division_prime(n),
{
    if has_divisor_in(n, 2, n) {
        let d = choose|d: int| 2 <= d < n && #[trigger] (n % d) == 0;
        let e = lemma_small_cofactor(n, s, d);
        assert(n % e == 0);
    }
}

/// A divisor up to the square root is a proper divisor.
pub proof fn lemma_small_divisor_is_proper(n: int, s: int, d: int)
    requires
        is_floor_sqrt(n, s),
        2 <= d <= s,
    ensures
        d < n,
{
    assert(d < n) by (nonlinear_arith)
        requires
            2 <= d <= s,
            s * s <= n,
    ;
}

/// Odd numbers have odd divisors only.
pub proof fn lemma_even_divisor(n: int, d: int)
    requires
        n >= 0,
        d > 0,
        d % 2 == 0,
        n % d == 0,
    ensures
        n % 2 == 0,
{
    lemma_fundamental_div_mod(n, d);
    lemma_fundamental_div_mod(d, 2);
    let q = n / d;
    let h = d / 2;
    assert(n == 2 * (h * q)) by (nonlinear_arith)
        requires
            n == d * q,
            d == 2 * h,
    ;
    vstd::arithmetic::div_mod::lemma_mod_multiples_basic(h * q, 2);
    assert(2 * (h * q) == (h * q) * 2) by (nonlinear_arith);
}

/// The integer square root of `number`, found by counting up.
pub fn sqrt_u128(number: u128) -> (r: u128)
    ensures
        r == floor_sqrt(number as nat),
        is_floor_sqrt(number as int, r as int),
{
    let mut i: u128 = 1;
    proof {
        lemma_square_below(number as int, 1);
    }
    while i <= number / i
        invariant
            1 <= i,
            i <= number + 1,
            (i - 1) * (i - 1) <= number,
        decreases number + 1 - i,
    {
        proof {
            lemma_square_below(number as int, i as int);
            assert(i < 0x1_0000_0000_0000_0000u128) by (nonlinear_arith)
                requires
                    i * i <= number,
                    number <= u128::MAX,
                    i >= 1,
            ;
            assert(i <= number) by (nonlinear_arith)
                requires
                    i * i <= number,
                    i >= 1,
            ;
        }
        i = i + 1;
    }
    proof {
        lemma_square_below(number as int, i as int);
        lemma_floor_sqrt_unique(number as int, (i - 1) as int);
    }
    i - 1
}

/// Trial division: even numbers are settled at once, odd ones are tested
/// against every odd candidate up to the square root.
pub fn is_prime(number: u128) -> (r: bool)
    ensures
        r == trial_division_prime(number as int),
{
    if number % 2 == 0 {
        proof {
            if number > 2 {
                assert((number as int) % 2 == 0);
            }
        }
        return number == 2;
    }
    let number_sqrt = sqrt_u128(number);
    proof {
        let s = number_sqrt as int;
        assert(1 <= s < 0x1_0000_0000_0000_0000) by (nonlinear_arith)
            requires
                s * s <= number,
                number < (s + 1) * (s + 1),
                1 <= number <= u128::MAX,
                s >= 0,
        ;
    }
    let mut i: u128 = 3;
    while i <= number_sqrt
        invariant
            3 <= i <= number_sqrt + 2,
            i % 2 == 1,
            number % 2 == 1,
            is_floor_sqrt(number as int, number_sqrt as int),
            number_sqrt < 0x1_0000_0000_0000_0000u128,
            forall|d: int| 2 <= d < i ==> #[trigger] ((number as int) % d) != 0,
        decreases number_sqrt + 2 - i,
    {
        if number % i == 0 {
            proof {
                lemma_small_divisor_is_proper(number as int, number_sqrt as int, i as int);
            }
            return false;
        }
        proof {
            assert forall|d: int| 2 <= d < i + 2 implies #[trigger] ((number as int) % d) != 0 by {
                if d == i + 1 && (number as int) % d == 0 {
                    lemma_even_divisor(number as int, d);
                }
            }
        }
        i = i + 2;
    }
    proof {
        lemma_no_small_divisor(number as int, number_sqrt as int);
    }
    true
}

} // verus!
