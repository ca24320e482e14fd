use vstd::prelude::*;

use crate::text::{join_lines, joined, string_of};
use vstd::arithmetic::power2::{lemma2_to64, lemma2_to64_rest, lemma_pow2_strictly_increases, lemma_pow2_unfold, pow2};

verus! {

/// The `k`-th Fibonacci number, counting 0 and 1 as the first two.
pub open spec fn fib_num(k: nat) -> nat
    decreases k,
{
    if k == 0 {
        0
    } else if k == 1 {
        1
    } else {
        fib_num((k - 1) as nat) + fib_num((k - 2) as nat)
    }
}

/// The decimal digit for `d`.
pub open spec fn digit_char(d: nat) -> char {
    if d == 0 { '0' }
    else if d == 1 { '1' }
    else if d == 2 { '2' }
    else if d == 3 { '3' }
    else if d == 4 { '4' }
    else if d == 5 { '5' }
    else if d == 6 { '6' }
    else if d == 7 { '7' }
    else if d == 8 { '8' }
    else { '9' }
}

/// `n` written in decimal, without leading zeros.
pub open spec fn decimal(n: nat) -> Seq<char>
    decreases n,
{
    if n < 10 {
        seq![digit_char(n)]
    } else {
        decimal(n / 10).push(digit_char(n % 10))
    }
}

/// The first `n` Fibonacci numbers in decimal, separated by single spaces.
pub open spec fn fib_text(n: nat) -> Seq<char> {
    joined(Seq::new(n, |i: int| decimal(fib_num(i as nat))), seq![' '])
}

/// `n` repeated star characters.
pub open spec fn stars(n: nat) -> Seq<char> {
    Seq::new(n, |i: int| '*')
}

/// Relies on `u64`'s `ToString`: its decimal form, no sign, no leading zeros.
#[verifier::external_body]
fn decimal_string(n: u64) -> (r: String)
    ensures
        r@ == decimal(n as nat),
{
    n.to_string()
}

proof fn lemma_fib_below_pow2(k: nat)
    ensures
        fib_num(k) <= pow2(k),
    decreases k,
{
    if k >= 2 {
        lemma_fib_below_pow2((k - 1) as nat);
        lemma_fib_below_pow2((k - 2) as nat);
        lemma_pow2_unfold(k);
        lemma_pow2_unfold((k - 1) as nat);
    } else {
        lemma2_to64();
    }
}

proof fn lemma_fib_fits(k: nat)
    requires
        k <= 48,
    ensures
        fib_num(k) < u64::MAX,
{
    lemma_fib_below_pow2(k);
    lemma2_to64();
    lemma2_to64_rest();
    if k < 48 {
        lemma_pow2_strictly_increases(k, 48);
    }
}

/// The first `input` Fibonacci numbers, separated by spaces.
pub fn fib(input: u32) -> (r: String)
    requires
        input <= 47,
    ensures
        r@ == fib_text(input as nat),
{
    let mut parts: Vec<Vec<char>> = Vec::new();
    let mut a: u64 = 0;
    let mut b: u64 = 1;
    let mut k: u32 = 0;
    while k < input
        invariant
            k <= input <= 47,
            a == fib_num(k as nat),
            b == fib_num(k as nat + 1),
            parts@.len() == k,
            forall|i: int| 0 <= i < k ==> #[trigger] parts@[i]@ == decimal(fib_num(i as nat)),
        decreases input - k,
    {
        let text = decimal_string(a);
        let digits = crate::text::chars_of(text.as_str());
        parts.push(digits);
        proof {
            lemma_fib_fits(k as nat + 2);
        }
        let next = a + b;
        a = b;
        b = next;
        k = k + 1;
    }
    let sep = vec![' '];
    assert(sep@ =~= seq![' ']);
    assert(parts@.map_values(|l: Vec<char>| l@) =~= Seq::new(input as nat, |i: int| decimal(fib_num(i as nat))));
    let out = join_lines(&parts, &sep);
    string_of(&out)
}

/// A row of `n` stars.
pub fn line(n: u64) -> (r: String)
    requires
        n <= usize::MAX,
    ensures
        r@ == stars(n as nat),
{
    let mut res: Vec<char> = Vec::new();
    let mut i: u64 = 0;
    while i < n
        invariant
            i <= n <= usize::MAX,
            res@ == stars(i as nat),
        decreases n - i,
    {
        res.push('*');
        i = i + 1;
        assert(res@ =~= stars(i as nat));
    }
    string_of(&res)
}

/// `input` factorial.
pub open spec fn factorial_of(n: nat) -> nat
    decreases n,
{
    if n <= 1 {
        1
    } else {
        n * factorial_of((n - 1) as nat)
    }
}

/// `input` factorial, for inputs whose factorial fits in 32 bits.
pub fn factorial(input: u32) -> (r: u32)
    requires
        factorial_of(input as nat) <= u32::MAX,
    ensures
        r == factorial_of(input as nat),
    decreases input,
{
    if input <= 1 {
        return 1;
    }
    proof {
        lemma_factorial_positive((input - 1) as nat);
        assert(factorial_of((input - 1) as nat) <= factorial_of(input as nat)) by (nonlinear_arith)
            requires
                factorial_of(input as nat) == input * factorial_of((input - 1) as nat),
                input >= 1,
        ;
    }
    let rest = factorial(input - 1);
    assert(input * rest == factorial_of(input as nat));
    input * rest
}

proof fn lemma_factorial_positive(n: nat)
    ensures
        factorial_of(n) >= 1,
    decreases n,
{
    if n > 1 {
        lemma_factorial_positive((n - 1) as nat);
        assert(n * factorial_of((n - 1) as nat) >= 1) by (nonlinear_arith)
            requires
                n > 1,
                factorial_of((n - 1) as nat) >= 1,
        ;
    }
}

} // verus!
