//! Assignments as numbers: bit `k` of a number is the value of variable `k`.

use vstd::prelude::*;

verus! {

/// `m` shifted right by `k` bits.
pub open spec fn shr(m: nat, k: nat) -> nat
    decreases k,
{
    if k == 0 {
        m
    } else {
        shr(m / 2, (k - 1) as nat)
    }
}

/// Bit `k` of `m`.
pub open spec fn bit(m: nat, k: nat) -> bool {
    shr(m, k) % 2 == 1
}

/// The first `n` bits of `m`, bit 0 first.
pub open spec fn bits_of(m: nat, n: nat) -> Seq<bool> {
    Seq::new(n, |k: int| bit(m, k as nat))
}

/// Two to the power `n`.
pub open spec fn pow2(n: nat) -> nat
    decreases n,
{
    if n == 0 {
        1
    } else {
        2 * pow2((n - 1) as nat)
    }
}

/// Shifting by one bit more halves.
pub proof fn lemma_shr_step(m: nat, k: nat)
    ensures
        shr(m, k + 1) == shr(m, k) / 2,
    decreases k,
{
    assert(shr(m, k + 1) == shr(m / 2, k));
    if k > 0 {
        lemma_shr_step(m / 2, (k - 1) as nat);
        assert(shr(m, k) == shr(m / 2, (k - 1) as nat));
    } else {
        assert(shr(m / 2, 0) == m / 2);
    }
}

/// The numbers below two to the `n` are those that `n` shifts empty.
pub proof fn lemma_shr_empty(m: nat, n: nat)
    ensures
        shr(m, n) == 0 <==> m < pow2(n),
    decreases n,
{
    if n > 0 {
        lemma_shr_empty(m / 2, (n - 1) as nat);
    }
}

/// Two to the power `n`, if a machine word holds it.
pub fn power_of_two(n: usize) -> (p: Option<usize>)
    ensures
        match p {
            Some(v) => v == pow2(n as nat),
            None => pow2(n as nat) > usize::MAX,
        },
{
    let mut p: usize = 1;
    let mut i: usize = 0;
    while i < n
        invariant
            i <= n,
            p == pow2(i as nat),
        decreases n - i,
    {
        if p > usize::MAX / 2 {
            proof {
                lemma_pow2_grows(i as nat + 1, n as nat);
            }
            return None;
        }
        p = 2 * p;
        i += 1;
    }
    Some(p)
}

/// Powers of two grow with the exponent.
pub proof fn lemma_pow2_grows(a: nat, b: nat)
    requires
        a <= b,
    ensures
        pow2(a) <= pow2(b),
        pow2(a) >= 1,
    decreases b,
{
    if a < b {
        lemma_pow2_grows(a, (b - 1) as nat);
    } else if a > 0 {
        lemma_pow2_grows((a - 1) as nat, (a - 1) as nat);
    }
}

/// The assignment that the number `m` stands for, over `n` variables.
pub fn assignment_of(m: usize, n: usize) -> (a: Vec<bool>)
    ensures
        a@ == bits_of(m as nat, n as nat),
{
    let mut a: Vec<bool> = Vec::new();
    let mut rest: usize = m;
    let mut k: usize = 0;
    while k < n
        invariant
            k <= n,
            a@.len() == k,
            rest == shr(m as nat, k as nat),
            forall|j: int| 0 <= j < k ==> a@[j] == bit(m as nat, j as nat),
        decreases n - k,
    {
        proof {
            lemma_shr_step(m as nat, k as nat);
        }
        a.push(rest % 2 == 1);
        rest = rest / 2;
        k += 1;
    }
    assert(a@ =~= bits_of(m as nat, n as nat));
    a
}

} // verus!
