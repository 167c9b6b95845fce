//! Primes by the sieve of Eratosthenes.
use vstd::prelude::*;
use vstd::arithmetic::div_mod::{lemma_mod_multiples_vanish, lemma_small_mod};

verus! {

/// Some `d` with `2 <= d < bound` and `d < k` divides `k`.
pub open spec fn has_factor_below(k: int, bound: int) -> bool {
    exists|d: int| 2 <= d < bound && d < k && #[trigger] (k % d) == 0
}

/// `k` is at least 2 and no integer strictly between 1 and `k` divides it.
pub open spec fn is_prime(k: int) -> bool {
    k >= 2 && !has_factor_below(k, k)
}

/// The primes below `n`, in increasing order.
pub open spec fn primes_below(n: nat) -> Seq<u32>
    decreases n,
{
    if n == 0 {
        Seq::empty()
    } else if is_prime(n - 1) {
        primes_below((n - 1) as nat).push((n - 1) as u32)
    } else {
        primes_below((n - 1) as nat)
    }
}

/// The prime numbers less than `n`, in increasing order.
pub fn sieve(n: u32) -> (r: Vec<u32>)
    ensures
        r@ == primes_below(n as nat),
{
    let mut r: Vec<u32> = Vec::new();
    if n < 2 {
        assert(primes_below(0) == Seq::<u32>::empty());
        assert(primes_below(1) == Seq::<u32>::empty());
        return r;
    }
    let len = n as usize;
    let mut crossed: Vec<bool> = Vec::new();
    let mut k: usize = 0;
    while k < len
        invariant
            k <= len,
            len == n,
            crossed@.len() == k,
            forall|m: int| 0 <= m < k ==> !crossed@[m],
        decreases len - k,
    {
        crossed.push(false);
        k = k + 1;
    }
    assert(primes_below(0) == Seq::<u32>::empty());
    assert(primes_below(1) == Seq::<u32>::empty());
    assert(primes_below(2) == Seq::<u32>::empty());
    let mut i: u32 = 2;
    while i < n
        invariant
            2 <= i <= n,
            len == n,
            crossed@.len() == n,
            r@ == primes_below(i as nat),
            forall|m: int| 0 <= m < n ==> #[trigger] crossed@[m] == has_factor_below(m, i as int),
        decreases n - i,
    {
        proof {
            assert(crossed@[i as int] == has_factor_below(i as int, i as int));
        }
        if !crossed[i as usize] {
            r.push(i);
        }
        let ghost before = crossed@;
        let mut j: u64 = 2 * (i as u64);
        let ghost mut mult: int = 2;
        proof {
            assert forall|m: int| 0 <= m < n implies #[trigger] crossed@[m] == (before[m] || (i < m
                < j && m % (i as int) == 0)) by {
                if i < m < j {
                    lemma_mod_multiples_vanish(1, m - i, i as int);
                    lemma_small_mod((m - i) as nat, i as nat);
                }
            }
        }
        while j < n as u64
            invariant
                2 <= i < n,
                len == n,
                crossed@.len() == n,
                before.len() == n,
                j < n + i,
                j >= 2 * i,
                j == i * mult,
                mult >= 2,
                forall|m: int|
                    0 <= m < n ==> #[trigger] crossed@[m] == (before[m] || (i < m < j && m % (
                    i as int) == 0)),
            decreases n + i - j,
        {
            let ghost prev = crossed@;
            crossed.set(j as usize, true);
            proof {
                assert(crossed@ == prev.update(j as int, true));
                assert forall|m: int| 0 <= m < n implies #[trigger] crossed@[m] == (before[m] || (i
                    < m < j + i && m % (i as int) == 0)) by {
                    assert(prev[m] == (before[m] || (i < m < j && m % (i as int) == 0)));
                    if j <= m < j + i {
                        lemma_mod_multiples_vanish(mult, m - j, i as int);
                        lemma_small_mod((m - j) as nat, i as nat);
                        assert(i * mult + (m - j) == m);
                        assert(m % (i as int) == (m - j));
                    }
                }
                mult = mult + 1;
                assert(j + i == i * mult) by (nonlinear_arith)
                    requires
                        j == i * (mult - 1),
                ;
            }
            j = j + i as u64;
        }
        proof {
            assert forall|m: int| 0 <= m < n implies #[trigger] crossed@[m] == has_factor_below(
                m,
                i + 1,
            ) by {
                if has_factor_below(m, i + 1) && !has_factor_below(m, i as int) {
                    let d = choose|d: int| 2 <= d < i + 1 && d < m && #[trigger] (m % d) == 0;
                    assert(d == i);
                }
                if i < m && m % (i as int) == 0 {
                    assert(has_factor_below(m, i + 1));
                }
            }
            assert(primes_below((i + 1) as nat) == if is_prime(i as int) {
                primes_below(i as nat).push(i)
            } else {
                primes_below(i as nat)
            });
        }
        i = i + 1;
    }
    r
}

} // verus!
