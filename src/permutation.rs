use vstd::arithmetic::div_mod::{lemma_fundamental_div_mod, lemma_mod_bound, lemma_mod_multiples_basic};
use vstd::prelude::*;
use vstd::relations::injective_on;
use vstd::set_lib::{lemma_map_size, lemma_subset_equality, lemma_int_range, set_int_range};

use crate::model::{digest_of, is_prime, offset_of, preference, skip_of};

verus! {

/// A prime divides no product of two numbers that both lie strictly between
/// zero and itself.
pub proof fn lemma_prime_no_zero_divisor(p: int, d: int, s: int)
    requires
        is_prime(p),
        0 < d < p,
        0 < s < p,
    ensures
        (d * s) % p != 0,
    decreases d,
{
    if (d * s) % p == 0 {
        let q = p / d;
        let r = p % d;
        lemma_fundamental_div_mod(p, d);
        lemma_mod_bound(p, d);
        if r == 0 {
            if d >= 2 {
                assert(p % d != 0);
            }
            assert(d == 1);
            assert(s % p == s) by {
                vstd::arithmetic::div_mod::lemma_small_mod(s as nat, p as nat);
            }
        } else {
            let m = (d * s) / p;
            lemma_fundamental_div_mod(d * s, p);
            assert(d * s == p * m);
            assert(r * s == p * (s - q * m)) by (nonlinear_arith)
                requires
                    p == d * q + r,
                    d * s == p * m,
            ;
            assert((r * s) % p == 0) by {
                lemma_mod_multiples_basic(s - q * m, p);
                assert((s - q * m) * p == p * (s - q * m)) by (nonlinear_arith);
            }
            lemma_prime_no_zero_divisor(p, r, s);
        }
    }
}

/// Over a prime number of slots, no two positions of a preference list name
/// the same slot.
pub proof fn lemma_preference_injective(name: Seq<char>, p: int, j1: int, j2: int)
    requires
        is_prime(p),
        0 <= j1 < p,
        0 <= j2 < p,
        preference(name, p, j1) == preference(name, p, j2),
    ensures
        j1 == j2,
{
    let o = offset_of(name, p);
    let s = skip_of(name, p);
    lemma_mod_bound((digest_of(name) & 0xffff_ffffu64) as int, p - 1);
    if j1 != j2 {
        let (lo, hi) = if j1 < j2 { (j1, j2) } else { (j2, j1) };
        let a = o + lo * s;
        let b = o + hi * s;
        lemma_fundamental_div_mod(a, p);
        lemma_fundamental_div_mod(b, p);
        assert(a % p == b % p);
        assert(b - a == (hi - lo) * s) by (nonlinear_arith)
            requires
                a == o + lo * s,
                b == o + hi * s,
        ;
        assert((hi - lo) * s == (b / p - a / p) * p) by (nonlinear_arith)
            requires
                a == p * (a / p) + a % p,
                b == p * (b / p) + b % p,
                a % p == b % p,
                b - a == (hi - lo) * s,
        ;
        lemma_mod_multiples_basic(b / p - a / p, p);
        lemma_prime_no_zero_divisor(p, hi - lo, s);
    }
}


/// Over a prime number of slots, every slot appears in every backend's
/// preference list.
pub proof fn lemma_preference_covers(name: Seq<char>, p: int, s: int)
    requires
        is_prime(p),
        0 <= s < p,
    ensures
        exists|j: int| 0 <= j < p && #[trigger] preference(name, p, j) == s,
{
    let dom = set_int_range(0, p);
    let f = |j: int| preference(name, p, j);
    lemma_int_range(0, p);
    assert(injective_on(f, dom)) by {
        assert forall|x1: int, x2: int|
            dom.contains(x1) && dom.contains(x2) && #[trigger] f(x1) == #[trigger] f(x2) implies x1
            == x2 by {
            lemma_preference_injective(name, p, x1, x2);
        }
    }
    let img = dom.map(f);
    lemma_map_size(dom, img, f);
    assert(img.subset_of(dom)) by {
        assert forall|y: int| img.contains(y) implies dom.contains(y) by {
            let x = choose|x: int| dom.contains(x) && y == f(x);
            lemma_mod_bound(offset_of(name, p) + x * skip_of(name, p), p);
        }
    }
    lemma_subset_equality(img, dom);
    assert(img.contains(s));
    let j = choose|j: int| dom.contains(j) && s == f(j);
    assert(preference(name, p, j) == s);
}

/// Every position of a preference list names a slot of the table.
pub proof fn lemma_preference_bound(name: Seq<char>, table_size: int, j: int)
    requires
        table_size >= 2,
    ensures
        0 <= preference(name, table_size, j) < table_size,
{
    lemma_mod_bound(offset_of(name, table_size) + j * skip_of(name, table_size), table_size);
}

} // verus!
