use vstd::arithmetic::div_mod::lemma_mod_bound;
use vstd::prelude::*;
use vstd::set_lib::{lemma_int_range, lemma_len_subset, lemma_subset_equality, set_int_range};

use crate::model::{claimed, fill, first_free, is_prime, maglev_table, preference};
use crate::permutation::{lemma_preference_bound, lemma_preference_covers};

verus! {

/// Where a preference list has an unclaimed slot at position `j0`, the search
/// from `j` stops at or before it, on an unclaimed slot, passing only claimed
/// ones.
pub proof fn lemma_first_free(name: Seq<char>, table_size: int, entry: Seq<int>, j: int, j0: int)
    requires
        0 <= j <= j0 < table_size,
        entry[preference(name, table_size, j0)] < 0,
    ensures
        j <= first_free(name, table_size, entry, j) <= j0,
        entry[preference(name, table_size, first_free(name, table_size, entry, j))] < 0,
        forall|x: int|
            j <= x < first_free(name, table_size, entry, j) ==> entry[#[trigger] preference(
                name,
                table_size,
                x,
            )] >= 0,
    decreases j0 - j,
{
    if entry[preference(name, table_size, j)] >= 0 {
        lemma_first_free(name, table_size, entry, j + 1, j0);
    }
}

/// A table of `table_size` slots with fewer than `table_size` claimed has an
/// unclaimed slot.
pub proof fn lemma_unclaimed_exists(entry: Seq<int>)
    requires
        claimed(entry).finite(),
        claimed(entry).len() < entry.len(),
    ensures
        exists|s: int| 0 <= s < entry.len() && #[trigger] entry[s] < 0,
{
    if forall|s: int| 0 <= s < entry.len() ==> #[trigger] entry[s] >= 0 {
        lemma_int_range(0, entry.len() as int);
        assert(set_int_range(0, entry.len() as int).subset_of(claimed(entry)));
        lemma_len_subset(set_int_range(0, entry.len() as int), claimed(entry));
    }
}

/// What holds after `k` claims of the round-robin population, and that the
/// next claim finds an unclaimed slot while there is one.
pub proof fn lemma_fill(names: Seq<Seq<char>>, table_size: int, k: nat)
    requires
        names.len() > 0,
        is_prime(table_size),
        k <= table_size,
    ensures
        fill(names, table_size, k).0.len() == names.len(),
        fill(names, table_size, k).1.len() == table_size,
        forall|s: int|
            0 <= s < table_size ==> -1 <= #[trigger] fill(names, table_size, k).1[s] < names.len(),
        forall|i: int|
            0 <= i < names.len() ==> 0 <= #[trigger] fill(names, table_size, k).0[i] <= table_size,
        forall|i: int, x: int|
            0 <= i < names.len() && 0 <= x < fill(names, table_size, k).0[i] ==> fill(
                names,
                table_size,
                k,
            ).1[#[trigger] preference(names[i], table_size, x)] >= 0,
        claimed(fill(names, table_size, k).1).finite(),
        claimed(fill(names, table_size, k).1).len() == k,
        k < table_size ==> {
            let st = fill(names, table_size, k);
            let i = (k as int) % (names.len() as int);
            let j = first_free(names[i], table_size, st.1, st.0[i]);
            &&& st.0[i] <= j < table_size
            &&& st.1[preference(names[i], table_size, j)] < 0
        },
    decreases k,
{
    let n = names.len() as int;
    let st = fill(names, table_size, k);
    if k == 0 {
        assert(claimed(st.1) =~= Set::empty());
    } else {
        lemma_fill(names, table_size, (k - 1) as nat);
        let prev = fill(names, table_size, (k - 1) as nat);
        let i = (k - 1) % n;
        lemma_mod_bound(k - 1, n);
        let j = first_free(names[i], table_size, prev.1, prev.0[i]);
        let slot = preference(names[i], table_size, j);
        lemma_preference_bound(names[i], table_size, j);
        assert(st.0 == prev.0.update(i, j + 1));
        assert(st.1 == prev.1.update(slot, i));
        assert forall|i2: int, x: int|
            0 <= i2 < n && 0 <= x < st.0[i2] implies st.1[#[trigger] preference(
            names[i2],
            table_size,
            x,
        )] >= 0 by {
            let t = preference(names[i2], table_size, x);
            lemma_preference_bound(names[i2], table_size, x);
            if i2 == i && x >= prev.0[i] {
                if x < j {
                    lemma_first_free(names[i], table_size, prev.1, prev.0[i], j);
                }
            }
        }
        assert(claimed(st.1) =~= claimed(prev.1).insert(slot));
    }
    if k < table_size {
        let i = (k as int) % n;
        lemma_mod_bound(k as int, n);
        lemma_unclaimed_exists(st.1);
        let s = choose|s: int| 0 <= s < st.1.len() && #[trigger] st.1[s] < 0;
        lemma_preference_covers(names[i], table_size, s);
        let j0 = choose|j0: int| 0 <= j0 < table_size && #[trigger] preference(names[i], table_size, j0) == s;
        lemma_first_free(names[i], table_size, st.1, st.0[i], j0);
    }
}

/// Once every claim is made, each slot belongs to one of the backends.
pub proof fn lemma_table_total(names: Seq<Seq<char>>, table_size: int)
    requires
        names.len() > 0,
        is_prime(table_size),
    ensures
        maglev_table(names, table_size).len() == table_size,
        forall|s: int|
            0 <= s < table_size ==> 0 <= #[trigger] maglev_table(names, table_size)[s] < names.len(),
{
    lemma_fill(names, table_size, table_size as nat);
    let entry = fill(names, table_size, table_size as nat).1;
    lemma_int_range(0, table_size);
    assert(claimed(entry).subset_of(set_int_range(0, table_size)));
    lemma_subset_equality(claimed(entry), set_int_range(0, table_size));
    assert forall|s: int| 0 <= s < table_size implies 0 <= #[trigger] maglev_table(
        names,
        table_size,
    )[s] < names.len() by {
        assert(set_int_range(0, table_size).contains(s));
    }
}

} // verus!
