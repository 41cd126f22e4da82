use vstd::prelude::*;

verus! {

/// The 64-bit digest that the standard library's default hasher, freshly
/// created, gives for a backend name.
pub uninterp spec fn digest_of(name: Seq<char>) -> u64;

/// `n` is a prime number.
pub open spec fn is_prime(n: int) -> bool {
    &&& n >= 2
    &&& forall|d: int| 2 <= d < n ==> #[trigger] (n % d) != 0
}

/// Where a backend's preference list starts: the high half of its digest.
pub open spec fn offset_of(name: Seq<char>, table_size: int) -> int {
    ((digest_of(name) >> 32u64) as int) % table_size
}

/// The stride of a backend's preference list: the low half of its digest,
/// reduced into `[1, table_size - 1]`.
pub open spec fn skip_of(name: Seq<char>, table_size: int) -> int {
    ((digest_of(name) & 0xffff_ffffu64) as int) % (table_size - 1) + 1
}

/// The `j`-th slot in the preference list of backend `name`.
pub open spec fn preference(name: Seq<char>, table_size: int, j: int) -> int {
    (offset_of(name, table_size) + j * skip_of(name, table_size)) % table_size
}

/// The first position, at or after `j`, of backend `name`'s preference list
/// whose slot is still unclaimed in `entry` (a negative entry marks an
/// unclaimed slot). It is `table_size` where there is none.
pub open spec fn first_free(name: Seq<char>, table_size: int, entry: Seq<int>, j: int) -> int
    decreases table_size - j,
{
    if j >= table_size || entry[preference(name, table_size, j)] < 0 {
        j
    } else {
        first_free(name, table_size, entry, j + 1)
    }
}

/// The state of the round-robin population after `k` claims: for each
/// backend the cursor into its preference list, and for each slot the index
/// of the backend that owns it (`-1` while unclaimed).
///
/// Claim number `k` is made by backend `k % names.len()`: it takes the first
/// unclaimed slot at or after its cursor, and moves its cursor past it.
pub open spec fn fill(names: Seq<Seq<char>>, table_size: int, k: nat) -> (Seq<int>, Seq<int>)
    decreases k,
{
    if k == 0 {
        (Seq::new(names.len(), |i: int| 0int), Seq::new(table_size as nat, |s: int| -1int))
    } else {
        let prev = fill(names, table_size, (k - 1) as nat);
        let i = (k - 1) % (names.len() as int);
        let j = first_free(names[i], table_size, prev.1, prev.0[i]);
        (prev.0.update(i, j + 1), prev.1.update(preference(names[i], table_size, j), i))
    }
}

/// The Maglev lookup table of `names` over `table_size` slots: slot `s` holds
/// the index of the backend that owns it. It is empty where there are no
/// backends.
pub open spec fn maglev_table(names: Seq<Seq<char>>, table_size: int) -> Seq<int> {
    if names.len() == 0 {
        Seq::empty()
    } else {
        fill(names, table_size, table_size as nat).1
    }
}

/// The slots of `entry` that are claimed.
pub open spec fn claimed(entry: Seq<int>) -> Set<int> {
    Set::new(|s: int| 0 <= s < entry.len() && entry[s] >= 0)
}

} // verus!
