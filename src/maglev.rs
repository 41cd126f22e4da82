use vstd::arithmetic::div_mod::{lemma_fundamental_div_mod, lemma_fundamental_div_mod_converse};
use vstd::prelude::*;

use crate::model::{digest_of, fill, first_free, is_prime, maglev_table, offset_of, preference, skip_of};
use crate::permutation::lemma_preference_bound;
use crate::population::{lemma_fill, lemma_table_total};

verus! {

/// Relies on `std::collections::hash_map::DefaultHasher`: a hasher made by
/// `DefaultHasher::new` starts from fixed keys, so the digest of a name
/// depends on the name alone.
#[verifier::external_body]
fn calculate_hash(v: &String) -> (r: u64)
    ensures
        r == digest_of(v@),
{
    let mut hasher = std::collections::hash_map::DefaultHasher::new();
    std::hash::Hash::hash(v, &mut hasher);
    std::hash::Hasher::finish(&hasher)
}

/// Relies on `primes::is_prime`, which divides by 2 and by every odd number
/// up to the square root. It squares candidates in `u64`, which can overflow
/// only for inputs of at least `(2^32 - 1)^2`.
#[verifier::external_body]
fn check_prime(n: u64) -> (r: bool)
    requires
        n < MAX_TABLE_SIZE,
    ensures
        r == is_prime(n as int),
{
    primes::is_prime(n)
}

/// Table sizes are below this bound: `(2^32 - 1)^2`.
pub const MAX_TABLE_SIZE: u64 = 0xffff_fffe_0000_0001;

/// Marks a slot that no backend has claimed yet, during population.
const UNCLAIMED: u64 = 0xffff_ffff_ffff_ffff;

/// How population stores a slot's owner (`-1`: unclaimed).
spec fn slot_code(owner: int) -> u64 {
    if owner < 0 {
        UNCLAIMED
    } else {
        owner as u64
    }
}

/// The names that a list of backends holds, in order.
pub open spec fn names_of(backends: Seq<String>) -> Seq<Seq<char>> {
    backends.map_values(|b: String| b@)
}

/// A Maglev lookup table over an ordered list of backends.
#[derive(Debug, PartialEq)]
pub struct Maglev {
    table: Vec<u64>,
    backends: Vec<String>,
    table_size: u64,
}

impl Maglev {
    /// The backend names, in order.
    pub closed spec fn names(&self) -> Seq<Seq<char>> {
        names_of(self.backends@)
    }

    /// The number of slots.
    pub closed spec fn size(&self) -> int {
        self.table_size as int
    }

    /// For each slot, the index of the backend that owns it.
    pub closed spec fn lookup_table(&self) -> Seq<int> {
        self.table@.map_values(|x: u64| x as int)
    }

    /// The table size is a prime within bounds, and the lookup table is the
    /// Maglev table of the backends.
    pub open spec fn wf(&self) -> bool {
        &&& is_prime(self.size())
        &&& self.size() < MAX_TABLE_SIZE
        &&& self.size() <= usize::MAX
        &&& self.lookup_table() == maglev_table(self.names(), self.size())
    }

    /// The name of the backend that owns slot `idx`, if there is one.
    pub open spec fn backend_at(&self, idx: int) -> Option<Seq<char>> {
        if 0 <= idx < self.size() && self.names().len() > 0 {
            Some(self.names()[maglev_table(self.names(), self.size())[idx]])
        } else {
            None
        }
    }

    /// Creates the table of `table_size` slots over `backends`, or fails
    /// where `table_size` is not prime.
    pub fn new(backends: &Vec<String>, table_size: u64) -> (r: Result<Maglev, &'static str>)
        requires
            table_size < MAX_TABLE_SIZE,
            table_size <= usize::MAX,
        ensures
            r is Ok <==> is_prime(table_size as int),
            r matches Ok(m) ==> {
                &&& m.wf()
                &&& m.names() == names_of(backends@)
                &&& m.size() == table_size
            },
            r matches Err(e) ==> e == "Table size should be a prime",
    {
        if check_prime(table_size) {
            let table = Maglev::populate(backends, table_size as usize);
            let m = Maglev { table, backends: backends.clone(), table_size };
            proof {
                assert(m.lookup_table() =~= maglev_table(m.names(), m.size()));
            }
            Ok(m)
        } else {
            Err("Table size should be a prime")
        }
    }

    /// The backend that owns slot `idx`; `None` where `idx` is not below the
    /// table size, or where there are no backends.
    pub fn get_backend(&self, idx: usize) -> (r: Option<String>)
        requires
            self.wf(),
        ensures
            r is Some <==> (idx < self.size() && self.names().len() > 0),
            r matches Some(b) ==> self.backend_at(idx as int) == Some(b@),
    {
        proof {
            assert(self.lookup_table().len() == self.table@.len());
            if self.names().len() > 0 {
                lemma_table_total(self.names(), self.size());
            }
        }
        if idx < self.table.len() {
            let i = self.table[idx];
            assert(self.lookup_table()[idx as int] == i as int);
            let num_backends = self.backends.len();
            assert(i < num_backends);
            let b = self.backends[i as usize].clone();
            assert(self.names()[i as int] == b@);
            Some(b)
        } else {
            None
        }
    }

    /// Appends `backend` and rebuilds the table; fails, changing nothing,
    /// where a backend of that name is already present.
    pub fn put_backend(&mut self, backend: &String) -> (r: Result<(), &'static str>)
        requires
            old(self).wf(),
        ensures
            final(self).wf(),
            r is Err <==> old(self).names().contains(backend@),
            r is Err ==> *final(self) == *old(self),
            r matches Err(e) ==> e == "Backend already exists",
            r is Ok ==> final(self).names() == old(self).names().push(backend@),
            final(self).size() == old(self).size(),
    {
        let mut k: usize = 0;
        while k < self.backends.len()
            invariant
                *self == *old(self),
                old(self).wf(),
                k <= self.backends@.len(),
                forall|j: int| 0 <= j < k ==> self.names()[j] != backend@,
            decreases self.backends@.len() - k,
        {
            if self.backends[k] == *backend {
                assert(self.names()[k as int] == backend@);
                return Err("Backend already exists");
            }
            k = k + 1;
        }
        self.backends.push(backend.clone());
        proof {
            assert(self.names() =~= old(self).names().push(backend@));
        }
        self.reset();
        Ok(())
    }

    /// Removes the first backend named `backend`, keeping the order of the
    /// others, and rebuilds the table; fails, changing nothing, where there
    /// is none.
    pub fn remove_backend(&mut self, backend: &String) -> (r: Result<(), &'static str>)
        requires
            old(self).wf(),
        ensures
            final(self).wf(),
            r is Err <==> !old(self).names().contains(backend@),
            r is Err ==> *final(self) == *old(self),
            r matches Err(e) ==> e == "Backend not found",
            r is Ok ==> exists|k: int|
                0 <= k < old(self).names().len() && old(self).names()[k] == backend@ && (forall|j: int|
                    0 <= j < k ==> old(self).names()[j] != backend@) && final(self).names()
                    == old(self).names().remove(k),
            final(self).size() == old(self).size(),
    {
        let mut k: usize = 0;
        while k < self.backends.len()
            invariant
                *self == *old(self),
                old(self).wf(),
                k <= self.backends@.len(),
                forall|j: int| 0 <= j < k ==> self.names()[j] != backend@,
            decreases self.backends@.len() - k,
        {
            if self.backends[k] == *backend {
                assert(self.names()[k as int] == backend@);
                self.backends.remove(k);
                proof {
                    assert(self.names() =~= old(self).names().remove(k as int));
                }
                self.reset();
                return Ok(());
            }
            k = k + 1;
        }
        Err("Backend not found")
    }

    /// Rebuilds the lookup table for the current backends.
    fn reset(&mut self)
        requires
            is_prime(old(self).size()),
            old(self).size() < MAX_TABLE_SIZE,
            old(self).size() <= usize::MAX,
        ensures
            final(self).wf(),
            final(self).names() == old(self).names(),
            final(self).size() == old(self).size(),
    {
        self.table = Maglev::populate(&self.backends, self.table_size as usize);
        proof {
            assert(self.lookup_table() =~= maglev_table(self.names(), self.size()));
        }
    }

    /// For each backend, where its preference list starts and its stride.
    fn get_offsets_and_skips(backends: &Vec<String>, table_size: u64) -> (r: (Vec<u64>, Vec<u64>))
        requires
            table_size >= 2,
        ensures
            r.0@.len() == backends@.len(),
            r.1@.len() == backends@.len(),
            forall|i: int|
                0 <= i < backends@.len() ==> {
                    &&& r.0@[i] as int == offset_of(#[trigger] backends@[i]@, table_size as int)
                    &&& r.1@[i] as int == skip_of(backends@[i]@, table_size as int)
                },
    {
        let mut offsets: Vec<u64> = Vec::new();
        let mut skips: Vec<u64> = Vec::new();
        let mut k: usize = 0;
        while k < backends.len()
            invariant
                table_size >= 2,
                k <= backends@.len(),
                offsets@.len() == k,
                skips@.len() == k,
                forall|i: int|
                    0 <= i < k ==> {
                        &&& offsets@[i] as int == offset_of(#[trigger] backends@[i]@, table_size as int)
                        &&& skips@[i] as int == skip_of(backends@[i]@, table_size as int)
                    },
            decreases backends@.len() - k,
        {
            let hash = calculate_hash(&backends[k]);
            let offset = (hash >> 32u64) % table_size;
            let skip = (hash & 0xffff_ffffu64) % (table_size - 1) + 1;
            offsets.push(offset);
            skips.push(skip);
            k = k + 1;
        }
        (offsets, skips)
    }

    /// Each backend's preference list: the slots of the table in the order
    /// in which the backend asks for them.
    fn get_permutations(backends: &Vec<String>, table_size: u64) -> (r: Vec<Vec<u64>>)
        requires
            table_size >= 2,
        ensures
            r@.len() == backends@.len(),
            forall|i: int| 0 <= i < backends@.len() ==> (#[trigger] r@[i])@.len() == table_size,
            forall|i: int, j: int|
                0 <= i < backends@.len() && 0 <= j < table_size ==> (#[trigger] r@[i]@[j]) as int
                    == preference(backends@[i]@, table_size as int, j),
    {
        let n = backends.len();
        let mut permutations: Vec<Vec<u64>> = Vec::new();
        let (offsets, skips) = Maglev::get_offsets_and_skips(backends, table_size);
        let mut i: usize = 0;
        while i < n
            invariant
                table_size >= 2,
                n == backends@.len(),
                offsets@.len() == n,
                skips@.len() == n,
                forall|b: int|
                    0 <= b < n ==> {
                        &&& offsets@[b] as int == offset_of(#[trigger] backends@[b]@, table_size as int)
                        &&& skips@[b] as int == skip_of(backends@[b]@, table_size as int)
                    },
                i <= n,
                permutations@.len() == i,
                forall|b: int| 0 <= b < i ==> (#[trigger] permutations@[b])@.len() == table_size,
                forall|b: int, j: int|
                    0 <= b < i && 0 <= j < table_size ==> (#[trigger] permutations@[b]@[j]) as int
                        == preference(backends@[b]@, table_size as int, j),
            decreases n - i,
        {
            let offset = offsets[i];
            let skip = skips[i];
            let mut permutation: Vec<u64> = Vec::new();
            let mut x: u64 = 0;
            while x < table_size
                invariant
                    table_size >= 2,
                    i < n,
                    n == backends@.len(),
                    offset as int == offset_of(backends@[i as int]@, table_size as int),
                    skip as int == skip_of(backends@[i as int]@, table_size as int),
                    x <= table_size,
                    permutation@.len() == x,
                    forall|j: int|
                        0 <= j < x ==> (#[trigger] permutation@[j]) as int == preference(
                            backends@[i as int]@,
                            table_size as int,
                            j,
                        ),
                decreases table_size - x,
            {
                assert((x as int) * (skip as int) <= 0xffff_ffff_ffff_ffff * 0xffff_ffff_ffff_ffff)
                    by (nonlinear_arith)
                    requires
                        0 <= x <= 0xffff_ffff_ffff_ffffu64,
                        0 <= skip <= 0xffff_ffff_ffff_ffffu64,
                ;
                let big = (x as u128) * (skip as u128);
                let slot = ((offset as u128 + big) % (table_size as u128)) as u64;
                proof {
                    lemma_preference_bound(backends@[i as int]@, table_size as int, x as int);
                }
                permutation.push(slot);
                x = x + 1;
            }
            permutations.push(permutation);
            i = i + 1;
        }
        permutations
    }

    /// Runs the round-robin population: each backend in turn takes the first
    /// slot of its preference list that is still unclaimed, until every slot
    /// is taken.
    fn populate(backends: &Vec<String>, table_size: usize) -> (r: Vec<u64>)
        requires
            is_prime(table_size as int),
        ensures
            r@.len() == maglev_table(names_of(backends@), table_size as int).len(),
            forall|s: int|
                0 <= s < r@.len() ==> (#[trigger] r@[s]) as int == maglev_table(
                    names_of(backends@),
                    table_size as int,
                )[s],
    {
        let ghost names = names_of(backends@);
        let ghost ts = table_size as int;
        let num_backends = backends.len();
        if num_backends == 0 {
            return Vec::new();
        }
        let permutations = Maglev::get_permutations(backends, table_size as u64);
        let mut next: Vec<usize> = vec![0usize; num_backends];
        let mut entry: Vec<u64> = vec![UNCLAIMED; table_size];
        let mut n: usize = 0;
        let mut i: usize = 0;
        proof {
            assert(fill(names, ts, 0).0 =~= Seq::new(names.len(), |b: int| 0int));
        }
        while n < table_size
            invariant
                is_prime(ts),
                ts == table_size,
                names == names_of(backends@),
                num_backends == backends@.len(),
                num_backends > 0,
                permutations@.len() == num_backends,
                forall|b: int| 0 <= b < num_backends ==> (#[trigger] permutations@[b])@.len() == ts,
                forall|b: int, j: int|
                    0 <= b < num_backends && 0 <= j < ts ==> (#[trigger] permutations@[b]@[j]) as int
                        == preference(names[b], ts, j),
                n <= table_size,
                i < num_backends,
                i as int == (n as int) % (num_backends as int),
                next@.len() == num_backends,
                entry@.len() == table_size,
                forall|b: int|
                    0 <= b < num_backends ==> (#[trigger] next@[b]) as int == fill(names, ts, n as nat).0[b],
                forall|s: int|
                    0 <= s < table_size ==> #[trigger] entry@[s] == slot_code(fill(names, ts, n as nat).1[s]),
            decreases table_size - n,
        {
            proof {
                lemma_fill(names, ts, n as nat);
            }
            let ghost st = fill(names, ts, n as nat);
            let ghost goal = first_free(names[i as int], ts, st.1, st.0[i as int]);
            let mut j: usize = next[i];
            let mut c: u64 = permutations[i][j];
            proof {
                lemma_preference_bound(names[i as int], ts, j as int);
            }
            while entry[c as usize] != UNCLAIMED
                invariant
                    is_prime(ts),
                    ts == table_size,
                    i < num_backends,
                    permutations@.len() == num_backends,
                    permutations@[i as int]@.len() == ts,
                    forall|jj: int|
                        0 <= jj < ts ==> (#[trigger] permutations@[i as int]@[jj]) as int
                            == preference(names[i as int], ts, jj),
                    entry@.len() == table_size,
                    st.1.len() == ts,
                    forall|s: int|
                        0 <= s < table_size ==> #[trigger] entry@[s] == slot_code(st.1[s]),
                    forall|s: int| 0 <= s < table_size ==> -1 <= #[trigger] st.1[s] < num_backends,
                    names.len() == num_backends,
                    st.0.len() == num_backends,
                    st.0[i as int] <= j <= goal < ts,
                    st.1[preference(names[i as int], ts, goal)] < 0,
                    goal == first_free(names[i as int], ts, st.1, j as int),
                    c as int == preference(names[i as int], ts, j as int),
                    c < table_size,
                decreases ts - j,
            {
                proof {
                    assert(st.1[c as int] >= 0);
                    assert(first_free(names[i as int], ts, st.1, j as int) == first_free(
                        names[i as int],
                        ts,
                        st.1,
                        j + 1,
                    ));
                }
                j = j + 1;
                c = permutations[i][j];
                proof {
                    lemma_preference_bound(names[i as int], ts, j as int);
                }
            }
            entry.set(c as usize, i as u64);
            next.set(i, j + 1);
            proof {
                let nb = num_backends as int;
                let q = (n as int) / nb;
                lemma_fundamental_div_mod(n as int, nb);
                if i + 1 == num_backends {
                    assert(n + 1 == (q + 1) * nb + 0) by (nonlinear_arith)
                        requires
                            n == nb * q + i,
                            i + 1 == nb,
                    ;
                    lemma_fundamental_div_mod_converse(n + 1, nb, q + 1, 0);
                } else {
                    lemma_fundamental_div_mod_converse(n + 1, nb, q, i + 1);
                }
            }
            n = n + 1;
            i = if i + 1 == num_backends { 0 } else { i + 1 };
        }
        proof {
            lemma_fill(names, ts, ts as nat);
            lemma_table_total(names, ts);
        }
        entry
    }
}

} // verus!
