use vstd::prelude::*;

use crate::maglev::Maglev;
use crate::model::{maglev_table, preference};
use crate::population::lemma_table_total;

verus! {

/// Two tables over the same backends, in the same order, and the same number
/// of slots assign every slot to the same backend.
pub proof fn lemma_construction_deterministic(a: &Maglev, b: &Maglev)
    requires
        a.wf(),
        b.wf(),
        a.names() == b.names(),
        a.size() == b.size(),
    ensures
        a.lookup_table() == b.lookup_table(),
        forall|idx: int| #[trigger] a.backend_at(idx) == b.backend_at(idx),
{
}

/// In a table with at least one backend, every slot belongs to one of the
/// current backends.
pub proof fn lemma_total_coverage(m: &Maglev)
    requires
        m.wf(),
        m.names().len() > 0,
    ensures
        m.lookup_table().len() == m.size(),
        forall|s: int|
            0 <= s < m.size() ==> 0 <= #[trigger] m.lookup_table()[s] < m.names().len(),
        forall|s: int| 0 <= s < m.size() ==> (#[trigger] m.backend_at(s)) is Some,
{
    lemma_table_total(m.names(), m.size());
}

/// Removing the backend at position `k` leaves the preference list of every
/// other backend as it was: each survivor asks for the same slots in the
/// same order.
pub proof fn lemma_removal_keeps_preferences(names: Seq<Seq<char>>, k: int, table_size: int)
    requires
        0 <= k < names.len(),
    ensures
        forall|i: int, j: int|
            0 <= i < names.len() - 1 ==> #[trigger] preference(names.remove(k)[i], table_size, j)
                == preference(names[if i < k { i } else { i + 1 }], table_size, j),
{
}

} // verus!
