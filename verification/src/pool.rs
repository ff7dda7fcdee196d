use vstd::prelude::*;

use crate::models::AndroidStringsEntry;
use crate::resolver::Configuration;

verus! {

/// One key in flight: the values contributed so far, one slot per
/// configuration of the original resolved set, in resolver order.
pub struct PendingRow {
    pub key: String,
    pub values: Vec<Option<String>>,
}

impl PendingRow {
    /// A row is complete when every configuration has contributed a value.
    pub open spec fn complete(&self) -> bool {
        forall|i: int| 0 <= i < self.values@.len() ==> self.values@[i] is Some
    }

    /// At least one configuration has contributed a value.
    pub open spec fn contributed(&self) -> bool {
        exists|i: int| 0 <= i < self.values@.len() && (#[trigger] self.values@[i]) is Some
    }
}

/// The merge state: the fixed configuration set, the pending-row map and the
/// active-producer set. Completed rows are evicted the moment they qualify,
/// so memory is governed by the number of distinct keys in flight.
pub struct StringsPool {
    pub configurations: Vec<String>,
    pub pending: Vec<PendingRow>,
    pub active: Vec<bool>,
}

impl StringsPool {
    /// Every pending row has one value slot per configuration, keys in
    /// flight are unique, and each row holds at least one contribution.
    pub open spec fn wf(&self) -> bool {
        &&& self.active@.len() == self.configurations@.len()
        &&& forall|r: int|
            0 <= r < self.pending@.len() ==> (#[trigger] self.pending@[r].values@.len())
                == self.configurations@.len()
        &&& forall|r1: int, r2: int|
            0 <= r1 < r2 < self.pending@.len() ==> self.pending@[r1].key@
                != self.pending@[r2].key@
        &&& forall|r: int|
            0 <= r < self.pending@.len() ==> (#[trigger] self.pending@[r]).contributed()
    }

    /// Whether some pending row is in flight for the key.
    pub open spec fn has_key(&self, k: Seq<char>) -> bool {
        exists|r: int| 0 <= r < self.pending@.len() && (#[trigger] self.pending@[r].key@) == k
    }

    /// The index of the pending row for a key that is in flight.
    pub open spec fn key_index(&self, k: Seq<char>) -> int {
        choose|r: int| 0 <= r < self.pending@.len() && (#[trigger] self.pending@[r].key@) == k
    }

    pub fn new() -> (p: StringsPool)
        ensures
            p.wf(),
            p.configurations@ =~= Seq::<String>::empty(),
            p.pending@ =~= Seq::<PendingRow>::empty(),
            p.active@ =~= Seq::<bool>::empty(),
    {
        StringsPool { configurations: Vec::new(), pending: Vec::new(), active: Vec::new() }
    }

    /// Registers one more configuration; the set must be fixed before any
    /// entry is recorded.
    pub fn create(&mut self, configuration: &Configuration)
        requires
            old(self).wf(),
            old(self).pending@.len() == 0,
        ensures
            final(self).wf(),
            final(self).pending@.len() == 0,
            final(self).configurations@ == old(self).configurations@.push(configuration.name),
            final(self).active@ == old(self).active@.push(true),
    {
        self.configurations.push(configuration.name.clone());
        self.active.push(true);
    }

    /// Removes a configuration from the active set; the original
    /// configuration set is untouched.
    pub fn mark_exhausted(&mut self, configuration: usize)
        requires
            old(self).wf(),
            configuration < old(self).active@.len(),
        ensures
            final(self).wf(),
            final(self).configurations == old(self).configurations,
            final(self).pending == old(self).pending,
            final(self).active@ == old(self).active@.update(configuration as int, false),
    {
        self.active.remove(configuration);
        self.active.insert(configuration, false);
        proof {
            assert(self.active@ =~= old(self).active@.update(configuration as int, false));
        }
    }

    /// Whether any producer has still not signalled exhaustion.
    pub fn has_unfinished_configurations(&self) -> (r: bool)
        ensures
            r == exists|i: int| 0 <= i < self.active@.len() && self.active@[i],
    {
        let mut i: usize = 0;
        while i < self.active.len()
            invariant
                i <= self.active@.len(),
                forall|j: int| 0 <= j < i ==> !self.active@[j],
            decreases self.active@.len() - i,
        {
            if self.active[i] {
                return true;
            }
            i = i + 1;
        }
        false
    }

    /// Inserts or overwrites the value for (entry key, configuration) in the
    /// pending-row map. Reports whether the same pair had already contributed
    /// (the duplicate-key policy is raise-and-overwrite).
    pub fn record_entry(&mut self, configuration: usize, entry: AndroidStringsEntry) -> (dup:
        bool)
        requires
            old(self).wf(),
            configuration < old(self).configurations@.len(),
        ensures
            final(self).wf(),
            final(self).configurations == old(self).configurations,
            final(self).active == old(self).active,
            old(self).has_key(entry.key@) ==> {
                let r = old(self).key_index(entry.key@);
                &&& final(self).pending@.len() == old(self).pending@.len()
                &&& (forall|r2: int|
                    0 <= r2 < old(self).pending@.len() && r2 != r ==> final(self).pending@[r2]
                        == old(self).pending@[r2])
                &&& final(self).pending@[r].key == old(self).pending@[r].key
                &&& final(self).pending@[r].values@ == old(self).pending@[r].values@.update(
                    configuration as int,
                    Some(entry.value),
                )
                &&& dup == (old(self).pending@[r].values@[configuration as int] is Some)
            },
            !old(self).has_key(entry.key@) ==> {
                &&& final(self).pending@.len() == old(self).pending@.len() + 1
                &&& final(self).pending@.subrange(0, old(self).pending@.len() as int) == old(
                    self,
                ).pending@
                &&& final(self).pending@.last().key@ == entry.key@
                &&& final(self).pending@.last().values@ == Seq::new(
                    old(self).configurations@.len(),
                    |i: int|
                        if i == configuration as int {
                            Some(entry.value)
                        } else {
                            None
                        },
                )
                &&& dup == false
            },
    {
        let ghost k = entry.key@;
        let mut r: usize = 0;
        while r < self.pending.len()
            invariant
                self == old(self),
                r <= self.pending@.len(),
                old(self).wf(),
                configuration < old(self).configurations@.len(),
                forall|j: int| 0 <= j < r ==> self.pending@[j].key@ != k,
                k == entry.key@,
            decreases self.pending@.len() - r,
        {
            if self.pending[r].key == entry.key {
                let mut row = self.pending.remove(r);
                proof {
                    assert(row == old(self).pending@[r as int]);
                    assert(old(self).pending@[r as int].values@.len() == old(
                        self,
                    ).configurations@.len());
                }
                let dup = row.values[configuration].is_some();
                row.values.remove(configuration);
                row.values.insert(configuration, Some(entry.value));
                proof {
                    assert(row.values@ =~= old(self).pending@[r as int].values@.update(
                        configuration as int,
                        Some(entry.value),
                    ));
                }
                self.pending.insert(r, row);
                proof {
                    assert(old(self).has_key(k));
                    let ri = old(self).key_index(k);
                    assert(old(self).pending@[ri].key@ == k);
                    assert(ri == r as int);
                    assert forall|r2: int|
                        0 <= r2 < old(self).pending@.len() && r2 != r as int implies self.pending@[r2]
                        == old(self).pending@[r2] by {
                        assert(self.pending@ =~= old(self).pending@.update(r as int, self.pending@[r as int]));
                    }
                    assert(self.pending@ =~= old(self).pending@.update(r as int, self.pending@[r as int]));
                    assert forall|rr: int| 0 <= rr < self.pending@.len() implies (
                    #[trigger] self.pending@[rr]).values@.len() == self.configurations@.len() by {
                        if rr != r as int {
                            assert(self.pending@[rr] == old(self).pending@[rr]);
                        }
                    }
                    assert forall|r1: int, r2: int|
                        0 <= r1 < r2 < self.pending@.len() implies self.pending@[r1].key@
                        != self.pending@[r2].key@ by {
                        assert(self.pending@[r1].key@ == old(self).pending@[r1].key@);
                        assert(self.pending@[r2].key@ == old(self).pending@[r2].key@);
                    }
                    assert forall|rr: int| 0 <= rr < self.pending@.len() implies (
                    #[trigger] self.pending@[rr]).contributed() by {
                        if rr == r as int {
                            assert(self.pending@[rr].values@[configuration as int] is Some);
                        } else {
                            assert(self.pending@[rr] == old(self).pending@[rr]);
                        }
                    }
                }
                return dup;
            }
            r = r + 1;
        }
        let n = self.configurations.len();
        let mut values: Vec<Option<String>> = Vec::new();
        let mut i: usize = 0;
        while i < n
            invariant
                i <= n,
                values@.len() == i,
                forall|j: int|
                    0 <= j < i ==> values@[j] == if j == configuration as int {
                        Some(entry.value)
                    } else {
                        None::<String>
                    },
                configuration < n,
                k == entry.key@,
            decreases n - i,
        {
            if i == configuration {
                values.push(Some(entry.value.clone()));
            } else {
                values.push(None);
            }
            i = i + 1;
        }
        let row = PendingRow { key: entry.key, values };
        self.pending.push(row);
        proof {
            assert(!old(self).has_key(k));
            assert(self.pending@ == old(self).pending@.push(row));
            let ol = old(self).pending@.len() as int;
            assert forall|rr: int| 0 <= rr < self.pending@.len() implies (
            #[trigger] self.pending@[rr]).values@.len() == self.configurations@.len() by {
                if rr < ol {
                    assert(self.pending@[rr] == old(self).pending@[rr]);
                }
            }
            assert forall|r1: int, r2: int|
                0 <= r1 < r2 < self.pending@.len() implies self.pending@[r1].key@
                != self.pending@[r2].key@ by {
                if r2 < ol {
                    assert(self.pending@[r1] == old(self).pending@[r1]);
                    assert(self.pending@[r2] == old(self).pending@[r2]);
                } else {
                    assert(self.pending@[r1] == old(self).pending@[r1]);
                    assert(self.pending@[r2].key@ == k);
                }
            }
            assert forall|rr: int| 0 <= rr < self.pending@.len() implies (
            #[trigger] self.pending@[rr]).contributed() by {
                if rr < ol {
                    assert(self.pending@[rr] == old(self).pending@[rr]);
                } else {
                    assert(self.pending@[rr].values@[configuration as int] is Some);
                }
            }
            assert(self.pending@.subrange(0, old(self).pending@.len() as int) =~= old(
                self,
            ).pending@);
            assert(self.pending@.last().values@ =~= Seq::new(
                old(self).configurations@.len(),
                |i: int|
                    if i == configuration as int {
                        Some(entry.value)
                    } else {
                        None
                    },
            ));
        }
        false
    }
}

} // verus!
