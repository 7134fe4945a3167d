//! Per-frame storage-access ledger: which storage locations one call read and
//! wrote, with transient storage tracked apart from persistent storage.

use vstd::prelude::*;

use crate::assoc::{bumped, has_key, key_index, keys_unique, updated_at, value_of};

verus! {

/// Storage accesses of one frame's direct execution.
///
/// `reads` keeps, per canonical location key, every value observed in read
/// order (re-reads are recorded, not deduplicated); `writes` counts writes per
/// location. The two transient maps do the same for transient-storage opcodes,
/// whose lifetime rules differ and must not be conflated with the persistent
/// maps.
#[derive(Clone, Debug, PartialEq, Eq)]
pub struct AccessedSlots {
    pub reads: Vec<(String, Vec<String>)>,
    pub writes: Vec<(String, u64)>,
    pub transient_reads: Vec<(String, u64)>,
    pub transient_writes: Vec<(String, u64)>,
}

/// Mathematical value of a ledger.
#[verifier::ext_equal]
pub struct SlotsModel {
    pub reads: Seq<(Seq<char>, Seq<Seq<char>>)>,
    pub writes: Seq<(Seq<char>, u64)>,
    pub transient_reads: Seq<(Seq<char>, u64)>,
    pub transient_writes: Seq<(Seq<char>, u64)>,
}

/// View of a counter map: location key to number of operations.
pub open spec fn count_map_model(v: Seq<(String, u64)>) -> Seq<(Seq<char>, u64)> {
    Seq::new(v.len(), |i: int| (v[i].0@, v[i].1))
}

/// View of the read map: location key to the observed values, in read order.
pub open spec fn read_map_model(
    v: Seq<(String, Vec<String>)>,
) -> Seq<(Seq<char>, Seq<Seq<char>>)> {
    Seq::new(v.len(), |i: int| (v[i].0@, Seq::new(v[i].1@.len(), |j: int| v[i].1@[j]@)))
}

impl View for AccessedSlots {
    type V = SlotsModel;

    open spec fn view(&self) -> SlotsModel {
        SlotsModel {
            reads: read_map_model(self.reads@),
            writes: count_map_model(self.writes@),
            transient_reads: count_map_model(self.transient_reads@),
            transient_writes: count_map_model(self.transient_writes@),
        }
    }
}

impl SlotsModel {
    /// Every map keeps at most one entry per location key.
    pub open spec fn wf(self) -> bool {
        &&& keys_unique(self.reads)
        &&& keys_unique(self.writes)
        &&& keys_unique(self.transient_reads)
        &&& keys_unique(self.transient_writes)
    }

    /// The ledger with nothing recorded.
    pub open spec fn empty() -> SlotsModel {
        SlotsModel {
            reads: Seq::empty(),
            writes: Seq::empty(),
            transient_reads: Seq::empty(),
            transient_writes: Seq::empty(),
        }
    }
}

/// The read map after one more observation of `value` at `k`: the value is
/// appended to the entry for `k`, or a fresh entry is created; all else is
/// unchanged.
pub open spec fn read_appended(
    s: Seq<(Seq<char>, Seq<Seq<char>>)>,
    k: Seq<char>,
    value: Seq<char>,
) -> Seq<(Seq<char>, Seq<Seq<char>>)> {
    if has_key(s, k) {
        updated_at(s, k, value_of(s, k).push(value))
    } else {
        s.push((k, seq![value]))
    }
}

/// Increments the count under `location` in a counter map, keeping entry
/// order, creating the entry with count one if absent.
fn bump_count(m: &mut Vec<(String, u64)>, location: String)
    requires
        keys_unique(count_map_model(old(m)@)),
        has_key(count_map_model(old(m)@), location@) ==> value_of(
            count_map_model(old(m)@),
            location@,
        ) < u64::MAX,
    ensures
        count_map_model(final(m)@) == bumped(count_map_model(old(m)@), location@),
        keys_unique(count_map_model(final(m)@)),
{
    let ghost s0 = count_map_model(old(m)@);
    let n = m.len();
    let mut i: usize = 0;
    while i < n
        invariant
            i <= n,
            n == m@.len(),
            *m == *old(m),
            s0 == count_map_model(old(m)@),
            keys_unique(count_map_model(m@)),
            has_key(count_map_model(m@), location@) ==> value_of(
                count_map_model(m@),
                location@,
            ) < u64::MAX,
            forall|j: int| 0 <= j < i ==> (#[trigger] m@[j]).0@ != location@,
        decreases n - i,
    {
        if m[i].0 == location {
            proof {
                assert(count_map_model(m@)[i as int].0 == location@);
                assert(has_key(count_map_model(m@), location@));
                let ki = key_index(count_map_model(m@), location@);
                assert(count_map_model(m@)[ki].0 == location@);
                assert(ki == i as int);
            }
            let entry = m.remove(i);
            let count = entry.1;
            m.insert(i, (location, count + 1));
            proof {
                assert(count_map_model(m@) =~= updated_at(s0, location@, (count + 1) as u64));
                assert(forall|j: int|
                    0 <= j < s0.len() ==> (#[trigger] count_map_model(m@)[j]).0 == s0[j].0);
            }
            return;
        }
        i = i + 1;
    }
    proof {
        assert(!has_key(count_map_model(m@), location@));
    }
    m.push((location, 1));
    proof {
        assert(count_map_model(m@) =~= s0.push((location@, 1u64)));
        assert forall|a: int, b: int|
            0 <= a < b < count_map_model(m@).len() implies (#[trigger] count_map_model(
            m@,
        )[a]).0 != (#[trigger] count_map_model(m@)[b]).0 by {
            if b == count_map_model(m@).len() - 1 {
                assert(!has_key(s0, location@));
                assert(s0[a].0 != location@);
            }
        }
    }
}

impl AccessedSlots {
    /// A ledger with nothing recorded yet.
    pub fn new() -> (s: Self)
        ensures
            s@ == SlotsModel::empty(),
            s@.wf(),
    {
        let s = AccessedSlots {
            reads: Vec::new(),
            writes: Vec::new(),
            transient_reads: Vec::new(),
            transient_writes: Vec::new(),
        };
        proof {
            assert(s@.reads =~= SlotsModel::empty().reads);
            assert(s@.writes =~= SlotsModel::empty().writes);
            assert(s@.transient_reads =~= SlotsModel::empty().transient_reads);
            assert(s@.transient_writes =~= SlotsModel::empty().transient_writes);
            assert(s@ =~= SlotsModel::empty());
        }
        s
    }

    /// Records that `value` was observed read at `location`: appended to the
    /// entry's value sequence, never deduplicated nor reduced to a last value.
    pub fn on_read(&mut self, location: String, value: String)
        requires
            old(self)@.wf(),
        ensures
            final(self)@.wf(),
            final(self)@.reads == read_appended(old(self)@.reads, location@, value@),
            final(self)@.writes == old(self)@.writes,
            final(self)@.transient_reads == old(self)@.transient_reads,
            final(self)@.transient_writes == old(self)@.transient_writes,
    {
        let ghost s0 = read_map_model(old(self).reads@);
        let n = self.reads.len();
        let mut i: usize = 0;
        while i < n
            invariant
                i <= n,
                n == self.reads@.len(),
                *self == *old(self),
                s0 == read_map_model(old(self).reads@),
                self@.wf(),
                forall|j: int| 0 <= j < i ==> (#[trigger] self.reads@[j]).0@ != location@,
            decreases n - i,
        {
            if self.reads[i].0 == location {
                proof {
                    assert(read_map_model(self.reads@)[i as int].0 == location@);
                    assert(has_key(s0, location@));
                    let ki = key_index(s0, location@);
                    assert(s0[ki].0 == location@);
                    assert(ki == i as int);
                }
                let mut entry = self.reads.remove(i);
                entry.1.push(value);
                self.reads.insert(i, entry);
                proof {
                    assert(read_map_model(self.reads@) =~~= updated_at(
                        s0,
                        location@,
                        value_of(s0, location@).push(value@),
                    ));
                    assert(forall|j: int|
                        0 <= j < s0.len() ==> (#[trigger] read_map_model(self.reads@)[j]).0
                            == s0[j].0);
                    assert(self@.writes =~= old(self)@.writes);
                    assert(self@.transient_reads =~= old(self)@.transient_reads);
                    assert(self@.transient_writes =~= old(self)@.transient_writes);
                }
                return;
            }
            i = i + 1;
        }
        proof {
            assert(!has_key(s0, location@));
        }
        let mut vals: Vec<String> = Vec::new();
        vals.push(value);
        self.reads.push((location, vals));
        proof {
            assert(read_map_model(self.reads@) =~~= s0.push((location@, seq![value@])));
            assert forall|a: int, b: int|
                0 <= a < b < self@.reads.len() implies (#[trigger] self@.reads[a]).0
                != (#[trigger] self@.reads[b]).0 by {
                if b == self@.reads.len() - 1 {
                    assert(s0[a].0 != location@);
                }
            }
            assert(self@.writes =~= old(self)@.writes);
            assert(self@.transient_reads =~= old(self)@.transient_reads);
            assert(self@.transient_writes =~= old(self)@.transient_writes);
        }
    }

    /// Counts one write at `location`.
    pub fn on_write(&mut self, location: String)
        requires
            old(self)@.wf(),
            has_key(old(self)@.writes, location@) ==> value_of(
                old(self)@.writes,
                location@,
            ) < u64::MAX,
        ensures
            final(self)@.wf(),
            final(self)@.writes == bumped(old(self)@.writes, location@),
            final(self)@.reads == old(self)@.reads,
            final(self)@.transient_reads == old(self)@.transient_reads,
            final(self)@.transient_writes == old(self)@.transient_writes,
    {
        bump_count(&mut self.writes, location);
        proof {
            assert(self@.reads =~~= old(self)@.reads);
            assert(self@.transient_reads =~= old(self)@.transient_reads);
            assert(self@.transient_writes =~= old(self)@.transient_writes);
        }
    }

    /// Counts one transient-storage read at `location`.
    pub fn on_transient_read(&mut self, location: String)
        requires
            old(self)@.wf(),
            has_key(old(self)@.transient_reads, location@) ==> value_of(
                old(self)@.transient_reads,
                location@,
            ) < u64::MAX,
        ensures
            final(self)@.wf(),
            final(self)@.transient_reads == bumped(old(self)@.transient_reads, location@),
            final(self)@.reads == old(self)@.reads,
            final(self)@.writes == old(self)@.writes,
            final(self)@.transient_writes == old(self)@.transient_writes,
    {
        bump_count(&mut self.transient_reads, location);
        proof {
            assert(self@.reads =~~= old(self)@.reads);
            assert(self@.writes =~= old(self)@.writes);
            assert(self@.transient_writes =~= old(self)@.transient_writes);
        }
    }

    /// Counts one transient-storage write at `location`.
    pub fn on_transient_write(&mut self, location: String)
        requires
            old(self)@.wf(),
            has_key(old(self)@.transient_writes, location@) ==> value_of(
                old(self)@.transient_writes,
                location@,
            ) < u64::MAX,
        ensures
            final(self)@.wf(),
            final(self)@.transient_writes == bumped(old(self)@.transient_writes, location@),
            final(self)@.reads == old(self)@.reads,
            final(self)@.writes == old(self)@.writes,
            final(self)@.transient_reads == old(self)@.transient_reads,
    {
        bump_count(&mut self.transient_writes, location);
        proof {
            assert(self@.reads =~~= old(self)@.reads);
            assert(self@.writes =~= old(self)@.writes);
            assert(self@.transient_reads =~= old(self)@.transient_reads);
        }
    }
}

impl Default for AccessedSlots {
    /// Same as `new`: the empty ledger.
    fn default() -> (s: Self)
        ensures
            s@ == SlotsModel::empty(),
            s@.wf(),
    {
        AccessedSlots::new()
    }
}

} // verus!
