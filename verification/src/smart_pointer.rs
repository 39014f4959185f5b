//! Usage tracking for pointers: per-pointer access statistics and a
//! pattern recommendation.

use crate::profiler::{now_millis, sat_add64, sat_sub64};
use vstd::prelude::*;

verus! {

/// Usage pattern for adaptive pointer strategies.
#[derive(Debug, Clone, Copy, PartialEq, Eq, Structural)]
pub enum UsagePattern {
    /// Shared ownership (multiple references).
    Shared,
    /// Unique ownership (single reference).
    Unique,
    /// Temporary/borrowed reference.
    Temporary,
    /// Weak reference (does not prevent cleanup).
    Weak,
}

/// Statistics about one pointer's usage.
#[derive(Debug, Clone)]
pub struct PointerStats {
    /// Number of times accessed.
    pub access_count: u64,
    /// Number of times modified.
    pub modification_count: u64,
    /// Number of references.
    pub reference_count: u32,
    /// Last access time, in clock milliseconds.
    pub last_access: u64,
    /// Usage pattern.
    pub pattern: UsagePattern,
}

/// The pattern recommended for a pointer's statistics: shared when more
/// than one reference holds it, unique when accessed often, weak when
/// never modified, temporary otherwise.
pub open spec fn spec_recommend(stats: PointerStats) -> UsagePattern {
    if stats.reference_count > 1 {
        UsagePattern::Shared
    } else if stats.access_count > 100 {
        UsagePattern::Unique
    } else if stats.modification_count == 0 {
        UsagePattern::Weak
    } else {
        UsagePattern::Temporary
    }
}

/// The first position holding the given ID, or the sequence's length
/// when no entry does.
pub open spec fn id_index(entries: Seq<(u64, PointerStats)>, id: u64) -> int
    decreases entries.len(),
{
    if entries.len() == 0 {
        0int
    } else if entries[0].0 == id {
        0int
    } else {
        1 + id_index(entries.drop_first(), id)
    }
}

/// A registry tracking pointer usage by ID.
pub struct SmartPointerRegistry {
    stats: Vec<(u64, PointerStats)>,
    next_id: u64,
}

impl SmartPointerRegistry {
    /// The tracked entries, in registration order.
    pub closed spec fn stats_seq(&self) -> Seq<(u64, PointerStats)> {
        self.stats@
    }

    /// The ID the next registration will return.
    pub closed spec fn spec_next_id(&self) -> u64 {
        self.next_id
    }

    /// Well-formedness: IDs are registered in increasing order and stay
    /// below the next ID, so no ID repeats.
    pub closed spec fn wf(&self) -> bool {
        &&& forall|i: int, j: int|
            0 <= i < j < self.stats@.len() ==> self.stats@[i].0 < self.stats@[j].0
        &&& forall|i: int| 0 <= i < self.stats@.len() ==> #[trigger] self.stats@[i].0 < self.next_id
        &&& self.next_id >= 1
    }

    /// A fresh registry; IDs start at one.
    pub fn new() -> (r: Self)
        ensures
            r.wf(),
            r.stats_seq().len() == 0,
            r.spec_next_id() == 1,
    {
        SmartPointerRegistry { stats: Vec::new(), next_id: 1 }
    }

    /// Registers a new pointer under a fresh ID: one reference, no
    /// accesses, the given pattern.  When the ID space is exhausted the
    /// registration is refused and the exhausted ID is returned
    /// unregistered.
    pub fn register(&mut self, pattern: UsagePattern) -> (r: u64)
        requires
            old(self).wf(),
        ensures
            final(self).wf(),
            r == old(self).spec_next_id(),
            old(self).spec_next_id() < u64::MAX ==> {
                &&& final(self).spec_next_id() == old(self).spec_next_id() + 1
                &&& final(self).stats_seq().len() == old(self).stats_seq().len() + 1
                &&& final(self).stats_seq().drop_last() == old(self).stats_seq()
                &&& final(self).stats_seq().last().0 == r
                &&& final(self).stats_seq().last().1.access_count == 0
                &&& final(self).stats_seq().last().1.modification_count == 0
                &&& final(self).stats_seq().last().1.reference_count == 1
                &&& final(self).stats_seq().last().1.pattern == pattern
            },
            old(self).spec_next_id() == u64::MAX ==> *final(self) == *old(self),
    {
        if self.next_id == u64::MAX {
            return self.next_id;
        }
        let id = self.next_id;
        self.next_id = self.next_id + 1;
        let entry = PointerStats {
            access_count: 0,
            modification_count: 0,
            reference_count: 1,
            last_access: now_millis(),
            pattern,
        };
        self.stats.push((id, entry));
        proof {
            assert(final(self).stats_seq().drop_last() =~= old(self).stats_seq());
        }
        id
    }

    /// Records an access: bumps the access counter and refreshes the
    /// last-access time of the entry, when one carries the ID.
    pub fn record_access(&mut self, id: u64)
        requires
            old(self).wf(),
        ensures
            final(self).wf(),
            final(self).spec_next_id() == old(self).spec_next_id(),
            final(self).stats_seq().len() == old(self).stats_seq().len(),
            ({
                let k = id_index(old(self).stats_seq(), id);
                if k < old(self).stats_seq().len() {
                    &&& final(self).stats_seq()[k].0 == id
                    &&& final(self).stats_seq()[k].1.access_count == sat_add64(
                        old(self).stats_seq()[k].1.access_count,
                        1,
                    )
                    &&& final(self).stats_seq()[k].1.modification_count == old(self).stats_seq()[k].1.modification_count
                    &&& final(self).stats_seq()[k].1.reference_count == old(self).stats_seq()[k].1.reference_count
                    &&& final(self).stats_seq()[k].1.pattern == old(self).stats_seq()[k].1.pattern
                    &&& forall|j: int|
                        0 <= j < old(self).stats_seq().len() && j != k ==> final(self).stats_seq()[j] == old(self).stats_seq()[j]
                } else {
                    final(self).stats_seq() == old(self).stats_seq()
                }
            }),
    {
        let now = now_millis();
        let n = self.stats.len();
        let mut i: usize = 0;
        proof {
            lemma_id_index_skip(self.stats@, id, 0);
        }
        while i < n
            invariant
                self.wf(),
                self == old(self),
                n == self.stats@.len(),
                i <= n,
                forall|j: int| 0 <= j < i ==> self.stats@[j].0 != id,
                id_index(self.stats@, id) >= i,
            decreases n - i,
        {
            let entry_id = self.stats[i].0;
            if entry_id == id {
                proof {
                    lemma_id_index_at(self.stats@, id, i as int);
                }
                let prev = (self.stats[i].1.access_count, self.stats[i].1.modification_count,
                    self.stats[i].1.reference_count, self.stats[i].1.pattern);
                self.stats.set(
                    i,
                    (
                        id,
                        PointerStats {
                            access_count: prev.0.saturating_add(1),
                            modification_count: prev.1,
                            reference_count: prev.2,
                            last_access: now,
                            pattern: prev.3,
                        },
                    ),
                );
                return ;
            }
            proof {
                lemma_id_index_step(self.stats@, id, i as int);
            }
            i = i + 1;
        }
        proof {
            lemma_id_index_bound(self.stats@, id);
        }
    }

    /// Records a modification: bumps the modification counter and
    /// refreshes the last-access time of the entry, when one carries the
    /// ID.
    pub fn record_modification(&mut self, id: u64)
        requires
            old(self).wf(),
        ensures
            final(self).wf(),
            final(self).spec_next_id() == old(self).spec_next_id(),
            final(self).stats_seq().len() == old(self).stats_seq().len(),
            ({
                let k = id_index(old(self).stats_seq(), id);
                if k < old(self).stats_seq().len() {
                    &&& final(self).stats_seq()[k].0 == id
                    &&& final(self).stats_seq()[k].1.modification_count == sat_add64(
                        old(self).stats_seq()[k].1.modification_count,
                        1,
                    )
                    &&& final(self).stats_seq()[k].1.access_count == old(self).stats_seq()[k].1.access_count
                    &&& final(self).stats_seq()[k].1.reference_count == old(self).stats_seq()[k].1.reference_count
                    &&& final(self).stats_seq()[k].1.pattern == old(self).stats_seq()[k].1.pattern
                    &&& forall|j: int|
                        0 <= j < old(self).stats_seq().len() && j != k ==> final(self).stats_seq()[j] == old(self).stats_seq()[j]
                } else {
                    final(self).stats_seq() == old(self).stats_seq()
                }
            }),
    {
        let now = now_millis();
        let n = self.stats.len();
        let mut i: usize = 0;
        proof {
            lemma_id_index_skip(self.stats@, id, 0);
        }
        while i < n
            invariant
                self.wf(),
                self == old(self),
                n == self.stats@.len(),
                i <= n,
                forall|j: int| 0 <= j < i ==> self.stats@[j].0 != id,
                id_index(self.stats@, id) >= i,
            decreases n - i,
        {
            let entry_id = self.stats[i].0;
            if entry_id == id {
                proof {
                    lemma_id_index_at(self.stats@, id, i as int);
                }
                let prev = (self.stats[i].1.access_count, self.stats[i].1.modification_count,
                    self.stats[i].1.reference_count, self.stats[i].1.pattern);
                self.stats.set(
                    i,
                    (
                        id,
                        PointerStats {
                            access_count: prev.0,
                            modification_count: prev.1.saturating_add(1),
                            reference_count: prev.2,
                            last_access: now,
                            pattern: prev.3,
                        },
                    ),
                );
                return ;
            }
            proof {
                lemma_id_index_step(self.stats@, id, i as int);
            }
            i = i + 1;
        }
        proof {
            lemma_id_index_bound(self.stats@, id);
        }
    }

    /// Overwrites the reference count of the entry carrying the ID, when
    /// one does.
    pub fn update_ref_count(&mut self, id: u64, count: u32)
        requires
            old(self).wf(),
        ensures
            final(self).wf(),
            final(self).spec_next_id() == old(self).spec_next_id(),
            final(self).stats_seq().len() == old(self).stats_seq().len(),
            ({
                let k = id_index(old(self).stats_seq(), id);
                if k < old(self).stats_seq().len() {
                    &&& final(self).stats_seq()[k].0 == id
                    &&& final(self).stats_seq()[k].1.reference_count == count
                    &&& final(self).stats_seq()[k].1.access_count == old(self).stats_seq()[k].1.access_count
                    &&& final(self).stats_seq()[k].1.modification_count == old(self).stats_seq()[k].1.modification_count
                    &&& final(self).stats_seq()[k].1.last_access == old(self).stats_seq()[k].1.last_access
                    &&& final(self).stats_seq()[k].1.pattern == old(self).stats_seq()[k].1.pattern
                    &&& forall|j: int|
                        0 <= j < old(self).stats_seq().len() && j != k ==> final(self).stats_seq()[j] == old(self).stats_seq()[j]
                } else {
                    final(self).stats_seq() == old(self).stats_seq()
                }
            }),
    {
        let n = self.stats.len();
        let mut i: usize = 0;
        proof {
            lemma_id_index_skip(self.stats@, id, 0);
        }
        while i < n
            invariant
                self.wf(),
                self == old(self),
                n == self.stats@.len(),
                i <= n,
                forall|j: int| 0 <= j < i ==> self.stats@[j].0 != id,
                id_index(self.stats@, id) >= i,
            decreases n - i,
        {
            let entry_id = self.stats[i].0;
            if entry_id == id {
                proof {
                    lemma_id_index_at(self.stats@, id, i as int);
                }
                let prev = (self.stats[i].1.access_count, self.stats[i].1.modification_count,
                    self.stats[i].1.last_access, self.stats[i].1.pattern);
                self.stats.set(
                    i,
                    (
                        id,
                        PointerStats {
                            access_count: prev.0,
                            modification_count: prev.1,
                            reference_count: count,
                            last_access: prev.2,
                            pattern: prev.3,
                        },
                    ),
                );
                return ;
            }
            proof {
                lemma_id_index_step(self.stats@, id, i as int);
            }
            i = i + 1;
        }
        proof {
            lemma_id_index_bound(self.stats@, id);
        }
    }

    /// The recommended usage pattern for a tracked pointer, or `None`
    /// when the ID is unknown.
    pub fn recommend_pattern(&self, id: u64) -> (r: Option<UsagePattern>)
        requires
            self.wf(),
        ensures
            ({
                let k = id_index(self.stats_seq(), id);
                if k < self.stats_seq().len() {
                    r == Some(spec_recommend(self.stats_seq()[k].1))
                } else {
                    r is None
                }
            }),
    {
        match self.get_stats(id) {
            Some(stats) => {
                if stats.reference_count > 1 {
                    Some(UsagePattern::Shared)
                } else if stats.access_count > 100 {
                    Some(UsagePattern::Unique)
                } else if stats.modification_count == 0 {
                    Some(UsagePattern::Weak)
                } else {
                    Some(UsagePattern::Temporary)
                }
            },
            None => None,
        }
    }

    /// The statistics of a tracked pointer, or `None` when the ID is
    /// unknown.
    pub fn get_stats(&self, id: u64) -> (r: Option<&PointerStats>)
        requires
            self.wf(),
        ensures
            ({
                let k = id_index(self.stats_seq(), id);
                if k < self.stats_seq().len() {
                    r matches Some(stats) && self.stats_seq()[k].0 == id && *stats
                        == self.stats_seq()[k].1
                } else {
                    r is None
                }
            }),
    {
        let n = self.stats.len();
        let mut i: usize = 0;
        proof {
            lemma_id_index_skip(self.stats@, id, 0);
        }
        while i < n
            invariant
                self.wf(),
                n == self.stats@.len(),
                i <= n,
                forall|j: int| 0 <= j < i ==> self.stats@[j].0 != id,
                id_index(self.stats@, id) >= i,
            decreases n - i,
        {
            if self.stats[i].0 == id {
                proof {
                    lemma_id_index_at(self.stats@, id, i as int);
                }
                return Some(&self.stats[i].1);
            }
            proof {
                lemma_id_index_step(self.stats@, id, i as int);
            }
            i = i + 1;
        }
        proof {
            lemma_id_index_bound(self.stats@, id);
        }
        None
    }

    /// Drops the statistics of pointers not accessed within the last
    /// five minutes, judged against one clock reading.
    pub fn cleanup(&mut self)
        requires
            old(self).wf(),
        ensures
            final(self).wf(),
            final(self).spec_next_id() == old(self).spec_next_id(),
            exists|now: u64| #[trigger] cleaned_with(
                old(self).stats_seq(),
                final(self).stats_seq(),
                now,
            ),
    {
        let now = now_millis();
        self.cleanup_at(now);
        proof {
            assert(cleaned_with(old(self).stats_seq(), final(self).stats_seq(), now));
        }
    }

    /// Drops the statistics of pointers whose last access lies 300 000
    /// milliseconds or more before the given instant.
    pub fn cleanup_at(&mut self, now: u64)
        requires
            old(self).wf(),
        ensures
            final(self).wf(),
            final(self).spec_next_id() == old(self).spec_next_id(),
            final(self).stats_seq() == old(self).stats_seq().filter(
                |e: (u64, PointerStats)| sat_sub64(now, e.1.last_access) < 300000,
            ),
    {
        let n = self.stats.len();
        let mut kept: Vec<(u64, PointerStats)> = Vec::new();
        let mut i: usize = 0;
        proof {
            assert(self.stats@.take(0).filter(
                |e: (u64, PointerStats)| sat_sub64(now, e.1.last_access) < 300000,
            ) =~= Seq::<(u64, PointerStats)>::empty());
        }
        while i < n
            invariant
                self.wf(),
                self == old(self),
                n == self.stats@.len(),
                i <= n,
                kept@ == self.stats@.take(i as int).filter(
                    |e: (u64, PointerStats)| sat_sub64(now, e.1.last_access) < 300000,
                ),
            decreases n - i,
        {
            let last_access = self.stats[i].1.last_access;
            let age = if now >= last_access {
                now - last_access
            } else {
                0
            };
            proof {
                assert(self.stats@.take(i + 1int).drop_last() =~= self.stats@.take(i as int));
                assert(self.stats@.take(i + 1int).last() == self.stats@[i as int]);
            }
            if age < 300000 {
                let id = self.stats[i].0;
                let entry = PointerStats {
                    access_count: self.stats[i].1.access_count,
                    modification_count: self.stats[i].1.modification_count,
                    reference_count: self.stats[i].1.reference_count,
                    last_access: self.stats[i].1.last_access,
                    pattern: self.stats[i].1.pattern,
                };
                kept.push((id, entry));
            }
            proof {
                reveal_with_fuel(Seq::filter, 2);
                assert(kept@ =~= self.stats@.take(i + 1int).filter(
                    |e: (u64, PointerStats)| sat_sub64(now, e.1.last_access) < 300000,
                ));
            }
            i = i + 1;
        }
        proof {
            assert(self.stats@.take(n as int) =~= self.stats@);
        }
        self.stats = kept;
        proof {
            lemma_filter_sorted(
                old(self).stats@,
                |e: (u64, PointerStats)| sat_sub64(now, e.1.last_access) < 300000,
                old(self).next_id,
            );
        }
    }
}

/// Whether `post` is `pre` with the entries not accessed within the five
/// minutes before `now` dropped.
pub open spec fn cleaned_with(
    pre: Seq<(u64, PointerStats)>,
    post: Seq<(u64, PointerStats)>,
    now: u64,
) -> bool {
    post == pre.filter(|e: (u64, PointerStats)| sat_sub64(now, e.1.last_access) < 300000)
}

/// `id_index` never exceeds the sequence's length.
proof fn lemma_id_index_bound(entries: Seq<(u64, PointerStats)>, id: u64)
    ensures
        0 <= id_index(entries, id) <= entries.len(),
    decreases entries.len(),
{
    if entries.len() > 0 && entries[0].0 != id {
        lemma_id_index_bound(entries.drop_first(), id);
    }
}

/// When entry `i` carries the ID and no earlier entry does, `id_index`
/// is `i`.
proof fn lemma_id_index_at(entries: Seq<(u64, PointerStats)>, id: u64, i: int)
    requires
        0 <= i < entries.len(),
        entries[i].0 == id,
        forall|j: int| 0 <= j < i ==> entries[j].0 != id,
    ensures
        id_index(entries, id) == i,
    decreases i,
{
    if i > 0 {
        assert forall|j: int| 0 <= j < i - 1 implies entries.drop_first()[j].0 != id by {
            assert(entries.drop_first()[j] == entries[j + 1]);
        }
        assert(entries.drop_first()[i - 1] == entries[i]);
        lemma_id_index_at(entries.drop_first(), id, i - 1);
    }
}

/// While no entry up to `i` carries the ID, `id_index` lies past `i`.
proof fn lemma_id_index_step(entries: Seq<(u64, PointerStats)>, id: u64, i: int)
    requires
        0 <= i < entries.len(),
        forall|j: int| 0 <= j <= i ==> entries[j].0 != id,
    ensures
        id_index(entries, id) >= i + 1,
    decreases i,
{
    if i == 0 {
        lemma_id_index_bound(entries.drop_first(), id);
    } else {
        assert forall|j: int| 0 <= j <= i - 1 implies entries.drop_first()[j].0 != id by {
            assert(entries.drop_first()[j] == entries[j + 1]);
        }
        lemma_id_index_step(entries.drop_first(), id, i - 1);
    }
}

/// `id_index` is never negative (trivially, for loop entry).
proof fn lemma_id_index_skip(entries: Seq<(u64, PointerStats)>, id: u64, i: int)
    ensures
        id_index(entries, id) >= 0,
    decreases entries.len(),
{
    if entries.len() > 0 && entries[0].0 != id {
        lemma_id_index_skip(entries.drop_first(), id, i);
    }
}

/// Filtering keeps a strictly increasing, bounded key sequence strictly
/// increasing and bounded.
proof fn lemma_filter_sorted(
    entries: Seq<(u64, PointerStats)>,
    pred: spec_fn((u64, PointerStats)) -> bool,
    bound: u64,
)
    requires
        forall|i: int, j: int| 0 <= i < j < entries.len() ==> entries[i].0 < entries[j].0,
        forall|i: int| 0 <= i < entries.len() ==> (#[trigger] entries[i]).0 < bound,
    ensures
        forall|i: int, j: int|
            0 <= i < j < entries.filter(pred).len() ==> entries.filter(pred)[i].0
                < entries.filter(pred)[j].0,
        forall|i: int|
            0 <= i < entries.filter(pred).len() ==> (#[trigger] entries.filter(pred)[i]).0
                < bound,
    decreases entries.len(),
{
    reveal_with_fuel(Seq::filter, 2);
    if entries.len() > 0 {
        let rest = entries.drop_last();
        assert forall|i: int, j: int| 0 <= i < j < rest.len() implies rest[i].0 < rest[j].0 by {
            assert(rest[i] == entries[i]);
            assert(rest[j] == entries[j]);
        }
        assert forall|i: int| 0 <= i < rest.len() implies (#[trigger] rest[i]).0 < bound by {
            assert(rest[i] == entries[i]);
        }
        lemma_filter_sorted(rest, pred, bound);
        if pred(entries.last()) {
            assert(entries.filter(pred) == rest.filter(pred).push(entries.last()));
            assert forall|i: int|
                0 <= i < rest.filter(pred).len() implies rest.filter(pred)[i].0
                < entries.last().0 by {
                lemma_filter_member(rest, pred, i);
            }
        } else {
            assert(entries.filter(pred) == rest.filter(pred));
        }
    }
}

/// Every filtered entry is one of the original entries.
proof fn lemma_filter_member(
    entries: Seq<(u64, PointerStats)>,
    pred: spec_fn((u64, PointerStats)) -> bool,
    i: int,
)
    requires
        0 <= i < entries.filter(pred).len(),
    ensures
        exists|j: int| 0 <= j < entries.len() && entries[j] == entries.filter(pred)[i],
    decreases entries.len(),
{
    reveal_with_fuel(Seq::filter, 2);
    if entries.len() > 0 {
        let rest = entries.drop_last();
        if pred(entries.last()) {
            if i < rest.filter(pred).len() {
                lemma_filter_member(rest, pred, i);
                let j = choose|j: int|
                    0 <= j < rest.len() && rest[j] == rest.filter(pred)[i];
                assert(entries[j] == rest[j]);
            } else {
                assert(entries.filter(pred)[i] == entries.last());
                assert(entries[entries.len() - 1] == entries.last());
            }
        } else {
            lemma_filter_member(rest, pred, i);
            let j = choose|j: int| 0 <= j < rest.len() && rest[j] == rest.filter(pred)[i];
            assert(entries[j] == rest[j]);
        }
    }
}

} // verus!
