//! Tracking of allocation patterns: events, counters and a usage report.
//!
//! Timestamps are milliseconds read from the host clock; nothing is assumed
//! of the clock's value, so every quantity derived from it is stated
//! existentially.  All counters saturate instead of wrapping.

use crate::namemap::NameMap;
use crate::text::{u64_dec, u64_to_dec};
use vstd::prelude::*;

verus! {

/// Relies on `std::time::SystemTime::now`: milliseconds since the Unix
/// epoch, truncated into a `u64`.  Nothing is promised of the clock.
#[verifier::external_body]
pub(crate) fn now_millis() -> u64 {
    match std::time::SystemTime::now().duration_since(std::time::UNIX_EPOCH) {
        Ok(d) => d.as_millis() as u64,
        Err(_) => 0,
    }
}

/// Saturating addition on `u64`.
pub open spec fn sat_add64(a: u64, b: u64) -> u64 {
    if a + b > u64::MAX {
        u64::MAX
    } else {
        (a + b) as u64
    }
}

/// Saturating subtraction on `u64`.
pub open spec fn sat_sub64(a: u64, b: u64) -> u64 {
    if a >= b {
        (a - b) as u64
    } else {
        0u64
    }
}

/// Saturating addition on `usize`.
pub open spec fn sat_add_usize(a: usize, b: usize) -> usize {
    if a + b > usize::MAX {
        usize::MAX
    } else {
        (a + b) as usize
    }
}

/// Saturating subtraction on `usize`.
pub open spec fn sat_sub_usize(a: usize, b: usize) -> usize {
    if a >= b {
        (a - b) as usize
    } else {
        0usize
    }
}

/// A memory allocation event.
#[derive(Debug, Clone)]
pub struct AllocationEvent {
    /// Object ID.
    pub id: u64,
    /// Allocation size in bytes (zero when unknown).
    pub size: usize,
    /// Allocation type label.
    pub allocation_type: String,
    /// Timestamp, in clock milliseconds.
    pub timestamp: u64,
    /// Stack trace, when captured (never captured today).
    pub stack_trace: Option<Vec<String>>,
}

/// A memory deallocation event.
#[derive(Debug, Clone)]
pub struct DeallocationEvent {
    /// Object ID.
    pub id: u64,
    /// Deallocation type label.
    pub deallocation_type: String,
    /// Timestamp, in clock milliseconds.
    pub timestamp: u64,
    /// Lifetime, in milliseconds, measured from the matching allocation;
    /// zero when no allocation with this ID was recorded.
    pub lifetime: u64,
}

/// A garbage collection event.
#[derive(Debug, Clone)]
pub struct GCEvent {
    /// Number of objects collected.
    pub objects_collected: u64,
    /// Bytes freed.
    pub bytes_freed: u64,
    /// Duration of the collection, in milliseconds.
    pub duration: u64,
    /// Timestamp, in clock milliseconds.
    pub timestamp: u64,
}

/// Memory usage statistics.
///
/// All quantities are integers; an average allocation size is not reported,
/// since both the byte total and the allocation count are, and the host can
/// divide them at whatever precision it likes.
#[derive(Debug, Clone, PartialEq, Eq, Structural)]
pub struct MemoryStats {
    pub total_allocations: u64,
    pub total_deallocations: u64,
    pub current_usage: usize,
    pub peak_usage: usize,
    pub total_bytes_allocated: u64,
    pub total_bytes_freed: u64,
    /// Average recorded object lifetime, in whole milliseconds.
    pub avg_lifetime_millis: u64,
    pub gc_count: u64,
    /// Total time spent in garbage collection, in milliseconds.
    pub total_gc_time_millis: u64,
}

/// The timestamp of the first recorded allocation with the given ID.
pub open spec fn find_alloc_ts(events: Seq<AllocationEvent>, id: u64) -> Option<u64>
    decreases events.len(),
{
    if events.len() == 0 {
        None::<u64>
    } else if events[0].id == id {
        Some(events[0].timestamp)
    } else {
        find_alloc_ts(events.drop_first(), id)
    }
}

/// The saturating sum of the recorded lifetimes.
pub open spec fn sum_lifetimes(events: Seq<DeallocationEvent>) -> u64
    decreases events.len(),
{
    if events.len() == 0 {
        0u64
    } else {
        sat_add64(sum_lifetimes(events.drop_last()), events.last().lifetime)
    }
}

/// A profiler for tracking allocation patterns.
pub struct MemoryProfiler {
    allocations: Vec<AllocationEvent>,
    deallocations: Vec<DeallocationEvent>,
    gc_events: Vec<GCEvent>,
    current_usage: usize,
    peak_usage: usize,
    total_bytes_allocated: u64,
    total_bytes_freed: u64,
    gc_count: u64,
    total_gc_time: u64,
    total_allocations: u64,
    total_deallocations: u64,
    allocation_types: NameMap<u64>,
    size_distribution: Vec<(usize, u64)>,
    enabled: bool,
}

/// The size bucket that a byte count falls into.
pub open spec fn spec_size_bucket(size: usize) -> usize {
    if size <= 64 {
        64usize
    } else if size <= 256 {
        256usize
    } else if size <= 1024 {
        1024usize
    } else if size <= 4096 {
        4096usize
    } else if size <= 16384 {
        16384usize
    } else {
        65536usize
    }
}

impl MemoryProfiler {
    /// The recorded allocation events.
    pub closed spec fn allocations_seq(&self) -> Seq<AllocationEvent> {
        self.allocations@
    }

    /// The recorded deallocation events.
    pub closed spec fn deallocations_seq(&self) -> Seq<DeallocationEvent> {
        self.deallocations@
    }

    /// The recorded garbage collection events.
    pub closed spec fn gc_events_seq(&self) -> Seq<GCEvent> {
        self.gc_events@
    }

    /// The per-type allocation counters.
    pub closed spec fn types_map(&self) -> Map<Seq<char>, u64> {
        self.allocation_types@
    }

    /// The size-bucket counters, as an ordered entry sequence.
    pub closed spec fn dist_seq(&self) -> Seq<(usize, u64)> {
        self.size_distribution@
    }

    /// Whether event recording is on.
    pub closed spec fn is_enabled(&self) -> bool {
        self.enabled
    }

    /// The statistics denoted by the current counters.
    pub closed spec fn stats_model(&self) -> MemoryStats {
        MemoryStats {
            total_allocations: self.total_allocations,
            total_deallocations: self.total_deallocations,
            current_usage: self.current_usage,
            peak_usage: self.peak_usage,
            total_bytes_allocated: self.total_bytes_allocated,
            total_bytes_freed: self.total_bytes_freed,
            avg_lifetime_millis: if self.total_deallocations > 0 {
                (sum_lifetimes(self.deallocations@) / self.total_deallocations) as u64
            } else {
                0u64
            },
            gc_count: self.gc_count,
            total_gc_time_millis: self.total_gc_time,
        }
    }

    /// Well-formedness: the size-bucket entries are strictly sorted by
    /// bucket, and the type table holds no duplicate keys.
    pub closed spec fn wf(&self) -> bool {
        &&& self.allocation_types.wf()
        &&& forall|i: int, j: int|
            0 <= i < j < self.size_distribution@.len()
                ==> self.size_distribution@[i].0 < self.size_distribution@[j].0
    }

    /// A fresh profiler: no events, all counters zero, recording enabled.
    pub fn new() -> (r: Self)
        ensures
            r.wf(),
            r.is_enabled(),
            r.allocations_seq().len() == 0,
            r.deallocations_seq().len() == 0,
            r.gc_events_seq().len() == 0,
            r.types_map() == Map::<Seq<char>, u64>::empty(),
            r.dist_seq().len() == 0,
            r.stats_model() == (MemoryStats {
                total_allocations: 0u64,
                total_deallocations: 0u64,
                current_usage: 0usize,
                peak_usage: 0usize,
                total_bytes_allocated: 0u64,
                total_bytes_freed: 0u64,
                avg_lifetime_millis: 0u64,
                gc_count: 0u64,
                total_gc_time_millis: 0u64,
            }),
    {
        MemoryProfiler {
            allocations: Vec::new(),
            deallocations: Vec::new(),
            gc_events: Vec::new(),
            current_usage: 0,
            peak_usage: 0,
            total_bytes_allocated: 0,
            total_bytes_freed: 0,
            gc_count: 0,
            total_gc_time: 0,
            total_allocations: 0,
            total_deallocations: 0,
            allocation_types: NameMap::new(),
            size_distribution: Vec::new(),
            enabled: true,
        }
    }

    /// Records an allocation of unknown size.
    pub fn record_allocation(&mut self, id: u64, allocation_type: &str)
        requires
            old(self).wf(),
        ensures
            final(self).wf(),
            !old(self).is_enabled() ==> *final(self) == *old(self),
            old(self).is_enabled() ==> {
                &&& final(self).allocations_seq().len() == old(self).allocations_seq().len() + 1
                &&& final(self).allocations_seq().drop_last() == old(self).allocations_seq()
                &&& final(self).allocations_seq().last().id == id
                &&& final(self).allocations_seq().last().size == 0
                &&& final(self).allocations_seq().last().allocation_type@ == allocation_type@
                &&& final(self).types_map() == old(self).types_map().insert(
                    allocation_type@,
                    sat_add64(type_count(old(self).types_map(), allocation_type@), 1),
                )
                &&& final(self).stats_model() == (MemoryStats {
                    total_allocations: sat_add64(old(self).stats_model().total_allocations, 1),
                    ..old(self).stats_model()
                })
                &&& final(self).deallocations_seq() == old(self).deallocations_seq()
                &&& final(self).gc_events_seq() == old(self).gc_events_seq()
                &&& final(self).dist_seq() == old(self).dist_seq()
                &&& final(self).is_enabled()
            },
    {
        if !self.enabled {
            return ;
        }
        let ts = now_millis();
        let event = AllocationEvent {
            id,
            size: 0,
            allocation_type: allocation_type.to_owned(),
            timestamp: ts,
            stack_trace: None,
        };
        self.allocations.push(event);
        self.bump_type(allocation_type);
        self.total_allocations = self.total_allocations.saturating_add(1);
    }

    /// Records an allocation of a known size: byte counters and the size
    /// distribution are updated as well.
    pub fn record_allocation_with_size(&mut self, id: u64, allocation_type: &str, size: usize)
        requires
            old(self).wf(),
        ensures
            final(self).wf(),
            !old(self).is_enabled() ==> *final(self) == *old(self),
            old(self).is_enabled() ==> {
                &&& final(self).allocations_seq().len() == old(self).allocations_seq().len() + 1
                &&& final(self).allocations_seq().drop_last() == old(self).allocations_seq()
                &&& final(self).allocations_seq().last().id == id
                &&& final(self).allocations_seq().last().size == size
                &&& final(self).allocations_seq().last().allocation_type@ == allocation_type@
                &&& final(self).types_map() == old(self).types_map().insert(
                    allocation_type@,
                    sat_add64(type_count(old(self).types_map(), allocation_type@), 1),
                )
                &&& final(self).stats_model() == (MemoryStats {
                    total_allocations: sat_add64(old(self).stats_model().total_allocations, 1),
                    total_bytes_allocated: sat_add64(
                        old(self).stats_model().total_bytes_allocated,
                        size as u64,
                    ),
                    current_usage: sat_add_usize(old(self).stats_model().current_usage, size),
                    peak_usage: if sat_add_usize(old(self).stats_model().current_usage, size) > old(self).stats_model().peak_usage {
                        sat_add_usize(old(self).stats_model().current_usage, size)
                    } else {
                        old(self).stats_model().peak_usage
                    },
                    ..old(self).stats_model()
                })
                &&& bucket_count(final(self).dist_seq(), spec_size_bucket(size)) == sat_add64(
                    bucket_count(old(self).dist_seq(), spec_size_bucket(size)),
                    1,
                )
                &&& forall|b: usize|
                    b != spec_size_bucket(size) ==> #[trigger] bucket_count(
                        final(self).dist_seq(),
                        b,
                    ) == bucket_count(old(self).dist_seq(), b)
                &&& final(self).deallocations_seq() == old(self).deallocations_seq()
                &&& final(self).gc_events_seq() == old(self).gc_events_seq()
                &&& final(self).is_enabled()
            },
    {
        if !self.enabled {
            return ;
        }
        self.current_usage = self.current_usage.saturating_add(size);
        self.total_bytes_allocated = self.total_bytes_allocated.saturating_add(size as u64);
        if self.current_usage > self.peak_usage {
            self.peak_usage = self.current_usage;
        }
        let bucket = self.get_size_bucket(size);
        self.bump_bucket(bucket);
        let ts = now_millis();
        let event = AllocationEvent {
            id,
            size,
            allocation_type: allocation_type.to_owned(),
            timestamp: ts,
            stack_trace: None,
        };
        self.allocations.push(event);
        self.bump_type(allocation_type);
        self.total_allocations = self.total_allocations.saturating_add(1);
    }

    /// Records a deallocation; the event's lifetime is measured from the
    /// first recorded allocation with the same ID, or zero when none is.
    pub fn record_deallocation(&mut self, id: u64, deallocation_type: &str)
        requires
            old(self).wf(),
        ensures
            final(self).wf(),
            !old(self).is_enabled() ==> *final(self) == *old(self),
            old(self).is_enabled() ==> {
                &&& final(self).deallocations_seq().len() == old(self).deallocations_seq().len()
                    + 1
                &&& final(self).deallocations_seq().drop_last() == old(self).deallocations_seq()
                &&& final(self).deallocations_seq().last().id == id
                &&& final(self).deallocations_seq().last().deallocation_type@
                    == deallocation_type@
                &&& (find_alloc_ts(old(self).allocations_seq(), id) is None)
                    ==> final(self).deallocations_seq().last().lifetime == 0
                &&& final(self).stats_model().total_deallocations == sat_add64(
                    old(self).stats_model().total_deallocations,
                    1,
                )
                &&& final(self).allocations_seq() == old(self).allocations_seq()
                &&& final(self).gc_events_seq() == old(self).gc_events_seq()
                &&& final(self).types_map() == old(self).types_map()
                &&& final(self).dist_seq() == old(self).dist_seq()
                &&& final(self).stats_model().current_usage == old(self).stats_model().current_usage
                &&& final(self).stats_model().total_bytes_freed == old(self).stats_model().total_bytes_freed
                &&& final(self).is_enabled()
            },
    {
        if !self.enabled {
            return ;
        }
        let now = now_millis();
        let lifetime = match self.find_allocation_ts(id) {
            Some(ts) => now.saturating_sub(ts),
            None => 0,
        };
        let event = DeallocationEvent {
            id,
            deallocation_type: deallocation_type.to_owned(),
            timestamp: now,
            lifetime,
        };
        self.deallocations.push(event);
        self.total_deallocations = self.total_deallocations.saturating_add(1);
    }

    /// Records a deallocation of a known size: usage counters are updated
    /// as well.
    pub fn record_deallocation_with_size(&mut self, id: u64, deallocation_type: &str, size: usize)
        requires
            old(self).wf(),
        ensures
            final(self).wf(),
            !old(self).is_enabled() ==> *final(self) == *old(self),
            old(self).is_enabled() ==> {
                &&& final(self).deallocations_seq().len() == old(self).deallocations_seq().len()
                    + 1
                &&& final(self).deallocations_seq().last().id == id
                &&& final(self).stats_model().current_usage == sat_sub_usize(
                    old(self).stats_model().current_usage,
                    size,
                )
                &&& final(self).stats_model().total_bytes_freed == sat_add64(
                    old(self).stats_model().total_bytes_freed,
                    size as u64,
                )
                &&& final(self).stats_model().total_deallocations == sat_add64(
                    old(self).stats_model().total_deallocations,
                    1,
                )
                &&& final(self).allocations_seq() == old(self).allocations_seq()
                &&& final(self).gc_events_seq() == old(self).gc_events_seq()
                &&& final(self).types_map() == old(self).types_map()
                &&& final(self).dist_seq() == old(self).dist_seq()
                &&& final(self).is_enabled()
            },
    {
        if !self.enabled {
            return ;
        }
        self.current_usage = sub_saturating(self.current_usage, size);
        self.total_bytes_freed = self.total_bytes_freed.saturating_add(size as u64);
        self.record_deallocation(id, deallocation_type);
    }

    /// Records a garbage collection: the event counts the allocations that
    /// have not been matched by a deallocation and the bytes still in use.
    pub fn record_gc(&mut self)
        requires
            old(self).wf(),
        ensures
            final(self).wf(),
            !old(self).is_enabled() ==> *final(self) == *old(self),
            old(self).is_enabled() ==> {
                &&& final(self).gc_events_seq().len() == old(self).gc_events_seq().len() + 1
                &&& final(self).gc_events_seq().drop_last() == old(self).gc_events_seq()
                &&& final(self).gc_events_seq().last().objects_collected == sat_sub64(
                    old(self).allocations_seq().len() as u64,
                    old(self).deallocations_seq().len() as u64,
                )
                &&& final(self).gc_events_seq().last().bytes_freed == old(self).stats_model().current_usage as u64
                &&& final(self).stats_model().gc_count == sat_add64(
                    old(self).stats_model().gc_count,
                    1,
                )
                &&& final(self).stats_model().total_gc_time_millis == sat_add64(
                    old(self).stats_model().total_gc_time_millis,
                    final(self).gc_events_seq().last().duration,
                )
                &&& final(self).allocations_seq() == old(self).allocations_seq()
                &&& final(self).deallocations_seq() == old(self).deallocations_seq()
                &&& final(self).types_map() == old(self).types_map()
                &&& final(self).dist_seq() == old(self).dist_seq()
                &&& final(self).stats_model().current_usage == old(self).stats_model().current_usage
                &&& final(self).is_enabled()
            },
    {
        if !self.enabled {
            return ;
        }
        let start = now_millis();
        let objects_collected = (self.allocations.len() as u64).saturating_sub(
            self.deallocations.len() as u64,
        );
        let bytes_freed = self.current_usage as u64;
        let end = now_millis();
        let duration = end.saturating_sub(start);
        let event = GCEvent { objects_collected, bytes_freed, duration, timestamp: end };
        self.gc_events.push(event);
        self.gc_count = self.gc_count.saturating_add(1);
        self.total_gc_time = self.total_gc_time.saturating_add(duration);
    }

    /// The statistics denoted by the current counters.
    pub fn get_stats(&self) -> (r: MemoryStats)
        ensures
            r == self.stats_model(),
    {
        let avg_lifetime_millis = if self.total_deallocations > 0 {
            self.sum_recorded_lifetimes() / self.total_deallocations
        } else {
            0
        };
        MemoryStats {
            total_allocations: self.total_allocations,
            total_deallocations: self.total_deallocations,
            current_usage: self.current_usage,
            peak_usage: self.peak_usage,
            total_bytes_allocated: self.total_bytes_allocated,
            total_bytes_freed: self.total_bytes_freed,
            avg_lifetime_millis,
            gc_count: self.gc_count,
            total_gc_time_millis: self.total_gc_time,
        }
    }

    /// The per-type allocation counters, as name/count entries.
    pub fn get_allocation_types(&self) -> (r: &NameMap<u64>)
        ensures
            r@ == self.types_map(),
    {
        &self.allocation_types
    }

    /// The size-bucket counters, ordered by bucket.
    pub fn get_size_distribution(&self) -> (r: &Vec<(usize, u64)>)
        ensures
            r@ == self.dist_seq(),
    {
        &self.size_distribution
    }

    /// Turns event recording on or off.
    pub fn set_enabled(&mut self, enabled: bool)
        requires
            old(self).wf(),
        ensures
            final(self).wf(),
            final(self).is_enabled() == enabled,
            final(self).allocations_seq() == old(self).allocations_seq(),
            final(self).deallocations_seq() == old(self).deallocations_seq(),
            final(self).gc_events_seq() == old(self).gc_events_seq(),
            final(self).types_map() == old(self).types_map(),
            final(self).dist_seq() == old(self).dist_seq(),
            final(self).stats_model() == old(self).stats_model(),
    {
        self.enabled = enabled;
    }

    /// Clears all recorded events and counters; recording stays as it was.
    pub fn clear(&mut self)
        requires
            old(self).wf(),
        ensures
            final(self).wf(),
            final(self).is_enabled() == old(self).is_enabled(),
            final(self).allocations_seq().len() == 0,
            final(self).deallocations_seq().len() == 0,
            final(self).gc_events_seq().len() == 0,
            final(self).types_map() == Map::<Seq<char>, u64>::empty(),
            final(self).dist_seq().len() == 0,
            final(self).stats_model() == (MemoryStats {
                total_allocations: 0u64,
                total_deallocations: 0u64,
                current_usage: 0usize,
                peak_usage: 0usize,
                total_bytes_allocated: 0u64,
                total_bytes_freed: 0u64,
                avg_lifetime_millis: 0u64,
                gc_count: 0u64,
                total_gc_time_millis: 0u64,
            }),
    {
        self.allocations.clear();
        self.deallocations.clear();
        self.gc_events.clear();
        self.allocation_types = NameMap::new();
        self.size_distribution.clear();
        self.current_usage = 0;
        self.peak_usage = 0;
        self.total_bytes_allocated = 0;
        self.total_bytes_freed = 0;
        self.gc_count = 0;
        self.total_gc_time = 0;
        self.total_allocations = 0;
        self.total_deallocations = 0;
    }

    /// The size bucket that a byte count falls into.
    pub fn get_size_bucket(&self, size: usize) -> (r: usize)
        ensures
            r == spec_size_bucket(size),
    {
        if size <= 64 {
            64
        } else if size <= 256 {
            256
        } else if size <= 1024 {
            1024
        } else if size <= 4096 {
            4096
        } else if size <= 16384 {
            16384
        } else {
            65536
        }
    }

    /// Renders a memory usage report.
    pub fn generate_report(&self) -> (r: String)
        ensures
            r@ == spec_report(*self),
    {
        let stats = self.get_stats();
        let mut r = "Memory Profiler Report\n=====================\nTotal Allocations: ".to_owned();
        r.append(u64_to_dec(stats.total_allocations).as_str());
        r.append("\nTotal Deallocations: ");
        r.append(u64_to_dec(stats.total_deallocations).as_str());
        r.append("\nCurrent Usage: ");
        r.append(u64_to_dec(stats.current_usage as u64).as_str());
        r.append(" bytes\nPeak Usage: ");
        r.append(u64_to_dec(stats.peak_usage as u64).as_str());
        r.append(" bytes\nTotal Bytes Allocated: ");
        r.append(u64_to_dec(stats.total_bytes_allocated).as_str());
        r.append("\nTotal Bytes Freed: ");
        r.append(u64_to_dec(stats.total_bytes_freed).as_str());
        r.append("\nAverage Lifetime: ");
        r.append(u64_to_dec(stats.avg_lifetime_millis).as_str());
        r.append(" ms\nGC Count: ");
        r.append(u64_to_dec(stats.gc_count).as_str());
        r.append("\nTotal GC Time: ");
        r.append(u64_to_dec(stats.total_gc_time_millis).as_str());
        r.append(" ms\n\nAllocation Types:\n");
        let types = self.format_allocation_types();
        r.append(types.as_str());
        r.append("\nSize Distribution:\n");
        let dist = self.format_size_distribution();
        r.append(dist.as_str());
        r
    }

    /// Renders the per-type allocation counters, one `  name: count` line
    /// each, in table order.
    fn format_allocation_types(&self) -> (r: String)
        ensures
            r@ == fmt_type_entries(self.allocation_types.entries_seq()),
    {
        let mut r = String::new();
        let n = self.allocation_types.len();
        let mut i: usize = 0;
        while i < n
            invariant
                n == self.allocation_types.entries_seq().len(),
                i <= n,
                r@ == fmt_type_entries(self.allocation_types.entries_seq().take(i as int)),
            decreases n - i,
        {
            r.append("  ");
            r.append(self.allocation_types.key_at(i).as_str());
            r.append(": ");
            r.append(u64_to_dec(*self.allocation_types.value_at(i)).as_str());
            r.append("\n");
            proof {
                let entries = self.allocation_types.entries_seq();
                assert(entries.take(i + 1int).drop_last() =~= entries.take(i as int));
                assert(entries.take(i + 1int).last() == entries[i as int]);
            }
            i = i + 1;
        }
        proof {
            assert(self.allocation_types.entries_seq().take(n as int)
                =~= self.allocation_types.entries_seq());
        }
        r
    }

    /// Renders the size-bucket counters, one `  size bytes: count` line
    /// each, in ascending bucket order.
    fn format_size_distribution(&self) -> (r: String)
        ensures
            r@ == fmt_dist_entries(self.dist_seq()),
    {
        let mut r = String::new();
        let n = self.size_distribution.len();
        let mut i: usize = 0;
        while i < n
            invariant
                n == self.size_distribution@.len(),
                i <= n,
                r@ == fmt_dist_entries(self.size_distribution@.take(i as int)),
            decreases n - i,
        {
            r.append("  ");
            r.append(u64_to_dec(self.size_distribution[i].0 as u64).as_str());
            r.append(" bytes: ");
            r.append(u64_to_dec(self.size_distribution[i].1).as_str());
            r.append("\n");
            proof {
                let entries = self.size_distribution@;
                assert(entries.take(i + 1int).drop_last() =~= entries.take(i as int));
                assert(entries.take(i + 1int).last() == entries[i as int]);
            }
            i = i + 1;
        }
        proof {
            assert(self.size_distribution@.take(n as int) =~= self.size_distribution@);
        }
        r
    }

    /// The timestamp of the first recorded allocation with the given ID.
    fn find_allocation_ts(&self, id: u64) -> (r: Option<u64>)
        ensures
            r == find_alloc_ts(self.allocations@, id),
    {
        let n = self.allocations.len();
        let mut i: usize = 0;
        proof {
            assert(self.allocations@.skip(0) =~= self.allocations@);
        }
        while i < n
            invariant
                n == self.allocations@.len(),
                i <= n,
                find_alloc_ts(self.allocations@, id) == find_alloc_ts(
                    self.allocations@.skip(i as int),
                    id,
                ),
            decreases n - i,
        {
            proof {
                assert(self.allocations@.skip(i as int)[0] == self.allocations@[i as int]);
                assert(self.allocations@.skip(i as int).drop_first() =~= self.allocations@.skip(
                    i + 1int,
                ));
            }
            if self.allocations[i].id == id {
                return Some(self.allocations[i].timestamp);
            }
            i = i + 1;
        }
        proof {
            assert(self.allocations@.skip(n as int) =~= Seq::<AllocationEvent>::empty());
        }
        None
    }

    /// The saturating sum of the recorded lifetimes.
    fn sum_recorded_lifetimes(&self) -> (r: u64)
        ensures
            r == sum_lifetimes(self.deallocations@),
    {
        let n = self.deallocations.len();
        let mut acc: u64 = 0;
        let mut i: usize = 0;
        while i < n
            invariant
                n == self.deallocations@.len(),
                i <= n,
                acc == sum_lifetimes(self.deallocations@.take(i as int)),
            decreases n - i,
        {
            acc = acc.saturating_add(self.deallocations[i].lifetime);
            proof {
                assert(self.deallocations@.take(i + 1int).drop_last() =~= self.deallocations@.take(
                    i as int,
                ));
                assert(self.deallocations@.take(i + 1int).last() == self.deallocations@[i as int]);
            }
            i = i + 1;
        }
        proof {
            assert(self.deallocations@.take(n as int) =~= self.deallocations@);
        }
        acc
    }

    /// Bumps the counter of an allocation type, saturating.
    fn bump_type(&mut self, allocation_type: &str)
        requires
            old(self).wf(),
        ensures
            final(self).wf(),
            final(self).types_map() == old(self).types_map().insert(
                allocation_type@,
                sat_add64(type_count(old(self).types_map(), allocation_type@), 1),
            ),
            final(self).allocations_seq() == old(self).allocations_seq(),
            final(self).deallocations_seq() == old(self).deallocations_seq(),
            final(self).gc_events_seq() == old(self).gc_events_seq(),
            final(self).dist_seq() == old(self).dist_seq(),
            final(self).stats_model() == old(self).stats_model(),
            final(self).is_enabled() == old(self).is_enabled(),
    {
        let prev: u64 = match self.allocation_types.get(allocation_type) {
            Some(c) => *c,
            None => 0,
        };
        self.allocation_types.insert(allocation_type.to_owned(), prev.saturating_add(1));
    }

    /// Bumps the counter of a size bucket, saturating, keeping the entries
    /// sorted by bucket.
    fn bump_bucket(&mut self, bucket: usize)
        requires
            old(self).wf(),
        ensures
            final(self).wf(),
            bucket_count(final(self).dist_seq(), bucket) == sat_add64(
                bucket_count(old(self).dist_seq(), bucket),
                1,
            ),
            forall|b: usize|
                b != bucket ==> #[trigger] bucket_count(final(self).dist_seq(), b) == bucket_count(
                    old(self).dist_seq(),
                    b,
                ),
            final(self).allocations_seq() == old(self).allocations_seq(),
            final(self).deallocations_seq() == old(self).deallocations_seq(),
            final(self).gc_events_seq() == old(self).gc_events_seq(),
            final(self).types_map() == old(self).types_map(),
            final(self).stats_model() == old(self).stats_model(),
            final(self).is_enabled() == old(self).is_enabled(),
    {
        let n = self.size_distribution.len();
        let mut i: usize = 0;
        while i < n
            invariant
                self == old(self),
                old(self).wf(),
                n == self.size_distribution@.len(),
                i <= n,
                forall|j: int| 0 <= j < i ==> self.size_distribution@[j].0 < bucket,
            decreases n - i,
        {
            let entry = (self.size_distribution[i].0, self.size_distribution[i].1);
            if entry.0 == bucket {
                let ghost old_dist = self.size_distribution@;
                self.size_distribution.set(i, (bucket, entry.1.saturating_add(1)));
                proof {
                    assert(old(self).wf());
                    lemma_bucket_count_update(old_dist, i as int, sat_add64(old_dist[i as int].1, 1));
                    assert(self.size_distribution@ =~= old_dist.update(
                        i as int,
                        (old_dist[i as int].0, sat_add64(old_dist[i as int].1, 1)),
                    ));
                    assert(forall|k: int|
                        0 <= k < self.size_distribution@.len()
                            ==> self.size_distribution@[k].0 == old_dist[k].0);
                }
                return ;
            }
            if entry.0 > bucket {
                let ghost old_dist = self.size_distribution@;
                proof {
                    assert(old(self).wf());
                    assert forall|j: int| i <= j < old_dist.len() implies bucket
                        < old_dist[j].0 by {
                        assert(old_dist[i as int].0 <= old_dist[j].0);
                    }
                }
                self.size_distribution.insert(i, (bucket, 1));
                proof {
                    lemma_bucket_count_insert(old_dist, i as int, bucket);
                    let inserted = old_dist.insert(i as int, (bucket, 1u64));
                    assert(self.size_distribution@ =~= inserted);
                    assert forall|p: int, q: int|
                        0 <= p < q < inserted.len() implies inserted[p].0 < inserted[q].0 by {
                        if q < i {
                        } else if p < i && q == i {
                        } else if p < i && q > i {
                            assert(inserted[q] == old_dist[q - 1]);
                        } else if p == i {
                            assert(inserted[q] == old_dist[q - 1]);
                        } else {
                            assert(inserted[p] == old_dist[p - 1]);
                            assert(inserted[q] == old_dist[q - 1]);
                        }
                    }
                }
                return ;
            }
            i = i + 1;
        }
        let ghost old_dist = self.size_distribution@;
        proof {
            assert(old(self).wf());
        }
        self.size_distribution.push((bucket, 1));
        proof {
            lemma_bucket_count_insert(old_dist, n as int, bucket);
            assert(old_dist.insert(n as int, (bucket, 1u64)) =~= self.size_distribution@);
            let inserted = self.size_distribution@;
            assert forall|p: int, q: int|
                0 <= p < q < inserted.len() implies inserted[p].0 < inserted[q].0 by {
                if q == inserted.len() - 1 {
                    assert(inserted[p] == old_dist[p]);
                } else {
                    assert(inserted[p] == old_dist[p]);
                    assert(inserted[q] == old_dist[q]);
                }
            }
        }
    }
}

/// The per-type counter lines of the report, in table order.
pub open spec fn fmt_type_entries(entries: Seq<(String, u64)>) -> Seq<char>
    decreases entries.len(),
{
    if entries.len() == 0 {
        Seq::empty()
    } else {
        fmt_type_entries(entries.drop_last()) + "  "@ + entries.last().0@ + ": "@ + u64_dec(
            entries.last().1 as nat,
        ) + "\n"@
    }
}

/// The size-bucket lines of the report, in ascending bucket order.
pub open spec fn fmt_dist_entries(entries: Seq<(usize, u64)>) -> Seq<char>
    decreases entries.len(),
{
    if entries.len() == 0 {
        Seq::empty()
    } else {
        fmt_dist_entries(entries.drop_last()) + "  "@ + u64_dec(entries.last().0 as nat)
            + " bytes: "@ + u64_dec(entries.last().1 as nat) + "\n"@
    }
}

/// The report promised by [`MemoryProfiler::generate_report`].
pub closed spec fn spec_report(p: MemoryProfiler) -> Seq<char> {
    let stats = p.stats_model();
    "Memory Profiler Report\n=====================\nTotal Allocations: "@ + u64_dec(
        stats.total_allocations as nat,
    ) + "\nTotal Deallocations: "@ + u64_dec(stats.total_deallocations as nat)
        + "\nCurrent Usage: "@ + u64_dec(stats.current_usage as nat) + " bytes\nPeak Usage: "@
        + u64_dec(stats.peak_usage as nat) + " bytes\nTotal Bytes Allocated: "@ + u64_dec(
        stats.total_bytes_allocated as nat,
    ) + "\nTotal Bytes Freed: "@ + u64_dec(stats.total_bytes_freed as nat)
        + "\nAverage Lifetime: "@ + u64_dec(stats.avg_lifetime_millis as nat) + " ms\nGC Count: "@
        + u64_dec(stats.gc_count as nat) + "\nTotal GC Time: "@ + u64_dec(
        stats.total_gc_time_millis as nat,
    ) + " ms\n\nAllocation Types:\n"@ + fmt_type_entries(p.allocation_types.entries_seq())
        + "\nSize Distribution:\n"@ + fmt_dist_entries(p.size_distribution@)
}

/// The counter held for an allocation type, zero when absent.
pub open spec fn type_count(m: Map<Seq<char>, u64>, ty: Seq<char>) -> u64 {
    if m.contains_key(ty) {
        m[ty]
    } else {
        0u64
    }
}

/// The counter held for a size bucket, zero when absent.
pub open spec fn bucket_count(dist: Seq<(usize, u64)>, bucket: usize) -> u64
    decreases dist.len(),
{
    if dist.len() == 0 {
        0u64
    } else if dist[0].0 == bucket {
        dist[0].1
    } else {
        bucket_count(dist.drop_first(), bucket)
    }
}

/// Saturating subtraction on `usize` (which std spells `saturating_sub`).
fn sub_saturating(a: usize, b: usize) -> (r: usize)
    ensures
        r == sat_sub_usize(a, b),
{
    if a >= b {
        a - b
    } else {
        0
    }
}

/// Updating the count of entry `i` changes only that entry's bucket count
/// in a sorted, duplicate-free distribution.
proof fn lemma_bucket_count_update(dist: Seq<(usize, u64)>, i: int, c: u64)
    requires
        0 <= i < dist.len(),
        forall|p: int, q: int| 0 <= p < q < dist.len() ==> dist[p].0 < dist[q].0,
    ensures
        bucket_count(dist, dist[i].0) == dist[i].1,
        bucket_count(dist.update(i, (dist[i].0, c)), dist[i].0) == c,
        forall|b: usize|
            b != dist[i].0 ==> #[trigger] bucket_count(dist.update(i, (dist[i].0, c)), b)
                == bucket_count(dist, b),
    decreases dist.len(),
{
    let updated = dist.update(i, (dist[i].0, c));
    if i == 0 {
        assert(updated.drop_first() =~= dist.drop_first());
        assert(updated[0] == (dist[0].0, c));
        assert forall|b: usize| b != dist[0].0 implies #[trigger] bucket_count(updated, b)
            == bucket_count(dist, b) by {
            assert(bucket_count(updated, b) == bucket_count(updated.drop_first(), b));
            assert(bucket_count(dist, b) == bucket_count(dist.drop_first(), b));
        }
    } else {
        let dd = dist.drop_first();
        assert forall|p: int, q: int| 0 <= p < q < dd.len() implies dd[p].0 < dd[q].0 by {
            assert(dd[p] == dist[p + 1]);
            assert(dd[q] == dist[q + 1]);
        }
        lemma_bucket_count_update(dd, i - 1, c);
        assert(updated.drop_first() =~= dd.update(i - 1, (dist[i].0, c)));
        assert(updated[0] == dist[0]);
        assert(dd[i - 1] == dist[i]);
        assert(dist[0].0 < dist[i].0);
        assert(bucket_count(updated, dist[i].0) == bucket_count(updated.drop_first(), dist[i].0));
        assert forall|b: usize| b != dist[i].0 implies #[trigger] bucket_count(updated, b)
            == bucket_count(dist, b) by {
            if b == dist[0].0 {
                assert(bucket_count(updated, b) == updated[0].1);
                assert(bucket_count(dist, b) == dist[0].1);
            } else {
                assert(bucket_count(updated, b) == bucket_count(updated.drop_first(), b));
                assert(bucket_count(dist, b) == bucket_count(dd, b));
            }
        }
    }
}

/// Inserting a fresh bucket entry with count one raises that bucket's
/// count from zero and leaves every other bucket's count unchanged.
proof fn lemma_bucket_count_insert(dist: Seq<(usize, u64)>, i: int, bucket: usize)
    requires
        0 <= i <= dist.len(),
        forall|j: int| 0 <= j < dist.len() ==> dist[j].0 != bucket,
    ensures
        bucket_count(dist, bucket) == 0u64,
        bucket_count(dist.insert(i, (bucket, 1u64)), bucket) == 1u64,
        forall|b: usize|
            b != bucket ==> #[trigger] bucket_count(dist.insert(i, (bucket, 1u64)), b)
                == bucket_count(dist, b),
    decreases dist.len(),
{
    lemma_bucket_count_absent(dist, bucket);
    let inserted = dist.insert(i, (bucket, 1u64));
    if i == 0 {
        assert(inserted.drop_first() =~= dist);
        assert(inserted[0] == (bucket, 1u64));
        assert forall|b: usize| b != bucket implies #[trigger] bucket_count(inserted, b)
            == bucket_count(dist, b) by {
            assert(bucket_count(inserted, b) == bucket_count(inserted.drop_first(), b));
        }
    } else {
        let dd = dist.drop_first();
        assert forall|j: int| 0 <= j < dd.len() implies dd[j].0 != bucket by {
            assert(dd[j] == dist[j + 1]);
        }
        lemma_bucket_count_insert(dd, i - 1, bucket);
        assert(inserted[0] == dist[0]);
        assert(inserted.drop_first() =~= dd.insert(i - 1, (bucket, 1u64)));
        assert(dist[0].0 != bucket);
        assert(bucket_count(inserted, bucket) == bucket_count(inserted.drop_first(), bucket));
        assert forall|b: usize| b != bucket implies #[trigger] bucket_count(inserted, b)
            == bucket_count(dist, b) by {
            if b == dist[0].0 {
                assert(bucket_count(inserted, b) == inserted[0].1);
                assert(bucket_count(dist, b) == dist[0].1);
            } else {
                assert(bucket_count(inserted, b) == bucket_count(inserted.drop_first(), b));
                assert(bucket_count(dist, b) == bucket_count(dd, b));
            }
        }
    }
}

/// A bucket that no entry carries has count zero.
proof fn lemma_bucket_count_absent(dist: Seq<(usize, u64)>, bucket: usize)
    requires
        forall|j: int| 0 <= j < dist.len() ==> dist[j].0 != bucket,
    ensures
        bucket_count(dist, bucket) == 0u64,
    decreases dist.len(),
{
    if dist.len() > 0 {
        assert forall|j: int| 0 <= j < dist.drop_first().len() implies dist.drop_first()[j].0
            != bucket by {
            assert(dist.drop_first()[j] == dist[j + 1]);
        }
        lemma_bucket_count_absent(dist.drop_first(), bucket);
    }
}

} // verus!
