//! The aggregate that each harvested snapshot is fed into: the latest reading
//! of every metric, its history, disk I/O rates and the process table.

use crate::harvest::{
    io_entries, BatteryData, CpuData, Data, DiskHarvest, IoData, IoHarvest, MemHarvest, NetworkHarvest, TempHarvest,
};
use crate::process::{child_lists, ProcessData};
use crate::series::TimeSeriesData;
use vstd::prelude::*;

verus! {

/// What follows the last `/` of `s`, or all of `s` when it has none.
pub open spec fn last_segment(s: Seq<char>) -> Seq<char>
    decreases s.len(),
{
    if s.len() == 0 {
        s
    } else if s.last() == '/' {
        Seq::empty()
    } else {
        last_segment(s.drop_last()).push(s.last())
    }
}

/// Relies on `str::rsplit_once`: the part of `s` after its last `/`, or all
/// of `s` when it has none.
#[verifier::external_body]
fn device_name(s: &str) -> (r: String)
    ensures
        r@ == last_segment(s@),
{
    match s.rsplit_once('/') {
        Some((_, tail)) => tail.to_string(),
        None => s.to_string(),
    }
}

/// A byte rate over `elapsed_ms` milliseconds, in bytes per second rounded
/// to the nearest integer and capped at `u64::MAX`; over no time at all it
/// is 0 for no bytes and `u64::MAX` otherwise.
pub open spec fn io_rate(delta: u64, elapsed_ms: u64) -> u64 {
    if elapsed_ms == 0 {
        if delta == 0 {
            0
        } else {
            u64::MAX
        }
    } else {
        let r = (delta * 1000 + elapsed_ms / 2) / elapsed_ms as int;
        if r > u64::MAX {
            u64::MAX
        } else {
            r as u64
        }
    }
}

/// The byte rate of `delta` bytes over `elapsed_ms` milliseconds.
pub fn rate(delta: u64, elapsed_ms: u64) -> (r: u64)
    ensures
        r == io_rate(delta, elapsed_ms),
{
    if elapsed_ms == 0 {
        if delta == 0 {
            0
        } else {
            u64::MAX
        }
    } else {
        proof {
            assert((delta as int) * 1000 <= 18446744073709551615 * 1000) by (nonlinear_arith)
                requires
                    delta <= 18446744073709551615,
            ;
        }
        let x: u128 = (delta as u128) * 1000 + (elapsed_ms as u128) / 2;
        let q: u128 = x / (elapsed_ms as u128);
        if q > u64::MAX as u128 {
            u64::MAX
        } else {
            q as u64
        }
    }
}

/// What the I/O label of a disk slot shows.
#[derive(Clone, Copy, PartialEq, Eq, Structural)]
pub enum IoLabel {
    /// Nothing measured yet.
    Unset,
    /// The disk has no I/O counters.
    Unavailable,
    /// Read and write rates, in bytes per second.
    Rate(u64, u64),
}

/// A disk slot: the last read and write rates, then the counters they were
/// measured from.
pub type IoSlot = ((u64, u64), (u64, u64));

/// `s` extended with `fill` up to length `n`, if it is shorter.
pub open spec fn grown<T>(s: Seq<T>, n: int, fill: T) -> Seq<T> {
    if s.len() >= n {
        s
    } else {
        s + Seq::new((n - s.len()) as nat, |_i: int| fill)
    }
}

/// The slots and labels after the disk at position `itx` was matched to
/// `found` (its counters, or `None` when no entry is listed under its name),
/// `elapsed_ms` after the previous harvest. Both are first extended up to
/// position `itx`, with empty slots and unset labels, so that each disk keeps
/// its position. A disk with an entry gets, as rates, its counters less those
/// of its slot (at least 0; its counters themselves when the slot is empty),
/// and its slot keeps the counters; a device listed without counters counts
/// as zero. A disk without an entry is marked unavailable, its slot kept.
pub open spec fn io_step(
    slots: Seq<Option<IoSlot>>,
    labels: Seq<IoLabel>,
    itx: int,
    found: Option<Option<IoData>>,
    elapsed_ms: u64,
) -> (Seq<Option<IoSlot>>, Seq<IoLabel>) {
    let slots1 = grown(slots, itx + 1, None);
    let labels1 = grown(labels, itx + 1, IoLabel::Unset);
    match found {
        Some(d) => {
            let counters = match d {
                Some(x) => (x.read_bytes, x.write_bytes),
                None => (0u64, 0u64),
            };
            let prev = match slots1[itx] {
                Some(slot) => slot.1,
                None => counters,
            };
            let rr = io_rate(counters.0.saturating_sub(prev.0), elapsed_ms);
            let wr = io_rate(counters.1.saturating_sub(prev.1), elapsed_ms);
            (slots1.update(itx, Some(((rr, wr), counters))), labels1.update(itx, IoLabel::Rate(rr, wr)))
        },
        None => (slots1, labels1.update(itx, IoLabel::Unavailable)),
    }
}

/// The slots and labels after the first `upto` disks of `disks` were
/// matched, by the last `/`-segment of their names, against `io`.
pub open spec fn io_fold(
    slots: Seq<Option<IoSlot>>,
    labels: Seq<IoLabel>,
    disks: Seq<DiskHarvest>,
    io: Map<Seq<char>, Option<IoData>>,
    elapsed_ms: u64,
    upto: int,
) -> (Seq<Option<IoSlot>>, Seq<IoLabel>)
    decreases upto,
{
    if upto <= 0 {
        (slots, labels)
    } else {
        let before = io_fold(slots, labels, disks, io, elapsed_ms, upto - 1);
        let name = last_segment(disks[upto - 1].name@);
        io_step(
            before.0,
            before.1,
            upto - 1,
            if io.contains_key(name) {
                Some(io[name])
            } else {
                None
            },
            elapsed_ms,
        )
    }
}

/// Extends `v` with `fill` up to length `n`.
fn grow<T: Copy>(v: &mut Vec<T>, n: usize, fill: T)
    ensures
        final(v)@ == grown(old(v)@, n as int, fill),
{
    let ghost start = v@;
    while v.len() < n
        invariant
            start.len() <= v@.len(),
            v@.len() <= n || v@.len() == start.len(),
            v@ =~= start + Seq::new((v@.len() - start.len()) as nat, |_i: int| fill),
        decreases n - v@.len(),
    {
        v.push(fill);
    }
    proof {
        if start.len() >= n {
            assert(v@ =~= start);
        }
    }
}

/// Updates the disk I/O `slots` and `labels` from `disks` and `io`,
/// harvested `elapsed_ms` after the previous harvest: each disk, by position,
/// is matched by the last `/`-segment of its name against the counters of
/// `io`.
fn eat_disks(
    slots: &mut Vec<Option<IoSlot>>,
    labels: &mut Vec<IoLabel>,
    disks: &Vec<DiskHarvest>,
    io: &IoHarvest,
    elapsed_ms: u64,
)
    ensures
        (final(slots)@, final(labels)@) == io_fold(
            old(slots)@,
            old(labels)@,
            disks@,
            io_entries(*io),
            elapsed_ms,
            disks@.len() as int,
        ),
{
    let mut itx: usize = 0;
    while itx < disks.len()
        invariant
            itx <= disks@.len(),
            (slots@, labels@) == io_fold(old(slots)@, old(labels)@, disks@, io_entries(*io), elapsed_ms, itx as int),
        decreases disks@.len() - itx,
    {
        let name = device_name(disks[itx].name.as_str());
        let found = io.counters_of(name.as_str());
        grow(slots, itx + 1, None);
        grow(labels, itx + 1, IoLabel::Unset);
        match found {
            Some(d) => {
                let counters = match d {
                    Some(x) => (x.read_bytes, x.write_bytes),
                    None => (0u64, 0u64),
                };
                let prev = match slots[itx] {
                    Some(slot) => slot.1,
                    None => counters,
                };
                let rr = rate(counters.0.saturating_sub(prev.0), elapsed_ms);
                let wr = rate(counters.1.saturating_sub(prev.1), elapsed_ms);
                slots.set(itx, Some(((rr, wr), counters)));
                labels.set(itx, IoLabel::Rate(rr, wr));
            },
            None => {
                labels.set(itx, IoLabel::Unavailable);
            },
        }
        itx = itx + 1;
    }
}

/// A memory reading of an empty pool.
fn empty_mem() -> (r: MemHarvest)
    ensures
        r.used_bytes == 0 && r.total_bytes == 0,
{
    MemHarvest { used_bytes: 0, total_bytes: 0 }
}

/// A network reading of no traffic.
fn empty_network() -> (r: NetworkHarvest)
    ensures
        r.rx == 0 && r.tx == 0 && r.total_rx == 0 && r.total_tx == 0,
{
    NetworkHarvest { rx: 0, tx: 0, total_rx: 0, total_tx: 0 }
}

/// Everything collected so far: the latest reading of each metric for
/// display now, the history of each for graphing, disk I/O rates and the
/// process table. `F` is the type of fractional readings.
pub struct DataCollection<F> {
    /// When the last snapshot was taken, in milliseconds.
    pub current_instant: u64,
    /// The history of every tracked metric.
    pub timeseries_data: TimeSeriesData<F>,
    /// The latest network reading.
    pub network_harvest: NetworkHarvest,
    /// The latest main memory reading.
    pub memory_harvest: MemHarvest,
    /// The latest cache memory reading.
    pub cache_harvest: MemHarvest,
    /// The latest swap reading.
    pub swap_harvest: MemHarvest,
    /// The latest per-CPU readings.
    pub cpu_harvest: Vec<CpuData<F>>,
    /// The latest load averages, once there are any.
    pub load_avg_harvest: Option<[F; 3]>,
    /// The latest process table.
    pub process_data: ProcessData<F>,
    /// The latest disk list.
    pub disk_harvest: Vec<DiskHarvest>,
    /// The latest I/O counters by device name.
    pub io_harvest: IoHarvest,
    /// Per disk slot, by position in the disk list: last rates and counters,
    /// once the disk had counters.
    pub io_labels_and_prev: Vec<Option<IoSlot>>,
    /// Per disk slot: what its I/O label shows.
    pub io_labels: Vec<IoLabel>,
    /// The latest temperature readings.
    pub temp_harvest: Vec<TempHarvest<F>>,
    /// The latest ZFS ARC reading.
    pub arc_harvest: MemHarvest,
    /// The latest GPU memory readings.
    pub gpu_harvest: Vec<(String, MemHarvest)>,
    /// The latest battery readings.
    pub battery_harvest: Vec<BatteryData<F>>,
}

impl<F: Copy> DataCollection<F> {
    /// The history is well formed and its clock is the collection's.
    pub open spec fn wf(&self) -> bool {
        &&& self.timeseries_data.wf()
        &&& self.timeseries_data.current_time == self.current_instant
    }

    /// Nothing collected yet, the clock starting at `now`.
    pub fn new(now: u64) -> (r: Self)
        ensures
            r.wf(),
            r.current_instant == now,
            r.timeseries_data.time_offsets@.len() == 0,
            r.timeseries_data.cpu.entries@.len() == 0,
            r.timeseries_data.gpu_mem.entries@.len() == 0,
            r.timeseries_data.rx.current is None && r.timeseries_data.rx.previous_chunks@.len() == 0,
            r.timeseries_data.tx.current is None && r.timeseries_data.tx.previous_chunks@.len() == 0,
            r.timeseries_data.mem.current is None && r.timeseries_data.mem.previous_chunks@.len() == 0,
            r.timeseries_data.swap.current is None && r.timeseries_data.swap.previous_chunks@.len() == 0,
            r.timeseries_data.cache_mem.current is None && r.timeseries_data.cache_mem.previous_chunks@.len() == 0,
            r.timeseries_data.arc_mem.current is None && r.timeseries_data.arc_mem.previous_chunks@.len() == 0,
            r.network_harvest == empty_network_spec(),
            r.memory_harvest == empty_mem_spec(),
            r.cache_harvest == empty_mem_spec(),
            r.swap_harvest == empty_mem_spec(),
            r.arc_harvest == empty_mem_spec(),
            r.cpu_harvest@.len() == 0,
            r.load_avg_harvest is None,
            r.disk_harvest@.len() == 0,
            io_entries(r.io_harvest) =~= Map::empty(),
            r.io_labels_and_prev@.len() == 0,
            r.io_labels@.len() == 0,
            r.temp_harvest@.len() == 0,
            r.gpu_harvest@.len() == 0,
            r.battery_harvest@.len() == 0,
            r.process_data.process_harvest@.len() == 0,
            r.process_data.orphan_pids@.len() == 0,
    {
        DataCollection {
            current_instant: now,
            timeseries_data: TimeSeriesData::new(now),
            network_harvest: empty_network(),
            memory_harvest: empty_mem(),
            cache_harvest: empty_mem(),
            swap_harvest: empty_mem(),
            cpu_harvest: Vec::new(),
            load_avg_harvest: None,
            process_data: ProcessData::new(),
            disk_harvest: Vec::new(),
            io_harvest: IoHarvest::empty(),
            io_labels_and_prev: Vec::new(),
            io_labels: Vec::new(),
            temp_harvest: Vec::new(),
            arc_harvest: empty_mem(),
            gpu_harvest: Vec::new(),
            battery_harvest: Vec::new(),
        }
    }

    /// Clears the history and the latest readings; the clock, the cache and
    /// load average readings and the I/O labels stay.
    pub fn reset(&mut self)
        requires
            old(self).wf(),
        ensures
            final(self).wf(),
            final(self).current_instant == old(self).current_instant,
            final(self).timeseries_data.time_offsets@.len() == 0,
            final(self).timeseries_data.cpu.entries@.len() == 0,
            final(self).timeseries_data.gpu_mem.entries@.len() == 0,
            final(self).timeseries_data.rx.current is None,
            final(self).timeseries_data.rx.previous_chunks@.len() == 0,
            final(self).timeseries_data.tx.current is None,
            final(self).timeseries_data.tx.previous_chunks@.len() == 0,
            final(self).timeseries_data.mem.current is None,
            final(self).timeseries_data.mem.previous_chunks@.len() == 0,
            final(self).timeseries_data.swap.current is None,
            final(self).timeseries_data.swap.previous_chunks@.len() == 0,
            final(self).timeseries_data.cache_mem.current is None,
            final(self).timeseries_data.cache_mem.previous_chunks@.len() == 0,
            final(self).timeseries_data.arc_mem.current is None,
            final(self).timeseries_data.arc_mem.previous_chunks@.len() == 0,
            final(self).network_harvest == empty_network_spec(),
            final(self).memory_harvest == empty_mem_spec(),
            final(self).swap_harvest == empty_mem_spec(),
            final(self).arc_harvest == empty_mem_spec(),
            final(self).cache_harvest == old(self).cache_harvest,
            final(self).load_avg_harvest == old(self).load_avg_harvest,
            final(self).io_labels == old(self).io_labels,
            final(self).cpu_harvest@.len() == 0,
            final(self).process_data.process_harvest@.len() == 0,
            final(self).process_data.orphan_pids@.len() == 0,
            child_lists(final(self).process_data.process_parent_mapping) =~= Map::empty(),
            final(self).disk_harvest@.len() == 0,
            io_entries(final(self).io_harvest) =~= Map::empty(),
            final(self).io_labels_and_prev@.len() == 0,
            final(self).temp_harvest@.len() == 0,
            final(self).gpu_harvest@.len() == 0,
            final(self).battery_harvest@.len() == 0,
    {
        self.timeseries_data = TimeSeriesData::new(self.current_instant);
        self.network_harvest = empty_network();
        self.memory_harvest = empty_mem();
        self.swap_harvest = empty_mem();
        self.cpu_harvest = Vec::new();
        self.process_data = ProcessData::new();
        self.disk_harvest = Vec::new();
        self.io_harvest = IoHarvest::empty();
        self.io_labels_and_prev = Vec::new();
        self.temp_harvest = Vec::new();
        self.arc_harvest = empty_mem();
        self.gpu_harvest = Vec::new();
        self.battery_harvest = Vec::new();
    }

    /// Drops from the history everything older than `max_time_millis`
    /// before `now`, the current time in milliseconds.
    pub fn clean_data(&mut self, max_time_millis: u64, now: u64)
        requires
            old(self).wf(),
            old(self).current_instant <= now,
        ensures
            final(self).wf(),
            final(self).timeseries_data.pruned_from(&old(self).timeseries_data, now, max_time_millis),
            final(self).current_instant == old(self).current_instant,
            final(self).network_harvest == old(self).network_harvest,
            final(self).memory_harvest == old(self).memory_harvest,
            final(self).cache_harvest == old(self).cache_harvest,
            final(self).swap_harvest == old(self).swap_harvest,
            final(self).arc_harvest == old(self).arc_harvest,
            final(self).cpu_harvest == old(self).cpu_harvest,
            final(self).gpu_harvest == old(self).gpu_harvest,
            final(self).load_avg_harvest == old(self).load_avg_harvest,
            final(self).temp_harvest == old(self).temp_harvest,
            final(self).battery_harvest == old(self).battery_harvest,
            final(self).process_data == old(self).process_data,
            final(self).disk_harvest == old(self).disk_harvest,
            final(self).io_harvest == old(self).io_harvest,
            final(self).io_labels_and_prev == old(self).io_labels_and_prev,
            final(self).io_labels == old(self).io_labels,
    {
        self.timeseries_data.prune_at(now, max_time_millis);
    }

    /// Takes in one snapshot: the latest reading of each metric present is
    /// replaced, the snapshot is added to the history (sealing a gap in each
    /// absent metric), the disk I/O slots are updated when both the disk list
    /// and the I/O counters are present, the process table is rebuilt when
    /// the process list is present, and the clock moves to the snapshot's
    /// time.
    #[verifier::rlimit(40)]
    pub fn eat_data(&mut self, harvested_data: Box<Data<F>>)
        requires
            old(self).wf(),
            old(self).current_instant <= harvested_data.collection_time,
            old(self).timeseries_data.time_offsets@.len() < usize::MAX - 1,
        ensures
            final(self).wf(),
            final(self).current_instant == harvested_data.collection_time,
            final(self).timeseries_data.added_from(&old(self).timeseries_data, &*harvested_data),
            final(self).network_harvest == match harvested_data.network {
                Some(n) => n,
                None => old(self).network_harvest,
            },
            final(self).memory_harvest == match harvested_data.memory {
                Some(m) => m,
                None => old(self).memory_harvest,
            },
            final(self).swap_harvest == match harvested_data.swap {
                Some(m) => m,
                None => old(self).swap_harvest,
            },
            final(self).cache_harvest == match harvested_data.cache {
                Some(m) => m,
                None => old(self).cache_harvest,
            },
            final(self).arc_harvest == match harvested_data.arc {
                Some(m) => m,
                None => old(self).arc_harvest,
            },
            final(self).cpu_harvest == match harvested_data.cpu {
                Some(c) => c,
                None => old(self).cpu_harvest,
            },
            final(self).gpu_harvest == match harvested_data.gpu {
                Some(g) => g,
                None => old(self).gpu_harvest,
            },
            final(self).battery_harvest == match harvested_data.list_of_batteries {
                Some(b) => b,
                None => old(self).battery_harvest,
            },
            final(self).load_avg_harvest == match harvested_data.load_avg {
                Some(l) => Some(l),
                None => old(self).load_avg_harvest,
            },
            final(self).temp_harvest == match harvested_data.temperature_sensors {
                Some(t) => t,
                None => old(self).temp_harvest,
            },
            match (harvested_data.disks, harvested_data.io) {
                (Some(d), Some(i)) => {
                    &&& (final(self).io_labels_and_prev@, final(self).io_labels@) == io_fold(
                        old(self).io_labels_and_prev@,
                        old(self).io_labels@,
                        d@,
                        io_entries(i),
                        (harvested_data.collection_time - old(self).current_instant) as u64,
                        d@.len() as int,
                    )
                    &&& final(self).disk_harvest == d
                    &&& final(self).io_harvest == i
                },
                _ => {
                    &&& final(self).io_labels_and_prev == old(self).io_labels_and_prev
                    &&& final(self).io_labels == old(self).io_labels
                    &&& final(self).disk_harvest == old(self).disk_harvest
                    &&& final(self).io_harvest == old(self).io_harvest
                },
            },
            match harvested_data.list_of_processes {
                Some(ps) => final(self).process_data.built_from(ps@),
                None => final(self).process_data == old(self).process_data,
            },
    {
        let data = *harvested_data;
        self.timeseries_data.add(&data);
        let Data {
            collection_time,
            cpu,
            load_avg,
            memory,
            swap,
            cache,
            arc,
            gpu,
            network,
            temperature_sensors,
            list_of_processes,
            disks,
            io,
            list_of_batteries,
        } = data;
        match (disks, io) {
            (Some(d), Some(i)) => {
                eat_disks(
                    &mut self.io_labels_and_prev,
                    &mut self.io_labels,
                    &d,
                    &i,
                    collection_time - self.current_instant,
                );
                self.disk_harvest = d;
                self.io_harvest = i;
            },
            _ => {},
        }
        if let Some(n) = network {
            self.network_harvest = n;
        }
        if let Some(m) = memory {
            self.memory_harvest = m;
        }
        if let Some(m) = swap {
            self.swap_harvest = m;
        }
        if let Some(m) = cache {
            self.cache_harvest = m;
        }
        if let Some(m) = arc {
            self.arc_harvest = m;
        }
        if let Some(g) = gpu {
            self.gpu_harvest = g;
        }
        if let Some(c) = cpu {
            self.cpu_harvest = c;
        }
        if let Some(l) = load_avg {
            self.load_avg_harvest = Some(l);
        }
        if let Some(b) = list_of_batteries {
            self.battery_harvest = b;
        }
        if let Some(t) = temperature_sensors {
            self.temp_harvest = t;
        }
        if let Some(ps) = list_of_processes {
            self.process_data.ingest(ps);
        }
        self.current_instant = collection_time;
    }
}

/// A memory reading of an empty pool.
pub open spec fn empty_mem_spec() -> MemHarvest {
    MemHarvest { used_bytes: 0, total_bytes: 0 }
}

/// A network reading of no traffic.
pub open spec fn empty_network_spec() -> NetworkHarvest {
    NetworkHarvest { rx: 0, tx: 0, total_rx: 0, total_tx: 0 }
}

} // verus!
