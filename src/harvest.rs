//! The records that the harvester hands over once per tick.

use crate::process::ProcessHarvest;
use vstd::prelude::*;

verus! {

/// Network throughput and totals, in bits.
#[derive(Clone, Copy)]
pub struct NetworkHarvest {
    /// Receive rate.
    pub rx: u64,
    /// Transmit rate.
    pub tx: u64,
    /// Total received.
    pub total_rx: u64,
    /// Total transmitted.
    pub total_tx: u64,
}

/// Used and total size of a memory pool, in bytes.
#[derive(Clone, Copy)]
pub struct MemHarvest {
    /// Bytes in use.
    pub used_bytes: u64,
    /// Size of the pool.
    pub total_bytes: u64,
}

impl MemHarvest {
    /// Whether a usage percentage is defined: the pool has a size.
    pub fn has_percent(&self) -> (r: bool)
        ensures
            r == (self.total_bytes > 0),
    {
        self.total_bytes > 0
    }
}

/// Which CPU a reading is of.
#[derive(Clone, Copy)]
pub enum CpuDataType {
    /// The average over all cores.
    Avg,
    /// The core with this index.
    Cpu(usize),
}

/// One CPU usage reading; `F` is the type of fractional readings.
pub struct CpuData<F> {
    /// Which CPU.
    pub data_type: CpuDataType,
    /// Usage, in percent.
    pub cpu_usage: F,
}

/// One temperature sensor reading.
pub struct TempHarvest<F> {
    /// The sensor's name.
    pub name: String,
    /// The temperature, in the configured unit.
    pub temperature: F,
}

/// One mounted disk.
pub struct DiskHarvest {
    /// The device name, such as `/dev/sda1`.
    pub name: String,
    /// Where it is mounted.
    pub mount_point: String,
    /// Free bytes, if known.
    pub free_space: Option<u64>,
    /// Used bytes, if known.
    pub used_space: Option<u64>,
    /// Total bytes, if known.
    pub total_space: Option<u64>,
}

/// Cumulative I/O counters of one device, in bytes.
#[derive(Clone, Copy, Debug, PartialEq, Eq, Structural)]
pub struct IoData {
    /// Bytes read since boot.
    pub read_bytes: u64,
    /// Bytes written since boot.
    pub write_bytes: u64,
}

/// I/O counters by device name, held in a `hashbrown::HashMap`; a device
/// may be listed without counters.
#[verifier::external_body]
pub struct IoHarvest {
    map: hashbrown::HashMap<String, Option<IoData>>,
}

/// The counters that an [`IoHarvest`] holds, by device name.
pub uninterp spec fn io_entries(m: IoHarvest) -> Map<Seq<char>, Option<IoData>>;

/// The map holding `entries`, a later entry of a name replacing an earlier
/// one.
pub open spec fn entries_map(entries: Seq<(String, Option<IoData>)>) -> Map<Seq<char>, Option<IoData>>
    decreases entries.len(),
{
    if entries.len() == 0 {
        Map::empty()
    } else {
        entries_map(entries.drop_last()).insert(entries.last().0@, entries.last().1)
    }
}

impl IoHarvest {
    /// Relies on `hashbrown::HashMap::new`: the new map is empty.
    #[verifier::external_body]
    pub(crate) fn empty() -> (r: Self)
        ensures
            io_entries(r) =~= Map::empty(),
    {
        IoHarvest { map: hashbrown::HashMap::new() }
    }

    /// Relies on `hashbrown::HashMap::insert`: `name` maps to `counters`
    /// afterwards, and every other entry stays.
    #[verifier::external_body]
    fn insert(&mut self, name: String, counters: Option<IoData>)
        ensures
            io_entries(*final(self)) == io_entries(*old(self)).insert(name@, counters),
    {
        self.map.insert(name, counters);
    }

    /// Relies on `hashbrown::HashMap::get`: the counters listed under
    /// `name`, if the map has an entry for it.
    #[verifier::external_body]
    fn get(&self, name: &str) -> (r: Option<Option<IoData>>)
        ensures
            match r {
                Some(c) => io_entries(*self).contains_key(name@) && c == io_entries(*self)[name@],
                None => !io_entries(*self).contains_key(name@),
            },
    {
        self.map.get(name).copied()
    }

    /// A map of the given entries, a later entry of a name replacing an
    /// earlier one.
    pub fn from_entries(entries: Vec<(String, Option<IoData>)>) -> (r: Self)
        ensures
            io_entries(r) == entries_map(entries@),
    {
        let mut r = IoHarvest::empty();
        let mut i: usize = 0;
        while i < entries.len()
            invariant
                i <= entries@.len(),
                io_entries(r) == entries_map(entries@.subrange(0, i as int)),
            decreases entries@.len() - i,
        {
            proof {
                assert(entries@.subrange(0, i + 1).drop_last() =~= entries@.subrange(0, i as int));
            }
            let name = entries[i].0.clone();
            r.insert(name, entries[i].1);
            i = i + 1;
        }
        proof {
            assert(entries@.subrange(0, entries@.len() as int) =~= entries@);
        }
        r
    }

    /// The counters listed under `name`: `None` when the map has no entry
    /// for it.
    pub fn counters_of(&self, name: &str) -> (r: Option<Option<IoData>>)
        ensures
            match r {
                Some(c) => io_entries(*self).contains_key(name@) && c == io_entries(*self)[name@],
                None => !io_entries(*self).contains_key(name@),
            },
    {
        self.get(name)
    }
}

/// Whether a battery is charging.
#[derive(Clone, Copy, Debug, PartialEq, Eq, Structural)]
pub enum BatteryState {
    /// Being charged.
    Charging,
    /// Being drained.
    Discharging,
    /// Empty.
    Empty,
    /// Full.
    Full,
    /// Not known.
    Unknown,
}

/// One battery reading; `F` is the type of fractional readings.
pub struct BatteryData<F> {
    /// Charge, in percent.
    pub charge_percent: F,
    /// Power drawn or supplied, in watts.
    pub power_consumption_rate_watts: F,
    /// Seconds until full, when charging.
    pub secs_until_full: Option<i64>,
    /// Seconds until empty, when discharging.
    pub secs_until_empty: Option<i64>,
    /// Health, in percent of the design capacity.
    pub health_percent: F,
    /// Whether it is charging.
    pub state: BatteryState,
}

/// One snapshot of the system, taken at `collection_time` (milliseconds on a
/// monotonic clock). A metric that could not be read this tick is `None`.
pub struct Data<F> {
    /// When the snapshot was taken, in milliseconds.
    pub collection_time: u64,
    /// Per-CPU usage, the position in the list being the series key.
    pub cpu: Option<Vec<CpuData<F>>>,
    /// Load averages over one, five and fifteen minutes.
    pub load_avg: Option<[F; 3]>,
    /// Main memory.
    pub memory: Option<MemHarvest>,
    /// Swap.
    pub swap: Option<MemHarvest>,
    /// Cache memory.
    pub cache: Option<MemHarvest>,
    /// ZFS ARC memory.
    pub arc: Option<MemHarvest>,
    /// GPU memory by device, the position in the list being the series key.
    pub gpu: Option<Vec<(String, MemHarvest)>>,
    /// Network.
    pub network: Option<NetworkHarvest>,
    /// Temperature sensors.
    pub temperature_sensors: Option<Vec<TempHarvest<F>>>,
    /// The process list.
    pub list_of_processes: Option<Vec<ProcessHarvest<F>>>,
    /// Mounted disks.
    pub disks: Option<Vec<DiskHarvest>>,
    /// I/O counters by device name.
    pub io: Option<IoHarvest>,
    /// Batteries.
    pub list_of_batteries: Option<Vec<BatteryData<F>>>,
}

} // verus!
