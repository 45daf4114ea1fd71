use bottom::collection::{rate, DataCollection, IoLabel};
use bottom::harvest::{BatteryData, BatteryState, Data, IoHarvest, DiskHarvest, IoData, MemHarvest, NetworkHarvest};
use bottom::process::ProcessHarvest;

fn snapshot(time: u64) -> Data<f64> {
    Data {
        collection_time: time,
        cpu: None,
        load_avg: None,
        memory: None,
        swap: None,
        cache: None,
        arc: None,
        gpu: None,
        network: None,
        temperature_sensors: None,
        list_of_processes: None,
        disks: None,
        io: None,
        list_of_batteries: None,
    }
}

fn disk(name: &str) -> DiskHarvest {
    DiskHarvest {
        name: name.to_string(),
        mount_point: "/".to_string(),
        free_space: None,
        used_space: None,
        total_space: None,
    }
}

fn io(entries: &[(&str, Option<(u64, u64)>)]) -> IoHarvest {
    IoHarvest::from_entries(
        entries
            .iter()
            .map(|(n, c)| {
                (
                    n.to_string(),
                    c.map(|(r, w)| IoData { read_bytes: r, write_bytes: w }),
                )
            })
            .collect(),
    )
}

#[test]
fn rate_rounds_per_second() {
    assert_eq!(rate(1500, 1000), 1500);
    assert_eq!(rate(1000, 3000), 333);
    assert_eq!(rate(1000, 1500), 667);
    assert_eq!(rate(1, 2000), 1);
    assert_eq!(rate(0, 0), 0);
    assert_eq!(rate(5, 0), u64::MAX);
    assert_eq!(rate(u64::MAX, 1), u64::MAX);
}

#[test]
fn eat_updates_latest_and_history() {
    let mut dc: DataCollection<f64> = DataCollection::new(0);
    let mut d = snapshot(1000);
    d.network = Some(NetworkHarvest { rx: 5, tx: 6, total_rx: 50, total_tx: 60 });
    d.memory = Some(MemHarvest { used_bytes: 1, total_bytes: 2 });
    d.load_avg = Some([0.5, 0.25, 0.125]);
    dc.eat_data(Box::new(d));
    assert_eq!(dc.current_instant, 1000);
    assert_eq!(dc.network_harvest.total_rx, 50);
    assert_eq!(dc.memory_harvest.used_bytes, 1);
    assert_eq!(dc.load_avg_harvest, Some([0.5, 0.25, 0.125]));
    assert_eq!(dc.timeseries_data.time_offsets, vec![1000]);
    assert_eq!(dc.timeseries_data.rx.current.as_ref().unwrap().data, vec![5]);
    // An absent metric keeps its latest reading and gets a gap in history.
    dc.eat_data(Box::new(snapshot(2000)));
    assert_eq!(dc.network_harvest.total_rx, 50);
    assert!(dc.timeseries_data.rx.current.is_none());
    assert_eq!(dc.timeseries_data.rx.previous_chunks.len(), 1);
}

#[test]
fn eat_disks_computes_rates_and_labels() {
    let mut dc: DataCollection<f64> = DataCollection::new(0);
    let mut d = snapshot(1000);
    d.disks = Some(vec![disk("/dev/sda1"), disk("/dev/nvme0n1"), disk("/dev/sdb")]);
    d.io = Some(io(&[("sda1", Some((1000, 2000))), ("nvme0n1", None)]));
    dc.eat_data(Box::new(d));
    // First sight: the counters are the baseline, so the rates are 0.
    assert_eq!(dc.io_labels_and_prev[0], Some(((0, 0), (1000, 2000))));
    assert_eq!(dc.io_labels_and_prev[1], Some(((0, 0), (0, 0))));
    assert_eq!(dc.io_labels_and_prev[2], None);
    assert_eq!(dc.io_labels_and_prev.len(), 3);
    assert!(dc.io_labels[0] == IoLabel::Rate(0, 0));
    assert!(dc.io_labels[1] == IoLabel::Rate(0, 0));
    assert!(dc.io_labels[2] == IoLabel::Unavailable);

    let mut d = snapshot(3000);
    d.disks = Some(vec![disk("/dev/sda1"), disk("/dev/nvme0n1"), disk("/dev/sdb")]);
    d.io = Some(io(&[("sda1", Some((5000, 1000))), ("nvme0n1", Some((400, 0)))]));
    dc.eat_data(Box::new(d));
    // 4000 bytes over 2 s; the write counter went back, which counts as 0.
    assert_eq!(dc.io_labels_and_prev[0], Some(((2000, 0), (5000, 1000))));
    assert_eq!(dc.io_labels_and_prev[1], Some(((200, 0), (400, 0))));
    assert!(dc.io_labels[0] == IoLabel::Rate(2000, 0));
    assert!(dc.io_labels[1] == IoLabel::Rate(200, 0));
    assert_eq!(dc.disk_harvest.len(), 3);
    assert!(dc.io_harvest.counters_of("sda1").is_some());
    assert!(dc.io_harvest.counters_of("sdb").is_none());
}

#[test]
fn disk_slots_stay_positional() {
    let mut dc: DataCollection<f64> = DataCollection::new(0);
    // The first disk has no entry, the second one has counters.
    let mut d = snapshot(1000);
    d.disks = Some(vec![disk("/dev/sda"), disk("/dev/sdb")]);
    d.io = Some(io(&[("sdb", Some((100, 100)))]));
    dc.eat_data(Box::new(d));
    assert_eq!(dc.io_labels_and_prev.len(), 2);
    assert_eq!(dc.io_labels_and_prev[0], None);
    assert_eq!(dc.io_labels_and_prev[1], Some(((0, 0), (100, 100))));
    assert!(dc.io_labels[0] == IoLabel::Unavailable);
    // The first disk gets counters later: it starts from its own baseline.
    let mut d = snapshot(2000);
    d.disks = Some(vec![disk("/dev/sda"), disk("/dev/sdb")]);
    d.io = Some(io(&[("sda", Some((7000, 7000))), ("sdb", Some((1100, 100)))]));
    dc.eat_data(Box::new(d));
    assert_eq!(dc.io_labels_and_prev[0], Some(((0, 0), (7000, 7000))));
    assert_eq!(dc.io_labels_and_prev[1], Some(((1000, 0), (1100, 100))));
}

#[test]
fn io_harvest_later_entry_wins() {
    let h = io(&[("sda", Some((1, 1))), ("sda", None)]);
    assert_eq!(h.counters_of("sda"), Some(None));
    assert_eq!(h.counters_of("sdz"), None);
}

#[test]
fn eat_processes_builds_table() {
    let mut dc: DataCollection<f64> = DataCollection::new(0);
    let mut d = snapshot(10);
    d.list_of_processes = Some(vec![ProcessHarvest {
        pid: 4,
        parent_pid: Some(1),
        name: "a".to_string(),
        command: "a".to_string(),
        cpu_usage_percent: 1.0,
        mem_usage_percent: 2.0,
        mem_usage_bytes: 3,
    }]);
    dc.eat_data(Box::new(d));
    assert_eq!(dc.process_data.orphan_pids, vec![4]);
    assert_eq!(dc.process_data.children_of(1), Some(&vec![4]));
}

#[test]
fn clean_data_prunes_history() {
    let mut dc: DataCollection<f64> = DataCollection::new(0);
    for t in [1000, 2000, 3000] {
        let mut d = snapshot(t);
        d.network = Some(NetworkHarvest { rx: t, tx: t, total_rx: 0, total_tx: 0 });
        dc.eat_data(Box::new(d));
    }
    dc.clean_data(1500, 3000);
    assert_eq!(dc.timeseries_data.time_offsets.len(), 2);
    assert_eq!(dc.timeseries_data.rx.current.as_ref().unwrap().data, vec![2000, 3000]);
    // Measured against the time given, not the last snapshot.
    dc.clean_data(1500, 4000);
    assert_eq!(dc.timeseries_data.time_offsets.len(), 1);
    assert_eq!(dc.timeseries_data.rx.current.as_ref().unwrap().data, vec![3000]);
}

#[test]
fn reset_clears_history_and_latest() {
    let mut dc: DataCollection<f64> = DataCollection::new(0);
    let mut d = snapshot(1000);
    d.network = Some(NetworkHarvest { rx: 1, tx: 1, total_rx: 1, total_tx: 1 });
    d.cache = Some(MemHarvest { used_bytes: 3, total_bytes: 9 });
    dc.eat_data(Box::new(d));
    dc.reset();
    assert_eq!(dc.current_instant, 1000);
    assert!(dc.timeseries_data.time_offsets.is_empty());
    assert!(dc.timeseries_data.rx.current.is_none());
    assert_eq!(dc.network_harvest.total_rx, 0);
    assert_eq!(dc.cache_harvest.used_bytes, 3);
}

#[test]
fn eat_keeps_latest_battery_readings() {
    let mut dc: DataCollection<f64> = DataCollection::new(0);
    let mut d = snapshot(10);
    d.list_of_batteries = Some(vec![BatteryData {
        charge_percent: 80.0,
        power_consumption_rate_watts: 7.5,
        secs_until_full: None,
        secs_until_empty: Some(3600),
        health_percent: 95.0,
        state: BatteryState::Discharging,
    }]);
    dc.eat_data(Box::new(d));
    assert_eq!(dc.battery_harvest.len(), 1);
    assert_eq!(dc.battery_harvest[0].secs_until_empty, Some(3600));
    dc.eat_data(Box::new(snapshot(20)));
    assert_eq!(dc.battery_harvest.len(), 1);
    dc.reset();
    assert!(dc.battery_harvest.is_empty());
}
