use bottom::harvest::{CpuData, CpuDataType, Data, MemHarvest, NetworkHarvest};
use bottom::series::TimeSeriesData;

fn snapshot(time: u64) -> Data<f64> {
    Data {
        collection_time: time,
        cpu: None,
        load_avg: None,
        memory: None,
        swap: None,
        cache: None,
        arc: None,
        gpu: None,
        network: None,
        temperature_sensors: None,
        list_of_processes: None,
        disks: None,
        io: None,
        list_of_batteries: None,
    }
}

fn net(rx: u64, tx: u64) -> NetworkHarvest {
    NetworkHarvest { rx, tx, total_rx: 0, total_tx: 0 }
}

fn cpus(usages: &[f64]) -> Vec<CpuData<f64>> {
    usages
        .iter()
        .enumerate()
        .map(|(i, u)| CpuData { data_type: CpuDataType::Cpu(i), cpu_usage: *u })
        .collect()
}

#[test]
fn add_records_axis_and_ledger() {
    let mut ts: TimeSeriesData<f64> = TimeSeriesData::new(1000);
    let mut d = snapshot(1250);
    d.network = Some(net(10, 20));
    ts.add(&d);
    let mut d = snapshot(2250);
    d.network = Some(net(11, 21));
    ts.add(&d);
    assert_eq!(ts.current_time, 2250);
    assert_eq!(ts.time_offsets, vec![250, 1000]);
    assert_eq!(ts.offset_ranges, vec![(1250, 0, 1), (2250, 1, 2)]);
    let rx = ts.rx.current.as_ref().unwrap();
    assert_eq!((rx.start_offset, rx.end_offset), (0, 2));
    assert_eq!(rx.data, vec![10, 11]);
    assert_eq!(ts.tx.current.as_ref().unwrap().data, vec![20, 21]);
}

#[test]
fn absent_metric_seals_a_gap() {
    let mut ts: TimeSeriesData<f64> = TimeSeriesData::new(0);
    let mut d = snapshot(10);
    d.memory = Some(MemHarvest { used_bytes: 1, total_bytes: 4 });
    ts.add(&d);
    ts.add(&snapshot(20));
    let mut d = snapshot(30);
    // A pool without a size has no percentage: also a gap.
    d.memory = Some(MemHarvest { used_bytes: 0, total_bytes: 0 });
    ts.add(&d);
    let mut d = snapshot(40);
    d.memory = Some(MemHarvest { used_bytes: 2, total_bytes: 4 });
    ts.add(&d);
    assert_eq!(ts.mem.previous_chunks.len(), 1);
    let sealed = &ts.mem.previous_chunks[0];
    assert_eq!((sealed.start_offset, sealed.end_offset), (0, 1));
    let c = ts.mem.current.as_ref().unwrap();
    assert_eq!((c.start_offset, c.end_offset), (3, 4));
    assert_eq!(c.data[0].used_bytes, 2);
}

#[test]
fn cores_are_tracked_by_position() {
    let mut ts: TimeSeriesData<f64> = TimeSeriesData::new(0);
    let mut d = snapshot(10);
    d.cpu = Some(cpus(&[1.0]));
    ts.add(&d);
    let mut d = snapshot(20);
    d.cpu = Some(cpus(&[2.0, 5.0]));
    ts.add(&d);
    assert_eq!(ts.cpu.entries.len(), 2);
    assert_eq!(ts.cpu.entries[0].0, 0);
    assert_eq!(ts.cpu.entries[0].1.current.as_ref().unwrap().data, vec![1.0, 2.0]);
    assert_eq!(ts.cpu.entries[1].0, 1);
    let c = ts.cpu.entries[1].1.current.as_ref().unwrap();
    assert_eq!((c.start_offset, c.end_offset), (1, 2));
    assert_eq!(c.data, vec![5.0]);
    // A core missing from a tick gets a gap.
    let mut d = snapshot(30);
    d.cpu = Some(cpus(&[3.0]));
    ts.add(&d);
    assert!(ts.cpu.entries[1].1.current.is_none());
    assert_eq!(ts.cpu.entries[1].1.previous_chunks.len(), 1);
}

#[test]
fn gpus_are_tracked_by_position() {
    let mut ts: TimeSeriesData<f64> = TimeSeriesData::new(0);
    let mut d = snapshot(10);
    d.gpu = Some(vec![("gpu0".to_string(), MemHarvest { used_bytes: 3, total_bytes: 8 })]);
    ts.add(&d);
    assert_eq!(ts.gpu_mem.entries.len(), 1);
    assert_eq!(ts.gpu_mem.entries[0].1.current.as_ref().unwrap().data[0].used_bytes, 3);
}

#[test]
fn prune_drops_stale_ticks_and_rebases() {
    let mut ts: TimeSeriesData<f64> = TimeSeriesData::new(0);
    for t in [100, 200, 300, 400, 500] {
        let mut d = snapshot(t);
        d.network = Some(net(t, t));
        ts.add(&d);
    }
    // Now is 500: ages are 400, 300, 200, 100, 0.
    ts.prune(250);
    assert_eq!(ts.time_offsets, vec![100, 100, 100]);
    assert_eq!(ts.offset_ranges, vec![(300, 0, 1), (400, 1, 2), (500, 2, 3)]);
    let rx = ts.rx.current.as_ref().unwrap();
    assert_eq!((rx.start_offset, rx.end_offset), (0, 3));
    assert_eq!(rx.data, vec![300, 400, 500]);
    // An age equal to the limit is not stale.
    ts.prune(100);
    assert_eq!(ts.offset_ranges, vec![(400, 0, 1), (500, 1, 2)]);
    assert_eq!(ts.rx.current.as_ref().unwrap().data, vec![400, 500]);
    // Nothing stale: nothing changes.
    ts.prune(1000);
    assert_eq!(ts.time_offsets.len(), 2);
    assert_eq!(ts.current_time, 500);
}

#[test]
fn prune_rebases_late_series_and_drops_empty_ones() {
    let mut ts: TimeSeriesData<f64> = TimeSeriesData::new(0);
    let mut d = snapshot(100);
    d.cpu = Some(cpus(&[1.0, 2.0]));
    ts.add(&d);
    let mut d = snapshot(200);
    d.cpu = Some(cpus(&[3.0]));
    d.network = Some(net(7, 8));
    ts.add(&d);
    let mut d = snapshot(300);
    d.cpu = Some(cpus(&[4.0]));
    d.network = Some(net(9, 9));
    ts.add(&d);
    ts.prune(150);
    // The first tick is stale: core 1 had only that sample and is dropped.
    assert_eq!(ts.cpu.entries.len(), 1);
    assert_eq!(ts.cpu.entries[0].0, 0);
    assert_eq!(ts.cpu.entries[0].1.current.as_ref().unwrap().data, vec![3.0, 4.0]);
    // The network series began after the boundary and is moved down.
    let rx = ts.rx.current.as_ref().unwrap();
    assert_eq!((rx.start_offset, rx.end_offset), (0, 2));
    // It keeps taking samples at the right index.
    let mut d = snapshot(400);
    d.network = Some(net(1, 1));
    ts.add(&d);
    let rx = ts.rx.current.as_ref().unwrap();
    assert_eq!((rx.start_offset, rx.end_offset), (0, 3));
    assert_eq!(rx.data, vec![7, 9, 1]);
}

#[test]
fn store_prune_twice_removes_nothing_more() {
    let mut ts: TimeSeriesData<f64> = TimeSeriesData::new(0);
    for t in [100, 200, 300, 400] {
        let mut d = snapshot(t);
        d.network = Some(net(t, t));
        d.cpu = Some(cpus(&[t as f64]));
        ts.add(&d);
    }
    ts.prune_at(450, 200);
    assert_eq!(ts.time_offsets.len(), 2);
    let rx_before = ts.rx.current.as_ref().unwrap().data.clone();
    let cpu_before = ts.cpu.entries[0].1.current.as_ref().unwrap().data.clone();
    ts.prune_at(450, 200);
    assert_eq!(ts.time_offsets.len(), 2);
    assert_eq!(ts.rx.current.as_ref().unwrap().data, rx_before);
    assert_eq!(ts.cpu.entries[0].1.current.as_ref().unwrap().data, cpu_before);
}
