use bottom::process::{ProcessData, ProcessHarvest};

fn proc(pid: i32, parent_pid: Option<i32>) -> ProcessHarvest<f64> {
    ProcessHarvest {
        pid,
        parent_pid,
        name: format!("p{pid}"),
        command: format!("/bin/p{pid}"),
        cpu_usage_percent: 0.0,
        mem_usage_percent: 0.0,
        mem_usage_bytes: 0,
    }
}

#[test]
fn orphan_promotion() {
    let mut pd = ProcessData::new();
    pd.ingest(vec![proc(2, Some(1)), proc(3, Some(99))]);
    assert!(pd.orphan_pids.contains(&2));
    assert!(pd.orphan_pids.contains(&3));
    assert_eq!(pd.orphan_pids, vec![2, 3]);
}

#[test]
fn ingest_builds_children_and_orphans() {
    let mut pd = ProcessData::new();
    pd.ingest(vec![
        proc(1, None),
        proc(5, Some(1)),
        proc(3, Some(1)),
        proc(7, Some(5)),
        proc(9, Some(42)),
    ]);
    assert_eq!(pd.process_harvest.len(), 5);
    assert_eq!(pd.process_harvest[&7].parent_pid, Some(5));
    // Children are listed in list order.
    assert_eq!(pd.children_of(1), Some(&vec![5, 3]));
    assert_eq!(pd.children_of(5), Some(&vec![7]));
    assert_eq!(pd.children_of(42), Some(&vec![9]));
    assert_eq!(pd.children_of(3), None);
    // Orphans in increasing order: no parent, or a parent not in the table.
    assert_eq!(pd.orphan_pids, vec![1, 9]);
}

#[test]
fn ingest_replaces_previous_tick() {
    let mut pd = ProcessData::new();
    pd.ingest(vec![proc(1, None), proc(2, Some(1))]);
    pd.ingest(vec![proc(2, Some(1))]);
    assert_eq!(pd.process_harvest.len(), 1);
    assert_eq!(pd.children_of(1), Some(&vec![2]));
    assert_eq!(pd.orphan_pids, vec![2]);
}

#[test]
fn ingest_keeps_last_record_of_a_pid() {
    let mut pd = ProcessData::new();
    pd.ingest(vec![proc(1, None), proc(4, Some(1)), proc(4, None)]);
    assert_eq!(pd.process_harvest.len(), 2);
    assert_eq!(pd.process_harvest[&4].parent_pid, None);
    assert_eq!(pd.orphan_pids, vec![1, 4]);
    assert_eq!(pd.children_of(1), Some(&vec![4]));
}

#[test]
fn ingest_empty_list() {
    let mut pd: ProcessData<f64> = ProcessData::new();
    pd.ingest(vec![]);
    assert!(pd.process_harvest.is_empty());
    assert!(pd.orphan_pids.is_empty());
    assert_eq!(pd.children_of(1), None);
}
