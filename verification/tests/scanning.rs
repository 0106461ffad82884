use port_scanner::scan::ports_for_worker;

#[test]
fn single_worker_gets_whole_range() {
    let ports = ports_for_worker(0, 8000, 8010, 1);
    let expected: Vec<u16> = (8000..8010).collect();
    assert_eq!(ports, expected);
}

#[test]
fn stride_four_deals_two_ports_each() {
    let mut union: Vec<u16> = Vec::new();
    for offset in 0..4 {
        let ports = ports_for_worker(offset, 1, 9, 4);
        assert_eq!(ports.len(), 2);
        assert_eq!(ports, vec![1 + offset, 5 + offset]);
        union.extend(ports);
    }
    union.sort();
    assert_eq!(union, vec![1, 2, 3, 4, 5, 6, 7, 8]);
}

#[test]
fn workers_cover_range_without_overlap() {
    let mut union: Vec<u16> = Vec::new();
    for offset in 0..3 {
        union.extend(ports_for_worker(offset, 20, 31, 3));
    }
    union.sort();
    let expected: Vec<u16> = (20..31).collect();
    assert_eq!(union, expected);
}

#[test]
fn empty_range_gives_no_ports() {
    for offset in 0..5 {
        assert!(ports_for_worker(offset, 8000, 8000, 5).is_empty());
    }
}

#[test]
fn stride_larger_than_range() {
    assert_eq!(ports_for_worker(0, 10, 12, 8), vec![10]);
    assert_eq!(ports_for_worker(1, 10, 12, 8), vec![11]);
    assert_eq!(ports_for_worker(2, 10, 12, 8), Vec::<u16>::new());
}

#[test]
fn range_reaching_the_top_port() {
    let ports = ports_for_worker(0, 65350, 65355, 2);
    assert_eq!(ports, vec![65350, 65352, 65354]);
    let ports = ports_for_worker(1, 65350, 65355, 2);
    assert_eq!(ports, vec![65351, 65353]);
}
