use port_scanner::render::report_line;
use port_scanner::report::build_report;
use port_scanner::scan::ports_for_worker;

#[test]
fn report_sorts_what_was_found() {
    let found = vec![7u16, 2, 5];
    assert_eq!(build_report(&found), vec![2, 5, 7]);
}

#[test]
fn report_of_nothing_is_empty() {
    assert_eq!(build_report(&Vec::new()), Vec::<u16>::new());
}

#[test]
fn report_does_not_depend_on_arrival_order() {
    let one = build_report(&vec![5u16, 2, 7]);
    let two = build_report(&vec![7u16, 5, 2]);
    assert_eq!(one, two);
    assert_eq!(one, vec![2, 5, 7]);
}

#[test]
fn report_keeps_repeated_entries() {
    assert_eq!(build_report(&vec![3u16, 1, 3]), vec![1, 3, 3]);
}

#[test]
fn report_line_shows_port_in_decimal() {
    assert_eq!(report_line(8005), "8005 is open!");
    assert_eq!(report_line(0), "0 is open!");
    assert_eq!(report_line(65535), "65535 is open!");
    assert_eq!(report_line(10), "10 is open!");
}

#[test]
fn one_worker_finding_one_port() {
    let assigned = ports_for_worker(0, 8000, 8010, 1);
    let open = [8005u16];
    let found: Vec<u16> = assigned
        .into_iter()
        .filter(|p| open.contains(p))
        .collect();
    let report = build_report(&found);
    assert_eq!(report, vec![8005]);
    assert_eq!(report_line(report[0]), "8005 is open!");
}

#[test]
fn four_workers_finding_three_ports() {
    let open = [2u16, 5, 7];
    let mut found: Vec<u16> = Vec::new();
    for offset in (0..4).rev() {
        for p in ports_for_worker(offset, 1, 9, 4) {
            if open.contains(&p) {
                found.push(p);
            }
        }
    }
    assert_eq!(build_report(&found), vec![2, 5, 7]);
}
