use l3replay::sequence::{
    cross_file_reports, CrossFileReport, Message, SeqChecker, SeqEvent, SeqRange,
};

fn msg(product: &str, sequence: u64) -> Message {
    Message {
        sequence,
        product_id: product.to_string(),
    }
}

#[test]
fn in_order_run() {
    let mut checker = SeqChecker::new();
    assert_eq!(SeqEvent::NewProduct, checker.update(&msg("A", 1)));
    assert_eq!(SeqEvent::InOrder, checker.update(&msg("A", 2)));
    assert_eq!(SeqEvent::InOrder, checker.update(&msg("A", 3)));
    let ranges = checker.into_ranges();
    assert_eq!(1, ranges.len());
    assert_eq!("A", ranges[0].0);
    assert_eq!(SeqRange { begin: 1, end: 3 }, ranges[0].1);
}

#[test]
fn skipped_numbers() {
    let mut checker = SeqChecker::new();
    assert_eq!(SeqEvent::NewProduct, checker.update(&msg("A", 1)));
    assert_eq!(SeqEvent::Skipped { last: 1, next: 3 }, checker.update(&msg("A", 3)));
    let ranges = checker.into_ranges();
    assert_eq!(SeqRange { begin: 1, end: 3 }, ranges[0].1);
}

#[test]
fn products_tracked_independently() {
    let mut checker = SeqChecker::new();
    assert_eq!(SeqEvent::NewProduct, checker.update(&msg("A", 10)));
    assert_eq!(SeqEvent::NewProduct, checker.update(&msg("B", 7)));
    assert_eq!(SeqEvent::InOrder, checker.update(&msg("A", 11)));
    assert_eq!(SeqEvent::InOrder, checker.update(&msg("B", 8)));
    let ranges = checker.into_ranges();
    assert_eq!(2, ranges.len());
    assert_eq!(("A".to_string(), SeqRange { begin: 10, end: 11 }), ranges[0]);
    assert_eq!(("B".to_string(), SeqRange { begin: 7, end: 8 }), ranges[1]);
}

#[test]
fn cross_file_contiguous() {
    let files = vec![
        vec![("A".to_string(), SeqRange { begin: 1, end: 10 })],
        vec![("A".to_string(), SeqRange { begin: 11, end: 20 })],
    ];
    assert!(cross_file_reports(&files).is_empty());
}

#[test]
fn cross_file_gap() {
    let files = vec![
        vec![("A".to_string(), SeqRange { begin: 1, end: 10 })],
        vec![("A".to_string(), SeqRange { begin: 12, end: 20 })],
    ];
    let reports = cross_file_reports(&files);
    assert_eq!(1, reports.len());
    assert_eq!(
        CrossFileReport::Gap {
            second_file: 1,
            product: "A".to_string(),
            end_seq: 10,
            begin_seq: 12,
        },
        reports[0]
    );
}

#[test]
fn cross_file_new_and_terminated() {
    let files = vec![
        vec![("A".to_string(), SeqRange { begin: 1, end: 10 })],
        vec![("B".to_string(), SeqRange { begin: 1, end: 5 })],
    ];
    let reports = cross_file_reports(&files);
    assert_eq!(2, reports.len());
    assert_eq!(
        CrossFileReport::Terminated { second_file: 1, product: "A".to_string() },
        reports[0]
    );
    assert_eq!(
        CrossFileReport::NewProduct { second_file: 1, product: "B".to_string() },
        reports[1]
    );
}

#[test]
fn cross_file_three_files() {
    let files = vec![
        vec![("A".to_string(), SeqRange { begin: 1, end: 10 })],
        vec![("A".to_string(), SeqRange { begin: 11, end: 30 })],
        vec![("A".to_string(), SeqRange { begin: 40, end: 50 })],
    ];
    let reports = cross_file_reports(&files);
    assert_eq!(1, reports.len());
    assert_eq!(
        CrossFileReport::Gap {
            second_file: 2,
            product: "A".to_string(),
            end_seq: 30,
            begin_seq: 40,
        },
        reports[0]
    );
}
