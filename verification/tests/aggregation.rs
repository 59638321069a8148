use rowagg::engine::{aggregate, aggregate_claimed};
use rowagg::records::Records;
use rowagg::table::Table;
use rowagg::AggError;

fn table_entries(t: &Table) -> Vec<(Vec<u8>, Records)> {
    let mut out = Vec::new();
    let n = t.num_keys();
    let mut i = 0;
    while i < n {
        out.push((t.key_at(i).clone(), t.stats_at(i)));
        i += 1;
    }
    out
}

fn tables_equal(a: &Table, b: &Table) -> bool {
    if a.num_keys() != b.num_keys() {
        return false;
    }
    for (k, r) in table_entries(a) {
        match b.get(k.as_slice()) {
            Some(rb) => {
                if rb != r {
                    return false;
                }
            }
            None => return false,
        }
    }
    true
}

#[test]
fn three_records_end_to_end() {
    let data = b"A;3.0\nB;1.5\nA;5.0\n";
    let t = aggregate(data, 1).expect("well-formed input");
    assert_eq!(t.num_keys(), 2);

    let a = t.get(b"A".as_slice()).expect("key A present");
    assert_eq!(a.count, 2);
    assert_eq!(a.min, 30);
    assert_eq!(a.max, 50);
    assert_eq!(a.sum, 80);
    assert_eq!(a.mean(), 40);

    let b = t.get(b"B".as_slice()).expect("key B present");
    assert_eq!(b.count, 1);
    assert_eq!(b.min, 15);
    assert_eq!(b.max, 15);
    assert_eq!(b.sum, 15);
    assert_eq!(b.mean(), 15);

    // the formatted report renders each statistic with one decimal place
    let fmt = |v: i32| format!("{}{}.{}", if v < 0 { "-" } else { "" }, v.abs() / 10, v.abs() % 10);
    let line_a = format!("A={}/{}/{}", fmt(a.min), fmt(a.mean()), fmt(a.max));
    let line_b = format!("B={}/{}/{}", fmt(b.min), fmt(b.mean()), fmt(b.max));
    assert_eq!(line_a, "A=3.0/4.0/5.0");
    assert_eq!(line_b, "B=1.5/1.5/1.5");
}

#[test]
fn report_rows_carry_all_statistics() {
    let data = b"A;3.0\nB;1.5\nA;5.0\n";
    let t = aggregate(data, 2).unwrap();
    let mut rows = t.report_rows();
    rows.sort_unstable_by(|a, b| a.0.cmp(&b.0));
    assert_eq!(rows.len(), 2);
    assert_eq!(rows[0], (b"A".to_vec(), 30, 40, 50));
    assert_eq!(rows[1], (b"B".to_vec(), 15, 15, 15));
}

#[test]
fn worker_counts_agree() {
    let data = b"A;3.0\nB;1.5\nA;5.0\nC;-0.5\nB;2.5\nA;0.0\n";
    let t1 = aggregate(data, 1).unwrap();
    let t2 = aggregate(data, 2).unwrap();
    let t5 = aggregate(data, 5).unwrap();
    let t9 = aggregate(data, 9).unwrap();
    assert!(tables_equal(&t1, &t2));
    assert!(tables_equal(&t1, &t5));
    assert!(tables_equal(&t1, &t9));
}

#[test]
fn split_then_merge_equals_whole() {
    let whole = b"A;3.0\nB;1.5\nA;5.0\n";
    // split at the record boundary after the first line
    let left = &whole[..6];
    let right = &whole[6..];
    let mut tl = aggregate(left, 1).unwrap();
    let tr = aggregate(right, 1).unwrap();
    tl.merge_from(&tr);
    let tw = aggregate(whole, 1).unwrap();
    assert!(tables_equal(&tl, &tw));
}

#[test]
fn missing_delimiter_fails_whole_run() {
    assert!(matches!(aggregate(b"A3.0\n", 1), Err(AggError::Format)));
    assert!(matches!(aggregate(b"A;3.0\nB1.5\nC;2.0\n", 2), Err(AggError::Format)));
}

#[test]
fn malformed_value_fails_whole_run() {
    assert!(matches!(aggregate(b"A;3.x\n", 1), Err(AggError::Format)));
    assert!(matches!(aggregate(b"A;1234.5\n", 1), Err(AggError::Format)));
    assert!(matches!(aggregate(b"A;3\n", 1), Err(AggError::Format)));
    assert!(matches!(aggregate(b"A;\n", 1), Err(AggError::Format)));
}

#[test]
fn unterminated_tail_fails_whole_run() {
    assert!(matches!(aggregate(b"A;3.0\nB;1.5", 1), Err(AggError::Format)));
}

#[test]
fn empty_line_fails_whole_run() {
    assert!(matches!(aggregate(b"A;3.0\n\nB;1.5\n", 1), Err(AggError::Format)));
}

#[test]
fn empty_input_gives_empty_table() {
    let t = aggregate(b"", 3).unwrap();
    assert_eq!(t.num_keys(), 0);
    assert!(t.get(b"A".as_slice()).is_none());
}

#[test]
fn claimed_aggregation_matches_static() {
    let data = b"A;3.0\nB;1.5\nA;5.0\nC;-0.5\nB;2.5\n";
    let ts = aggregate(data, 3).unwrap();
    for chunk_size in [1usize, 4, 7, 100] {
        let td = aggregate_claimed(data, chunk_size, 64).unwrap();
        assert!(tables_equal(&ts, &td));
    }
}

#[test]
fn claimed_aggregation_reports_alignment_distinctly() {
    // the second claim lands mid-line and the margin is shorter than the line
    let data = b"AAAAAAAAAA;1.0\nB;2.0\n";
    assert!(matches!(aggregate_claimed(data, 5, 2), Err(AggError::Alignment)));
    // a generous margin succeeds on the same input
    assert!(aggregate_claimed(data, 5, 64).is_ok());
    // a format error stays a format error under claiming
    assert!(matches!(aggregate_claimed(b"A3.0\n", 4, 64), Err(AggError::Format)));
}
