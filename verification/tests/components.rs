use rowagg::parser::parse_ascii_digits;
use rowagg::planner::{align_chunk, find_next_newline, plan_chunks};
use rowagg::records::Records;
use rowagg::scan::scan_ascii_chunk;
use rowagg::AggError;

#[test]
fn parser_exact_values() {
    assert_eq!(parse_ascii_digits(b"3.0"), Some(30));
    assert_eq!(parse_ascii_digits(b"0.0"), Some(0));
    assert_eq!(parse_ascii_digits(b"12.3"), Some(123));
    assert_eq!(parse_ascii_digits(b"999.9"), Some(9999));
    assert_eq!(parse_ascii_digits(b"-0.1"), Some(-1));
    assert_eq!(parse_ascii_digits(b"-99.9"), Some(-999));
    assert_eq!(parse_ascii_digits(b"-999.9"), Some(-9999));
}

#[test]
fn parser_rejects_bad_format() {
    assert_eq!(parse_ascii_digits(b""), None);
    assert_eq!(parse_ascii_digits(b"3"), None);
    assert_eq!(parse_ascii_digits(b"3."), None);
    assert_eq!(parse_ascii_digits(b".5"), None);
    assert_eq!(parse_ascii_digits(b"-.5"), None);
    assert_eq!(parse_ascii_digits(b"1.23"), None);
    assert_eq!(parse_ascii_digits(b"1234.5"), None);
    assert_eq!(parse_ascii_digits(b"1,5"), None);
    assert_eq!(parse_ascii_digits(b"a.b"), None);
    assert_eq!(parse_ascii_digits(b"--1.0"), None);
    assert_eq!(parse_ascii_digits(b"1.0 "), None);
}

#[test]
fn newline_search() {
    let data = b"ab\ncd\nef";
    assert_eq!(find_next_newline(0, data), Some(3));
    assert_eq!(find_next_newline(3, data), Some(6));
    assert_eq!(find_next_newline(6, data), None);
    assert_eq!(find_next_newline(0, b"abc"), None);
}

#[test]
fn static_plan_covers_indivisible_sizes() {
    let data = b"aa;1.0\nbb;2.0\ncc;3.0\n";
    for workers in 1..=8usize {
        let chunks = plan_chunks(data, workers);
        assert_eq!(chunks.len(), workers);
        assert_eq!(chunks[0].start, 0);
        assert_eq!(chunks[workers - 1].end, data.len());
        for i in 0..workers {
            let c = &chunks[i];
            assert!(c.start <= c.end && c.end <= data.len());
            // every boundary sits on a record boundary
            assert!(c.start == 0 || c.start == data.len() || data[c.start - 1] == b'\n');
            assert!(c.end == 0 || c.end == data.len() || data[c.end - 1] == b'\n');
            if i + 1 < workers {
                assert_eq!(c.end, chunks[i + 1].start);
            }
        }
    }
}

#[test]
fn chunk_alignment_at_every_offset() {
    let data = b"aa;1.0\nbb;2.0\ncc;3.0\n";
    for offset in 0..=data.len() {
        let c = align_chunk(data, offset, 7, 64).expect("margin is generous");
        assert!(c.start <= c.end && c.end <= data.len());
        assert!(c.start == 0 || data[c.start - 1] == b'\n');
        assert!(c.end == data.len() || data[c.end - 1] == b'\n');
    }
}

#[test]
fn chunk_alignment_error_on_narrow_margin() {
    let data = b"aaaaaaaaaa;1.0\n";
    assert!(matches!(align_chunk(data, 5, 4, 2), Err(AggError::Alignment)));
}

#[test]
fn scanner_on_inner_region() {
    let data = b"X;9.9\nA;1.0\nB;2.0\nY;0.1\n";
    // scan only the two middle records
    let t = scan_ascii_chunk(6, 18, data).expect("aligned region");
    assert_eq!(t.num_keys(), 2);
    assert_eq!(t.get(b"A".as_slice()).unwrap().sum, 10);
    assert_eq!(t.get(b"B".as_slice()).unwrap().sum, 20);
    assert!(t.get(b"X".as_slice()).is_none());
}

#[test]
fn records_accumulate_and_merge() {
    let mut r = Records::from_item(30);
    assert_eq!((r.count, r.min, r.max, r.sum), (1, 30, 30, 30));
    r.update(-15);
    assert_eq!((r.count, r.min, r.max, r.sum), (2, -15, 30, 15));
    let other = Records::from_item(50);
    let m = r.merge(other);
    assert_eq!((m.count, m.min, m.max, m.sum), (3, -15, 50, 65));
}

#[test]
fn mean_rounds_half_away_from_zero() {
    let mut r = Records::from_item(7);
    r.update(8);
    // 7.5 tenths rounds away from zero to 8
    assert_eq!(r.mean(), 8);

    let mut n = Records::from_item(-7);
    n.update(-8);
    assert_eq!(n.mean(), -8);

    let mut t = Records::from_item(5);
    t.update(5);
    t.update(6);
    // 16 / 3 = 5.33… rounds to 5
    assert_eq!(t.mean(), 5);
}
