use station_stats::{
    aggregate_all, aggregate_range, compare_bytes, compute_and_format, mean_tenths, parse_record,
    merge_range_results, parse_temperature, partition, render, summarize, StationEntry, StationStat,
    StationTable, SummaryError,
};

fn text(buf: &[u8], workers: usize) -> String {
    compute_and_format(buf, workers).expect("well-formed input")
}

#[test]
fn two_stations_over_two_workers() {
    let buf = b"Hamburg;8.3\nBulawayo;8.9\nHamburg;-5.0\n";
    assert_eq!(text(buf, 2), "{Bulawayo=8.9/8.9/8.9, Hamburg=-5.0/1.6/8.3}");
}

#[test]
fn empty_input_gives_braces() {
    for n in 1..=8 {
        assert_eq!(text(b"", n), "{}");
    }
}

#[test]
fn malformed_number_fails() {
    assert_eq!(compute_and_format(b"Oslo;notanumber\n", 1), Err(SummaryError::MalformedRecord { offset: 0 }));
    assert_eq!(compute_and_format(b"Oslo;notanumber\n", 4), Err(SummaryError::MalformedRecord { offset: 0 }));
}

#[test]
fn missing_separator_fails_at_its_offset() {
    assert_eq!(compute_and_format(b"A;1.0\nB1.0\nC;2.0\n", 1), Err(SummaryError::MalformedRecord { offset: 6 }));
    assert_eq!(compute_and_format(b"A;1.0\nB1.0\nC;2.0\n", 3), Err(SummaryError::MalformedRecord { offset: 6 }));
}

#[test]
fn first_malformed_record_is_reported() {
    let buf = b"A;1.0\nB;x\nC;2.0\nD;y\n";
    for n in 1..=5 {
        assert_eq!(summarize(buf, n), Err(SummaryError::MalformedRecord { offset: 6 }));
    }
}

#[test]
fn numeric_exactness() {
    let buf = b"S;-8.3\nS;8.3\nS;89.2\nS;-87.3\n";
    let table = aggregate_range(buf, 0, buf.len()).unwrap();
    let stat = table.get(b"S").unwrap();
    assert_eq!(stat, StationStat { minimum: -873, maximum: 892, sum: 19, count: 4 });
    assert_eq!(mean_tenths(&stat), 4);
    assert_eq!(render(&table), b"{S=-87.3/0.4/89.2}".to_vec());
}

#[test]
fn result_is_independent_of_worker_count() {
    let buf = b"Oslo;-3.2\nLima;20.1\nOslo;4.0\nAccra;30.5\nLima;18.9\nOslo;-0.4\nAccra;29.9\n";
    let one = text(buf, 1);
    assert_eq!(one, "{Accra=29.9/30.2/30.5, Lima=18.9/19.5/20.1, Oslo=-3.2/0.1/4.0}");
    for n in 2..=12 {
        assert_eq!(text(buf, n), one);
    }
}

#[test]
fn merge_order_does_not_matter() {
    let buf = b"Oslo;-3.2\nLima;20.1\nOslo;4.0\nAccra;30.5\nLima;18.9\nOslo;-0.4\n";
    let ranges = partition(buf, 3);
    let locals: Vec<StationTable> =
        ranges.iter().map(|r| aggregate_range(buf, r.start, r.end).unwrap()).collect();
    let mut forward = StationTable::new();
    for t in locals.iter() {
        forward.merge_from(t);
    }
    let mut backward = StationTable::new();
    for t in locals.iter().rev() {
        backward.merge_from(t);
    }
    assert_eq!(render(&forward), render(&backward));
    let whole = aggregate_all(buf, 1).unwrap();
    assert_eq!(render(&forward), render(&whole));
}

#[test]
fn partition_boundaries_follow_terminators() {
    let buf = b"Hamburg;8.3\nBulawayo;8.9\nHamburg;-5.0\nX;1.0";
    for n in 1..=10 {
        let ranges = partition(buf, n);
        assert_eq!(ranges.len(), n);
        assert_eq!(ranges[0].start, 0);
        assert_eq!(ranges[n - 1].end, buf.len());
        for k in 0..n {
            assert!(ranges[k].start <= ranges[k].end);
            let e = ranges[k].end;
            assert!(e == buf.len() || buf[e - 1] == b'\n');
            if k + 1 < n {
                assert_eq!(ranges[k].end, ranges[k + 1].start);
            }
        }
    }
}

#[test]
fn partition_of_empty_buffer_is_empty() {
    assert!(partition(b"", 4).is_empty());
}

#[test]
fn partition_moves_end_past_next_terminator() {
    let buf = b"AAAA;1.0\nB;2.0\nC;3.0\n";
    let ranges = partition(buf, 2);
    assert_eq!(ranges[0].start, 0);
    assert_eq!(ranges[0].end, 15);
    assert_eq!(ranges[1].start, 15);
    assert_eq!(ranges[1].end, buf.len());
}

#[test]
fn temperature_forms() {
    assert_eq!(parse_temperature(b"8.3"), Some(83));
    assert_eq!(parse_temperature(b"-5.0"), Some(-50));
    assert_eq!(parse_temperature(b"99.9"), Some(999));
    assert_eq!(parse_temperature(b"-99.9"), Some(-999));
    assert_eq!(parse_temperature(b"0.0"), Some(0));
    assert_eq!(parse_temperature(b"123.4"), None);
    assert_eq!(parse_temperature(b"1.23"), None);
    assert_eq!(parse_temperature(b"12"), None);
    assert_eq!(parse_temperature(b".5"), None);
    assert_eq!(parse_temperature(b"-"), None);
    assert_eq!(parse_temperature(b""), None);
    assert_eq!(parse_temperature(b"--1.0"), None);
    assert_eq!(parse_temperature(b"1,0"), None);
}

#[test]
fn record_split() {
    assert_eq!(parse_record(b"Oslo;-12.3"), Some((&b"Oslo"[..], -123)));
    assert_eq!(parse_record(b";0.0"), Some((&b""[..], 0)));
    assert_eq!(parse_record(b"Oslo"), None);
    assert_eq!(parse_record(b"a;b;1.0"), None);
    assert_eq!(parse_record(b"a;1.0;"), None);
}

#[test]
fn byte_order() {
    assert!(compare_bytes(b"A", b"B") < 0);
    assert!(compare_bytes(b"B", b"A") > 0);
    assert!(compare_bytes(b"A", b"A B") < 0);
    assert!(compare_bytes(b"A1", b"A=") < 0);
    assert_eq!(compare_bytes(b"Oslo", b"Oslo"), 0);
    assert!(compare_bytes(b"", b"a") < 0);
}

#[test]
fn names_holding_equals_sign() {
    assert_eq!(text(b"x;1.0\nx=.;1.0\n", 1), "{x=.=1.0/1.0/1.0, x=1.0/1.0/1.0}");
    assert_eq!(text(b"x=.;1.0\nx;1.0\n", 2), "{x=.=1.0/1.0/1.0, x=1.0/1.0/1.0}");
    assert_eq!(text(b"a=9;-1.0\na;-2.0\n", 1), "{a=-2.0/-2.0/-2.0, a=9=-1.0/-1.0/-1.0}");
}

#[test]
fn entries_sort_as_full_texts() {
    let buf = b"A;1.0\nA1;1.0\nSan;2.0\nSan Jose;3.0\nSanta;4.0\n";
    let expected = "{A1=1.0/1.0/1.0, A=1.0/1.0/1.0, San Jose=3.0/3.0/3.0, San=2.0/2.0/2.0, Santa=4.0/4.0/4.0}";
    assert_eq!(text(buf, 1), expected);
    assert_eq!(text(buf, 3), expected);
    let inner = &expected[1..expected.len() - 1];
    let parts: Vec<&str> = inner.split(", ").collect();
    let mut sorted = parts.clone();
    sorted.sort();
    assert_eq!(parts, sorted);
}

#[test]
fn mean_truncates_toward_zero() {
    assert_eq!(text(b"X;-0.3\nX;0.0\n", 1), "{X=-0.3/-0.1/0.0}");
    assert_eq!(text(b"X;-0.1\nX;0.0\n", 1), "{X=-0.1/0.0/0.0}");
    assert_eq!(text(b"X;0.3\nX;0.0\n", 1), "{X=0.0/0.1/0.3}");
    let stat = StationStat { minimum: -10, maximum: 1, sum: -7, count: 2 };
    assert_eq!(mean_tenths(&stat), -3);
}

#[test]
fn blank_lines_and_missing_final_terminator() {
    assert_eq!(text(b"\n\nA;1.0\n\nB;-2.5", 1), "{A=1.0/1.0/1.0, B=-2.5/-2.5/-2.5}");
    assert_eq!(text(b"\n\nA;1.0\n\nB;-2.5", 3), "{A=1.0/1.0/1.0, B=-2.5/-2.5/-2.5}");
}

#[test]
fn extreme_values_render() {
    assert_eq!(text(b"Hot;99.9\nCold;-99.9\n", 2), "{Cold=-99.9/-99.9/-99.9, Hot=99.9/99.9/99.9}");
}

#[test]
fn non_ascii_names_are_kept() {
    assert_eq!(text("Zürich;1.5\nÅre;-2.0\n".as_bytes(), 2), "{Zürich=1.5/1.5/1.5, Åre=-2.0/-2.0/-2.0}");
}

#[test]
fn summary_bytes() {
    assert_eq!(summarize(b"B;1.0\nA;2.0\nB;3.0\n", 2), Ok(b"{A=2.0/2.0/2.0, B=1.0/2.0/3.0}".to_vec()));
}

#[test]
fn table_records_and_merges() {
    let mut t = StationTable::new();
    t.record(b"b", 10);
    t.record(b"a", -5);
    t.record(b"b", 30);
    assert_eq!(t.len(), 2);
    assert_eq!(t.get(b"b"), Some(StationStat { minimum: 10, maximum: 30, sum: 40, count: 2 }));
    assert_eq!(t.get(b"c"), None);
    let mut u = StationTable::new();
    u.record(b"c", 7);
    u.record(b"a", -9);
    t.merge_from(&u);
    assert_eq!(t.len(), 3);
    assert_eq!(t.get(b"a"), Some(StationStat { minimum: -9, maximum: -5, sum: -14, count: 2 }));
    assert_eq!(render(&t), b"{a=-0.9/-0.7/-0.5, b=1.0/2.0/3.0, c=0.7/0.7/0.7}".to_vec());
}

#[test]
fn stat_combine() {
    let a = StationStat::single(-12);
    let b = StationStat::single(40);
    assert_eq!(a.combine(&b), StationStat { minimum: -12, maximum: 40, sum: 28, count: 2 });
}

#[test]
fn counts_add_up_over_ranges() {
    let buf = b"Oslo;-3.2\nLima;20.1\nOslo;4.0\nAccra;30.5\nLima;18.9\nOslo;-0.4\nAccra;29.9\n";
    let whole = aggregate_range(buf, 0, buf.len()).unwrap();
    for n in 1..=9 {
        let locals: Vec<StationTable> = partition(buf, n)
            .iter()
            .map(|r| aggregate_range(buf, r.start, r.end).unwrap())
            .collect();
        for name in [&b"Oslo"[..], &b"Lima"[..], &b"Accra"[..]] {
            let parts: u32 = locals.iter().map(|t| t.get(name).map_or(0, |s| s.count)).sum();
            assert_eq!(parts, whole.get(name).unwrap().count);
        }
    }
    assert_eq!(whole.get(b"Oslo").unwrap().count, 3);
    let records = buf.iter().filter(|b| **b == b'\n').count() as u32;
    let all: u32 = whole.entries.iter().map(|e| e.stat.count).sum();
    assert_eq!(all, records);
    for n in 1..=9 {
        let total: u32 = partition(buf, n)
            .iter()
            .map(|r| aggregate_range(buf, r.start, r.end).unwrap())
            .map(|t| t.entries.iter().map(|e| e.stat.count).sum::<u32>())
            .sum();
        assert_eq!(total, records);
    }
}

#[test]
fn full_count_is_refused_not_wrapped() {
    let full = StationStat { minimum: 10, maximum: 10, sum: 10 * u32::MAX as i64, count: u32::MAX };
    let mut t = StationTable { entries: vec![StationEntry { name: b"S".to_vec(), stat: full }] };
    assert!(!t.try_record(b"S", 5));
    assert_eq!(t.get(b"S"), Some(full));
    assert!(t.try_record(b"T", 5));
    assert_eq!(t.get(b"T"), Some(StationStat { minimum: 5, maximum: 5, sum: 5, count: 1 }));
    let mut u = StationTable::new();
    u.record(b"S", 1);
    let before = render(&t);
    assert!(!t.try_merge_from(&u));
    assert_eq!(render(&t), before);
    let mut v = StationTable::new();
    v.record(b"A", 1);
    assert!(v.try_merge_from(&u));
    assert_eq!(render(&v), b"{A=0.1/0.1/0.1, S=0.1/0.1/0.1}".to_vec());
}

#[test]
fn range_results_merge_in_order() {
    let buf = b"A;1.0\nB;x\nC;2.0\nD;y\nA;3.0\n";
    let parts: Vec<_> = partition(buf, 5).iter().map(|r| aggregate_range(buf, r.start, r.end)).collect();
    assert_eq!(merge_range_results(&parts).map(|t| render(&t)), Err(SummaryError::MalformedRecord { offset: 6 }));
    let good = b"A;1.0\nB;2.0\nA;3.0\nC;-1.0\n";
    let parts: Vec<_> = partition(good, 3).iter().map(|r| aggregate_range(good, r.start, r.end)).collect();
    let merged = merge_range_results(&parts).unwrap();
    assert_eq!(render(&merged), b"{A=1.0/2.0/3.0, B=2.0/2.0/2.0, C=-1.0/-1.0/-1.0}".to_vec());
}
