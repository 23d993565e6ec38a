use msf::{aggregate_chunks, plan_chunks, process_file, MeasurementAggregator, ParseError, Task};

const FIVE_LINES: &[u8] = b"A;25.0\nB;30.0\nA;20.0\nB;35.0\nC;15.0\n";
const FIVE_LINES_OUT: &str = "{A=20.0/22.5/25.0, B=30.0/32.5/35.0, C=15.0/15.0/15.0}\n";

fn output(agg: &MeasurementAggregator) -> String {
    let mut buf = Vec::new();
    agg.write(&mut buf);
    String::from_utf8(buf).unwrap()
}

#[test]
fn same_output_for_any_number_of_chunks() {
    for workers in [1, 2, 5, 16, 40, 100] {
        let agg = aggregate_chunks(FIVE_LINES, workers, 1).unwrap();
        assert_eq!(output(&agg), FIVE_LINES_OUT, "workers: {}", workers);
    }
    for workers in [1, 2, 5, 16] {
        let out = process_file(FIVE_LINES, workers).unwrap();
        assert_eq!(String::from_utf8(out).unwrap(), FIVE_LINES_OUT);
    }
}

#[test]
fn every_line_counted_once() {
    for workers in [1, 2, 3, 5, 7, 16, 35] {
        let agg = aggregate_chunks(FIVE_LINES, workers, 1).unwrap();
        let total: u64 = [&b"A"[..], b"B", b"C"]
            .iter()
            .map(|k| agg.get(k).unwrap().count)
            .sum();
        assert_eq!(total, 5, "workers: {}", workers);
        assert_eq!(agg.total_count(), 5);
    }
}

#[test]
fn empty_file() {
    assert_eq!(String::from_utf8(process_file(b"", 10).unwrap()).unwrap(), "{}\n");
    assert_eq!(output(&aggregate_chunks(b"", 3, 1).unwrap()), "{}\n");
}

#[test]
fn single_line() {
    let out = process_file(b"X;10.0\n", 10).unwrap();
    assert_eq!(String::from_utf8(out).unwrap(), "{X=10.0/10.0/10.0}\n");
}

#[test]
fn last_line_without_newline() {
    let out = process_file(b"A;1.5\nA;2.5", 4).unwrap();
    assert_eq!(String::from_utf8(out).unwrap(), "{A=1.5/2.0/2.5}\n");
    let agg = aggregate_chunks(b"A;1.5\nA;2.5", 11, 1).unwrap();
    assert_eq!(output(&agg), "{A=1.5/2.0/2.5}\n");
}

#[test]
fn rounding_in_whole_file() {
    let out = process_file(b"T;22.4\nT;22.5\n", 2).unwrap();
    assert_eq!(String::from_utf8(out).unwrap(), "{T=22.4/22.5/22.5}\n");
    let out = process_file(b"T;22.45\n", 2).unwrap();
    assert_eq!(String::from_utf8(out).unwrap(), "{T=22.5/22.5/22.5}\n");
}

#[test]
fn first_bad_line_is_reported() {
    let data = b"A;1.0\nB;oops\nC\nD;2.0\n";
    for workers in [1, 2, 4, 22] {
        assert_eq!(aggregate_chunks(data, workers, 1).err(), Some(ParseError::InvalidValue));
    }
    assert_eq!(process_file(b"A;1.0\nC\nB;oops\n", 3), Err(ParseError::MissingSeparator));
    assert_eq!(process_file(b"A;1.0\n\n", 1), Err(ParseError::MissingSeparator));
}

#[test]
fn chunk_takes_lines_starting_in_its_range() {
    let data = b"A;1.0\nB;2.0\nC;3.0\n";
    let mut first = MeasurementAggregator::new();
    first.process_chunk(data, 0, 6).unwrap();
    assert_eq!(output(&first), "{A=1.0/1.0/1.0, B=2.0/2.0/2.0}\n");
    let mut second = MeasurementAggregator::new();
    second.process_chunk(data, 6, 0).unwrap();
    assert_eq!(output(&second), "{C=3.0/3.0/3.0}\n");
    let mut middle = MeasurementAggregator::new();
    middle.process_chunk(data, 3, 8).unwrap();
    assert_eq!(output(&middle), "{B=2.0/2.0/2.0}\n");
    let mut beyond = MeasurementAggregator::new();
    beyond.process_chunk(data, 40, 0).unwrap();
    assert_eq!(output(&beyond), "{}\n");
}

#[test]
fn plan_covers_the_file() {
    let plan = plan_chunks(40, 16, 1);
    assert_eq!(plan.len(), 20);
    assert_eq!(plan[0], Task { start: 0, end: 2 });
    assert_eq!(plan[19], Task { start: 38, end: 0 });
    assert!(plan_chunks(0, 10, 1024).is_empty());
    assert_eq!(
        plan_chunks(3000, 2, 1024),
        vec![Task { start: 0, end: 1500 }, Task { start: 1500, end: 0 }]
    );
    assert_eq!(plan_chunks(100, 10, 1024), vec![Task { start: 0, end: 0 }]);
    assert_eq!(plan_chunks(2049, 4, 1024).len(), 3);
}
