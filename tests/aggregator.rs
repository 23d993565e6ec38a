use msf::{Aggregate, MeasurementAggregator, ParseError};

fn render(agg: &MeasurementAggregator) -> String {
    let mut buf = Vec::new();
    agg.write(&mut buf);
    String::from_utf8(buf).unwrap()
}

#[test]
fn aggregator_test_measurement_aggregator() {
    let mut aggregator = MeasurementAggregator::new();

    let line1 = b"Loc1;25.0";
    aggregator.add(line1).unwrap();

    let line2 = b"Loc2;30.0";
    aggregator.add(line2).unwrap();

    let line3 = b"Loc1;20.0";
    aggregator.add(line3).unwrap();

    let line4 = b"Loc2;35.0";
    aggregator.add(line4).unwrap();

    let line5 = b"Loc3;15.0";
    aggregator.add(line5).unwrap();

    let output_str = render(&aggregator);
    assert_eq!(
        "{Loc1=20.0/22.5/25.0, Loc2=30.0/32.5/35.0, Loc3=15.0/15.0/15.0}\n",
        output_str,
    );
}

#[test]
fn location_statistics() {
    let mut aggregator = MeasurementAggregator::new();
    aggregator.add(b"Location1;25.0").unwrap();
    aggregator.add(b"Location2;30.0").unwrap();
    aggregator.add(b"Location1;20.0").unwrap();
    aggregator.add(b"Location2;35.0").unwrap();
    aggregator.add(b"Location3;15.0").unwrap();

    let a = aggregator.get(b"Location1").unwrap();
    assert_eq!((a.min, a.max, a.sum, a.count), (200, 250, 450, 2));
    let b = aggregator.get(b"Location2").unwrap();
    assert_eq!((b.min, b.max, b.sum, b.count), (300, 350, 650, 2));
    let c = aggregator.get(b"Location3").unwrap();
    assert_eq!((c.min, c.max, c.sum, c.count), (150, 150, 150, 1));
    assert!(aggregator.get(b"Location4").is_none());
    assert_eq!(aggregator.len(), 3);
}

#[test]
fn refused_line_leaves_state_unchanged() {
    let mut aggregator = MeasurementAggregator::new();
    aggregator.add(b"A;1.0").unwrap();
    assert_eq!(aggregator.add(b"A 2.0"), Err(ParseError::MissingSeparator));
    assert_eq!(aggregator.add(b"A;x"), Err(ParseError::InvalidValue));
    assert_eq!(render(&aggregator), "{A=1.0/1.0/1.0}\n");
}

#[test]
fn keys_come_out_in_byte_order() {
    let mut aggregator = MeasurementAggregator::new();
    for line in [&b"b;1.0"[..], b"a;2.0", b"B;3.0", b"ab;4.0", b"a;0.0"] {
        aggregator.add(line).unwrap();
    }
    assert_eq!(
        render(&aggregator),
        "{B=3.0/3.0/3.0, a=0.0/1.0/2.0, ab=4.0/4.0/4.0, b=1.0/1.0/1.0}\n"
    );
}

#[test]
fn merge_order_does_not_matter() {
    let mut x = MeasurementAggregator::new();
    x.add(b"A;1.0").unwrap();
    x.add(b"B;-2.0").unwrap();
    let mut y = MeasurementAggregator::new();
    y.add(b"A;3.0").unwrap();
    y.add(b"C;0.5").unwrap();
    let mut z = MeasurementAggregator::new();
    z.add(b"B;4.0").unwrap();

    let mut first = MeasurementAggregator::new();
    first.merge(&x);
    first.merge(&y);
    first.merge(&z);
    let mut second = MeasurementAggregator::new();
    second.merge(&z);
    second.merge(&y);
    second.merge(&x);
    assert_eq!(render(&first), render(&second));
    assert_eq!(render(&first), "{A=1.0/2.0/3.0, B=-2.0/1.0/4.0, C=0.5/0.5/0.5}\n");
    let b = first.get(b"B").unwrap();
    assert_eq!((b.min, b.max, b.sum, b.count), (-20, 40, 20, 2));
}

#[test]
fn many_distinct_keys_stay_apart() {
    let mut aggregator = MeasurementAggregator::new();
    for i in 0..500 {
        let line = format!("k{};{}.{}", i, i, i % 10);
        aggregator.add(line.as_bytes()).unwrap();
    }
    assert_eq!(aggregator.len(), 500);
    for i in 0..500 {
        let key = format!("k{}", i);
        let a = aggregator.get(key.as_bytes()).unwrap();
        assert_eq!(a.count, 1);
        assert_eq!(a.min, i * 10 + i % 10);
    }
}

#[test]
fn aggregate_add_merge_and_average() {
    let mut a = Aggregate::new(224);
    a.add(225);
    assert_eq!((a.min, a.max, a.sum, a.count), (224, 225, 449, 2));
    assert_eq!(a.avg(), 225);
    assert_eq!(String::from_utf8(a.display()).unwrap(), "22.4/22.5/22.5");

    let mut b = Aggregate::new(-5);
    b.merge(&a);
    assert_eq!((b.min, b.max, b.sum, b.count), (-5, 225, 444, 3));
    assert_eq!(b.avg(), 148);
}

#[test]
fn average_rounds_half_up() {
    // 22.45 lies exactly between 22.4 and 22.5.
    let mut a = Aggregate::new(224);
    a.add(225);
    assert_eq!(a.avg(), 225);
    // -0.45 rounds up to -0.4.
    let mut n = Aggregate::new(-5);
    n.add(-4);
    assert_eq!(n.avg(), -4);
    assert_eq!(String::from_utf8(n.display()).unwrap(), "-0.5/-0.4/-0.4");
    // 1/3 of a tenth rounds down.
    let mut t = Aggregate::new(0);
    t.add(0);
    t.add(1);
    assert_eq!(t.avg(), 0);
}
