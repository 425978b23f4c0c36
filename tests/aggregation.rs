use one_billion_rows::file::{bytes_lt, chunk_file, finalize, parse, parse_buffer, NUM_WORKERS, SMALL_INPUT};
use one_billion_rows::hashmap::HashMap;
use one_billion_rows::measurement::{clamp_to_domain, FinalMeasurement, Measurement};
use one_billion_rows::number::{format_tenths, parse_fake_float};
use one_billion_rows::perform_calculations_only;

fn fm(min: i16, avg: i16, max: i16) -> FinalMeasurement {
    FinalMeasurement::new(min, max, avg)
}

fn key(s: &str) -> Vec<u8> {
    s.as_bytes().to_vec()
}

fn render(report: &[(Vec<u8>, FinalMeasurement)]) -> String {
    let mut out = String::from("{");
    for (i, (name, m)) in report.iter().enumerate() {
        out.push_str(&String::from_utf8_lossy(name));
        out.push('=');
        out.push_str(&String::from_utf8(format_tenths(m.min)).unwrap());
        out.push('/');
        out.push_str(&String::from_utf8(format_tenths(m.avg)).unwrap());
        out.push('/');
        out.push_str(&String::from_utf8(format_tenths(m.max)).unwrap());
        if i + 1 != report.len() {
            out.push_str(", ");
        }
    }
    out.push_str("}\n");
    out
}

fn large_input() -> Vec<u8> {
    let names = ["Oslo", "Abha", "Zanzibar", "Lima", "Cairo", "Hamburg", "Bulawayo"];
    let mut data = Vec::new();
    let mut i: i64 = 0;
    while data.len() < SMALL_INPUT + 4096 {
        let name = names[(i % 7) as usize];
        let v = ((i * 37) % 1999) - 999;
        data.extend_from_slice(name.as_bytes());
        data.push(b';');
        data.extend_from_slice(&format_tenths(v as i16));
        data.push(b'\n');
        i += 1;
    }
    data
}

#[test]
fn test_measurement_data() {
    let data = b"Hamburg;12.0\nBulawayo;8.9\nPalembang;38.8\nHamburg;34.2\nBulawayo;-1.1\n";
    let report = perform_calculations_only(data);
    assert_eq!(
        render(&report),
        "{Bulawayo=-1.1/3.9/8.9, Hamburg=12.0/23.1/34.2, Palembang=38.8/38.8/38.8}\n"
    );
}

#[test]
fn two_keys_sorted_with_average() {
    let report = perform_calculations_only(b"A;1.0\nB;-2.5\nA;3.0\n");
    assert_eq!(report, vec![(key("A"), fm(10, 20, 30)), (key("B"), fm(-25, -25, -25))]);
}

#[test]
fn malformed_line_is_skipped() {
    let report = perform_calculations_only(b"A;1.0\nBADLINE\nA;2.0\n");
    assert_eq!(report, vec![(key("A"), fm(10, 15, 20))]);
}

#[test]
fn malformed_values_are_skipped() {
    let report = perform_calculations_only(b"A;1.x\nA;\nA;-\nA;1.23\nA;.5\nB;4\n");
    assert_eq!(report, vec![(key("B"), fm(40, 40, 40))]);
}

#[test]
fn domain_boundary_value() {
    assert_eq!(parse_fake_float(b"99.9"), Some(999));
    let report = perform_calculations_only(b"A;99.9\n");
    assert_eq!(report, vec![(key("A"), fm(999, 999, 999))]);
    assert_eq!(format_tenths(report[0].1.max), b"99.9".to_vec());
}

#[test]
fn out_of_domain_values_are_clamped_when_aggregated() {
    let report = perform_calculations_only(b"A;150.0\nA;-200.5\nA;12.0\n");
    assert_eq!(report, vec![(key("A"), fm(-999, 40, 999))]);
    assert_eq!(clamp_to_domain(1500), 999);
    assert_eq!(clamp_to_domain(-1500), -999);
    assert_eq!(clamp_to_domain(-12), -12);
}

#[test]
fn empty_input_gives_empty_report() {
    assert!(perform_calculations_only(b"").is_empty());
}

#[test]
fn decoder_values() {
    assert_eq!(parse_fake_float(b"-12.3"), Some(-123));
    assert_eq!(parse_fake_float(b"5.0"), Some(50));
    assert_eq!(parse_fake_float(b"5"), Some(50));
    assert_eq!(parse_fake_float(b"0.0"), Some(0));
    assert_eq!(parse_fake_float(b"-0.7"), Some(-7));
    assert_eq!(parse_fake_float(b"123.4"), Some(1234));
    assert_eq!(parse_fake_float(b"150.0"), Some(1500));
    assert_eq!(parse_fake_float(b"-999.9"), Some(-9999));
    assert_eq!(parse_fake_float(b"05.0"), Some(50));
    let far = parse_fake_float(b"-123456789012.4").unwrap();
    assert!(far < -999);
    assert_eq!(clamp_to_domain(far), -999);
    assert_eq!(parse_fake_float(b""), None);
    assert_eq!(parse_fake_float(b"1.2.3"), None);
    assert_eq!(parse_fake_float(b"abc"), None);
}

#[test]
fn encode_then_decode_round_trip() {
    assert_eq!(format_tenths(-123), b"-12.3".to_vec());
    assert_eq!(format_tenths(5), b"0.5".to_vec());
    assert_eq!(format_tenths(-5), b"-0.5".to_vec());
    assert_eq!(format_tenths(0), b"0.0".to_vec());
    assert_eq!(format_tenths(1500), b"150.0".to_vec());
    assert_eq!(parse_fake_float(&format_tenths(1500)), Some(1500));
    for v in -9999i16..=9999 {
        assert_eq!(parse_fake_float(&format_tenths(v)), Some(v));
    }
}

#[test]
fn measurement_new_clamps() {
    let m = Measurement::new(1500);
    assert_eq!((m.min, m.max, m.sum, m.count), (999, 999, 999, 1));
    let m = Measurement::new(-1500);
    assert_eq!((m.min, m.max, m.sum, m.count), (-999, -999, -999, 1));
}

#[test]
fn measurement_add_and_merge() {
    let mut a = Measurement::new(10);
    a.add(-30);
    a.add(25);
    assert_eq!((a.min, a.max, a.sum, a.count), (-30, 25, 5, 3));
    let mut b = Measurement::new(40);
    b.add(-50);
    a.merge(&b);
    assert_eq!((a.min, a.max, a.sum, a.count), (-50, 40, -5, 5));
}

#[test]
fn average_rounds_half_away_from_zero() {
    let mut a = Measurement::new(12);
    a.add(13);
    assert_eq!(a.avg(), 13);
    let mut b = Measurement::new(-12);
    b.add(-13);
    assert_eq!(b.avg(), -13);
    let mut c = Measurement::new(10);
    c.add(10);
    c.add(11);
    assert_eq!(c.avg(), 10);
    assert_eq!(c.finalize(), fm(10, 10, 11));
}

#[test]
fn finalized_average_between_min_and_max() {
    let report = perform_calculations_only(b"X;-99.9\nX;99.9\nX;0.1\nY;3.3\nY;3.4\n");
    for (_, m) in &report {
        assert!(m.min <= m.avg && m.avg <= m.max);
    }
    assert_eq!(report[0].1, fm(-999, 0, 999));
    assert_eq!(report[1].1, fm(33, 34, 34));
}

#[test]
fn one_range_and_many_ranges_agree() {
    let data = large_input();
    let one = parse(&data, 1);
    let many = parse(&data, NUM_WORKERS);
    let seven = parse(&data, 7);
    assert_eq!(one, many);
    assert_eq!(one, seven);
    assert_eq!(one.len(), 7);
    let chunks = chunk_file(&data, NUM_WORKERS);
    assert!(chunks.len() > 1);
}

#[test]
fn split_tables_merge_to_whole() {
    let data = b"A;1.0\nB;2.0\nA;-3.0\nC;4.0\nB;5.5\n";
    let mut left = parse_buffer(&data[..12]);
    let right = parse_buffer(&data[12..]);
    left.merge(right);
    let merged = finalize(left);
    let whole = finalize(parse_buffer(data));
    assert_eq!(merged, whole);
    assert_eq!(whole[0], (key("A"), fm(-30, -10, 10)));
}

#[test]
fn merge_with_empty_table_changes_nothing() {
    let data = b"A;1.0\nB;2.0\nA;-3.0\n";
    let mut t = parse_buffer(data);
    t.merge(HashMap::new());
    assert_eq!(finalize(t), finalize(parse_buffer(data)));
    let mut e = HashMap::new();
    e.merge(parse_buffer(data));
    assert_eq!(finalize(e), finalize(parse_buffer(data)));
}

#[test]
fn range_end_at_or_after_terminator() {
    let a = finalize(parse_buffer(b"A;1.0\nB;2.0"));
    let b = finalize(parse_buffer(b"A;1.0\nB;2.0\n"));
    assert_eq!(a, b);
    assert_eq!(a.len(), 2);
}

#[test]
fn upsert_counts_observations() {
    let mut t = HashMap::new();
    t.upsert(b"k", 10);
    t.upsert(b"k", 30);
    t.upsert(b"j", -5);
    let r = finalize(t);
    assert_eq!(r, vec![(key("j"), fm(-5, -5, -5)), (key("k"), fm(10, 20, 30))]);
}

#[test]
fn into_inner_lists_each_entry() {
    let t = parse_buffer(b"A;1.0\nB;2.0\nA;3.0\n");
    let mut e: Vec<(Vec<u8>, i64, usize)> = t.into_inner().into_iter().map(|(k, m)| (k.to_vec(), m.sum, m.count)).collect();
    e.sort();
    assert_eq!(e, vec![(key("A"), 40, 2), (key("B"), 20, 1)]);
}

#[test]
fn small_input_is_one_range() {
    let data = b"A;1.0\nB;2.0\n";
    assert_eq!(chunk_file(data, NUM_WORKERS), vec![(0, data.len())]);
}

#[test]
fn large_input_ranges_end_after_terminators() {
    let data = large_input();
    let chunks = chunk_file(&data, 4);
    assert_eq!(chunks[0].0, 0);
    assert_eq!(chunks[chunks.len() - 1].1, data.len());
    for w in chunks.windows(2) {
        assert_eq!(w[0].1, w[1].0);
        assert_eq!(data[w[0].1 - 1], b'\n');
    }
}

#[test]
fn byte_order_of_keys() {
    assert!(bytes_lt(b"A", b"B"));
    assert!(bytes_lt(b"Ab", b"Abc"));
    assert!(!bytes_lt(b"Abc", b"Ab"));
    assert!(!bytes_lt(b"x", b"x"));
    assert!(bytes_lt(b"Z", b"a"));
    let report = perform_calculations_only(b"b;1.0\nZ;1.0\na;1.0\nAb;1.0\nA;1.0\n");
    let names: Vec<Vec<u8>> = report.into_iter().map(|(k, _)| k).collect();
    assert_eq!(names, vec![key("A"), key("Ab"), key("Z"), key("a"), key("b")]);
}
