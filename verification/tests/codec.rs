use datfile::Attr;
use datfile::DatFile;
use datfile::ReadError;
use datfile::Signal;

fn bv(s: &str) -> Vec<u8> {
    s.as_bytes().to_vec()
}

fn attr(k: &str, v: &str) -> Attr {
    Attr { key: bv(k), value: bv(v) }
}

fn sig(name: &str, values: &[f64]) -> Signal {
    Signal {
        name: bv(name),
        values: values.iter().map(|x| format!("{}", x).into_bytes()).collect(),
    }
}

fn sample() -> DatFile {
    DatFile {
        attributes: vec![attr("gain", "2.5"), attr("label", "pulse test")],
        signals: vec![
            sig("current", &[0.25, -1.5e-3, 3e8]),
            sig("time", &[0.0, 0.1, 0.2]),
        ],
    }
}

#[test]
fn round_trip() {
    let df = sample();
    let bytes = df.encode();
    let df2 = DatFile::decode(&bytes).unwrap();
    assert_eq!(df, df2);
}

#[test]
fn round_trip_keeps_float_values() {
    let originals: [f64; 6] = [0.1, -2.5e-17, 1.0 / 3.0, f64::MAX, f64::MIN_POSITIVE, -0.0];
    let df = DatFile { attributes: vec![], signals: vec![sig("v", &originals)] };
    let bytes = df.encode();
    let df2 = DatFile::decode(&bytes).unwrap();
    assert_eq!(df, df2);
    for (text, x) in df2.signals[0].values.iter().zip(originals.iter()) {
        let back: f64 = std::str::from_utf8(text).unwrap().parse().unwrap();
        assert_eq!(back.to_bits(), x.to_bits());
    }
}

#[test]
fn encode_deterministic() {
    let df = sample();
    assert_eq!(df.encode(), df.encode());
    let again = sample();
    assert_eq!(df.encode(), again.encode());
}

#[test]
fn encode_exact_bytes() {
    let df = DatFile {
        attributes: vec![attr("a", "1")],
        signals: vec![Signal { name: bv("x"), values: vec![bv("1.5"), bv("2")] }],
    };
    let expected = b"a\t1\n\n[DATA]\nx\t\n1.5\t\n2\t\n".to_vec();
    assert_eq!(df.encode(), expected);
}

#[test]
fn header_parse_trims_key_and_value() {
    let df = DatFile::decode(b" foo \t bar baz \n[DATA]\nc\t\n").unwrap();
    assert_eq!(df.attributes.len(), 1);
    assert_eq!(df.attributes[0].key, bv("foo"));
    assert_eq!(df.attributes[0].value, bv("bar baz"));
}

#[test]
fn header_value_keeps_later_tabs() {
    let df = DatFile::decode(b"foo\tbar\tbaz\n[DATA]\nc\t\n").unwrap();
    assert_eq!(df.attributes[0].key, bv("foo"));
    assert_eq!(df.attributes[0].value, bv("bar\tbaz"));
}

#[test]
fn malformed_header_fails() {
    let err = DatFile::decode(b"justakey\n[DATA]\nc\t\n").unwrap_err();
    match err {
        ReadError::EmptyAttr(line) => assert_eq!(line, bv("justakey")),
        other => panic!("unexpected error: {:?}", other),
    }
}

#[test]
fn trailing_tab_in_names_tolerated() {
    let df = DatFile::decode(b"[DATA]\na\tb\tc\t\n").unwrap();
    let names: Vec<Vec<u8>> = df.signals.iter().map(|s| s.name.clone()).collect();
    assert_eq!(names, vec![bv("a"), bv("b"), bv("c")]);
    for s in &df.signals {
        assert!(s.values.is_empty());
    }
}

#[test]
fn numeric_failure_fails() {
    let err = DatFile::decode(b"[DATA]\nv\t\nNaNish\t\n").unwrap_err();
    match err {
        ReadError::ParseFloatError(field) => assert_eq!(field, bv("NaNish")),
        other => panic!("unexpected error: {:?}", other),
    }
}

#[test]
fn scientific_notation_parses() {
    let df = DatFile::decode(b"[DATA]\nv\t\n1.5e-3\t\n").unwrap();
    assert_eq!(df.signals[0].values, vec![bv("1.5e-3")]);
    let x: f64 = std::str::from_utf8(&df.signals[0].values[0]).unwrap().parse().unwrap();
    assert_eq!(x, 1.5e-3);
}

#[test]
fn numeric_grammar_accepts_and_rejects() {
    for good in ["inf", "-Infinity", "nan", "+1.", ".5", "2E3", "1.25e+10", "007"] {
        let input = format!("[DATA]\nv\t\n{}\t\n", good).into_bytes();
        assert!(DatFile::decode(&input).is_ok(), "should accept {:?}", good);
    }
    for bad in [".", "1e", "1..2", "abc", "0x10", "1 2", "e5", "+-1", "infx"] {
        let input = format!("[DATA]\nv\t\n{}\t\n", bad).into_bytes();
        assert!(DatFile::decode(&input).is_err(), "should reject {:?}", bad);
    }
}

#[test]
fn excess_fields_tolerated() {
    let df = DatFile::decode(b"[DATA]\na\tb\t\n1\t2\t3\t4\t\n").unwrap();
    assert_eq!(df.signals[0].name, bv("a"));
    assert_eq!(df.signals[0].values, vec![bv("1")]);
    assert_eq!(df.signals[1].name, bv("b"));
    assert_eq!(df.signals[1].values, vec![bv("2")]);
}

#[test]
fn short_row_fills_leading_columns_only() {
    let df = DatFile::decode(b"[DATA]\na\tb\t\n1\t2\t\n3\n").unwrap();
    assert_eq!(df.signals[0].values, vec![bv("1"), bv("3")]);
    assert_eq!(df.signals[1].values, vec![bv("2")]);
}

#[test]
fn blank_lines_skipped_everywhere() {
    let plain = DatFile::decode(b"k\tv\n[DATA]\nx\t\n1\t\n2\t\n").unwrap();
    let spaced = DatFile::decode(b"\n  \nk\tv\n\t\n[DATA]\n\n x\t\n1\t\n   \n2\t\n\n").unwrap();
    assert_eq!(plain, spaced);
}

#[test]
fn duplicate_keys_last_wins() {
    let df = DatFile::decode(b"k\t1\nk\t2\n[DATA]\nx\t\n").unwrap();
    assert_eq!(df.attributes.len(), 1);
    assert_eq!(df.attributes[0].value, bv("2"));
}

#[test]
fn attributes_and_signals_sorted_by_key() {
    let df = DatFile::decode(b"zeta\t1\nalpha\t2\n[DATA]\nb\ta\t\n1\t2\t\n").unwrap();
    assert_eq!(df.attributes[0].key, bv("alpha"));
    assert_eq!(df.attributes[1].key, bv("zeta"));
    assert_eq!(df.signals[0].name, bv("a"));
    assert_eq!(df.signals[0].values, vec![bv("2")]);
    assert_eq!(df.signals[1].name, bv("b"));
    assert_eq!(df.signals[1].values, vec![bv("1")]);
}

#[test]
fn missing_data_section_fails() {
    assert!(matches!(DatFile::decode(b"").unwrap_err(), ReadError::MissingData));
    assert!(matches!(
        DatFile::decode(b"k\tv\n").unwrap_err(),
        ReadError::MissingData
    ));
    // a marker with nothing after it has no column-name line either
    assert!(matches!(
        DatFile::decode(b"k\tv\n[DATA]\n").unwrap_err(),
        ReadError::MissingData
    ));
}

#[test]
fn marker_line_is_trimmed() {
    let df = DatFile::decode(b"k\tv\n  [DATA]  \nx\t\n").unwrap();
    assert_eq!(df.signals[0].name, bv("x"));
}

#[test]
fn crlf_line_endings_accepted() {
    let df = DatFile::decode(b"k\tv\r\n[DATA]\r\nx\t\r\n1\t\r\n").unwrap();
    assert_eq!(df.attributes[0].value, bv("v"));
    assert_eq!(df.signals[0].values, vec![bv("1")]);
}

#[test]
fn empty_attribute_value_round_trips() {
    let df = DatFile::decode(b"k\t\n[DATA]\nx\t\n").unwrap();
    assert_eq!(df.attributes[0].value, bv(""));
    let df2 = DatFile::decode(&df.encode()).unwrap();
    assert_eq!(df, df2);
}

#[test]
fn decoded_file_reencodes_to_same_bytes() {
    let input = b"alpha\t1\nbeta\ttwo words\n\n[DATA]\na\tb\t\n1\t2\t\n3\t4\t\n".to_vec();
    let df = DatFile::decode(&input).unwrap();
    assert_eq!(df.encode(), input);
}

#[test]
fn new_file_is_empty() {
    let df = DatFile::new();
    assert!(df.attributes.is_empty());
    assert!(df.signals.is_empty());
}
