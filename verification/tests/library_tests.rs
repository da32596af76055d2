use rustyscope::channel::{get_channel_data, Channel, ChannelError};
use rustyscope::io::{segment_scan_lines, HeaderSection, LoadError, NanoscopeFile, ScanError};
use rustyscope::lines::{filter_valid_header_lines, split_lines};
use rustyscope::metadata::{
    extraction_result, parse_value, FloatSource, Metadata, MetadataError, MetadataValue,
};
use rustyscope::numbers::{
    check_float, i64_to_string, parse_i64, parse_usize, usize_to_string, FloatErrorKind,
    IntErrorKind,
};
use rustyscope::text::{ascii_lower_suffix, chars_of, string_from_chars, TextPiece};

/// The text a piece shows; a float piece shows the number its literal denotes.
fn shown(p: &TextPiece) -> String {
    match p {
        TextPiece::Plain(s) => s.clone(),
        TextPiece::Float(lit) => lit.parse::<f64>().unwrap().to_string(),
    }
}

/// The text that pieces show together.
fn shown_all(v: &[TextPiece]) -> String {
    v.iter().map(shown).collect()
}

fn chars(s: &str) -> Vec<char> {
    s.chars().collect()
}

fn metadata_from(lines: &[&str]) -> Metadata {
    let mut m = Metadata::new();
    for l in lines {
        m.insert_line(l).unwrap();
    }
    m
}

fn is_int(v: &MetadataValue, n: i64) -> bool {
    matches!(v, MetadataValue::Integer(x) if *x == n)
}

fn is_float(v: &MetadataValue, lit: &str) -> bool {
    matches!(v, MetadataValue::Float(x) if x == lit)
}

fn is_text(v: &MetadataValue, t: &str) -> bool {
    matches!(v, MetadataValue::String(x) if x == t)
}

// ----- lines --------------------------------------------------------------------------

#[test]
fn split_lines_breaks_at_cr_and_lf() {
    let lines = split_lines(b"a\r\nbc\n\ndef\rlast");
    assert_eq!(lines, vec![&b"a"[..], &b"bc"[..], &b"def"[..]]);
}

#[test]
fn split_lines_leading_break_gives_empty_first_line() {
    let lines = split_lines(b"\nabc\n");
    assert_eq!(lines, vec![&b""[..], &b"abc"[..]]);
    assert!(split_lines(b"").is_empty());
    assert!(split_lines(b"no break").is_empty());
}

#[test]
fn filter_keeps_backslash_lines_until_end_marker() {
    let input: Vec<&[u8]> = vec![
        b"\\*File list",
        b"plain line",
        b"\\Key: value",
        b"\\\xff\xfe bad utf8",
        b"\\Caf\xc3\xa9: 1",
        b"\\*FILE LIST END",
        b"\\After: end",
    ];
    let out = filter_valid_header_lines(input);
    assert_eq!(out, vec!["*File list", "Key: value", "Café: 1"]);
}

#[test]
fn filter_without_end_marker_keeps_all() {
    let input: Vec<&[u8]> = vec![b"\\a: 1", b"", b"\\b: 2"];
    assert_eq!(filter_valid_header_lines(input), vec!["a: 1", "b: 2"]);
}

// ----- text ---------------------------------------------------------------------------

#[test]
fn text_helpers() {
    assert_eq!(chars_of("aé"), vec!['a', 'é']);
    assert_eq!(string_from_chars(&chars("Hello"), 1, 4), "ell");
    assert_eq!(ascii_lower_suffix(&chars("*CIAO Image List"), 1), "ciao image list");
    assert_eq!(ascii_lower_suffix(&chars("ÉA"), 0), "Éa");
}

// ----- numbers ------------------------------------------------------------------------

#[test]
fn parse_i64_like_std() {
    assert_eq!(parse_i64(&chars("42")), Ok(42));
    assert_eq!(parse_i64(&chars("+42")), Ok(42));
    assert_eq!(parse_i64(&chars("-42")), Ok(-42));
    assert_eq!(parse_i64(&chars("9223372036854775807")), Ok(i64::MAX));
    assert_eq!(parse_i64(&chars("-9223372036854775808")), Ok(i64::MIN));
    assert_eq!(parse_i64(&chars("9223372036854775808")), Err(IntErrorKind::PosOverflow));
    assert_eq!(parse_i64(&chars("-9223372036854775809")), Err(IntErrorKind::NegOverflow));
    assert_eq!(parse_i64(&chars("")), Err(IntErrorKind::Empty));
    assert_eq!(parse_i64(&chars("-")), Err(IntErrorKind::InvalidDigit));
    assert_eq!(parse_i64(&chars("12a")), Err(IntErrorKind::InvalidDigit));
    assert_eq!(parse_i64(&chars(" 1")), Err(IntErrorKind::InvalidDigit));
    for s in ["0", "-0", "+7", "123456789", "x", "1.0", "-", "+", "99999999999999999999"] {
        let ours = parse_i64(&chars(s));
        let std_ok = s.parse::<i64>().ok();
        assert_eq!(ours.ok(), std_ok, "{s}");
    }
}

#[test]
fn parse_usize_refuses_sign_minus() {
    assert_eq!(parse_usize(&chars("40960")), Ok(40960));
    assert_eq!(parse_usize(&chars("+5")), Ok(5));
    assert_eq!(parse_usize(&chars("-5")), Err(IntErrorKind::InvalidDigit));
    assert_eq!(parse_usize(&chars("-0")), Err(IntErrorKind::InvalidDigit));
    assert_eq!(
        parse_usize(&chars("18446744073709551616")),
        Err(IntErrorKind::PosOverflow)
    );
}

#[test]
fn check_float_follows_the_f64_grammar() {
    let accepted = [
        "1", "1.", ".5", "1.5", "-1.5e10", "+2E-3", "inf", "-Infinity", "NaN", "1e+7", "0.000375",
    ];
    for s in accepted {
        assert_eq!(check_float(&chars(s)), None, "{s}");
        assert!(s.parse::<f64>().is_ok(), "{s}");
    }
    let refused = [".", "e5", "1e", "1.2.3", "--1", " 1", "infx", "1_0", "0x10", "+"];
    for s in refused {
        assert_eq!(check_float(&chars(s)), Some(FloatErrorKind::Invalid), "{s}");
        assert!(s.parse::<f64>().is_err(), "{s}");
    }
    assert_eq!(check_float(&chars("")), Some(FloatErrorKind::Empty));
}

#[test]
fn decimal_text_of_integers() {
    assert_eq!(i64_to_string(0), "0");
    assert_eq!(i64_to_string(-1203), "-1203");
    assert_eq!(i64_to_string(i64::MIN), i64::MIN.to_string());
    assert_eq!(i64_to_string(i64::MAX), i64::MAX.to_string());
    assert_eq!(usize_to_string(40960), "40960");
}

#[test]
fn decimal_text_reads_back() {
    for n in [0i64, 7, -7, 1234567, i64::MIN, i64::MAX] {
        let text = i64_to_string(n);
        assert!(is_int(&parse_value(&text), n));
    }
}

// ----- metadata -----------------------------------------------------------------------

#[test]
fn parse_value_kinds() {
    assert!(is_int(&parse_value("12"), 12));
    assert!(is_int(&parse_value("-7"), -7));
    assert!(is_float(&parse_value("1.5"), "1.5"));
    assert!(is_float(&parse_value("1e5"), "1e5"));
    assert!(is_float(&parse_value("9223372036854775808"), "9223372036854775808"));
    assert!(is_text(&parse_value("V 9.5 nm/V"), "V 9.5 nm/V"));
    assert!(is_text(&parse_value(""), ""));
    assert!(is_text(&parse_value("0x10"), "0x10"));
}

#[test]
fn insert_line_then_get() {
    let mut m = Metadata::new();
    m.insert_line("Data Offset: 40960").unwrap();
    m.insert_line("Note: a: b").unwrap();
    assert!(is_int(m.get("data offset").unwrap(), 40960));
    assert!(is_text(m.get("note").unwrap(), "a: b"));
    m.insert_line("DATA OFFSET: 1.25").unwrap();
    assert!(is_float(m.get("data offset").unwrap(), "1.25"));
    assert_eq!(m.data.len(), 2);
    assert_eq!(m.data[0].0, "data offset");
}

#[test]
fn insert_line_lowercases_unicode_keys() {
    let mut m = Metadata::new();
    m.insert_line("ÄRGER: 1").unwrap();
    assert!(is_int(m.get("ärger").unwrap(), 1));
}

#[test]
fn insert_line_without_delimiter_is_refused() {
    let mut m = metadata_from(&["a: 1"]);
    let r = m.insert_line("no delimiter:here");
    assert!(matches!(r, Err(MetadataError::MissingDelimiter)));
    assert_eq!(m.data.len(), 1);
}

#[test]
fn get_reports_missing_keys() {
    let m = metadata_from(&["a: 1"]);
    match m.get("b") {
        Err(e) => assert_eq!(shown_all(&e.message()), "Rustyscope Error: couldn't find 'b' entry"),
        Ok(_) => panic!("found a missing key"),
    }
    match m.get_string("b", None) {
        Err(e) => assert_eq!(shown_all(&e.message()), "Rustyscope Error couldn't find 'b' entry"),
        Ok(_) => panic!("found a missing key"),
    }
}

#[test]
fn get_int_cases() {
    let m = metadata_from(&[
        "n: 12",
        "neg: -3",
        "f: 2.5",
        "t: S 17",
        "bad: 12a",
        "empty: ",
    ]);
    assert_eq!(m.get_int("n", None).unwrap(), 12);
    match m.get_int("neg", None) {
        Err(e) => assert_eq!(
            shown_all(&e.message()),
            "Rustscope error parsing 'neg': out of range integral type conversion attempted"
        ),
        Ok(_) => panic!(),
    }
    match m.get_int("f", None) {
        Err(e) => assert_eq!(
            shown_all(&e.message()),
            "Rustyscope error parsing 'f': '2.5' should be an integer not a float."
        ),
        Ok(_) => panic!(),
    }
    let whole = metadata_from(&["x: 3.0", "y: 1.50"]);
    match whole.get_int("x", None) {
        Err(e) => assert_eq!(
            shown_all(&e.message()),
            "Rustyscope error parsing 'x': '3' should be an integer not a float."
        ),
        Ok(_) => panic!(),
    }
    match whole.get_int("y", None) {
        Err(e) => assert_eq!(
            shown_all(&e.message()),
            "Rustyscope error parsing 'y': '1.5' should be an integer not a float."
        ),
        Ok(_) => panic!(),
    }
    assert_eq!(m.get_int("t", Some("S (\\d+)")).unwrap(), 17);
    match m.get_int("bad", None) {
        Err(e) => assert_eq!(shown_all(&e.message()), "invalid digit found in string"),
        Ok(_) => panic!(),
    }
    match m.get_int("empty", None) {
        Err(e) => assert_eq!(shown_all(&e.message()), "cannot parse integer from empty string"),
        Ok(_) => panic!(),
    }
    match m.get_int("t", Some("Q (\\d+)")) {
        Err(e) => assert_eq!(
            shown_all(&e.message()),
            "Rustyscope error parsing 't': 'S 17' was in an unexpected format."
        ),
        Ok(_) => panic!(),
    }
}

#[test]
fn get_float_cases() {
    let m = metadata_from(&[
        "i: 3",
        "f: 0.5",
        "@sens. zsensor: V 9.5 nm/V",
        "scale: V [Sens] (0.000375 V/LSB) 24.58 V",
        "word: V abc nm/V",
    ]);
    assert!(matches!(m.get_float("i", None), Ok(FloatSource::Integer(3))));
    assert!(matches!(m.get_float("f", None), Ok(FloatSource::Literal(s)) if s == "0.5"));
    let nm = "([-+]?(?:\\d*\\.?\\d+)) nm\\/V";
    let vlsb = "\\(([-+]?(?:\\d*\\.?\\d+)) V\\/LSB";
    assert!(
        matches!(m.get_float("@sens. zsensor", Some(nm)), Ok(FloatSource::Literal(s)) if s == "9.5")
    );
    assert!(
        matches!(m.get_float("scale", Some(vlsb)), Ok(FloatSource::Literal(s)) if s == "0.000375")
    );
    match m.get_float("word", None) {
        Err(e) => assert_eq!(shown_all(&e.message()), "invalid float literal"),
        Ok(_) => panic!(),
    }
}

#[test]
fn get_string_cases() {
    let m = metadata_from(&["n: -12", "f: 1.50", "@2:image data: S [Height] \"Height\""]);
    assert_eq!(shown(&m.get_string("n", None).unwrap()), "-12");
    assert_eq!(shown(&m.get_string("f", None).unwrap()), "1.5");
    assert!(matches!(m.get_string("f", None).unwrap(), TextPiece::Float(lit) if lit == "1.50"));
    assert_eq!(
        shown(&m.get_string("@2:image data", Some("\\\"(.+)\\\"")).unwrap()),
        "Height"
    );
    assert_eq!(
        shown(&m.get_string("@2:image data", None).unwrap()),
        "S [Height] \"Height\""
    );
}

#[test]
fn regex_extract_and_its_result() {
    let m = Metadata::new();
    assert_eq!(
        m.regex_extract("k", "ab12cd", Some("(\\d+)")).unwrap(),
        "12"
    );
    assert_eq!(m.regex_extract("k", "ab12cd", None).unwrap(), "ab12cd");
    assert!(m.regex_extract("k", "abcd", Some("(\\d+)")).is_err());
    assert_eq!(
        extraction_result("k", "text", Some("t".to_string())).unwrap(),
        "t"
    );
    match extraction_result("k", "text", None) {
        Err(e) => assert_eq!(
            shown_all(&e.message()),
            "Rustyscope error parsing 'k': 'text' was in an unexpected format."
        ),
        Ok(_) => panic!(),
    }
}

#[test]
fn metadata_value_text() {
    assert_eq!(shown(&MetadataValue::Integer(-5).text()), "-5");
    assert_eq!(shown(&MetadataValue::Float("2.50".to_string()).text()), "2.5");
    assert_eq!(shown(&MetadataValue::String("abc".to_string()).text()), "abc");
}

// ----- channels -----------------------------------------------------------------------

fn channel_metadata(offset: usize, length: usize, name: &str) -> Metadata {
    metadata_from(&[
        &format!("Data offset: {offset}"),
        &format!("Data length: {length}"),
        &format!("@2:Image Data: S [{name}] \"{name}\""),
    ])
}

#[test]
fn channel_data_is_little_endian() {
    let buffer: Vec<u8> = vec![9, 9, 0x01, 0x02, 0xff, 0xff, 0x00, 0x80, 7];
    let data = get_channel_data(&channel_metadata(2, 6, "h"), &buffer).unwrap();
    assert_eq!(data, vec![0x0201, -1, i16::MIN]);
}

#[test]
fn channel_data_errors() {
    let buffer = vec![0u8; 8];
    match get_channel_data(&channel_metadata(0, 3, "h"), &buffer) {
        Err(e) => assert_eq!(
            shown_all(&e.message()),
            "Rustyscope Error: data length (3) was not a multiple of 2."
        ),
        Ok(_) => panic!(),
    }
    match get_channel_data(&channel_metadata(4, 6, "h"), &buffer) {
        Err(e) => assert_eq!(shown_all(&e.message()), "Rustyscope error getting data in range 4-10"),
        Ok(_) => panic!(),
    }
    let huge = i64::MAX as usize;
    match get_channel_data(&channel_metadata(huge, 2, "h"), &buffer) {
        Err(ChannelError::OutOfBuffer { start, end }) => {
            assert_eq!(start, huge);
            assert_eq!(end, huge + 2);
        }
        _ => panic!(),
    }
    match get_channel_data(&channel_metadata(usize::MAX, 2, "h"), &buffer) {
        Err(ChannelError::Metadata(MetadataError::NotAnInteger { .. })) => {}
        _ => panic!(),
    }
    let no_length = metadata_from(&["Data offset: 0"]);
    match get_channel_data(&no_length, &buffer) {
        Err(e) => assert_eq!(
            shown_all(&e.message()),
            "Rustyscope Error: couldn't find 'data length' entry"
        ),
        Ok(_) => panic!(),
    }
}

#[test]
fn channel_from_metadata_reads_name_and_data() {
    let buffer: Vec<u8> = vec![1, 0, 2, 0];
    let c = Channel::from_metadata(channel_metadata(0, 4, "Y scan"), &buffer).unwrap();
    assert_eq!(shown(&c.name), "Y scan");
    assert_eq!(c.data, vec![1, 2]);
    let unnamed = metadata_from(&["Data offset: 0", "Data length: 2", "@2:Image Data: S none"]);
    assert!(matches!(
        Channel::from_metadata(unnamed, &buffer),
        Err(ChannelError::Metadata(MetadataError::UnexpectedFormat { .. }))
    ));
}

#[test]
fn channel_ranges_and_indices() {
    let buffer: Vec<u8> = vec![1, 0, 2, 0, 3, 0];
    let c = Channel::from_metadata(channel_metadata(0, 6, "Height"), &buffer).unwrap();
    assert_eq!(c.get_data_range(1..3).unwrap(), &[2, 3]);
    assert_eq!(c.get_data_range(3..3).unwrap(), &[] as &[i16]);
    match c.get_data_range(2..5) {
        Err(e) => assert_eq!(
            shown_all(&e.message()),
            "Rustyscope Error: failed to read bytes 2-5 in channel buffer of length 3 while parsing scan's Height data. The file may be corrupted."
        ),
        Ok(_) => panic!(),
    }
    assert!(c.get_data_range(2..1).is_err());
    assert_eq!(c.get_data_num(2).unwrap(), 3);
    match c.get_data_num(3) {
        Err(e) => assert_eq!(
            shown_all(&e.message()),
            "Rustyscope Error: failed to read byte 3 in line of length 3 while parsing scan data. The file may be corrupted."
        ),
        Ok(_) => panic!(),
    }
}

// ----- whole files --------------------------------------------------------------------

struct ChannelSpec<'a> {
    name: &'a str,
    extra: &'a [&'a str],
    samples: Vec<i16>,
}

/// Builds a file from section texts (each a list of header lines) and channels, whose
/// data is stored after the header.
fn build_file(sections: &[&str], channels: &[ChannelSpec]) -> Vec<u8> {
    let data_start = 8192;
    let mut header = String::new();
    for s in sections {
        header.push_str(s);
    }
    let mut offset = data_start;
    for c in channels {
        let len = 2 * c.samples.len();
        header.push_str("\\*Ciao image list\r\n");
        header.push_str(&format!("\\Data offset: {offset}\r\n\\Data length: {len}\r\n"));
        header.push_str(&format!("\\@2:Image Data: S [{0}] \"{0}\"\r\n", c.name));
        for l in c.extra {
            header.push_str(&format!("\\{l}\r\n"));
        }
        offset += len;
    }
    header.push_str("\\*File list end\r\n");
    let mut buf = header.into_bytes();
    buf.resize(data_start, 0);
    for c in channels {
        for s in &c.samples {
            buf.extend_from_slice(&s.to_le_bytes());
        }
    }
    buf
}

const FILE_SECTION: &str = "\\*File list\r\n\\Version: 1\r\n";
const SCANNER_SECTION: &str =
    "\\*Scanner list\r\n\\@Sens. Zsensor: V 9.5 nm/V\r\n\\@Sens. Ypiezo: V 100 nm/V\r\n";
const HEIGHT_EXTRA: &[&str] = &["@2:Z scale Zsensor: V [x] (0.5 V/LSB) 1 V", "Z LSB scale: 2"];
const X_EXTRA: &[&str] = &["@2:Z scale Y scan: V [x] (0.25 V/LSB) 1 V", "Z LSB scale: 1"];

fn two_channels(x: Vec<i16>, h: Vec<i16>) -> Vec<ChannelSpec<'static>> {
    vec![
        ChannelSpec { name: "Height", extra: HEIGHT_EXTRA, samples: h },
        ChannelSpec { name: "Y scan", extra: X_EXTRA, samples: x },
    ]
}

fn load(buf: &[u8]) -> Result<NanoscopeFile, LoadError> {
    NanoscopeFile::from_buffer("test.001", buf)
}

#[test]
fn load_collects_sections_channels_and_lines() {
    let buf = build_file(
        &[FILE_SECTION, "\\*Sweep list\r\n\\A: 1\r\n", SCANNER_SECTION, "\\*Other list\r\n\\B: 2\r\n"],
        &two_channels(vec![3, 1, 2, 0, 2, 5, 0], vec![0, 10, 20, 0, 0, 50, 0]),
    );
    let f = load(&buf).unwrap();
    assert_eq!(f.file_path, "test.001");
    assert!(f.sweep_metadata.is_some());
    assert!(f.equipment_metadata.is_none());
    assert_eq!(f.channels.len(), 2);
    assert_eq!(shown(&f.channels[0].name), "Height");
    assert_eq!(f.scan.lines, vec![(vec![1, 2], vec![10, 20]), (vec![5], vec![50])]);
    assert!(matches!(&f.scan.scales.height_nm_per_v, FloatSource::Literal(s) if s == "9.5"));
    assert!(matches!(&f.scan.scales.x_nm_per_v, FloatSource::Literal(s) if s == "100"));
    assert!(matches!(&f.scan.scales.height_v_per_lsb, FloatSource::Literal(s) if s == "0.5"));
    assert!(matches!(&f.scan.scales.height_lsb_scale, FloatSource::Integer(2)));
    assert!(matches!(&f.scan.scales.x_lsb_scale, FloatSource::Integer(1)));
}

#[test]
fn load_merges_repeated_sections_and_skips_lines_before_sections() {
    let buf = build_file(
        &[
            "\\Stray: 1\r\n",
            FILE_SECTION,
            "\\*Scanner list\r\n\\@Sens. Zsensor: V 9.5 nm/V\r\n",
            "\\*Ciao scan list\r\n\\@Sens. Ypiezo: V 100 nm/V\r\n",
        ],
        &two_channels(vec![1], vec![1]),
    );
    let f = load(&buf).unwrap();
    assert_eq!(f.scanner_metadata.data.len(), 2);
    assert!(f.file_metadata.get("stray").is_err());
}

#[test]
fn load_refuses_short_files() {
    match load(b"\\*File list\r\n") {
        Err(e) => assert_eq!(shown_all(&e.message()), "File header too short."),
        Ok(_) => panic!(),
    }
}

#[test]
fn load_requires_file_and_scanner_sections() {
    let no_file = build_file(&[SCANNER_SECTION], &two_channels(vec![1], vec![1]));
    match load(&no_file) {
        Err(e) => assert_eq!(shown_all(&e.message()), "Rustyscope Error: Missing section 'File Metadata'"),
        Ok(_) => panic!(),
    }
    let no_scanner = build_file(&[FILE_SECTION], &two_channels(vec![1], vec![1]));
    match load(&no_scanner) {
        Err(e) => assert_eq!(shown_all(&e.message()), "Rustyscope Error: Missing section 'Scanner Metadata'"),
        Ok(_) => panic!(),
    }
}

#[test]
fn load_reports_bad_data_lines() {
    let buf = build_file(
        &[FILE_SECTION, "\\*Engage list\r\n\\broken line\r\n", SCANNER_SECTION],
        &two_channels(vec![1], vec![1]),
    );
    match load(&buf) {
        Err(e) => assert_eq!(
            shown_all(&e.message()),
            "error inserting line - can't split without delimiter (: )"
        ),
        Ok(_) => panic!(),
    }
}

#[test]
fn load_reports_channel_errors_with_index() {
    let mut buf = build_file(&[FILE_SECTION, SCANNER_SECTION], &two_channels(vec![1], vec![1]));
    buf.truncate(8192 + 2);
    match load(&buf) {
        Err(e) => assert_eq!(
            shown_all(&e.message()),
            "Rustyscope parsing channel 1: Rustyscope error getting data in range 8194-8196"
        ),
        Ok(_) => panic!(),
    }
}

#[test]
fn load_reports_scan_errors() {
    let one = vec![ChannelSpec { name: "Height", extra: HEIGHT_EXTRA, samples: vec![1] }];
    let buf = build_file(&[FILE_SECTION, SCANNER_SECTION], &one);
    match load(&buf) {
        Err(e) => assert_eq!(
            shown_all(&e.message()),
            "Rustyscope parsing scan data: Rustyscope Error: couldn't get channel 1 (Y scan)."
        ),
        Ok(_) => panic!(),
    }
    let zero_length = build_file(
        &[FILE_SECTION, SCANNER_SECTION],
        &two_channels(vec![0, 1], vec![0, 1]),
    );
    match load(&zero_length) {
        Err(LoadError::Scan(ScanError::Channel(ChannelError::RangeOutOfBounds {
            start,
            end,
            name,
            ..
        }))) => {
            assert_eq!((start, end), (1, 0));
            assert_eq!(shown(&name), "Height");
        }
        _ => panic!(),
    }
    let negative = build_file(
        &[FILE_SECTION, SCANNER_SECTION],
        &two_channels(vec![1, 0, -1, 0], vec![0, 0, 0, 0]),
    );
    match load(&negative) {
        Err(LoadError::Scan(ScanError::Channel(ChannelError::RangeOutOfBounds { start, end, .. }))) => {
            assert_eq!((start, end), (3, 1));
        }
        _ => panic!(),
    }
    let missing_scale = build_file(
        &[FILE_SECTION, "\\*Scanner list\r\n\\@Sens. Ypiezo: V 100 nm/V\r\n"],
        &two_channels(vec![1], vec![1]),
    );
    match load(&missing_scale) {
        Err(e) => assert_eq!(
            shown_all(&e.message()),
            "Rustyscope parsing scan data: Rustyscope Error: couldn't find '@sens. zsensor' entry"
        ),
        Ok(_) => panic!(),
    }
}

#[test]
fn section_titles() {
    assert_eq!(HeaderSection::HSDCMetadata.title(), "HSDC Metadata");
    assert_eq!(HeaderSection::Channels(3).title(), "Channel 3");
    assert_eq!(HeaderSection::Other("x list".to_string()).title(), "x list");
}

#[test]
fn channel_sections_get_tables_of_their_own() {
    let header = "\\*File list\r\n\\V: 1\r\n\
        \\*Scanner list\r\n\\@Sens. Zsensor: V 1 nm/V\r\n\\@Sens. Ypiezo: V 1 nm/V\r\n\
        \\*Ciao image list\r\n\\Data offset: 4096\r\n\\Data length: 2\r\n\
        \\@2:Image Data: S [Height] \"Height\"\r\n\\@2:Z scale Zsensor: V (1 V/LSB)\r\n\\Z LSB scale: 1\r\n\
        \\*Other list\r\n\\Q: 1\r\n\
        \\*Ciao image list\r\n\\Data offset: 4098\r\n\\Data length: 2\r\n\
        \\@2:Image Data: S [Y scan] \"Y scan\"\r\n\\@2:Z scale Y scan: V (1 V/LSB)\r\n\\Z LSB scale: 1\r\n\
        \\*File list end\r\n";
    let mut buf = header.as_bytes().to_vec();
    buf.resize(4096, 0);
    buf.extend_from_slice(&[1, 0, 1, 0]);
    let f = NanoscopeFile::from_buffer("t", &buf).unwrap();
    assert_eq!(f.channels.len(), 2);
    assert_eq!(shown(&f.channels[0].name), "Height");
    assert_eq!(shown(&f.channels[1].name), "Y scan");
    assert_eq!(f.channels[1].metadata.data.len(), 5);
}

#[test]
fn insert_line_keeps_each_key_once() {
    let m = metadata_from(&["Scan Size: 1", "scan size: 2", "Other: x", "SCAN SIZE: 3"]);
    assert_eq!(m.data.len(), 2);
    assert_eq!(m.data[0].0, "scan size");
    assert!(matches!(m.get("scan size").unwrap(), MetadataValue::Integer(3)));
    assert_eq!(m.data[1].0, "other");
}

#[test]
fn split_lines_closed_form() {
    let lines = split_lines(b"\r\nab\r\n\ncd\nef");
    assert_eq!(lines, vec![&b""[..], &b"ab"[..], &b"cd"[..]]);
}

#[test]
fn unterminated_tail_adds_no_line() {
    assert_eq!(split_lines(b"ab\ncd"), split_lines(b"ab\n"));
    assert_eq!(split_lines(b"ab\ncd"), vec![&b"ab"[..]]);
}

#[test]
fn break_kinds_and_repeats_end_lines_alike() {
    assert_eq!(split_lines(b"ab\rcd\n"), split_lines(b"ab\ncd\n"));
    assert_eq!(split_lines(b"ab\n\r\ncd\n"), split_lines(b"ab\ncd\n"));
    assert_eq!(split_lines(b"ab\ncd\n"), vec![&b"ab"[..], &b"cd"[..]]);
}

#[test]
fn header_lines_grow_only_at_end() {
    let short: Vec<&[u8]> = vec![b"\\a: 1", b"x", b"\\b: 2"];
    let long: Vec<&[u8]> = vec![b"\\a: 1", b"x", b"\\b: 2", b"\\c: 3"];
    let s = filter_valid_header_lines(short);
    let l = filter_valid_header_lines(long);
    assert_eq!(&l[..s.len()], &s[..]);
    let ended: Vec<&[u8]> = vec![b"\\a: 1", b"\\*File list end"];
    let ended_more: Vec<&[u8]> = vec![b"\\a: 1", b"\\*File list end", b"\\b: 2"];
    assert_eq!(filter_valid_header_lines(ended), filter_valid_header_lines(ended_more));
}

fn plain_channel(name: &str, data: Vec<i16>) -> Channel {
    Channel { name: TextPiece::Plain(name.to_string()), metadata: Metadata::new(), data }
}

#[test]
fn scan_lines_closed_form() {
    let height = plain_channel("Height", vec![0, 1, 2, 3, 4]);
    let x = plain_channel("Y scan", vec![2, 10, 1, 2, 11]);
    let lines = segment_scan_lines(&x, &height).unwrap();
    assert_eq!(lines, vec![(vec![10], vec![1]), (vec![11], vec![4])]);
    let bad = plain_channel("Y scan", vec![2, 10, 1, 9, 11]);
    match segment_scan_lines(&bad, &height) {
        Err(ChannelError::RangeOutOfBounds { start, end, len, name }) => {
            assert_eq!((start, end, len), (4, 12, 5));
            assert_eq!(shown(&name), "Height");
        }
        _ => panic!(),
    }
}

#[test]
fn collapsed_break_runs_keep_lines() {
    assert_eq!(split_lines(b"\r\n\rab\r\n\ncd\n\r"), split_lines(b"\nab\ncd\n"));
    assert_eq!(split_lines(b"\nab\ncd\n"), vec![&b""[..], &b"ab"[..], &b"cd"[..]]);
}

#[test]
fn parse_value_reads_as_std_parse_does() {
    let cases = [
        "0", "-0", "+3", "12", "-12", "9223372036854775807", "-9223372036854775808",
        "9223372036854775808", "99999999999999999999", "1.5", "1.50", "3.0", ".5", "5.", "1e5",
        "1E-3", "-2.5e+10", "NaN", "nan", "+nan", "inf", "-inf", "Infinity", "infinity", "e5", ".",
        "", " 1", "1 ", "1_000", "0x10", "1.2.3", "--1", "+", "-", "abc", "S [Height] \"Height\"",
    ];
    for s in cases {
        match parse_value(s) {
            MetadataValue::Integer(x) => assert_eq!(s.parse::<i64>(), Ok(x), "{s}"),
            MetadataValue::Float(lit) => {
                assert!(s.parse::<i64>().is_err(), "{s}");
                assert!(s.parse::<f64>().is_ok(), "{s}");
                assert_eq!(lit, s);
            }
            MetadataValue::String(t) => {
                assert!(s.parse::<i64>().is_err(), "{s}");
                assert!(s.parse::<f64>().is_err(), "{s}");
                assert_eq!(t, s);
            }
        }
    }
}
