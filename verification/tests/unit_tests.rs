use rustyscope::text::TextPiece;
use rustyscope::NanoscopeFile;

/// The text a piece shows; a float piece shows the number its literal denotes.
fn shown(p: &TextPiece) -> String {
    match p {
        TextPiece::Plain(s) => s.clone(),
        TextPiece::Float(lit) => lit.parse::<f64>().unwrap().to_string(),
    }
}

const TEST_FILE_PATH: &str = "good_test_file.001";

/// Where the sample data of the test file starts.
const DATA_OFFSET: usize = 4096;

/// Appends the little-endian bytes of `samples`.
fn push_samples(buf: &mut Vec<u8>, samples: &[i16]) {
    for s in samples {
        buf.extend_from_slice(&s.to_le_bytes());
    }
}

/// A small Nanoscope file: every header section, a height channel and a y-scan channel
/// whose samples form two scan lines.
fn good_test_file() -> Vec<u8> {
    let x: Vec<i16> = vec![3, 10, 20, 99, 2, 30, 0];
    let height: Vec<i16> = vec![0, -5, 7, 0, 0, 9, 0];
    let len = 2 * x.len();
    let header = format!(
        "\\*File list\r\n\
         \\Version: 0x09300201\r\n\
         \\Date: 12:00:00 PM Mon Jan 01 2024\r\n\
         \\*Equipment list\r\n\
         \\Description: D3100\r\n\
         \\*Scanner list\r\n\
         \\@Sens. Zsensor: V 9.5 nm/V\r\n\
         \\@Sens. Ypiezo: V 100.25 nm/V\r\n\
         \\*HSDC list\r\n\
         \\HSDC rate: 1\r\n\
         \\*Misc. data list\r\n\
         \\Note: misc\r\n\
         \\*Engage list\r\n\
         \\Engage mode: 1\r\n\
         \\*Sweep list\r\n\
         \\Points: 2\r\n\
         \\*Ciao image list\r\n\
         \\Data offset: {off0}\r\n\
         \\Data length: {len}\r\n\
         \\@2:Image Data: S [Height] \"Height\"\r\n\
         \\@2:Z scale Zsensor: V [Sens. Zsensor] (0.000375 V/LSB) 24.58 V\r\n\
         \\Z LSB scale: 1\r\n\
         \\*Ciao image list\r\n\
         \\Data offset: {off1}\r\n\
         \\Data length: {len}\r\n\
         \\@2:Image Data: S [Y scan] \"Y scan\"\r\n\
         \\@2:Z scale Y scan: V [Sens. Ypiezo] (0.0002 V/LSB) 13.1 V\r\n\
         \\Z LSB scale: 2.5\r\n\
         \\*File list end\r\n",
        off0 = DATA_OFFSET,
        off1 = DATA_OFFSET + len,
        len = len,
    );
    let mut buf = header.into_bytes();
    buf.resize(DATA_OFFSET, 0);
    push_samples(&mut buf, &height);
    push_samples(&mut buf, &x);
    buf
}

fn load_test_file() -> Result<NanoscopeFile, String> {
    NanoscopeFile::from_buffer(TEST_FILE_PATH, &good_test_file()).map_err(|e| format!("{e:?}"))
}

#[test]
fn test_num_channels() -> Result<(), String> {
    let ns_file = load_test_file()?;
    let num_channels = ns_file.channels.len();
    assert_eq!(
        num_channels, 2,
        "number of channels ({num_channels}) did not equal 2"
    );
    Ok(())
}

#[test]
fn test_channel_names() -> Result<(), String> {
    let ns_file = load_test_file()?;
    let correct_channel_names: Vec<&str> = vec!["Height", "Y scan"];
    let channel_names: Vec<String> = ns_file.channels.iter().map(|c| shown(&c.name)).collect();
    assert_eq!(
        channel_names, correct_channel_names,
        "channel names {:?} were not equal to {:?}",
        channel_names, correct_channel_names,
    );
    Ok(())
}

#[test]
fn has_all_correct_metadata() -> Result<(), String> {
    let ns_file = load_test_file()?;
    assert!(
        ns_file.equipment_metadata.is_some(),
        "missing equipment_metadata"
    );
    assert!(ns_file.hdsc_metadata.is_some(), "missing hdsc_metadata");
    assert!(ns_file.misc_metadata.is_some(), "missing misc_metadata");
    assert!(ns_file.engage_metadata.is_some(), "missing engage_metadata");
    assert!(ns_file.sweep_metadata.is_some(), "missing sweep_metadata");
    Ok(())
}

#[test]
fn scan_lines_of_test_file() -> Result<(), String> {
    let ns_file = load_test_file()?;
    let lines = &ns_file.scan.lines;
    assert_eq!(lines.len(), 2);
    assert_eq!(lines[0], (vec![10, 20], vec![-5, 7]));
    assert_eq!(lines[1], (vec![30], vec![9]));
    Ok(())
}
