use wizpatch::file_list::{find_element, read_record};
use wizpatch::{read_file_list, FileRecord, WizPatchError};

fn pairs(records: Vec<FileRecord>) -> Vec<(String, u64)> {
    records.into_iter().map(|r| (r.src_file_name, r.crc)).collect()
}

fn record(name: &str, crc: &str) -> String {
    format!("<RECORD><SrcFileName TYPE=\"STR\">{name}</SrcFileName><CRC TYPE=\"UINT\">{crc}</CRC></RECORD>\n")
}

#[test]
fn element_reads_back() {
    let xml = b"<a>x</a><CRC TYPE=\"UINT\">12</CRC><CRC>13</CRC>";
    assert_eq!(find_element(xml, b"<CRC"), Some(&b"12"[..]));
    assert_eq!(find_element(xml, b"<a"), Some(&b"x"[..]));
    assert_eq!(find_element(b"<CRC> \t12\r\n </CRC>", b"<CRC"), Some(&b"12"[..]));
    assert_eq!(find_element(b"<CRC>  </CRC>", b"<CRC"), Some(&b""[..]));
}

#[test]
fn element_that_is_cut_off_is_not_found() {
    assert_eq!(find_element(b"", b"<CRC"), None);
    assert_eq!(find_element(b"12</CRC>", b"<CRC"), None);
    assert_eq!(find_element(b"<CRC", b"<CRC"), None);
    assert_eq!(find_element(b"<CRC>12", b"<CRC"), None);
    assert_eq!(find_element(b"<CRC>12<", b"<CRC"), None);
}

#[test]
fn records_are_read_in_order() {
    let list = format!(
        "<?xml version=\"1.0\"?><LatestFileList>{}{}{}</LatestFileList>",
        record("Data/a.wad", "305419896"),
        record("Bin/\u{e9}.exe", "0"),
        record("b", "18446744073709551615")
    );
    let expected = vec![
        ("Data/a.wad".to_string(), 305419896),
        ("Bin/\u{e9}.exe".to_string(), 0),
        ("b".to_string(), u64::MAX),
    ];
    assert_eq!(pairs(read_file_list(list.as_bytes()).unwrap()), expected);
}

#[test]
fn list_without_records_is_empty() {
    assert_eq!(pairs(read_file_list(b"").unwrap()), vec![]);
    assert_eq!(pairs(read_file_list(b"<SrcFileName>a</SrcFileName><CRC>1</CRC>").unwrap()), vec![]);
}

#[test]
fn record_without_name_or_checksum_is_left_out() {
    let list = format!("{}<RECORD><CRC>1</CRC></RECORD><RECORD><SrcFileName>c</SrcFileName>", record("a", "7"));
    assert_eq!(pairs(read_file_list(list.as_bytes()).unwrap()), vec![("a".to_string(), 7)]);
    assert!(matches!(read_record(b"<CRC>1</CRC>"), Ok(None)));
}

#[test]
fn first_bad_record_is_the_error() {
    let list = [record("a", "7"), record("b", "x1"), record("c", "-2")].concat();
    match read_file_list(list.as_bytes()) {
        Err(WizPatchError::Protocol(text)) => assert_eq!(text, "bad checksum: x1"),
        other => panic!("{other:?}"),
    }
    match read_file_list(record("a", "18446744073709551616").as_bytes()) {
        Err(WizPatchError::Protocol(text)) => assert_eq!(text, "bad checksum: 18446744073709551616"),
        other => panic!("{other:?}"),
    }
}

#[test]
fn name_that_is_not_text_is_refused() {
    match read_file_list(b"<RECORD><SrcFileName>\xffA</SrcFileName><CRC>x</CRC>") {
        Err(WizPatchError::Utf8(bytes)) => assert_eq!(bytes, vec![0xff, 0x41]),
        other => panic!("{other:?}"),
    }
}
