use wizpatch::webdriver::{find, handshake_request, range_header, read_pascal_url, rfind, server_address};
use wizpatch::{parse_patch_urls, WizPatchError};

fn pascal(url: &str) -> Vec<u8> {
    let mut bytes = (url.len() as u16).to_le_bytes().to_vec();
    bytes.extend_from_slice(url.as_bytes());
    bytes
}

fn protocol_text<T: std::fmt::Debug>(r: Result<T, WizPatchError>) -> String {
    match r {
        Err(WizPatchError::Protocol(text)) => text,
        other => panic!("{other:?}"),
    }
}

#[test]
fn first_and_last_place_are_found() {
    assert_eq!(find(b"..http..http.", b"http"), Some(2));
    assert_eq!(rfind(b"..http..http.", b"http"), Some(8));
    assert_eq!(find(b"http", b"http"), Some(0));
    assert_eq!(rfind(b"http", b"http"), Some(0));
    assert_eq!(find(b"htt", b"http"), None);
    assert_eq!(rfind(b"htt", b"http"), None);
    assert_eq!(find(b"htxp", b"http"), None);
    assert_eq!(rfind(b"aaa", b"aa"), Some(1));
    assert_eq!(find(b"aaa", b"aa"), Some(0));
}

#[test]
fn written_url_reads_back() {
    let mut data = vec![1, 2, 3];
    data.extend(pascal("http://x/\u{e9}"));
    data.push(9);
    assert_eq!(read_pascal_url(&data, 3).unwrap(), "http://x/\u{e9}");
    let long = "h".repeat(300);
    assert_eq!(read_pascal_url(&pascal(&long), 0).unwrap(), long);
    assert_eq!(read_pascal_url(&[0, 0], 0).unwrap(), "");
}

#[test]
fn url_that_does_not_fit_is_refused() {
    assert_eq!(protocol_text(read_pascal_url(&[], 0)), "URL length out of bounds");
    assert_eq!(protocol_text(read_pascal_url(&[1, 0], 1)), "URL length out of bounds");
    assert_eq!(protocol_text(read_pascal_url(&[1, 0], 1000)), "URL length out of bounds");
    assert_eq!(protocol_text(read_pascal_url(&[1, 0], 0)), "URL string out of bounds");
    assert_eq!(protocol_text(read_pascal_url(&[0, 1, 7], 0)), "URL string out of bounds");
}

#[test]
fn url_that_is_not_text_is_refused() {
    match read_pascal_url(&[2, 0, 0xff, 0x41, 0x42], 0) {
        Err(WizPatchError::Utf8(bytes)) => assert_eq!(bytes, vec![0xff, 0x41]),
        other => panic!("{other:?}"),
    }
}

#[test]
fn reply_gives_both_urls() {
    let mut reply = vec![0x0D, 0xF0, 0, 0];
    reply.extend(pascal("http://a/WizPatcher/V_r1/Windows/LatestFileList.bin"));
    reply.extend([0, 0, 7]);
    reply.extend(pascal("http://b/WizPatcher/V_r1/LatestBuild"));
    reply.push(0);
    let urls = parse_patch_urls(&reply).unwrap();
    assert_eq!(urls.file_list_url, "http://a/WizPatcher/V_r1/Windows/LatestFileList.bin");
    assert_eq!(urls.base_url, "http://b/WizPatcher/V_r1/LatestBuild");
}

#[test]
fn only_url_is_both() {
    let urls = parse_patch_urls(&pascal("http://a")).unwrap();
    assert_eq!(urls.file_list_url, "http://a");
    assert_eq!(urls.base_url, "http://a");
}

#[test]
fn reply_without_url_is_refused() {
    assert_eq!(protocol_text(parse_patch_urls(b"")), "no http URL in response");
    assert_eq!(protocol_text(parse_patch_urls(b"ftp://x")), "no http URL in response");
}

#[test]
fn url_without_length_is_refused() {
    // The length is then taken from the URL's own first bytes.
    assert_eq!(protocol_text(parse_patch_urls(b"http://a")), "URL string out of bounds");
    assert_eq!(protocol_text(parse_patch_urls(b"\x04http")), "URL string out of bounds");
}

#[test]
fn broken_second_url_is_refused() {
    let mut reply = pascal("http://a");
    reply.extend([0xff, 0xff]);
    reply.extend(b"http://b");
    assert_eq!(protocol_text(parse_patch_urls(&reply)), "URL string out of bounds");
}

#[test]
fn request_is_header_and_zeros() {
    let request = handshake_request();
    assert_eq!(request[..11], [0x0D, 0xF0, 0x24, 0x00, 0x00, 0x00, 0x00, 0x00, 0x08, 0x01, 0x20]);
    assert_eq!(request[11..], [0u8; 29]);
    assert_eq!(request.len(), 40);
}

#[test]
fn addresses_and_ranges_are_rendered() {
    assert_eq!(server_address("patch.example.com", 12500), "patch.example.com:12500");
    assert_eq!(range_header(0, 1023), "bytes=0-1023");
    assert_eq!(range_header(u64::MAX, 7), format!("bytes={}-{}", u64::MAX, 7));
}

#[test]
fn copies_are_the_same() {
    let urls = parse_patch_urls(&pascal("http://a")).unwrap();
    let copy = urls.clone();
    assert_eq!((copy.file_list_url, copy.base_url), (urls.file_list_url, urls.base_url));
}
