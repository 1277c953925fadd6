use sqlite_clone::{DbOptions, Error, FileVersion, TextEncoding};

fn sample_header(page_size_raw: u16, num_pages: u32) -> Vec<u8> {
    let mut h = Vec::new();
    h.extend_from_slice(b"SQLite format 3\0");
    h.extend_from_slice(&page_size_raw.to_be_bytes());
    h.push(1); // file write version
    h.push(1); // file read version
    h.push(0); // reserved space
    h.push(64); // max payload fraction
    h.push(32); // min payload fraction
    h.push(32); // leaf payload fraction
    h.extend_from_slice(&7u32.to_be_bytes()); // change counter
    h.extend_from_slice(&num_pages.to_be_bytes());
    h.extend_from_slice(&0u32.to_be_bytes()); // first freelist trunk
    h.extend_from_slice(&0u32.to_be_bytes()); // freelist page count
    h.extend_from_slice(&3u32.to_be_bytes()); // schema cookie
    h.extend_from_slice(&4u32.to_be_bytes()); // schema format
    h.extend_from_slice(&0u32.to_be_bytes()); // cache size
    h.extend_from_slice(&0u32.to_be_bytes()); // largest root page
    h.extend_from_slice(&1u32.to_be_bytes()); // text encoding: utf-8
    h.extend_from_slice(&0u32.to_be_bytes()); // user version
    h.extend_from_slice(&0u32.to_be_bytes()); // incremental vacuum
    h.extend_from_slice(&0u32.to_be_bytes()); // application id
    h.extend_from_slice(&[0u8; 20]); // reserved
    h.extend_from_slice(&7u32.to_be_bytes()); // version valid for
    h.extend_from_slice(&3035004u32.to_be_bytes()); // sqlite version
    h
}

#[test]
fn header_parses_fields() {
    let bytes = sample_header(512, 2);
    let o = DbOptions::deserialize(&bytes).unwrap();
    assert_eq!(o.page_size, 512);
    assert_eq!(o.file_write_version, FileVersion::Legacy);
    assert_eq!(o.file_read_version, FileVersion::Legacy);
    assert_eq!(o.reserved_space, 0);
    assert_eq!(o.change_counter, 7);
    assert_eq!(o.num_pages, 2);
    assert_eq!(o.schema_cookie, 3);
    assert_eq!(o.schema_format, 4);
    assert_eq!(o.encoding, TextEncoding::Utf8);
    assert_eq!(o.version_valid_for, 7);
    assert_eq!(o.sqlite_version, 3035004);
}

#[test]
fn header_bad_magic_is_invalid_header() {
    // a file whose first 16 bytes are not the magic must fail
    let mut bytes = sample_header(512, 1);
    bytes[0] = b'X';
    assert_eq!(DbOptions::deserialize(&bytes).unwrap_err(), Error::InvalidHeader);
}

#[test]
fn header_short_input_is_invalid_header() {
    let bytes = sample_header(512, 1);
    assert_eq!(
        DbOptions::deserialize(&bytes[..50]).unwrap_err(),
        Error::InvalidHeader
    );
}

#[test]
fn header_page_size_must_be_power_of_two_in_range() {
    for bad in [0u16, 2, 256, 511, 513, 1000, 32769] {
        let bytes = sample_header(bad, 1);
        assert_eq!(
            DbOptions::deserialize(&bytes).unwrap_err(),
            Error::InvalidPageSize
        );
    }
    for good in [512u16, 1024, 2048, 4096, 8192, 16384, 32768] {
        let bytes = sample_header(good, 1);
        assert_eq!(DbOptions::deserialize(&bytes).unwrap().page_size, good as usize);
    }
    // the literal 1 means 65536
    let bytes = sample_header(1, 1);
    assert_eq!(DbOptions::deserialize(&bytes).unwrap().page_size, 65536);
}

#[test]
fn header_wrong_fractions_are_invalid() {
    let mut bytes = sample_header(512, 1);
    bytes[21] = 63;
    assert_eq!(
        DbOptions::deserialize(&bytes).unwrap_err(),
        Error::InvalidPayloadFractions
    );
}

#[test]
fn header_page_count_reconciliation() {
    // trusted: non-zero and change counter matches version-valid-for
    let bytes = sample_header(512, 9);
    assert_eq!(DbOptions::deserialize(&bytes).unwrap().num_pages, 9);
    // zero count: derived from the file size
    let mut img = sample_header(512, 0);
    img.resize(1024, 0);
    assert_eq!(DbOptions::deserialize(&img).unwrap().num_pages, 2);
    // mismatched change counter: derived from the file size too
    let mut img2 = sample_header(512, 9);
    img2[92..96].copy_from_slice(&8u32.to_be_bytes());
    img2.resize(1536, 0);
    assert_eq!(DbOptions::deserialize(&img2).unwrap().num_pages, 3);
}

#[test]
fn header_serialize_round_trips() {
    let bytes = sample_header(4096, 5);
    let o = DbOptions::deserialize(&bytes).unwrap();
    assert_eq!(o.serialize(), bytes);
    let d = DbOptions::defaults();
    let ser = d.serialize();
    assert_eq!(ser.len(), 100);
    let back = DbOptions::deserialize(&ser).unwrap();
    assert_eq!(back.page_size, 4096);
    assert_eq!(back.schema_format, 4);
}
