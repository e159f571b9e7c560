use papak::archive::{Archive, DecodeError, ExtractError};
use std::io::Write;

const RECORD_SIZE: usize = 156;

fn zlib(data: &[u8]) -> Vec<u8> {
    let mut enc = flate2::write::ZlibEncoder::new(Vec::new(), flate2::Compression::default());
    enc.write_all(data).unwrap();
    enc.finish().unwrap()
}

fn record_with_field(flags: u32, field: [u8; 128], sizes: [u32; 6]) -> Vec<u8> {
    let mut r = Vec::new();
    r.extend_from_slice(&flags.to_le_bytes());
    r.extend_from_slice(&field);
    for v in sizes {
        r.extend_from_slice(&v.to_le_bytes());
    }
    r
}

fn record(flags: u32, name: &str, u: u32, c: u32, off: u32) -> Vec<u8> {
    let mut field = [0u8; 128];
    field[..name.len()].copy_from_slice(name.as_bytes());
    record_with_field(flags, field, [u, c, off, 0, 0, 0])
}

fn build(records: &[Vec<u8>], payload: &[u8]) -> Vec<u8> {
    let mut d = (records.len() as u32).to_le_bytes().to_vec();
    for r in records {
        d.extend_from_slice(r);
    }
    d.extend_from_slice(payload);
    d
}

#[test]
fn round_trip_raw_and_zlib() {
    let table_end = (4 + 3 * RECORD_SIZE) as u32;
    let raw_a: &[u8] = &[1, 2, 3, 4, 5];
    let raw_c: &[u8] = b"some plain text payload";
    let orig_b: &[u8] = b"the quick brown fox jumps over the lazy dog";
    let comp_b = zlib(orig_b);
    let off_a = table_end;
    let off_b = off_a + raw_a.len() as u32;
    let off_c = off_b + comp_b.len() as u32;
    let mut payload = raw_a.to_vec();
    payload.extend_from_slice(&comp_b);
    payload.extend_from_slice(raw_c);
    let records = [
        record(7, "a.bin", raw_a.len() as u32, raw_a.len() as u32, off_a),
        record(0, "b.bin", orig_b.len() as u32, comp_b.len() as u32, off_b),
        record(1, "c.txt", raw_c.len() as u32, raw_c.len() as u32, off_c),
    ];
    let mut ar = Archive::from_reader(build(&records, &payload)).unwrap();
    assert_eq!(ar.extract("a.bin").unwrap(), raw_a.to_vec());
    assert_eq!(ar.extract("b.bin").unwrap(), orig_b.to_vec());
    assert_eq!(ar.extract("c.txt").unwrap(), raw_c.to_vec());
}

#[test]
fn extract_length_equals_uncompressed_size() {
    let table_end = (4 + 2 * RECORD_SIZE) as u32;
    let raw: &[u8] = b"0123456789";
    let orig: &[u8] = b"zlib-compressed entry content of some length";
    let comp = zlib(orig);
    let mut payload = raw.to_vec();
    payload.extend_from_slice(&comp);
    let records = [
        record(0, "raw", raw.len() as u32, raw.len() as u32, table_end),
        record(0, "packed", orig.len() as u32, comp.len() as u32, table_end + raw.len() as u32),
    ];
    let mut ar = Archive::from_reader(build(&records, &payload)).unwrap();
    for (name, u, _c) in ar.list_entries() {
        let data = ar.extract(&name).unwrap();
        assert_eq!(data.len(), u as usize);
    }
}

#[test]
fn overclaimed_count_is_truncated() {
    // Header claims three records but only one follows.
    let records = [record(0, "only", 0, 0, 0)];
    let mut d = 3u32.to_le_bytes().to_vec();
    d.extend_from_slice(&records[0]);
    match Archive::from_reader(d) {
        Err(e) => assert_eq!(e, DecodeError::Truncated),
        Ok(_) => panic!("decode of an overclaimed table succeeded"),
    }
}

#[test]
fn short_header_is_truncated() {
    match Archive::from_reader(vec![1, 0]) {
        Err(e) => assert_eq!(e, DecodeError::Truncated),
        Ok(_) => panic!("decode of a two-byte stream succeeded"),
    }
}

#[test]
fn cut_record_is_truncated() {
    let r = record(0, "half", 0, 0, 0);
    let mut d = 1u32.to_le_bytes().to_vec();
    d.extend_from_slice(&r[..RECORD_SIZE / 2]);
    match Archive::from_reader(d) {
        Err(e) => assert_eq!(e, DecodeError::Truncated),
        Ok(_) => panic!("decode of a cut record succeeded"),
    }
}

#[test]
fn unterminated_filename_is_malformed() {
    let field = [0xAAu8; 128];
    let records = [record_with_field(0, field, [0, 0, 0, 0, 0, 0])];
    match Archive::from_reader(build(&records, &[])) {
        Err(e) => assert_eq!(e, DecodeError::MalformedEntry),
        Ok(_) => panic!("decode of an unterminated filename succeeded"),
    }
}

#[test]
fn invalid_utf8_filename_is_malformed() {
    let mut field = [0u8; 128];
    field[0] = 0xFF;
    field[1] = 0xFE;
    let records = [record_with_field(0, field, [0, 0, 0, 0, 0, 0])];
    match Archive::from_reader(build(&records, &[])) {
        Err(e) => assert_eq!(e, DecodeError::MalformedEntry),
        Ok(_) => panic!("decode of an invalid UTF-8 filename succeeded"),
    }
}

#[test]
fn duplicate_filename_later_record_wins() {
    let table_end = (4 + 2 * RECORD_SIZE) as u32;
    let first: &[u8] = b"first payload";
    let second: &[u8] = b"second";
    let mut payload = first.to_vec();
    payload.extend_from_slice(second);
    let records = [
        record(0, "dup.txt", first.len() as u32, first.len() as u32, table_end),
        record(0, "dup.txt", second.len() as u32, second.len() as u32, table_end
            + first.len() as u32),
    ];
    let mut ar = Archive::from_reader(build(&records, &payload)).unwrap();
    assert_eq!(ar.extract("dup.txt").unwrap(), second.to_vec());
    let listing = ar.list_entries();
    assert_eq!(listing.len(), 1);
    assert_eq!(listing[0].0, "dup.txt".to_string());
    assert_eq!(listing[0].1, second.len() as u32);
}

#[test]
fn missing_filename_is_not_found_and_index_unchanged() {
    let table_end = (4 + RECORD_SIZE) as u32;
    let payload: &[u8] = b"hello";
    let records = [record(0, "a.txt", 5, 5, table_end)];
    let mut ar = Archive::from_reader(build(&records, payload)).unwrap();
    let before = ar.list_entries();
    assert_eq!(ar.extract("absent.txt"), Err(ExtractError::NotFound));
    let after = ar.list_entries();
    assert_eq!(before, after);
    assert_eq!(ar.extract("a.txt").unwrap(), payload.to_vec());
}

#[test]
fn single_raw_entry() {
    let table_end = (4 + RECORD_SIZE) as u32;
    let records = [record(0, "a.txt", 5, 5, table_end)];
    let mut ar = Archive::from_reader(build(&records, b"hello")).unwrap();
    assert_eq!(ar.extract("a.txt").unwrap(), b"hello".to_vec());
}

#[test]
fn single_zlib_entry() {
    let table_end = (4 + RECORD_SIZE) as u32;
    let comp = zlib(b"hello world");
    let records = [record(0, "a.txt", 11, comp.len() as u32, table_end)];
    let mut ar = Archive::from_reader(build(&records, &comp)).unwrap();
    assert_eq!(ar.extract("a.txt").unwrap(), b"hello world".to_vec());
}

#[test]
fn offset_past_end_is_seek_failure() {
    let records = [record(0, "far", 4, 4, 100_000)];
    let mut ar = Archive::from_reader(build(&records, b"xy")).unwrap();
    assert_eq!(ar.extract("far"), Err(ExtractError::SeekFailure));
}

#[test]
fn short_raw_payload_is_read_failure() {
    let table_end = (4 + RECORD_SIZE) as u32;
    let records = [record(0, "big", 10, 10, table_end)];
    let mut ar = Archive::from_reader(build(&records, b"abc")).unwrap();
    assert_eq!(ar.extract("big"), Err(ExtractError::ReadFailure));
}

#[test]
fn garbage_zlib_stream_is_decompress_failure() {
    let table_end = (4 + RECORD_SIZE) as u32;
    let records = [record(0, "bad", 16, 4, table_end)];
    let mut ar = Archive::from_reader(build(&records, &[0x12, 0x34, 0x56, 0x78])).unwrap();
    assert_eq!(ar.extract("bad"), Err(ExtractError::DecompressFailure));
}

#[test]
fn short_zlib_stream_is_decompress_failure() {
    let table_end = (4 + RECORD_SIZE) as u32;
    let comp = zlib(b"abc");
    // Declares more uncompressed bytes than the stream inflates to.
    let records = [record(0, "short", 9, comp.len() as u32, table_end)];
    let mut ar = Archive::from_reader(build(&records, &comp)).unwrap();
    assert_eq!(ar.extract("short"), Err(ExtractError::DecompressFailure));
}

#[test]
fn non_ascii_filename_round_trips() {
    let table_end = (4 + RECORD_SIZE) as u32;
    let records = [record(0, "café-ä.txt", 3, 3, table_end)];
    let mut ar = Archive::from_reader(build(&records, b"abc")).unwrap();
    let listing = ar.list_entries();
    assert_eq!(listing[0].0, "café-ä.txt".to_string());
    assert_eq!(ar.extract("café-ä.txt").unwrap(), b"abc".to_vec());
}

#[test]
fn empty_archive_lists_nothing() {
    let mut ar = Archive::from_reader(0u32.to_le_bytes().to_vec()).unwrap();
    assert_eq!(ar.list_entries(), Vec::new());
    assert_eq!(ar.extract("anything"), Err(ExtractError::NotFound));
}

#[test]
fn empty_raw_entry_extracts_empty() {
    let table_end = (4 + RECORD_SIZE) as u32;
    let records = [record(0, "empty", 0, 0, table_end)];
    let mut ar = Archive::from_reader(build(&records, &[])).unwrap();
    assert_eq!(ar.extract("empty").unwrap(), Vec::<u8>::new());
}
