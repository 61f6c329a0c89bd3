use e57::Error;
use e57::PagedReader;
use e57::PagedWriter;

#[test]
fn paged_stream_write_read_round_trip() {
    let data: Vec<u8> = (0..3000u32).map(|i| (i % 251) as u8).collect();
    let mut w = PagedWriter::new();
    w.write_all(&data);
    let phys = w.finish();
    // 3000 payload bytes need three pages
    assert_eq!(phys.len(), 3 * 1024);
    let mut r = PagedReader::new(phys, 3000).expect("whole pages must open");
    let first = r.read(1000).expect("intact pages must read");
    assert_eq!(&first[..], &data[..1000]);
    let rest = r.read(2000).expect("intact pages must read");
    assert_eq!(&rest[..], &data[1000..3000]);
    // asking for more than the declared length still holds is a truncation
    // error, not a short read
    assert_eq!(r.read(1), Err(Error::TruncatedSection));
}

#[test]
fn paged_stream_split_writes_match_one_write() {
    let data: Vec<u8> = (0..2500u32).map(|i| (i * 7 % 256) as u8).collect();
    let mut one = PagedWriter::new();
    one.write_all(&data);
    let mut split = PagedWriter::new();
    split.write_all(&data[..700].to_vec());
    split.write_all(&data[700..1900].to_vec());
    split.write_all(&data[1900..].to_vec());
    assert_eq!(one.finish(), split.finish());
}

#[test]
fn paged_reader_checksum_failure_names_the_page() {
    let data: Vec<u8> = vec![0xAB; 2100];
    let mut w = PagedWriter::new();
    w.write_all(&data);
    let mut phys = w.finish();
    // corrupt one byte in the payload of the second page
    phys[1024 + 17] ^= 0x40;
    let mut r = PagedReader::new(phys, 2100).expect("whole pages must open");
    // the first page is intact
    assert!(r.read(1000).is_ok());
    // the next read touches the corrupted page
    assert_eq!(r.read(500), Err(Error::ChecksumMismatch { page: 1 }));
}
