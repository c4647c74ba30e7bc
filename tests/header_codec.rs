use minitar::field::{Field, TarError};
use minitar::header::{Header, HeaderReader, HeaderWriter};

fn sample(name: &str, size: u64) -> Header {
    Header::new(
        name.as_bytes().to_vec(),
        0o644,
        1000,
        1000,
        size,
        1_700_000_000,
        String::from("alice"),
        String::from("staff"),
        0x801,
    )
}

fn encoded(h: &Header) -> Vec<u8> {
    let mut out = Vec::new();
    h.write(&mut out).unwrap();
    out
}

fn assert_same(a: &Header, b: &Header) {
    assert_eq!(a.name, b.name);
    assert_eq!(a.mode, b.mode);
    assert_eq!(a.uid, b.uid);
    assert_eq!(a.gid, b.gid);
    assert_eq!(a.size, b.size);
    assert_eq!(a.mtime, b.mtime);
    assert_eq!(a.typeflag, b.typeflag);
    assert_eq!(a.linkname, b.linkname);
    assert_eq!(a.magic, b.magic);
    assert_eq!(a.version, b.version);
    assert_eq!(a.uname, b.uname);
    assert_eq!(a.gname, b.gname);
    assert_eq!(a.devmajor, b.devmajor);
    assert_eq!(a.devminor, b.devminor);
    assert_eq!(a.prefix, b.prefix);
}

#[test]
fn new_fills_regular_file_fields() {
    let h = sample("a.txt", 5);
    assert_eq!(h.typeflag, b'0');
    assert_eq!(&h.magic, b"ustar\0");
    assert_eq!(&h.version, b"00");
    assert_eq!(h.linkname, None);
    assert_eq!(h.prefix, "");
    assert_eq!(h.devmajor, 8);
    assert_eq!(h.devminor, 1);
}

#[test]
fn record_is_512_bytes_with_octal_fields() {
    let h = sample("a.txt", 5);
    let rec = encoded(&h);
    assert_eq!(rec.len(), 512);
    assert_eq!(&rec[0..6], b"a.txt\0");
    assert!(rec[6..100].iter().all(|b| *b == 0));
    assert_eq!(&rec[100..108], b"0000644\0");
    assert_eq!(&rec[108..116], b"0001750\0");
    assert_eq!(&rec[124..136], b"00000000005\0");
    assert_eq!(&rec[136..148], b"14524770400\0");
    assert_eq!(rec[156], b'0');
    assert_eq!(&rec[257..263], b"ustar\0");
    assert_eq!(&rec[263..265], b"00");
    assert_eq!(&rec[265..271], b"alice\0");
    assert_eq!(&rec[297..303], b"staff\0");
    assert_eq!(&rec[329..337], &8u64.to_le_bytes());
    assert_eq!(&rec[337..345], &1u64.to_le_bytes());
    assert!(rec[500..512].iter().all(|b| *b == 0));
}

#[test]
fn checksum_is_sum_with_spaces() {
    let h = sample("a.txt", 5);
    let rec = encoded(&h);
    let mut spaced = rec.clone();
    for b in &mut spaced[148..156] {
        *b = b' ';
    }
    let sum: u32 = spaced.iter().map(|b| *b as u32).sum();
    assert_eq!(h.compute_checksum().unwrap(), sum);
    let field = format!("{:07o}\0", sum);
    assert_eq!(&rec[148..156], field.as_bytes());
}

#[test]
fn writer_without_checksum_leaves_spaces() {
    let h = sample("a.txt", 5);
    let rec = HeaderWriter::new(&h).write(false).unwrap();
    assert_eq!(rec.len(), 512);
    assert_eq!(&rec[148..156], b"        ");
}

#[test]
fn round_trip_restores_every_field() {
    let mut h = sample("dir/file.bin", 123_456);
    h.linkname = Some(b"target".to_vec());
    h.prefix = String::from("long/prefix");
    h.uname = String::from("r\u{fc}diger");
    let rec = encoded(&h);
    let back = Header::read(&rec).unwrap().unwrap();
    assert_same(&h, &back);
}

#[test]
fn round_trip_through_reader() {
    let h = sample("x", 0);
    let rec = encoded(&h);
    let back = HeaderReader::new(&rec).read().unwrap();
    assert_same(&h, &back);
}

#[test]
fn zero_block_ends_archive() {
    let block = vec![0u8; 512];
    assert!(matches!(Header::read(&block), Ok(None)));
    let mut longer = vec![0u8; 1024];
    longer[600] = 7;
    assert!(matches!(Header::read(&longer), Ok(None)));
}

#[test]
fn changed_name_byte_is_checksum_mismatch() {
    let h = sample("a.txt", 5);
    let mut rec = encoded(&h);
    rec[0] = b'b';
    assert!(matches!(
        Header::read(&rec),
        Err(TarError::ChecksumMismatch { .. })
    ));
}

#[test]
fn changed_raw_bytes_are_checksum_mismatch() {
    let h = sample("a.txt", 5);
    let rec = encoded(&h);
    for i in [156usize, 257, 264, 329, 344, 500, 511] {
        let mut changed = rec.clone();
        changed[i] ^= 0x40;
        match Header::read(&changed) {
            Err(TarError::ChecksumMismatch { expected, recorded }) => {
                assert_ne!(expected, recorded);
            }
            _ => panic!("byte {} changed without a checksum mismatch", i),
        }
    }
}

#[test]
fn short_input_is_truncated() {
    let h = sample("a.txt", 5);
    let rec = encoded(&h);
    assert!(matches!(Header::read(&rec[..511]), Err(TarError::Truncated)));
    assert!(matches!(Header::read(&[]), Err(TarError::Truncated)));
}

#[test]
fn unterminated_name_is_rejected() {
    let h = sample("a.txt", 5);
    let mut rec = encoded(&h);
    for b in &mut rec[0..100] {
        *b = b'n';
    }
    assert!(matches!(
        Header::read(&rec),
        Err(TarError::Unterminated(Field::Name))
    ));
}

#[test]
fn non_octal_mode_is_rejected() {
    let h = sample("a.txt", 5);
    let mut rec = encoded(&h);
    rec[106] = b'9';
    assert!(matches!(
        Header::read(&rec),
        Err(TarError::InvalidOctal(Field::Mode))
    ));
}

#[test]
fn invalid_utf8_uname_is_rejected() {
    let h = sample("a.txt", 5);
    let mut rec = encoded(&h);
    rec[265] = 0xff;
    assert!(matches!(
        Header::read(&rec),
        Err(TarError::InvalidUtf8(Field::Uname))
    ));
}

#[test]
fn long_name_cannot_be_encoded() {
    let name = "n".repeat(100);
    let h = sample(&name, 5);
    let mut out = vec![1u8, 2, 3];
    assert!(matches!(
        h.write(&mut out),
        Err(TarError::Unencodable(Field::Name))
    ));
    assert_eq!(out, vec![1u8, 2, 3]);
    let fits = sample(&"n".repeat(99), 5);
    assert!(fits.write(&mut out).is_ok());
}

#[test]
fn large_numbers_cannot_be_encoded() {
    let mut h = sample("a", 5);
    h.mode = 0o10000000;
    assert!(matches!(
        h.compute_checksum(),
        Err(TarError::Unencodable(Field::Mode))
    ));
    let mut h = sample("a", 0o100000000000);
    assert!(matches!(
        h.compute_checksum(),
        Err(TarError::Unencodable(Field::Size))
    ));
    h.size = 0o77777777777;
    assert!(h.compute_checksum().is_ok());
}

#[test]
fn null_inside_name_cannot_be_encoded() {
    let h = sample("a\0b", 5);
    assert!(matches!(
        h.compute_checksum(),
        Err(TarError::Unencodable(Field::Name))
    ));
}

#[test]
fn empty_link_reads_back_as_none() {
    let mut h = sample("a.txt", 5);
    h.linkname = Some(Vec::new());
    let rec = encoded(&h);
    let back = Header::read(&rec).unwrap().unwrap();
    assert_eq!(back.linkname, None);
    assert_eq!(back.name, h.name);
}
