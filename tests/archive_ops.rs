use minitar::archive::{
    append_to_archive, create_archive, extract_from_archive, get_archive_file_list, next_entry,
    padding_size, update_archive, write_entry, write_files_to_archive, write_footer, Entry,
};
use minitar::field::TarError;
use minitar::header::Header;

fn entry(name: &str, content: &[u8]) -> Entry {
    let header = Header::new(
        name.as_bytes().to_vec(),
        0o644,
        1000,
        1000,
        content.len() as u64,
        1_700_000_000,
        String::from("alice"),
        String::from("staff"),
        0,
    );
    Entry {
        header,
        content: content.to_vec(),
    }
}

fn two_files() -> Vec<u8> {
    create_archive(&[entry("a.txt", b"hello"), entry("b.txt", b"")]).unwrap()
}

fn names(archive: &[u8]) -> Vec<String> {
    get_archive_file_list(archive)
        .unwrap()
        .into_iter()
        .map(|n| String::from_utf8(n).unwrap())
        .collect()
}

#[test]
fn padding_fills_to_block_boundary() {
    assert_eq!(padding_size(0), 0);
    assert_eq!(padding_size(5), 507);
    assert_eq!(padding_size(511), 1);
    assert_eq!(padding_size(512), 0);
    assert_eq!(padding_size(513), 511);
    assert_eq!(padding_size(u64::MAX), 1);
    for n in [0u64, 1, 5, 511, 512, 513, 1024, 4097] {
        let total = n + padding_size(n);
        assert_eq!(total % 512, 0);
        assert_eq!(total, (n + 511) / 512 * 512);
    }
}

#[test]
fn create_two_files_layout() {
    let archive = two_files();
    assert_eq!(archive.len(), 512 + 512 + 512 + 1024);
    assert_eq!(&archive[0..6], b"a.txt\0");
    assert_eq!(&archive[512..517], b"hello");
    assert!(archive[517..1024].iter().all(|b| *b == 0));
    assert_eq!(&archive[1024..1030], b"b.txt\0");
    assert!(archive[1536..].iter().all(|b| *b == 0));
}

#[test]
fn list_two_files_in_order() {
    let archive = two_files();
    assert_eq!(names(&archive), vec!["a.txt", "b.txt"]);
}

#[test]
fn extract_two_files_content() {
    let archive = two_files();
    let out = extract_from_archive(&archive).unwrap();
    assert_eq!(out.len(), 2);
    assert_eq!(out[0].header.name, b"a.txt".to_vec());
    assert_eq!(out[0].content, b"hello".to_vec());
    assert_eq!(out[1].header.name, b"b.txt".to_vec());
    assert!(out[1].content.is_empty());
}

#[test]
fn append_replaces_footer() {
    let mut archive = two_files();
    let before = archive.clone();
    append_to_archive(&mut archive, &[entry("c.txt", b"xyz")]).unwrap();
    assert_eq!(archive.len(), 1536 + 512 + 512 + 1024);
    assert_eq!(&archive[..1536], &before[..1536]);
    assert_eq!(&archive[1536..1542], b"c.txt\0");
    assert_eq!(&archive[2048..2051], b"xyz");
    assert!(archive[2051..].iter().all(|b| *b == 0));
    assert_eq!(names(&archive), vec!["a.txt", "b.txt", "c.txt"]);
}

#[test]
fn append_to_short_archive_is_truncated() {
    let mut archive = vec![0u8; 1000];
    assert!(matches!(
        append_to_archive(&mut archive, &[entry("c.txt", b"xyz")]),
        Err(TarError::Truncated)
    ));
    assert_eq!(archive, vec![0u8; 1000]);
}

#[test]
fn update_existing_name_appends_copy() {
    let mut archive = two_files();
    update_archive(&mut archive, &[entry("a.txt", b"bye")]).unwrap();
    assert_eq!(names(&archive), vec!["a.txt", "b.txt", "a.txt"]);
    let out = extract_from_archive(&archive).unwrap();
    assert_eq!(out[2].content, b"bye".to_vec());
}

#[test]
fn update_new_name_is_refused() {
    let mut archive = two_files();
    let before = archive.clone();
    assert!(matches!(
        update_archive(&mut archive, &[entry("a.txt", b"1"), entry("z.txt", b"2")]),
        Err(TarError::NotInArchive)
    ));
    assert_eq!(archive, before);
}

#[test]
fn empty_archive_lists_nothing() {
    let mut archive = Vec::new();
    write_footer(&mut archive);
    assert_eq!(archive.len(), 1024);
    assert!(get_archive_file_list(&archive).unwrap().is_empty());
    assert_eq!(create_archive(&[]).unwrap(), archive);
}

#[test]
fn missing_footer_is_truncated() {
    let archive = two_files();
    assert!(matches!(
        get_archive_file_list(&archive[..1536]),
        Err(TarError::Truncated)
    ));
    assert!(matches!(
        extract_from_archive(&archive[..700]),
        Err(TarError::Truncated)
    ));
}

#[test]
fn next_entry_reports_offsets() {
    let archive = two_files();
    let (h, start, next) = next_entry(&archive, 0).unwrap().unwrap();
    assert_eq!(h.size, 5);
    assert_eq!(start, 512);
    assert_eq!(next, 1024);
    let (_, start, next) = next_entry(&archive, 1024).unwrap().unwrap();
    assert_eq!((start, next), (1536, 1536));
    assert!(next_entry(&archive, 1536).unwrap().is_none());
}

#[test]
fn corrupt_entry_stops_listing() {
    let mut archive = two_files();
    archive[1024] = b'c';
    assert!(matches!(
        get_archive_file_list(&archive),
        Err(TarError::ChecksumMismatch { .. })
    ));
}

#[test]
fn unencodable_entry_fails_create() {
    let long = "n".repeat(120);
    assert!(matches!(
        create_archive(&[entry("a.txt", b"x"), entry(&long, b"y")]),
        Err(TarError::Unencodable(minitar::field::Field::Name))
    ));
}

#[test]
fn block_aligned_content_takes_no_padding() {
    let x = vec![7u8; 512];
    let archive = create_archive(&[entry("x", &x), entry("y", b"abc")]).unwrap();
    assert_eq!(archive.len(), 512 + 512 + 512 + 512 + 1024);
    assert_eq!(names(&archive), vec!["x", "y"]);
    let out = extract_from_archive(&archive).unwrap();
    assert_eq!(out[0].content, x);
    assert_eq!(out[1].content, b"abc".to_vec());
}

#[test]
fn failing_entry_keeps_earlier_ones() {
    let long = "n".repeat(120);
    let first = entry("a.txt", b"hello");
    let mut expected = vec![9u8];
    write_entry(&mut expected, &first).unwrap();
    let mut archive = vec![9u8];
    assert!(matches!(
        write_files_to_archive(&mut archive, &[first, entry(&long, b"y"), entry("c", b"z")]),
        Err(TarError::Unencodable(minitar::field::Field::Name))
    ));
    assert_eq!(archive, expected);
}
