use webfishing_installer::pck::{PckFile, PCK};

fn le32(v: u32) -> Vec<u8> {
    v.to_le_bytes().to_vec()
}

fn header(version: u32, major: u32, minor: u32, patch: u32, count: u32) -> Vec<u8> {
    let mut b = b"GDPC".to_vec();
    b.extend(le32(version));
    b.extend(le32(major));
    b.extend(le32(minor));
    b.extend(le32(patch));
    b.extend(vec![0u8; 64]);
    b.extend(le32(count));
    b
}

fn empty_pck() -> PCK {
    PCK::from_bytes(&header(1, 3, 5, 1, 0)).unwrap()
}

#[test]
fn empty_archive_writes_header_padded_to_16() {
    let bytes = empty_pck().to_bytes();
    let mut expected = header(1, 3, 5, 1, 0);
    expected.extend(vec![0u8; 8]);
    assert_eq!(bytes, expected);
}

#[test]
fn bytes_without_magic_are_invalid() {
    let r = PCK::from_bytes(b"not an archive at all, really");
    assert_eq!(r.err(), Some("Invalid PCK"));
    assert_eq!(PCK::from_bytes(&[]).err(), Some("Invalid PCK"));
}

#[test]
fn magic_is_found_only_at_chunk_starts() {
    // GDPC at offset 4 is not at a chunk start.
    let mut b = vec![0u8; 4];
    b.extend(b"GDPC");
    b.extend(vec![0u8; 100]);
    assert_eq!(PCK::from_bytes(&b).err(), Some("Invalid PCK"));
}

#[test]
fn archive_after_leading_chunk_is_read() {
    let mut b = vec![0xAAu8; 16];
    b.extend(header(2, 3, 5, 0, 0));
    let p = PCK::from_bytes(&b).unwrap();
    let mut expected = header(2, 3, 5, 0, 0);
    expected.extend(vec![0u8; 8]);
    assert_eq!(p.to_bytes(), expected);
}

#[test]
fn new_file_has_md5_of_content() {
    let f = PckFile::new_file("res://a.txt".to_string(), b"hello".to_vec());
    assert_eq!(f.get_content(), b"hello");
    let mut p = empty_pck();
    p.add_file(f);
    let bytes = p.to_bytes();
    // header 88, entry 4 + 12 + 8 + 8 + 16 = 48, data start 144, data 16.
    assert_eq!(bytes.len(), 160);
    assert_eq!(&bytes[84..88], &le32(1)[..]);
    assert_eq!(&bytes[88..92], &le32(12)[..]);
    assert_eq!(&bytes[92..103], b"res://a.txt");
    assert_eq!(bytes[103], 0);
    assert_eq!(&bytes[104..112], &144u64.to_le_bytes()[..]);
    assert_eq!(&bytes[112..120], &16u64.to_le_bytes()[..]);
    let md5_hello: [u8; 16] = [
        0x5d, 0x41, 0x40, 0x2a, 0xbc, 0x4b, 0x2a, 0x76, 0xb9, 0x71, 0x9d, 0x91, 0x10, 0x17, 0xc5, 0x92,
    ];
    assert_eq!(&bytes[120..136], &md5_hello[..]);
    assert_eq!(&bytes[136..144], &[0u8; 8][..]);
    assert_eq!(&bytes[144..149], b"hello");
    assert_eq!(&bytes[149..160], &[0u8; 11][..]);
}

#[test]
fn write_then_read_gives_files_back_padded() {
    let mut p = empty_pck();
    p.add_file(PckFile::new_file("res://a.txt".to_string(), b"hello".to_vec()));
    p.add_file(PckFile::new_file("res://dir/b.bin".to_string(), vec![7u8; 20]));
    let bytes = p.to_bytes();
    let q = PCK::from_bytes(&bytes).unwrap();
    let a = q.get_file_by_path("res://a.txt").unwrap();
    let mut padded = b"hello".to_vec();
    padded.extend(vec![0u8; 11]);
    assert_eq!(a.get_content(), &padded[..]);
    let b = q.get_file_by_path("res://dir/b.bin").unwrap();
    let mut padded_b = vec![7u8; 20];
    padded_b.extend(vec![0u8; 12]);
    assert_eq!(b.get_content(), &padded_b[..]);
    assert!(q.get_file_by_path("res://c.txt").is_none());
    // Writing the read archive again gives the same bytes.
    assert_eq!(q.to_bytes(), bytes);
}

#[test]
fn add_file_replaces_file_with_same_path() {
    let mut p = empty_pck();
    p.add_file(PckFile::new_file("res://a.txt".to_string(), b"one".to_vec()));
    p.add_file(PckFile::new_file("res://b.txt".to_string(), b"two".to_vec()));
    p.add_file(PckFile::new_file("res://a.txt".to_string(), b"three".to_vec()));
    assert_eq!(p.get_file_by_path("res://a.txt").unwrap().get_content(), b"three");
    assert_eq!(p.get_file_by_path("res://b.txt").unwrap().get_content(), b"two");
    let bytes = p.to_bytes();
    assert_eq!(&bytes[84..88], &le32(2)[..]);
    // b.txt now comes first.
    assert_eq!(&bytes[92..103], b"res://b.txt");
}

#[test]
fn set_content_through_mut_lookup() {
    let mut p = empty_pck();
    p.add_file(PckFile::new_file("res://a.txt".to_string(), b"one".to_vec()));
    {
        let f = p.get_file_by_path_mut("res://a.txt").unwrap();
        f.set_content(b"hello".to_vec());
    }
    assert!(p.get_file_by_path_mut("res://missing").is_none());
    assert_eq!(p.get_file_by_path("res://a.txt").unwrap().get_content(), b"hello");
    let bytes = p.to_bytes();
    let md5_hello: [u8; 16] = [
        0x5d, 0x41, 0x40, 0x2a, 0xbc, 0x4b, 0x2a, 0x76, 0xb9, 0x71, 0x9d, 0x91, 0x10, 0x17, 0xc5, 0x92,
    ];
    assert_eq!(&bytes[120..136], &md5_hello[..]);
}

#[test]
fn md5_of_empty_content() {
    let mut p = empty_pck();
    p.add_file(PckFile::new_file("res://e".to_string(), Vec::new()));
    let bytes = p.to_bytes();
    // path 7 bytes, padded to 8; entry 44 bytes; md5 at 88 + 4 + 8 + 16.
    let md5_empty: [u8; 16] = [
        0xd4, 0x1d, 0x8c, 0xd9, 0x8f, 0x00, 0xb2, 0x04, 0xe9, 0x80, 0x09, 0x98, 0xec, 0xf8, 0x42, 0x7e,
    ];
    assert_eq!(&bytes[116..132], &md5_empty[..]);
    assert_eq!(bytes.len(), 144);
}

#[test]
fn path_of_four_bytes_gets_four_nuls() {
    let mut p = empty_pck();
    p.add_file(PckFile::new_file("abcd".to_string(), vec![1u8]));
    let bytes = p.to_bytes();
    assert_eq!(&bytes[88..92], &le32(8)[..]);
    assert_eq!(&bytes[92..96], b"abcd");
    assert_eq!(&bytes[96..100], &[0u8; 4][..]);
    let q = PCK::from_bytes(&bytes).unwrap();
    assert!(q.get_file_by_path("abcd").is_some());
}

#[test]
fn file_entry_read_from_reader() {
    let mut entry = le32(8);
    entry.extend(b"ab\0\0\0\0\0\0");
    entry.extend(2u64.to_le_bytes());
    entry.extend(3u64.to_le_bytes());
    entry.extend([9u8; 16]);
    let mut reader = binary_reader::BinaryReader::from_vec(&entry);
    reader.set_endian(binary_reader::Endian::Little);
    let file_bytes = b"0123456789";
    let f = PckFile::from_bytes(&mut reader, file_bytes);
    assert_eq!(f.get_content(), b"234");
    assert_eq!(reader.pos, 44);
    // Offset and size past the end are cut short.
    let mut entry2 = le32(4);
    entry2.extend(b"x\0\0\0");
    entry2.extend(8u64.to_le_bytes());
    entry2.extend(100u64.to_le_bytes());
    entry2.extend([0u8; 16]);
    let mut reader2 = binary_reader::BinaryReader::from_vec(&entry2);
    reader2.set_endian(binary_reader::Endian::Little);
    let g = PckFile::from_bytes(&mut reader2, file_bytes);
    assert_eq!(g.get_content(), b"89");
}

#[test]
fn read_path_drops_nuls() {
    let mut b = header(1, 3, 5, 0, 1);
    b.extend(le32(8));
    b.extend(b"a\0b\0\0\0\0\0");
    b.extend(0u64.to_le_bytes());
    b.extend(4u64.to_le_bytes());
    b.extend([0u8; 16]);
    let p = PCK::from_bytes(&b).unwrap();
    let f = p.get_file_by_path("ab").unwrap();
    assert_eq!(f.get_content(), b"GDPC");
}

#[test]
fn invalid_utf8_path_is_decoded_lossily() {
    let mut b = header(1, 3, 5, 0, 1);
    b.extend(le32(4));
    b.extend([0x66u8, 0xff, 0, 0]);
    b.extend(0u64.to_le_bytes());
    b.extend(1u64.to_le_bytes());
    b.extend([0u8; 16]);
    let p = PCK::from_bytes(&b).unwrap();
    assert!(p.get_file_by_path("f\u{FFFD}").is_some());
}

#[test]
fn truncated_table_is_not_readable() {
    let mut b = header(1, 3, 5, 0, 1);
    assert!(!PCK::is_readable(&b));
    b.extend(le32(4));
    b.extend(b"abc\0");
    b.extend(0u64.to_le_bytes());
    b.extend(0u64.to_le_bytes());
    assert!(!PCK::is_readable(&b));
    b.extend([0u8; 16]);
    assert!(PCK::is_readable(&b));
    assert!(PCK::is_readable(b"no magic here"));
    assert!(!PCK::is_readable(b"GDPC too short"));
}

#[test]
fn written_len_matches_bytes() {
    let mut p = empty_pck();
    p.add_file(PckFile::new_file("res://a.txt".to_string(), b"hello".to_vec()));
    assert_eq!(p.written_len(), Some(p.to_bytes().len()));
    assert_eq!(empty_pck().written_len(), Some(96));
}

#[test]
fn cloned_file_has_same_bytes() {
    let f = PckFile::new_file("res://a.txt".to_string(), b"hello".to_vec());
    let g = f.clone();
    assert_eq!(g.get_content(), b"hello");
    let mut p = empty_pck();
    p.add_file(g);
    assert!(p.get_file_by_path("res://a.txt").is_some());
}

#[test]
fn entry_read_with_library_reader() {
    let mut entry = le32(4);
    entry.extend(b"ab\0\0");
    entry.extend(1u64.to_le_bytes());
    entry.extend(2u64.to_le_bytes());
    entry.extend([3u8; 16]);
    let mut reader = webfishing_installer::reader::little_endian_reader(&entry);
    let f = PckFile::from_bytes(&mut reader, b"xyz");
    assert_eq!(f.get_content(), b"yz");
    assert_eq!(reader.pos, 40);
}
