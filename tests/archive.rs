use bytes::BytesMut;
use shaiya_archive::codec::{build_filesystem, read_filesystem};
use shaiya_archive::fs::{DirectoryEntry, File, Filesystem, FilesystemError, Folder};
use shaiya_archive::io::{ByteCursor, ShaiyaRead, ShaiyaWrite};

fn direct(name: &str, data: &[u8]) -> DirectoryEntry {
    DirectoryEntry::File(File::Direct { name: name.to_string(), data: data.to_vec() })
}

fn folder(name: &str, contents: Vec<DirectoryEntry>) -> DirectoryEntry {
    DirectoryEntry::Folder(Folder { name: name.to_string(), contents })
}

fn virt(name: &str, offset: u64, length: u32, checksum: u32) -> DirectoryEntry {
    DirectoryEntry::File(File::Virtual { name: name.to_string(), offset, length, checksum })
}

fn cksum(data: &[u8]) -> u32 {
    crc::Crc::<u32>::new(&crc::CRC_32_CKSUM).checksum(data)
}

fn lp(s: &[u8]) -> Vec<u8> {
    let mut v = ((s.len() + 1) as u32).to_le_bytes().to_vec();
    v.extend_from_slice(s);
    v.push(0);
    v
}

fn header_prefix(total: u32) -> Vec<u8> {
    let mut v = b"SAH".to_vec();
    v.extend_from_slice(&0u32.to_le_bytes());
    v.extend_from_slice(&total.to_le_bytes());
    v.extend_from_slice(&[0u8; 40]);
    v.extend_from_slice(&lp(b"data"));
    v
}

#[test]
fn concrete_scenario_two_files() {
    let fs = Filesystem {
        contents: vec![direct("a.txt", b"DATA"), folder("sub", vec![direct("b.bin", b"")])],
    };
    assert!(fs.can_build());
    let (header, data) = build_filesystem(&fs);
    assert_eq!(data, b"DATA".to_vec());
    let decoded = read_filesystem(&header).unwrap();
    let expected = Filesystem {
        contents: vec![
            virt("a.txt", 0, 4, cksum(b"DATA")),
            folder("sub", vec![virt("b.bin", 4, 0, 0xFFFF_FFFF)]),
        ],
    };
    assert_eq!(decoded, expected);
}

#[test]
fn empty_input_checksum_constant() {
    assert_eq!(cksum(b""), 0xFFFF_FFFF);
    assert_eq!(cksum(b"123456789"), 0x765E_7680);
}

#[test]
fn header_bytes_exact() {
    let fs = Filesystem { contents: vec![direct("a.txt", b"DATA"), folder("sub", vec![])] };
    let (header, data) = build_filesystem(&fs);
    let mut expected = header_prefix(1);
    expected.extend_from_slice(&1u32.to_le_bytes());
    expected.extend_from_slice(&lp(b"a.txt"));
    expected.extend_from_slice(&0u64.to_le_bytes());
    expected.extend_from_slice(&4u32.to_le_bytes());
    expected.extend_from_slice(&cksum(b"DATA").to_le_bytes());
    expected.extend_from_slice(&1u32.to_le_bytes());
    expected.extend_from_slice(&lp(b"sub"));
    expected.extend_from_slice(&0u32.to_le_bytes());
    expected.extend_from_slice(&0u32.to_le_bytes());
    expected.extend_from_slice(&[0u8; 8]);
    assert_eq!(header, expected);
    assert_eq!(data, b"DATA".to_vec());
}

#[test]
fn empty_filesystem_layout() {
    let fs = Filesystem { contents: vec![] };
    let (header, data) = build_filesystem(&fs);
    let mut expected = header_prefix(0);
    expected.extend_from_slice(&[0u8; 16]);
    assert_eq!(header, expected);
    assert!(data.is_empty());
    assert_eq!(read_filesystem(&header).unwrap(), Filesystem { contents: vec![] });
}

#[test]
fn round_trip_nested_tree_groups_files_first() {
    let fs = Filesystem {
        contents: vec![
            folder("maps", vec![direct("m1.dat", b"xyz"), folder("empty", vec![])]),
            direct("z.txt", b"hello"),
            folder("npc", vec![folder("deep", vec![direct("d.bin", &[0u8, 1, 2, 0])])]),
            direct("a.txt", b""),
        ],
    };
    let (header, data) = build_filesystem(&fs);
    assert_eq!(data, b"helloxyz\x00\x01\x02\x00".to_vec());
    assert_eq!(&header[7..11], &4u32.to_le_bytes());
    let decoded = read_filesystem(&header).unwrap();
    let expected = Filesystem {
        contents: vec![
            virt("z.txt", 0, 5, cksum(b"hello")),
            virt("a.txt", 5, 0, cksum(b"")),
            folder("maps", vec![virt("m1.dat", 5, 3, cksum(b"xyz")), folder("empty", vec![])]),
            folder(
                "npc",
                vec![folder("deep", vec![virt("d.bin", 8, 4, cksum(&[0u8, 1, 2, 0]))])],
            ),
        ],
    };
    assert_eq!(decoded, expected);
}

#[test]
fn offsets_follow_append_order() {
    let fs = Filesystem {
        contents: vec![
            direct("one", b"1"),
            folder("f", vec![direct("two", b"22"), direct("three", b"333")]),
            direct("four", b"4444"),
        ],
    };
    let (header, data) = build_filesystem(&fs);
    assert_eq!(data.len(), 10);
    let decoded = read_filesystem(&header).unwrap();
    let mut records = Vec::new();
    fn collect(entries: &[DirectoryEntry], out: &mut Vec<(u64, u32, u32)>) {
        for e in entries {
            match e {
                DirectoryEntry::File(File::Virtual { offset, length, checksum, .. }) => {
                    out.push((*offset, *length, *checksum))
                }
                DirectoryEntry::Folder(f) => collect(&f.contents, out),
                DirectoryEntry::File(File::Direct { .. }) => panic!("direct file in decoded tree"),
            }
        }
    }
    collect(&decoded.contents, &mut records);
    assert_eq!(records.len(), 4);
    for w in records.windows(2) {
        assert!(w[0].0 + w[0].1 as u64 <= w[1].0);
    }
    for (offset, length, checksum) in &records {
        let slice = &data[*offset as usize..*offset as usize + *length as usize];
        assert_eq!(cksum(slice), *checksum);
    }
}

#[test]
fn magic_rejection_reports_bytes() {
    let mut header = header_prefix(0);
    header[0..3].copy_from_slice(b"XYZ");
    assert_eq!(
        read_filesystem(&header),
        Err(FilesystemError::InvalidMagicValue("XYZ".to_string()))
    );
}

#[test]
fn short_buffer_is_eof() {
    assert_eq!(read_filesystem(b"SA"), Err(FilesystemError::UnexpectedEof));
    assert_eq!(read_filesystem(b"SAH\x00"), Err(FilesystemError::UnexpectedEof));
}

#[test]
fn truncation_rejection() {
    let mut header = header_prefix(5);
    header.extend_from_slice(&5u32.to_le_bytes());
    for name in [b"a".as_slice(), b"b".as_slice()] {
        header.extend_from_slice(&lp(name));
        header.extend_from_slice(&0u64.to_le_bytes());
        header.extend_from_slice(&0u32.to_le_bytes());
        header.extend_from_slice(&0u32.to_le_bytes());
    }
    assert_eq!(read_filesystem(&header), Err(FilesystemError::UnexpectedEof));
}

#[test]
fn truncated_folder_is_eof() {
    let fs = Filesystem { contents: vec![folder("sub", vec![direct("x", b"1")])] };
    let (header, _) = build_filesystem(&fs);
    let body_end = header.len() - 8;
    assert_eq!(read_filesystem(&header[..body_end - 1]), Err(FilesystemError::UnexpectedEof));
    assert!(read_filesystem(&header[..body_end]).is_ok());
}

#[test]
fn length_prefixed_string_law() {
    for s in ["", "a", "hello world", "data"] {
        let mut buf = BytesMut::new();
        buf.put_length_prefixed_string(s);
        assert_eq!(buf.to_vec(), lp(s.as_bytes()));
        let bytes = buf.to_vec();
        let mut cursor = ByteCursor::new(&bytes);
        assert_eq!(cursor.read_length_prefixed_string().unwrap(), s);
        assert_eq!(cursor.remaining_len(), 0);
    }
}

#[test]
fn length_prefixed_string_drops_zero_bytes() {
    let bytes = [4u8, 0, 0, 0, b'a', 0, b'b', 0, 9];
    let mut cursor = ByteCursor::new(&bytes);
    assert_eq!(cursor.read_length_prefixed_string().unwrap(), "ab");
    assert_eq!(cursor.remaining_len(), 1);
}

#[test]
fn length_prefixed_string_truncated() {
    let bytes = [9u8, 0, 0, 0, b'a'];
    let mut cursor = ByteCursor::new(&bytes);
    assert_eq!(cursor.read_length_prefixed_string(), Err(FilesystemError::UnexpectedEof));
    let mut short = ByteCursor::new(&bytes[..2]);
    assert_eq!(short.read_length_prefixed_string(), Err(FilesystemError::UnexpectedEof));
}

#[test]
fn fixed_length_string_drops_zeros() {
    let bytes = *b"S\x00H";
    let mut cursor = ByteCursor::new(&bytes);
    assert_eq!(cursor.read_fixed_length_string(3).unwrap(), "SH");
    assert_eq!(cursor.read_fixed_length_string(1), Err(FilesystemError::UnexpectedEof));
}

#[test]
fn byte_reads_little_endian() {
    let bytes = [1u8, 2, 3, 4, 5, 6, 7, 8, 9, 10, 11, 12];
    let mut cursor = ByteCursor::new(&bytes);
    assert_eq!(cursor.read_u32_le(), Ok(0x0403_0201));
    assert_eq!(cursor.read_u64_le(), Ok(0x0C0B_0A09_0807_0605));
    assert_eq!(cursor.read_u32_le(), Err(FilesystemError::UnexpectedEof));
    let mut c2 = ByteCursor::new(&bytes);
    c2.skip(40);
    assert_eq!(c2.remaining_len(), 0);
}

#[test]
fn virtual_files_cannot_be_built() {
    let fs = Filesystem { contents: vec![virt("v", 0, 0, 0)] };
    assert!(!fs.can_build());
    let nested = Filesystem { contents: vec![folder("f", vec![virt("v", 0, 0, 0)])] };
    assert!(!nested.can_build());
    let ok = Filesystem { contents: vec![folder("f", vec![direct("d", b"1")])] };
    assert!(ok.can_build());
}

#[test]
fn method_forms_agree() {
    let fs = Filesystem { contents: vec![direct("a", b"xy")] };
    let (header, data) = fs.build();
    assert_eq!((header.clone(), data), build_filesystem(&fs));
    assert_eq!(Filesystem::from_archive(&header), read_filesystem(&header));
}

#[test]
fn every_cut_before_footer_is_eof() {
    let fs = Filesystem {
        contents: vec![
            direct("a.txt", b"DATA"),
            folder("sub", vec![direct("b.bin", b""), folder("e", vec![])]),
        ],
    };
    let (header, _) = build_filesystem(&fs);
    let body_end = header.len() - 8;
    for k in 0..body_end {
        assert_eq!(read_filesystem(&header[..k]), Err(FilesystemError::UnexpectedEof), "cut at {}", k);
    }
    for k in body_end..=header.len() {
        assert!(read_filesystem(&header[..k]).is_ok());
    }
}

#[test]
fn version_count_and_reserved_bytes_are_ignored() {
    let fs = Filesystem { contents: vec![direct("a.txt", b"DATA"), folder("sub", vec![])] };
    let (header, _) = build_filesystem(&fs);
    let mut other = header.clone();
    for b in other[3..51].iter_mut() {
        *b = 0xAB;
    }
    assert_eq!(read_filesystem(&header), read_filesystem(&other));
    assert!(read_filesystem(&other).is_ok());
}
