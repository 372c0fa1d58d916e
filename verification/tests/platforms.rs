use fdu::scanner::bulk::{
    bulk_entry, read_dir_bulk, read_i32, read_u32, try_read_dir_bulk, AttrList, BulkEntry,
    ATTR_CMN_NAME, ATTR_CMN_OBJTYPE, ATTR_FILE_DATAALLOCSIZE, BUF_SIZE, VDIR, VREG,
};
use fdu::scanner::linux::{allocated_bytes, unix_entry};
use fdu::scanner::listing::EntryKind;
use fdu::scanner::windows::{
    is_dot_dir, windows_entry, FILE_ATTRIBUTE_DIRECTORY, FILE_ATTRIBUTE_REPARSE_POINT,
};

/// Writes an entry at `start` and returns where the next one starts.
fn put(buf: &mut Vec<u8>, start: usize, name: &[u8], kind: u32, size: Option<u64>) -> usize {
    let mut bytes: Vec<u8> = Vec::new();
    bytes.extend((ATTR_CMN_NAME | ATTR_CMN_OBJTYPE).to_le_bytes());
    bytes.extend([0u8; 8]);
    bytes.extend(size.map_or(0, |_| ATTR_FILE_DATAALLOCSIZE).to_le_bytes());
    bytes.extend([0u8; 4]);
    let fixed = 8 + 4 + size.map_or(0, |_| 8);
    bytes.extend((fixed as i32).to_le_bytes());
    bytes.extend((name.len() as u32 + 1).to_le_bytes());
    bytes.extend(kind.to_le_bytes());
    if let Some(n) = size {
        bytes.extend(n.to_le_bytes());
    }
    bytes.extend(name);
    bytes.push(0);
    bytes.extend([0xffu8; 3]);
    let len = bytes.len() + 4;
    buf[start..start + 4].copy_from_slice(&(len as u32).to_le_bytes());
    buf[start + 4..start + len].copy_from_slice(&bytes);
    start + len
}

#[test]
fn a_bulk_listing_asks_for_name_type_and_size() {
    let attrs = AttrList::new();
    assert_eq!(attrs.bitmapcount, 5);
    assert_eq!(attrs.commonattr, 0x8000_0009);
    assert_eq!(attrs.fileattr, 0x400);
    assert_eq!((attrs.reserved, attrs.volattr, attrs.dirattr, attrs.forkattr), (0, 0, 0, 0));
}

#[test]
fn numbers_start_with_their_lowest_byte() {
    let bytes = [0xff, 0x78, 0x56, 0x34, 0x12, 0xfe, 0xff, 0xff, 0xff];
    assert_eq!(read_u32(&bytes, 1), 0x1234_5678);
    assert_eq!(read_i32(&bytes, 1), 0x1234_5678);
    assert_eq!(read_i32(&bytes, 5), -2);
    assert_eq!(read_u32(&bytes, 5), u32::MAX - 1);
}

#[test]
fn a_bulk_listing_is_read() {
    let mut buf = vec![0u8; BUF_SIZE];
    let at = put(&mut buf, 0, b"docs", VDIR, None);
    let at = put(&mut buf, at, "ä.txt".as_bytes(), VREG, Some(0x1_0000_0002));
    put(&mut buf, at, b"link", 5, None);
    let mut entries = vec![BulkEntry { name: "first".to_string(), obj_type: VREG, size: 1 }];
    assert!(read_dir_bulk(&buf, 3, &mut entries));
    let read: Vec<(&str, u32, u64)> =
        entries.iter().map(|e| (e.name.as_str(), e.obj_type, e.size)).collect();
    assert_eq!(
        read,
        [("first", VREG, 1), ("docs", VDIR, 0), ("ä.txt", VREG, 0x1_0000_0002), ("link", 5, 0)]
    );
    assert!(!read_dir_bulk(&buf, 0, &mut entries));
    assert!(!read_dir_bulk(&buf, -1, &mut entries));
    assert_eq!(entries.len(), 4);
}

#[test]
fn a_name_that_is_not_utf8_is_read_loosely() {
    let mut buf = vec![0u8; BUF_SIZE];
    put(&mut buf, 0, b"a\xffb", VREG, Some(1));
    let mut entries = Vec::new();
    assert_eq!(try_read_dir_bulk(&buf, 1, &mut entries), Some(true));
    assert_eq!(entries[0].name, "a\u{fffd}b");
}

#[test]
fn a_name_outside_its_entry_is_left_empty() {
    let mut buf = vec![0u8; BUF_SIZE];
    put(&mut buf, 0, b"name", VREG, Some(7));
    buf[24..28].copy_from_slice(&(-100i32).to_le_bytes());
    let mut entries = Vec::new();
    assert_eq!(try_read_dir_bulk(&buf, 1, &mut entries), Some(true));
    assert_eq!((entries[0].name.as_str(), entries[0].size), ("", 7));
}

#[test]
fn an_entry_that_leaves_the_buffer_is_refused() {
    let mut buf = vec![0u8; BUF_SIZE];
    put(&mut buf, 0, b"name", VREG, Some(7));
    buf[0..4].copy_from_slice(&u32::MAX.to_le_bytes());
    let mut entries = Vec::new();
    assert_eq!(try_read_dir_bulk(&buf, 1, &mut entries), None);
    assert!(entries.is_empty());
    // Without a name the length only says where the next entry starts, which is too far.
    buf[4..8].copy_from_slice(&ATTR_CMN_OBJTYPE.to_le_bytes());
    assert_eq!(try_read_dir_bulk(&buf, 2, &mut entries), Some(true));
    assert_eq!(entries.len(), 1);
}

#[test]
fn bulk_entries_become_entries() {
    let entry = |obj_type| BulkEntry { name: "n".to_string(), obj_type, size: 3 };
    assert!(bulk_entry(&entry(VDIR)).kind == EntryKind::Dir);
    assert!(bulk_entry(&entry(VREG)).kind == EntryKind::File);
    assert!(bulk_entry(&entry(0)).kind == EntryKind::Other);
    assert_eq!(bulk_entry(&entry(VREG)).name, "n");
    assert_eq!(bulk_entry(&entry(VREG)).size, 3);
}

fn wide(name: &str) -> Vec<u16> {
    let mut units: Vec<u16> = name.encode_utf16().collect();
    units.extend([0, 0x61, 0x62]);
    units
}

#[test]
fn dot_directories_are_known_by_their_name() {
    assert!(is_dot_dir(&wide(".")));
    assert!(is_dot_dir(&wide("..")));
    assert!(!is_dot_dir(&wide("...")));
    assert!(!is_dot_dir(&wide(".a")));
    assert!(!is_dot_dir(&wide("")));
    assert!(is_dot_dir(&[0x2e]));
    assert!(!is_dot_dir(&[]));
}

#[test]
fn windows_entries() {
    let file = windows_entry(0x20, &wide("a𝄞b"), 1, 2).unwrap();
    assert!(file.kind == EntryKind::File);
    assert_eq!(file.name, "a𝄞b");
    assert_eq!(file.size, (1 << 32) + 2);
    let dir = windows_entry(FILE_ATTRIBUTE_DIRECTORY, &wide("d"), 0, 0).unwrap();
    assert!(dir.kind == EntryKind::Dir);
    let link = FILE_ATTRIBUTE_DIRECTORY | FILE_ATTRIBUTE_REPARSE_POINT;
    assert!(windows_entry(link, &wide("d"), 0, 0).is_none());
    assert!(windows_entry(FILE_ATTRIBUTE_DIRECTORY, &wide(".."), 0, 0).is_none());
}

#[test]
fn surrogates_without_a_partner_are_replaced() {
    let name = [0xd834, 0xdd1e, 0x6d, 0xdd1e, 0x69, 0xd834];
    assert_eq!(windows_entry(0, &name, 0, 0).unwrap().name, "𝄞m\u{fffd}i\u{fffd}");
    let name = [0xd834, 0xd834, 0xdd1e];
    assert_eq!(windows_entry(0, &name, 0, 0).unwrap().name, "\u{fffd}𝄞");
}

#[test]
fn unix_files_take_what_is_allocated_for_them() {
    assert_eq!(allocated_bytes(8), 4096);
    let file = unix_entry("f".to_string(), false, true, Some(3), None);
    assert!(file.kind == EntryKind::File);
    assert_eq!((file.name.as_str(), file.size), ("f", 1536));
    let dir = unix_entry("d".to_string(), true, false, None, Some(7));
    assert!(dir.kind == EntryKind::Dir);
    assert_eq!((dir.size, dir.dev), (0, Some(7)));
    assert!(unix_entry("f".to_string(), false, true, None, None).kind == EntryKind::Failed);
    assert!(unix_entry("l".to_string(), false, false, None, None).kind == EntryKind::Other);
}
