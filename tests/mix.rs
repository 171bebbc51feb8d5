use ra2::{
    get_decryption_block_sizing, obfuscate_filename, ra2_crc, read, read_file_info, CncGame,
    MixDatabase, MixError, MixPackage, XccPackage, MIX_DB_FILENAME,
};

fn le_u16(b: &[u8], p: usize) -> u16 {
    u16::from_le_bytes([b[p], b[p + 1]])
}

fn le_u32(b: &[u8], p: usize) -> u32 {
    u32::from_le_bytes([b[p], b[p + 1], b[p + 2], b[p + 3]])
}

fn sample_package() -> MixPackage {
    let mut package = MixPackage::default();
    package.add_any("test1.txt".to_string(), b"Hello, World!".to_vec());
    package.add_any("test2.bin".to_string(), vec![0, 1, 2, 3, 4, 5]);
    package
}

#[test]
fn local_database_key_vector() {
    assert_eq!(ra2_crc("local mix database.dat"), 0x366E051F);
    assert_eq!(ra2_crc(MIX_DB_FILENAME), 0x366E051F);
}

#[test]
fn crc_salting() {
    assert_eq!(ra2_crc("abc"), ra2_crc("ABC"));
    assert_ne!(ra2_crc("ab"), ra2_crc("abab"));
}

#[test]
fn obfuscation_pads_to_four() {
    assert_eq!(obfuscate_filename("abcd"), b"ABCD".to_vec());
    assert_eq!(obfuscate_filename("abcde"), b"ABCDE\x01EE".to_vec());
    assert_eq!(obfuscate_filename("ab"), b"AB\x02A".to_vec());
    assert_eq!(obfuscate_filename("abc"), b"ABC\x03".to_vec());
    assert_eq!(obfuscate_filename(""), Vec::<u8>::new());
    assert_eq!(obfuscate_filename("\u{e9}a"), vec![0xC3, 0xA9, b'A', 3]);
}

#[test]
fn aligned_name_crc_is_crc_of_uppercase() {
    assert_eq!(ra2_crc("abcd") as u32, crc32fast::hash(b"ABCD"));
    assert_eq!(ra2_crc("a.b"), crc32fast::hash(b"A.B\x03") as i32);
}

#[test]
fn test_write_and_read() {
    let mut file_map = XccPackage::new();
    file_map.add_file("test1.txt".to_string(), b"Hello, World!".to_vec());
    file_map.add_file("test2.bin".to_string(), vec![0, 1, 2, 3, 4, 5]);
    let data = file_map.file_map.encode().unwrap();
    let read_file_map = MixPackage::decode(&data).unwrap();
    assert!(read_file_map.get("test1.txt").is_some());
    assert!(read_file_map.get("test2.bin").is_some());
    assert_eq!(read_file_map.get("test1.txt").unwrap(), b"Hello, World!");
    assert_eq!(read_file_map.get("test2.bin").unwrap(), &vec![0, 1, 2, 3, 4, 5]);
}

#[test]
fn round_trip_plain_archive() {
    let data = sample_package().encode().unwrap();
    let decoded = MixPackage::decode(&data).unwrap();
    assert_eq!(decoded.files().len(), 3);
    assert_eq!(decoded.get("test1.txt").unwrap(), b"Hello, World!");
    assert_eq!(decoded.get("test2.bin").unwrap(), &vec![0, 1, 2, 3, 4, 5]);
    let db = decoded.get(MIX_DB_FILENAME).unwrap();
    let names = MixDatabase::decode(db).unwrap();
    assert_eq!(names.get(ra2_crc("test1.txt") as u32).unwrap(), "test1.txt");
    assert_eq!(names.get(ra2_crc("test2.bin") as u32).unwrap(), "test2.bin");
    assert_eq!(names.get(0x366E051F).unwrap(), MIX_DB_FILENAME);
    let listed = read(&data).unwrap();
    assert_eq!(listed.len(), 3);
}

#[test]
fn encoded_archive_layout() {
    let data = sample_package().encode().unwrap();
    assert_eq!(le_u32(&data, 0), 0);
    let count = le_u16(&data, 4) as usize;
    assert_eq!(count, 3);
    let body_size = le_u32(&data, 6) as usize;
    assert_eq!(data.len(), 10 + 12 * count + body_size);
    let mut offset = 0u32;
    let mut keys = Vec::new();
    for j in 0..count {
        let p = 10 + 12 * j;
        keys.push(le_u32(&data, p) as i32);
        assert_eq!(le_u32(&data, p + 4), offset);
        offset += le_u32(&data, p + 8);
    }
    assert_eq!(offset as usize, body_size);
    for w in keys.windows(2) {
        assert!(w[0] < w[1]);
    }
    let mut expected = vec![ra2_crc("test1.txt"), ra2_crc("test2.bin"), 0x366E051F];
    expected.sort();
    assert_eq!(keys, expected);
}

#[test]
fn database_layout() {
    let data = sample_package().encode().unwrap();
    let db = MixPackage::decode(&data).unwrap().get(MIX_DB_FILENAME).unwrap().clone();
    assert_eq!(&db[0..24], b"XCC by Olaf van der Spek");
    assert_eq!(&db[24..32], &[0x1A, 0x04, 0x17, 0x27, 0x10, 0x19, 0x80, 0]);
    assert_eq!(le_u32(&db, 32) as usize, db.len());
    assert_eq!(le_u32(&db, 36), 0);
    assert_eq!(le_u32(&db, 40), 0);
    assert_eq!(le_u32(&db, 44), 5);
    assert_eq!(le_u32(&db, 48), 3);
    assert_eq!(db.len(), 52 + 10 + 10 + 23);
}

#[test]
fn database_replaces_a_file_of_its_name() {
    let mut package = MixPackage::new(CncGame::RA2_YR);
    package.add_any("a.txt".to_string(), vec![1]);
    package.add_any(MIX_DB_FILENAME.to_string(), vec![9, 9]);
    let data = package.encode().unwrap();
    assert_eq!(le_u16(&data, 4), 2);
    let decoded = MixPackage::decode(&data).unwrap();
    assert_eq!(decoded.files().len(), 2);
    assert_ne!(decoded.get(MIX_DB_FILENAME).unwrap(), &vec![9, 9]);
}

#[test]
fn add_any_replaces_same_name() {
    let mut package = MixPackage::default();
    package.add_any("x".to_string(), vec![1]);
    package.add_any("x".to_string(), vec![2]);
    assert_eq!(package.files().len(), 1);
    assert_eq!(package.get("x").unwrap(), &vec![2]);
    assert!(package.get("y").is_none());
}

#[test]
fn empty_package_decodes_to_nothing() {
    let data = MixPackage::default().encode().unwrap();
    assert_eq!(le_u16(&data, 4), 1);
    let decoded = MixPackage::decode(&data).unwrap();
    assert_eq!(decoded.files().len(), 0);
}

#[test]
fn unnamed_entries_use_global_database() {
    let mut data = vec![0u8, 0, 0, 0];
    data.extend_from_slice(&2u16.to_le_bytes());
    data.extend_from_slice(&5u32.to_le_bytes());
    for (name, offset, size) in [("a.txt", 0u32, 2u32), ("b.txt", 2, 3)] {
        data.extend_from_slice(&ra2_crc(name).to_le_bytes());
        data.extend_from_slice(&offset.to_le_bytes());
        data.extend_from_slice(&size.to_le_bytes());
    }
    data.extend_from_slice(&[1, 2, 3, 4, 5]);
    assert_eq!(MixPackage::decode(&data).unwrap().files().len(), 0);
    let mut global = MixDatabase::new();
    global.add("a.txt".to_string());
    let decoded = MixPackage::decode_with_database(&data, &global).unwrap();
    assert_eq!(decoded.files().len(), 1);
    assert_eq!(decoded.get("a.txt").unwrap(), &vec![1, 2]);
    global.add("b.txt".to_string());
    let decoded = MixPackage::decode_with_database(&data, &global).unwrap();
    assert_eq!(decoded.get("b.txt").unwrap(), &vec![3, 4, 5]);
}

#[test]
fn old_format_header() {
    let mut data = Vec::new();
    data.extend_from_slice(&1u16.to_le_bytes());
    data.extend_from_slice(&3u32.to_le_bytes());
    data.extend_from_slice(&7i32.to_le_bytes());
    data.extend_from_slice(&0u32.to_le_bytes());
    data.extend_from_slice(&3u32.to_le_bytes());
    data.extend_from_slice(&[1, 2, 3]);
    let (header, entries, whole) = read_file_info(&data).unwrap();
    assert_eq!(header.flags, None);
    assert_eq!(header.file_count, 1);
    assert_eq!(header.data_size, 3);
    assert_eq!(entries.len(), 1);
    assert_eq!(entries[0].id, 7);
    assert_eq!(entries[0].size, 3);
    assert_eq!(whole, data);
}

#[test]
fn short_archives_are_invalid() {
    assert!(matches!(read_file_info(&[1]), Err(MixError::InvalidFormat(_))));
    assert!(matches!(read_file_info(&[0, 0, 0, 0, 5]), Err(MixError::InvalidFormat(_))));
    let mut data = vec![0u8, 0, 0, 0];
    data.extend_from_slice(&2u16.to_le_bytes());
    data.extend_from_slice(&0u32.to_le_bytes());
    data.extend_from_slice(&[0; 12]);
    assert!(matches!(read_file_info(&data), Err(MixError::InvalidFormat(_))));
}

#[test]
fn entry_past_body_is_invalid() {
    let mut data = vec![0u8, 0, 0, 0];
    data.extend_from_slice(&2u16.to_le_bytes());
    data.extend_from_slice(&5u32.to_le_bytes());
    for (name, offset, size) in [("a.txt", 0u32, 2u32), ("b.txt", 2, 30)] {
        data.extend_from_slice(&ra2_crc(name).to_le_bytes());
        data.extend_from_slice(&offset.to_le_bytes());
        data.extend_from_slice(&size.to_le_bytes());
    }
    data.extend_from_slice(&[1, 2, 3, 4, 5]);
    let mut global = MixDatabase::new();
    global.add("a.txt".to_string());
    global.add("b.txt".to_string());
    assert!(matches!(MixPackage::decode_with_database(&data, &global), Err(MixError::InvalidFormat(_))));
}

#[test]
fn protected_database_falls_back_to_global() {
    let mut data = vec![0u8, 0, 0, 0];
    data.extend_from_slice(&2u16.to_le_bytes());
    data.extend_from_slice(&2u32.to_le_bytes());
    data.extend_from_slice(&0x366E051Fi32.to_le_bytes());
    data.extend_from_slice(&(-1i32).to_le_bytes());
    data.extend_from_slice(&0u32.to_le_bytes());
    data.extend_from_slice(&ra2_crc("a.txt").to_le_bytes());
    data.extend_from_slice(&0u32.to_le_bytes());
    data.extend_from_slice(&2u32.to_le_bytes());
    data.extend_from_slice(&[8, 9]);
    let mut global = MixDatabase::new();
    global.add("a.txt".to_string());
    let decoded = MixPackage::decode_with_database(&data, &global).unwrap();
    assert_eq!(decoded.get("a.txt").unwrap(), &vec![8, 9]);
}

#[test]
fn block_sizing() {
    assert_eq!(get_decryption_block_sizing(0), (0, 2));
    assert_eq!(get_decryption_block_sizing(1), (16, 6));
    assert_eq!(get_decryption_block_sizing(2), (24, 2));
    assert_eq!(get_decryption_block_sizing(3), (40, 6));
}

#[test]
fn database_decode_and_lookup() {
    let mut bytes = vec![0u8; 52];
    bytes.extend_from_slice(b"one.shp\0\0two.pal\0\xff\xfe\0three");
    let db = MixDatabase::decode(&bytes).unwrap();
    assert_eq!(db.get(ra2_crc("one.shp") as u32).unwrap(), "one.shp");
    assert_eq!(db.get(ra2_crc("two.pal") as u32).unwrap(), "two.pal");
    assert_eq!(db.get(ra2_crc("three") as u32).unwrap(), "three");
    assert!(db.get(ra2_crc("four") as u32).is_none());
    assert_eq!(
        ra2::get_filenames_from_mix_db(&bytes),
        vec!["one.shp".to_string(), "two.pal".to_string(), "three".to_string()]
    );
}

#[test]
fn error_texts() {
    assert_eq!(MixError::InvalidFormat("x".to_string()).to_string(), "Invalid file format: x");
    assert_eq!(MixError::CryptoError("k".to_string()).to_string(), "Crypto error: k");
    let e = ra2::Ra2Error::OutOfBoundary { limit: 256, message: "index".to_string() };
    assert_eq!(e.to_string(), "Out of boundary 256: index");
    let e = ra2::Ra2Error::EncodeError { format: "mix".to_string(), message: "big".to_string() };
    assert_eq!(e.to_string(), "Encode error: mix: big");
}

#[test]
fn database_entries_in_key_order() {
    let mut db = MixDatabase::new();
    for name in ["b.shp", "a.pal", "c.mix"] {
        db.add(name.to_string());
    }
    let entries = db.entries();
    assert_eq!(entries.len(), 3);
    for w in entries.windows(2) {
        assert!(w[0].0 < w[1].0);
    }
    for (key, name) in &entries {
        assert_eq!(*key, ra2_crc(name) as u32);
    }
}

#[test]
fn unnamed_entry_past_body_is_invalid() {
    let mut data = vec![0u8, 0, 0, 0];
    data.extend_from_slice(&2u16.to_le_bytes());
    data.extend_from_slice(&5u32.to_le_bytes());
    for (key, offset, size) in [(1i32, 0u32, 2u32), (2, 2, 30)] {
        data.extend_from_slice(&key.to_le_bytes());
        data.extend_from_slice(&offset.to_le_bytes());
        data.extend_from_slice(&size.to_le_bytes());
    }
    data.extend_from_slice(&[1, 2, 3, 4, 5]);
    assert!(matches!(MixPackage::decode(&data), Err(MixError::InvalidFormat(_))));
}

#[test]
fn database_insert_keeps_given_key() {
    let mut db = MixDatabase::new();
    db.insert(7, "seven.shp".to_string());
    assert_eq!(db.get(7).unwrap(), "seven.shp");
    assert!(db.get(ra2_crc("seven.shp") as u32).is_none());
    assert_eq!(db.entries(), vec![(7u32, "seven.shp".to_string())]);
}
