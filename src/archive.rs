//! MIX archives: header probe, entry index, body, and the name-to-bytes view that the
//! archive's name database resolves.

use vstd::prelude::*;
use vstd::string::StringSliceAdditionalSpecFns;
use vstd::slice::slice_to_vec;
use crate::bytes::{le_u16, le_u32, read_u16_le, read_u32_le};
use crate::checksum::{name_key, ra2_crc};
use crate::crypto::{
    decrypt_blowfish_key, decrypt_mix_header, encrypted_data_size, encrypted_file_count,
    encrypted_index, encrypted_index_fits, encrypted_rest_size, get_decryption_block_sizing,
    session_key, SIZE_OF_ENCRYPTED_KEY,
};
use crate::error::MixError;
use crate::game::CncGame;
use crate::names_db::{db_names, names_map, MixDatabase, MIX_DB_FILENAME};

mod writer;

pub use writer::coalesce_input_files;

verus! {

/// Size of the header of an old archive: count and body size.
pub const MIN_HEADER_SIZE: usize = 6;

/// Size of the header of a new archive: flags, count and body size.
pub const HEADER_SIZE: usize = 10;

/// Size of one index entry.
pub const FILE_ENTRY_SIZE: usize = 12;

/// Size of the flags field of a new archive.
pub const SIZE_OF_FLAGS: usize = 4;

/// The flag bit of an encrypted archive.
pub const ENCRYPTED_FLAG: u32 = 0x20000;

/// Archive header.
#[derive(Copy, Clone, Debug, PartialEq, Eq)]
pub struct Header {
    /// Flags; none in an old archive.
    pub flags: Option<u32>,
    /// Number of entries.
    pub file_count: u16,
    /// Declared size of the body.
    pub data_size: u32,
}

/// One index entry: a key and the place of the entry's bytes in the body.
#[derive(Copy, Clone, Debug, PartialEq, Eq)]
pub struct FileEntry {
    /// The key of the entry's name.
    pub id: i32,
    /// Offset in the body.
    pub offset: u32,
    /// Size in bytes.
    pub size: u32,
}

/// Whether the header marks an encrypted archive.
pub open spec fn is_encrypted(h: Header) -> bool {
    h.flags matches Some(f) && f & 0x20000 != 0
}

/// The header of an archive and where its index starts, when the bytes hold one: an old
/// archive begins with a nonzero count, a new one with flags whose low half is zero.
pub open spec fn parse_header(d: Seq<u8>) -> Option<(Header, int)> {
    if d.len() < 2 {
        None
    } else if le_u16(d, 0) != 0 {
        if d.len() < 6 {
            None
        } else {
            Some((Header { flags: None, file_count: le_u16(d, 0), data_size: le_u32(d, 2) }, 6))
        }
    } else if d.len() < 10 {
        None
    } else {
        Some(
            (
                Header { flags: Some(le_u32(d, 0)), file_count: le_u16(d, 4), data_size: le_u32(d, 6) },
                10,
            ),
        )
    }
}

/// The entry stored at `p`.
pub open spec fn entry_at(b: Seq<u8>, p: int) -> FileEntry {
    FileEntry { id: le_u32(b, p) as i32, offset: le_u32(b, p + 4), size: le_u32(b, p + 8) }
}

/// The first `k` entries of an index.
pub open spec fn parse_entries(b: Seq<u8>, k: nat) -> Seq<FileEntry> {
    Seq::new(k, |i: int| entry_at(b, 12 * i))
}

/// What reading an archive's header and index gives, or `None` when it fails with
/// `InvalidFormat`; an encrypted archive gives its decrypted header and index.
pub open spec fn archive_info(d: Seq<u8>) -> Option<(Header, Seq<FileEntry>)> {
    match parse_header(d) {
        None => None,
        Some((h, start)) => if !is_encrypted(h) {
            if start + 12 * h.file_count <= d.len() {
                Some((h, parse_entries(d.subrange(start, start + 12 * h.file_count), h.file_count as nat)))
            } else {
                None
            }
        } else {
            let key = session_key(d.subrange(4, 84));
            if encrypted_index_fits(key, d) {
                let k = encrypted_file_count(key, d);
                Some(
                    (
                        Header { flags: h.flags, file_count: k, data_size: encrypted_data_size(key, d) },
                        parse_entries(encrypted_index(key, d), k as nat),
                    ),
                )
            } else {
                None
            }
        },
    }
}

/// Whether reading the header and index of an encrypted archive fails with a `CryptoError`:
/// the wrapped key is cut short, or the unwrapped key does not suit the cipher.
pub open spec fn archive_crypto_fails(d: Seq<u8>) -> bool {
    match parse_header(d) {
        Some((h, _)) => is_encrypted(h) && (d.len() < 84 || !(4 <= session_key(
            d.subrange(4, 84),
        ).len() <= 56)),
        None => false,
    }
}

/// Whether the header marks an encrypted archive.
fn header_is_encrypted(header: &Header) -> (r: bool)
    ensures
        r == is_encrypted(*header),
{
    match header.flags {
        Some(f) => f & ENCRYPTED_FLAG != 0,
        None => false,
    }
}

/// Reads `file_count` entries from the start of an index.
fn get_file_entries(file_count: usize, index_data: &[u8]) -> (r: Result<Vec<FileEntry>, MixError>)
    ensures
        r is Ok <==> 12 * file_count <= index_data@.len(),
        r matches Ok(v) ==> v@ == parse_entries(index_data@, file_count as nat),
        r matches Err(e) ==> e is InvalidFormat,
{
    if index_data.len() / FILE_ENTRY_SIZE < file_count {
        return Err(MixError::InvalidFormat("the index is cut short".to_string()));
    }
    let mut file_entries: Vec<FileEntry> = Vec::with_capacity(file_count);
    let n = index_data.len();
    for i in 0..file_count
        invariant
            n == index_data@.len(),
            12 * file_count <= index_data@.len(),
            file_entries@ == parse_entries(index_data@, i as nat),
    {
        assert(12 * i + 12 <= 12 * file_count) by (nonlinear_arith)
            requires
                i < file_count,
        ;
        let p = FILE_ENTRY_SIZE * i;
        let raw_id = read_u32_le(index_data, p);
        let id = #[verifier::truncate] (raw_id as i32);
        let offset = read_u32_le(index_data, p + 4);
        let size = read_u32_le(index_data, p + 8);
        file_entries.push(FileEntry { id, offset, size });
        assert(file_entries@ =~= parse_entries(index_data@, (i + 1) as nat));
    }
    Ok(file_entries)
}

/// Reads the header and the index of an archive, decrypting them when the archive is
/// encrypted, and hands back the whole archive with them.
pub fn read_file_info(mix_data: &[u8]) -> (r: Result<(Header, Vec<FileEntry>, Vec<u8>), MixError>)
    ensures
        archive_crypto_fails(mix_data@) ==> r matches Err(MixError::CryptoError(_)),
        !archive_crypto_fails(mix_data@) ==> match archive_info(mix_data@) {
            None => r matches Err(MixError::InvalidFormat(_)),
            Some((h, entries)) => r matches Ok((rh, re, rd)) && rh == h && re@ == entries && rd@
                == mix_data@,
        },
{
    if mix_data.len() < 2 {
        return Err(MixError::InvalidFormat("the header is cut short".to_string()));
    }
    let first_word = read_u16_le(mix_data, 0);
    let header: Header;
    let header_size: usize;
    if first_word != 0 {
        if mix_data.len() < MIN_HEADER_SIZE {
            return Err(MixError::InvalidFormat("the header is cut short".to_string()));
        }
        header = Header { flags: None, file_count: first_word, data_size: read_u32_le(mix_data, 2) };
        header_size = MIN_HEADER_SIZE;
    } else {
        if mix_data.len() < HEADER_SIZE {
            return Err(MixError::InvalidFormat("the header is cut short".to_string()));
        }
        header = Header {
            flags: Some(read_u32_le(mix_data, 0)),
            file_count: read_u16_le(mix_data, 4),
            data_size: read_u32_le(mix_data, 6),
        };
        header_size = HEADER_SIZE;
    }
    let file_entries: Vec<FileEntry>;
    let mut updated_header = header;
    if header_is_encrypted(&header) {
        let key_end = SIZE_OF_FLAGS + SIZE_OF_ENCRYPTED_KEY;
        if mix_data.len() < key_end {
            return Err(MixError::CryptoError("the wrapped key is cut short".to_string()));
        }
        let blowfish_key = decrypt_blowfish_key(&mix_data[SIZE_OF_FLAGS..key_end])?;
        let (file_count, data_size, index_data) = decrypt_mix_header(mix_data, &blowfish_key)?;
        file_entries = get_file_entries(file_count as usize, &index_data)?;
        updated_header.file_count = file_count;
        updated_header.data_size = data_size;
    } else {
        let index_end = header_size + header.file_count as usize * FILE_ENTRY_SIZE;
        if index_end > mix_data.len() {
            return Err(MixError::InvalidFormat("the index is cut short".to_string()));
        }
        file_entries = get_file_entries(header.file_count as usize, &mix_data[header_size..index_end])?;
    }
    Ok((updated_header, file_entries, slice_to_vec(mix_data)))
}

/// The key under which an archive stores its own name database.
pub open spec fn local_db_key() -> i32 {
    name_key(MIX_DB_FILENAME.spec_bytes())
}

/// Where the body starts: after the header, the wrapped key and the padded index.
pub open spec fn body_start(h: Header, n: int) -> int {
    (if h.flags is None {
        6int
    } else {
        10int
    }) + 12 * n + if is_encrypted(h) {
        80 + encrypted_rest_size(h.file_count as int) - (12 * h.file_count - 2)
    } else {
        0
    }
}

/// Whether an entry's bytes lie within the body.
pub open spec fn in_body(e: FileEntry, body: Seq<u8>) -> bool {
    e.offset + e.size <= body.len()
}

/// The bytes of an entry.
pub open spec fn entry_bytes(e: FileEntry, body: Seq<u8>) -> Seq<u8> {
    body.subrange(e.offset as int, e.offset + e.size)
}

/// The position of the first entry at or after `i` whose key is `key`, or -1.
pub open spec fn find_key(es: Seq<FileEntry>, key: i32, i: int) -> int
    decreases es.len() - i,
{
    if i < 0 || i >= es.len() {
        -1
    } else if es[i].id == key {
        i
    } else {
        find_key(es, key, i + 1)
    }
}

/// The names that resolve the keys: the archive's own database when it has one with a
/// nonnegative offset, else the given global database; `None` when the archive's own
/// database lies outside the body.
pub open spec fn names_for(es: Seq<FileEntry>, body: Seq<u8>, global: Map<u32, Seq<char>>) -> Option<Map<u32, Seq<char>>> {
    let i = find_key(es, local_db_key(), 0);
    if i < 0 || (es[i].offset as i32) < 0 {
        Some(global)
    } else if !in_body(es[i], body) {
        None
    } else {
        Some(names_map(db_names(entry_bytes(es[i], body))))
    }
}

/// Whether an entry shows under a name: its offset is nonnegative as a signed value and its
/// key has a name.
pub open spec fn exposed(e: FileEntry, names: Map<u32, Seq<char>>) -> bool {
    (e.offset as i32) >= 0 && names.contains_key(e.id as u32)
}

/// The name-to-bytes map of the entries, a later entry replacing an earlier one with the
/// same name; `None` when an entry with a nonnegative offset lies outside the body. Entries
/// with a negative offset, or whose key has no name, are left out.
pub open spec fn decode_entries(es: Seq<FileEntry>, body: Seq<u8>, names: Map<u32, Seq<char>>) -> Option<Map<Seq<char>, Seq<u8>>>
    decreases es.len(),
{
    if es.len() == 0 {
        Some(Map::empty())
    } else {
        match decode_entries(es.drop_last(), body, names) {
            None => None,
            Some(m) => {
                let e = es.last();
                if (e.offset as i32) < 0 {
                    Some(m)
                } else if !in_body(e, body) {
                    None
                } else if names.contains_key(e.id as u32) {
                    Some(m.insert(names[e.id as u32], entry_bytes(e, body)))
                } else {
                    Some(m)
                }
            },
        }
    }
}

/// The name-to-bytes map of an archive given its header and entries; `None` when it fails
/// with `InvalidFormat`.
pub open spec fn file_map_of(es: Seq<FileEntry>, d: Seq<u8>, h: Header, global: Map<u32, Seq<char>>) -> Option<Map<Seq<char>, Seq<u8>>> {
    if es.len() <= 1 {
        Some(Map::empty())
    } else if body_start(h, es.len() as int) > d.len() {
        None
    } else {
        let body = d.subrange(body_start(h, es.len() as int), d.len() as int);
        match names_for(es, body, global) {
            None => None,
            Some(names) => decode_entries(es, body, names),
        }
    }
}

/// The map a list of named files stands for, a later file replacing an earlier one with
/// the same name.
pub open spec fn files_map(s: Seq<(String, Vec<u8>)>) -> Map<Seq<char>, Seq<u8>>
    decreases s.len(),
{
    if s.len() == 0 {
        Map::empty()
    } else {
        files_map(s.drop_last()).insert(s.last().0@, s.last().1@)
    }
}

/// No two files of the list share a name.
pub open spec fn unique_names(s: Seq<(String, Vec<u8>)>) -> bool {
    forall|i: int, j: int| 0 <= i < j < s.len() ==> s[i].0@ != s[j].0@
}

proof fn lemma_files_map_update(s: Seq<(String, Vec<u8>)>, i: int, x: (String, Vec<u8>))
    requires
        unique_names(s),
        0 <= i < s.len(),
        x.0@ == s[i].0@,
    ensures
        files_map(s.update(i, x)) == files_map(s).insert(x.0@, x.1@),
        unique_names(s.update(i, x)),
    decreases s.len(),
{
    if i == s.len() - 1 {
        assert(s.update(i, x).drop_last() =~= s.drop_last());
        assert(files_map(s.update(i, x)) =~= files_map(s).insert(x.0@, x.1@));
    } else {
        assert(s.update(i, x).drop_last() =~= s.drop_last().update(i, x));
        lemma_files_map_update(s.drop_last(), i, x);
        assert(files_map(s.update(i, x)) =~= files_map(s).insert(x.0@, x.1@));
    }
}

/// Stores a file under its name, replacing a file with the same name.
fn insert_file(files: &mut Vec<(String, Vec<u8>)>, name: String, data: Vec<u8>)
    requires
        unique_names(old(files)@),
    ensures
        unique_names(final(files)@),
        files_map(final(files)@) == files_map(old(files)@).insert(name@, data@),
{
    let mut i: usize = 0;
    while i < files.len()
        invariant
            files@ == old(files)@,
            unique_names(files@),
            i <= files@.len(),
            forall|j: int| 0 <= j < i ==> files@[j].0@ != name@,
        decreases files@.len() - i,
    {
        if files[i].0 == name {
            proof {
                lemma_files_map_update(files@, i as int, (name, data));
            }
            files.set(i, (name, data));
            return;
        }
        i += 1;
    }
    files.push((name, data));
    assert(files@.drop_last() =~= old(files)@);
}

proof fn lemma_decode_entries_none(es: Seq<FileEntry>, body: Seq<u8>, names: Map<u32, Seq<char>>, i: int)
    requires
        0 <= i <= es.len(),
        decode_entries(es.subrange(0, i), body, names) is None,
    ensures
        decode_entries(es, body, names) is None,
    decreases es.len() - i,
{
    if i < es.len() {
        assert(es.subrange(0, i + 1).drop_last() =~= es.subrange(0, i));
        lemma_decode_entries_none(es, body, names, i + 1);
    } else {
        assert(es.subrange(0, i) =~= es);
    }
}

proof fn lemma_find_key_bound(es: Seq<FileEntry>, key: i32, i: int)
    requires
        0 <= i,
    ensures
        find_key(es, key, i) < es.len(),
        find_key(es, key, i) >= 0 ==> es[find_key(es, key, i)].id == key,
    decreases es.len() - i,
{
    if i < es.len() && es[i].id != key {
        lemma_find_key_bound(es, key, i + 1);
    }
}

/// The bytes of an entry, or none when they lie outside the body.
fn get_file_data_from_mix_body(file_entry: &FileEntry, mix_body_data: &[u8]) -> (r: Option<Vec<u8>>)
    ensures
        r is Some <==> in_body(*file_entry, mix_body_data@),
        r matches Some(v) ==> v@ == entry_bytes(*file_entry, mix_body_data@),
{
    let start = file_entry.offset as usize;
    let size = file_entry.size as usize;
    if size > mix_body_data.len() || start > mix_body_data.len() - size {
        return None;
    }
    Some(slice_to_vec(&mix_body_data[start..start + size]))
}

/// The first entry whose key is `key`.
fn find_entry(entries: &[FileEntry], key: i32) -> (r: Option<usize>)
    ensures
        find_key(entries@, key, 0) < 0 ==> r is None,
        find_key(entries@, key, 0) >= 0 ==> r == Some(find_key(entries@, key, 0) as usize),
        r matches Some(i) ==> i < entries@.len(),
{
    let mut i: usize = 0;
    while i < entries.len()
        invariant
            i <= entries@.len(),
            find_key(entries@, key, 0) == find_key(entries@, key, i as int),
        decreases entries@.len() - i,
    {
        if entries[i].id == key {
            return Some(i);
        }
        i += 1;
    }
    None
}

/// The name database that stands in when an archive holds none: an empty one.
pub fn load_global_mix_database() -> (r: MixDatabase)
    ensures
        r@ == Map::<u32, Seq<char>>::empty(),
{
    MixDatabase::new()
}

/// The named files of an archive, given its header and entries: each entry whose key has
/// a name, in the archive's own name database or else in `global`, with its bytes. Every
/// entry with a nonnegative offset must lie within the body.
pub fn get_file_map(file_entries: &[FileEntry], mix_data: &[u8], header: &Header, global: &MixDatabase) -> (r: Result<Vec<(String, Vec<u8>)>, MixError>)
    ensures
        match file_map_of(file_entries@, mix_data@, *header, global@) {
            None => r matches Err(MixError::InvalidFormat(_)),
            Some(m) => r matches Ok(v) && unique_names(v@) && files_map(v@) == m,
        },
{
    let mut files: Vec<(String, Vec<u8>)> = Vec::new();
    if file_entries.len() <= 1 {
        return Ok(files);
    }
    let n = file_entries.len();
    if n > mix_data.len() / FILE_ENTRY_SIZE {
        return Err(MixError::InvalidFormat("the index lies outside the archive".to_string()));
    }
    let mut extra = if header.flags.is_none() {
        MIN_HEADER_SIZE
    } else {
        HEADER_SIZE
    };
    if header_is_encrypted(header) {
        extra = extra + SIZE_OF_ENCRYPTED_KEY + get_decryption_block_sizing(header.file_count).1;
    }
    if extra > mix_data.len() - FILE_ENTRY_SIZE * n {
        return Err(MixError::InvalidFormat("the body lies outside the archive".to_string()));
    }
    let body_start = extra + FILE_ENTRY_SIZE * n;
    let body = &mix_data[body_start..mix_data.len()];
    let ghost spec_body = mix_data@.subrange(body_start as int, mix_data@.len() as int);
    assert(body@ == spec_body);
    let db_key = ra2_crc(MIX_DB_FILENAME);
    let ghost k = find_key(file_entries@, local_db_key(), 0);
    assert(db_key == local_db_key());
    proof {
        lemma_find_key_bound(file_entries@, db_key, 0);
    }
    let mut local_index: Option<usize> = None;
    match find_entry(file_entries, db_key) {
        Some(i) => {
            let offset = file_entries[i].offset;
            let signed = #[verifier::truncate] (offset as i32);
            if signed >= 0 {
                local_index = Some(i);
            }
        },
        None => {},
    }
    assert(local_index is Some <==> !(k < 0 || (file_entries@[k].offset as i32) < 0));
    let local = match local_index {
        Some(i) => {
            let e = file_entries[i];
            assert(e == file_entries@[k]);
            let db_data = match get_file_data_from_mix_body(&e, body) {
                Some(v) => v,
                None => {
                    assert(names_for(file_entries@, spec_body, global@) is None);
                    return Err(MixError::InvalidFormat("the name database lies outside the body".to_string()));
                },
            };
            match MixDatabase::decode(db_data.as_slice()) {
                Ok(db) => db,
                Err(_) => MixDatabase::new(),
            }
        },
        None => MixDatabase::new(),
    };
    let names: &MixDatabase = if local_index.is_some() {
        &local
    } else {
        global
    };
    let ghost nm = names@;
    assert(names_for(file_entries@, spec_body, global@) == Some(nm));
    assert(file_map_of(file_entries@, mix_data@, *header, global@) == decode_entries(
        file_entries@,
        spec_body,
        nm,
    ));
    for i in 0..n
        invariant
            file_map_of(file_entries@, mix_data@, *header, global@) == decode_entries(
                file_entries@,
                spec_body,
                nm,
            ),
            n == file_entries@.len(),
            body@ == spec_body,
            names@ == nm,
            unique_names(files@),
            decode_entries(file_entries@.subrange(0, i as int), spec_body, nm) == Some(files_map(files@)),
    {
        let e = file_entries[i];
        assert(file_entries@.subrange(0, i + 1).drop_last() =~= file_entries@.subrange(0, i as int));
        if #[verifier::truncate] (e.offset as i32) >= 0 {
            match get_file_data_from_mix_body(&e, body) {
                Some(bytes) => match names.get(#[verifier::truncate] (e.id as u32)) {
                    Some(name) => {
                        insert_file(&mut files, name.clone(), bytes);
                    },
                    None => {},
                },
                None => {
                    assert(decode_entries(file_entries@.subrange(0, i + 1), spec_body, nm) is None);
                    proof {
                        lemma_decode_entries_none(file_entries@, spec_body, nm, i + 1);
                    }
                    return Err(MixError::InvalidFormat("an entry lies outside the body".to_string()));
                },
            }
        }
    }
    assert(file_entries@.subrange(0, n as int) =~= file_entries@);
    Ok(files)
}

/// The named files of an archive held in memory, with no global name database.
pub fn read(mix_data: &[u8]) -> (r: Result<Vec<(String, Vec<u8>)>, MixError>)
    ensures
        archive_crypto_fails(mix_data@) ==> r matches Err(MixError::CryptoError(_)),
        !archive_crypto_fails(mix_data@) ==> match archive_info(mix_data@) {
            None => r matches Err(MixError::InvalidFormat(_)),
            Some((h, es)) => match file_map_of(es, mix_data@, h, Map::empty()) {
                None => r matches Err(MixError::InvalidFormat(_)),
                Some(m) => r matches Ok(v) && unique_names(v@) && files_map(v@) == m,
            },
        },
{
    let (header, file_entries, mix_data_vec) = read_file_info(mix_data)?;
    let global = load_global_mix_database();
    get_file_map(file_entries.as_slice(), mix_data_vec.as_slice(), &header, &global)
}

proof fn lemma_files_map_contains(s: Seq<(String, Vec<u8>)>, i: int)
    requires
        unique_names(s),
        0 <= i < s.len(),
    ensures
        files_map(s).contains_key(s[i].0@),
        files_map(s)[s[i].0@] == s[i].1@,
    decreases s.len(),
{
    if i < s.len() - 1 {
        lemma_files_map_contains(s.drop_last(), i);
    }
}

proof fn lemma_files_map_dom(s: Seq<(String, Vec<u8>)>, k: Seq<char>)
    requires
        files_map(s).contains_key(k),
    ensures
        exists|i: int| 0 <= i < s.len() && s[i].0@ == k,
    decreases s.len(),
{
    if s.len() > 0 && s.last().0@ != k {
        lemma_files_map_dom(s.drop_last(), k);
        let i = choose|i: int| 0 <= i < s.drop_last().len() && s.drop_last()[i].0@ == k;
        assert(s[i].0@ == k);
    }
}

/// A MIX package: the game it is for and its files, each under a name of its own.
#[derive(Debug)]
pub struct MixPackage {
    /// The game the package is for.
    pub game: CncGame,
    files: Vec<(String, Vec<u8>)>,
}

impl View for MixPackage {
    type V = Map<Seq<char>, Seq<u8>>;

    closed spec fn view(&self) -> Map<Seq<char>, Seq<u8>> {
        files_map(self.files@)
    }
}

impl MixPackage {
    /// The game the package is for.
    pub closed spec fn spec_game(&self) -> CncGame {
        self.game
    }

    #[verifier::type_invariant]
    spec fn inv(&self) -> bool {
        unique_names(self.files@)
    }

    /// An empty package for `game`.
    pub fn new(game: CncGame) -> (r: MixPackage)
        ensures
            r@ == Map::<Seq<char>, Seq<u8>>::empty(),
            r.spec_game() == game,
    {
        let r = MixPackage { game, files: Vec::new() };
        assert(r@ =~= Map::<Seq<char>, Seq<u8>>::empty());
        r
    }

    /// Adds a file under `name`, whatever its content, replacing a file of that name.
    pub fn add_any(&mut self, name: String, data: Vec<u8>)
        ensures
            final(self)@ == old(self)@.insert(name@, data@),
            final(self).spec_game() == old(self).spec_game(),
    {
        proof {
            use_type_invariant(&*self);
        }
        let mut files: Vec<(String, Vec<u8>)> = Vec::new();
        std::mem::swap(&mut files, &mut self.files);
        insert_file(&mut files, name, data);
        self.files = files;
    }

    /// The files of the package, each name once.
    pub fn files(&self) -> (r: &Vec<(String, Vec<u8>)>)
        ensures
            files_map(r@) == self@,
            unique_names(r@),
    {
        proof {
            use_type_invariant(self);
        }
        &self.files
    }

    /// The bytes of the file named `name`.
    pub fn get(&self, name: &str) -> (r: Option<&Vec<u8>>)
        ensures
            r is Some <==> self@.contains_key(name@),
            r matches Some(d) ==> d@ == self@[name@],
    {
        proof {
            use_type_invariant(self);
        }
        let target = String::from_str(name);
        let mut i: usize = 0;
        while i < self.files.len()
            invariant
                unique_names(self.files@),
                target@ == name@,
                i <= self.files@.len(),
                forall|j: int| 0 <= j < i ==> self.files@[j].0@ != name@,
            decreases self.files@.len() - i,
        {
            if self.files[i].0 == target {
                proof {
                    lemma_files_map_contains(self.files@, i as int);
                }
                return Some(&self.files[i].1);
            }
            i += 1;
        }
        proof {
            if files_map(self.files@).contains_key(name@) {
                lemma_files_map_dom(self.files@, name@);
            }
        }
        None
    }

    /// Reads an archive held in memory, resolving names with its own name database or else
    /// with `global`.
    pub fn decode_with_database(mix_data: &[u8], global: &MixDatabase) -> (r: Result<MixPackage, MixError>)
        ensures
            archive_crypto_fails(mix_data@) ==> r matches Err(MixError::CryptoError(_)),
            !archive_crypto_fails(mix_data@) ==> match archive_info(mix_data@) {
                None => r matches Err(MixError::InvalidFormat(_)),
                Some((h, es)) => match file_map_of(es, mix_data@, h, global@) {
                    None => r matches Err(MixError::InvalidFormat(_)),
                    Some(m) => r matches Ok(p) && p@ == m && p.spec_game() == CncGame::RA2,
                },
            },
    {
        let (header, file_entries, mix_data_vec) = read_file_info(mix_data)?;
        let files = get_file_map(file_entries.as_slice(), mix_data_vec.as_slice(), &header, global)?;
        Ok(MixPackage { game: CncGame::RA2, files })
    }

    /// Reads an archive held in memory, resolving names with its own name database.
    pub fn decode(mix_data: &[u8]) -> (r: Result<MixPackage, MixError>)
        ensures
            archive_crypto_fails(mix_data@) ==> r matches Err(MixError::CryptoError(_)),
            !archive_crypto_fails(mix_data@) ==> match archive_info(mix_data@) {
                None => r matches Err(MixError::InvalidFormat(_)),
                Some((h, es)) => match file_map_of(es, mix_data@, h, Map::empty()) {
                    None => r matches Err(MixError::InvalidFormat(_)),
                    Some(m) => r matches Ok(p) && p@ == m && p.spec_game() == CncGame::RA2,
                },
            },
    {
        let global = load_global_mix_database();
        MixPackage::decode_with_database(mix_data, &global)
    }
}

impl Default for XccPackage {
    fn default() -> (r: XccPackage)
        ensures
            r.file_map@ == Map::<Seq<char>, Seq<u8>>::empty(),
            r.file_map.spec_game() == CncGame::RA2,
    {
        XccPackage::new()
    }
}

impl Default for MixPackage {
    fn default() -> (r: MixPackage)
        ensures
            r@ == Map::<Seq<char>, Seq<u8>>::empty(),
            r.spec_game() == CncGame::RA2,
    {
        MixPackage::new(CncGame::RA2)
    }
}

/// A package of named files for Red Alert 2.
#[derive(Debug)]
pub struct XccPackage {
    /// The files.
    pub file_map: MixPackage,
}

impl XccPackage {
    /// An empty package.
    pub fn new() -> (r: XccPackage)
        ensures
            r.file_map@ == Map::<Seq<char>, Seq<u8>>::empty(),
            r.file_map.spec_game() == CncGame::RA2,
    {
        XccPackage { file_map: MixPackage::new(CncGame::RA2) }
    }

    /// Adds a file under `filename`, replacing a file of that name.
    pub fn add_file(&mut self, filename: String, data: Vec<u8>)
        ensures
            final(self).file_map@ == old(self).file_map@.insert(filename@, data@),
            final(self).file_map.spec_game() == old(self).file_map.spec_game(),
    {
        self.file_map.add_any(filename, data);
    }
}

} // verus!
