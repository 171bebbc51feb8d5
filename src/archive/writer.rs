//! Writing archives: the name database entry, the index sorted by signed key, and the
//! body, with what decoding the result gives back.

use vstd::prelude::*;
use vstd::string::StringSliceAdditionalSpecFns;
use vstd::slice::slice_to_vec;
use crate::bytes::{le_u16, le_u32, push_u16_le, push_u32_le, u16_bytes, u32_bytes};
use crate::checksum::{name_key, ra2_crc};
use crate::error::Ra2Error;
use crate::game::CncGame;
use crate::names_db::{
    db_bytes, db_key, get_mix_db_data, lemma_db_round_trip, names_blob, names_map, MIX_DB_FILENAME,
};
use super::{
    archive_info, body_start, decode_entries, entry_at, entry_bytes, exposed, file_map_of,
    files_map, find_key, in_body, insert_file, is_encrypted, lemma_files_map_contains,
    lemma_files_map_dom, local_db_key, names_for, parse_entries, parse_header, unique_names,
    archive_crypto_fails, FileEntry, Header, MixPackage, HEADER_SIZE,
};

verus! {

/// The names of a list of files.
pub open spec fn names_of(s: Seq<(String, Vec<u8>)>) -> Seq<Seq<char>> {
    s.map_values(|p: (String, Vec<u8>)| p.0@)
}

/// The characters of a list of strings.
pub open spec fn string_views(s: Seq<String>) -> Seq<Seq<char>> {
    s.map_values(|x: String| x@)
}

/// The name of the archive's own name database.
pub open spec fn db_name() -> Seq<char> {
    MIX_DB_FILENAME@
}

/// Whether `list` is what an archive of `files` for the game numbered `game` stores: the
/// files, less any under the database's name, each name once and in some order, then a name
/// database listing them and itself.
pub open spec fn listing_of(files: Map<Seq<char>, Seq<u8>>, list: Seq<(String, Vec<u8>)>, game: u32) -> bool {
    &&& list.len() >= 1
    &&& unique_names(list)
    &&& files_map(list.drop_last()) == files.remove(db_name())
    &&& list.last().0@ == db_name()
    &&& list.last().1@ == db_bytes(names_of(list.drop_last()).push(db_name()), game)
}

/// What an archive of the package stores: its files, less any under the database's name,
/// then a name database listing them and itself.
pub open spec fn coalesced_ok(input: Seq<(String, Vec<u8>)>, r: Seq<(String, Vec<u8>)>, game: CncGame) -> bool {
    listing_of(files_map(input), r, game.spec_id())
}

/// Adds the name database entry to the files of a package.
pub fn coalesce_input_files(game: CncGame, file_map: &Vec<(String, Vec<u8>)>) -> (r: Result<Vec<(String, Vec<u8>)>, Ra2Error>)
    ensures
        r matches Ok(v) ==> coalesced_ok(file_map@, v@, game),
        r matches Err(e) ==> e is EncodeError && exists|t: Seq<(String, Vec<u8>)>| unique_names(t)
            && files_map(t) == files_map(file_map@).remove(db_name()) && #[trigger] archive_too_large(t),
{
    let db_name_string = String::from_str(MIX_DB_FILENAME);
    let mut files: Vec<(String, Vec<u8>)> = Vec::new();
    for i in 0..file_map.len()
        invariant
            db_name_string@ == db_name(),
            unique_names(files@),
            files_map(files@) == files_map(file_map@.subrange(0, i as int)).remove(db_name()),
            forall|j: int| 0 <= j < files@.len() ==> files@[j].0@ != db_name(),
    {
        let ghost prev = files_map(file_map@.subrange(0, i as int));
        assert(file_map@.subrange(0, i + 1).drop_last() =~= file_map@.subrange(0, i as int));
        if file_map[i].0 != db_name_string {
            let ghost before = files@;
            insert_file(&mut files, file_map[i].0.clone(), slice_to_vec(file_map[i].1.as_slice()));
            assert(files_map(files@) =~= files_map(file_map@.subrange(0, i + 1)).remove(db_name()));
            assert forall|j: int| 0 <= j < files@.len() implies files@[j].0@ != db_name() by {
                if j < before.len() {
                    lemma_files_map_contains(files@, j);
                }
                lemma_files_map_contains(files@, j);
            }
        } else {
            assert(files_map(files@) =~= files_map(file_map@.subrange(0, i + 1)).remove(db_name()));
        }
    }
    assert(file_map@.subrange(0, file_map@.len() as int) =~= file_map@);
    let mut names: Vec<String> = Vec::new();
    let mut blob_len: u64 = 0;
    for i in 0..files.len()
        invariant
            unique_names(files@),
            files_map(files@) == files_map(file_map@).remove(db_name()),
            string_views(names@) == names_of(files@.subrange(0, i as int)),
            blob_len == names_blob(string_views(names@)).len(),
            blob_len <= u32::MAX,
    {
        let name = files[i].0.clone();
        let len = name.as_str().as_bytes().len();
        if len as u64 >= 0xFFFF_FFFF - blob_len {
            proof {
                lemma_names_blob_prefix(names_of(files@).push(db_name()), i + 1);
                assert(names_of(files@).push(db_name()).subrange(0, i + 1) =~= names_of(files@.subrange(0, i + 1)));
                assert(names_blob(names_of(files@.subrange(0, i + 1))).len() == blob_len + len + 1) by {
                    assert(names_of(files@.subrange(0, i + 1)).drop_last() =~= names_of(files@.subrange(0, i as int)));
                }
                lemma_list_sizes_nonneg(files@, files@.len() as int);
                assert(archive_too_large(files@));
            }
            return Err(Ra2Error::EncodeError { format: "mix".to_string(), message: "the name database is too large".to_string() });
        }
        let ghost before = string_views(names@);
        names.push(name);
        let ghost after = string_views(names@);
        assert(after.drop_last() =~= before);
        assert(after.last() == files@[i as int].0@);
        assert(names_blob(after).len() == names_blob(before).len() + len + 1);
        assert forall|k: int| 0 <= k < i + 1 implies after[k] == names_of(
            files@.subrange(0, i + 1),
        )[k] by {
            if k < i {
                assert(after[k] == before[k]);
                assert(before[k] == names_of(files@.subrange(0, i as int))[k]);
            }
        }
        assert(after =~= names_of(files@.subrange(0, i + 1)));
        blob_len = blob_len + len as u64 + 1;
    }
    assert(files@.subrange(0, files@.len() as int) =~= files@);
    let db_entry_name = String::from_str(MIX_DB_FILENAME);
    let db_len = db_entry_name.as_str().as_bytes().len();
    if blob_len > 0xFFFF_FFFF - 53 || db_len as u64 > 0xFFFF_FFFF - 53 - blob_len {
        proof {
            let all = names_of(files@).push(db_name());
            assert(all.drop_last() =~= names_of(files@));
            assert(db_entry_name@ == db_name());
            lemma_list_sizes_nonneg(files@, files@.len() as int);
            assert(archive_too_large(files@));
        }
        return Err(Ra2Error::EncodeError { format: "mix".to_string(), message: "the name database is too large".to_string() });
    }
    let ghost before = string_views(names@);
    names.push(db_entry_name);
    assert(string_views(names@).drop_last() =~= before);
    assert(names_blob(string_views(names@)).len() == blob_len + db_len + 1);
    assert(string_views(names@) == names@.map_values(|s: String| s@));
    let db_data = get_mix_db_data(&names, game);
    let ghost listed = files@;
    files.push((db_name_string, db_data));
    assert(files@.drop_last() =~= listed);
    assert(string_views(names@) =~= names_of(listed).push(db_name()));
    Ok(files)
}

/// Whether some pair of `order` refers to position `k`.
pub open spec fn position_listed(order: Seq<(i32, usize)>, k: int) -> bool {
    exists|j: int| 0 <= j < order.len() && #[trigger] order[j].1 == k
}

/// The total size of the first `i` files of a list.
pub open spec fn list_sizes(list: Seq<(String, Vec<u8>)>, i: int) -> int
    decreases i,
{
    if i <= 0 {
        0
    } else {
        list_sizes(list, i - 1) + list[i - 1].1@.len()
    }
}

/// Whether an archive of the files `t` and a name database listing them and itself would
/// not fit the format: more than 65535 entries, or a body of more than `u32::MAX` bytes.
pub open spec fn archive_too_large(t: Seq<(String, Vec<u8>)>) -> bool {
    t.len() + 1 > 65535 || list_sizes(t, t.len() as int) + 52 + names_blob(names_of(t).push(db_name())).len() > u32::MAX
}

proof fn lemma_list_sizes_nonneg(list: Seq<(String, Vec<u8>)>, i: int)
    ensures
        list_sizes(list, i) >= 0,
    decreases i,
{
    if i > 0 {
        lemma_list_sizes_nonneg(list, i - 1);
    }
}

proof fn lemma_list_sizes_mono(list: Seq<(String, Vec<u8>)>, i: int, k: int)
    requires
        0 <= i <= k,
    ensures
        list_sizes(list, i) <= list_sizes(list, k),
    decreases k,
{
    if i < k {
        lemma_list_sizes_mono(list, i, k - 1);
    }
}

/// The sizes of a coalesced list: the files, then the name database.
proof fn lemma_list_sizes_last(list: Seq<(String, Vec<u8>)>)
    requires
        list.len() >= 1,
    ensures
        list_sizes(list, list.len() as int) == list_sizes(list.drop_last(), list.len() - 1) + list.last().1@.len(),
{
    lemma_list_sizes_prefix(list, list.drop_last(), list.len() - 1);
}

proof fn lemma_list_sizes_prefix(s: Seq<(String, Vec<u8>)>, t: Seq<(String, Vec<u8>)>, i: int)
    requires
        0 <= i <= s.len(),
        i <= t.len(),
        forall|k: int| 0 <= k < i ==> s[k] == t[k],
    ensures
        list_sizes(s, i) == list_sizes(t, i),
    decreases i,
{
    if i > 0 {
        lemma_list_sizes_prefix(s, t, i - 1);
    }
}

proof fn lemma_sizes_prefix(list: Seq<(String, Vec<u8>)>, s: Seq<(i32, usize)>, t: Seq<(i32, usize)>, j: int)
    requires
        0 <= j <= s.len(),
        j <= t.len(),
        forall|k: int| 0 <= k < j ==> s[k] == t[k],
    ensures
        sizes_upto(list, s, j) == sizes_upto(list, t, j),
    decreases j,
{
    if j > 0 {
        lemma_sizes_prefix(list, s, t, j - 1);
    }
}

proof fn lemma_sizes_insert(list: Seq<(String, Vec<u8>)>, s: Seq<(i32, usize)>, pos: int, x: (i32, usize))
    requires
        0 <= pos <= s.len(),
    ensures
        sizes_upto(list, s.insert(pos, x), s.len() + 1int) == sizes_upto(list, s, s.len() as int)
            + list[x.1 as int].1@.len(),
    decreases s.len(),
{
    let u = s.insert(pos, x);
    if pos == s.len() {
        lemma_sizes_prefix(list, u, s, s.len() as int);
    } else {
        let t = s.drop_last();
        lemma_sizes_insert(list, t, pos, x);
        lemma_sizes_prefix(list, u, t.insert(pos, x), t.len() + 1int);
        lemma_sizes_prefix(list, s, t, t.len() as int);
    }
}

proof fn lemma_names_blob_prefix(names: Seq<Seq<char>>, i: int)
    requires
        0 <= i <= names.len(),
    ensures
        names_blob(names.subrange(0, i)).len() <= names_blob(names).len(),
    decreases names.len(),
{
    if i < names.len() {
        assert(names.drop_last().subrange(0, i) =~= names.subrange(0, i));
        lemma_names_blob_prefix(names.drop_last(), i);
    } else {
        assert(names.subrange(0, i) =~= names);
    }
}

/// The total size of the first `j` files in the order `order`.
pub open spec fn sizes_upto(list: Seq<(String, Vec<u8>)>, order: Seq<(i32, usize)>, j: int) -> int
    decreases j,
{
    if j <= 0 {
        0
    } else {
        sizes_upto(list, order, j - 1) + list[order[j - 1].1 as int].1@.len()
    }
}

/// The number of entries an archive's header declares.
pub open spec fn written_count(b: Seq<u8>) -> int {
    le_u16(b, 4) as int
}

/// The entry at position `j` of a plain new archive.
pub open spec fn written_entry(b: Seq<u8>, j: int) -> FileEntry {
    entry_at(b, 10 + 12 * j)
}

/// The body of a plain new archive.
pub open spec fn written_body(b: Seq<u8>) -> Seq<u8> {
    b.subrange(10 + 12 * written_count(b), b.len() as int)
}

/// The header of a plain new archive: zero flags, the entry count and the body size.
fn create_mix_header(file_count: u16, data_size: u32) -> (r: Vec<u8>)
    ensures
        r@ == u32_bytes(0) + u16_bytes(file_count) + u32_bytes(data_size),
{
    let mut header: Vec<u8> = Vec::with_capacity(HEADER_SIZE);
    push_u32_le(&mut header, 0);
    push_u16_le(&mut header, file_count);
    push_u32_le(&mut header, data_size);
    header
}

/// The bytes of a plain archive of the files `list`, written in the order `order`.
#[verifier::rlimit(60)]
fn write_archive(list: &Vec<(String, Vec<u8>)>, order: &Vec<(i32, usize)>) -> (r: Result<Vec<u8>, Ra2Error>)
    requires
        list@.len() == order@.len() <= 65535,
        forall|j: int| 0 <= j < order@.len() ==> order@[j].1 < list@.len(),
    ensures
        r matches Ok(b) ==> {
            &&& le_u32(b@, 0) == 0
            &&& written_count(b@) == list@.len()
            &&& b@.len() == 10 + 12 * list@.len() + le_u32(b@, 6)
            &&& forall|j: int| 0 <= j < order@.len() ==> written_entry(b@, j) == (FileEntry {
                id: order@[j].0,
                offset: sizes_upto(list@, order@, j) as u32,
                size: list@[order@[j].1 as int].1@.len() as u32,
            })
            &&& forall|j: int| 0 <= j < order@.len() ==> entry_bytes(written_entry(b@, j), written_body(b@)) == list@[order@[j].1 as int].1@
            &&& forall|j: int| 0 <= j < order@.len() ==> written_entry(b@, j).offset + written_entry(b@, j).size <= le_u32(b@, 6)
            &&& le_u32(b@, 6) == sizes_upto(list@, order@, order@.len() as int)
        },
        r matches Err(e) ==> e is EncodeError,
        sizes_upto(list@, order@, order@.len() as int) <= u32::MAX ==> r is Ok,
{
    let n = order.len();
    let mut total: u64 = 0;
    for j in 0..n
        invariant
            n == order@.len() == list@.len(),
            forall|jj: int| 0 <= jj < order@.len() ==> order@[jj].1 < list@.len(),
            total == sizes_upto(list@, order@, j as int),
            total <= u32::MAX,
    {
        let size = list[order[j].1].1.len();
        if size as u64 > 0xFFFF_FFFF - total {
            proof {
                lemma_sizes_upto_mono(list@, order@, j + 1, n as int);
            }
            return Err(Ra2Error::EncodeError { format: "mix".to_string(), message: "the body is too large".to_string() });
        }
        total = total + size as u64;
    }
    let mut out = create_mix_header(n as u16, total as u32);
    let ghost header = out@;
    proof {
        crate::bytes::lemma_u32_round_trip(0);
        crate::bytes::lemma_u16_round_trip(n as u16);
        crate::bytes::lemma_u32_round_trip(total as u32);
        assert(header.subrange(0, 4) =~= u32_bytes(0));
        assert(header.subrange(4, 6) =~= u16_bytes(n as u16));
        assert(header.subrange(6, 10) =~= u32_bytes(total as u32));
        assert(le_u32(header, 0) == 0);
        assert(le_u16(header, 4) == n as u16);
        assert(le_u32(header, 6) == total as u32);
    }
    let mut offset: u32 = 0;
    for j in 0..n
        invariant
            n == order@.len() == list@.len(),
            forall|jj: int| 0 <= jj < order@.len() ==> order@[jj].1 < list@.len(),
            total == sizes_upto(list@, order@, n as int),
            total <= u32::MAX,
            offset == sizes_upto(list@, order@, j as int),
            out@.len() == 10 + 12 * j,
            out@.subrange(0, 10) == header,
            forall|jj: int| 0 <= jj < j ==> entry_at(out@, 10 + 12 * jj) == (FileEntry {
                id: order@[jj].0,
                offset: sizes_upto(list@, order@, jj) as u32,
                size: list@[order@[jj].1 as int].1@.len() as u32,
            }),
    {
        let (key, i) = order[j];
        let size = list[i].1.len();
        let ghost before = out@;
        push_u32_le(&mut out, #[verifier::truncate] (key as u32));
        push_u32_le(&mut out, offset);
        push_u32_le(&mut out, size as u32);
        proof {
            lemma_sizes_upto_mono(list@, order@, j + 1, n as int);
            crate::bytes::lemma_u32_round_trip(key as u32);
            crate::bytes::lemma_u32_round_trip(offset);
            crate::bytes::lemma_u32_round_trip(size as u32);
            assert((key as u32) as i32 == key) by (bit_vector);
            assert(out@.subrange(0, before.len() as int) =~= before);
            let p = 10 + 12 * j;
            assert(out@.subrange(p, p + 4) =~= u32_bytes(key as u32));
            assert(out@.subrange(p + 4, p + 8) =~= u32_bytes(offset));
            assert(out@.subrange(p + 8, p + 12) =~= u32_bytes(size as u32));
            assert(out@.subrange(0, 10) =~= header);
            assert forall|jj: int| 0 <= jj < j + 1 implies entry_at(out@, 10 + 12 * jj) == (FileEntry {
                id: order@[jj].0,
                offset: sizes_upto(list@, order@, jj) as u32,
                size: list@[order@[jj].1 as int].1@.len() as u32,
            }) by {
                if jj < j {
                    assert(entry_at(before, 10 + 12 * jj) == entry_at(out@, 10 + 12 * jj));
                }
            }
        }
        offset = offset + size as u32;
    }
    let ghost index = out@;
    assert(total == sizes_upto(list@, order@, n as int) && total <= u32::MAX);
    for j in 0..n
        invariant
            n == order@.len() == list@.len(),
            forall|jj: int| 0 <= jj < order@.len() ==> order@[jj].1 < list@.len(),
            out@ == index + bodies_upto(list@, order@, j as int),
    {
        let i = order[j].1;
        let data = list[i].1.as_slice();
        let ghost before = out@;
        for k in 0..data.len()
            invariant
                out@ == before + data@.subrange(0, k as int),
        {
            out.push(data[k]);
            assert(before + data@.subrange(0, k + 1) =~= (before + data@.subrange(0, k as int)).push(data@[k as int]));
        }
        assert(data@.subrange(0, data@.len() as int) =~= data@);
        assert(out@ =~= index + bodies_upto(list@, order@, j + 1));
    }
    proof {
        let body = bodies_upto(list@, order@, n as int);
        assert(index.subrange(0, 10) == header);
        assert(out@.subrange(0, 10 + 12 * n) == index);
        assert(out@[0] == header[0] && out@[1] == header[1] && out@[2] == header[2] && out@[3] == header[3]);
        assert(out@[4] == header[4] && out@[5] == header[5]);
        assert(out@[6] == header[6] && out@[7] == header[7] && out@[8] == header[8] && out@[9] == header[9]);
        assert(written_count(out@) == n);
        lemma_bodies_len(list@, order@, n as int);
        assert(written_body(out@) =~= body);
        assert forall|j: int| 0 <= j < order@.len() implies entry_bytes(written_entry(out@, j), written_body(out@)) == list@[order@[j].1 as int].1@ by {
            lemma_bodies_upto(list@, order@, j, n as int);
            lemma_sizes_upto_mono(list@, order@, j + 1, n as int);
            assert(entry_at(out@, 10 + 12 * j) == entry_at(index, 10 + 12 * j));
            assert(entry_at(index, 10 + 12 * j) == (FileEntry {
                id: order@[j].0,
                offset: sizes_upto(list@, order@, j) as u32,
                size: list@[order@[j].1 as int].1@.len() as u32,
            }));
            lemma_sizes_upto_mono(list@, order@, j, j + 1);
            assert(sizes_upto(list@, order@, j + 1) <= u32::MAX);
            let e = written_entry(out@, j);
            assert(e.offset == sizes_upto(list@, order@, j));
            assert(e.offset + e.size == sizes_upto(list@, order@, j + 1));
        }
        assert(le_u32(out@, 6) == total);
        assert forall|j: int| 0 <= j < order@.len() implies written_entry(out@, j).offset + written_entry(out@, j).size <= le_u32(out@, 6) by {
            lemma_sizes_upto_mono(list@, order@, j + 1, n as int);
            lemma_sizes_upto_mono(list@, order@, j, j + 1);
            assert(entry_at(out@, 10 + 12 * j) == entry_at(index, 10 + 12 * j));
        }
        assert forall|j: int| 0 <= j < order@.len() implies written_entry(out@, j) == entry_at(index, 10 + 12 * j) by {}
    }
    Ok(out)
}

/// The bytes of the first `j` files in the order `order`, one after the other.
pub open spec fn bodies_upto(list: Seq<(String, Vec<u8>)>, order: Seq<(i32, usize)>, j: int) -> Seq<u8>
    decreases j,
{
    if j <= 0 {
        seq![]
    } else {
        bodies_upto(list, order, j - 1) + list[order[j - 1].1 as int].1@
    }
}

proof fn lemma_bodies_upto(list: Seq<(String, Vec<u8>)>, order: Seq<(i32, usize)>, j: int, k: int)
    requires
        0 <= j < k <= order.len(),
        forall|jj: int| 0 <= jj < order.len() ==> order[jj].1 < list.len(),
    ensures
        bodies_upto(list, order, k).len() == sizes_upto(list, order, k),
        bodies_upto(list, order, k).subrange(sizes_upto(list, order, j), sizes_upto(list, order, j + 1))
            == list[order[j].1 as int].1@,
    decreases k,
{
    lemma_sizes_upto_mono(list, order, j, k - 1);
    if j < k - 1 {
        lemma_bodies_upto(list, order, j, k - 1);
        lemma_sizes_upto_mono(list, order, j + 1, k - 1);
        assert(bodies_upto(list, order, k).subrange(sizes_upto(list, order, j), sizes_upto(list, order, j + 1))
            =~= bodies_upto(list, order, k - 1).subrange(sizes_upto(list, order, j), sizes_upto(list, order, j + 1)));
    } else {
        lemma_bodies_len(list, order, j);
        assert(bodies_upto(list, order, k).subrange(sizes_upto(list, order, j), sizes_upto(list, order, j + 1))
            =~= list[order[j].1 as int].1@);
    }
}

proof fn lemma_bodies_len(list: Seq<(String, Vec<u8>)>, order: Seq<(i32, usize)>, j: int)
    requires
        0 <= j <= order.len(),
        forall|jj: int| 0 <= jj < order.len() ==> order[jj].1 < list.len(),
    ensures
        bodies_upto(list, order, j).len() == sizes_upto(list, order, j),
    decreases j,
{
    if j > 0 {
        lemma_bodies_len(list, order, j - 1);
    }
}

proof fn lemma_sizes_upto_mono(list: Seq<(String, Vec<u8>)>, order: Seq<(i32, usize)>, j: int, k: int)
    requires
        0 <= j <= k <= order.len(),
        forall|jj: int| 0 <= jj < order.len() ==> order[jj].1 < list.len(),
    ensures
        0 <= sizes_upto(list, order, j) <= sizes_upto(list, order, k),
    decreases k,
{
    if k > 0 {
        if j < k {
            lemma_sizes_upto_mono(list, order, j, k - 1);
        } else {
            lemma_sizes_upto_mono(list, order, j - 1, k - 1);
        }
    }
}

impl MixPackage {
    /// Writes the package as a plain archive: its files and a name database listing them,
    /// their entries sorted by signed key and their bytes in the same order. Decoding the
    /// result gives back the files, besides the name database, when the names and the
    /// database's own name have distinct keys, each name is nonempty without zero bytes, and
    /// the body stays under 2 GiB (offsets read as signed).
    pub fn encode(self) -> (r: Result<Vec<u8>, Ra2Error>)
        ensures
            r matches Ok(b) ==> exists|list: Seq<(String, Vec<u8>)>, order: Seq<(i32, usize)>|
                #[trigger] encoding_of(b@, self@, self.spec_game().spec_id(), list, order),
            r matches Err(e) ==> e is EncodeError && exists|t: Seq<(String, Vec<u8>)>| unique_names(t)
                && files_map(t) == self@.remove(db_name()) && #[trigger] archive_too_large(t),
    {
        proof {
            use_type_invariant(&self);
        }
        let list = coalesce_input_files(self.game, &self.files)?;
        let n = list.len();
        if n > 65535 {
            assert(archive_too_large(list@.drop_last()));
            return Err(Ra2Error::EncodeError { format: "mix".to_string(), message: "too many files".to_string() });
        }
        let mut total: u64 = 0;
        for i in 0..n
            invariant
                n == list@.len(),
                coalesced_ok(self.files@, list@, self.game),
                total == list_sizes(list@, i as int),
                total <= u32::MAX,
        {
            let size = list[i].1.len();
            if size as u64 > 0xFFFF_FFFF - total {
                proof {
                    lemma_list_sizes_mono(list@, i + 1, n as int);
                    lemma_list_sizes_last(list@);
                    let t = list@.drop_last();
                    assert(list@.last().1@.len() == 52 + names_blob(names_of(t).push(db_name())).len());
                    assert(archive_too_large(t));
                }
                return Err(Ra2Error::EncodeError { format: "mix".to_string(), message: "the body is too large".to_string() });
            }
            total = total + size as u64;
        }
        let mut order: Vec<(i32, usize)> = Vec::new();
        for i in 0..n
            invariant
                n == list@.len(),
                order@.len() == i,
                forall|j: int| 0 <= j < i ==> #[trigger] order@[j].1 < i && order@[j].0 == name_key(vstd::utf8::encode_utf8(list@[order@[j].1 as int].0@)),
                forall|j1: int, j2: int| 0 <= j1 < j2 < i ==> order@[j1].0 <= order@[j2].0,
                forall|k: int| 0 <= k < i ==> #[trigger] position_listed(order@, k),
                forall|j1: int, j2: int| 0 <= j1 < i && 0 <= j2 < i && j1 != j2 ==> order@[j1].1 != order@[j2].1,
                sizes_upto(list@, order@, i as int) == list_sizes(list@, i as int),
        {
            let key = ra2_crc(list[i].0.as_str());
            let mut pos: usize = 0;
            while pos < order.len() && order[pos].0 <= key
                invariant
                    pos <= order@.len(),
                    forall|j: int| 0 <= j < pos ==> order@[j].0 <= key,
                decreases order@.len() - pos,
            {
                pos += 1;
            }
            proof {
                lemma_sizes_insert(list@, order@, pos as int, (key, i));
            }
            let ghost before = order@;
            order.insert(pos, (key, i));
            assert forall|k: int| 0 <= k < i + 1 implies #[trigger] position_listed(order@, k) by {
                if k == i {
                    assert(order@[pos as int].1 == k);
                } else {
                    assert(position_listed(before, k));
                    let j0 = choose|j: int| 0 <= j < before.len() && #[trigger] before[j].1 == k;
                    if j0 < pos {
                        assert(order@[j0].1 == k);
                    } else {
                        assert(order@[j0 + 1].1 == k);
                    }
                }
            }
        }
        let out = write_archive(&list, &order)?;
        proof {
            let files = self@;
            let g = self.game.spec_id();
            assert(list@.len() == n);
            assert(permutation_of(order@, n as int));
            assert(archive_layout(out@, list@, order@));
            if distinct_keys(files) {
                assert forall|i: int, j: int| 0 <= i < j < written_count(out@) implies written_entry(out@, i).id < written_entry(out@, j).id by {
                    let a = order@[i].1 as int;
                    let c = order@[j].1 as int;
                    assert(a < n && c < n && a != c);
                    assert(list@[a].0@ != list@[c].0@);
                    let t = list@.drop_last();
                    if a < n - 1 {
                        lemma_files_map_contains(t, a);
                        assert(t[a] == list@[a]);
                    }
                    if c < n - 1 {
                        lemma_files_map_contains(t, c);
                        assert(t[c] == list@[c]);
                    }
                }
            }
            if names_round_trip(files) && list_sizes(list@, n as int) < 0x8000_0000 {
                lemma_encode_round_trip(list@, order@, out@, files, g);
            }
            assert(encoding_of(out@, files, g, list@, order@));
        }
        Ok(out)
    }
}

/// An archive laid out as the encoder writes it (flags zero, a count, a body size, the
/// index, then exactly the body) reads back as a plain new archive whose entries are the
/// written ones and whose body follows the index.
pub proof fn lemma_encoded_index_reads_back(b: Seq<u8>)
    requires
        b.len() >= 10,
        le_u32(b, 0) == 0,
        b.len() == 10 + 12 * written_count(b) + le_u32(b, 6),
    ensures
        !archive_crypto_fails(b),
        archive_info(b) == Some(
            (
                Header { flags: Some(0), file_count: written_count(b) as u16, data_size: le_u32(b, 6) },
                Seq::new(written_count(b) as nat, |j: int| written_entry(b, j)),
            ),
        ),
        body_start(Header { flags: Some(0), file_count: written_count(b) as u16, data_size: le_u32(b, 6) }, written_count(b)) == 10 + 12 * written_count(b),
{
    let b0 = b[0];
    let b1 = b[1];
    assert((b0 as int) + 256 * (b1 as int) + 65536 * (b[2] as int) + 16777216 * (b[3] as int) < 0x1_0000_0000);
    assert(b0 == 0 && b1 == 0);
    assert(le_u16(b, 0) == 0);
    let k = written_count(b);
    let h = Header { flags: Some(0), file_count: k as u16, data_size: le_u32(b, 6) };
    assert(parse_header(b) == Some((h, 10int)));
    assert(!is_encrypted(h)) by {
        assert(0u32 & 0x20000 == 0) by (bit_vector);
    }
    let index = b.subrange(10, 10 + 12 * k);
    assert(parse_entries(index, k as nat) =~= Seq::new(k as nat, |j: int| written_entry(b, j)));
}

/// Whether a name survives a name database: its bytes are not empty and hold no zero byte.
pub open spec fn name_ok(n: Seq<char>) -> bool {
    &&& vstd::utf8::encode_utf8(n).len() > 0
    &&& forall|j: int| 0 <= j < vstd::utf8::encode_utf8(n).len() ==> #[trigger] vstd::utf8::encode_utf8(n)[j] != 0
}

/// Whether the names of `files` and the database's own name have pairwise distinct keys.
pub open spec fn distinct_keys(files: Map<Seq<char>, Seq<u8>>) -> bool {
    forall|n1: Seq<char>, n2: Seq<char>|
        (files.contains_key(n1) || n1 == db_name()) && (files.contains_key(n2) || n2 == db_name()) && n1 != n2
            ==> #[trigger] name_key(vstd::utf8::encode_utf8(n1)) != #[trigger] name_key(vstd::utf8::encode_utf8(n2))
}

/// Whether the names of `files`, with the database's own name, have pairwise distinct keys,
/// and each name of `files` survives a name database.
pub open spec fn names_round_trip(files: Map<Seq<char>, Seq<u8>>) -> bool {
    &&& distinct_keys(files)
    &&& forall|n: Seq<char>| #[trigger] files.contains_key(n) ==> name_ok(n)
}

/// Whether `order` lists each of the positions `0..n` exactly once.
pub open spec fn permutation_of(order: Seq<(i32, usize)>, n: int) -> bool {
    &&& order.len() == n
    &&& forall|j: int| 0 <= j < order.len() ==> #[trigger] order[j].1 < n
    &&& forall|k: int| 0 <= k < n ==> #[trigger] position_listed(order, k)
    &&& forall|j1: int, j2: int| 0 <= j1 < order.len() && 0 <= j2 < order.len() && j1 != j2 ==> order[j1].1 != order[j2].1
}

/// Whether `b` is the plain archive of the files `list` written in the order `order`: zero
/// flags, one entry per file, the body size as the sum of the sizes, each entry with its
/// file's key, an offset running on from the previous entry (0 for the first) and the file's
/// size, the files' bytes in that order, and the keys in ascending signed order.
pub open spec fn archive_layout(b: Seq<u8>, list: Seq<(String, Vec<u8>)>, order: Seq<(i32, usize)>) -> bool {
    &&& le_u32(b, 0) == 0
    &&& written_count(b) == list.len()
    &&& le_u32(b, 6) == list_sizes(list, list.len() as int)
    &&& b.len() == 10 + 12 * list.len() + le_u32(b, 6)
    &&& forall|j: int| 0 <= j < order.len() ==> #[trigger] written_entry(b, j) == (FileEntry {
        id: name_key(vstd::utf8::encode_utf8(list[order[j].1 as int].0@)),
        offset: sizes_upto(list, order, j) as u32,
        size: list[order[j].1 as int].1@.len() as u32,
    })
    &&& forall|j: int| 0 <= j < order.len() ==> #[trigger] entry_bytes(written_entry(b, j), written_body(b))
        == list[order[j].1 as int].1@
    &&& forall|i: int, j: int| 0 <= i < j < order.len() ==> written_entry(b, i).id <= written_entry(b, j).id
}

/// Whether `b` encodes `files` for the game numbered `game`, through the stored list `list`
/// written in the order `order`: the layout above; keys strictly ascending when they are
/// distinct; and, when the names also survive a name database and the body stays under
/// 2 GiB (offsets read as signed), decoding `b` gives back `files` besides the database.
pub open spec fn encoding_of(
    b: Seq<u8>,
    files: Map<Seq<char>, Seq<u8>>,
    game: u32,
    list: Seq<(String, Vec<u8>)>,
    order: Seq<(i32, usize)>,
) -> bool {
    &&& listing_of(files, list, game)
    &&& permutation_of(order, list.len() as int)
    &&& archive_layout(b, list, order)
    &&& distinct_keys(files) ==> forall|i: int, j: int| 0 <= i < j < written_count(b) ==> written_entry(b, i).id < written_entry(b, j).id
    &&& names_round_trip(files) && list_sizes(list, list.len() as int) < 0x8000_0000 ==> (decoded_files(b) matches Some(m)
        && m.remove(db_name()) == files.remove(db_name()))
}

/// The files an archive decodes to with no global name database, or `None` when it does not
/// decode.
pub open spec fn decoded_files(b: Seq<u8>) -> Option<Map<Seq<char>, Seq<u8>>> {
    match archive_info(b) {
        None => None,
        Some((h, es)) => file_map_of(es, b, h, Map::empty()),
    }
}

proof fn lemma_signed_cast(a: u32, b: u32)
    ensures
        (a as i32) as u32 == a,
        a != b ==> (a as i32) != (b as i32),
        a < 0x8000_0000 ==> (a as i32) >= 0,
{
    assert((a as i32) as u32 == a) by (bit_vector);
    assert(a != b ==> (a as i32) != (b as i32)) by (bit_vector);
    assert(a < 0x8000_0000 ==> (a as i32) >= 0) by (bit_vector);
}

proof fn lemma_db_name_ok()
    ensures
        name_ok(db_name()),
{
    reveal_strlit("local mix database.dat");
    let c = db_name();
    assert(c.len() == 22);
    assert(vstd::utf8::is_ascii_chars(c)) by {
        assert forall|i: int| 0 <= i < c.len() implies '\0' <= #[trigger] c[i] <= '\u{7f}' by {
            assert(c[i] == MIX_DB_FILENAME@[i]);
        }
    }
    vstd::utf8::is_ascii_chars_encode_utf8(c);
    assert forall|j: int| 0 <= j < vstd::utf8::encode_utf8(c).len() implies #[trigger] vstd::utf8::encode_utf8(c)[j] != 0 by {
        assert(c[j] as u8 == vstd::utf8::encode_utf8(c)[j]);
        assert(c[j] != '\0');
    }
}

proof fn lemma_names_map_distinct(names: Seq<Seq<char>>, k: int)
    requires
        0 <= k < names.len(),
        forall|i: int, j: int| 0 <= i < j < names.len() ==> db_key(names[i]) != db_key(names[j]),
    ensures
        names_map(names).contains_key(db_key(names[k])),
        names_map(names)[db_key(names[k])] == names[k],
    decreases names.len(),
{
    if k < names.len() - 1 {
        lemma_names_map_distinct(names.drop_last(), k);
    }
}

proof fn lemma_find_key_unique(es: Seq<FileEntry>, key: i32, jd: int, i: int)
    requires
        0 <= i <= jd < es.len(),
        es[jd].id == key,
        forall|j: int| 0 <= j < es.len() && j != jd ==> es[j].id != key,
    ensures
        find_key(es, key, i) == jd,
    decreases jd - i,
{
    if i < jd {
        lemma_find_key_unique(es, key, jd, i + 1);
    }
}

proof fn lemma_decode_fold(es: Seq<FileEntry>, body: Seq<u8>, names: Map<u32, Seq<char>>, plist: Seq<(String, Vec<u8>)>)
    requires
        es.len() == plist.len(),
        forall|j: int| 0 <= j < es.len() ==> #[trigger] exposed(es[j], names) && in_body(es[j], body)
            && names[es[j].id as u32] == plist[j].0@ && entry_bytes(es[j], body) == plist[j].1@,
    ensures
        decode_entries(es, body, names) == Some(files_map(plist)),
    decreases es.len(),
{
    if es.len() > 0 {
        let k = es.len() - 1;
        assert(exposed(es[k], names));
        assert forall|j: int| 0 <= j < es.drop_last().len() implies #[trigger] exposed(es.drop_last()[j], names)
            && in_body(es.drop_last()[j], body) && names[es.drop_last()[j].id as u32] == plist.drop_last()[j].0@
            && entry_bytes(es.drop_last()[j], body) == plist.drop_last()[j].1@ by {
            assert(exposed(es[j], names));
        }
        lemma_decode_fold(es.drop_last(), body, names, plist.drop_last());
    }
}

proof fn lemma_files_map_permuted(list: Seq<(String, Vec<u8>)>, order: Seq<(i32, usize)>, plist: Seq<(String, Vec<u8>)>)
    requires
        unique_names(list),
        order.len() == list.len() == plist.len(),
        forall|j: int| 0 <= j < order.len() ==> #[trigger] order[j].1 < list.len() && plist[j] == list[order[j].1 as int],
        forall|j1: int, j2: int| 0 <= j1 < order.len() && 0 <= j2 < order.len() && j1 != j2 ==> order[j1].1 != order[j2].1,
        forall|k: int| 0 <= k < list.len() ==> #[trigger] position_listed(order, k),
    ensures
        unique_names(plist),
        files_map(plist) == files_map(list),
{
    assert forall|i: int, j: int| 0 <= i < j < plist.len() implies plist[i].0@ != plist[j].0@ by {
        assert(order[i].1 < list.len() && order[j].1 < list.len());
        assert(order[i].1 != order[j].1);
    }
    assert forall|k: Seq<char>| #[trigger] files_map(plist).contains_key(k) <==> files_map(list).contains_key(k) by {
        if files_map(plist).contains_key(k) {
            lemma_files_map_dom(plist, k);
            let j = choose|j: int| 0 <= j < plist.len() && plist[j].0@ == k;
            assert(order[j].1 < list.len());
            lemma_files_map_contains(list, order[j].1 as int);
        }
        if files_map(list).contains_key(k) {
            lemma_files_map_dom(list, k);
            let i = choose|i: int| 0 <= i < list.len() && list[i].0@ == k;
            assert(position_listed(order, i));
            let j = choose|j: int| 0 <= j < order.len() && #[trigger] order[j].1 == i;
            assert(plist[j] == list[i]);
            lemma_files_map_contains(plist, j);
        }
    }
    assert forall|k: Seq<char>| #[trigger] files_map(plist).contains_key(k) implies files_map(plist)[k] == files_map(list)[k] by {
        lemma_files_map_dom(plist, k);
        let j = choose|j: int| 0 <= j < plist.len() && plist[j].0@ == k;
        assert(order[j].1 < list.len());
        lemma_files_map_contains(plist, j);
        lemma_files_map_contains(list, order[j].1 as int);
    }
    assert(files_map(plist) =~= files_map(list));
}

proof fn lemma_encode_round_trip(
    list: Seq<(String, Vec<u8>)>,
    order: Seq<(i32, usize)>,
    out: Seq<u8>,
    files: Map<Seq<char>, Seq<u8>>,
    game: u32,
)
    requires
        list.len() >= 1,
        unique_names(list),
        files_map(list.drop_last()) == files.remove(db_name()),
        list.last().0@ == db_name(),
        list.last().1@ == db_bytes(names_of(list.drop_last()).push(db_name()), game),
        order.len() == list.len() <= 65535,
        forall|j: int| 0 <= j < order.len() ==> #[trigger] order[j].1 < list.len() && order[j].0 == name_key(
            vstd::utf8::encode_utf8(list[order[j].1 as int].0@),
        ),
        forall|k: int| 0 <= k < list.len() ==> #[trigger] position_listed(order, k),
        forall|j1: int, j2: int| 0 <= j1 < order.len() && 0 <= j2 < order.len() && j1 != j2 ==> order[j1].1 != order[j2].1,
        out.len() >= 10,
        le_u32(out, 0) == 0,
        written_count(out) == list.len(),
        out.len() == 10 + 12 * list.len() + le_u32(out, 6),
        forall|j: int| 0 <= j < order.len() ==> #[trigger] written_entry(out, j).id == order[j].0,
        forall|j: int| 0 <= j < order.len() ==> #[trigger] entry_bytes(written_entry(out, j), written_body(out)) == list[order[j].1 as int].1@,
        forall|j: int| 0 <= j < order.len() ==> #[trigger] written_entry(out, j).offset + written_entry(out, j).size <= le_u32(out, 6),
        names_round_trip(files),
        le_u32(out, 6) < 0x8000_0000,
    ensures
        decoded_files(out) matches Some(m) && m.remove(db_name()) == files.remove(db_name()),
{
    let n = list.len() as int;
    let t = list.drop_last();
    lemma_encoded_index_reads_back(out);
    let h = Header { flags: Some(0), file_count: written_count(out) as u16, data_size: le_u32(out, 6) };
    let es = Seq::new(n as nat, |j: int| written_entry(out, j));
    let body = out.subrange(10 + 12 * n, out.len() as int);
    assert(body == written_body(out));
    // every name of the list is one of the files or the database's own name
    assert forall|i: int| 0 <= i < n implies files.contains_key(#[trigger] list[i].0@) || list[i].0@ == db_name() by {
        if i < n - 1 {
            lemma_files_map_contains(t, i);
            assert(t[i] == list[i]);
            assert(list[i].0@ != db_name());
        }
    }
    assert forall|i1: int, i2: int| 0 <= i1 < n && 0 <= i2 < n && i1 != i2 implies name_key(
        vstd::utf8::encode_utf8(#[trigger] list[i1].0@),
    ) != name_key(vstd::utf8::encode_utf8(#[trigger] list[i2].0@)) by {
        assert(files.contains_key(list[i1].0@) || list[i1].0@ == db_name());
        assert(files.contains_key(list[i2].0@) || list[i2].0@ == db_name());
    }
    if n <= 1 {
        assert(t =~= Seq::<(String, Vec<u8>)>::empty());
        assert(files.remove(db_name()) =~= Map::<Seq<char>, Seq<u8>>::empty());
        assert(decoded_files(out) == Some(Map::<Seq<char>, Seq<u8>>::empty()));
        assert(Map::<Seq<char>, Seq<u8>>::empty().remove(db_name()) =~= files.remove(db_name()));
    } else {
        // the name database's entry
        assert(position_listed(order, n - 1));
        let jd = choose|j: int| 0 <= j < order.len() && #[trigger] order[j].1 == n - 1;
        assert(es[jd].id == local_db_key());
        assert forall|j: int| 0 <= j < es.len() && j != jd implies es[j].id != local_db_key() by {
            assert(order[j].1 < list.len());
            assert(order[j].1 != order[jd].1);
        }
        lemma_find_key_unique(es, local_db_key(), jd, 0);
        let names_list = names_of(t).push(db_name());
        assert forall|i: int| 0 <= i < n implies #[trigger] names_list[i] == list[i].0@ by {
            if i < n - 1 {
                assert(t[i] == list[i]);
            }
        }
        assert forall|m: int| 0 <= m < names_list.len() implies vstd::utf8::encode_utf8(#[trigger] names_list[m]).len() > 0 by {
            lemma_db_name_ok();
            assert(names_list[m] == list[m].0@);
        }
        assert forall|m: int, j: int| 0 <= m < names_list.len() && 0 <= j < vstd::utf8::encode_utf8(names_list[m]).len()
            implies #[trigger] vstd::utf8::encode_utf8(names_list[m])[j] != 0 by {
            lemma_db_name_ok();
            assert(names_list[m] == list[m].0@);
        }
        lemma_db_round_trip(names_list, game);
        let offset_d = written_entry(out, jd).offset;
        lemma_signed_cast(offset_d, 0);
        assert(entry_bytes(es[jd], body) == db_bytes(names_list, game));
        let names = names_map(names_list);
        assert(names_for(es, body, Map::empty()) == Some(names));
        // every entry resolves to its file
        let plist = Seq::new(n as nat, |j: int| list[order[j].1 as int]);
        assert forall|i1: int, i2: int| 0 <= i1 < i2 < names_list.len() implies db_key(names_list[i1]) != db_key(
            names_list[i2],
        ) by {
            assert(names_list[i1] == list[i1].0@ && names_list[i2] == list[i2].0@);
            lemma_signed_cast(db_key(names_list[i1]), db_key(names_list[i2]));
        }
        assert forall|j: int| 0 <= j < es.len() implies #[trigger] exposed(es[j], names) && in_body(es[j], body)
            && names[es[j].id as u32] == plist[j].0@ && entry_bytes(es[j], body) == plist[j].1@ by {
            let i = order[j].1 as int;
            assert(i < n);
            lemma_signed_cast(written_entry(out, j).offset, 0);
            lemma_signed_cast(db_key(list[i].0@), 0);
            assert(es[j].id == name_key(vstd::utf8::encode_utf8(list[i].0@)));
            assert(es[j].id as u32 == db_key(names_list[i]));
            lemma_names_map_distinct(names_list, i);
        }
        lemma_decode_fold(es, body, names, plist);
        lemma_files_map_permuted(list, order, plist);
        assert(list =~= t.push(list.last()));
        assert(files_map(list).remove(db_name()) =~= files.remove(db_name()));
    }
}

} // verus!
