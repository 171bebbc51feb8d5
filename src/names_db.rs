//! The XCC name database: the filenames of an archive, from which the keys of its entries
//! are resolved back to names.

use vstd::prelude::*;
use vstd::string::StringSliceAdditionalSpecFns;
use vstd::std_specs::iter::IteratorSpec;
use vstd::std_specs::cmp::OrdSpec;
use vstd::utf8::{decode_utf8, valid_utf8};
use std::collections::BTreeMap;
use crate::bytes::{push_u32_le, u32_bytes};
use crate::checksum::{crc32_of, obfuscated, ra2_crc};
use crate::error::Ra2Error;
use crate::game::CncGame;

verus! {

broadcast use vstd::std_specs::btree::group_btree_axioms;

/// Size of the database header: the padded identifier and five 32-bit fields.
pub const XCC_HEADER_SIZE: usize = 52;

/// The identifier at the start of a name database, zero-padded to 32 bytes in the header.
pub const XCC_ID_BYTES: [u8; 31] = [
    0x58, 0x43, 0x43, 0x20, 0x62, 0x79, 0x20, 0x4F, 0x6C, 0x61, 0x66, 0x20, 0x76, 0x61, 0x6E, 0x20,
    0x64, 0x65, 0x72, 0x20, 0x53, 0x70, 0x65, 0x6B, 0x1A, 0x04, 0x17, 0x27, 0x10, 0x19, 0x80,
];

/// The name under which an archive stores its own name database.
pub const MIX_DB_FILENAME: &'static str = "local mix database.dat";

/// The unsigned key of a name given by its characters.
pub open spec fn db_key(name: Seq<char>) -> u32 {
    crc32_of(obfuscated(vstd::utf8::encode_utf8(name)))
}

/// The name a run of bytes stands for: none when the run is empty or not UTF-8.
pub open spec fn run_name(data: Seq<u8>, start: int, end: int) -> Seq<Seq<char>> {
    if start < end && valid_utf8(data.subrange(start, end)) {
        seq![decode_utf8(data.subrange(start, end))]
    } else {
        seq![]
    }
}

/// The names stored in `data` from position `i` on, where the current run began at
/// `run_start`: the zero-terminated runs (the last one may end with the data), leaving out
/// empty runs and runs that are not UTF-8.
pub open spec fn names_scan(data: Seq<u8>, run_start: int, i: int) -> Seq<Seq<char>>
    decreases data.len() - i,
{
    if i >= data.len() {
        run_name(data, run_start, data.len() as int)
    } else if data[i] == 0 {
        run_name(data, run_start, i) + names_scan(data, i + 1, i + 1)
    } else {
        names_scan(data, run_start, i + 1)
    }
}

/// The names a database holds: those after its 52-byte header.
pub open spec fn db_names(data: Seq<u8>) -> Seq<Seq<char>> {
    names_scan(data, 52, 52)
}

/// The key-to-name map of a list of names: each name under its key, a later name replacing
/// an earlier one with the same key.
pub open spec fn names_map(names: Seq<Seq<char>>) -> Map<u32, Seq<char>>
    decreases names.len(),
{
    if names.len() == 0 {
        Map::empty()
    } else {
        names_map(names.drop_last()).insert(db_key(names.last()), names.last())
    }
}

/// Relies on `std::str::from_utf8`: it accepts exactly the valid UTF-8 byte sequences, and
/// the string then holds the characters they encode.
#[verifier::external_body]
fn utf8_string(bytes: &[u8]) -> (r: Option<String>)
    ensures
        r is Some <==> valid_utf8(bytes@),
        r matches Some(s) ==> s@ == decode_utf8(bytes@),
{
    match std::str::from_utf8(bytes) {
        Ok(s) => Some(s.to_string()),
        Err(_) => None,
    }
}

/// The names stored in a name database, in order.
pub fn get_filenames_from_mix_db(mix_db_file_data: &[u8]) -> (r: Vec<String>)
    ensures
        r@.map_values(|s: String| s@) == db_names(mix_db_file_data@),
{
    let data = mix_db_file_data;
    let n = data.len();
    let mut filenames: Vec<String> = Vec::new();
    let mut start: usize = XCC_HEADER_SIZE;
    while start < n
        invariant
            n == data@.len(),
            filenames@.map_values(|s: String| s@) + names_scan(data@, start as int, start as int)
                == db_names(data@),
        decreases n - start,
    {
        let mut end = start;
        while end < n && data[end] != 0
            invariant
                n == data@.len(),
                start <= end <= n,
                names_scan(data@, start as int, start as int) == names_scan(
                    data@,
                    start as int,
                    end as int,
                ),
            decreases n - end,
        {
            end += 1;
        }
        let ghost before = filenames@.map_values(|s: String| s@);
        if start < end {
            match utf8_string(&data[start..end]) {
                Some(name) => {
                    filenames.push(name);
                    assert(filenames@.map_values(|s: String| s@) =~= before + run_name(
                        data@,
                        start as int,
                        end as int,
                    ));
                },
                None => {},
            }
        }
        assert(filenames@.map_values(|s: String| s@) =~= before + run_name(
            data@,
            start as int,
            end as int,
        ));
        if end >= n {
            start = n;
        } else {
            start = end + 1;
        }
    }
    filenames
}

/// The filenames of one archive, keyed by the unsigned CRC under which their entries are
/// stored.
#[derive(Clone, Debug)]
pub struct MixDatabase {
    map: BTreeMap<u32, String>,
}

impl View for MixDatabase {
    type V = Map<u32, Seq<char>>;

    closed spec fn view(&self) -> Map<u32, Seq<char>> {
        self.map@.map_values(|s: String| s@)
    }
}

impl MixDatabase {
    /// An empty database.
    pub fn new() -> (r: MixDatabase)
        ensures
            r@ == Map::<u32, Seq<char>>::empty(),
    {
        let r = MixDatabase { map: BTreeMap::new() };
        assert(r@ =~= Map::<u32, Seq<char>>::empty());
        r
    }

    /// Reads a name database: each stored name under its key.
    pub fn decode(dat: &[u8]) -> (r: Result<MixDatabase, Ra2Error>)
        ensures
            r matches Ok(db) && db@ == names_map(db_names(dat@)),
    {
        let names = get_filenames_from_mix_db(dat);
        let mut out = MixDatabase::new();
        let ghost all = names@.map_values(|s: String| s@);
        for i in 0..names.len()
            invariant
                all == names@.map_values(|s: String| s@),
                out@ == names_map(all.subrange(0, i as int)),
        {
            out.add(names[i].clone());
            assert(all.subrange(0, i + 1).drop_last() =~= all.subrange(0, i as int));
        }
        assert(all.subrange(0, names@.len() as int) =~= all);
        Ok(out)
    }

    /// Every key with its name, in ascending key order.
    pub fn entries(&self) -> (r: Vec<(u32, String)>)
        ensures
            forall|i: int| 0 <= i < r@.len() ==> #[trigger] self@.contains_key(r@[i].0) && self@[r@[i].0] == r@[i].1@,
            forall|k: u32| self@.contains_key(k) ==> exists|i: int| 0 <= i < r@.len() && #[trigger] r@[i].0 == k,
            forall|i: int, j: int| 0 <= i < j < r@.len() ==> r@[i].0 < r@[j].0,
    {
        let mut out: Vec<(u32, String)> = Vec::new();
        let it = self.map.iter();
        let ghost all = it.remaining();
        assert(all.len() == self.map@.dom().len());
        for kv in iter: it
            invariant
                iter.seq() == all,
                out@.len() == iter.index(),
                forall|i: int| 0 <= i < iter.index() ==> out@[i].0 == *all[i].0 && out@[i].1 == *all[i].1,
        {
            out.push((*kv.0, kv.1.clone()));
        }
        proof {
            assert(out@.len() == all.len());
            let keys = all.map_values(|kv: (&u32, &String)| *kv.0);
            assert forall|i: int| 0 <= i < out@.len() implies #[trigger] self@.contains_key(out@[i].0) && self@[out@[i].0]
                == out@[i].1@ by {
                assert(self.map@.contains_key(*all[i].0) && self.map@[*all[i].0] == *all[i].1);
            }
            assert forall|i: int, j: int| 0 <= i < j < out@.len() implies out@[i].0 < out@[j].0 by {
                assert(keys[i] == out@[i].0 && keys[j] == out@[j].0);
                assert(keys[i].cmp_spec(&keys[j]) is Less);
            }
        }
        out
    }

    /// Stores `filename` under the key `crc_id`, replacing a name stored there.
    pub fn insert(&mut self, crc_id: u32, filename: String)
        ensures
            final(self)@ == old(self)@.insert(crc_id, filename@),
    {
        self.map.insert(crc_id, filename);
        assert(final(self)@ =~= old(self)@.insert(crc_id, filename@));
    }

    /// The name stored under `crc_id`.
    pub fn get(&self, crc_id: u32) -> (r: Option<&String>)
        ensures
            r is Some <==> self@.contains_key(crc_id),
            r matches Some(s) ==> s@ == self@[crc_id],
    {
        self.map.get(&crc_id)
    }

    /// Stores `filename` under its key, replacing a name with the same key.
    pub fn add(&mut self, filename: String)
        ensures
            final(self)@ == old(self)@.insert(db_key(filename@), filename@),
    {
        let signed = ra2_crc(filename.as_str());
        let key = signed as u32;
        proof {
            let c = db_key(filename@);
            assert(signed == c as i32);
            assert((c as i32) as u32 == c) by (bit_vector);
        }
        self.map.insert(key, filename);
        assert(final(self)@ =~= old(self)@.insert(db_key(filename@), filename@));
    }
}

/// The zero-terminated UTF-8 names of a database, in order.
pub open spec fn names_blob(names: Seq<Seq<char>>) -> Seq<u8>
    decreases names.len(),
{
    if names.len() == 0 {
        seq![]
    } else {
        names_blob(names.drop_last()) + vstd::utf8::encode_utf8(names.last()) + seq![0u8]
    }
}

/// A name database holding `names` for the game numbered `game`: the identifier padded to
/// 32 bytes, the total size, type 0, version 0, the game and the name count, then the names.
pub open spec fn db_bytes(names: Seq<Seq<char>>, game: u32) -> Seq<u8> {
    XCC_ID_BYTES@ + seq![0u8] + u32_bytes((52 + names_blob(names).len()) as u32) + u32_bytes(0)
        + u32_bytes(0) + u32_bytes(game) + u32_bytes(names.len() as u32) + names_blob(names)
}

/// Writes a name database holding `filenames` for `game`.
pub fn get_mix_db_data(filenames: &Vec<String>, game: CncGame) -> (r: Vec<u8>)
    requires
        52 + names_blob(filenames@.map_values(|s: String| s@)).len() <= u32::MAX,
    ensures
        r@ == db_bytes(filenames@.map_values(|s: String| s@), game.spec_id()),
{
    let ghost names = filenames@.map_values(|s: String| s@);
    let mut blob: Vec<u8> = Vec::new();
    for i in 0..filenames.len()
        invariant
            names == filenames@.map_values(|s: String| s@),
            blob@ == names_blob(names.subrange(0, i as int)),
    {
        let bytes = filenames[i].as_str().as_bytes();
        let ghost before = blob@;
        for j in 0..bytes.len()
            invariant
                blob@ == before + bytes@.subrange(0, j as int),
        {
            blob.push(bytes[j]);
            assert(before + bytes@.subrange(0, j + 1) =~= (before + bytes@.subrange(0, j as int)).push(bytes@[j as int]));
        }
        blob.push(0);
        assert(names.subrange(0, i + 1).drop_last() =~= names.subrange(0, i as int));
        assert(bytes@.subrange(0, bytes@.len() as int) =~= bytes@);
        assert(blob@ =~= names_blob(names.subrange(0, i + 1)));
    }
    assert(names.subrange(0, filenames@.len() as int) =~= names);
    proof {
        lemma_names_blob_count(names);
    }
    let mut bytes_data: Vec<u8> = Vec::new();
    let id = XCC_ID_BYTES;
    for i in 0..31
        invariant
            bytes_data@ == id@.subrange(0, i as int),
    {
        bytes_data.push(id[i]);
        assert(id@.subrange(0, i + 1) =~= id@.subrange(0, i as int).push(id@[i as int]));
    }
    bytes_data.push(0);
    push_u32_le(&mut bytes_data, (XCC_HEADER_SIZE + blob.len()) as u32);
    push_u32_le(&mut bytes_data, 0);
    push_u32_le(&mut bytes_data, 0);
    push_u32_le(&mut bytes_data, game.id());
    push_u32_le(&mut bytes_data, filenames.len() as u32);
    bytes_data.append(&mut blob);
    assert(id@.subrange(0, 31) =~= XCC_ID_BYTES@);
    assert(bytes_data@ =~= db_bytes(names, game.spec_id()));
    bytes_data
}

proof fn lemma_names_blob_concat(a: Seq<Seq<char>>, b: Seq<Seq<char>>)
    ensures
        names_blob(a + b) == names_blob(a) + names_blob(b),
    decreases b.len(),
{
    if b.len() == 0 {
        assert(a + b =~= a);
        assert(names_blob(a) + names_blob(b) =~= names_blob(a));
    } else {
        assert((a + b).drop_last() =~= a + b.drop_last());
        lemma_names_blob_concat(a, b.drop_last());
        assert(names_blob(a + b) =~= names_blob(a) + names_blob(b));
    }
}

proof fn lemma_scan_run(data: Seq<u8>, s: int, i: int, e: int)
    requires
        0 <= s <= i <= e < data.len(),
        forall|j: int| i <= j < e ==> data[j] != 0,
        data[e] == 0,
    ensures
        names_scan(data, s, i) == run_name(data, s, e) + names_scan(data, e + 1, e + 1),
    decreases e - i,
{
    if i < e {
        lemma_scan_run(data, s, i + 1, e);
    }
}

/// Where the `k`-th name starts in a database of `names`.
pub open spec fn blob_start(names: Seq<Seq<char>>, k: int) -> int {
    52 + names_blob(names.subrange(0, k)).len() as int
}

proof fn lemma_scan_names(d: Seq<u8>, names: Seq<Seq<char>>, k: int)
    requires
        0 <= k <= names.len(),
        d.len() == 52 + names_blob(names).len(),
        d.subrange(52, d.len() as int) == names_blob(names),
        forall|m: int| 0 <= m < names.len() ==> vstd::utf8::encode_utf8(#[trigger] names[m]).len() > 0,
        forall|m: int, j: int| 0 <= m < names.len() && 0 <= j < vstd::utf8::encode_utf8(names[m]).len()
            ==> #[trigger] vstd::utf8::encode_utf8(names[m])[j] != 0,
    ensures
        names_scan(d, blob_start(names, k), blob_start(names, k)) == names.subrange(k, names.len() as int),
    decreases names.len() - k,
{
    let p = blob_start(names, k);
    lemma_names_blob_concat(names.subrange(0, k), names.subrange(k, names.len() as int));
    assert(names.subrange(0, k) + names.subrange(k, names.len() as int) =~= names);
    if k == names.len() {
        assert(names.subrange(k, names.len() as int) =~= Seq::<Seq<char>>::empty());
        assert(names_blob(names.subrange(k, names.len() as int)) =~= Seq::<u8>::empty());
    } else {
        let x = names[k];
        let enc = vstd::utf8::encode_utf8(x);
        let e: int = p + enc.len();
        lemma_names_blob_concat(names.subrange(0, k + 1), names.subrange(k + 1, names.len() as int));
        assert(names.subrange(0, k + 1) + names.subrange(k + 1, names.len() as int) =~= names);
        assert(names.subrange(0, k + 1).drop_last() =~= names.subrange(0, k));
        let pre = names_blob(names.subrange(0, k));
        assert(names_blob(names.subrange(0, k + 1)) == pre + enc + seq![0u8]);
        let blob = names_blob(names);
        assert(blob.subrange(pre.len() as int, (pre.len() + enc.len()) as int) =~= enc);
        assert(blob[pre.len() + enc.len() as int] == 0);
        assert(d.subrange(p, e) =~= enc);
        assert(d[e] == 0);
        assert forall|j: int| p <= j < e implies d[j] != 0 by {
            assert(d[j] == enc[j - p]);
        }
        lemma_scan_run(d, p, p, e);
        vstd::utf8::encode_utf8_valid_utf8(x);
        vstd::utf8::encode_utf8_decode_utf8(x);
        assert(run_name(d, p, e) == seq![x]);
        lemma_scan_names(d, names, k + 1);
        assert(seq![x] + names.subrange(k + 1, names.len() as int) =~= names.subrange(k, names.len() as int));
    }
}

/// A name database written for a list of names reads back as the same names, in order,
/// when every name is nonempty and holds no zero byte.
pub proof fn lemma_db_round_trip(names: Seq<Seq<char>>, game: u32)
    requires
        forall|m: int| 0 <= m < names.len() ==> vstd::utf8::encode_utf8(#[trigger] names[m]).len() > 0,
        forall|m: int, j: int| 0 <= m < names.len() && 0 <= j < vstd::utf8::encode_utf8(names[m]).len()
            ==> #[trigger] vstd::utf8::encode_utf8(names[m])[j] != 0,
    ensures
        db_names(db_bytes(names, game)) == names,
{
    let d = db_bytes(names, game);
    assert(d.subrange(52, d.len() as int) =~= names_blob(names));
    lemma_scan_names(d, names, 0);
    assert(names.subrange(0, 0) =~= Seq::<Seq<char>>::empty());
    assert(names.subrange(0, names.len() as int) =~= names);
}

proof fn lemma_names_blob_count(names: Seq<Seq<char>>)
    ensures
        names_blob(names).len() >= names.len(),
    decreases names.len(),
{
    if names.len() > 0 {
        lemma_names_blob_count(names.drop_last());
    }
}

} // verus!
