//! Filename keys: the obfuscated, salted CRC-32 under which archive entries are stored.

use vstd::prelude::*;
use vstd::string::StringSliceAdditionalSpecFns;

verus! {

/// The standard IEEE CRC-32 (reflected, polynomial 0xEDB88320) of `data`.
pub uninterp spec fn crc32_of(data: Seq<u8>) -> u32;

/// Relies on `crc32fast::hash`: the IEEE CRC-32 of the bytes, a function of the bytes alone.
#[verifier::external_body]
fn crc32(data: &[u8]) -> (r: u32)
    ensures
        r == crc32_of(data@),
{
    crc32fast::hash(data)
}

/// ASCII uppercasing of one byte; every other byte is left as it is.
pub open spec fn ascii_upper(c: u8) -> u8 {
    if 97 <= c <= 122 {
        (c - 32) as u8
    } else {
        c
    }
}

pub open spec fn upper_bytes(name: Seq<u8>) -> Seq<u8> {
    name.map_values(|c: u8| ascii_upper(c))
}

/// The bytes whose CRC is a name's key: the name uppercased, and when its length `n` is
/// not a multiple of four, followed by the byte `n % 4` and then by copies of the byte at
/// position `n - n % 4` up to the next multiple of four.
pub open spec fn obfuscated(name: Seq<u8>) -> Seq<u8> {
    let n = name.len() as int;
    let upper = upper_bytes(name);
    if n % 4 == 0 {
        upper
    } else {
        let padded = upper.push((n % 4) as u8);
        padded + Seq::new((3 - n % 4) as nat, |i: int| padded[n - n % 4])
    }
}

/// The signed key of a name given by its bytes.
pub open spec fn name_key(name: Seq<u8>) -> i32 {
    crc32_of(obfuscated(name)) as i32
}

fn upper_byte(c: u8) -> (r: u8)
    ensures
        r == ascii_upper(c),
{
    if 97 <= c && c <= 122 {
        c - 32
    } else {
        c
    }
}

/// Obfuscates a filename the way archives do before hashing it.
pub fn obfuscate_filename(filename: &str) -> (r: Vec<u8>)
    ensures
        r@ == obfuscated(filename.spec_bytes()),
        filename.spec_bytes().len() % 4 == 0 ==> r@ == upper_bytes(filename.spec_bytes()),
        r@.len() % 4 == 0,
{
    let bytes = filename.as_bytes();
    let n = bytes.len();
    let mut out: Vec<u8> = Vec::with_capacity(n);
    for i in 0..n
        invariant
            n == bytes@.len(),
            out@ == upper_bytes(bytes@.subrange(0, i as int)),
    {
        out.push(upper_byte(bytes[i]));
        assert(upper_bytes(bytes@.subrange(0, i + 1)) =~= upper_bytes(bytes@.subrange(
            0,
            i as int,
        )).push(ascii_upper(bytes@[i as int])));
    }
    assert(bytes@.subrange(0, n as int) =~= bytes@);
    if n % 4 != 0 {
        out.push((n % 4) as u8);
        let fill = out[n - n % 4];
        let count: usize = 3 - n % 4;
        let ghost padded = out@;
        for j in 0..count
            invariant
                padded.len() == n + 1,
                fill == padded[n - n % 4],
                out@ == padded + Seq::new(j as nat, |i: int| fill),
        {
            out.push(fill);
            assert(padded + Seq::new((j + 1) as nat, |i: int| fill) =~= (padded + Seq::new(
                j as nat,
                |i: int| fill,
            )).push(fill));
        }
        assert(out@ =~= obfuscated(bytes@));
    }
    out
}

/// The archive key of a filename: the CRC-32 of its obfuscated bytes, read as signed.
pub fn ra2_crc(filename: &str) -> (r: i32)
    ensures
        r == name_key(filename.spec_bytes()),
{
    let obfuscated_name = obfuscate_filename(filename);
    let crc = crc32(obfuscated_name.as_slice());
    crc as i32
}

/// A name whose length is a multiple of four is hashed without padding: its key is the
/// CRC of the uppercased name itself.
pub proof fn lemma_aligned_name_key(name: Seq<u8>)
    requires
        name.len() % 4 == 0,
    ensures
        obfuscated(name) == upper_bytes(name),
        name_key(name) == crc32_of(upper_bytes(name)) as i32,
{
}

} // verus!
