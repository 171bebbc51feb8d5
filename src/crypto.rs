//! The encrypted variant of the archive header: an RSA-wrapped Blowfish session key and a
//! Blowfish-encrypted index.

use vstd::prelude::*;
use vstd::arithmetic::power::pow;
use crate::bytes::{le_u16, le_u32, read_u16_le, read_u32_le};
use crate::error::MixError;

verus! {

/// The RSA public modulus
/// 681994811107118991598552881669230523074742337494683459234572860554038768387821901289207730765589,
/// little-endian.
pub const RSA_PUBLIC_MODULUS: [u8; 40] = [
    21, 127, 67, 170, 61, 79, 251, 209, 230, 193, 176, 248, 106, 14, 221, 171, 74, 176, 130, 102,
    250, 84, 170, 232, 162, 63, 113, 81, 214, 96, 81, 86, 228, 252, 57, 109, 8, 218, 188, 81,
];

/// The RSA public exponent 65537, little-endian.
pub const RSA_PUBLIC_EXPONENT: [u8; 3] = [1, 0, 1];

/// Size of the RSA-wrapped session key that follows the flags.
pub const SIZE_OF_ENCRYPTED_KEY: usize = 80;

/// Size of one RSA block of the wrapped key.
pub const RSA_BLOCK_SIZE: usize = 40;

/// Size of a Blowfish block.
pub const BLOCK_SIZE: usize = 8;

/// Where the encrypted index starts: after the flags and the wrapped key.
pub const ENCRYPTED_INDEX_START: usize = 84;

/// The number that bytes encode, least significant byte first.
pub open spec fn le_value(b: Seq<u8>) -> nat
    decreases b.len(),
{
    if b.len() == 0 {
        0
    } else {
        b[0] as nat + 256 * le_value(b.drop_first())
    }
}

/// The shortest little-endian bytes of `v`: none for zero, and never a trailing zero.
pub open spec fn minimal_le(v: nat) -> Seq<u8>
    decreases v,
{
    if v == 0 {
        seq![]
    } else {
        seq![(v % 256) as u8] + minimal_le(v / 256)
    }
}

/// The RSA public operation `m ^ 65537 mod N` on a block read little-endian.
pub open spec fn rsa_public(m: Seq<u8>) -> nat {
    (pow(le_value(m) as int, 65537) % (le_value(RSA_PUBLIC_MODULUS@) as int)) as nat
}

/// The Blowfish session key unwrapped from the 80 bytes that follow the flags: both
/// 40-byte blocks through the RSA public operation, each with trailing zero bytes removed.
pub open spec fn session_key(wrapped: Seq<u8>) -> Seq<u8> {
    minimal_le(rsa_public(wrapped.subrange(0, 40))) + minimal_le(rsa_public(
        wrapped.subrange(40, 80),
    ))
}

/// Relies on `num::BigUint::modpow` on operands read with `BigUint::from_bytes_le` and a
/// result written with `BigUint::to_bytes_le`: the bytes of `(base ^ exponent) % modulus`.
/// `modpow` panics on a zero modulus; a modulus of one is left out too.
#[verifier::external_body]
fn modpow_le(base: &[u8], exponent: &[u8], modulus: &[u8]) -> (r: Vec<u8>)
    requires
        le_value(modulus@) > 1,
    ensures
        le_value(r@) == pow(le_value(base@) as int, le_value(exponent@)) % (le_value(
            modulus@,
        ) as int),
{
    let m = num::BigUint::from_bytes_le(modulus);
    let e = num::BigUint::from_bytes_le(exponent);
    num::BigUint::from_bytes_le(base).modpow(&e, &m).to_bytes_le()
}

proof fn lemma_le_value_push_zero(s: Seq<u8>)
    ensures
        le_value(s.push(0)) == le_value(s),
    decreases s.len(),
{
    if s.len() > 0 {
        assert(s.push(0).drop_first() =~= s.drop_first().push(0));
        lemma_le_value_push_zero(s.drop_first());
    } else {
        assert(s.push(0).drop_first() =~= s);
    }
}

/// Bytes without a trailing zero are the shortest encoding of their value.
proof fn lemma_minimal_le_canonical(s: Seq<u8>)
    requires
        s.len() == 0 || s.last() != 0,
    ensures
        minimal_le(le_value(s)) == s,
    decreases s.len(),
{
    if s.len() > 0 {
        let t = s.drop_first();
        if t.len() > 0 {
            assert(t.last() == s.last());
        }
        lemma_minimal_le_canonical(t);
        let v = le_value(s);
        let a = s[0] as nat;
        let w = le_value(t);
        assert(v == a + 256 * w);
        if w == 0 {
            assert(t =~= seq![]);
            assert(s.last() == s[0]);
        }
        assert(v > 0);
        assert(v % 256 == a && v / 256 == w) by (nonlinear_arith)
            requires
                v == a + 256 * w,
                a < 256,
        ;
        assert(s =~= seq![s[0]] + t);
    }
}

fn unwrap_rsa_block(block: &[u8]) -> (r: Vec<u8>)
    ensures
        r@ == minimal_le(rsa_public(block@)),
{
    let modulus: [u8; 40] = RSA_PUBLIC_MODULUS;
    let exponent: [u8; 3] = RSA_PUBLIC_EXPONENT;
    proof {
        assert(modulus@[0] == 21);
        assert(le_value(modulus@) > 1);
        let e = exponent@;
        assert(e[0] == 1 && e[1] == 0 && e[2] == 1);
        let e1 = e.drop_first();
        let e2 = e1.drop_first();
        assert(e2.drop_first() =~= seq![]);
        assert(le_value(e2.drop_first()) == 0);
        assert(le_value(e2) == 1);
        assert(le_value(e1) == 256);
        assert(le_value(e) == 65537);
    }
    let mut v = modpow_le(block, exponent.as_slice(), modulus.as_slice());
    while v.len() > 0 && v[v.len() - 1] == 0
        invariant
            le_value(v@) == rsa_public(block@),
        decreases v.len(),
    {
        proof {
            assert(v@ =~= v@.drop_last().push(0));
            lemma_le_value_push_zero(v@.drop_last());
        }
        v.pop();
    }
    proof {
        lemma_minimal_le_canonical(v@);
    }
    v
}

/// Unwraps the Blowfish session key from the RSA-wrapped key of an encrypted archive.
pub fn decrypt_blowfish_key(encrypted_blowfish_key: &[u8]) -> (r: Result<Vec<u8>, MixError>)
    ensures
        r is Err <==> encrypted_blowfish_key@.len() < SIZE_OF_ENCRYPTED_KEY,
        r matches Err(e) ==> e is CryptoError,
        r matches Ok(key) ==> key@ == session_key(encrypted_blowfish_key@),
{
    if encrypted_blowfish_key.len() < SIZE_OF_ENCRYPTED_KEY {
        return Err(MixError::CryptoError("the wrapped key is shorter than 80 bytes".to_string()));
    }
    let mut key = unwrap_rsa_block(&encrypted_blowfish_key[0..RSA_BLOCK_SIZE]);
    let mut second = unwrap_rsa_block(
        &encrypted_blowfish_key[RSA_BLOCK_SIZE..SIZE_OF_ENCRYPTED_KEY],
    );
    key.append(&mut second);
    Ok(key)
}

/// Blowfish decryption, with 32-bit halves loaded big-endian, of one 8-byte block under `key`.
pub uninterp spec fn blowfish_decrypt_of(key: Seq<u8>, block: Seq<u8>) -> Seq<u8>;

/// Relies on `blowfish::Blowfish` (big-endian halves): `KeyInit::new_from_slice` accepts
/// exactly the keys of 4 to 56 bytes, and `BlockDecrypt::decrypt_block` then turns a block
/// into a block that depends on the key and the block alone.
#[verifier::external_body]
fn blowfish_decrypt_block(key: &[u8], block: [u8; 8]) -> (r: Option<[u8; 8]>)
    ensures
        r is Some <==> 4 <= key@.len() <= 56,
        r matches Some(out) ==> out@ == blowfish_decrypt_of(key@, block@),
{
    let cipher = <blowfish::Blowfish as blowfish::cipher::KeyInit>::new_from_slice(key).ok()?;
    let mut out = block;
    let b = blowfish::cipher::generic_array::GenericArray::from_mut_slice(&mut out);
    blowfish::cipher::BlockDecrypt::decrypt_block(&cipher, b);
    Some(out)
}

/// `x` rounded up to a multiple of 8.
pub open spec fn round_up8(x: int) -> int {
    x + (8 - x % 8) % 8
}

/// The blocks of `data` from `start` on, `n` of them, each decrypted under `key`.
pub open spec fn decrypted_blocks(key: Seq<u8>, data: Seq<u8>, start: int, n: nat) -> Seq<u8>
    decreases n,
{
    if n == 0 {
        seq![]
    } else {
        decrypted_blocks(key, data, start, (n - 1) as nat) + blowfish_decrypt_of(
            key,
            data.subrange(start + 8 * (n - 1), start + 8 * n),
        )
    }
}

/// The first block of the encrypted index, decrypted: the file count, the body size and
/// the first two bytes of the entries.
pub open spec fn first_index_block(key: Seq<u8>, data: Seq<u8>) -> Seq<u8> {
    blowfish_decrypt_of(key, data.subrange(84, 92))
}

/// The file count of an encrypted archive.
pub open spec fn encrypted_file_count(key: Seq<u8>, data: Seq<u8>) -> u16 {
    le_u16(first_index_block(key, data), 0)
}

/// The declared body size of an encrypted archive.
pub open spec fn encrypted_data_size(key: Seq<u8>, data: Seq<u8>) -> u32 {
    le_u32(first_index_block(key, data), 2)
}

/// The ciphertext that follows the first block of an encrypted index: the `12k - 2`
/// remaining index bytes rounded up to whole blocks.
pub open spec fn encrypted_rest_size(k: int) -> int {
    round_up8(12 * k - 2)
}

/// The plaintext entries of an encrypted archive: the last two bytes of the first block,
/// then the decrypted rest, cut to `12k` bytes.
pub open spec fn encrypted_index(key: Seq<u8>, data: Seq<u8>) -> Seq<u8> {
    let k = encrypted_file_count(key, data) as int;
    (first_index_block(key, data).subrange(6, 8) + decrypted_blocks(
        key,
        data,
        92,
        (encrypted_rest_size(k) / 8) as nat,
    )).subrange(0, 12 * k)
}

/// Whether an encrypted archive is long enough to hold its whole index.
pub open spec fn encrypted_index_fits(key: Seq<u8>, data: Seq<u8>) -> bool {
    92 + encrypted_rest_size(encrypted_file_count(key, data) as int) <= data.len()
}

/// How many bytes of ciphertext follow the first index block, and how many of them are
/// padding, for `file_count` entries.
pub fn get_decryption_block_sizing(file_count: u16) -> (r: (usize, usize))
    ensures
        r.0 == encrypted_rest_size(file_count as int),
        r.1 == r.0 - (12 * file_count - 2),
        r.0 % 8 == 0,
        r.1 < 8,
{
    if file_count == 0 {
        return (0, 2);
    }
    let remaining_index_len = file_count as usize * 12 - 2;
    let padding_size = (BLOCK_SIZE - remaining_index_len % BLOCK_SIZE) % BLOCK_SIZE;
    (remaining_index_len + padding_size, padding_size)
}

fn block_at(data: &[u8], p: usize) -> (r: [u8; 8])
    requires
        p + 8 <= data@.len(),
    ensures
        r@ == data@.subrange(p as int, p + 8),
{
    let mut r: [u8; 8] = [0u8; 8];
    let n = data.len();
    for i in 0..8
        invariant
            n == data@.len(),
            p + 8 <= data@.len(),
            r@.len() == 8,
            forall|j: int| 0 <= j < i ==> r@[j] == data@[p + j],
    {
        r[i] = data[p + i];
    }
    assert(r@ =~= data@.subrange(p as int, p + 8));
    r
}

/// Decrypts the index of an encrypted archive with the session key: the file count, the
/// declared body size and the `12 * file_count` plaintext index bytes.
pub fn decrypt_mix_header(mix_data: &[u8], key: &[u8]) -> (r: Result<(u16, u32, Vec<u8>), MixError>)
    ensures
        !(4 <= key@.len() <= 56) ==> r matches Err(MixError::CryptoError(_)),
        4 <= key@.len() <= 56 && mix_data@.len() < 92 ==> r matches Err(MixError::InvalidFormat(_)),
        mix_data@.len() >= 92 && 4 <= key@.len() <= 56 ==> {
            if encrypted_index_fits(key@, mix_data@) {
                r matches Ok((count, size, index)) && count == encrypted_file_count(key@, mix_data@)
                    && index@.len() == 12 * count
                    && size == encrypted_data_size(key@, mix_data@) && index@ == encrypted_index(
                    key@,
                    mix_data@,
                )
            } else {
                r matches Err(MixError::InvalidFormat(_))
            }
        },
{
    // The cipher takes the key before any data is read: a rejected key is reported first.
    let short = mix_data.len() < ENCRYPTED_INDEX_START + BLOCK_SIZE;
    let block = if short {
        [0u8; 8]
    } else {
        block_at(mix_data, ENCRYPTED_INDEX_START)
    };
    let first = match blowfish_decrypt_block(key, block) {
        Some(b) => b,
        None => {
            return Err(MixError::CryptoError("the cipher rejected the session key".to_string()));
        },
    };
    if short {
        return Err(MixError::InvalidFormat("the encrypted index is cut short".to_string()));
    }
    let file_count = read_u16_le(first.as_slice(), 0);
    let data_size = read_u32_le(first.as_slice(), 2);
    let (decrypt_size, _padding_size) = get_decryption_block_sizing(file_count);
    let rest_start = ENCRYPTED_INDEX_START + BLOCK_SIZE;
    if mix_data.len() - rest_start < decrypt_size {
        return Err(MixError::InvalidFormat("the encrypted index is cut short".to_string()));
    }
    let mut index: Vec<u8> = Vec::new();
    index.push(first[6]);
    index.push(first[7]);
    let ghost head = first@.subrange(6, 8);
    assert(index@ =~= head + decrypted_blocks(key@, mix_data@, 92, 0));
    let n_blocks = decrypt_size / BLOCK_SIZE;
    assert(8 * n_blocks == decrypt_size);
    let total = mix_data.len();
    for i in 0..n_blocks
        invariant
            total == mix_data@.len(),
            index@.len() == 2 + 8 * i,
            4 <= key@.len() <= 56,
            rest_start == 92,
            rest_start + 8 * n_blocks <= mix_data@.len(),
            index@ == head + decrypted_blocks(key@, mix_data@, 92, i as nat),
    {
        assert(8 * i + 8 <= 8 * n_blocks) by (nonlinear_arith)
            requires
                i < n_blocks,
        ;
        let p = rest_start + BLOCK_SIZE * i;
        let plain = match blowfish_decrypt_block(key, block_at(mix_data, p)) {
            Some(b) => b,
            None => {
                return Err(MixError::CryptoError("the cipher rejected the session key".to_string()));
            },
        };
        let ghost before = index@;
        for j in 0..8
            invariant
                index@ == before + plain@.subrange(0, j as int),
        {
            index.push(plain[j]);
            assert(before + plain@.subrange(0, j + 1) =~= (before + plain@.subrange(
                0,
                j as int,
            )).push(plain@[j as int]));
        }
        assert(plain@.subrange(0, 8) =~= plain@);
        assert(index@ =~= head + decrypted_blocks(key@, mix_data@, 92, (i + 1) as nat));
    }
    assert(first@ == first_index_block(key@, mix_data@));
    assert(index@.len() == 2 + decrypt_size);
    index.truncate(file_count as usize * 12);
    assert(index@ =~= encrypted_index(key@, mix_data@));
    Ok((file_count, data_size, index))
}

} // verus!
