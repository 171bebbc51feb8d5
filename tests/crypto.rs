use blowfish::cipher::generic_array::GenericArray;
use blowfish::cipher::{BlockEncrypt, KeyInit};
use num::BigUint;
use ra2::{
    decrypt_blowfish_key, ra2_crc, read_file_info, MixDatabase, MixError, MixPackage,
    RSA_PUBLIC_MODULUS,
};

#[test]
fn rsa_keys() {
    let public_exponent = BigUint::parse_bytes(b"65537", 10).unwrap();
    assert_eq!(public_exponent.to_bytes_le(), &[1, 0, 1]);
    let public_modulus = BigUint::parse_bytes(
        b"681994811107118991598552881669230523074742337494683459234572860554038768387821901289207730765589",
        10,
    )
    .unwrap();
    assert_eq!(public_modulus.to_bytes_le(), RSA_PUBLIC_MODULUS.to_vec());
    assert_eq!(
        public_modulus.to_bytes_le(),
        &[
            21, 127, 67, 170, 61, 79, 251, 209, 230, 193, 176, 248, 106, 14, 221, 171, 74, 176, 130, 102, 250, 84, 170, 232,
            162, 63, 113, 81, 214, 96, 81, 86, 228, 252, 57, 109, 8, 218, 188, 81,
        ]
    );
}

fn unwrap_key(wrapped: &[u8]) -> Vec<u8> {
    let n = BigUint::from_bytes_le(&RSA_PUBLIC_MODULUS);
    let e = BigUint::from(65537u32);
    let mut key = Vec::new();
    for block in wrapped.chunks(40) {
        let mut v = BigUint::from_bytes_le(block).modpow(&e, &n).to_bytes_le();
        while v.last() == Some(&0) {
            v.pop();
        }
        key.extend(v);
    }
    key
}

fn wrapped_key() -> Vec<u8> {
    let mut wrapped = vec![0u8; 80];
    wrapped[40] = 2;
    wrapped
}

fn encrypted_archive(entries: &[(i32, u32, u32)], body: &[u8]) -> Vec<u8> {
    let wrapped = wrapped_key();
    let key = unwrap_key(&wrapped);
    let cipher = <blowfish::Blowfish as KeyInit>::new_from_slice(&key).unwrap();
    let mut plain = Vec::new();
    plain.extend_from_slice(&(entries.len() as u16).to_le_bytes());
    plain.extend_from_slice(&(body.len() as u32).to_le_bytes());
    for (id, offset, size) in entries {
        plain.extend_from_slice(&id.to_le_bytes());
        plain.extend_from_slice(&offset.to_le_bytes());
        plain.extend_from_slice(&size.to_le_bytes());
    }
    while plain.len() % 8 != 0 {
        plain.push(0);
    }
    let mut data = vec![0u8, 0, 2, 0];
    data.extend_from_slice(&wrapped);
    for chunk in plain.chunks(8) {
        let mut block = GenericArray::clone_from_slice(chunk);
        cipher.encrypt_block(&mut block);
        data.extend_from_slice(&block);
    }
    data.extend_from_slice(body);
    data
}

#[test]
fn session_key_matches_rsa() {
    let wrapped = wrapped_key();
    let key = decrypt_blowfish_key(&wrapped).unwrap();
    assert_eq!(key, unwrap_key(&wrapped));
    assert!(key.len() >= 4 && key.len() <= 56);
    assert_ne!(key, wrapped);
}

#[test]
fn short_wrapped_key_is_a_crypto_error() {
    assert!(matches!(decrypt_blowfish_key(&[0u8; 79]), Err(MixError::CryptoError(_))));
    let mut data = vec![0u8, 0, 2, 0];
    data.extend_from_slice(&[0u8; 20]);
    assert!(matches!(read_file_info(&data), Err(MixError::CryptoError(_))));
}

#[test]
fn oversized_session_key_is_a_crypto_error() {
    let mut data = vec![0u8, 0, 2, 0];
    let mut wrapped = vec![0u8; 80];
    wrapped[0] = 2;
    wrapped[40] = 3;
    data.extend_from_slice(&wrapped);
    data.extend_from_slice(&[0u8; 40]);
    assert!(unwrap_key(&wrapped).len() > 56);
    assert!(matches!(read_file_info(&data), Err(MixError::CryptoError(_))));
}

#[test]
fn encrypted_decode() {
    let body: Vec<u8> = (0u8..52).collect();
    let entries = [(ra2_crc("a.txt"), 0u32, 20u32), (ra2_crc("b.txt"), 20, 32)];
    let data = encrypted_archive(&entries, &body);
    assert_eq!(data.len(), 168);
    let (header, parsed, _) = read_file_info(&data).unwrap();
    assert_eq!(header.file_count, 2);
    assert_eq!(header.data_size, 52);
    assert_eq!(parsed.len(), 2);
    assert_eq!(parsed[0].id, entries[0].0);
    assert_eq!(parsed[1].offset, 20);
    assert_eq!(parsed[1].size, 32);
    let mut global = MixDatabase::new();
    global.add("a.txt".to_string());
    global.add("b.txt".to_string());
    let decoded = MixPackage::decode_with_database(&data, &global).unwrap();
    assert_eq!(decoded.files().len(), 2);
    assert_eq!(decoded.get("a.txt").unwrap(), &body[0..20].to_vec());
    assert_eq!(decoded.get("b.txt").unwrap(), &body[20..52].to_vec());
}

#[test]
fn encrypted_index_cut_short() {
    let body: Vec<u8> = (0u8..52).collect();
    let entries = [(1, 0u32, 20u32), (2, 20, 32)];
    let data = encrypted_archive(&entries, &body);
    assert!(matches!(read_file_info(&data[..100]), Err(MixError::InvalidFormat(_))));
}

#[test]
fn rejected_key_is_reported_before_short_data() {
    assert!(matches!(ra2::decrypt_mix_header(&[0u8; 50], &[1, 2]), Err(MixError::CryptoError(_))));
    assert!(matches!(ra2::decrypt_mix_header(&[0u8; 50], &[1, 2, 3, 4]), Err(MixError::InvalidFormat(_))));
    let mut data = vec![0u8, 0, 2, 0];
    let mut wrapped = vec![0u8; 80];
    wrapped[0] = 2;
    wrapped[40] = 3;
    data.extend_from_slice(&wrapped);
    data.extend_from_slice(&[0u8; 4]);
    assert!(matches!(read_file_info(&data), Err(MixError::CryptoError(_))));
}
