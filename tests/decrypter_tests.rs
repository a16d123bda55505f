use crypto::blowfish::Blowfish;
use crypto::symmetriccipher::BlockEncryptor;
use rust_s63::decrypter::{decrypt_into, depad, S63Decrypter, E};
use rust_s63::permit::{CellPermit, Date, PermitIndex, PermitRecord, SericeLevelIndicator};
use std::io::Write;

#[test]
fn test_depad() {
    let mut data = depad(&[1, 2, 3, 4, 5, 6, 7, 8]);
    assert_eq!(data, [1, 2, 3, 4, 5, 6, 7, 8]);

    data = depad(&[1, 2, 3, 4, 5, 6, 7, 1]);
    assert_eq!(data, [1, 2, 3, 4, 5, 6, 7]);

    data = depad(&[1, 2, 3, 4, 5, 6, 2, 2]);
    assert_eq!(data, [1, 2, 3, 4, 5, 6]);

    data = depad(&[1, 2, 3, 4, 5, 6, 2, 2]);
    assert_eq!(data, [1, 2, 3, 4, 5, 6]);

    data = depad(&[1, 7, 7, 7, 7, 7, 7, 7]);
    assert_eq!(data, [1]);

    data = depad(&[8, 8, 8, 8, 8, 8, 8, 8]);
    assert_eq!(data, []);
}

#[test]
fn depad_keeps_data_that_only_looks_like_padding() {
    assert_eq!(depad(&[1, 2, 3, 4, 5, 6, 3, 3]), [1, 2, 3, 4, 5, 6, 3, 3]);
    assert_eq!(depad(&[1, 2, 3, 4, 5, 6, 7, 9]), [1, 2, 3, 4, 5, 6, 7, 9]);
    assert_eq!(depad(&[1, 2, 3, 4, 5, 6, 7, 0]), [1, 2, 3, 4, 5, 6, 7, 0]);
}

fn zip_of(name: &str, payload: &[u8]) -> Vec<u8> {
    let mut w = zip::ZipWriter::new(std::io::Cursor::new(Vec::new()));
    let options =
        zip::write::FileOptions::default().compression_method(zip::CompressionMethod::Stored);
    w.start_file(name, options).unwrap();
    w.write_all(payload).unwrap();
    w.finish().unwrap().into_inner()
}

fn encrypt_cell(key: &[u8], plain: &[u8]) -> Vec<u8> {
    let mut data = plain.to_vec();
    let n = 8 - data.len() % 8;
    data.extend(std::iter::repeat(n as u8).take(n));
    let cipher = Blowfish::new(key);
    let mut out = Vec::new();
    for block in data.chunks(8) {
        let mut enc = [0u8; 8];
        cipher.encrypt_block(block, &mut enc);
        out.extend_from_slice(&enc);
    }
    out
}

fn record(cell: &str, key1: [u8; 5], key2: [u8; 5]) -> PermitRecord {
    PermitRecord {
        cell_permit: CellPermit {
            cell: String::from(cell),
            date: Date { year: 2030, month: 1, day: 1 },
            key1,
            key2,
        },
        sli: SericeLevelIndicator::SubscriptionPermit,
        edition: None,
        data_server_id: String::from("GB"),
        comment: String::new(),
    }
}

const RIGHT: [u8; 5] = [1, 2, 3, 4, 5];
const WRONG: [u8; 5] = [9, 9, 9, 9, 9];

#[test]
fn decrypts_with_the_right_key() {
    let chart = b"chart payload for the cell".to_vec();
    let data = encrypt_cell(&RIGHT, &zip_of("GB100001.000", &chart));
    let d = S63Decrypter::new();
    assert_eq!(d.with_key_bytes(&RIGHT, &data).unwrap(), chart);
    assert!(d.can_decrypt(&RIGHT, &data));
    assert!(!d.can_decrypt(&WRONG, &data));
    assert!(matches!(d.with_key_bytes(&WRONG, &data), Err(E::DecryptionFailed)));
}

#[test]
fn falls_back_to_the_second_key() {
    let chart = b"second key wins".to_vec();
    let data = encrypt_cell(&RIGHT, &zip_of("GB100001.000", &chart));
    let mut index = PermitIndex::new();
    index.insert(record("GB100001", WRONG, RIGHT));
    let d = S63Decrypter::new_with_permit(index);
    assert_eq!(d.with_cell_bytes("GB100001", &data).unwrap(), chart);
}

#[test]
fn first_key_is_used_when_it_works() {
    let chart = b"first key wins".to_vec();
    let data = encrypt_cell(&RIGHT, &zip_of("GB100001.000", &chart));
    let mut index = PermitIndex::new();
    index.insert(record("GB100001", RIGHT, WRONG));
    let d = S63Decrypter::new_with_permit(index);
    assert_eq!(d.with_cell_bytes("GB100001", &data).unwrap(), chart);
}

#[test]
fn equal_wrong_keys_fail() {
    let data = encrypt_cell(&RIGHT, &zip_of("GB100001.000", b"x"));
    let mut index = PermitIndex::new();
    index.insert(record("GB100001", WRONG, WRONG));
    let d = S63Decrypter::new_with_permit(index);
    assert!(matches!(d.with_cell_bytes("GB100001", &data), Err(E::DecryptionFailed)));
}

#[test]
fn missing_permit_is_reported() {
    let d = S63Decrypter::new();
    match d.with_cell_bytes("GB999999", &[0u8; 8]) {
        Err(E::NoPermit(c)) => assert_eq!(c, "GB999999"),
        _ => panic!("expected NoPermit"),
    }
}

#[test]
fn unaligned_data_is_refused() {
    let d = S63Decrypter::default();
    assert!(matches!(d.with_key_bytes(&RIGHT, &[0u8; 7]), Err(E::NonEightRead)));
    let mut out = vec![42u8];
    assert!(matches!(decrypt_into(&RIGHT, &[0u8; 9], &mut out), Err(E::NonEightRead)));
    assert_eq!(out, vec![42u8]);
}

#[test]
fn decrypt_into_undoes_the_cipher() {
    let plain = b"twelve bytes".to_vec();
    let data = encrypt_cell(&RIGHT, &plain);
    assert_eq!(data.len(), 16);
    let mut out = Vec::new();
    decrypt_into(&RIGHT, &data, &mut out).unwrap();
    assert_eq!(out, plain);
    let mut empty = Vec::new();
    decrypt_into(&RIGHT, &[], &mut empty).unwrap();
    assert!(empty.is_empty());
}
