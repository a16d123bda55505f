//! The building blocks that the permit scheme borrows from outside crates:
//! hex text, CRC-32, big-endian integers and the Blowfish block cipher.
use byteorder::{BigEndian, ByteOrder};
use crypto::blowfish::Blowfish;
use crypto::symmetriccipher::{BlockDecryptor, BlockEncryptor};
use vstd::prelude::*;

verus! {

#[verifier::external_type_specification]
#[verifier::external_body]
pub struct ExBlowfish(Blowfish);

#[verifier::external_type_specification]
#[verifier::external_body]
pub struct ExFromHexError(hex::FromHexError);

// ---------------------------------------------------------------- hex text

/// A byte that is an ASCII hex digit, in either case.
pub open spec fn is_hex_byte(c: u8) -> bool {
    (48 <= c <= 57) || (65 <= c <= 70) || (97 <= c <= 102)
}

/// The value of an ASCII hex digit.
pub open spec fn hex_value(c: u8) -> int {
    if 48 <= c <= 57 {
        c - 48
    } else if 65 <= c <= 70 {
        c - 55
    } else {
        c - 87
    }
}

/// Text that decodes as hex: an even number of hex digits.
pub open spec fn is_hex_text(s: Seq<u8>) -> bool {
    &&& s.len() % 2 == 0
    &&& forall|i: int| 0 <= i < s.len() ==> #[trigger] is_hex_byte(s[i])
}

/// The bytes that hex text stands for, high nibble first.
pub open spec fn hex_bytes(s: Seq<u8>) -> Seq<u8> {
    Seq::new(s.len() / 2, |i: int| (hex_value(s[2 * i]) * 16 + hex_value(s[2 * i + 1])) as u8)
}

/// The upper-case hex digit of a value below 16.
pub open spec fn upper_digit(v: int) -> char {
    seq!['0', '1', '2', '3', '4', '5', '6', '7', '8', '9', 'A', 'B', 'C', 'D', 'E', 'F'][v]
}

/// Upper-case hex text of bytes: two digits per byte, high nibble first.
pub open spec fn hex_upper_text(b: Seq<u8>) -> Seq<char> {
    Seq::new(
        2 * b.len(),
        |i: int|
            if i % 2 == 0 {
                upper_digit(b[i / 2] as int / 16)
            } else {
                upper_digit(b[i / 2] as int % 16)
            },
    )
}

/// Relies on `hex::decode`: an odd length or a byte that is not a hex digit
/// is an error; otherwise each pair of digits gives one byte, high nibble first.
#[verifier::external_body]
pub(crate) fn hex_decode(s: &[u8]) -> (r: Result<Vec<u8>, hex::FromHexError>)
    ensures
        r is Ok <==> is_hex_text(s@),
        r matches Ok(v) ==> v@ == hex_bytes(s@),
{
    hex::decode(s)
}

/// Relies on `hex::encode_upper`: two upper-case digits per byte, high nibble first.
#[verifier::external_body]
pub(crate) fn hex_encode_upper(b: &[u8]) -> (r: String)
    ensures
        r@ == hex_upper_text(b@),
{
    hex::encode_upper(b)
}

// ---------------------------------------------------------------- CRC-32

/// The CRC-32 (IEEE polynomial) of a byte sequence.
pub uninterp spec fn crc32_ieee(data: Seq<u8>) -> u32;

/// Relies on `crc::crc32::checksum_ieee`: the CRC-32 of `data` with the IEEE
/// polynomial; it depends on the bytes alone.
#[verifier::external_body]
pub(crate) fn checksum_ieee(data: &[u8]) -> (r: u32)
    ensures
        r == crc32_ieee(data@),
{
    crc::crc32::checksum_ieee(data)
}

// ---------------------------------------------------------------- big-endian integers

/// The four bytes of `n`, most significant first.
pub open spec fn be_bytes(n: u32) -> Seq<u8> {
    seq![
        (n / 0x100_0000) as u8,
        ((n / 0x1_0000) % 0x100) as u8,
        ((n / 0x100) % 0x100) as u8,
        (n % 0x100) as u8,
    ]
}

/// The number that four bytes stand for, most significant first.
pub open spec fn be_value(b: Seq<u8>) -> int {
    b[0] * 0x100_0000 + b[1] * 0x1_0000 + b[2] * 0x100 + b[3]
}

/// Relies on byteorder's `BigEndian::write_u32`: the bytes of `n`, most significant first.
#[verifier::external_body]
pub(crate) fn u32_to_be(n: u32) -> (r: [u8; 4])
    ensures
        r@ == be_bytes(n),
{
    let mut buf = [0u8; 4];
    BigEndian::write_u32(&mut buf, n);
    buf
}

/// Relies on byteorder's `BigEndian::read_u32`: the first four bytes, most
/// significant first; it panics on fewer than four.
#[verifier::external_body]
pub(crate) fn u32_from_be(b: &[u8]) -> (r: u32)
    requires
        b@.len() >= 4,
    ensures
        r == be_value(b@),
{
    BigEndian::read_u32(b)
}

/// Reading back the big-endian bytes of `n` gives `n`.
pub proof fn lemma_be_round_trip(n: u32)
    ensures
        be_value(be_bytes(n)) == n,
{
    let b = be_bytes(n);
    assert(b[0] == n / 0x100_0000);
    assert(b[1] == (n / 0x1_0000) % 0x100);
    assert(b[2] == (n / 0x100) % 0x100);
    assert(b[3] == n % 0x100);
    assert((n / 0x100_0000) * 0x100_0000 + ((n / 0x1_0000) % 0x100) * 0x1_0000 + ((n / 0x100)
        % 0x100) * 0x100 + n % 0x100 == n) by (nonlinear_arith)
        requires
            0 <= n < 0x1_0000_0000,
    {
        assert(n == (n / 0x100) * 0x100 + n % 0x100);
        assert(n / 0x100 == (n / 0x1_0000) * 0x100 + (n / 0x100) % 0x100);
        assert(n / 0x1_0000 == (n / 0x100_0000) * 0x100 + (n / 0x1_0000) % 0x100);
    }
}

// ---------------------------------------------------------------- Blowfish

/// Blowfish encryption of one 8-byte block under `key`.
pub uninterp spec fn blowfish_encrypt(key: Seq<u8>, block: Seq<u8>) -> Seq<u8>;

/// Blowfish decryption of one 8-byte block under `key`.
pub uninterp spec fn blowfish_decrypt(key: Seq<u8>, block: Seq<u8>) -> Seq<u8>;

/// A Blowfish key schedule together with the key it was expanded from.
pub struct BlockCipher {
    engine: Blowfish,
    key: Ghost<Seq<u8>>,
}

/// Relies on `Blowfish::new`, which expands `key` into the cipher's subkeys and
/// panics unless the key holds 4 to 56 bytes.
#[verifier::external_body]
fn blowfish_new(key: &[u8]) -> (r: Blowfish)
    requires
        4 <= key@.len() <= 56,
{
    Blowfish::new(key)
}

/// Relies on `BlockEncryptor::encrypt_block` of Blowfish, on an engine that
/// `BlockCipher::new` (the only constructor) expanded from `cipher.key()`.
/// Blowfish's `decrypt_block` runs the same rounds backwards, so it undoes this,
/// and no other block encrypts to the same output under the key.
#[verifier::external_body]
fn blowfish_encrypt_block(cipher: &BlockCipher, block: &[u8]) -> (r: [u8; 8])
    requires
        block@.len() == 8,
    ensures
        r@ == blowfish_encrypt(cipher.key(), block@),
        blowfish_decrypt(cipher.key(), r@) == block@,
        forall|x: Seq<u8>|
            x.len() == 8 && #[trigger] blowfish_encrypt(cipher.key(), x) == r@ ==> x == block@,
{
    let mut out = [0u8; 8];
    cipher.engine.encrypt_block(block, &mut out);
    out
}

/// Relies on `BlockDecryptor::decrypt_block` of Blowfish, on an engine that
/// `BlockCipher::new` (the only constructor) expanded from `cipher.key()`.
#[verifier::external_body]
fn blowfish_decrypt_block(cipher: &BlockCipher, block: &[u8]) -> (r: [u8; 8])
    requires
        block@.len() == 8,
    ensures
        r@ == blowfish_decrypt(cipher.key(), block@),
{
    let mut out = [0u8; 8];
    cipher.engine.decrypt_block(block, &mut out);
    out
}

impl BlockCipher {
    /// The key that the schedule was expanded from.
    pub closed spec fn key(&self) -> Seq<u8> {
        self.key@
    }

    /// Expands `key`, which holds 4 to 56 bytes, into a key schedule.
    pub fn new(key: &[u8]) -> (r: BlockCipher)
        requires
            4 <= key@.len() <= 56,
        ensures
            r.key() == key@,
    {
        BlockCipher { engine: blowfish_new(key), key: Ghost(key@) }
    }

    /// Encrypts one 8-byte block.
    pub fn encrypt_block(&self, block: &[u8]) -> (r: [u8; 8])
        requires
            block@.len() == 8,
        ensures
            r@ == blowfish_encrypt(self.key(), block@),
            blowfish_decrypt(self.key(), r@) == block@,
            forall|x: Seq<u8>|
                x.len() == 8 && #[trigger] blowfish_encrypt(self.key(), x) == r@ ==> x == block@,
    {
        blowfish_encrypt_block(self, block)
    }

    /// Decrypts one 8-byte block.
    pub fn decrypt_block(&self, block: &[u8]) -> (r: [u8; 8])
        requires
            block@.len() == 8,
        ensures
            r@ == blowfish_decrypt(self.key(), block@),
    {
        blowfish_decrypt_block(self, block)
    }
}

} // verus!
