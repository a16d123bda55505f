//! User permits: a hardware id bound to an installation key, written as 28 hex
//! characters (the encrypted hardware id, its CRC-32 and the permit id).
use crate::primitives::{
    be_bytes, be_value, blowfish_decrypt, blowfish_encrypt, checksum_ieee, crc32_ieee, hex_bytes,
    hex_decode, hex_encode_upper, hex_upper_text, hex_value, is_hex_byte, is_hex_text,
    lemma_be_round_trip, u32_from_be, u32_to_be, upper_digit, BlockCipher,
};
use vstd::prelude::*;
use vstd::string::*;
use vstd::utf8::*;

verus! {

broadcast use vstd::utf8::group_utf8_lib;

#[verifier::external_type_specification]
#[verifier::external_body]
pub struct ExUtf8Error(std::str::Utf8Error);

/// Why a user permit could not be made or read.
#[derive(Debug)]
pub enum PermitErr {
    NonHex,
    WrongLength { actual: usize, expected: usize },
    HashMisMatch,
    HexErr(hex::FromHexError),
    Utf8Err(std::str::Utf8Error),
}

/// What a user-permit error reports, as mathematical values.
pub enum PermitFailure {
    NonHex,
    WrongLength(usize, usize),
    HashMisMatch,
    HexErr,
    Utf8Err,
}

impl PermitErr {
    /// The kind of this error, with the lengths it reports.
    pub open spec fn failure(&self) -> PermitFailure {
        match self {
            PermitErr::NonHex => PermitFailure::NonHex,
            PermitErr::WrongLength { actual, expected } => PermitFailure::WrongLength(
                *actual,
                *expected,
            ),
            PermitErr::HashMisMatch => PermitFailure::HashMisMatch,
            PermitErr::HexErr(_) => PermitFailure::HexErr,
            PermitErr::Utf8Err(_) => PermitFailure::Utf8Err,
        }
    }
}

/// The length of the text of a user permit.
pub const PERMIT_LENGTH: usize = 28;

/// The length of an installation key.
pub const KEY_LENGTH: usize = 5;

/// The length of a hardware id.
pub const HWID_LENGTH: usize = 5;

/// The length of a permit id.
pub const ID_LENGTH: usize = 4;

/// A hex digit, in either case.
pub open spec fn is_hex_char(c: char) -> bool {
    ('0' <= c <= '9') || ('a' <= c <= 'f') || ('A' <= c <= 'F')
}

/// Text made of hex digits only.
pub open spec fn all_hex(s: Seq<char>) -> bool {
    forall|i: int| 0 <= i < s.len() ==> #[trigger] is_hex_char(s[i])
}

/// The bytes of ASCII text.
pub open spec fn ascii_bytes(s: Seq<char>) -> Seq<u8> {
    Seq::new(s.len(), |i: int| s[i] as u8)
}

proof fn lemma_hex_is_ascii(s: Seq<char>)
    requires
        all_hex(s),
    ensures
        is_ascii_chars(s),
        encode_utf8(s) == ascii_bytes(s),
        forall|i: int| 0 <= i < s.len() ==> #[trigger] is_hex_byte(ascii_bytes(s)[i]),
        s.len() % 2 == 0 ==> is_hex_text(ascii_bytes(s)),
{
    assert forall|i: int| 0 <= i < s.len() implies '\0' <= #[trigger] s[i] <= '\u{7f}' by {
        assert(is_hex_char(s[i]));
    }
    assert forall|i: int| 0 <= i < s.len() implies #[trigger] is_hex_byte(ascii_bytes(s)[i]) by {
        assert(is_hex_char(s[i]));
        assert(ascii_bytes(s)[i] == s[i] as u8);
    }
    is_ascii_chars_encode_utf8(s);
    assert(encode_utf8(s) =~= ascii_bytes(s));
}

/// The hardware id and the permit id that a user-permit text holds under the
/// installation key `key`, or why it holds none.
pub open spec fn decrypt_spec(up: Seq<char>, key: Seq<char>) -> Result<
    (Seq<char>, Seq<char>),
    PermitFailure,
> {
    if !(all_hex(up) && all_hex(key)) {
        Err(PermitFailure::NonHex)
    } else if key.len() != 5 {
        Err(PermitFailure::WrongLength(key.len() as usize, 5))
    } else if up.len() != 28 {
        Err(PermitFailure::WrongLength(up.len() as usize, 28))
    } else {
        let b = ascii_bytes(up);
        if crc32_ieee(b.subrange(0, 16)) != be_value(hex_bytes(b.subrange(16, 24))) {
            Err(PermitFailure::HashMisMatch)
        } else {
            let hw = blowfish_decrypt(ascii_bytes(key), hex_bytes(b.subrange(0, 16))).subrange(0, 5);
            if valid_utf8(hw) {
                Ok((decode_utf8(hw), up.subrange(24, 28)))
            } else {
                Err(PermitFailure::Utf8Err)
            }
        }
    }
}

/// The text of the permit for hardware id bytes `hwid` and permit id `id` under
/// the installation key `key`: the hardware id padded with threes and
/// encrypted, in hex; the CRC-32 of that hex, in hex; then the id.
pub open spec fn encrypt_spec(hwid: Seq<u8>, id: Seq<char>, key: Seq<u8>) -> Seq<char> {
    let enc = hex_upper_text(blowfish_encrypt(key, hwid + seq![3u8, 3u8, 3u8]));
    enc + hex_upper_text(be_bytes(crc32_ieee(ascii_bytes(enc)))) + id
}

/// A hardware id bound to a permit id.
#[derive(Debug, PartialEq)]
pub struct UserPermit {
    hwid: String,
    id: String,
}

impl View for UserPermit {
    type V = (Seq<char>, Seq<char>);

    closed spec fn view(&self) -> (Seq<char>, Seq<char>) {
        (self.hwid@, self.id@)
    }
}

/// Whether `c` is a hex digit.
pub fn is_hex(c: char) -> (r: bool)
    ensures
        r == is_hex_char(c),
{
    (c >= '0' && c <= '9') || (c >= 'a' && c <= 'f') || (c >= 'A' && c <= 'F')
}

fn all_hex_str(a: &str) -> (r: bool)
    ensures
        r == all_hex(a@),
{
    let n = a.unicode_len();
    let mut i: usize = 0;
    while i < n
        invariant
            n == a@.len(),
            i <= n,
            forall|j: int| 0 <= j < i ==> is_hex_char(#[trigger] a@[j]),
        decreases n - i,
    {
        if !is_hex(a.get_char(i)) {
            return false;
        }
        i = i + 1;
    }
    true
}

/// Checks that `a` is `l` bytes long and made of hex digits only.
pub fn validator(a: &str, l: usize) -> (r: Result<(), PermitErr>)
    ensures
        a.spec_bytes().len() != l ==> (r matches Err(e) && e.failure()
            == PermitFailure::WrongLength(a.spec_bytes().len() as usize, l)),
        a.spec_bytes().len() == l && !all_hex(a@) ==> r matches Err(PermitErr::NonHex),
        a.spec_bytes().len() == l && all_hex(a@) ==> r is Ok,
        r is Ok ==> a@.len() == l && all_hex(a@),
{
    let n = a.as_bytes().len();
    if n != l {
        return Err(PermitErr::WrongLength { actual: n, expected: l });
    }
    if !all_hex_str(a) {
        return Err(PermitErr::NonHex);
    }
    proof {
        lemma_hex_is_ascii(a@);
    }
    Ok(())
}

/// Relies on `std::str::from_utf8`: the bytes as text when they are valid
/// UTF-8, an error otherwise.
#[verifier::external_body]
fn text_from_utf8(b: &[u8]) -> (r: Result<&str, std::str::Utf8Error>)
    ensures
        match r {
            Ok(s) => valid_utf8(b@) && s.spec_bytes() == b@,
            Err(_) => !valid_utf8(b@),
        },
{
    std::str::from_utf8(b)
}

proof fn lemma_upper_digit_hex(v: int)
    requires
        0 <= v < 16,
    ensures
        is_hex_char(upper_digit(v)),
        is_hex_byte(upper_digit(v) as u8),
        hex_value(upper_digit(v) as u8) == v,
{
    let d = seq!['0', '1', '2', '3', '4', '5', '6', '7', '8', '9', 'A', 'B', 'C', 'D', 'E', 'F'];
    assert(upper_digit(v) == d[v]);
    if v < 10 {
        assert(d[v] as u32 == 48 + v);
    } else {
        assert(d[v] as u32 == 55 + v);
    }
}

/// Upper-case hex is hex, and reads back as the bytes it was made from.
proof fn lemma_hex_upper_round_trip(b: Seq<u8>)
    ensures
        all_hex(hex_upper_text(b)),
        is_hex_text(ascii_bytes(hex_upper_text(b))),
        hex_bytes(ascii_bytes(hex_upper_text(b))) == b,
{
    let t = hex_upper_text(b);
    let a = ascii_bytes(t);
    assert forall|i: int| 0 <= i < t.len() implies #[trigger] is_hex_char(t[i]) && is_hex_byte(
        a[i],
    ) by {
        if i % 2 == 0 {
            lemma_upper_digit_hex(b[i / 2] as int / 16);
        } else {
            lemma_upper_digit_hex(b[i / 2] as int % 16);
        }
    }
    assert forall|j: int| 0 <= j < b.len() implies #[trigger] hex_bytes(a)[j] == b[j] by {
        lemma_upper_digit_hex(b[j] as int / 16);
        lemma_upper_digit_hex(b[j] as int % 16);
        assert((2 * j) / 2 == j);
        assert((2 * j + 1) / 2 == j);
        assert((2 * j) % 2 == 0);
        assert((2 * j + 1) % 2 == 1);
        assert(a[2 * j] == upper_digit(b[j] as int / 16) as u8);
        assert(a[2 * j + 1] == upper_digit(b[j] as int % 16) as u8);
        assert((b[j] as int / 16) * 16 + b[j] as int % 16 == b[j]);
    }
    assert(hex_bytes(a) =~= b);
}

/// The hardware id that a decrypted block holds: its first five bytes, which
/// must be UTF-8.
pub fn hwid_from_block(block: &[u8]) -> (r: Result<String, PermitErr>)
    requires
        block@.len() >= 5,
    ensures
        valid_utf8(block@.subrange(0, 5)) ==> (r matches Ok(s) && s@ == decode_utf8(
            block@.subrange(0, 5),
        )),
        !valid_utf8(block@.subrange(0, 5)) ==> r matches Err(PermitErr::Utf8Err(_)),
{
    match text_from_utf8(&block[0..5]) {
        Ok(s) => Ok(String::from_str(s)),
        Err(e) => Err(PermitErr::Utf8Err(e)),
    }
}

/// The text of a user permit from the hex of its encrypted hardware id, the
/// CRC-32 of that hex and the permit id.
pub fn permit_text(enc_hwid: &str, crc: u32, id: &str) -> (r: String)
    ensures
        r@ == enc_hwid@ + hex_upper_text(be_bytes(crc)) + id@,
{
    let chksum = hex_encode_upper(&u32_to_be(crc));
    String::from_str(enc_hwid).concat(chksum.as_str()).concat(id)
}

/// Splits checked user-permit text into the encrypted hardware id, the
/// checksum and the permit id, and checks the checksum.
fn check_up_string(up: &str) -> (r: Result<(&str, &str, &str), PermitErr>)
    ensures
        up.spec_bytes().len() != 28 ==> (r matches Err(e) && e.failure()
            == PermitFailure::WrongLength(up.spec_bytes().len() as usize, 28)),
        up.spec_bytes().len() == 28 && !all_hex(up@) ==> r matches Err(PermitErr::NonHex),
        up.spec_bytes().len() == 28 && all_hex(up@) ==> {
            let b = ascii_bytes(up@);
            if crc32_ieee(b.subrange(0, 16)) != be_value(hex_bytes(b.subrange(16, 24))) {
                r matches Err(PermitErr::HashMisMatch)
            } else {
                r matches Ok((h, c, i)) && h@ == up@.subrange(0, 16) && c@ == up@.subrange(16, 24)
                    && i@ == up@.subrange(24, 28)
            }
        },
{
    match validator(up, PERMIT_LENGTH) {
        Ok(_) => {},
        Err(e) => return Err(e),
    }
    proof {
        lemma_hex_is_ascii(up@);
    }
    let b = up.as_bytes();
    assert(b@ == ascii_bytes(up@));
    let chksum = match hex_decode(&b[16..24]) {
        Ok(v) => v,
        Err(e) => return Err(PermitErr::HexErr(e)),
    };
    let chksum_u32 = u32_from_be(chksum.as_slice());
    if checksum_ieee(&b[0..16]) != chksum_u32 {
        return Err(PermitErr::HashMisMatch);
    }
    let enc_hwid = up.substring_ascii(0, 16);
    let chk = up.substring_ascii(16, 24);
    let id = up.substring_ascii(24, 28);
    Ok((enc_hwid, chk, id))
}

impl UserPermit {
    #[verifier::type_invariant]
    closed spec fn shaped(&self) -> bool {
        &&& encode_utf8(self.hwid@).len() == 5
        &&& self.id@.len() == 4
        &&& all_hex(self.id@)
    }

    /// A permit for hardware id `hwid` (5 hex digits) with id `id` (4 hex digits).
    pub fn new(hwid: &str, id: &str) -> (r: Result<UserPermit, PermitErr>)
        ensures
            hwid.spec_bytes().len() != 5 ==> (r matches Err(e) && e.failure()
                == PermitFailure::WrongLength(hwid.spec_bytes().len() as usize, 5)),
            hwid.spec_bytes().len() == 5 && !all_hex(hwid@) ==> r matches Err(PermitErr::NonHex),
            hwid.spec_bytes().len() == 5 && all_hex(hwid@) && id.spec_bytes().len() != 4 ==> (
            r matches Err(e) && e.failure() == PermitFailure::WrongLength(
                id.spec_bytes().len() as usize,
                4,
            )),
            hwid.spec_bytes().len() == 5 && all_hex(hwid@) && id.spec_bytes().len() == 4 && !all_hex(
                id@,
            ) ==> r matches Err(PermitErr::NonHex),
            hwid.spec_bytes().len() == 5 && all_hex(hwid@) && id.spec_bytes().len() == 4 && all_hex(
                id@,
            ) ==> (r matches Ok(p) && p@ == (hwid@, id@)),
    {
        match validator(hwid, HWID_LENGTH) {
            Ok(_) => {},
            Err(e) => return Err(e),
        }
        match validator(id, ID_LENGTH) {
            Ok(_) => {},
            Err(e) => return Err(e),
        }
        proof {
            lemma_hex_is_ascii(hwid@);
        }
        Ok(UserPermit { hwid: String::from_str(hwid), id: String::from_str(id) })
    }

    /// The hardware id.
    pub fn hwid(&self) -> (r: &str)
        ensures
            r@ == self@.0,
    {
        self.hwid.as_str()
    }

    /// The permit id.
    pub fn id(&self) -> (r: &str)
        ensures
            r@ == self@.1,
    {
        self.id.as_str()
    }

    /// Reads user-permit text `up` with the installation key `key`.
    pub fn decrypt(up: &str, key: &str) -> (r: Result<UserPermit, PermitErr>)
        ensures
            match decrypt_spec(up@, key@) {
                Ok(v) => r matches Ok(p) && p@ == v,
                Err(f) => r matches Err(e) && e.failure() == f,
            },
    {
        if !(all_hex_str(up) && all_hex_str(key)) {
            return Err(PermitErr::NonHex);
        }
        proof {
            lemma_hex_is_ascii(up@);
            lemma_hex_is_ascii(key@);
        }
        match validator(key, KEY_LENGTH) {
            Ok(_) => {},
            Err(e) => return Err(e),
        }
        let (enc_hwid, _, id) = match check_up_string(up) {
            Ok(parts) => parts,
            Err(e) => return Err(e),
        };
        let ghost b = ascii_bytes(up@);
        proof {
            lemma_hex_is_ascii(enc_hwid@);
            assert(enc_hwid.spec_bytes() =~= b.subrange(0, 16));
        }
        let cipher = BlockCipher::new(key.as_bytes());
        let block = match hex_decode(enc_hwid.as_bytes()) {
            Ok(v) => v,
            Err(e) => return Err(PermitErr::HexErr(e)),
        };
        let dec = cipher.decrypt_block(block.as_slice());
        let hwid = match hwid_from_block(&dec) {
            Ok(s) => s,
            Err(e) => return Err(e),
        };
        assert(id@.len() == 4);
        Ok(UserPermit { hwid, id: String::from_str(id) })
    }

    /// Writes the permit as text under the installation key `key` (5 hex
    /// digits); reading that text back with the same key gives this permit.
    pub fn encrypt(&self, key: &str) -> (r: Result<String, PermitErr>)
        ensures
            key.spec_bytes().len() != 5 ==> (r matches Err(e) && e.failure()
                == PermitFailure::WrongLength(key.spec_bytes().len() as usize, 5)),
            key.spec_bytes().len() == 5 && !all_hex(key@) ==> r matches Err(PermitErr::NonHex),
            key.spec_bytes().len() == 5 && all_hex(key@) ==> (r matches Ok(s) && s@
                == encrypt_spec(encode_utf8(self@.0), self@.1, ascii_bytes(key@))),
            r matches Ok(s) ==> decrypt_spec(s@, key@) == Ok::<
                (Seq<char>, Seq<char>),
                PermitFailure,
            >(self@),
    {
        proof {
            use_type_invariant(self);
        }
        match validator(key, KEY_LENGTH) {
            Ok(_) => {},
            Err(e) => return Err(e),
        }
        proof {
            lemma_hex_is_ascii(key@);
        }
        let k = key.as_bytes();
        let cipher = BlockCipher::new(k);
        let hw = self.hwid.as_str().as_bytes();
        let plain: [u8; 8] = [hw[0], hw[1], hw[2], hw[3], hw[4], 3, 3, 3];
        assert(plain@ =~= hw@ + seq![3u8, 3u8, 3u8]);
        let enc = cipher.encrypt_block(&plain);
        let enc_hwid = hex_encode_upper(&enc);
        proof {
            lemma_hex_upper_round_trip(enc@);
            lemma_hex_is_ascii(enc_hwid@);
        }
        let crc = checksum_ieee(enc_hwid.as_str().as_bytes());
        let s = permit_text(enc_hwid.as_str(), crc, self.id.as_str());
        proof {
            lemma_hex_upper_round_trip(be_bytes(crc));
            lemma_be_round_trip(crc);
            let t = s@;
            let e = enc_hwid@;
            let c = hex_upper_text(be_bytes(crc));
            assert(t =~= e + c + self.id@);
            assert(all_hex(t)) by {
                assert forall|i: int| 0 <= i < t.len() implies #[trigger] is_hex_char(t[i]) by {
                    if i < 16 {
                        assert(t[i] == e[i]);
                    } else if i < 24 {
                        assert(t[i] == c[i - 16]);
                    } else {
                        assert(t[i] == self.id@[i - 24]);
                    }
                }
            }
            let b = ascii_bytes(t);
            assert(b.subrange(0, 16) =~= ascii_bytes(e));
            assert(b.subrange(16, 24) =~= ascii_bytes(c));
            assert(t.subrange(24, 28) =~= self.id@);
            let hw5 = blowfish_decrypt(ascii_bytes(key@), hex_bytes(b.subrange(0, 16))).subrange(0, 5);
            assert(hw5 =~= hw@);
            assert(decode_utf8(hw5) == self.hwid@);
        }
        Ok(s)
    }
}

} // verus!
