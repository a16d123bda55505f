//! Permit records: their data model, the index that looks them up by cell id,
//! and the parser of the permit file.
use crate::primitives::{
    be_bytes, blowfish_decrypt, blowfish_encrypt, checksum_ieee, crc32_ieee, hex_bytes, hex_decode,
    is_hex_text, lemma_be_round_trip, u32_to_be, BlockCipher,
};
use crate::text::{
    after_first_line, byte_slice, find_byte, find_from, first_line, lemma_boundary_after_ascii,
    lemma_boundary_at_ascii, lemma_find_from, lemma_line_len, take_line, trim, trim_end,
    trim_end_text, trim_text, all_digits, decimal_u8, is_digits, non_digit_error, parse_digits_u8,
};
use chrono::{Datelike, Timelike};
use vstd::prelude::*;
use vstd::slice::slice_to_vec;
use vstd::string::*;
use vstd::utf8::*;

verus! {

broadcast use vstd::utf8::group_utf8_lib;

#[verifier::external_type_specification]
#[verifier::external_body]
pub struct ExChronoParseError(chrono::ParseError);

#[verifier::external_type_specification]
#[verifier::external_body]
pub struct ExIoError(std::io::Error);


/// A calendar date.
#[derive(Clone, Copy, Debug, PartialEq, Eq, Structural)]
pub struct Date {
    pub year: i32,
    pub month: u32,
    pub day: u32,
}

/// A date with a time of day.
#[derive(Clone, Copy, Debug, PartialEq, Eq, Structural)]
pub struct DateTime {
    pub date: Date,
    pub hour: u32,
    pub minute: u32,
    pub second: u32,
}

/// The keys that a permit grants for one cell, and until when.
#[derive(Debug, PartialEq)]
pub struct CellPermit {
    pub cell: String,
    pub date: Date,
    pub key1: [u8; 5],
    pub key2: [u8; 5],
}

/// What a cell permit holds, as mathematical values.
pub struct CellPermitView {
    pub cell: Seq<char>,
    pub date: Date,
    pub key1: Seq<u8>,
    pub key2: Seq<u8>,
}

impl View for CellPermit {
    type V = CellPermitView;

    open spec fn view(&self) -> CellPermitView {
        CellPermitView { cell: self.cell@, date: self.date, key1: self.key1@, key2: self.key2@ }
    }
}

/// The keys worth trying for a cell, in order: `key2` only where it differs from `key1`.
pub open spec fn candidate_keys(cp: CellPermitView) -> Seq<Seq<u8>> {
    if cp.key1 == cp.key2 {
        seq![cp.key1]
    } else {
        seq![cp.key1, cp.key2]
    }
}

impl CellPermit {
    /// The keys to try on the cell, in order; an equal second key is left out.
    pub fn keys(&self) -> (r: Vec<[u8; 5]>)
        ensures
            r@.len() == candidate_keys(self@).len(),
            forall|i: int| 0 <= i < r@.len() ==> #[trigger] r@[i]@ == candidate_keys(self@)[i],
    {
        let k1 = self.key1;
        let k2 = self.key2;
        let mut r: Vec<[u8; 5]> = Vec::new();
        r.push(k1);
        if !(k1[0] == k2[0] && k1[1] == k2[1] && k1[2] == k2[2] && k1[3] == k2[3] && k1[4]
            == k2[4]) {
            r.push(k2);
        } else {
            assert(k1@ =~= k2@);
        }
        r
    }
}

/// Whether a permit is a subscription or a single purchase.
#[derive(Clone, Copy, Debug, PartialEq, Eq, Structural)]
pub enum SericeLevelIndicator {
    SubscriptionPermit,
    SinglePurchasePermit,
}

/// One data line of a permit file.
#[derive(Debug, PartialEq)]
pub struct PermitRecord {
    pub cell_permit: CellPermit,
    pub sli: SericeLevelIndicator,
    pub edition: Option<u8>,
    pub data_server_id: String,
    pub comment: String,
}

/// What a permit record holds, as mathematical values.
pub struct PermitRecordView {
    pub cell_permit: CellPermitView,
    pub sli: SericeLevelIndicator,
    pub edition: Option<u8>,
    pub data_server_id: Seq<char>,
    pub comment: Seq<char>,
}

impl View for PermitRecord {
    type V = PermitRecordView;

    open spec fn view(&self) -> PermitRecordView {
        PermitRecordView {
            cell_permit: self.cell_permit@,
            sli: self.sli,
            edition: self.edition,
            data_server_id: self.data_server_id@,
            comment: self.comment@,
        }
    }
}

/// Why a permit file, or one of its lines, was refused.
#[derive(Debug)]
pub enum E {
    InvalidDate(chrono::ParseError),
    ParseError(usize, String),
    IoErr(std::io::Error),
    ParseIntErr(std::num::ParseIntError),
    CellPermitTooShort,
    InvalidSli,
    InvalidChksum,
    FromHex(hex::FromHexError),
}

// ---------------------------------------------------------------- lookup

/// A source of permits, looked up by cell id.
pub trait GetPermit {
    /// The record held for `cell`, if any.
    spec fn permit_for(&self, cell: Seq<char>) -> Option<PermitRecordView>;

    fn get_permit(&self, cell: &str) -> (r: Option<&PermitRecord>)
        ensures
            match r {
                Some(p) => self.permit_for(cell@) == Some(p@),
                None => self.permit_for(cell@) is None,
            },
    ;
}

/// The source that holds no permit at all.
pub struct EmptyPermit();

impl GetPermit for EmptyPermit {
    open spec fn permit_for(&self, cell: Seq<char>) -> Option<PermitRecordView> {
        None
    }

    fn get_permit(&self, _cell: &str) -> (r: Option<&PermitRecord>) {
        None
    }
}

/// The cell id of the `i`-th record.
pub open spec fn cell_of(recs: Seq<PermitRecord>, i: int) -> Seq<char> {
    recs[i].cell_permit.cell@
}

/// No two records share a cell id.
pub open spec fn cells_unique(recs: Seq<PermitRecord>) -> bool {
    forall|i: int, j: int|
        0 <= i < j < recs.len() ==> #[trigger] cell_of(recs, i) != #[trigger] cell_of(recs, j)
}

/// Records by cell id.
pub open spec fn records_map(recs: Seq<PermitRecord>) -> Map<Seq<char>, PermitRecordView> {
    Map::new(
        |c: Seq<char>| exists|i: int| 0 <= i < recs.len() && cell_of(recs, i) == c,
        |c: Seq<char>| recs[choose|i: int| 0 <= i < recs.len() && cell_of(recs, i) == c]@,
    )
}

/// Storing a record under a cell id that no record holds yet.
proof fn lemma_map_push(recs: Seq<PermitRecord>, rec: PermitRecord)
    requires
        cells_unique(recs),
        forall|j: int| 0 <= j < recs.len() ==> cell_of(recs, j) != rec.cell_permit.cell@,
    ensures
        cells_unique(recs.push(rec)),
        records_map(recs.push(rec)) == records_map(recs).insert(rec.cell_permit.cell@, rec@),
{
    let cell = rec.cell_permit.cell@;
    let n = recs.len() as int;
    let next = recs.push(rec);
    assert forall|a: int, b: int| 0 <= a < b < next.len() implies #[trigger] cell_of(next, a)
        != #[trigger] cell_of(next, b) by {
        assert(cell_of(next, a) == cell_of(recs, a));
        if b < n {
            assert(cell_of(next, b) == cell_of(recs, b));
            assert(cell_of(recs, a) != cell_of(recs, b));
        } else {
            assert(cell_of(next, b) == cell);
        }
    }
    let m = records_map(recs).insert(cell, rec@);
    assert forall|c: Seq<char>| #[trigger] records_map(next).contains_key(c) == m.contains_key(c) by {
        if c != cell && records_map(recs).contains_key(c) {
            let k = choose|k: int| 0 <= k < recs.len() && cell_of(recs, k) == c;
            assert(cell_of(next, k) == c);
        }
        if records_map(next).contains_key(c) && c != cell {
            let k = choose|k: int| 0 <= k < next.len() && cell_of(next, k) == c;
            assert(cell_of(recs, k) == c);
        }
        assert(cell_of(next, n) == cell);
    }
    assert forall|c: Seq<char>| #[trigger] records_map(next).contains_key(c) implies records_map(
        next,
    )[c] == m[c] by {
        let k = choose|k: int| 0 <= k < next.len() && cell_of(next, k) == c;
        if c == cell {
            if k < n {
                assert(cell_of(recs, k) == cell_of(next, k));
            }
            assert(k == n);
        } else {
            assert(cell_of(recs, k) == c);
            let k2 = choose|k2: int| 0 <= k2 < recs.len() && cell_of(recs, k2) == c;
            assert(k2 == k);
        }
    }
    assert(records_map(next) =~= m);
}

/// Replacing the record at `i` by one with the same cell id.
proof fn lemma_map_update(recs: Seq<PermitRecord>, i: int, rec: PermitRecord)
    requires
        cells_unique(recs),
        0 <= i < recs.len(),
        cell_of(recs, i) == rec.cell_permit.cell@,
    ensures
        cells_unique(recs.update(i, rec)),
        records_map(recs.update(i, rec)) == records_map(recs).insert(rec.cell_permit.cell@, rec@),
{
    let cell = rec.cell_permit.cell@;
    let next = recs.update(i, rec);
    assert forall|a: int, b: int| 0 <= a < b < next.len() implies #[trigger] cell_of(next, a)
        != #[trigger] cell_of(next, b) by {
        assert(cell_of(recs, a) != cell_of(recs, b));
    }
    let m = records_map(recs).insert(cell, rec@);
    assert forall|c: Seq<char>| #[trigger] records_map(next).contains_key(c) == m.contains_key(c) by {
        if records_map(recs).contains_key(c) {
            let k = choose|k: int| 0 <= k < recs.len() && cell_of(recs, k) == c;
            assert(cell_of(next, k) == c);
        }
        if records_map(next).contains_key(c) {
            let k = choose|k: int| 0 <= k < next.len() && cell_of(next, k) == c;
            assert(cell_of(recs, k) == c);
        }
        assert(cell_of(next, i) == cell);
    }
    assert forall|c: Seq<char>| #[trigger] records_map(next).contains_key(c) implies records_map(
        next,
    )[c] == m[c] by {
        let k = choose|k: int| 0 <= k < next.len() && cell_of(next, k) == c;
        if c == cell {
            if k != i {
                assert(cell_of(recs, k) == cell_of(next, k));
                if k < i {
                    assert(cell_of(recs, k) != cell_of(recs, i));
                } else {
                    assert(cell_of(recs, i) != cell_of(recs, k));
                }
            }
            assert(k == i);
        } else {
            assert(cell_of(recs, k) == c);
            let k2 = choose|k2: int| 0 <= k2 < recs.len() && cell_of(recs, k2) == c;
            assert(k2 == k);
        }
    }
    assert(records_map(next) =~= m);
}

/// Permit records by cell id; a later record for a cell replaces the earlier one.
pub struct PermitIndex {
    records: Vec<PermitRecord>,
}

impl View for PermitIndex {
    type V = Map<Seq<char>, PermitRecordView>;

    closed spec fn view(&self) -> Map<Seq<char>, PermitRecordView> {
        records_map(self.records@)
    }
}

impl PermitIndex {
    #[verifier::type_invariant]
    closed spec fn unique(&self) -> bool {
        cells_unique(self.records@)
    }

    /// An index without records.
    pub fn new() -> (r: PermitIndex)
        ensures
            r@ == Map::<Seq<char>, PermitRecordView>::empty(),
    {
        let r = PermitIndex { records: Vec::new() };
        assert(r@ =~= Map::<Seq<char>, PermitRecordView>::empty());
        r
    }

    /// Stores `rec` under its cell id, replacing a record held for that cell.
    pub fn insert(&mut self, rec: PermitRecord)
        ensures
            final(self)@ == old(self)@.insert(rec.cell_permit.cell@, rec@),
    {
        proof {
            use_type_invariant(&*self);
        }
        let ghost orig = self.records@;
        let mut recs: Vec<PermitRecord> = Vec::new();
        std::mem::swap(&mut recs, &mut self.records);
        let n = recs.len();
        let mut i: usize = 0;
        while i < n
            invariant
                n == recs@.len(),
                i <= n,
                recs@ == orig,
                cells_unique(orig),
                old(self)@ == records_map(orig),
                forall|j: int| 0 <= j < i ==> cell_of(recs@, j) != rec.cell_permit.cell@,
            decreases n - i,
        {
            if recs[i].cell_permit.cell == rec.cell_permit.cell {
                proof {
                    lemma_map_update(recs@, i as int, rec);
                }
                recs.set(i, rec);
                self.records = recs;
                return ;
            }
            i = i + 1;
        }
        proof {
            lemma_map_push(recs@, rec);
        }
        recs.push(rec);
        self.records = recs;
    }
}

impl GetPermit for PermitIndex {
    open spec fn permit_for(&self, cell: Seq<char>) -> Option<PermitRecordView> {
        if self@.contains_key(cell) {
            Some(self@[cell])
        } else {
            None
        }
    }

    fn get_permit(&self, cell: &str) -> (r: Option<&PermitRecord>) {
        proof {
            use_type_invariant(self);
        }
        let wanted = String::from_str(cell);
        let n = self.records.len();
        let mut i: usize = 0;
        while i < n
            invariant
                n == self.records@.len(),
                i <= n,
                wanted@ == cell@,
                cells_unique(self.records@),
                forall|j: int| 0 <= j < i ==> cell_of(self.records@, j) != cell@,
            decreases n - i,
        {
            if self.records[i].cell_permit.cell == wanted {
                assert(cell_of(self.records@, i as int) == cell@);
                assert(self@.contains_key(cell@));
                let ghost k = choose|k: int|
                    0 <= k < self.records@.len() && cell_of(self.records@, k) == cell@;
                assert(k == i);
                return Some(&self.records[i]);
            }
            i = i + 1;
        }
        None
    }
}

// ---------------------------------------------------------------- failures

/// What a parse failure reports, as mathematical values.
pub enum ParseFailure {
    InvalidDate,
    ParseError(usize, Seq<char>),
    IoErr,
    ParseIntErr,
    CellPermitTooShort,
    InvalidSli,
    InvalidChksum,
    FromHex,
}

impl E {
    /// The kind of this error, with the line number and text it reports.
    pub open spec fn failure(&self) -> ParseFailure {
        match self {
            E::InvalidDate(_) => ParseFailure::InvalidDate,
            E::ParseError(n, t) => ParseFailure::ParseError(*n, t@),
            E::IoErr(_) => ParseFailure::IoErr,
            E::ParseIntErr(_) => ParseFailure::ParseIntErr,
            E::CellPermitTooShort => ParseFailure::CellPermitTooShort,
            E::InvalidSli => ParseFailure::InvalidSli,
            E::InvalidChksum => ParseFailure::InvalidChksum,
            E::FromHex(_) => ParseFailure::FromHex,
        }
    }
}

/// `r` is the outcome that `s` describes.
pub open spec fn outcome_matches(
    r: Result<PermitRecord, E>,
    s: Result<PermitRecordView, ParseFailure>,
) -> bool {
    match s {
        Ok(v) => r matches Ok(x) && x@ == v,
        Err(f) => r matches Err(e) && e.failure() == f,
    }
}

// ---------------------------------------------------------------- dates

/// The date that chrono reads from `s` with the format `%Y%m%d`.
pub uninterp spec fn chrono_date(s: Seq<char>) -> Option<Date>;

/// Relies on chrono's `NaiveDate::parse_from_str` with the format `%Y%m%d`;
/// the outcome depends on `s` alone.
#[verifier::external_body]
fn parse_date(s: &str) -> (r: Result<Date, chrono::ParseError>)
    ensures
        match r {
            Ok(d) => chrono_date(s@) == Some(d),
            Err(_) => chrono_date(s@) is None,
        },
{
    let d = chrono::NaiveDate::parse_from_str(s, "%Y%m%d")?;
    Ok(Date { year: d.year(), month: d.month(), day: d.day() })
}

/// The date and time that chrono reads from `s` with the format `%Y%m%d %H:%M`.
pub uninterp spec fn chrono_date_time(s: Seq<char>) -> Option<DateTime>;

/// Relies on chrono's `NaiveDateTime::parse_from_str` with the format
/// `%Y%m%d %H:%M`; the outcome depends on `s` alone.
#[verifier::external_body]
fn parse_date_time(s: &str) -> (r: Result<DateTime, chrono::ParseError>)
    ensures
        match r {
            Ok(t) => chrono_date_time(s@) == Some(t),
            Err(_) => chrono_date_time(s@) is None,
        },
{
    let t = chrono::NaiveDateTime::parse_from_str(s, "%Y%m%d %H:%M")?;
    let date = Date { year: t.year(), month: t.month(), day: t.day() };
    Ok(DateTime { date, hour: t.hour(), minute: t.minute(), second: t.second() })
}

// ---------------------------------------------------------------- keys and checksums

/// The cipher key of an installation id: its bytes with the first one appended once more.
pub open spec fn derived_key(id: Seq<u8>) -> Seq<u8> {
    id.push(id[0])
}

/// An installation id that gives a Blowfish key: 3 to 55 bytes, the first one ASCII.
pub open spec fn valid_installation_id(id: Seq<u8>) -> bool {
    3 <= id.len() <= 55 && id[0] < 0x80
}

/// The cipher key of an installation id: the id with its first character appended.
pub fn hwid6(hwid: &str) -> (r: Vec<u8>)
    requires
        valid_installation_id(hwid.spec_bytes()),
    ensures
        r@ == derived_key(hwid.spec_bytes()),
{
    let b = hwid.as_bytes();
    let mut v = slice_to_vec(b);
    v.push(b[0]);
    v
}

/// The CRC-32 (IEEE) of `data`, most significant byte first.
pub fn crc32(data: &[u8]) -> (r: [u8; 4])
    ensures
        r@ == be_bytes(crc32_ieee(data@)),
{
    u32_to_be(checksum_ieee(data))
}

/// The block whose encryption authenticates a record: the CRC-32 of the
/// record's first 48 bytes, then four bytes of value 4.
pub open spec fn checksum_plain(prefix: Seq<u8>) -> Seq<u8> {
    be_bytes(crc32_ieee(prefix)) + seq![4u8, 4u8, 4u8, 4u8]
}

/// The checksum that a record with this prefix must carry under `key`.
pub open spec fn checksum_tag(prefix: Seq<u8>, key: Seq<u8>) -> Seq<u8> {
    blowfish_encrypt(key, checksum_plain(prefix))
}

/// The last 16 bytes of a 64-byte cell permit are the hex of the checksum of its first 48.
pub open spec fn checksum_matches(block: Seq<u8>, key: Seq<u8>) -> bool {
    &&& is_hex_text(block.subrange(48, 64))
    &&& hex_bytes(block.subrange(48, 64)) == checksum_tag(block.subrange(0, 48), key)
}

fn bytes_equal(a: &[u8], b: &[u8]) -> (r: bool)
    ensures
        r == (a@ == b@),
{
    if a.len() != b.len() {
        return false;
    }
    let mut i: usize = 0;
    while i < a.len()
        invariant
            a@.len() == b@.len(),
            i <= a@.len(),
            forall|j: int| 0 <= j < i ==> a@[j] == b@[j],
        decreases a@.len() - i,
    {
        if a[i] != b[i] {
            return false;
        }
        i = i + 1;
    }
    assert(a@ =~= b@);
    true
}

/// Compares a checksum field, 16 hex digits, with the 8-byte tag it must hold.
pub fn check_tag(field: &[u8], tag: &[u8]) -> (r: Result<(), E>)
    ensures
        r is Ok <==> is_hex_text(field@) && hex_bytes(field@) == tag@,
        r matches Err(e) ==> e.failure() == if is_hex_text(field@) {
            ParseFailure::InvalidChksum
        } else {
            ParseFailure::FromHex
        },
{
    let chksum = match hex_decode(field) {
        Ok(v) => v,
        Err(e) => return Err(E::FromHex(e)),
    };
    if bytes_equal(chksum.as_slice(), tag) {
        Ok(())
    } else {
        Err(E::InvalidChksum)
    }
}

/// Checks the checksum of a 64-byte cell permit: the hex in its last 16 bytes
/// must be the encryption of the CRC-32 of its first 48 bytes padded with fours.
/// Once a record passes, its checksum field refuses every other prefix whose
/// CRC-32 differs.
pub fn permit_chksum(s: &[u8], cipher: &BlockCipher) -> (r: Result<(), E>)
    requires
        s@.len() == 64,
    ensures
        r is Ok <==> checksum_matches(s@, cipher.key()),
        r matches Err(e) ==> e.failure() == if is_hex_text(s@.subrange(48, 64)) {
            ParseFailure::InvalidChksum
        } else {
            ParseFailure::FromHex
        },
        r is Ok ==> blowfish_decrypt(cipher.key(), hex_bytes(s@.subrange(48, 64))) == checksum_plain(
            s@.subrange(0, 48),
        ),
        r is Ok ==> forall|q: Seq<u8>|
            q.len() == 48 && #[trigger] crc32_ieee(q) != crc32_ieee(s@.subrange(0, 48))
                ==> !checksum_matches(q + s@.subrange(48, 64), cipher.key()),
{
    let crc = crc32(&s[0..48]);
    let plain: [u8; 8] = [crc[0], crc[1], crc[2], crc[3], 4, 4, 4, 4];
    assert(plain@ =~= checksum_plain(s@.subrange(0, 48)));
    let enc = cipher.encrypt_block(&plain);
    let checked = check_tag(&s[48..64], &enc);
    proof {
        if checked is Ok {
            let p = s@.subrange(0, 48);
            assert forall|q: Seq<u8>|
                q.len() == 48 && #[trigger] crc32_ieee(q) != crc32_ieee(p) implies !checksum_matches(
                q + s@.subrange(48, 64),
                cipher.key(),
            ) by {
                let t = q + s@.subrange(48, 64);
                assert(t.subrange(48, 64) =~= s@.subrange(48, 64));
                assert(t.subrange(0, 48) =~= q);
                if checksum_matches(t, cipher.key()) {
                    assert(checksum_plain(q).len() == 8);
                    assert(checksum_plain(q) == plain@);
                    lemma_be_round_trip(crc32_ieee(q));
                    lemma_be_round_trip(crc32_ieee(p));
                    assert(checksum_plain(q).subrange(0, 4) =~= be_bytes(crc32_ieee(q)));
                    assert(checksum_plain(p).subrange(0, 4) =~= be_bytes(crc32_ieee(p)));
                }
            }
        }
    }
    checked
}

/// The cell key that 16 hex digits hold: their block decrypted, its first five bytes.
pub open spec fn cell_key(key: Seq<u8>, field: Seq<u8>) -> Seq<u8> {
    blowfish_decrypt(key, hex_bytes(field)).subrange(0, 5)
}

fn decrypt_key_with(field: &[u8], cipher: &BlockCipher) -> (r: Result<[u8; 5], E>)
    requires
        field@.len() == 16,
    ensures
        match r {
            Ok(k) => is_hex_text(field@) && k@ == cell_key(cipher.key(), field@),
            Err(e) => !is_hex_text(field@) && e.failure() == ParseFailure::FromHex,
        },
{
    let block = match hex_decode(field) {
        Ok(v) => v,
        Err(e) => return Err(E::FromHex(e)),
    };
    let dec = cipher.decrypt_block(block.as_slice());
    let k: [u8; 5] = [dec[0], dec[1], dec[2], dec[3], dec[4]];
    assert(k@ =~= cell_key(cipher.key(), field@));
    Ok(k)
}

/// Decrypts a cell key from its 16 hex digits with the key of installation `hwid`.
pub fn decrypt_key(s: &str, hwid: &str) -> (r: Result<[u8; 5], E>)
    requires
        s.spec_bytes().len() == 16,
        valid_installation_id(hwid.spec_bytes()),
    ensures
        match r {
            Ok(k) => is_hex_text(s.spec_bytes()) && k@ == cell_key(
                derived_key(hwid.spec_bytes()),
                s.spec_bytes(),
            ),
            Err(e) => !is_hex_text(s.spec_bytes()) && e.failure() == ParseFailure::FromHex,
        },
{
    let key = hwid6(hwid);
    let cipher = BlockCipher::new(key.as_slice());
    decrypt_key_with(s.as_bytes(), &cipher)
}

// ---------------------------------------------------------------- records

/// The cell permit that 64 bytes hold: cell id (8), expiry date (8), the two
/// encrypted keys (16 hex digits each) and the checksum (16 hex digits).
pub open spec fn cell_permit_spec(s: Seq<u8>, key: Seq<u8>) -> Result<CellPermitView, ParseFailure> {
    if s.len() != 64 {
        Err(ParseFailure::ParseError(1, seq![]))
    } else if !is_hex_text(s.subrange(48, 64)) {
        Err(ParseFailure::FromHex)
    } else if !checksum_matches(s, key) {
        Err(ParseFailure::InvalidChksum)
    } else if is_continuation_byte(s[8]) || is_continuation_byte(s[16]) {
        Err(ParseFailure::ParseError(1, seq![]))
    } else {
        match chrono_date(decode_utf8(s.subrange(8, 16))) {
            None => Err(ParseFailure::InvalidDate),
            Some(date) => if !is_hex_text(s.subrange(16, 32)) || !is_hex_text(s.subrange(32, 48)) {
                Err(ParseFailure::FromHex)
            } else {
                Ok(
                    CellPermitView {
                        cell: decode_utf8(s.subrange(0, 8)),
                        date,
                        key1: cell_key(key, s.subrange(16, 32)),
                        key2: cell_key(key, s.subrange(32, 48)),
                    },
                )
            },
        }
    }
}

fn is_continuation(b: u8) -> (r: bool)
    ensures
        r == is_continuation_byte(b),
{
    0x80 <= b && b <= 0xbf
}

/// Parses and authenticates the 64-character cell permit field.
pub fn parse_cell_permit(s: &str, cipher: &BlockCipher) -> (r: Result<CellPermit, E>)
    ensures
        match cell_permit_spec(s.spec_bytes(), cipher.key()) {
            Ok(v) => r matches Ok(x) && x@ == v,
            Err(f) => r matches Err(e) && e.failure() == f,
        },
{
    let b = s.as_bytes();
    if b.len() != 64 {
        return Err(E::ParseError(1, String::new()));
    }
    match permit_chksum(b, cipher) {
        Ok(_) => {},
        Err(e) => return Err(e),
    }
    if is_continuation(b[8]) || is_continuation(b[16]) {
        return Err(E::ParseError(1, String::new()));
    }
    proof {
        is_char_boundary_iff_not_is_continuation_byte(b@, 8);
        is_char_boundary_iff_not_is_continuation_byte(b@, 16);
    }
    let cell = String::from_str(byte_slice(s, 0, 8));
    let date = match parse_date(byte_slice(s, 8, 16)) {
        Ok(d) => d,
        Err(e) => return Err(E::InvalidDate(e)),
    };
    let key1 = match decrypt_key_with(&b[16..32], cipher) {
        Ok(k) => k,
        Err(e) => return Err(e),
    };
    let key2 = match decrypt_key_with(&b[32..48], cipher) {
        Ok(k) => k,
        Err(e) => return Err(e),
    };
    Ok(CellPermit { cell, date, key1, key2 })
}

/// The service level that a one-character code stands for.
pub open spec fn sli_of(s: Seq<char>) -> Option<SericeLevelIndicator> {
    if s == seq!['0'] {
        Some(SericeLevelIndicator::SubscriptionPermit)
    } else if s == seq!['1'] {
        Some(SericeLevelIndicator::SinglePurchasePermit)
    } else {
        None
    }
}

impl SericeLevelIndicator {
    /// Reads the code `0` or `1`; any other text is refused.
    pub fn from_code(s: &str) -> (r: Result<SericeLevelIndicator, E>)
        ensures
            match sli_of(s@) {
                Some(v) => r == Ok::<SericeLevelIndicator, E>(v),
                None => r matches Err(e) && e.failure() == ParseFailure::InvalidSli,
            },
    {
        if s.unicode_len() == 1 {
            let c = s.get_char(0);
            if c == '0' {
                assert(s@ =~= seq!['0']);
                return Ok(SericeLevelIndicator::SubscriptionPermit);
            } else if c == '1' {
                assert(s@ =~= seq!['1']);
                return Ok(SericeLevelIndicator::SinglePurchasePermit);
            }
        }
        Err(E::InvalidSli)
    }
}

impl std::str::FromStr for SericeLevelIndicator {
    type Err = E;

    fn from_str(s: &str) -> Result<SericeLevelIndicator, E> {
        SericeLevelIndicator::from_code(s)
    }
}

/// Where the field that starts at `start` ends: at the next comma, or at the end.
pub open spec fn field_end(b: Seq<u8>, start: int) -> int {
    find_from(b, 44, start)
}

/// The record that a data line stands for: exactly five comma-separated
/// fields, the cell permit, the service level code, the edition (empty for
/// none, else decimal digits), the data server id and a comment, which loses
/// its trailing white space. A line with fewer or more fields gives
/// `CellPermitTooShort`, the field-count error.
#[verifier::opaque]
pub open spec fn permit_line_spec(b: Seq<u8>, key: Seq<u8>) -> Result<PermitRecordView, ParseFailure> {
    let e0 = field_end(b, 0);
    match cell_permit_spec(b.subrange(0, e0), key) {
        Err(f) => Err(f),
        Ok(cp) => if e0 >= b.len() {
            Err(ParseFailure::CellPermitTooShort)
        } else {
            let e1 = field_end(b, e0 + 1);
            match sli_of(decode_utf8(b.subrange(e0 + 1, e1))) {
                None => Err(ParseFailure::InvalidSli),
                Some(sli) => if e1 >= b.len() {
                    Err(ParseFailure::CellPermitTooShort)
                } else {
                    let e2 = field_end(b, e1 + 1);
                    let ed = decode_utf8(b.subrange(e1 + 1, e2));
                    if e2 > e1 + 1 && decimal_u8(ed) is None {
                        Err(ParseFailure::ParseIntErr)
                    } else if e2 >= b.len() {
                        Err(ParseFailure::CellPermitTooShort)
                    } else {
                        let e3 = field_end(b, e2 + 1);
                        if e3 >= b.len() {
                            Err(ParseFailure::CellPermitTooShort)
                        } else {
                            let e4 = field_end(b, e3 + 1);
                            if e4 < b.len() {
                                Err(ParseFailure::CellPermitTooShort)
                            } else {
                            Ok(
                                PermitRecordView {
                                    cell_permit: cp,
                                    sli,
                                    edition: if e2 == e1 + 1 {
                                        None
                                    } else {
                                        decimal_u8(ed)
                                    },
                                    data_server_id: decode_utf8(b.subrange(e2 + 1, e3)),
                                    comment: trim_end_text(decode_utf8(b.subrange(e3 + 1, e4))),
                                },
                            )
                            }
                        }
                    }
                },
            }
        },
    }
}

/// The field of `s` that starts at byte `start`, and where it ends.
fn field(s: &str, start: usize) -> (r: (&str, usize))
    requires
        start <= s.spec_bytes().len(),
        is_char_boundary(s.spec_bytes(), start as int),
    ensures
        r.1 == field_end(s.spec_bytes(), start as int),
        start <= r.1 <= s.spec_bytes().len(),
        r.0@ == decode_utf8(s.spec_bytes().subrange(start as int, r.1 as int)),
        r.0.spec_bytes() == s.spec_bytes().subrange(start as int, r.1 as int),
        r.1 < s.spec_bytes().len() ==> is_char_boundary(s.spec_bytes(), r.1 + 1),
{
    let b = s.as_bytes();
    let end = find_byte(b, 44, start);
    proof {
        lemma_find_from(b@, 44, start as int);
        if end < b@.len() {
            lemma_boundary_at_ascii(b@, end as int);
            lemma_boundary_after_ascii(b@, end + 1);
        }
    }
    (byte_slice(s, start, end), end)
}

/// Parses one data line of a permit file with the cipher of the installation.
pub fn parse_permit_with(s: &str, cipher: &BlockCipher) -> (r: Result<PermitRecord, E>)
    ensures
        outcome_matches(r, permit_line_spec(s.spec_bytes(), cipher.key())),
{
    reveal(permit_line_spec);
    let ghost b = s.spec_bytes();
    let len = s.as_bytes().len();
    let (f0, e0) = field(s, 0);
    let cell_permit = match parse_cell_permit(f0, cipher) {
        Ok(cp) => cp,
        Err(e) => return Err(e),
    };
    if e0 >= len {
        return Err(E::CellPermitTooShort);
    }
    let (f1, e1) = field(s, e0 + 1);
    let sli = match SericeLevelIndicator::from_code(f1) {
        Ok(v) => v,
        Err(e) => return Err(e),
    };
    if e1 >= len {
        return Err(E::CellPermitTooShort);
    }
    let (f2, e2) = field(s, e1 + 1);
    let edition = if e2 == e1 + 1 {
        None
    } else {
        if !all_digits(f2) {
            return Err(E::ParseIntErr(non_digit_error(f2)));
        }
        match parse_digits_u8(f2) {
            Ok(v) => Some(v),
            Err(e) => return Err(E::ParseIntErr(e)),
        }
    };
    if e2 >= len {
        return Err(E::CellPermitTooShort);
    }
    let (f3, e3) = field(s, e2 + 1);
    if e3 >= len {
        return Err(E::CellPermitTooShort);
    }
    let (f4, e4) = field(s, e3 + 1);
    if e4 < len {
        return Err(E::CellPermitTooShort);
    }
    let data_server_id = String::from_str(f3);
    let comment = String::from_str(trim_end(f4));
    Ok(PermitRecord { cell_permit, sli, edition, data_server_id, comment })
}

/// Parses one data line of a permit file with the key of installation `key`.
pub fn parse_permit(s: &str, key: &str) -> (r: Result<PermitRecord, E>)
    requires
        valid_installation_id(key.spec_bytes()),
    ensures
        outcome_matches(r, permit_line_spec(s.spec_bytes(), derived_key(key.spec_bytes()))),
{
    let k = hwid6(key);
    let cipher = BlockCipher::new(k.as_slice());
    parse_permit_with(s, &cipher)
}

// ---------------------------------------------------------------- the file

/// The header of a permit file: when it was issued and its format version.
#[derive(Clone, Copy, Debug, PartialEq, Eq, Structural)]
pub struct MetaData {
    pub date: DateTime,
    pub version: u8,
}

/// The bytes `:DATE ` that open the first line.
pub open spec fn date_tag() -> Seq<u8> {
    seq![58u8, 68u8, 65u8, 84u8, 69u8, 32u8]
}

/// The bytes `:VERSION ` that open the second line.
pub open spec fn version_tag() -> Seq<u8> {
    seq![58u8, 86u8, 69u8, 82u8, 83u8, 73u8, 79u8, 78u8, 32u8]
}

/// The text after `tag` in `l` once trimmed, if it opens with `tag`.
pub open spec fn after_tag(l: Seq<char>, tag: Seq<u8>) -> Option<Seq<char>> {
    let t = encode_utf8(trim_text(l));
    if t.len() >= tag.len() && t.subrange(0, tag.len() as int) == tag {
        Some(decode_utf8(t.subrange(tag.len() as int, t.len() as int)))
    } else {
        None
    }
}

/// The issue date that the first line gives: `:DATE` and a date, with or
/// without a time of day. Any other line is refused with its position, 1,
/// and its trimmed text.
pub open spec fn date_line_spec(l: Seq<char>) -> Result<DateTime, ParseFailure> {
    let refused = Err(ParseFailure::ParseError(1, trim_text(l)));
    match after_tag(l, date_tag()) {
        None => refused,
        Some(rest) => match chrono_date_time(rest) {
            Some(t) => Ok(t),
            None => match chrono_date(rest) {
                Some(d) => Ok(DateTime { date: d, hour: 0, minute: 0, second: 0 }),
                None => refused,
            },
        },
    }
}

/// The format version that the second line gives: `:VERSION` and decimal
/// digits of a value below 256. Any other line is refused with its position,
/// 2, and its trimmed text.
pub open spec fn version_line_spec(l: Seq<char>) -> Result<u8, ParseFailure> {
    match after_tag(l, version_tag()) {
        None => Err(ParseFailure::ParseError(2, trim_text(l))),
        Some(rest) => match decimal_u8(rest) {
            Some(v) => Ok(v),
            None => Err(ParseFailure::ParseError(2, trim_text(l))),
        },
    }
}

/// The trimmed `l`, and what follows `tag` in it if it opens with `tag`.
fn strip_tag<'a>(l: &'a str, tag: &[u8]) -> (r: (&'a str, Option<&'a str>))
    requires
        tag@.len() > 0,
        tag@.last() < 0x80,
    ensures
        r.0@ == trim_text(l@),
        match after_tag(l@, tag@) {
            Some(rest) => r.1 matches Some(x) && x@ == rest,
            None => r.1 is None,
        },
{
    let t = trim(l);
    let tb = t.as_bytes();
    if tb.len() < tag.len() || !bytes_equal(&tb[0..tag.len()], tag) {
        return (t, None);
    }
    proof {
        lemma_boundary_after_ascii(tb@, tag@.len() as int);
    }
    (t, Some(byte_slice(t, tag.len(), tb.len())))
}

/// Reads the issue date from the first line of a permit file; any other line
/// gives `ParseError(1, line)`.
pub fn get_date(l: &str) -> (r: Result<DateTime, E>)
    ensures
        match date_line_spec(l@) {
            Ok(t) => r == Ok::<DateTime, E>(t),
            Err(f) => r matches Err(e) && e.failure() == f,
        },
{
    let tag: [u8; 6] = [58, 68, 65, 84, 69, 32];
    assert(tag@ =~= date_tag());
    let (t, rest) = strip_tag(l, &tag);
    let rest = match rest {
        Some(x) => x,
        None => return Err(E::ParseError(1, String::from_str(t))),
    };
    match parse_date_time(rest) {
        Ok(dt) => Ok(dt),
        Err(_) => match parse_date(rest) {
            Ok(d) => Ok(DateTime { date: d, hour: 0, minute: 0, second: 0 }),
            Err(_) => Err(E::ParseError(1, String::from_str(t))),
        },
    }
}

/// Reads the format version from the second line of a permit file; any other
/// line gives `ParseError(2, line)`.
pub fn get_version(l: &str) -> (r: Result<u8, E>)
    ensures
        match version_line_spec(l@) {
            Ok(v) => r == Ok::<u8, E>(v),
            Err(f) => r matches Err(e) && e.failure() == f,
        },
{
    let tag: [u8; 9] = [58, 86, 69, 82, 83, 73, 79, 78, 32];
    assert(tag@ =~= version_tag());
    let (t, rest) = strip_tag(l, &tag);
    let rest = match rest {
        Some(x) => x,
        None => return Err(E::ParseError(2, String::from_str(t))),
    };
    if !all_digits(rest) {
        return Err(E::ParseError(2, String::from_str(t)));
    }
    match parse_digits_u8(rest) {
        Ok(v) => Ok(v),
        Err(_) => Err(E::ParseError(2, String::from_str(t))),
    }
}

/// The header that the first two lines of `b` give.
pub open spec fn header_spec(b: Seq<u8>) -> Result<MetaData, ParseFailure> {
    match date_line_spec(decode_utf8(first_line(b))) {
        Err(f) => Err(f),
        Ok(date) => match version_line_spec(decode_utf8(first_line(after_first_line(b)))) {
            Err(f) => Err(f),
            Ok(version) => Ok(MetaData { date, version }),
        },
    }
}

/// What follows the first two lines of `b`.
pub open spec fn after_header(b: Seq<u8>) -> Seq<u8> {
    after_first_line(after_first_line(b))
}

/// A line that opens with `:ENC` or `:ECS` marks a section and holds no record.
pub open spec fn is_directive(line: Seq<u8>) -> bool {
    &&& line.len() >= 4
    &&& line[0] == 58 && line[1] == 69
    &&& ((line[2] == 78 && line[3] == 67) || (line[2] == 67 && line[3] == 83))
}

/// `b` from its first line that is not a directive on.
pub open spec fn skip_directives(b: Seq<u8>) -> Seq<u8>
    decreases b.len(),
    via skip_directives_decreases
{
    if b.len() > 0 && is_directive(first_line(b)) {
        skip_directives(after_first_line(b))
    } else {
        b
    }
}

#[via_fn]
proof fn skip_directives_decreases(b: Seq<u8>) {
    lemma_line_len(b);
}

proof fn lemma_skip_directives_len(b: Seq<u8>)
    ensures
        skip_directives(b).len() <= b.len(),
    decreases b.len(),
{
    lemma_line_len(b);
    if b.len() > 0 && is_directive(first_line(b)) {
        lemma_skip_directives_len(after_first_line(b));
    }
}

/// The data lines of `b`, in order.
pub open spec fn data_lines(b: Seq<u8>) -> Seq<Seq<u8>>
    decreases b.len(),
    via data_lines_decreases
{
    let c = skip_directives(b);
    if c.len() == 0 {
        seq![]
    } else {
        seq![first_line(c)] + data_lines(after_first_line(c))
    }
}

#[via_fn]
proof fn data_lines_decreases(b: Seq<u8>) {
    lemma_skip_directives_len(b);
    lemma_line_len(skip_directives(b));
}

fn is_directive_line(line: &[u8]) -> (r: bool)
    ensures
        r == is_directive(line@),
{
    line.len() >= 4 && line[0] == 58 && line[1] == 69 && ((line[2] == 78 && line[3] == 67) || (
    line[2] == 67 && line[3] == 83))
}

/// The record of one line of a permit file, or `None` for a directive line.
pub fn permit_line(line: &str, cipher: &BlockCipher) -> (r: Option<Result<PermitRecord, E>>)
    ensures
        is_directive(line.spec_bytes()) ==> r is None,
        !is_directive(line.spec_bytes()) ==> (r matches Some(x) && outcome_matches(
            x,
            permit_line_spec(line.spec_bytes(), cipher.key()),
        )),
{
    if is_directive_line(line.as_bytes()) {
        None
    } else {
        Some(parse_permit_with(line, cipher))
    }
}

/// A permit file whose header has been read.
pub struct PermitFile<'a> {
    rest: &'a str,
}

/// The records of a permit file, read one line at a time.
pub struct Permits<'a> {
    rest: &'a str,
    key: &'a str,
    cipher: BlockCipher,
}

impl<'a> PermitFile<'a> {
    /// The text after the header.
    pub closed spec fn remaining(&self) -> Seq<u8> {
        self.rest.spec_bytes()
    }

    /// Reads the header, the first two lines, of the permit file `text`.
    pub fn new(text: &'a str) -> (r: Result<(MetaData, PermitFile<'a>), E>)
        ensures
            match header_spec(text.spec_bytes()) {
                Ok(md) => r matches Ok((m, f)) && m == md && f.remaining() == after_header(
                    text.spec_bytes(),
                ),
                Err(fl) => r matches Err(e) && e.failure() == fl,
            },
    {
        let (date_line, rest) = take_line(text);
        let date = match get_date(date_line) {
            Ok(d) => d,
            Err(e) => return Err(e),
        };
        let (version_line, rest) = take_line(rest);
        let version = match get_version(version_line) {
            Ok(v) => v,
            Err(e) => return Err(e),
        };
        Ok((MetaData { date, version }, PermitFile { rest }))
    }

    /// The records that follow the header, read with the key of installation `key`.
    pub fn permits(self, key: &'a str) -> (r: Permits<'a>)
        requires
            valid_installation_id(key.spec_bytes()),
        ensures
            r.remaining() == self.remaining(),
            r.cipher_key() == derived_key(key.spec_bytes()),
    {
        let k = hwid6(key);
        let cipher = BlockCipher::new(k.as_slice());
        Permits { rest: self.rest, key, cipher }
    }
}

impl<'a> Permits<'a> {
    #[verifier::type_invariant]
    closed spec fn keyed(&self) -> bool {
        self.cipher.key() == derived_key(self.key.spec_bytes())
    }

    /// The text not read yet.
    pub closed spec fn remaining(&self) -> Seq<u8> {
        self.rest.spec_bytes()
    }

    /// The cipher key that the records are read with.
    pub closed spec fn cipher_key(&self) -> Seq<u8> {
        self.cipher.key()
    }

    /// The next record: directive lines are passed over, and a line that does
    /// not parse gives its error without ending the sequence.
    pub fn next(&mut self) -> (r: Option<Result<PermitRecord, E>>)
        ensures
            final(self).cipher_key() == old(self).cipher_key(),
            skip_directives(old(self).remaining()).len() == 0 ==> r is None
                && final(self).remaining() == skip_directives(old(self).remaining()),
            skip_directives(old(self).remaining()).len() > 0 ==> {
                let c = skip_directives(old(self).remaining());
                &&& final(self).remaining() == after_first_line(c)
                &&& r matches Some(x) && outcome_matches(
                    x,
                    permit_line_spec(first_line(c), old(self).cipher_key()),
                )
            },
    {
        proof {
            use_type_invariant(&*self);
        }
        loop
            invariant
                self.cipher.key() == old(self).cipher.key(),
                self.key == old(self).key,
                self.cipher.key() == derived_key(self.key.spec_bytes()),
                skip_directives(self.rest.spec_bytes()) == skip_directives(
                    old(self).rest.spec_bytes(),
                ),
            decreases self.rest.spec_bytes().len(),
        {
            let ghost b = self.rest.spec_bytes();
            proof {
                lemma_line_len(b);
            }
            let (line, rest) = take_line(self.rest);
            if line.as_bytes().len() == 0 {
                assert(b.len() == 0);
                return None;
            }
            self.rest = rest;
            match permit_line(line, &self.cipher) {
                None => {},
                Some(r) => return Some(r),
            }
        }
    }
}

/// The index that the data lines `lines` build on top of `m`, or the failure
/// of the first line that does not parse.
pub open spec fn index_spec(
    m: Map<Seq<char>, PermitRecordView>,
    lines: Seq<Seq<u8>>,
    key: Seq<u8>,
) -> Result<Map<Seq<char>, PermitRecordView>, ParseFailure>
    decreases lines.len(),
{
    if lines.len() == 0 {
        Ok(m)
    } else {
        match permit_line_spec(lines[0], key) {
            Err(f) => Err(f),
            Ok(v) => index_spec(m.insert(v.cell_permit.cell, v), lines.drop_first(), key),
        }
    }
}

/// Reads a whole permit file into an index; the first line that does not
/// parse fails the whole file.
pub fn permit_from_str(text: &str, key: &str) -> (r: Result<PermitIndex, E>)
    requires
        valid_installation_id(key.spec_bytes()),
    ensures
        match header_spec(text.spec_bytes()) {
            Err(f) => r matches Err(e) && e.failure() == f,
            Ok(_) => match index_spec(
                Map::empty(),
                data_lines(after_header(text.spec_bytes())),
                derived_key(key.spec_bytes()),
            ) {
                Ok(m) => r matches Ok(ix) && ix@ == m,
                Err(f) => r matches Err(e) && e.failure() == f,
            },
        },
{
    let (_, file) = match PermitFile::new(text) {
        Ok(x) => x,
        Err(e) => return Err(e),
    };
    let mut permits = file.permits(key);
    let mut index = PermitIndex::new();
    let ghost all = data_lines(after_header(text.spec_bytes()));
    let ghost k = derived_key(key.spec_bytes());
    loop
        invariant
            header_spec(text.spec_bytes()) is Ok,
            all == data_lines(after_header(text.spec_bytes())),
            k == derived_key(key.spec_bytes()),
            permits.cipher_key() == k,
            index_spec(Map::empty(), all, k) == index_spec(index@, data_lines(permits.remaining()), k),
        decreases permits.remaining().len(),
    {
        let ghost before = permits.remaining();
        let ghost c = skip_directives(before);
        let ghost lines = data_lines(before);
        proof {
            lemma_skip_directives_len(before);
            lemma_line_len(c);
            if c.len() > 0 {
                assert(lines[0] == first_line(c));
                assert(lines.drop_first() =~= data_lines(after_first_line(c)));
            } else {
                assert(lines =~= Seq::<Seq<u8>>::empty());
            }
        }
        match permits.next() {
            None => return Ok(index),
            Some(Ok(p)) => index.insert(p),
            Some(Err(e)) => return Err(e),
        }
    }
}

} // verus!
