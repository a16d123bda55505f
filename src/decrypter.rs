//! The cell decryption engine: Blowfish over the whole cell, the final block
//! de-padded, and the chart taken from the first entry of the resulting archive.
use crate::permit::{candidate_keys, EmptyPermit, GetPermit};
use crate::primitives::{blowfish_decrypt, BlockCipher};
use vstd::prelude::*;
use zip::result::ZipError;

verus! {

#[verifier::external_type_specification]
#[verifier::external_body]
pub struct ExZipError(ZipError);

/// Why a cell could not be decrypted.
#[derive(Debug)]
pub enum E {
    DecryptionFailed,
    PermitIsNone,
    Io(std::io::Error),
    NoPermit(String),
    NonEightRead,
    ZipErr(ZipError),
}

/// What the final plaintext block keeps once its padding is removed: with
/// `n` its last byte, the last `n` bytes go where `n <= 8` and all of them equal `n`.
pub open spec fn depad_spec(b: Seq<u8>) -> Seq<u8> {
    let n = b[7];
    if n <= 8 && forall|i: int| 8 - n <= i < 8 ==> b[i] == n {
        b.subrange(0, 8 - n)
    } else {
        b
    }
}

/// The `i`-th 8-byte block of `data`.
pub open spec fn block_at(data: Seq<u8>, i: int) -> Seq<u8> {
    data.subrange(8 * i, 8 * i + 8)
}

/// The first `k` blocks of `data`, each decrypted under `key`.
pub open spec fn plain_blocks(key: Seq<u8>, data: Seq<u8>, k: nat) -> Seq<u8>
    decreases k,
{
    if k == 0 {
        seq![]
    } else {
        plain_blocks(key, data, (k - 1) as nat) + blowfish_decrypt(key, block_at(data, k - 1))
    }
}

/// The plaintext of block-aligned `data`: every block decrypted, the last one de-padded.
pub open spec fn plaintext(key: Seq<u8>, data: Seq<u8>) -> Seq<u8> {
    let n = data.len() / 8;
    if n == 0 {
        seq![]
    } else {
        plain_blocks(key, data, (n - 1) as nat) + depad_spec(blowfish_decrypt(key, block_at(data, n - 1)))
    }
}

/// The bytes of the first entry of the zip archive held in `archive`, if it opens.
pub uninterp spec fn zip_first_entry(archive: Seq<u8>) -> Option<Seq<u8>>;

/// Relies on the zip crate: `ZipArchive::new` opens the archive held in
/// `archive`, `by_index_decrypt(0, &[])` gives its first entry (an entry that
/// wants a password is refused, without the panic of `by_index`), and reading
/// that entry to its end gives the entry's bytes. Any failure is an error.
/// Everything is read from memory, so the outcome depends on the bytes alone.
#[verifier::external_body]
fn read_first_entry(archive: Vec<u8>) -> (r: Result<Vec<u8>, ZipError>)
    ensures
        match r {
            Ok(v) => zip_first_entry(archive@) == Some(v@),
            Err(_) => zip_first_entry(archive@) is None,
        },
{
    let mut zip = zip::ZipArchive::new(std::io::Cursor::new(archive))?;
    let mut entry = match zip.by_index_decrypt(0, &[])? {
        Ok(entry) => entry,
        Err(_) => return Err(ZipError::UnsupportedArchive(ZipError::PASSWORD_REQUIRED)),
    };
    let mut out = Vec::new();
    std::io::Read::read_to_end(&mut entry, &mut out)?;
    Ok(out)
}

/// What decrypting `data` with `key` yields: the first entry of the archive
/// that the plaintext holds.
pub open spec fn key_result(key: Seq<u8>, data: Seq<u8>) -> Option<Seq<u8>> {
    if data.len() % 8 != 0 {
        None
    } else {
        zip_first_entry(plaintext(key, data))
    }
}

/// What the first key of `keys` that works yields.
pub open spec fn first_working(keys: Seq<Seq<u8>>, data: Seq<u8>) -> Option<Seq<u8>>
    decreases keys.len(),
{
    if keys.len() == 0 {
        None
    } else if key_result(keys[0], data) is Some {
        key_result(keys[0], data)
    } else {
        first_working(keys.drop_first(), data)
    }
}

/// Removes the padding from the last decrypted block.
pub fn depad(data: &[u8]) -> (r: &[u8])
    requires
        data@.len() == 8,
    ensures
        r@ == depad_spec(data@),
{
    let last = data[7];
    if last > 8 {
        return data;
    }
    let mut i: usize = 0;
    while i < last as usize
        invariant
            last <= 8,
            data@.len() == 8,
            last == data@[7],
            i <= last,
            forall|j: int| 8 - i <= j < 8 ==> data@[j] == last,
        decreases last - i,
    {
        if data[7 - i] != last {
            assert(data@[7 - i as int] != last);
            return data;
        }
        i = i + 1;
    }
    let (head, _) = data.split_at(8 - last as usize);
    head
}

fn push_all(out: &mut Vec<u8>, s: &[u8])
    ensures
        final(out)@ == old(out)@ + s@,
{
    let mut i: usize = 0;
    while i < s.len()
        invariant
            i <= s@.len(),
            out@ == old(out)@ + s@.subrange(0, i as int),
        decreases s@.len() - i,
    {
        out.push(s[i]);
        i = i + 1;
        assert(out@ =~= old(out)@ + s@.subrange(0, i as int));
    }
    assert(s@.subrange(0, s@.len() as int) =~= s@);
}

/// Decrypts block-aligned `data` with `key` and appends the plaintext to `out`.
/// A length that is not a multiple of 8 is refused and nothing is written.
pub fn decrypt_into(key: &[u8], data: &[u8], out: &mut Vec<u8>) -> (r: Result<(), E>)
    requires
        4 <= key@.len() <= 56,
    ensures
        match r {
            Ok(_) => data@.len() % 8 == 0 && final(out)@ == old(out)@ + plaintext(key@, data@),
            Err(e) => data@.len() % 8 != 0 && e is NonEightRead && final(out)@ == old(out)@,
        },
{
    if data.len() % 8 != 0 {
        return Err(E::NonEightRead);
    }
    let n = data.len() / 8;
    if n == 0 {
        assert(old(out)@ + plaintext(key@, data@) =~= old(out)@);
        return Ok(());
    }
    let cipher = BlockCipher::new(key);
    let mut prev = cipher.decrypt_block(&data[0..8]);
    let mut i: usize = 1;
    let len = data.len();
    assert(8 * n <= len) by (nonlinear_arith)
        requires
            n == len / 8,
    ;
    while i < n
        invariant
            n == data@.len() / 8,
            len == data@.len(),
            8 * n <= len,
            1 <= i <= n,
            cipher.key() == key@,
            prev@ == blowfish_decrypt(key@, block_at(data@, i - 1)),
            out@ == old(out)@ + plain_blocks(key@, data@, (i - 1) as nat),
        decreases n - i,
    {
        // The block decrypted last is not the final one: it goes out unchanged.
        push_all(out, &prev);
        assert(out@ =~= old(out)@ + plain_blocks(key@, data@, i as nat));
        assert(8 * i + 8 <= 8 * n);
        let pos: usize = 8 * i;
        prev = cipher.decrypt_block(&data[pos..pos + 8]);
        i = i + 1;
    }
    push_all(out, depad(&prev));
    assert(out@ =~= old(out)@ + plaintext(key@, data@));
    Ok(())
}

/// Decrypts cells with the keys that a permit source grants.
pub struct S63Decrypter<P: GetPermit> {
    pub permit: P,
}

impl S63Decrypter<EmptyPermit> {
    /// A decrypter without permits: it can only decrypt with a given key.
    pub fn new() -> (r: S63Decrypter<EmptyPermit>)
        ensures
            forall|c: Seq<char>| r.permit.permit_for(c) is None,
    {
        S63Decrypter { permit: EmptyPermit() }
    }
}

impl Default for S63Decrypter<EmptyPermit> {
    fn default() -> (r: Self)
        ensures
            forall|c: Seq<char>| r.permit.permit_for(c) is None,
    {
        Self::new()
    }
}

impl<P: GetPermit> S63Decrypter<P> {
    /// A decrypter that looks up the keys of a cell in `permit`.
    pub fn new_with_permit(permit: P) -> (r: S63Decrypter<P>)
        ensures
            r.permit == permit,
    {
        S63Decrypter { permit }
    }

    /// Decrypts a cell with each candidate key of its permit in turn and returns
    /// what the first key that yields an archive finds in the archive's first entry.
    pub fn with_cell_bytes(&self, cell: &str, data: &[u8]) -> (r: Result<Vec<u8>, E>)
        ensures
            match self.permit.permit_for(cell@) {
                None => r matches Err(E::NoPermit(c)) && c@ == cell@,
                Some(p) => match first_working(candidate_keys(p.cell_permit), data@) {
                    Some(v) => r matches Ok(x) && x@ == v,
                    None => r matches Err(E::DecryptionFailed),
                },
            },
    {
        let permit = match self.permit.get_permit(cell) {
            Some(val) => val,
            None => return Err(E::NoPermit(String::from_str(cell))),
        };
        let keys = permit.cell_permit.keys();
        let ghost ks = candidate_keys(permit.cell_permit@);
        assert(self.permit.permit_for(cell@) == Some(permit@));
        assert(permit@.cell_permit == permit.cell_permit@);
        let mut i: usize = 0;
        assert(ks.subrange(0, ks.len() as int) =~= ks);
        while i < keys.len()
            invariant
                ks == candidate_keys(permit.cell_permit@),
                self.permit.permit_for(cell@) == Some(permit@),
                keys@.len() == ks.len(),
                forall|j: int| 0 <= j < keys@.len() ==> #[trigger] keys@[j]@ == ks[j],
                i <= ks.len(),
                first_working(ks, data@) == first_working(ks.subrange(i as int, ks.len() as int), data@),
            decreases ks.len() - i,
        {
            let key: &[u8] = &keys[i];
            assert(key@ == ks[i as int]);
            let ghost rest = ks.subrange(i as int, ks.len() as int);
            assert(rest.drop_first() =~= ks.subrange(i + 1, ks.len() as int));
            assert(rest[0] == ks[i as int]);
            match self.with_key_bytes(key, data) {
                Ok(v) => {
                    assert(key_result(rest[0], data@) == Some(v@));
                    assert(first_working(rest, data@) == Some(v@));
                    return Ok(v);
                },
                Err(_) => {
                    assert(key_result(rest[0], data@) is None);
                },
            }
            i = i + 1;
        }
        assert(ks.subrange(ks.len() as int, ks.len() as int) =~= Seq::<Seq<u8>>::empty());
        Err(E::DecryptionFailed)
    }

    /// Decrypts `data` with `key` and returns the first entry of the archive
    /// that the plaintext holds.
    pub fn with_key_bytes(&self, key: &[u8], data: &[u8]) -> (r: Result<Vec<u8>, E>)
        requires
            4 <= key@.len() <= 56,
        ensures
            data@.len() % 8 != 0 ==> r matches Err(E::NonEightRead),
            data@.len() % 8 == 0 ==> match zip_first_entry(plaintext(key@, data@)) {
                Some(v) => r matches Ok(x) && x@ == v,
                None => r matches Err(E::DecryptionFailed),
            },
    {
        let mut zipfile: Vec<u8> = Vec::new();
        decrypt_into(key, data, &mut zipfile)?;
        assert(zipfile@ =~= plaintext(key@, data@));
        match read_first_entry(zipfile) {
            Ok(v) => Ok(v),
            Err(_) => Err(E::DecryptionFailed),
        }
    }

    /// Whether `key` decrypts `data` to an archive with a readable first entry.
    pub fn can_decrypt(&self, key: &[u8], data: &[u8]) -> (r: bool)
        requires
            4 <= key@.len() <= 56,
        ensures
            r == (key_result(key@, data@) is Some),
    {
        self.with_key_bytes(key, data).is_ok()
    }
}

} // verus!
