//! The device-bound checksum of an `iTunesDB`: everything around the keyed
//! digest itself, which callers compute over `canonicalize`'s output.
use vstd::prelude::*;

use vstd::string::StringSliceAdditionalSpecFns;

use crate::error::DbError;

verus! {

/// Where the 20-byte digest is stored in the master header.
pub const HASH_OFFSET: usize = 0x58;
/// Length of the digest.
pub const HASH_LEN: usize = 20;
/// Where the 8-byte device id is stored in the master header.
pub const DEVICE_ID_OFFSET: usize = 0x18;
/// Length of the device id.
pub const DEVICE_ID_LEN: usize = 8;

/// A database must reach past the digest window to carry a checksum.
pub open spec fn hash_end() -> int {
    HASH_OFFSET + HASH_LEN
}

/// Offset `i` lies in one of the two windows that do not enter the digest.
pub open spec fn in_windows(i: int) -> bool {
    (DEVICE_ID_OFFSET <= i < DEVICE_ID_OFFSET + DEVICE_ID_LEN) || (HASH_OFFSET <= i < hash_end())
}

/// `b` with the device-id and digest windows zeroed.
pub open spec fn canonical(b: Seq<u8>) -> Seq<u8> {
    Seq::new(b.len(), |i: int| if in_windows(i) { 0u8 } else { b[i] })
}

/// An ASCII hexadecimal digit, either case.
pub open spec fn is_hex_digit(c: u8) -> bool {
    (0x30 <= c <= 0x39) || (0x41 <= c <= 0x46) || (0x61 <= c <= 0x66)
}

/// The value of a hexadecimal digit.
pub open spec fn hex_value(c: u8) -> int {
    if 0x30 <= c <= 0x39 {
        c - 0x30
    } else if 0x41 <= c <= 0x46 {
        c - 0x41 + 10
    } else {
        c - 0x61 + 10
    }
}

/// Sixteen hexadecimal digits.
pub open spec fn is_fwid(t: Seq<u8>) -> bool {
    t.len() == 16 && forall|i: int| 0 <= i < 16 ==> #[trigger] is_hex_digit(t[i])
}

/// The eight bytes that sixteen hexadecimal digits spell, high digit first.
pub open spec fn fwid_bytes(t: Seq<u8>) -> Seq<u8> {
    Seq::new(8, |i: int| (hex_value(t[2 * i]) * 16 + hex_value(t[2 * i + 1])) as u8)
}

/// The little-endian bytes of a device id.
pub open spec fn le64(v: u64) -> Seq<u8> {
    Seq::new(8, |i: int| ((v >> (8 * i) as u64) & 0xff) as u8)
}

/// `b` with the digest window holding `digest` and the device-id window
/// holding `id`.
pub open spec fn with_hash(b: Seq<u8>, digest: Seq<u8>, id: Seq<u8>) -> Seq<u8> {
    Seq::new(
        b.len(),
        |i: int|
            if HASH_OFFSET <= i < hash_end() {
                digest[i - HASH_OFFSET]
            } else if DEVICE_ID_OFFSET <= i < DEVICE_ID_OFFSET + DEVICE_ID_LEN {
                id[i - DEVICE_ID_OFFSET]
            } else {
                b[i]
            },
    )
}

fn hex_digit(c: u8) -> (r: Option<u8>)
    ensures
        r is Some <==> is_hex_digit(c),
        r matches Some(v) ==> v == hex_value(c) && v < 16,
{
    if 0x30 <= c && c <= 0x39 {
        Some(c - 0x30)
    } else if 0x41 <= c && c <= 0x46 {
        Some(c - 0x41 + 10)
    } else if 0x61 <= c && c <= 0x66 {
        Some(c - 0x61 + 10)
    } else {
        None
    }
}

/// Decodes a firmware id written as 16 hexadecimal digits into its 8 bytes.
pub fn decode_fwid(fwid: &str) -> (r: Result<Vec<u8>, DbError>)
    ensures
        r is Ok <==> is_fwid(fwid.spec_bytes()),
        r matches Ok(v) ==> v@ == fwid_bytes(fwid.spec_bytes()),
        r matches Err(e) ==> e == DbError::BadFirmwareId,
{
    let t = fwid.as_bytes();
    if t.len() != 16 {
        return Err(DbError::BadFirmwareId);
    }
    let mut out: Vec<u8> = Vec::new();
    let mut i: usize = 0;
    while i < 8
        invariant
            t@ == fwid.spec_bytes(),
            t@.len() == 16,
            i <= 8,
            out@.len() == i,
            forall|k: int| 0 <= k < 2 * i ==> #[trigger] is_hex_digit(t@[k]),
            forall|k: int| 0 <= k < i ==> #[trigger] out@[k] == fwid_bytes(t@)[k],
        decreases 8 - i,
    {
        let hi = match hex_digit(t[2 * i]) {
            Some(v) => v,
            None => {
                return Err(DbError::BadFirmwareId);
            },
        };
        let lo = match hex_digit(t[2 * i + 1]) {
            Some(v) => v,
            None => {
                return Err(DbError::BadFirmwareId);
            },
        };
        out.push(hi * 16 + lo);
        i = i + 1;
    }
    assert(out@ =~= fwid_bytes(t@));
    Ok(out)
}

/// A copy of the database with the device-id and digest windows zeroed: the
/// bytes that the digest is computed over.
pub fn canonicalize(db: &[u8]) -> (r: Result<Vec<u8>, DbError>)
    ensures
        r is Ok <==> db@.len() >= hash_end(),
        r matches Ok(v) ==> v@ == canonical(db@),
        r matches Err(e) ==> e == (DbError::ShortRead { offset: db@.len() as usize }),
{
    let n = db.len();
    if n < HASH_OFFSET + HASH_LEN {
        return Err(DbError::ShortRead { offset: n });
    }
    let mut out: Vec<u8> = Vec::new();
    let mut i: usize = 0;
    while i < n
        invariant
            n == db@.len(),
            i <= n,
            out@.len() == i,
            forall|k: int| 0 <= k < i ==> #[trigger] out@[k] == canonical(db@)[k],
        decreases n - i,
    {
        let in_window = (DEVICE_ID_OFFSET <= i && i < DEVICE_ID_OFFSET + DEVICE_ID_LEN) || (
        HASH_OFFSET <= i && i < HASH_OFFSET + HASH_LEN);
        if in_window {
            out.push(0);
        } else {
            out.push(db[i]);
        }
        i = i + 1;
    }
    assert(out@ =~= canonical(db@));
    Ok(out)
}

/// The digest stored in the database.
pub fn stored_hash(db: &[u8]) -> (r: Result<Vec<u8>, DbError>)
    ensures
        r is Ok <==> db@.len() >= hash_end(),
        r matches Ok(v) ==> v@ == db@.subrange(HASH_OFFSET as int, hash_end()),
        r matches Err(e) ==> e == (DbError::ShortRead { offset: db@.len() as usize }),
{
    let n = db.len();
    if n < HASH_OFFSET + HASH_LEN {
        return Err(DbError::ShortRead { offset: n });
    }
    Ok(crate::bytes::copy_range(db, HASH_OFFSET, HASH_OFFSET + HASH_LEN))
}

/// Writes `digest` into the digest window and the device id into its window
/// (the encoding of 0, eight zero bytes, when there is none).
pub fn write_hash(db: &mut Vec<u8>, digest: &[u8; 20], device_id: Option<u64>) -> (r: Result<
    (),
    DbError,
>)
    ensures
        r is Ok <==> old(db)@.len() >= hash_end(),
        r is Ok ==> final(db)@ == with_hash(
            old(db)@,
            digest@,
            le64(
                match device_id {
                    Some(id) => id,
                    None => 0,
                },
            ),
        ),
        r is Err ==> final(db)@ == old(db)@,
{
    let n = db.len();
    if n < HASH_OFFSET + HASH_LEN {
        return Err(DbError::ShortRead { offset: n });
    }
    let ghost orig = db@;
    let mut i: usize = 0;
    while i < HASH_LEN
        invariant
            db@.len() == n,
            n == orig.len(),
            n >= hash_end(),
            i <= HASH_LEN,
            forall|k: int|
                0 <= k < n ==> #[trigger] db@[k] == if HASH_OFFSET <= k < HASH_OFFSET + i {
                    digest@[k - HASH_OFFSET]
                } else {
                    orig[k]
                },
        decreases HASH_LEN - i,
    {
        db.set(HASH_OFFSET + i, digest[i]);
        i = i + 1;
    }
    let id: u64 = match device_id {
        Some(v) => v,
        None => 0,
    };
    let ghost id_bytes = le64(id);
    let mut j: usize = 0;
    while j < DEVICE_ID_LEN
        invariant
            db@.len() == n,
            n == orig.len(),
            n >= hash_end(),
            j <= DEVICE_ID_LEN,
            id_bytes == le64(id),
            forall|k: int|
                0 <= k < n ==> #[trigger] db@[k] == if HASH_OFFSET <= k < hash_end() {
                    digest@[k - HASH_OFFSET]
                } else if DEVICE_ID_OFFSET <= k < DEVICE_ID_OFFSET + j {
                    id_bytes[k - DEVICE_ID_OFFSET]
                } else {
                    orig[k]
                },
        decreases DEVICE_ID_LEN - j,
    {
        let byte = (#[verifier::truncate] (((id >> (8 * j) as u64) & 0xff) as u8));
        db.set(DEVICE_ID_OFFSET + j, byte);
        j = j + 1;
    }
    assert(db@ =~= with_hash(orig, digest@, id_bytes));
    Ok(())
}

proof fn lemma_or_xor_zero(d: u8, a: u8, b: u8)
    ensures
        (d | (a ^ b)) == 0 <==> (d == 0 && a == b),
{
    assert((d | (a ^ b)) == 0 <==> (d == 0 && a == b)) by (bit_vector);
}

/// Compares the stored digest with `computed`, looking at every byte
/// whatever the earlier ones held.
pub fn check_hash(db: &[u8], computed: &[u8; 20]) -> (r: Result<(), DbError>)
    ensures
        db@.len() < hash_end() ==> r == Err::<(), DbError>(
            DbError::ShortRead { offset: db@.len() as usize },
        ),
        db@.len() >= hash_end() ==> (r is Ok <==> db@.subrange(HASH_OFFSET as int, hash_end())
            == computed@),
        db@.len() >= hash_end() && r is Err ==> r == Err::<(), DbError>(DbError::HashMismatch),
{
    let n = db.len();
    if n < HASH_OFFSET + HASH_LEN {
        return Err(DbError::ShortRead { offset: n });
    }
    let mut diff: u8 = 0;
    let mut i: usize = 0;
    while i < HASH_LEN
        invariant
            n == db@.len(),
            n >= hash_end(),
            i <= HASH_LEN,
            computed@.len() == HASH_LEN,
            diff == 0 <==> forall|k: int| 0 <= k < i ==> db@[HASH_OFFSET + k] == computed@[k],
        decreases HASH_LEN - i,
    {
        proof {
            lemma_or_xor_zero(diff, db@[HASH_OFFSET + i], computed@[i as int]);
        }
        diff = diff | (db[HASH_OFFSET + i] ^ computed[i]);
        i = i + 1;
    }
    if diff == 0 {
        assert(db@.subrange(HASH_OFFSET as int, hash_end()) =~= computed@);
        Ok(())
    } else {
        assert(exists|k: int| 0 <= k < HASH_LEN && db@[HASH_OFFSET + k] != computed@[k]);
        Err(DbError::HashMismatch)
    }
}

} // verus!
