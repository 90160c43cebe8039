use rpodlib::artworkdb;
use rpodlib::artworkdb::Utf16IthmbName;
use rpodlib::error::DbError;
use rpodlib::hash58::{canonicalize, check_hash, decode_fwid, stored_hash, write_hash};
use rpodlib::itunesdb::{DataObjectHeader, List, ObjectType};
use rpodlib::record::{Database, PodcastUrlObj, SetType, Utf16String};
use rpodlib::util::{byte_diffs, ByteCounter, SeekError, SeekFrom};

#[test]
fn fwid_decodes_to_eight_bytes() {
    assert_eq!(
        decode_fwid("000A270013E10993").unwrap(),
        vec![0x00, 0x0A, 0x27, 0x00, 0x13, 0xE1, 0x09, 0x93]
    );
    assert_eq!(decode_fwid("ffffffffffffffff").unwrap(), vec![0xFF; 8]);
}

#[test]
fn bad_fwids_are_refused() {
    assert_eq!(decode_fwid(""), Err(DbError::BadFirmwareId));
    assert_eq!(decode_fwid("000A270013E1099"), Err(DbError::BadFirmwareId));
    assert_eq!(decode_fwid("000A270013E109930"), Err(DbError::BadFirmwareId));
    assert_eq!(decode_fwid("000A270013E1099G"), Err(DbError::BadFirmwareId));
}

#[test]
fn canonical_copy_zeroes_two_windows() {
    let db: Vec<u8> = (0..0x80u32).map(|i| (i as u8) | 1).collect();
    let c = canonicalize(&db).unwrap();
    for i in 0..db.len() {
        let zero = (0x18..0x20).contains(&i) || (0x58..0x6C).contains(&i);
        assert_eq!(c[i], if zero { 0 } else { db[i] }, "offset {}", i);
    }
    assert_eq!(canonicalize(&db[..0x6B]), Err(DbError::ShortRead { offset: 0x6B }));
    assert_eq!(stored_hash(&db[..0x10]), Err(DbError::ShortRead { offset: 0x10 }));
}

#[test]
fn hash_is_written_and_checked() {
    let mut db = vec![0x55u8; 0x100];
    let digest: [u8; 20] = core::array::from_fn(|i| i as u8 + 1);
    write_hash(&mut db, &digest, None).unwrap();
    assert_eq!(&db[0x58..0x6C], &digest[..]);
    assert_eq!(&db[0x18..0x20], &[0u8; 8]);
    assert_eq!(db[0x57], 0x55);
    assert_eq!(db[0x6C], 0x55);
    assert_eq!(check_hash(&db, &digest), Ok(()));
    let mut other = digest;
    other[19] ^= 1;
    assert_eq!(check_hash(&db, &other), Err(DbError::HashMismatch));
    write_hash(&mut db, &digest, Some(0x0102_0304_0506_0708)).unwrap();
    assert_eq!(&db[0x18..0x20], &[8, 7, 6, 5, 4, 3, 2, 1]);
    let mut short = vec![0u8; 0x20];
    assert_eq!(write_hash(&mut short, &digest, None), Err(DbError::ShortRead { offset: 0x20 }));
    assert_eq!(short, vec![0u8; 0x20]);
    assert_eq!(check_hash(&short, &digest), Err(DbError::ShortRead { offset: 0x20 }));
}

#[test]
fn counter_counts_writes_and_seeks() {
    let mut c = ByteCounter::new();
    assert_eq!(c.bytes(), 0);
    assert_eq!(c.write(&[1, 2, 3]), 3);
    assert_eq!(c.write(&[]), 0);
    c.flush();
    assert_eq!(c.bytes(), 3);
    assert_eq!(c.seek(SeekFrom::Current(5)), Ok(8));
    assert_eq!(c.bytes(), 8);
    assert_eq!(c.seek(SeekFrom::End(-2)), Ok(6));
    assert_eq!(c.bytes(), 8);
    assert_eq!(c.seek(SeekFrom::Start(100)), Ok(100));
    assert_eq!(c.bytes(), 100);
    assert_eq!(c.seek(SeekFrom::Current(-101)), Err(SeekError::InvalidInput));
    assert_eq!(c.bytes(), 100);
    assert_eq!(c.seek(SeekFrom::Start(u64::MAX)), Err(SeekError::InvalidInput));
    assert_eq!(c.seek(SeekFrom::Start(0)), Ok(0));
    assert_eq!(c.bytes(), 100);
    assert_eq!(c.write(&[0; 10]), 10);
    assert_eq!(c.bytes(), 100);
    assert_eq!(c.seek(SeekFrom::End(0)), Ok(100));
    assert_eq!(c.write(&[0; 5]), 5);
    assert_eq!(c.bytes(), 105);
}

#[test]
fn diffs_list_differing_offsets() {
    let a = [1u8, 2, 3, 4, 5];
    let b = [1u8, 9, 3, 8];
    assert_eq!(byte_diffs(&a, &b), vec![(1, 2, 9), (3, 4, 8)]);
    assert_eq!(byte_diffs(&a, &a), vec![]);
    assert_eq!(byte_diffs(&[], &a), vec![]);
}

#[test]
fn list_kinds_have_their_ids() {
    let all = [List::Tracks, List::Playlists, List::Podcasts, List::Albums, List::InclSmartPlaylists];
    for (i, l) in all.iter().enumerate() {
        assert_eq!(l.as_u32(), i as u32 + 1);
        assert_eq!(List::from_u32(i as u32 + 1), Some(*l));
    }
    assert_eq!(List::from_u32(0), None);
    assert_eq!(List::from_u32(6), None);
    assert_eq!(artworkdb::List::Files.as_u32(), 3);
    assert_eq!(artworkdb::List::from_u32(4), None);
    assert_eq!(SetType::Itunes(List::Albums).as_id(), 4);
    assert_eq!(SetType::Artwork(artworkdb::List::Images).as_id(), 1);
    assert_eq!(SetType::from_id(Database::ITunes, 3), Some(SetType::Itunes(List::Podcasts)));
    assert_eq!(SetType::from_id(Database::Artwork, 4), None);
    assert_eq!(SetType::Itunes(List::Podcasts).list_magic(), u32::from_le_bytes(*b"mhlp"));
    assert_eq!(SetType::Artwork(artworkdb::List::Files).list_magic(), u32::from_le_bytes(*b"mhlf"));
}

#[test]
fn object_types_round_trip_their_ids() {
    let mut n = 0;
    for id in 0..=300u32 {
        if let Some(t) = ObjectType::from_id(id) {
            assert_eq!(t.as_id(), id);
            n += 1;
        }
    }
    assert_eq!(n, 41);
    assert_eq!(ObjectType::Title.as_id(), 1);
    assert_eq!(ObjectType::TvShowInAlbumList.as_id(), 204);
    assert_eq!(ObjectType::from_id(26), None);
    assert_eq!(ObjectType::Copyright.header_kind(), DataObjectHeader::String);
    assert_eq!(ObjectType::Subtitle.header_kind(), DataObjectHeader::String);
    assert_eq!(ObjectType::PodcastEnclosureUrl.header_kind(), DataObjectHeader::PodcastUrl);
    assert_eq!(ObjectType::JumpTable.header_kind(), DataObjectHeader::Unimplemented);
}

#[test]
fn text_payloads_decode() {
    let url = PodcastUrlObj { unk_0x00: 0, unk_0x04: 0, string_data: b"http://a.b/c".to_vec() };
    assert_eq!(url.to_string().unwrap(), "http://a.b/c");
    let bad = PodcastUrlObj { unk_0x00: 0, unk_0x04: 0, string_data: vec![0xFF, 0xFE] };
    assert_eq!(bad.to_string(), Err(DbError::MalformedString { offset: 0 }));
    let late = PodcastUrlObj { unk_0x00: 0, unk_0x04: 0, string_data: b"abc\xC3".to_vec() };
    assert_eq!(late.to_string(), Err(DbError::MalformedString { offset: 3 }));
    let nul = PodcastUrlObj { unk_0x00: 0, unk_0x04: 0, string_data: b"a\0".to_vec() };
    assert_eq!(nul.to_string().unwrap().as_bytes(), b"a\0");
    let lone = Utf16String { position: 0, unk_0x08: 0, unk_0x0c: 0, string_data: vec![0x00, 0xD8] };
    assert_eq!(lone.to_string(), Err(DbError::MalformedString { offset: 0 }));
    let odd = Utf16String { position: 0, unk_0x08: 0, unk_0x0c: 0, string_data: vec![0x41] };
    assert!(matches!(odd.to_string(), Err(DbError::MalformedString { .. })));
    let s = Utf16String::new(7, "h\u{e9}\u{1F600}");
    assert_eq!(s.position, 7);
    assert_eq!(s.string_data, vec![0x68, 0, 0xE9, 0, 0x3D, 0xD8, 0x00, 0xDE]);
    assert_eq!(s.to_string().unwrap(), "h\u{e9}\u{1F600}");
}

#[test]
fn ithmb_name_decodes() {
    let name = ":F1000_1.ithmb";
    let data: Vec<u8> = name.encode_utf16().flat_map(|u| u.to_le_bytes()).collect();
    let n = Utf16IthmbName { unk_0x10: 0, unk_0x14: 0, unk_0x1c: 0, unk_0x20: 0, string_data: data };
    assert_eq!(n.to_string().unwrap(), name);
    let odd = Utf16IthmbName { unk_0x10: 0, unk_0x14: 0, unk_0x1c: 0, unk_0x20: 0, string_data: vec![0x41, 0, 0x42] };
    assert_eq!(odd.to_string(), Err(DbError::MalformedString { offset: 3 }));
}
