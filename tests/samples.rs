use rpodlib::emit::emit;
use rpodlib::error::DbError;
use rpodlib::fixup::{fix_lengths, get_record_size, write_to_buffer};
use rpodlib::hash58::{canonicalize, decode_fwid, stored_hash, write_hash, HASH_LEN, HASH_OFFSET};
use rpodlib::itunesdb::{List, ObjectType};
use rpodlib::parse::parse;
use rpodlib::record::{
    Data, DataObject, Database, ItemKind, ListBody, Record, SetType, Utf16String,
};

const FWID: &str = "000A270013E10993";

fn put(buf: &mut [u8], at: usize, v: u32) {
    buf[at..at + 4].copy_from_slice(&v.to_le_bytes());
}

/// A record with the given tag and header size, a few header words set, a
/// recognisable filler in the rest of the header, and `body` after it.
fn record(tag: &[u8; 4], header_len: usize, words: &[(usize, u32)], body: &[u8]) -> Vec<u8> {
    let mut h = vec![0u8; header_len];
    for (i, b) in h.iter_mut().enumerate().skip(12) {
        *b = (i % 7) as u8;
    }
    h[0..4].copy_from_slice(tag);
    put(&mut h, 4, header_len as u32);
    put(&mut h, 8, (header_len + body.len()) as u32);
    for &(at, v) in words {
        put(&mut h, at, v);
    }
    h.extend_from_slice(body);
    h
}

/// A list record: tag, header length, child count, then the children.
fn list(tag: &[u8; 4], children: &[Vec<u8>]) -> Vec<u8> {
    let mut h = vec![0u8; 92];
    h[0..4].copy_from_slice(tag);
    put(&mut h, 4, 92);
    put(&mut h, 8, children.len() as u32);
    for c in children {
        h.extend_from_slice(c);
    }
    h
}

fn container(list_type: u32, list: Vec<u8>) -> Vec<u8> {
    record(b"mhsd", 96, &[(12, list_type)], &list)
}

fn string_object(data_type: u32, text: &str) -> Vec<u8> {
    let units: Vec<u8> = text.encode_utf16().flat_map(|u| u.to_le_bytes()).collect();
    let mut body = Vec::new();
    body.extend_from_slice(&1u32.to_le_bytes());
    body.extend_from_slice(&(units.len() as u32).to_le_bytes());
    body.extend_from_slice(&[0u8; 8]);
    body.extend_from_slice(&units);
    let mut r = record(b"mhod", 24, &[(12, data_type)], &body);
    r[16..24].fill(0);
    r
}

fn url_object(data_type: u32, url: &str) -> Vec<u8> {
    let mut body = vec![0u8; 8];
    body.extend_from_slice(url.as_bytes());
    record(b"mhod", 24, &[(12, data_type)], &body)
}

fn concat(parts: &[Vec<u8>]) -> Vec<u8> {
    parts.iter().flatten().copied().collect()
}

fn load_sample_file() -> Vec<u8> {
    let track_children = [
        string_object(1, "Hello"),
        string_object(4, "Artist"),
        url_object(16, "http://example.com/feed.xml"),
        record(b"mhod", 24, &[(12, 17)], &[1, 2, 3, 4, 5]),
    ];
    let track = record(b"mhit", 624, &[(12, 4)], &concat(&track_children));
    let entry = record(b"mhip", 76, &[(12, 0)], &[]);
    let playlist_children = [string_object(1, "Library")];
    let playlist = record(
        b"mhyp",
        184,
        &[(12, 1), (16, 1)],
        &concat(&[concat(&playlist_children), entry]),
    );
    let album = record(b"mhia", 88, &[(12, 1)], &string_object(3, "Album"));
    let sets = [
        container(1, list(b"mhlt", &[track])),
        container(2, list(b"mhlp", &[playlist])),
        container(3, list(b"mhlp", &[])),
        container(4, list(b"mhla", &[album])),
        container(5, list(b"mhlp", &[])),
    ];
    let mut db = record(b"mhbd", 244, &[(20, sets.len() as u32)], &concat(&sets));
    for i in 0..HASH_LEN {
        db[HASH_OFFSET + i] = 0xA0 + i as u8;
    }
    db[0x18..0x20].copy_from_slice(&0x1122_3344_5566_7788u64.to_le_bytes());
    db
}

fn load_artwork_file() -> Vec<u8> {
    let name = string_object(3, ":F1000_1.ithmb");
    let image = record(b"mhii", 152, &[(12, 1)], &name);
    let file = record(b"mhif", 124, &[(12, 0)], &[]);
    let sets = [
        container(1, list(b"mhli", &[image])),
        container(2, list(b"mhla", &[])),
        container(3, list(b"mhlf", &[file])),
    ];
    record(b"mhfd", 132, &[(20, sets.len() as u32)], &concat(&sets))
}

fn master_children(r: &Record) -> &Vec<Record> {
    match r {
        Record::Master(m) => &m.children,
        _ => panic!("not a master record"),
    }
}

fn first_track(r: &mut Record) -> &mut rpodlib::record::Item {
    match r {
        Record::Master(m) => match &mut m.children[0] {
            Record::ListContainer(c) => match &mut c.list {
                ListBody::Typed(_, l) => match &mut l.children[0] {
                    Record::Item(i) => i,
                    _ => panic!("no track"),
                },
                _ => panic!("no track list"),
            },
            _ => panic!("no container"),
        },
        _ => panic!("no master"),
    }
}

fn record_len(r: &Record) -> u32 {
    match r {
        Record::Master(m) => m.len,
        Record::ListContainer(c) => c.len,
        Record::Item(i) => i.len,
        Record::Playlist(p) => p.len,
        Record::DataObject(d) => d.len,
        Record::Unimplemented(u) => u.len,
    }
}

fn children_of(r: &Record) -> Vec<&Record> {
    match r {
        Record::Master(m) => m.children.iter().collect(),
        Record::ListContainer(c) => match &c.list {
            ListBody::Typed(_, l) => l.children.iter().collect(),
            ListBody::Opaque(_) => Vec::new(),
        },
        Record::Item(i) => i.children.iter().collect(),
        Record::Playlist(p) => p.children.iter().chain(p.entries.iter()).collect(),
        _ => Vec::new(),
    }
}

fn check_lengths(r: &Record) {
    assert_eq!(record_len(r) as usize, emit(r).len());
    for c in children_of(r) {
        check_lengths(c);
    }
}

#[test]
fn get_sample_file() {
    let sample_bytes = load_sample_file();
    assert!(sample_bytes.len() > 0)
}

#[test]
fn parse_itdb() {
    let bytes = load_sample_file();
    let root = parse(&bytes).expect("failed");
    let mut kinds = Vec::new();
    match &root {
        Record::Master(mhbd) => {
            assert!(mhbd.db == Database::ITunes);
            for mhsd in &mhbd.children {
                if let Record::ListContainer(c) = mhsd {
                    if let ListBody::Typed(SetType::Itunes(kind), _) = &c.list {
                        kinds.push(*kind);
                    }
                }
            }
        }
        _ => panic!("no master record"),
    }
    assert_eq!(
        kinds,
        vec![List::Tracks, List::Playlists, List::Podcasts, List::Albums, List::InclSmartPlaylists]
    );
}

#[test]
fn header_test_itdb() {
    let bytes = load_sample_file();
    let root = parse(&bytes).expect("failed");
    match &root {
        Record::Master(m) => {
            assert_eq!(m.header.len(), 244 - 12);
            assert_eq!(m.len as usize, bytes.len());
            assert_eq!(m.children.len(), 5);
        }
        _ => panic!("no master record"),
    }
}

#[test]
fn tr_binrw_test_itdb() {
    let bytes = load_sample_file();
    assert!(parse(&bytes).is_ok(), "failed to parse");
}

#[test]
fn mod_test_itdb() {
    let bytes = load_sample_file();
    let mut root = parse(&bytes).expect("failed");
    let track = first_track(&mut root);
    assert!(track.kind == ItemKind::Track);
    let mut titles = Vec::new();
    let mut urls = Vec::new();
    for obj in &track.children {
        if let Record::DataObject(d) = obj {
            match (&d.object, &d.data) {
                (ObjectType::Title, Data::String(s)) => titles.push(s.to_string().unwrap()),
                (ObjectType::PodcastRssUrl, Data::PodcastUrl(u)) => urls.push(u.to_string().unwrap().to_owned()),
                _ => {}
            }
        }
    }
    assert_eq!(titles, vec!["Hello".to_string()]);
    assert_eq!(urls, vec!["http://example.com/feed.xml".to_string()]);
}

#[test]
fn test_artworkdb() {
    let bytes = load_artwork_file();
    let root = parse(&bytes).expect("failed");
    match &root {
        Record::Master(m) => {
            assert!(m.db == Database::Artwork);
            assert_eq!(m.children.len(), 3);
        }
        _ => panic!("no master record"),
    }
}

#[test]
fn parse_artworkdb() {
    let bytes = load_artwork_file();
    let root = parse(&bytes).expect("failed");
    let sets: Vec<u32> = master_children(&root)
        .iter()
        .map(|c| match c {
            Record::ListContainer(c) => match &c.list {
                ListBody::Typed(t, l) => {
                    assert!(l.children.iter().all(|r| matches!(r, Record::Unimplemented(_))));
                    t.as_id()
                }
                ListBody::Opaque(_) => 0,
            },
            _ => 0,
        })
        .collect();
    assert_eq!(sets, vec![1, 2, 3]);
}

/// Takes the stored digest out, canonicalises, and writes it back with the
/// device id: the file comes back unchanged.
fn hash_window_round_trip(bytes: &[u8]) {
    let stored = stored_hash(bytes).expect("failed to hash database");
    assert_eq!(stored.len(), 20);
    assert_eq!(&stored[..], &bytes[HASH_OFFSET..HASH_OFFSET + HASH_LEN]);
    let canon = canonicalize(bytes).expect("failed to hash database");
    assert!(canon[HASH_OFFSET..HASH_OFFSET + HASH_LEN].iter().all(|&b| b == 0));
    assert!(canon[0x18..0x20].iter().all(|&b| b == 0));
    assert_eq!(canon[..0x18], bytes[..0x18]);
    assert_eq!(canon[0x6C..], bytes[0x6C..]);
    let mut again = canon.clone();
    let digest: [u8; 20] = stored.try_into().unwrap();
    let id = u64::from_le_bytes(bytes[0x18..0x20].try_into().unwrap());
    write_hash(&mut again, &digest, Some(id)).unwrap();
    assert_eq!(again, bytes);
}

#[test]
fn io_test_hash58() {
    assert_eq!(
        decode_fwid(FWID).unwrap(),
        vec![0x00, 0x0A, 0x27, 0x00, 0x13, 0xE1, 0x09, 0x93]
    );
    hash_window_round_trip(&load_sample_file());
}

#[test]
fn mod_test_hash58() {
    let bytes = load_sample_file();
    let root = parse(&bytes).unwrap();
    let written = write_to_buffer(root);
    hash_window_round_trip(&written);
    assert_eq!(written, bytes);
}

#[test]
fn round_trip_both_samples() {
    for bytes in [load_sample_file(), load_artwork_file()] {
        let root = parse(&bytes).unwrap();
        assert_eq!(emit(&root), bytes);
    }
}

#[test]
fn every_len_matches_emitted_size() {
    for bytes in [load_sample_file(), load_artwork_file()] {
        check_lengths(&parse(&bytes).unwrap());
    }
}

#[test]
fn counts_come_from_lists() {
    let bytes = load_sample_file();
    let mut root = parse(&bytes).unwrap();
    let track = first_track(&mut root);
    track.children.pop();
    let out = emit(&root);
    let reparsed = parse(&out);
    assert!(reparsed.is_err(), "stale len words must not parse");
    let mut root = parse(&bytes).unwrap();
    first_track(&mut root).children.pop();
    fix_lengths(&mut root);
    let out = emit(&root);
    let mut again = parse(&out).unwrap();
    assert_eq!(first_track(&mut again).children.len(), 3);
    let at = 244 + 96 + 92 + 12;
    assert_eq!(u32::from_le_bytes(out[at..at + 4].try_into().unwrap()), 3);
}

#[test]
fn record_size_is_structural() {
    let bytes = load_sample_file();
    let mut root = parse(&bytes).unwrap();
    assert_eq!(get_record_size(&root), Some(bytes.len() as u32));
    first_track(&mut root).children.pop();
    assert_eq!(get_record_size(&root), Some(bytes.len() as u32 - 29));
    assert_eq!(get_record_size(root.child(2)), Some(96 + 92));
}

#[test]
fn fix_lengths_twice_is_once() {
    let mut root = parse(&load_sample_file()).unwrap();
    let track = first_track(&mut root);
    track.children.pop();
    track.len = 7;
    let first_size = fix_lengths(&mut root);
    let once = emit(&root);
    let second_size = fix_lengths(&mut root);
    assert_eq!(emit(&root), once);
    assert_eq!(first_size, second_size);
    assert_eq!(first_size as usize, once.len());
}

#[test]
fn insert_grows_every_ancestor() {
    let bytes = load_sample_file();
    let mut root = parse(&bytes).unwrap();
    let before_root = record_len(&root);
    let (before_set, before_track) = match &root {
        Record::Master(m) => {
            let set = &m.children[0];
            let track = match set {
                Record::ListContainer(c) => match &c.list {
                    ListBody::Typed(_, l) => record_len(&l.children[0]),
                    _ => unreachable!(),
                },
                _ => unreachable!(),
            };
            (record_len(set), track)
        }
        _ => unreachable!(),
    };
    let child = Record::DataObject(DataObject {
        header: vec![0u8; 12],
        len: 0,
        object: ObjectType::Comment,
        data: Data::String(Utf16String::new(1, "new comment")),
    });
    let mut sized = child;
    let added = fix_lengths(&mut sized);
    assert_eq!(added as usize, 24 + 16 + 2 * "new comment".len());
    let track_record = match &mut root {
        Record::Master(m) => match &mut m.children[0] {
            Record::ListContainer(c) => match &mut c.list {
                ListBody::Typed(_, l) => &mut l.children[0],
                _ => unreachable!(),
            },
            _ => unreachable!(),
        },
        _ => unreachable!(),
    };
    let before_children = track_record.child_count();
    assert!(track_record.push_child(sized));
    assert_eq!(track_record.child_count(), before_children + 1);
    fix_lengths(&mut root);
    assert_eq!(record_len(&root), before_root + added);
    match &root {
        Record::Master(m) => {
            let set = &m.children[0];
            assert_eq!(record_len(set), before_set + added);
            match set {
                Record::ListContainer(c) => match &c.list {
                    ListBody::Typed(_, l) => {
                        assert_eq!(record_len(&l.children[0]), before_track + added)
                    }
                    _ => unreachable!(),
                },
                _ => unreachable!(),
            }
        }
        _ => unreachable!(),
    }
    check_lengths(&root);
}

#[test]
fn walker_visits_children_in_order() {
    let root = parse(&load_sample_file()).unwrap();
    assert_eq!(root.child_count(), 5);
    let playlists = root.child(1);
    assert_eq!(playlists.child_count(), 1);
    let playlist = playlists.child(0);
    assert!(matches!(playlist, Record::Playlist(_)));
    assert_eq!(playlist.child_count(), 2);
    assert!(matches!(playlist.child(0), Record::DataObject(_)));
    assert!(matches!(playlist.child(1), Record::Item(i) if i.kind == ItemKind::PlaylistEntry));
    let track = root.child(0).child(0);
    let kinds: Vec<u32> = (0..track.child_count())
        .map(|i| match track.child(i) {
            Record::DataObject(d) => d.object.as_id(),
            _ => 0,
        })
        .collect();
    assert_eq!(kinds, vec![1, 4, 16, 17]);
    assert_eq!(track.child(0).child_count(), 0);
}

#[test]
fn push_child_only_where_there_is_a_list() {
    let mut root = parse(&load_sample_file()).unwrap();
    let mut leaf = Record::DataObject(DataObject::new(ObjectType::Genre, Data::Blob(vec![])));
    let extra = Record::DataObject(DataObject::new(ObjectType::Genre, Data::Blob(vec![])));
    assert!(!leaf.push_child(extra));
    let extra = Record::DataObject(DataObject::new(ObjectType::Genre, Data::Blob(vec![1])));
    assert!(root.push_child(extra));
    assert_eq!(root.child_count(), 6);
}

#[test]
fn new_data_object_has_plain_header() {
    let d = DataObject::new(ObjectType::Album, Data::String(Utf16String::new(1, "A")));
    assert_eq!(d.header, vec![3, 0, 0, 0, 0, 0, 0, 0, 0, 0, 0, 0]);
    let mut r = Record::DataObject(d);
    assert_eq!(fix_lengths(&mut r), 24 + 16 + 2);
    assert_eq!(emit(&r).len(), 42);
}

#[test]
fn unknown_tag_is_kept_as_bytes() {
    let mut odd = record(b"mhzz", 20, &[], &[9, 8, 7]);
    odd[12..20].copy_from_slice(&[1, 2, 3, 4, 5, 6, 7, 8]);
    let bytes = record(b"mhbd", 244, &[(20, 1)], &container(1, odd));
    let root = parse(&bytes).unwrap();
    match &master_children(&root)[0] {
        Record::ListContainer(c) => match &c.list {
            ListBody::Opaque(u) => {
                assert_eq!(u.magic, u32::from_le_bytes(*b"mhzz"));
                assert_eq!(u.header_len, 20);
                assert_eq!(u.len, 23);
                assert_eq!(u.bytes, vec![1, 2, 3, 4, 5, 6, 7, 8, 9, 8, 7]);
            }
            _ => panic!("expected an opaque record"),
        },
        _ => panic!("expected a container"),
    }
    assert_eq!(emit(&root), bytes);
}

#[test]
fn unknown_child_of_track_is_kept() {
    let odd = record(b"mhqq", 16, &[], &[4, 4]);
    let track = record(b"mhit", 624, &[(12, 1)], &odd);
    let bytes = record(b"mhbd", 244, &[(20, 1)], &container(1, list(b"mhlt", &[track])));
    let mut root = parse(&bytes).unwrap();
    assert!(matches!(first_track(&mut root).children[0], Record::Unimplemented(_)));
    assert_eq!(emit(&root), bytes);
}

#[test]
fn utf16_hello_decodes_and_reencodes() {
    let payload = b"H\0e\0l\0l\0o\0".to_vec();
    let s = Utf16String { position: 1, unk_0x08: 0, unk_0x0c: 0, string_data: payload.clone() };
    assert_eq!(s.to_string().unwrap(), "Hello");
    assert_eq!(Utf16String::new(1, "Hello").string_data, payload);
    let bytes = record(
        b"mhbd",
        244,
        &[(20, 1)],
        &container(1, list(b"mhlt", &[record(b"mhit", 624, &[(12, 1)], &string_object(1, "Hello"))])),
    );
    let mut root = parse(&bytes).unwrap();
    match &first_track(&mut root).children[0] {
        Record::DataObject(d) => match &d.data {
            Data::String(s) => {
                assert_eq!(s.string_data, payload);
                assert_eq!(s.to_string().unwrap(), "Hello");
            }
            _ => panic!("expected a string"),
        },
        _ => panic!("expected a data object"),
    }
    assert_eq!(emit(&root), bytes);
}

#[test]
fn truncation_never_parses() {
    for bytes in [load_sample_file(), load_artwork_file()] {
        for k in 0..bytes.len() {
            match parse(&bytes[..k]) {
                Err(DbError::ShortRead { .. }) | Err(DbError::LengthMismatch { .. }) => {}
                other => panic!("cut at {} gave {:?}", k, other.map(|_| ())),
            }
        }
    }
}

#[test]
fn trailing_bytes_are_refused() {
    let mut bytes = load_sample_file();
    bytes.push(0);
    assert!(matches!(parse(&bytes), Err(DbError::LengthMismatch { .. })));
}

#[test]
fn bad_tags_and_discriminants() {
    let mut bytes = load_sample_file();
    bytes[0..4].copy_from_slice(b"mhxx");
    assert_eq!(parse(&bytes).err(), Some(DbError::UnknownMagic { offset: 0 }));

    let bad_type = record(b"mhbd", 244, &[(20, 1)], &container(9, list(b"mhlt", &[])));
    assert!(matches!(parse(&bad_type), Err(DbError::BadDiscriminant { .. })));

    let mismatched = record(b"mhbd", 244, &[(20, 1)], &container(2, list(b"mhlt", &[])));
    assert!(matches!(parse(&mismatched), Err(DbError::BadDiscriminant { .. })));

    let odd_object = record(b"mhod", 24, &[(12, 10)], &[]);
    let track = record(b"mhit", 624, &[(12, 1)], &odd_object);
    let bytes = record(b"mhbd", 244, &[(20, 1)], &container(1, list(b"mhlt", &[track])));
    assert!(matches!(parse(&bytes), Err(DbError::BadDiscriminant { .. })));
}

#[test]
fn odd_utf16_length_is_malformed() {
    let mut body = Vec::new();
    body.extend_from_slice(&1u32.to_le_bytes());
    body.extend_from_slice(&3u32.to_le_bytes());
    body.extend_from_slice(&[0u8; 8]);
    body.extend_from_slice(b"H\0e");
    let obj = record(b"mhod", 24, &[(12, 1)], &body);
    let track = record(b"mhit", 624, &[(12, 1)], &obj);
    let bytes = record(b"mhbd", 244, &[(20, 1)], &container(1, list(b"mhlt", &[track])));
    assert!(matches!(parse(&bytes), Err(DbError::MalformedString { .. })));
}

#[test]
fn count_past_remaining_bytes_overflows() {
    let track = record(b"mhit", 624, &[(12, 1000)], &[]);
    let bytes = record(b"mhbd", 244, &[(20, 1)], &container(1, list(b"mhlt", &[track])));
    assert!(matches!(parse(&bytes), Err(DbError::CountOverflow { .. })));
}

#[test]
fn children_short_of_len_mismatch() {
    let track = record(b"mhit", 624, &[(12, 0)], &[0u8; 12]);
    let bytes = record(b"mhbd", 244, &[(20, 1)], &container(1, list(b"mhlt", &[track])));
    assert!(matches!(parse(&bytes), Err(DbError::LengthMismatch { .. })));
}

#[test]
fn short_input_is_short_read() {
    assert_eq!(parse(&[]).err(), Some(DbError::ShortRead { offset: 0 }));
    assert_eq!(parse(b"mhbd").err(), Some(DbError::ShortRead { offset: 0 }));
}

fn bare_hello_mhod() -> Vec<u8> {
    let mut b = Vec::new();
    b.extend_from_slice(b"mhod");
    for w in [24u32, 50, 1] {
        b.extend_from_slice(&w.to_le_bytes());
    }
    b.extend_from_slice(&[0u8; 8]);
    for w in [1u32, 10, 0, 0] {
        b.extend_from_slice(&w.to_le_bytes());
    }
    b.extend_from_slice(b"H\0e\0l\0l\0o\0");
    b
}

#[test]
fn bare_record_parses_and_rewrites() {
    let b = bare_hello_mhod();
    assert_eq!(b.len(), 50);
    let r = parse(&b).unwrap();
    match &r {
        Record::DataObject(d) => {
            assert_eq!(d.len, 50);
            assert_eq!(d.object, ObjectType::Title);
            match &d.data {
                Data::String(s) => {
                    assert_eq!(s.position, 1);
                    assert_eq!(s.string_data, b"H\0e\0l\0l\0o\0".to_vec());
                    assert_eq!(s.to_string().unwrap(), "Hello");
                }
                _ => panic!("expected a string"),
            }
        }
        _ => panic!("expected a data object"),
    }
    assert_eq!(write_to_buffer(r), b);
}

#[test]
fn bare_track_parses() {
    let track = record(b"mhit", 624, &[(12, 1)], &string_object(1, "Hello"));
    let r = parse(&track).unwrap();
    assert!(matches!(&r, Record::Item(i) if i.kind == ItemKind::Track));
    assert_eq!(emit(&r), track);
}

#[test]
fn unrecognised_root_is_unknown_magic() {
    let odd = record(b"mhzz", 16, &[], &[]);
    assert_eq!(parse(&odd).err(), Some(DbError::UnknownMagic { offset: 0 }));
    let list_only = list(b"mhlt", &[]);
    assert_eq!(parse(&list_only).err(), Some(DbError::UnknownMagic { offset: 0 }));
}

#[test]
fn bare_record_faults_have_their_kinds() {
    let mut odd = bare_hello_mhod();
    odd[28..32].copy_from_slice(&9u32.to_le_bytes());
    assert!(matches!(parse(&odd), Err(DbError::MalformedString { .. })));

    let crowded = record(b"mhit", 624, &[(12, 5)], &[0u8; 40]);
    assert!(matches!(parse(&crowded), Err(DbError::CountOverflow { .. })));

    let short = record(b"mhia", 88, &[(12, 0)], &[0u8; 20]);
    assert!(matches!(parse(&short), Err(DbError::LengthMismatch { .. })));

    let mismatched = container(1, list(b"mhlp", &[]));
    assert!(matches!(parse(&mismatched), Err(DbError::BadDiscriminant { .. })));

    let mut master = record(b"mhbd", 244, &[(20, 3)], &[0u8; 30]);
    master[20..24].copy_from_slice(&3u32.to_le_bytes());
    assert!(matches!(parse(&master), Err(DbError::CountOverflow { .. })));
}
