//! Reading a record tree from bytes.
use vstd::prelude::*;

use crate::bytes::{
    copy_range, le32, lemma_le32_u32_at, lemma_patch32_same, lemma_u32_at_le32, lemma_u32_at_left,
    lemma_u32_at_right, patch32, read_u32, u32_at,
};
use crate::emit::lemma_counts_match_lists;
use crate::error::DbError;
use crate::itunesdb::{DataObjectHeader, ObjectType};
use crate::record::{
    all_well_sized, all_wf, encode, encode_data, encode_seq, encode_unimplemented, frame,
    lemma_all_well_sized, lemma_all_wf, counts_stored, all_counts_stored,
    Data, DataObject, Database, Item, ItemKind, ListBody, ListContainer, Master, Playlist,
    PodcastUrlObj, Record, RecordList, SetType, Unimplemented, Utf16String, well_sized, wf,
    data_wf, is_list_id,
    MHBD, MHFD, MHIA, MHIP, MHIT, MHLA, MHLF, MHLI, MHLP, MHLT, MHOD, MHSD, MHYP,
};

verus! {

/// The `len` word of the record at the start of `b`.
pub open spec fn declared_len(b: Seq<u8>) -> u32 {
    u32_at(b, 8)
}

/// The tag at the start of `b` opens a record that `parse` reads: a master
/// record, or a typed record of the `iTunesDB` tree.
pub open spec fn has_root_magic(b: Seq<u8>) -> bool {
    u32_at(b, 0) == MHBD || u32_at(b, 0) == MHFD || is_known_tag(Database::ITunes, u32_at(b, 0))
}

/// An error's offset lies within an input of `n` bytes.
pub open spec fn offset_within(e: DbError, n: int) -> bool {
    match e {
        DbError::UnknownMagic { offset } => offset <= n,
        DbError::BadDiscriminant { offset } => offset <= n,
        DbError::ShortRead { offset } => offset <= n,
        DbError::LengthMismatch { offset } => offset <= n,
        DbError::MalformedString { offset } => offset <= n,
        DbError::CountOverflow { offset } => offset <= n,
        _ => true,
    }
}

proof fn lemma_frame_read(b: Seq<u8>, start: int, header: Seq<u8>)
    requires
        0 <= start,
        start + 12 <= b.len(),
        12 + header.len() == u32_at(b, start + 4),
    ensures
        frame(u32_at(b, start), header, u32_at(b, start + 8)) == b.subrange(start, start + 12),
{
    lemma_le32_u32_at(b, start);
    lemma_le32_u32_at(b, start + 4);
    lemma_le32_u32_at(b, start + 8);
    assert(frame(u32_at(b, start), header, u32_at(b, start + 8)) =~= b.subrange(
        start,
        start + 12,
    ));
}

/// A tag that the parser reads as a typed record inside a tree of `db`;
/// any other tag is kept as an `Unimplemented` record.
pub open spec fn is_known_tag(db: Database, magic: u32) -> bool {
    magic == MHSD || (db == Database::ITunes && (magic == MHIT || magic == MHIA || magic == MHIP
        || magic == MHYP || magic == MHOD))
}

/// A list tag of `db`.
pub open spec fn is_list_tag(db: Database, magic: u32) -> bool {
    match db {
        Database::ITunes => magic == MHLT || magic == MHLP || magic == MHLA,
        Database::Artwork => magic == MHLI || magic == MHLA || magic == MHLF,
    }
}

/// The form in which a record below the root of a `db` tree is read back:
/// typed records where the tag is known to `db`, opaque ones elsewhere.
pub open spec fn readable(r: Record, db: Database) -> bool
    decreases r,
{
    match r {
        Record::Master(_) => false,
        Record::ListContainer(c) => match c.list {
            ListBody::Typed(t, l) => t.database() == db && all_readable(l.children@, db),
            ListBody::Opaque(u) => !is_list_tag(db, u.magic),
        },
        Record::Item(i) => db == Database::ITunes && all_readable(i.children@, db),
        Record::Playlist(p) => db == Database::ITunes && all_readable(p.children@, db)
            && all_readable(p.entries@, db),
        Record::DataObject(_) => db == Database::ITunes,
        Record::Unimplemented(u) => !is_known_tag(db, u.magic),
    }
}

/// Every record of `s` is in readable form.
pub open spec fn all_readable(s: Seq<Record>, db: Database) -> bool
    decreases s,
{
    s.len() == 0 || (all_readable(s.drop_last(), db) && readable(s.last(), db))
}

/// A master record whose subtree is in readable form, written with exact
/// lengths: what `parse` reads back.
pub open spec fn readable_root(r: Record) -> bool {
    match r {
        Record::Master(m) => wf(r) && well_sized(r) && all_readable(m.children@, m.db),
        _ => false,
    }
}

/// `rec` is written at `start` in `b`, ending by `limit`.
pub open spec fn lies_at(b: Seq<u8>, start: int, limit: int, rec: Record, db: Database) -> bool {
    &&& wf(rec)
    &&& well_sized(rec)
    &&& readable(rec, db)
    &&& 0 <= start
    &&& start + encode(rec).len() <= limit
    &&& start + encode(rec).len() <= b.len()
    &&& b.subrange(start, start + encode(rec).len()) == encode(rec)
}

/// The records of `s` are written one after another from `pos`, ending by `end`.
pub open spec fn seq_lies_at(b: Seq<u8>, pos: int, end: int, s: Seq<Record>, db: Database) -> bool {
    &&& all_wf(s)
    &&& all_well_sized(s)
    &&& all_readable(s, db)
    &&& 0 <= pos
    &&& pos + encode_seq(s).len() <= end
    &&& pos + encode_seq(s).len() <= b.len()
    &&& b.subrange(pos, pos + encode_seq(s).len()) == encode_seq(s)
}

/// The tag a record is written with.
pub open spec fn tag_of(r: Record) -> u32 {
    match r {
        Record::Master(m) => m.db.magic(),
        Record::ListContainer(_) => MHSD,
        Record::Item(i) => i.kind.magic(),
        Record::Playlist(_) => MHYP,
        Record::DataObject(_) => MHOD,
        Record::Unimplemented(u) => u.magic,
    }
}

/// The header bytes after the first three words of a typed record.
pub open spec fn header_of(r: Record) -> Seq<u8> {
    match r {
        Record::Master(m) => m.header@,
        Record::ListContainer(c) => c.header@,
        Record::Item(i) => i.header@,
        Record::Playlist(p) => p.header@,
        Record::DataObject(d) => d.header@,
        Record::Unimplemented(u) => u.bytes@,
    }
}

proof fn lemma_all_readable(s: Seq<Record>, db: Database)
    ensures
        all_readable(s, db) ==> forall|i: int| 0 <= i < s.len() ==> #[trigger] readable(s[i], db),
    decreases s.len(),
{
    if s.len() > 0 {
        lemma_all_readable(s.drop_last(), db);
        if all_readable(s, db) {
            assert forall|i: int| 0 <= i < s.len() implies #[trigger] readable(s[i], db) by {
                if i < s.len() - 1 {
                    assert(readable(s.drop_last()[i], db));
                }
            }
        }
    }
}

proof fn lemma_encode_min(r: Record)
    ensures
        encode(r).len() >= 12,
{
    match r {
        Record::Master(_) => {},
        Record::ListContainer(c) => match c.list {
            ListBody::Typed(_, _) => {},
            ListBody::Opaque(_) => {},
        },
        Record::Item(_) => {},
        Record::Playlist(_) => {},
        Record::DataObject(_) => {},
        Record::Unimplemented(_) => {},
    }
}

proof fn lemma_encode_seq_min(s: Seq<Record>)
    ensures
        encode_seq(s).len() >= 12 * s.len(),
    decreases s.len(),
{
    if s.len() > 0 {
        lemma_encode_seq_min(s.drop_last());
        lemma_encode_min(s.last());
    }
}

/// Writing two lists one after the other writes their concatenation.
proof fn lemma_encode_seq_append(a: Seq<Record>, b: Seq<Record>)
    ensures
        encode_seq(a + b) == encode_seq(a) + encode_seq(b),
    decreases b.len(),
{
    if b.len() == 0 {
        assert(a + b =~= a);
        assert(encode_seq(a) + encode_seq(b) =~= encode_seq(a));
    } else {
        lemma_encode_seq_append(a, b.drop_last());
        assert((a + b).drop_last() =~= a + b.drop_last());
        assert(encode_seq(a + b) =~= encode_seq(a) + encode_seq(b));
    }
}

proof fn lemma_encode_seq_split(s: Seq<Record>, i: int)
    requires
        0 <= i < s.len(),
    ensures
        encode_seq(s) == encode_seq(s.subrange(0, i)) + encode(s[i]) + encode_seq(
            s.subrange(i + 1, s.len() as int),
        ),
        encode_seq(s.subrange(0, i + 1)) == encode_seq(s.subrange(0, i)) + encode(s[i]),
{
    let a = s.subrange(0, i + 1);
    let c = s.subrange(i + 1, s.len() as int);
    assert(s =~= a + c);
    lemma_encode_seq_append(a, c);
    assert(a.drop_last() =~= s.subrange(0, i));
}

/// A piece of the encoding lies at the matching place in the input.
proof fn lemma_piece(b: Seq<u8>, pos: int, whole: Seq<u8>, off: int, len: int)
    requires
        0 <= pos,
        0 <= off,
        0 <= len,
        off + len <= whole.len(),
        pos + whole.len() <= b.len(),
        b.subrange(pos, pos + whole.len()) == whole,
    ensures
        b.subrange(pos + off, pos + off + len) == whole.subrange(off, off + len),
        forall|k: int| 0 <= k && k + 4 <= whole.len() ==> #[trigger] u32_at(b, pos + k) == u32_at(
            whole,
            k,
        ),
{
    assert(b.subrange(pos + off, pos + off + len) =~= whole.subrange(off, off + len));
    assert forall|k: int| 0 <= k && k + 4 <= whole.len() implies #[trigger] u32_at(b, pos + k)
        == u32_at(whole, k) by {
        assert(b[pos + k] == whole[k]);
        assert(b[pos + k + 1] == whole[k + 1]);
        assert(b[pos + k + 2] == whole[k + 2]);
        assert(b[pos + k + 3] == whole[k + 3]);
    }
}

/// The first three words of bytes that open with three encoded words.
proof fn lemma_three_words(x: u32, y: u32, z: u32, rest: Seq<u8>)
    ensures
        u32_at(le32(x) + le32(y) + le32(z) + rest, 0) == x,
        u32_at(le32(x) + le32(y) + le32(z) + rest, 4) == y,
        u32_at(le32(x) + le32(y) + le32(z) + rest, 8) == z,
        (le32(x) + le32(y) + le32(z) + rest).len() == 12 + rest.len(),
{
    let a = le32(x);
    let bb = le32(y);
    let c = le32(z);
    lemma_u32_at_le32(x);
    lemma_u32_at_le32(y);
    lemma_u32_at_le32(z);
    lemma_u32_at_left(a + bb + c, rest, 0);
    lemma_u32_at_left(a + bb + c, rest, 4);
    lemma_u32_at_left(a + bb + c, rest, 8);
    lemma_u32_at_left(a + bb, c, 0);
    lemma_u32_at_left(a + bb, c, 4);
    lemma_u32_at_left(a, bb, 0);
    lemma_u32_at_right(a, bb, 0);
    lemma_u32_at_right(a + bb, c, 0);
}

/// The stored `len` word of a record.
pub open spec fn len_of(r: Record) -> u32 {
    match r {
        Record::Master(m) => m.len,
        Record::ListContainer(c) => c.len,
        Record::Item(i) => i.len,
        Record::Playlist(p) => p.len,
        Record::DataObject(d) => d.len,
        Record::Unimplemented(u) => u.len,
    }
}

/// What the first three words of a record's encoding hold.
proof fn lemma_record_words(r: Record)
    requires
        wf(r),
    ensures
        encode(r).len() >= 12,
        u32_at(encode(r), 0) == tag_of(r),
        u32_at(encode(r), 8) == len_of(r),
        !(r is Unimplemented) ==> u32_at(encode(r), 4) == 12 + header_of(r).len()
            && encode(r).len() >= 12 + header_of(r).len() && header_of(r).len() >= 4,
{
    let e = encode(r);
    let rest = e.subrange(12, e.len() as int);
    match r {
        Record::Unimplemented(u) => {
            assert(e =~= le32(u.magic) + le32(u.header_len) + le32(u.len) + u.bytes@);
            lemma_three_words(u.magic, u.header_len, u.len, u.bytes@);
        },
        _ => {
            let h = header_of(r);
            assert(e.len() >= 12 + h.len());
            assert(e =~= le32(tag_of(r)) + le32((12 + h.len()) as u32) + le32(len_of(r)) + rest);
            lemma_three_words(tag_of(r), (12 + h.len()) as u32, len_of(r), rest);
        },
    }
}

/// What the words at the start of a readable record tell about it.
proof fn lemma_lies_at(b: Seq<u8>, start: int, limit: int, rec: Record, db: Database)
    requires
        lies_at(b, start, limit, rec, db),
    ensures
        encode(rec).len() >= 12,
        start + 12 <= b.len(),
        u32_at(b, start) == tag_of(rec),
        u32_at(b, start + 8) == encode(rec).len(),
        (rec is Unimplemented) <==> !is_known_tag(db, tag_of(rec)),
        !(rec is Unimplemented) ==> u32_at(b, start + 4) == 12 + header_of(rec).len() && 12
            + header_of(rec).len() <= encode(rec).len() && header_of(rec).len() >= 4,
        rec is Item ==> tag_of(rec) != MHSD && tag_of(rec) != MHYP && tag_of(rec) != MHOD,
        !(rec is Master),
{
    let e = encode(rec);
    lemma_record_words(rec);
    lemma_piece(b, start, e, 0, 0);
    assert(u32_at(b, start) == u32_at(e, 0));
    assert(u32_at(b, start + 8) == u32_at(e, 8));
    if !(rec is Unimplemented) {
        assert(u32_at(b, start + 4) == u32_at(e, 4));
    }
}

/// Where an item's words and children lie in the input.
proof fn lemma_item_parts(b: Seq<u8>, start: int, end: int, rec: Record, db: Database)
    requires
        lies_at(b, start, end, rec, db),
        rec is Item,
    ensures
        ({
            let i = rec->Item_0;
            &&& u32_at(b, start + 4) == 12 + i.header@.len()
            &&& u32_at(b, start + 12) == i.children@.len()
            &&& start + encode(rec).len() == start + 12 + i.header@.len() + encode_seq(
                i.children@,
            ).len()
            &&& seq_lies_at(b, start + 12 + i.header@.len(), end, i.children@, db)
        }),
{
    let i = rec->Item_0;
    let e = encode(rec);
    let off = 12 + i.header@.len() as int;
    lemma_lies_at(b, start, end, rec, db);
    lemma_counts_match_lists(rec);
    lemma_piece(b, start, e, off, encode_seq(i.children@).len() as int);
    assert(e.subrange(off, e.len() as int) =~= encode_seq(i.children@));
}

/// Where a playlist's words and two lists lie in the input.
proof fn lemma_playlist_parts(b: Seq<u8>, start: int, end: int, rec: Record, db: Database)
    requires
        lies_at(b, start, end, rec, db),
        rec is Playlist,
    ensures
        ({
            let p = rec->Playlist_0;
            let mid = start + 12 + p.header@.len() + encode_seq(p.children@).len();
            &&& u32_at(b, start + 4) == 12 + p.header@.len()
            &&& u32_at(b, start + 12) == p.children@.len()
            &&& u32_at(b, start + 16) == p.entries@.len()
            &&& start + encode(rec).len() == mid + encode_seq(p.entries@).len()
            &&& seq_lies_at(b, start + 12 + p.header@.len(), end, p.children@, db)
            &&& seq_lies_at(b, mid, end, p.entries@, db)
        }),
{
    let p = rec->Playlist_0;
    let e = encode(rec);
    let off = 12 + p.header@.len() as int;
    let c = encode_seq(p.children@);
    let cl = c.len() as int;
    lemma_lies_at(b, start, end, rec, db);
    lemma_counts_match_lists(rec);
    lemma_piece(b, start, e, off, c.len() as int);
    lemma_piece(b, start, e, off + cl, encode_seq(p.entries@).len() as int);
    assert(e.subrange(off, off + cl) =~= c);
    assert(e.subrange(off + cl, e.len() as int) =~= encode_seq(p.entries@));
}

/// Where a data object's words and payload lie in the input.
proof fn lemma_data_parts(b: Seq<u8>, start: int, end: int, rec: Record)
    requires
        lies_at(b, start, end, rec, Database::ITunes),
        rec is DataObject,
    ensures
        ({
            let d = rec->DataObject_0;
            let hend = start + 12 + d.header@.len();
            &&& u32_at(b, start + 4) == 12 + d.header@.len()
            &&& u32_at(b, start + 12) == d.object.id()
            &&& start + encode(rec).len() == hend + encode_data(d.data).len()
            &&& (d.data matches Data::String(x) ==> u32_at(b, hend + 4) == x.string_data@.len()
                && x.string_data@.len() % 2 == 0 && encode_data(d.data).len() == 16
                + x.string_data@.len())
            &&& (d.data matches Data::PodcastUrl(x) ==> encode_data(d.data).len() == 8
                + x.string_data@.len())
        }),
{
    let d = rec->DataObject_0;
    let e = encode(rec);
    let off = 12 + d.header@.len() as int;
    lemma_lies_at(b, start, end, rec, Database::ITunes);
    lemma_piece(b, start, e, 0, 0);
    let h = patch32(d.header@, 0, d.object.id());
    let f = frame(MHOD, d.header@, d.len);
    crate::bytes::lemma_u32_at_patch32(d.header@, 0, d.object.id());
    lemma_u32_at_right(f, h, 0);
    lemma_u32_at_left(f + h, encode_data(d.data), 12);
    match d.data {
        Data::String(x) => {
            let w = le32(x.position) + le32(x.string_data@.len() as u32) + le32(x.unk_0x08)
                + le32(x.unk_0x0c) + x.string_data@;
            lemma_three_words(x.position, x.string_data@.len() as u32, x.unk_0x08, le32(x.unk_0x0c) + x.string_data@);
            assert(w =~= le32(x.position) + le32(x.string_data@.len() as u32) + le32(x.unk_0x08) + (le32(x.unk_0x0c) + x.string_data@));
            lemma_u32_at_right(f + h, encode_data(d.data), 4);
        },
        _ => {},
    }
}

/// A playlist read from its parts is written as those parts.
#[verifier::rlimit(100)]
proof fn lemma_playlist_bytes(b: Seq<u8>, start: int, hend: int, mid: int, end: int, p: Playlist)
    requires
        0 <= start,
        start + 12 <= hend <= mid <= end <= b.len(),
        p.header@.len() >= 8,
        frame(MHYP, p.header@, p.len) == b.subrange(start, start + 12),
        p.header@ == b.subrange(start + 12, hend),
        u32_at(p.header@, 0) == p.children@.len(),
        u32_at(p.header@, 4) == p.entries@.len(),
        encode_seq(p.children@) == b.subrange(hend, mid),
        encode_seq(p.entries@) == b.subrange(mid, end),
    ensures
        encode(Record::Playlist(p)) == b.subrange(start, end),
{
    let h = p.header@;
    lemma_patch32_same(h, 0);
    lemma_patch32_same(h, 4);
    let hp = patch32(patch32(h, 0, p.children@.len() as u32), 4, p.entries@.len() as u32);
    assert(hp == h);
    let f = frame(MHYP, h, p.len);
    let cs = encode_seq(p.children@);
    let es = encode_seq(p.entries@);
    assert(encode(Record::Playlist(p)) == f + hp + cs + es);
    assert(b.subrange(start, end) =~= b.subrange(start, start + 12) + b.subrange(start + 12, hend)
        + b.subrange(hend, mid) + b.subrange(mid, end));
}

/// Where a container's words, its list's words and the list's children lie
/// in the input.
#[verifier::rlimit(50)]
proof fn lemma_container_parts(b: Seq<u8>, start: int, end: int, rec: Record, db: Database)
    requires
        lies_at(b, start, end, rec, db),
        rec is ListContainer,
    ensures
        ({
            let c = rec->ListContainer_0;
            let hend = start + 12 + c.header@.len();
            &&& u32_at(b, start + 4) == 12 + c.header@.len()
            &&& c.header@.len() >= 4
            &&& start + encode(rec).len() >= hend + 12
            &&& (c.list matches ListBody::Typed(t, l) ==> {
                &&& t.database() == db
                &&& u32_at(b, start + 12) == t.id()
                &&& u32_at(b, hend) == t.magic()
                &&& u32_at(b, hend + 4) == 12 + l.header@.len()
                &&& u32_at(b, hend + 8) == l.children@.len()
                &&& start + encode(rec).len() == hend + 12 + l.header@.len() + encode_seq(
                    l.children@,
                ).len()
                &&& seq_lies_at(b, hend + 12 + l.header@.len(), end, l.children@, db)
            })
            &&& (c.list matches ListBody::Opaque(u) ==> {
                &&& !is_list_tag(db, u.magic)
                &&& u32_at(b, hend) == u.magic
                &&& u32_at(b, hend + 8) == u.len
                &&& u.len == 12 + u.bytes@.len()
                &&& start + encode(rec).len() == hend + 12 + u.bytes@.len()
            })
        }),
{
    let c = rec->ListContainer_0;
    let e = encode(rec);
    let hl = 12 + c.header@.len() as int;
    lemma_lies_at(b, start, end, rec, db);
    lemma_piece(b, start, e, 0, 0);
    let front = e.subrange(0, hl);
    let rest = e.subrange(hl, e.len() as int);
    assert(e =~= front + rest);
    assert forall|k: int| 0 <= k && k + 4 <= rest.len() implies #[trigger] u32_at(b, start + hl + k)
        == u32_at(rest, k) by {
        lemma_u32_at_right(front, rest, k);
        assert(u32_at(b, start + (hl + k)) == u32_at(e, hl + k));
    }
    match c.list {
        ListBody::Typed(t, l) => {
            let n = l.children@.len() as u32;
            let es = encode_seq(l.children@);
            let f = frame(MHSD, c.header@, c.len);
            let h = patch32(c.header@, 0, t.id());
            assert(rest =~= le32(t.magic()) + le32((12 + l.header@.len()) as u32) + le32(n) + (
            l.header@ + es));
            lemma_three_words(t.magic(), (12 + l.header@.len()) as u32, n, l.header@ + es);
            crate::bytes::lemma_u32_at_patch32(c.header@, 0, t.id());
            assert(e =~= f + (h + (frame(t.magic(), l.header@, n) + l.header@ + es)));
            lemma_u32_at_right(f, h + (frame(t.magic(), l.header@, n) + l.header@ + es), 0);
            lemma_u32_at_left(h, frame(t.magic(), l.header@, n) + l.header@ + es, 0);
            assert(u32_at(b, start + 12) == u32_at(e, 12));
            let off = hl + 12 + l.header@.len() as int;
            lemma_piece(b, start, e, off, es.len() as int);
            assert(e.subrange(off, e.len() as int) =~= es);
        },
        ListBody::Opaque(u) => {
            assert(rest =~= le32(u.magic) + le32(u.header_len) + le32(u.len) + u.bytes@);
            lemma_three_words(u.magic, u.header_len, u.len, u.bytes@);
        },
    }
}

/// Where a master record's words and children lie in its encoding.
proof fn lemma_master_parts(rec: Record)
    requires
        readable_root(rec),
    ensures
        ({
            let m = rec->Master_0;
            let e = encode(rec);
            &&& e.len() >= 12
            &&& u32_at(e, 0) == m.db.magic()
            &&& u32_at(e, 4) == 12 + m.header@.len()
            &&& u32_at(e, 8) == e.len()
            &&& m.header@.len() >= 12
            &&& u32_at(e, 20) == m.children@.len()
            &&& e.len() == 12 + m.header@.len() + encode_seq(m.children@).len()
            &&& seq_lies_at(e, 12 + m.header@.len() as int, e.len() as int, m.children@, m.db)
        }),
{
    let m = rec->Master_0;
    let e = encode(rec);
    let off = 12 + m.header@.len() as int;
    lemma_record_words(rec);
    lemma_counts_match_lists(rec);
    assert(e.subrange(off, off + encode_seq(m.children@).len()) =~= encode_seq(m.children@));
}

/// A master record spanning `b` counts more children than its remaining
/// bytes could hold, at 12 bytes each.
pub open spec fn master_count_overflow(b: Seq<u8>) -> bool {
    &&& (u32_at(b, 0) == MHBD || u32_at(b, 0) == MHFD)
    &&& frame_sound(b, 0, b.len() as int, 24)
    &&& u32_at(b, 20) > (b.len() - u32_at(b, 4)) / 12
}

/// The record at `start` has a length word and ends by `limit`.
pub open spec fn end_by(b: Seq<u8>, start: int, limit: int) -> bool {
    start + 12 <= limit && start + u32_at(b, start + 8) <= limit
}

/// The record at `start` opens with sound frame words: its length word
/// `end - start` is at least 12, and its header length lies in `[min, end - start]`.
pub open spec fn frame_sound(b: Seq<u8>, start: int, end: int, min: int) -> bool {
    &&& 0 <= start
    &&& start + 12 <= end <= b.len()
    &&& u32_at(b, start + 8) == end - start
    &&& min <= u32_at(b, start + 4) <= end - start
}

/// A data object at `start` whose data type calls for a UTF-16 string, with
/// room for the string prefix, declares an odd string byte length.
pub open spec fn odd_string_at(b: Seq<u8>, start: int, end: int) -> bool {
    let hend = start + u32_at(b, start + 4);
    &&& u32_at(b, start) == MHOD
    &&& frame_sound(b, start, end, 16)
    &&& exists|t: ObjectType| t.id() == u32_at(b, start + 12) && t.layout() == DataObjectHeader::String
    &&& end - hend >= 16
    &&& u32_at(b, hend + 4) % 2 == 1
}

/// An item at `start` (a track, album or playlist entry) counts more
/// children than its remaining bytes could hold, at 12 bytes each.
pub open spec fn count_overflow_at(b: Seq<u8>, start: int, end: int) -> bool {
    let tag = u32_at(b, start);
    let hend = start + u32_at(b, start + 4);
    &&& (tag == MHIT || tag == MHIA || tag == MHIP)
    &&& frame_sound(b, start, end, 16)
    &&& u32_at(b, start + 12) > (end - hend) / 12
}

/// An item at `start` counts no children but declares bytes past its header.
pub open spec fn children_short_at(b: Seq<u8>, start: int, end: int) -> bool {
    let tag = u32_at(b, start);
    &&& (tag == MHIT || tag == MHIA || tag == MHIP)
    &&& frame_sound(b, start, end, 16)
    &&& u32_at(b, start + 12) == 0
    &&& u32_at(b, start + 4) < end - start
}

/// A container at `start` wraps a list tag of `db` that no list type of `db`
/// with its stored list-type value is written with.
pub open spec fn list_mismatch_at(b: Seq<u8>, start: int, end: int, db: Database) -> bool {
    let hend = start + u32_at(b, start + 4);
    &&& u32_at(b, start) == MHSD
    &&& frame_sound(b, start, end, 16)
    &&& end - hend >= 12
    &&& is_list_tag(db, u32_at(b, hend))
    &&& !(exists|t: SetType|
        t.database() == db && t.id() == u32_at(b, start + 12) && t.magic() == u32_at(b, hend))
}

/// A list tag of the given database.
fn is_list_magic(db: Database, magic: u32) -> (r: bool)
    ensures
        r == is_list_tag(db, magic),
{
    match db {
        Database::ITunes => magic == MHLT || magic == MHLP || magic == MHLA,
        Database::Artwork => magic == MHLI || magic == MHLA || magic == MHLF,
    }
}

/// Reads `count` records one after another from `pos`, none reaching past `end`.
fn parse_children(b: &[u8], pos: usize, end: usize, count: u32, db: Database) -> (r: Result<
    (Vec<Record>, usize),
    DbError,
>)
    requires
        pos <= end <= b@.len(),
    ensures
        r matches Err(e) ==> offset_within(e, b@.len() as int),
        count > (end - pos) / 12 ==> r matches Err(DbError::CountOverflow { .. }),
        count == 0 ==> (r matches Ok((_, next)) && next == pos),
        r matches Ok((v, next)) ==> pos <= next <= end && v@.len() == count && all_wf(v@)
            && all_well_sized(v@) && all_counts_stored(v@) && encode_seq(v@) == b@.subrange(
            pos as int,
            next as int,
        ),
        forall|s: Seq<Record>|
            #[trigger] seq_lies_at(b@, pos as int, end as int, s, db) && s.len() == count ==> (
            r matches Ok((_, next)) && next == pos + encode_seq(s).len()),
    decreases end - pos, 2nat,
{
    if count as usize > (end - pos) / 12 {
        proof {
            assert forall|s: Seq<Record>|
                #[trigger] seq_lies_at(b@, pos as int, end as int, s, db) && s.len()
                    == count implies false by {
                lemma_encode_seq_min(s);
                let x = (end - pos) as int;
                let c = count as int;
                assert(c <= x / 12) by (nonlinear_arith)
                    requires
                        12 * c <= x,
                        0 <= c,
                ;
            }
        }
        return Err(DbError::CountOverflow { offset: pos });
    }
    let mut v: Vec<Record> = Vec::new();
    let mut p: usize = pos;
    let mut i: u32 = 0;
    assert(encode_seq(v@) =~= b@.subrange(pos as int, p as int));
    proof {
        assert forall|s: Seq<Record>|
            #[trigger] seq_lies_at(b@, pos as int, end as int, s, db) && s.len() == count implies p
            == pos + encode_seq(s.subrange(0, 0)).len() by {
            assert(s.subrange(0, 0) =~= Seq::<Record>::empty());
        }
    }
    while i < count
        invariant
            pos <= p <= end,
            end <= b@.len(),
            count <= (end - pos) / 12,
            v@.len() == i,
            i <= count,
            all_wf(v@),
            all_well_sized(v@),
            all_counts_stored(v@),
            encode_seq(v@) == b@.subrange(pos as int, p as int),
            forall|s: Seq<Record>|
                #[trigger] seq_lies_at(b@, pos as int, end as int, s, db) && s.len() == count ==> p
                    == pos + encode_seq(s.subrange(0, i as int)).len(),
        decreases count - i,
    {
        let res = parse_record(b, p, end, db);
        proof {
            assert forall|s: Seq<Record>|
                #[trigger] seq_lies_at(b@, pos as int, end as int, s, db) && s.len()
                    == count implies (res matches Ok((_, q)) && q == p + encode(s[i as int]).len()) by {
                lemma_all_wf(s);
                lemma_all_well_sized(s);
                lemma_all_readable(s, db);
                lemma_encode_seq_split(s, i as int);
                let pre = encode_seq(s.subrange(0, i as int));
                let x = encode(s[i as int]);
                let whole = encode_seq(s);
                lemma_piece(b@, pos as int, whole, pre.len() as int, x.len() as int);
                assert(whole.subrange(pre.len() as int, (pre.len() + x.len()) as int) =~= x);
                assert(lies_at(b@, p as int, end as int, s[i as int], db));
            }
        }
        match res {
            Ok((rec, q)) => {
                let ghost before = v@;
                v.push(rec);
                assert(v@.drop_last() =~= before);
                assert(b@.subrange(pos as int, q as int) =~= b@.subrange(pos as int, p as int)
                    + b@.subrange(p as int, q as int));
                proof {
                    assert forall|s: Seq<Record>|
                        #[trigger] seq_lies_at(b@, pos as int, end as int, s, db) && s.len()
                            == count implies q == pos + encode_seq(s.subrange(0, i + 1)).len() by {
                        lemma_encode_seq_split(s, i as int);
                    }
                }
                p = q;
            },
            Err(e) => {
                return Err(e);
            },
        }
        i = i + 1;
    }
    proof {
        assert forall|s: Seq<Record>|
            #[trigger] seq_lies_at(b@, pos as int, end as int, s, db) && s.len() == count implies p
            == pos + encode_seq(s).len() by {
            assert(s.subrange(0, count as int) =~= s);
        }
    }
    Ok((v, p))
}

/// Reads the record at `start`, which must end by `limit`.
fn parse_record(b: &[u8], start: usize, limit: usize, db: Database) -> (r: Result<
    (Record, usize),
    DbError,
>)
    requires
        start <= limit <= b@.len(),
    ensures
        r matches Err(e) ==> offset_within(e, b@.len() as int),
        r matches Ok((rec, end)) ==> start < end <= limit && wf(rec) && well_sized(rec)
            && counts_stored(rec) && encode(
            rec,
        ) == b@.subrange(start as int, end as int),
        forall|rec: Record| #[trigger]
            lies_at(b@, start as int, limit as int, rec, db) ==> (r matches Ok((_, e)) && e == start
                + encode(rec).len()),
        end_by(b@, start as int, limit as int) && odd_string_at(b@, start as int, start + u32_at(b@, start + 8)) && db == Database::ITunes ==> r matches Err(DbError::MalformedString { .. }),
        end_by(b@, start as int, limit as int) && count_overflow_at(b@, start as int, start + u32_at(b@, start + 8)) && db == Database::ITunes ==> r matches Err(DbError::CountOverflow { .. }),
        end_by(b@, start as int, limit as int) && children_short_at(b@, start as int, start + u32_at(b@, start + 8)) && db == Database::ITunes ==> r matches Err(DbError::LengthMismatch { .. }),
        end_by(b@, start as int, limit as int) && list_mismatch_at(b@, start as int, start + u32_at(b@, start + 8), db) ==> r matches Err(DbError::BadDiscriminant { .. }),
    decreases limit - start, 1nat,
{
    proof {
        assert forall|rec: Record| #[trigger] lies_at(b@, start as int, limit as int, rec, db) implies {
            &&& encode(rec).len() >= 12
            &&& start + 12 <= b@.len()
            &&& u32_at(b@, start as int) == tag_of(rec)
            &&& u32_at(b@, start + 8) == encode(rec).len()
            &&& (rec is Unimplemented) <==> !is_known_tag(db, tag_of(rec))
            &&& !(rec is Unimplemented) ==> u32_at(b@, start + 4) == 12 + header_of(rec).len() && 12
                + header_of(rec).len() <= encode(rec).len() && header_of(rec).len() >= 4
            &&& !(rec is Master)
        } by {
            lemma_lies_at(b@, start as int, limit as int, rec, db);
        }
    }
    if limit - start < 12 {
        return Err(DbError::ShortRead { offset: start });
    }
    let magic = read_u32(b, start);
    let hl = read_u32(b, start + 4);
    let len = read_u32(b, start + 8);
    if (len as usize) < 12 {
        return Err(DbError::LengthMismatch { offset: start + 8 });
    }
    if len as usize > limit - start {
        return Err(DbError::ShortRead { offset: limit });
    }
    let end = start + len as usize;
    let known = magic == MHSD || (db == Database::ITunes && (magic == MHIT || magic == MHIA
        || magic == MHIP || magic == MHYP || magic == MHOD));
    assert(known == is_known_tag(db, magic));
    if !known {
        let bytes = copy_range(b, start + 12, end);
        let u = Unimplemented { magic, header_len: hl, len, bytes };
        proof {
            lemma_le32_u32_at(b@, start as int);
            lemma_le32_u32_at(b@, start + 4);
            lemma_le32_u32_at(b@, start + 8);
            assert(encode(Record::Unimplemented(u)) =~= b@.subrange(start as int, end as int));
        }
        return Ok((Record::Unimplemented(u), end));
    }
    if (hl as usize) < 16 || hl > len {
        return Err(DbError::LengthMismatch { offset: start + 4 });
    }
    let hend = start + hl as usize;
    let header = copy_range(b, start + 12, hend);
    proof {
        lemma_frame_read(b@, start as int, header@);
        assert forall|rec: Record| #[trigger] lies_at(b@, start as int, limit as int, rec, db) implies lies_at(b@, start as int, end as int, rec, db) by {}
    }
    if magic == MHSD {
        parse_container(b, start, hend, end, header, db)
    } else if magic == MHOD {
        parse_data_object(b, start, hend, end, header)
    } else if magic == MHYP {
        parse_playlist(b, start, hend, end, header, db)
    } else {
        let kind = if magic == MHIT {
            ItemKind::Track
        } else if magic == MHIA {
            ItemKind::Album
        } else {
            ItemKind::PlaylistEntry
        };
        parse_item(b, start, hend, end, header, kind, db)
    }
}

fn parse_item(
    b: &[u8],
    start: usize,
    hend: usize,
    end: usize,
    header: Vec<u8>,
    kind: ItemKind,
    db: Database,
) -> (r: Result<(Record, usize), DbError>)
    requires
        start + 16 <= hend <= end <= b@.len(),
        end - start == u32_at(b@, start + 8),
        hend - start == u32_at(b@, start + 4),
        u32_at(b@, start as int) == kind.magic(),
        header@ == b@.subrange(start + 12, hend as int),
        frame(kind.magic(), header@, u32_at(b@, start + 8)) == b@.subrange(
            start as int,
            start + 12,
        ),
    ensures
        r matches Err(e) ==> offset_within(e, b@.len() as int),
        r matches Ok((rec, e)) ==> e == end && wf(rec) && well_sized(rec) && counts_stored(rec)
            && encode(rec)
            == b@.subrange(start as int, end as int),
        forall|rec: Record|
            #[trigger] lies_at(b@, start as int, end as int, rec, db) && rec is Item
                && rec->Item_0.kind == kind ==> r is Ok,
        count_overflow_at(b@, start as int, end as int) ==> r matches Err(DbError::CountOverflow { .. }),
        children_short_at(b@, start as int, end as int) ==> r matches Err(DbError::LengthMismatch { .. }),
    decreases end - start, 0nat,
{
    let len = read_u32(b, start + 8);
    let count = read_u32(b, start + 12);
    let res = parse_children(b, hend, end, count, db);
    proof {
        assert forall|rec: Record|
            #[trigger] lies_at(b@, start as int, end as int, rec, db) && rec is Item
                && rec->Item_0.kind == kind implies (res matches Ok((_, next)) && next == end) by {
            lemma_item_parts(b@, start as int, end as int, rec, db);
            lemma_lies_at(b@, start as int, end as int, rec, db);
            let i = rec->Item_0;
            assert(hend == start + 12 + i.header@.len());
            assert(count == i.children@.len());
            assert(seq_lies_at(b@, hend as int, end as int, i.children@, db));
        }
    }
    let (children, next) = match res {
        Ok(x) => x,
        Err(e) => {
            return Err(e);
        },
    };
    if next != end {
        return Err(DbError::LengthMismatch { offset: next });
    }
    let item = Item { kind, header, len, children };
    proof {
        assert(u32_at(header@, 0) == count);
        lemma_patch32_same(header@, 0);
        assert(encode(Record::Item(item)) =~= b@.subrange(start as int, end as int));
    }
    Ok((Record::Item(item), end))
}

#[verifier::rlimit(100)]
fn parse_playlist(b: &[u8], start: usize, hend: usize, end: usize, header: Vec<u8>, db: Database) -> (r:
    Result<(Record, usize), DbError>)
    requires
        start + 16 <= hend <= end <= b@.len(),
        end - start == u32_at(b@, start + 8),
        hend - start == u32_at(b@, start + 4),
        header@ == b@.subrange(start + 12, hend as int),
        frame(MHYP, header@, u32_at(b@, start + 8)) == b@.subrange(start as int, start + 12),
    ensures
        r matches Err(e) ==> offset_within(e, b@.len() as int),
        r matches Ok((rec, e)) ==> e == end && wf(rec) && well_sized(rec) && counts_stored(rec)
            && encode(rec)
            == b@.subrange(start as int, end as int),
        forall|rec: Record|
            #[trigger] lies_at(b@, start as int, end as int, rec, db) && rec is Playlist ==> r is Ok,
    decreases end - start, 0nat,
{
    proof {
        assert forall|rec: Record|
            #[trigger] lies_at(b@, start as int, end as int, rec, db) && rec is Playlist implies {
            let p = rec->Playlist_0;
            let mid = start + 12 + p.header@.len() + encode_seq(p.children@).len();
            &&& u32_at(b@, start + 4) == 12 + p.header@.len()
            &&& p.header@.len() >= 8
            &&& u32_at(b@, start + 12) == p.children@.len()
            &&& u32_at(b@, start + 16) == p.entries@.len()
            &&& end == mid + encode_seq(p.entries@).len()
            &&& seq_lies_at(b@, start + 12 + p.header@.len(), end as int, p.children@, db)
            &&& seq_lies_at(b@, mid, end as int, p.entries@, db)
        } by {
            lemma_playlist_parts(b@, start as int, end as int, rec, db);
            lemma_lies_at(b@, start as int, end as int, rec, db);
        }
    }
    if hend - start < 20 {
        return Err(DbError::LengthMismatch { offset: start + 4 });
    }
    let len = read_u32(b, start + 8);
    let count = read_u32(b, start + 12);
    let entry_count = read_u32(b, start + 16);
    let (children, mid) = match parse_children(b, hend, end, count, db) {
        Ok(x) => x,
        Err(e) => {
            return Err(e);
        },
    };
    let (entries, next) = match parse_children(b, mid, end, entry_count, db) {
        Ok(x) => x,
        Err(e) => {
            return Err(e);
        },
    };
    if next != end {
        return Err(DbError::LengthMismatch { offset: next });
    }
    let p = Playlist { header, len, children, entries };
    proof {
        assert(u32_at(p.header@, 0) == count);
        assert(u32_at(p.header@, 4) == entry_count);
        lemma_playlist_bytes(b@, start as int, hend as int, mid as int, end as int, p);
    }
    Ok((Record::Playlist(p), end))
}

#[verifier::rlimit(100)]
fn parse_container(
    b: &[u8],
    start: usize,
    hend: usize,
    end: usize,
    header: Vec<u8>,
    db: Database,
) -> (r: Result<(Record, usize), DbError>)
    requires
        start + 16 <= hend <= end <= b@.len(),
        end - start == u32_at(b@, start + 8),
        hend - start == u32_at(b@, start + 4),
        header@ == b@.subrange(start + 12, hend as int),
        frame(MHSD, header@, u32_at(b@, start + 8)) == b@.subrange(start as int, start + 12),
    ensures
        r matches Err(e) ==> offset_within(e, b@.len() as int),
        r matches Ok((rec, e)) ==> e == end && wf(rec) && well_sized(rec) && counts_stored(rec)
            && encode(rec)
            == b@.subrange(start as int, end as int),
        forall|rec: Record|
            #[trigger] lies_at(b@, start as int, end as int, rec, db) && rec is ListContainer
                ==> r is Ok,
        list_mismatch_at(b@, start as int, end as int, db) ==> r matches Err(DbError::BadDiscriminant { .. }),
    decreases end - start, 0nat,
{
    proof {
        assert forall|rec: Record|
            #[trigger] lies_at(b@, start as int, end as int, rec, db) && rec is ListContainer implies {
            let c = rec->ListContainer_0;
            &&& hend == start + 12 + c.header@.len()
            &&& end >= hend + 12
            &&& (c.list matches ListBody::Typed(t, l) ==> {
                &&& t.database() == db
                &&& is_list_id(db, t.id())
                &&& is_list_tag(db, t.magic())
                &&& u32_at(b@, start + 12) == t.id()
                &&& u32_at(b@, hend as int) == t.magic()
                &&& u32_at(b@, hend + 4) == 12 + l.header@.len()
                &&& u32_at(b@, hend + 8) == l.children@.len()
                &&& end == hend + 12 + l.header@.len() + encode_seq(l.children@).len()
                &&& seq_lies_at(b@, hend + 12 + l.header@.len(), end as int, l.children@, db)
            })
            &&& (c.list matches ListBody::Opaque(u) ==> {
                &&& !is_list_tag(db, u.magic)
                &&& u32_at(b@, hend as int) == u.magic
                &&& u32_at(b@, hend + 8) == end - hend
            })
        } by {
            lemma_container_parts(b@, start as int, end as int, rec, db);
            lemma_lies_at(b@, start as int, end as int, rec, db);
        }
    }
    let len = read_u32(b, start + 8);
    let list_type = read_u32(b, start + 12);
    if end - hend < 12 {
        return Err(DbError::ShortRead { offset: end });
    }
    let lmagic = read_u32(b, hend);
    let lhl = read_u32(b, hend + 4);
    let third = read_u32(b, hend + 8);
    if is_list_magic(db, lmagic) {
        let set = match SetType::from_id(db, list_type) {
            Some(t) => t,
            None => {
                return Err(DbError::BadDiscriminant { offset: start + 12 });
            },
        };
        if set.list_magic() != lmagic {
            return Err(DbError::BadDiscriminant { offset: hend });
        }
        if (lhl as usize) < 12 || lhl as usize > end - hend {
            return Err(DbError::LengthMismatch { offset: hend + 4 });
        }
        let lend = hend + lhl as usize;
        let lheader = copy_range(b, hend + 12, lend);
        let (children, next) = match parse_children(b, lend, end, third, db) {
            Ok(x) => x,
            Err(e) => {
                return Err(e);
            },
        };
        if next != end {
            return Err(DbError::LengthMismatch { offset: next });
        }
        let c = ListContainer {
            header,
            len,
            list: ListBody::Typed(set, RecordList { header: lheader, children }),
        };
        proof {
            lemma_frame_read(b@, hend as int, lheader@);
            assert(u32_at(header@, 0) == list_type);
            lemma_patch32_same(header@, 0);
            assert(encode(Record::ListContainer(c)) =~= b@.subrange(start as int, end as int));
        }
        Ok((Record::ListContainer(c), end))
    } else {
        if third as usize != end - hend {
            return Err(DbError::LengthMismatch { offset: hend + 8 });
        }
        let bytes = copy_range(b, hend + 12, end);
        let u = Unimplemented { magic: lmagic, header_len: lhl, len: third, bytes };
        let c = ListContainer { header, len, list: ListBody::Opaque(u) };
        proof {
            lemma_le32_u32_at(b@, hend as int);
            lemma_le32_u32_at(b@, hend + 4);
            lemma_le32_u32_at(b@, hend + 8);
            assert(encode_unimplemented(u) =~= b@.subrange(hend as int, end as int));
            assert(encode(Record::ListContainer(c)) =~= b@.subrange(start as int, end as int));
        }
        Ok((Record::ListContainer(c), end))
    }
}

fn parse_data_object(b: &[u8], start: usize, hend: usize, end: usize, header: Vec<u8>) -> (r:
    Result<(Record, usize), DbError>)
    requires
        start + 16 <= hend <= end <= b@.len(),
        end - start == u32_at(b@, start + 8),
        hend - start == u32_at(b@, start + 4),
        header@ == b@.subrange(start + 12, hend as int),
        frame(MHOD, header@, u32_at(b@, start + 8)) == b@.subrange(start as int, start + 12),
    ensures
        r matches Err(e) ==> offset_within(e, b@.len() as int),
        r matches Ok((rec, e)) ==> e == end && wf(rec) && well_sized(rec) && counts_stored(rec)
            && encode(rec)
            == b@.subrange(start as int, end as int),
        forall|rec: Record|
            #[trigger] lies_at(b@, start as int, end as int, rec, Database::ITunes)
                && rec is DataObject ==> r is Ok,
        odd_string_at(b@, start as int, end as int) ==> r matches Err(DbError::MalformedString { .. }),
{
    proof {
        assert forall|rec: Record|
            #[trigger] lies_at(b@, start as int, end as int, rec, Database::ITunes)
                && rec is DataObject implies {
            let d = rec->DataObject_0;
            &&& u32_at(b@, start + 12) == d.object.id()
            &&& hend == start + 12 + d.header@.len()
            &&& end == hend + encode_data(d.data).len()
            &&& data_wf(d.object, d.data)
            &&& (d.data matches Data::String(x) ==> u32_at(b@, hend + 4) == x.string_data@.len()
                && x.string_data@.len() % 2 == 0 && encode_data(d.data).len() == 16
                + x.string_data@.len())
            &&& (d.data matches Data::PodcastUrl(x) ==> encode_data(d.data).len() == 8
                + x.string_data@.len())
        } by {
            lemma_data_parts(b@, start as int, end as int, rec);
            lemma_lies_at(b@, start as int, end as int, rec, Database::ITunes);
        }
    }
    let len = read_u32(b, start + 8);
    let data_type = read_u32(b, start + 12);
    let object = match ObjectType::from_id(data_type) {
        Some(t) => t,
        None => {
            return Err(DbError::BadDiscriminant { offset: start + 12 });
        },
    };
    let rem = end - hend;
    let data = match object.header_kind() {
        DataObjectHeader::String => {
            if rem < 16 {
                return Err(DbError::ShortRead { offset: end });
            }
            let position = read_u32(b, hend);
            let byte_len = read_u32(b, hend + 4);
            let unk_0x08 = read_u32(b, hend + 8);
            let unk_0x0c = read_u32(b, hend + 12);
            if byte_len % 2 != 0 {
                return Err(DbError::MalformedString { offset: hend + 4 });
            }
            if rem - 16 != byte_len as usize {
                return Err(DbError::LengthMismatch { offset: hend + 4 });
            }
            let string_data = copy_range(b, hend + 16, end);
            proof {
                lemma_le32_u32_at(b@, hend as int);
                lemma_le32_u32_at(b@, hend + 4);
                lemma_le32_u32_at(b@, hend + 8);
                lemma_le32_u32_at(b@, hend + 12);
            }
            Data::String(Utf16String { position, unk_0x08, unk_0x0c, string_data })
        },
        DataObjectHeader::PodcastUrl => {
            if rem < 8 {
                return Err(DbError::ShortRead { offset: end });
            }
            let unk_0x00 = read_u32(b, hend);
            let unk_0x04 = read_u32(b, hend + 4);
            let string_data = copy_range(b, hend + 8, end);
            proof {
                lemma_le32_u32_at(b@, hend as int);
                lemma_le32_u32_at(b@, hend + 4);
            }
            Data::PodcastUrl(PodcastUrlObj { unk_0x00, unk_0x04, string_data })
        },
        DataObjectHeader::Unimplemented => Data::Blob(copy_range(b, hend, end)),
    };
    assert(encode_data(data) =~= b@.subrange(hend as int, end as int));
    let d = DataObject { header, len, object, data };
    proof {
        assert(u32_at(header@, 0) == data_type);
        lemma_patch32_same(header@, 0);
        assert(encode(Record::DataObject(d)) =~= b@.subrange(start as int, end as int));
    }
    Ok((Record::DataObject(d), end))
}

/// Reads a master record that spans exactly `bytes`, whose length words have
/// already been checked.
fn parse_master(bytes: &[u8], db: Database) -> (r: Result<Record, DbError>)
    requires
        bytes@.len() >= 12,
        u32_at(bytes@, 0) == db.magic(),
        declared_len(bytes@) == bytes@.len(),
    ensures
        r matches Ok(rec) ==> wf(rec) && well_sized(rec) && counts_stored(rec) && encode(rec)
            == bytes@,
        r matches Err(e) ==> offset_within(e, bytes@.len() as int),
        forall|rec: Record| #[trigger] readable_root(rec) && encode(rec) == bytes@ ==> r is Ok,
        master_count_overflow(bytes@) ==> r matches Err(DbError::CountOverflow { .. }),
{
    proof {
        assert forall|rec: Record| #[trigger] readable_root(rec) && encode(rec) == bytes@ implies {
            let m = rec->Master_0;
            &&& m.db == db
            &&& u32_at(bytes@, 4) == 12 + m.header@.len()
            &&& m.header@.len() >= 12
            &&& u32_at(bytes@, 20) == m.children@.len()
            &&& bytes@.len() == 12 + m.header@.len() + encode_seq(m.children@).len()
            &&& seq_lies_at(bytes@, 12 + m.header@.len() as int, bytes@.len() as int, m.children@, m.db)
        } by {
            lemma_master_parts(rec);
        }
    }
    let n = bytes.len();
    let hl = read_u32(bytes, 4);
    let len = read_u32(bytes, 8);
    if hl < 24 || hl > len {
        return Err(DbError::LengthMismatch { offset: 4 });
    }
    let hend = hl as usize;
    let header = copy_range(bytes, 12, hend);
    let count = read_u32(bytes, 20);
    let (children, next) = match parse_children(bytes, hend, n, count, db) {
        Ok(x) => x,
        Err(e) => {
            return Err(e);
        },
    };
    if next != n {
        return Err(DbError::LengthMismatch { offset: next });
    }
    let m = Master { db, header, len, children };
    proof {
        lemma_frame_read(bytes@, 0, header@);
        assert(u32_at(header@, 8) == count);
        lemma_patch32_same(header@, 8);
        assert(encode(Record::Master(m)) =~= bytes@);
    }
    Ok(Record::Master(m))
}

/// Reads one complete record that spans exactly `bytes`: a whole `iTunesDB`
/// or `ArtworkDB` file (an `mhbd` or `mhfd` master record), or a single
/// record of any other tag the `iTunesDB` tree knows. Writing the result out
/// gives the input back.
pub fn parse(bytes: &[u8]) -> (r: Result<Record, DbError>)
    ensures
        r matches Ok(rec) ==> wf(rec) && well_sized(rec) && counts_stored(rec) && encode(rec)
            == bytes@,
        r matches Err(e) ==> offset_within(e, bytes@.len() as int),
        bytes@.len() < 12 ==> r matches Err(DbError::ShortRead { .. }),
        bytes@.len() >= 12 && !has_root_magic(bytes@) ==> r matches Err(
            DbError::UnknownMagic { .. },
        ),
        bytes@.len() >= 12 && has_root_magic(bytes@) && declared_len(bytes@) > bytes@.len()
            ==> r matches Err(DbError::ShortRead { .. }),
        bytes@.len() >= 12 && has_root_magic(bytes@) && declared_len(bytes@) < bytes@.len()
            ==> r matches Err(DbError::LengthMismatch { .. }),
        forall|rec: Record| #[trigger] readable_root(rec) && encode(rec) == bytes@ ==> r is Ok,
        forall|rec: Record|
            #[trigger] readable(rec, Database::ITunes) && wf(rec) && well_sized(rec) && !(
            rec is Unimplemented) && encode(rec) == bytes@ ==> r is Ok,
        odd_string_at(bytes@, 0, bytes@.len() as int) ==> r matches Err(
            DbError::MalformedString { .. },
        ),
        count_overflow_at(bytes@, 0, bytes@.len() as int) || master_count_overflow(bytes@) ==> r matches Err(
            DbError::CountOverflow { .. },
        ),
        children_short_at(bytes@, 0, bytes@.len() as int) ==> r matches Err(
            DbError::LengthMismatch { .. },
        ),
        list_mismatch_at(bytes@, 0, bytes@.len() as int, Database::ITunes) ==> r matches Err(
            DbError::BadDiscriminant { .. },
        ),
{
    proof {
        assert forall|rec: Record| #[trigger] readable_root(rec) && encode(rec) == bytes@ implies {
            &&& bytes@.len() >= 12
            &&& u32_at(bytes@, 0) == rec->Master_0.db.magic()
            &&& u32_at(bytes@, 8) == bytes@.len()
        } by {
            lemma_master_parts(rec);
        }
        assert forall|rec: Record|
            #[trigger] readable(rec, Database::ITunes) && wf(rec) && well_sized(rec) && !(
            rec is Unimplemented) && encode(rec) == bytes@ implies {
            &&& lies_at(bytes@, 0, bytes@.len() as int, rec, Database::ITunes)
            &&& bytes@.len() >= 12
            &&& is_known_tag(Database::ITunes, u32_at(bytes@, 0))
            &&& u32_at(bytes@, 8) == bytes@.len()
        } by {
            assert(bytes@.subrange(0, bytes@.len() as int) =~= bytes@);
            lemma_lies_at(bytes@, 0, bytes@.len() as int, rec, Database::ITunes);
        }
    }
    let n = bytes.len();
    if n < 12 {
        return Err(DbError::ShortRead { offset: 0 });
    }
    let magic = read_u32(bytes, 0);
    let recognised = magic == MHBD || magic == MHFD || magic == MHSD || magic == MHIT || magic
        == MHIA || magic == MHIP || magic == MHYP || magic == MHOD;
    if !recognised {
        return Err(DbError::UnknownMagic { offset: 0 });
    }
    let len = read_u32(bytes, 8);
    if len as usize > n {
        return Err(DbError::ShortRead { offset: n });
    }
    if (len as usize) < n {
        return Err(DbError::LengthMismatch { offset: len as usize });
    }
    if magic == MHBD {
        parse_master(bytes, Database::ITunes)
    } else if magic == MHFD {
        parse_master(bytes, Database::Artwork)
    } else {
        match parse_record(bytes, 0, n, Database::ITunes) {
            Ok((rec, end)) => {
                if end != n {
                    return Err(DbError::LengthMismatch { offset: end });
                }
                assert(bytes@.subrange(0, n as int) =~= bytes@);
                Ok(rec)
            },
            Err(e) => Err(e),
        }
    }
}

/// Cutting a file that parses at any point before its end leaves a prefix
/// whose declared length runs past its end, so parsing the prefix fails with
/// `ShortRead` (or earlier, on too few bytes, also with `ShortRead`).
pub proof fn lemma_truncation_detected(b: Seq<u8>, k: int)
    requires
        b.len() >= 12,
        declared_len(b) == b.len(),
        0 <= k < b.len(),
    ensures
        k < 12 || (declared_len(b.subrange(0, k)) > k && (has_root_magic(b) ==> has_root_magic(
            b.subrange(0, k),
        ))),
{
    if k >= 12 {
        let p = b.subrange(0, k);
        assert(u32_at(p, 8) == u32_at(b, 8));
        assert(u32_at(p, 0) == u32_at(b, 0));
    }
}

} // verus!
