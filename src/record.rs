//! The record tree shared by `iTunesDB` and `ArtworkDB`, and its byte layout.
use vstd::prelude::*;

use crate::artworkdb;
use crate::bytes::{le32, patch32, u32_at};
use crate::itunesdb;
use crate::itunesdb::{DataObjectHeader, ObjectType};

verus! {

/// `mhbd`, the `iTunesDB` master record.
pub const MHBD: u32 = 0x6462_686d;
/// `mhfd`, the `ArtworkDB` master record.
pub const MHFD: u32 = 0x6466_686d;
/// `mhsd`, a list container.
pub const MHSD: u32 = 0x6473_686d;
/// `mhit`, a track.
pub const MHIT: u32 = 0x7469_686d;
/// `mhia`, an album.
pub const MHIA: u32 = 0x6169_686d;
/// `mhyp`, a playlist.
pub const MHYP: u32 = 0x7079_686d;
/// `mhip`, a playlist entry.
pub const MHIP: u32 = 0x7069_686d;
/// `mhod`, a data object.
pub const MHOD: u32 = 0x646f_686d;
/// `mhlt`, a track list.
pub const MHLT: u32 = 0x746c_686d;
/// `mhlp`, a playlist list.
pub const MHLP: u32 = 0x706c_686d;
/// `mhla`, an album list.
pub const MHLA: u32 = 0x616c_686d;
/// `mhli`, an image list.
pub const MHLI: u32 = 0x696c_686d;
/// `mhlf`, a file list.
pub const MHLF: u32 = 0x666c_686d;

/// Which of the two databases a tree belongs to.
#[derive(Clone, Copy, Debug, PartialEq, Eq, Structural)]
pub enum Database {
    ITunes,
    Artwork,
}

impl Database {
    /// The tag of this database's master record.
    pub open spec fn magic(self) -> u32 {
        match self {
            Database::ITunes => MHBD,
            Database::Artwork => MHFD,
        }
    }
}

/// The kind of list that a container holds, in either database.
#[derive(Clone, Copy, Debug, PartialEq, Eq, Structural)]
pub enum SetType {
    Itunes(itunesdb::List),
    Artwork(artworkdb::List),
}

impl SetType {
    /// The list-type value stored in the container.
    pub open spec fn id(self) -> u32 {
        match self {
            SetType::Itunes(l) => l.id(),
            SetType::Artwork(l) => l.id(),
        }
    }

    /// The tag of the list record that the container wraps.
    pub open spec fn magic(self) -> u32 {
        match self {
            SetType::Itunes(itunesdb::List::Tracks) => MHLT,
            SetType::Itunes(itunesdb::List::Albums) => MHLA,
            SetType::Itunes(_) => MHLP,
            SetType::Artwork(artworkdb::List::Images) => MHLI,
            SetType::Artwork(artworkdb::List::Albums) => MHLA,
            SetType::Artwork(artworkdb::List::Files) => MHLF,
        }
    }

    /// The database whose list-type space this kind belongs to.
    pub open spec fn database(self) -> Database {
        match self {
            SetType::Itunes(_) => Database::ITunes,
            SetType::Artwork(_) => Database::Artwork,
        }
    }

    /// The list-type value stored in the container.
    pub fn as_id(&self) -> (r: u32)
        ensures
            r == self.id(),
    {
        match self {
            SetType::Itunes(l) => l.as_u32(),
            SetType::Artwork(l) => l.as_u32(),
        }
    }

    /// The tag of the list record that the container wraps.
    pub fn list_magic(&self) -> (r: u32)
        ensures
            r == self.magic(),
    {
        match self {
            SetType::Itunes(itunesdb::List::Tracks) => MHLT,
            SetType::Itunes(itunesdb::List::Albums) => MHLA,
            SetType::Itunes(_) => MHLP,
            SetType::Artwork(artworkdb::List::Images) => MHLI,
            SetType::Artwork(artworkdb::List::Albums) => MHLA,
            SetType::Artwork(artworkdb::List::Files) => MHLF,
        }
    }

    /// The kind of list with value `id` in the list-type space of `db`.
    pub fn from_id(db: Database, id: u32) -> (r: Option<SetType>)
        ensures
            r matches Some(t) ==> t.id() == id && t.database() == db,
            r is None <==> !(is_list_id(db, id)),
    {
        match db {
            Database::ITunes => match itunesdb::List::from_u32(id) {
                Some(l) => Some(SetType::Itunes(l)),
                None => None,
            },
            Database::Artwork => match artworkdb::List::from_u32(id) {
                Some(l) => Some(SetType::Artwork(l)),
                None => None,
            },
        }
    }
}

/// Whether `id` names a list kind of `db`.
pub open spec fn is_list_id(db: Database, id: u32) -> bool {
    match db {
        Database::ITunes => 1 <= id <= 5,
        Database::Artwork => 1 <= id <= 3,
    }
}

/// The item records whose header is followed by one list of children.
#[derive(Clone, Copy, Debug, PartialEq, Eq, Structural)]
pub enum ItemKind {
    /// `mhit`
    Track,
    /// `mhia`
    Album,
    /// `mhip`
    PlaylistEntry,
}

impl ItemKind {
    pub open spec fn magic(self) -> u32 {
        match self {
            ItemKind::Track => MHIT,
            ItemKind::Album => MHIA,
            ItemKind::PlaylistEntry => MHIP,
        }
    }

    /// The tag of this kind of item.
    pub fn tag(&self) -> (r: u32)
        ensures
            r == self.magic(),
    {
        match self {
            ItemKind::Track => MHIT,
            ItemKind::Album => MHIA,
            ItemKind::PlaylistEntry => MHIP,
        }
    }
}

/// A master record (`mhbd` or `mhfd`). `header` holds the header bytes after
/// the tag and the two length words; its word at 8 is the child count.
pub struct Master {
    pub db: Database,
    pub header: Vec<u8>,
    pub len: u32,
    pub children: Vec<Record>,
}

/// A list record (`mhlt`, `mhlp`, `mhla`, `mhli`, `mhlf`); it stores a child
/// count where other records store their length.
pub struct RecordList {
    pub header: Vec<u8>,
    pub children: Vec<Record>,
}

/// What a list container wraps.
pub enum ListBody {
    Typed(SetType, RecordList),
    /// A record with a tag that is not a list tag of the database.
    Opaque(Unimplemented),
}

/// An `mhsd` list container; the first word of `header` is its list type.
pub struct ListContainer {
    pub header: Vec<u8>,
    pub len: u32,
    pub list: ListBody,
}

/// A track, album or playlist entry; the first word of `header` is the child count.
pub struct Item {
    pub kind: ItemKind,
    pub header: Vec<u8>,
    pub len: u32,
    pub children: Vec<Record>,
}

/// An `mhyp` playlist: data objects, then entries, counted by the first two
/// words of `header`.
pub struct Playlist {
    pub header: Vec<u8>,
    pub len: u32,
    pub children: Vec<Record>,
    pub entries: Vec<Record>,
}

/// A UTF-16LE string payload.
pub struct Utf16String {
    pub position: u32,
    pub unk_0x08: u32,
    pub unk_0x0c: u32,
    pub string_data: Vec<u8>,
}

/// A UTF-8 URL payload.
pub struct PodcastUrlObj {
    pub unk_0x00: u32,
    pub unk_0x04: u32,
    pub string_data: Vec<u8>,
}

/// The payload of a data object.
pub enum Data {
    String(Utf16String),
    PodcastUrl(PodcastUrlObj),
    Blob(Vec<u8>),
}

/// An `mhod` data object; the first word of `header` is its data type.
pub struct DataObject {
    pub header: Vec<u8>,
    pub len: u32,
    pub object: ObjectType,
    pub data: Data,
}

/// A record kept as the bytes it was read from.
pub struct Unimplemented {
    pub magic: u32,
    pub header_len: u32,
    pub len: u32,
    pub bytes: Vec<u8>,
}

/// A record of either database.
pub enum Record {
    Master(Master),
    ListContainer(ListContainer),
    Item(Item),
    Playlist(Playlist),
    DataObject(DataObject),
    Unimplemented(Unimplemented),
}

impl DataObject {
    /// A data object of the given type with a plain header (the data type
    /// and eight zero bytes); its `len` is set by `fix_lengths`.
    pub fn new(object: ObjectType, data: Data) -> (d: DataObject)
        ensures
            d.object == object,
            same_data(d.data, data),
            d.header@ == le32(object.id()) + Seq::new(8, |i: int| 0u8),
            d.len == 0,
    {
        let mut header: Vec<u8> = Vec::new();
        crate::bytes::push_u32(&mut header, object.as_id());
        let mut i: usize = 0;
        while i < 8
            invariant
                i <= 8,
                header@.len() == 4 + i,
                header@.subrange(0, 4) == le32(object.id()),
                forall|k: int| 4 <= k < 4 + i ==> #[trigger] header@[k] == 0u8,
            decreases 8 - i,
        {
            header.push(0);
            i = i + 1;
        }
        assert(header@ =~= le32(object.id()) + Seq::new(8, |i: int| 0u8));
        DataObject { header, len: 0, object, data }
    }
}

/// The tag, header length and third word that open a record.
pub open spec fn frame(magic: u32, header: Seq<u8>, third: u32) -> Seq<u8> {
    le32(magic) + le32((12 + header.len()) as u32) + le32(third)
}

/// A UTF-16 payload's declared byte length.
pub open spec fn utf16_len(s: Utf16String) -> u32 {
    s.string_data@.len() as u32
}

pub open spec fn encode_data(d: Data) -> Seq<u8> {
    match d {
        Data::String(s) => le32(s.position) + le32(utf16_len(s)) + le32(s.unk_0x08) + le32(
            s.unk_0x0c,
        ) + s.string_data@,
        Data::PodcastUrl(u) => le32(u.unk_0x00) + le32(u.unk_0x04) + u.string_data@,
        Data::Blob(b) => b@,
    }
}

pub open spec fn encode_unimplemented(u: Unimplemented) -> Seq<u8> {
    le32(u.magic) + le32(u.header_len) + le32(u.len) + u.bytes@
}

/// The bytes that a record is written as. Counts, the header length, list
/// types and data types come from the tree; `len` words are the stored ones.
pub open spec fn encode(r: Record) -> Seq<u8>
    decreases r,
{
    match r {
        Record::Master(m) => frame(m.db.magic(), m.header@, m.len) + patch32(
            m.header@,
            8,
            m.children@.len() as u32,
        ) + encode_seq(m.children@),
        Record::ListContainer(c) => frame(MHSD, c.header@, c.len) + match c.list {
            ListBody::Typed(t, l) => patch32(c.header@, 0, t.id()) + frame(
                t.magic(),
                l.header@,
                l.children@.len() as u32,
            ) + l.header@ + encode_seq(l.children@),
            ListBody::Opaque(u) => c.header@ + encode_unimplemented(u),
        },
        Record::Item(i) => frame(i.kind.magic(), i.header@, i.len) + patch32(
            i.header@,
            0,
            i.children@.len() as u32,
        ) + encode_seq(i.children@),
        Record::Playlist(p) => frame(MHYP, p.header@, p.len) + patch32(
            patch32(p.header@, 0, p.children@.len() as u32),
            4,
            p.entries@.len() as u32,
        ) + encode_seq(p.children@) + encode_seq(p.entries@),
        Record::DataObject(d) => frame(MHOD, d.header@, d.len) + patch32(
            d.header@,
            0,
            d.object.id(),
        ) + encode_data(d.data),
        Record::Unimplemented(u) => encode_unimplemented(u),
    }
}

/// The records of `s` written one after another.
pub open spec fn encode_seq(s: Seq<Record>) -> Seq<u8>
    decreases s,
{
    if s.len() == 0 {
        Seq::empty()
    } else {
        encode_seq(s.drop_last()) + encode(s.last())
    }
}

/// A header of at least `min` bytes whose length still fits its word.
pub open spec fn header_fits(h: Seq<u8>, min: int) -> bool {
    min <= h.len() && h.len() + 12 <= u32::MAX
}

/// A list whose length fits a count word.
pub open spec fn countable(s: Seq<Record>) -> bool {
    s.len() <= u32::MAX
}

/// The payload has the layout that the data type calls for.
pub open spec fn data_wf(t: ObjectType, d: Data) -> bool {
    match d {
        Data::String(s) => t.layout() == DataObjectHeader::String && s.string_data@.len() % 2 == 0
            && s.string_data@.len() <= u32::MAX,
        Data::PodcastUrl(_) => t.layout() == DataObjectHeader::PodcastUrl,
        Data::Blob(_) => t.layout() == DataObjectHeader::Unimplemented,
    }
}

/// A tree that can be written: headers hold their count words, counts fit,
/// and every payload matches its data type.
pub open spec fn wf(r: Record) -> bool
    decreases r,
{
    match r {
        Record::Master(m) => header_fits(m.header@, 12) && countable(m.children@) && all_wf(
            m.children@,
        ),
        Record::ListContainer(c) => header_fits(c.header@, 4) && match c.list {
            ListBody::Typed(_, l) => header_fits(l.header@, 0) && countable(l.children@) && all_wf(
                l.children@,
            ),
            ListBody::Opaque(_) => true,
        },
        Record::Item(i) => header_fits(i.header@, 4) && countable(i.children@) && all_wf(
            i.children@,
        ),
        Record::Playlist(p) => header_fits(p.header@, 8) && countable(p.children@) && countable(
            p.entries@,
        ) && all_wf(p.children@) && all_wf(p.entries@),
        Record::DataObject(d) => header_fits(d.header@, 4) && data_wf(d.object, d.data),
        Record::Unimplemented(_) => true,
    }
}

/// Every record of `s` can be written.
pub open spec fn all_wf(s: Seq<Record>) -> bool
    decreases s,
{
    s.len() == 0 || (all_wf(s.drop_last()) && wf(s.last()))
}

/// Every stored `len` in the tree equals the number of bytes its record is
/// written as.
pub open spec fn well_sized(r: Record) -> bool
    decreases r,
{
    match r {
        Record::Master(m) => m.len == encode(r).len() && all_well_sized(m.children@),
        Record::ListContainer(c) => c.len == encode(r).len() && match c.list {
            ListBody::Typed(_, l) => all_well_sized(l.children@),
            ListBody::Opaque(u) => u.len == encode_unimplemented(u).len(),
        },
        Record::Item(i) => i.len == encode(r).len() && all_well_sized(i.children@),
        Record::Playlist(p) => p.len == encode(r).len() && all_well_sized(p.children@)
            && all_well_sized(p.entries@),
        Record::DataObject(d) => d.len == encode(r).len(),
        Record::Unimplemented(u) => u.len == encode(r).len(),
    }
}

/// Every record of `s` is well sized.
pub open spec fn all_well_sized(s: Seq<Record>) -> bool
    decreases s,
{
    s.len() == 0 || (all_well_sized(s.drop_last()) && well_sized(s.last()))
}

/// Every word that a header stores for what the tree also says (child
/// counts, a container's list type, a data object's data type) agrees with
/// the tree.
pub open spec fn counts_stored(r: Record) -> bool
    decreases r,
{
    match r {
        Record::Master(m) => m.header@.len() >= 12 && u32_at(m.header@, 8) as int
            == m.children@.len() && all_counts_stored(m.children@),
        Record::ListContainer(c) => c.header@.len() >= 4 && match c.list {
            ListBody::Typed(t, l) => u32_at(c.header@, 0) == t.id() && all_counts_stored(
                l.children@,
            ),
            ListBody::Opaque(_) => true,
        },
        Record::Item(i) => i.header@.len() >= 4 && u32_at(i.header@, 0) as int
            == i.children@.len() && all_counts_stored(i.children@),
        Record::Playlist(p) => p.header@.len() >= 8 && u32_at(p.header@, 0) as int
            == p.children@.len() && u32_at(p.header@, 4) as int == p.entries@.len()
            && all_counts_stored(p.children@) && all_counts_stored(p.entries@),
        Record::DataObject(d) => d.header@.len() >= 4 && u32_at(d.header@, 0) == d.object.id(),
        Record::Unimplemented(_) => true,
    }
}

/// Every record of `s` stores counts that agree with it.
pub open spec fn all_counts_stored(s: Seq<Record>) -> bool
    decreases s,
{
    s.len() == 0 || (all_counts_stored(s.drop_last()) && counts_stored(s.last()))
}

pub open spec fn same_data(a: Data, b: Data) -> bool {
    match (a, b) {
        (Data::String(x), Data::String(y)) => x.position == y.position && x.unk_0x08 == y.unk_0x08
            && x.unk_0x0c == y.unk_0x0c && x.string_data@ == y.string_data@,
        (Data::PodcastUrl(x), Data::PodcastUrl(y)) => x.unk_0x00 == y.unk_0x00 && x.unk_0x04
            == y.unk_0x04 && x.string_data@ == y.string_data@,
        (Data::Blob(x), Data::Blob(y)) => x@ == y@,
        _ => false,
    }
}

/// The two trees agree in everything but their stored `len` words.
pub open spec fn congruent(a: Record, b: Record) -> bool
    decreases a,
{
    match a {
        Record::Master(x) => match b {
            Record::Master(y) => x.db == y.db && x.header@ == y.header@ && congruent_seq(
                x.children@,
                y.children@,
            ),
            _ => false,
        },
        Record::ListContainer(x) => match b {
            Record::ListContainer(y) => x.header@ == y.header@ && match x.list {
                ListBody::Typed(t, l) => match y.list {
                    ListBody::Typed(t2, l2) => t == t2 && l.header@ == l2.header@ && congruent_seq(
                        l.children@,
                        l2.children@,
                    ),
                    _ => false,
                },
                ListBody::Opaque(u) => match y.list {
                    ListBody::Opaque(u2) => u.magic == u2.magic && u.header_len == u2.header_len
                        && u.bytes@ == u2.bytes@,
                    _ => false,
                },
            },
            _ => false,
        },
        Record::Item(x) => match b {
            Record::Item(y) => x.kind == y.kind && x.header@ == y.header@ && congruent_seq(
                x.children@,
                y.children@,
            ),
            _ => false,
        },
        Record::Playlist(x) => match b {
            Record::Playlist(y) => x.header@ == y.header@ && congruent_seq(
                x.children@,
                y.children@,
            ) && congruent_seq(x.entries@, y.entries@),
            _ => false,
        },
        Record::DataObject(x) => match b {
            Record::DataObject(y) => x.header@ == y.header@ && x.object == y.object && same_data(
                x.data,
                y.data,
            ),
            _ => false,
        },
        Record::Unimplemented(x) => match b {
            Record::Unimplemented(y) => x.magic == y.magic && x.header_len == y.header_len
                && x.bytes@ == y.bytes@,
            _ => false,
        },
    }
}

/// Two lists of the same length whose records agree pairwise but for `len`.
pub open spec fn congruent_seq(s: Seq<Record>, t: Seq<Record>) -> bool
    decreases s,
{
    s.len() == t.len() && (s.len() == 0 || (congruent_seq(s.drop_last(), t.drop_last())
        && congruent(s.last(), t.last())))
}

/// `all_wf` holds exactly when each record can be written.
pub proof fn lemma_all_wf(s: Seq<Record>)
    ensures
        all_wf(s) <==> forall|i: int| 0 <= i < s.len() ==> #[trigger] wf(s[i]),
    decreases s.len(),
{
    if s.len() > 0 {
        lemma_all_wf(s.drop_last());
        if all_wf(s) {
            assert forall|i: int| 0 <= i < s.len() implies #[trigger] wf(s[i]) by {
                if i < s.len() - 1 {
                    assert(wf(s.drop_last()[i]));
                }
            }
        }
        if forall|i: int| 0 <= i < s.len() ==> #[trigger] wf(s[i]) {
            assert forall|i: int| 0 <= i < s.drop_last().len() implies #[trigger] wf(
                s.drop_last()[i],
            ) by {
                assert(wf(s[i]));
            }
            assert(all_wf(s.drop_last()));
            assert(wf(s[s.len() - 1]));
            assert(all_wf(s));
        }
    }
}

/// `all_well_sized` holds exactly when each record is well sized.
pub proof fn lemma_all_well_sized(s: Seq<Record>)
    ensures
        all_well_sized(s) <==> forall|i: int| 0 <= i < s.len() ==> #[trigger] well_sized(s[i]),
    decreases s.len(),
{
    if s.len() > 0 {
        lemma_all_well_sized(s.drop_last());
        if all_well_sized(s) {
            assert forall|i: int| 0 <= i < s.len() implies #[trigger] well_sized(s[i]) by {
                if i < s.len() - 1 {
                    assert(well_sized(s.drop_last()[i]));
                }
            }
        }
        if forall|i: int| 0 <= i < s.len() ==> #[trigger] well_sized(s[i]) {
            assert forall|i: int| 0 <= i < s.drop_last().len() implies #[trigger] well_sized(
                s.drop_last()[i],
            ) by {
                assert(well_sized(s[i]));
            }
            assert(all_well_sized(s.drop_last()));
            assert(well_sized(s[s.len() - 1]));
            assert(all_well_sized(s));
        }
    }
}

} // verus!
