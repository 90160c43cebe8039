//! Discriminants of the `iTunesDB` record tree.
use vstd::prelude::*;

verus! {

/// The kind of list that an `mhsd` container of an `iTunesDB` holds.
#[derive(Clone, Copy, Debug, PartialEq, Eq, Structural)]
pub enum List {
    Tracks,
    Playlists,
    Podcasts,
    Albums,
    InclSmartPlaylists,
}

impl List {
    /// The container's list-type value for this kind.
    pub open spec fn id(self) -> u32 {
        match self {
            List::Tracks => 1,
            List::Playlists => 2,
            List::Podcasts => 3,
            List::Albums => 4,
            List::InclSmartPlaylists => 5,
        }
    }

    /// The list-type value stored in the container's header.
    pub fn as_u32(&self) -> (r: u32)
        ensures
            r == self.id(),
    {
        match self {
            List::Tracks => 1,
            List::Playlists => 2,
            List::Podcasts => 3,
            List::Albums => 4,
            List::InclSmartPlaylists => 5,
        }
    }

    /// The kind with list-type value `id`, if there is one.
    pub fn from_u32(id: u32) -> (r: Option<List>)
        ensures
            r matches Some(l) ==> l.id() == id,
            r is None <==> !(1 <= id <= 5),
    {
        match id {
            1 => Some(List::Tracks),
            2 => Some(List::Playlists),
            3 => Some(List::Podcasts),
            4 => Some(List::Albums),
            5 => Some(List::InclSmartPlaylists),
            _ => None,
        }
    }
}

/// How the payload after the common `mhod` header is laid out.
#[derive(Clone, Copy, Debug, PartialEq, Eq, Structural)]
pub enum DataObjectHeader {
    /// A UTF-16LE string behind a 16-byte prefix.
    String,
    /// A UTF-8 URL behind two reserved words.
    PodcastUrl,
    /// Bytes kept as they are.
    Unimplemented,
}

/// The data type of an `mhod` record.
#[derive(Clone, Copy, Debug, PartialEq, Eq, Structural)]
pub enum ObjectType {
    Title,
    Location,
    Album,
    Artist,
    Genre,
    Filetype,
    EqSetting,
    Comment,
    Category,
    Composer,
    Grouping,
    Description,
    PodcastEnclosureUrl,
    PodcastRssUrl,
    ChapterData,
    Subtitle,
    Show,
    EpisodeNumber,
    TvNetwork,
    AlbumArtist,
    ArtistSort,
    Keywords,
    TvShowLocale,
    TitleSort,
    AlbumSort,
    AlbumArtistSort,
    ComposerSort,
    TvShowSort,
    UnknownVideoBinary,
    Copyright,
    SmartPlaylistData,
    SmartPlaylistRules,
    LibraryPlaylistIndex,
    JumpTable,
    ColumnSizingAndOrder,
    UnknownObject,
    AlbumInAlbumList,
    ArtistInAlbumList,
    ArtistSortInAlbumList,
    PodcastUrlInAlbumList,
    TvShowInAlbumList,
}

impl ObjectType {
    /// The data-type value stored in the record's header.
    pub open spec fn id(self) -> u32 {
        match self {
            ObjectType::Title => 1,
            ObjectType::Location => 2,
            ObjectType::Album => 3,
            ObjectType::Artist => 4,
            ObjectType::Genre => 5,
            ObjectType::Filetype => 6,
            ObjectType::EqSetting => 7,
            ObjectType::Comment => 8,
            ObjectType::Category => 9,
            ObjectType::Composer => 12,
            ObjectType::Grouping => 13,
            ObjectType::Description => 14,
            ObjectType::PodcastEnclosureUrl => 15,
            ObjectType::PodcastRssUrl => 16,
            ObjectType::ChapterData => 17,
            ObjectType::Subtitle => 18,
            ObjectType::Show => 19,
            ObjectType::EpisodeNumber => 20,
            ObjectType::TvNetwork => 21,
            ObjectType::AlbumArtist => 22,
            ObjectType::ArtistSort => 23,
            ObjectType::Keywords => 24,
            ObjectType::TvShowLocale => 25,
            ObjectType::TitleSort => 27,
            ObjectType::AlbumSort => 28,
            ObjectType::AlbumArtistSort => 29,
            ObjectType::ComposerSort => 30,
            ObjectType::TvShowSort => 31,
            ObjectType::UnknownVideoBinary => 32,
            ObjectType::Copyright => 39,
            ObjectType::SmartPlaylistData => 50,
            ObjectType::SmartPlaylistRules => 51,
            ObjectType::LibraryPlaylistIndex => 52,
            ObjectType::JumpTable => 53,
            ObjectType::ColumnSizingAndOrder => 100,
            ObjectType::UnknownObject => 102,
            ObjectType::AlbumInAlbumList => 200,
            ObjectType::ArtistInAlbumList => 201,
            ObjectType::ArtistSortInAlbumList => 202,
            ObjectType::PodcastUrlInAlbumList => 203,
            ObjectType::TvShowInAlbumList => 204,
        }
    }

    /// The payload layout of this data type.
    pub open spec fn layout(self) -> DataObjectHeader {
        let id = self.id();
        if (1 <= id <= 9) || (12 <= id <= 14) || id == 18 || id == 22 || id == 39 {
            DataObjectHeader::String
        } else if id == 15 || id == 16 {
            DataObjectHeader::PodcastUrl
        } else {
            DataObjectHeader::Unimplemented
        }
    }

    /// The numeric data type that this variant stands for.
    pub fn as_id(&self) -> (r: u32)
        ensures
            r == self.id(),
    {
        match self {
            ObjectType::Title => 1,
            ObjectType::Location => 2,
            ObjectType::Album => 3,
            ObjectType::Artist => 4,
            ObjectType::Genre => 5,
            ObjectType::Filetype => 6,
            ObjectType::EqSetting => 7,
            ObjectType::Comment => 8,
            ObjectType::Category => 9,
            ObjectType::Composer => 12,
            ObjectType::Grouping => 13,
            ObjectType::Description => 14,
            ObjectType::PodcastEnclosureUrl => 15,
            ObjectType::PodcastRssUrl => 16,
            ObjectType::ChapterData => 17,
            ObjectType::Subtitle => 18,
            ObjectType::Show => 19,
            ObjectType::EpisodeNumber => 20,
            ObjectType::TvNetwork => 21,
            ObjectType::AlbumArtist => 22,
            ObjectType::ArtistSort => 23,
            ObjectType::Keywords => 24,
            ObjectType::TvShowLocale => 25,
            ObjectType::TitleSort => 27,
            ObjectType::AlbumSort => 28,
            ObjectType::AlbumArtistSort => 29,
            ObjectType::ComposerSort => 30,
            ObjectType::TvShowSort => 31,
            ObjectType::UnknownVideoBinary => 32,
            ObjectType::Copyright => 39,
            ObjectType::SmartPlaylistData => 50,
            ObjectType::SmartPlaylistRules => 51,
            ObjectType::LibraryPlaylistIndex => 52,
            ObjectType::JumpTable => 53,
            ObjectType::ColumnSizingAndOrder => 100,
            ObjectType::UnknownObject => 102,
            ObjectType::AlbumInAlbumList => 200,
            ObjectType::ArtistInAlbumList => 201,
            ObjectType::ArtistSortInAlbumList => 202,
            ObjectType::PodcastUrlInAlbumList => 203,
            ObjectType::TvShowInAlbumList => 204,
        }
    }

    /// The data type with value `id`, if there is one.
    pub fn from_id(id: u32) -> (r: Option<ObjectType>)
        ensures
            r matches Some(t) ==> t.id() == id,
            r is None ==> forall|t: ObjectType| t.id() != id,
    {
        match id {
            1 => Some(ObjectType::Title),
            2 => Some(ObjectType::Location),
            3 => Some(ObjectType::Album),
            4 => Some(ObjectType::Artist),
            5 => Some(ObjectType::Genre),
            6 => Some(ObjectType::Filetype),
            7 => Some(ObjectType::EqSetting),
            8 => Some(ObjectType::Comment),
            9 => Some(ObjectType::Category),
            12 => Some(ObjectType::Composer),
            13 => Some(ObjectType::Grouping),
            14 => Some(ObjectType::Description),
            15 => Some(ObjectType::PodcastEnclosureUrl),
            16 => Some(ObjectType::PodcastRssUrl),
            17 => Some(ObjectType::ChapterData),
            18 => Some(ObjectType::Subtitle),
            19 => Some(ObjectType::Show),
            20 => Some(ObjectType::EpisodeNumber),
            21 => Some(ObjectType::TvNetwork),
            22 => Some(ObjectType::AlbumArtist),
            23 => Some(ObjectType::ArtistSort),
            24 => Some(ObjectType::Keywords),
            25 => Some(ObjectType::TvShowLocale),
            27 => Some(ObjectType::TitleSort),
            28 => Some(ObjectType::AlbumSort),
            29 => Some(ObjectType::AlbumArtistSort),
            30 => Some(ObjectType::ComposerSort),
            31 => Some(ObjectType::TvShowSort),
            32 => Some(ObjectType::UnknownVideoBinary),
            39 => Some(ObjectType::Copyright),
            50 => Some(ObjectType::SmartPlaylistData),
            51 => Some(ObjectType::SmartPlaylistRules),
            52 => Some(ObjectType::LibraryPlaylistIndex),
            53 => Some(ObjectType::JumpTable),
            100 => Some(ObjectType::ColumnSizingAndOrder),
            102 => Some(ObjectType::UnknownObject),
            200 => Some(ObjectType::AlbumInAlbumList),
            201 => Some(ObjectType::ArtistInAlbumList),
            202 => Some(ObjectType::ArtistSortInAlbumList),
            203 => Some(ObjectType::PodcastUrlInAlbumList),
            204 => Some(ObjectType::TvShowInAlbumList),
            _ => None,
        }
    }

    /// The payload layout of this data type.
    pub fn header_kind(&self) -> (r: DataObjectHeader)
        ensures
            r == self.layout(),
    {
        let id = self.as_id();
        if (1 <= id && id <= 9) || (12 <= id && id <= 14) || id == 18 || id == 22 || id == 39 {
            DataObjectHeader::String
        } else if id == 15 || id == 16 {
            DataObjectHeader::PodcastUrl
        } else {
            DataObjectHeader::Unimplemented
        }
    }
}

} // verus!
