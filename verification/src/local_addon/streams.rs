//! What the add-on answers: the catalog of the indexed files, what a title
//! holds, and where its bytes come from.
use super::parser;
use super::parser::VideoMetadata;
use crate::encoding;
use crate::encoding::url_encode;
use crate::numbers;
use crate::numbers::{parse_i32, parse_unsigned};
use crate::text;
use crate::text::{
    cat2, cat3, cat5, chars_of, decimal, position, same, signed_decimal, slice_subrange_from, split,
    starts_with, string_of, substring, to_lowercase, without_prefix, without_suffix,
};
use vstd::prelude::*;

verus! {

/// One indexed file: a file of a torrent, a member of an archive, or a file
/// on disk.
#[derive(Debug, Clone)]
pub struct IndexItem {
    pub id: String,
    pub imdb_id: Option<String>,
    pub metadata: VideoMetadata,
    /// Where the file is: `archive:{archive}|{member}` for a member of an
    /// archive.
    pub path: String,
    pub info_hash: Option<String>,
    pub file_idx: Option<usize>,
}

/// What an [`IndexItem`] says.
pub struct ItemView {
    pub id: Seq<char>,
    pub imdb_id: Option<Seq<char>>,
    pub metadata: parser::MetadataView,
    pub path: Seq<char>,
    pub info_hash: Option<Seq<char>>,
    pub file_idx: Option<usize>,
}

impl View for IndexItem {
    type V = ItemView;

    open spec fn view(&self) -> ItemView {
        ItemView {
            id: self.id@,
            imdb_id: parser::optional(self.imdb_id),
            metadata: self.metadata@,
            path: self.path@,
            info_hash: parser::optional(self.info_hash),
            file_idx: self.file_idx,
        }
    }
}

/// What a list of items says.
pub open spec fn items_view(items: Seq<IndexItem>) -> Seq<ItemView> {
    items.map_values(|i: IndexItem| i@)
}

/// A stream a player is handed.
#[derive(Debug, Clone)]
pub enum LocalStream {
    /// A file of a torrent, streamed by this server.
    Torrent { title: String, info_hash: String, file_idx: usize },
    /// A member of an archive, streamed by this server.
    Archive { title: String, url: String, binge_group: String },
    /// A file on disk, which only a player on this machine can open.
    File { title: String, url: String },
}

/// What a [`LocalStream`] says.
pub enum StreamView {
    Torrent { title: Seq<char>, info_hash: Seq<char>, file_idx: usize },
    Archive { title: Seq<char>, url: Seq<char>, binge_group: Seq<char> },
    File { title: Seq<char>, url: Seq<char> },
}

impl View for LocalStream {
    type V = StreamView;

    open spec fn view(&self) -> StreamView {
        match self {
            LocalStream::Torrent { title, info_hash, file_idx } => StreamView::Torrent {
                title: title@,
                info_hash: info_hash@,
                file_idx: *file_idx,
            },
            LocalStream::Archive { title, url, binge_group } => StreamView::Archive {
                title: title@,
                url: url@,
                binge_group: binge_group@,
            },
            LocalStream::File { title, url } => StreamView::File { title: title@, url: url@ },
        }
    }
}

/// Whether an item is the one a request is for. When a season is requested,
/// both the season and an episode of the item must match; otherwise the
/// first item is taken.
pub open spec fn is_wanted(item: ItemView, season: Option<i32>, episode: Option<i32>) -> bool {
    season is Some ==> {
        &&& item.metadata.season == season
        &&& item.metadata.episode is Some
        &&& item.metadata.episode->0.contains(
            match episode {
                Some(e) => e,
                None => 1i32,
            },
        )
    }
}

/// The first item that a request is for.
pub open spec fn first_wanted(
    items: Seq<ItemView>,
    season: Option<i32>,
    episode: Option<i32>,
) -> Option<ItemView>
    decreases items.len(),
{
    if items.len() == 0 {
        None
    } else if is_wanted(items[0], season, episode) {
        Some(items[0])
    } else {
        first_wanted(items.skip(1), season, episode)
    }
}

/// A title, or what stands for one that is missing.
pub open spec fn title_or(name: Option<Seq<char>>, missing: Seq<char>) -> Seq<char> {
    match name {
        Some(n) => n,
        None => missing,
    }
}

/// The two halves of an archive member's path: the archive and the member.
pub open spec fn archive_parts(path: Seq<char>) -> Option<(Seq<char>, Seq<char>)> {
    if !text::has_prefix(path, "archive:"@) {
        None
    } else {
        let content = text::strip_prefix(path, "archive:"@);
        match text::find_char(content, '|') {
            Some(i) => Some((content.take(i), content.skip(i + 1))),
            None => None,
        }
    }
}

/// A text percent-encoded for a URL.
pub open spec fn url_part(s: Seq<char>) -> Seq<char> {
    encoding::percent_text(vstd::utf8::encode_utf8(s))
}

/// The stream of an item.
pub open spec fn stream_of(item: ItemView, base_url: Seq<char>) -> StreamView {
    if item.info_hash is Some && item.file_idx is Some {
        StreamView::Torrent {
            title: title_or(item.metadata.name, "Torrent File"@),
            info_hash: item.info_hash->0,
            file_idx: item.file_idx->0,
        }
    } else {
        match archive_parts(item.path) {
            Some((archive, member)) => StreamView::Archive {
                title: title_or(item.metadata.name, "Archive File"@),
                url: base_url + "/zip/stream?archive="@ + url_part(archive) + "&file="@ + url_part(
                    member,
                ),
                binge_group: "archive:"@ + archive,
            },
            None => StreamView::File { title: "Local File"@, url: "file://"@ + item.path },
        }
    }
}

fn title_of(name: &Option<String>, missing: &str) -> (s: String)
    ensures
        s@ == title_or(parser::optional(*name), missing@),
{
    match name {
        Some(n) => n.clone(),
        None => missing.to_owned(),
    }
}

fn holds_episode(episodes: &Vec<i32>, wanted: i32) -> (r: bool)
    ensures
        r == episodes@.contains(wanted),
{
    let mut i: usize = 0;
    while i < episodes.len()
        invariant
            i <= episodes@.len(),
            forall|j: int| 0 <= j < i ==> episodes@[j] != wanted,
        decreases episodes@.len() - i,
    {
        if episodes[i] == wanted {
            return true;
        }
        i += 1;
    }
    false
}

fn wanted(item: &IndexItem, season: Option<i32>, episode: Option<i32>) -> (r: bool)
    ensures
        r == is_wanted(item@, season, episode),
{
    let target: i32 = match season {
        Some(s) => s,
        None => {
            return true;
        },
    };
    let same_season = match item.metadata.season {
        Some(s) => s == target,
        None => false,
    };
    let which: i32 = match episode {
        Some(e) => e,
        None => 1,
    };
    let has_episode = match &item.metadata.episode {
        Some(e) => holds_episode(e, which),
        None => false,
    };
    same_season && has_episode
}

fn split_archive(path: &str) -> (r: Option<(String, String)>)
    ensures
        match r {
            Some((a, m)) => archive_parts(path@) == Some((a@, m@)),
            None => archive_parts(path@) is None,
        },
{
    if !starts_with(path, "archive:") {
        return None;
    }
    let content = without_prefix(path, "archive:");
    let v = chars_of(content.as_str());
    let len: usize = v.len();
    match position(v.as_slice(), '|') {
        Some(i) => {
            proof {
                assert(i < len);
                assert(v@.subrange(0, i as int) =~= v@.take(i as int));
            }
            let archive = substring(v.as_slice(), 0, i);
            let member = string_of(slice_subrange_from(v.as_slice(), i + 1));
            Some((archive, member))
        },
        None => None,
    }
}

fn stream(item: &IndexItem, base_url: &str) -> (s: LocalStream)
    ensures
        s@ == stream_of(item@, base_url@),
{
    match (&item.info_hash, item.file_idx) {
        (Some(hash), Some(file_idx)) => {
            return LocalStream::Torrent {
                title: title_of(&item.metadata.name, "Torrent File"),
                info_hash: hash.clone(),
                file_idx,
            };
        },
        _ => {},
    }
    match split_archive(item.path.as_str()) {
        Some((archive, member)) => {
            let from = url_encode(archive.as_str());
            let file = url_encode(member.as_str());
            LocalStream::Archive {
                title: title_of(&item.metadata.name, "Archive File"),
                url: cat5(
                    base_url,
                    "/zip/stream?archive=",
                    from.as_str(),
                    "&file=",
                    file.as_str(),
                ),
                binge_group: cat2("archive:", archive.as_str()),
            }
        },
        None => LocalStream::File {
            title: "Local File".to_owned(),
            url: cat2("file://", item.path.as_str()),
        },
    }
}

/// Resolve a `local:` stream request against the indexed files for one id:
/// the stream of the first item the request is for, or none.
pub fn resolve_local_stream(
    items: &[IndexItem],
    target_season: Option<i32>,
    target_episode: Option<i32>,
    base_url: &str,
) -> (r: Option<LocalStream>)
    ensures
        match (r, first_wanted(items_view(items@), target_season, target_episode)) {
            (Some(s), Some(item)) => s@ == stream_of(item, base_url@),
            (None, None) => true,
            _ => false,
        },
{
    let ghost all = items_view(items@);
    let mut i: usize = 0;
    proof {
        assert(all.skip(0) =~= all);
    }
    while i < items.len()
        invariant
            i <= items@.len(),
            all == items_view(items@),
            first_wanted(all, target_season, target_episode) == first_wanted(
                all.skip(i as int),
                target_season,
                target_episode,
            ),
        decreases items@.len() - i,
    {
        proof {
            assert(all.skip(i as int)[0] == items@[i as int]@);
            assert(all.skip(i as int).skip(1) =~= all.skip(i + 1));
        }
        if wanted(&items[i], target_season, target_episode) {
            return Some(stream(&items[i], base_url));
        }
        i += 1;
    }
    None
}

// ---------------------------------------------------------------------
// Requests

/// What a stream request asks for.
#[derive(Debug, Clone)]
pub enum StreamRequest {
    /// Nothing that has a stream.
    Nothing,
    /// A file of a torrent that the engine has.
    Torrent { info_hash: String, file_idx: usize },
    /// A file of the index.
    Local { id: String, season: Option<i32>, episode: Option<i32> },
}

/// What a [`StreamRequest`] says.
pub enum RequestView {
    Nothing,
    Torrent { info_hash: Seq<char>, file_idx: nat },
    Local { id: Seq<char>, season: Option<int>, episode: Option<int> },
}

/// A number of a request's part, if the request has the part and it is one.
pub open spec fn part_number(parts: Seq<Seq<char>>, i: int) -> Option<int> {
    if i < parts.len() {
        numbers::signed(parts[i], i32::MIN as int, i32::MAX as int)
    } else {
        None
    }
}

/// What the path of a stream request asks for: `bt:{hash}` or
/// `bt:{hash}:{file}` for a torrent, `{kind}:{id}` or
/// `{kind}:{id}:{season}:{episode}` for the index, with `.json` behind it or
/// not.
pub open spec fn request_spec(id_ext: Seq<char>) -> RequestView {
    let parts = text::split_spec(text::strip_suffix(id_ext, ".json"@), ':');
    if parts.len() < 2 {
        RequestView::Nothing
    } else if parts[0] == "bt"@ {
        RequestView::Torrent {
            info_hash: text::lowered(parts[1]),
            file_idx: if parts.len() > 2 {
                match numbers::unsigned(parts[2], usize::MAX as nat) {
                    Some(n) => n,
                    None => 0,
                }
            } else {
                0
            },
        }
    } else {
        RequestView::Local {
            id: parts[0] + ":"@ + parts[1],
            season: part_number(parts, 2),
            episode: part_number(parts, 3),
        }
    }
}

/// An optional number as a whole number.
pub open spec fn optional_int(n: Option<i32>) -> Option<int> {
    match n {
        Some(n) => Some(n as int),
        None => None,
    }
}

impl View for StreamRequest {
    type V = RequestView;

    open spec fn view(&self) -> RequestView {
        match self {
            StreamRequest::Nothing => RequestView::Nothing,
            StreamRequest::Torrent { info_hash, file_idx } => RequestView::Torrent {
                info_hash: info_hash@,
                file_idx: *file_idx as nat,
            },
            StreamRequest::Local { id, season, episode } => RequestView::Local {
                id: id@,
                season: optional_int(*season),
                episode: optional_int(*episode),
            },
        }
    }
}

fn number_of_part(parts: &Vec<String>, i: usize) -> (r: Option<i32>)
    ensures
        optional_int(r) == part_number(text::texts(parts@), i as int),
{
    if i >= parts.len() {
        return None;
    }
    proof {
        assert(text::texts(parts@)[i as int] == parts@[i as int]@);
    }
    parse_i32(chars_of(parts[i].as_str()).as_slice())
}

/// Read the path of a stream request.
pub fn parse_stream_request(id_ext: &str) -> (r: StreamRequest)
    ensures
        r@ == request_spec(id_ext@),
{
    let id = without_suffix(id_ext, ".json");
    let parts = split(id.as_str(), ':');
    if parts.len() < 2 {
        return StreamRequest::Nothing;
    }
    proof {
        assert(text::texts(parts@)[0] == parts@[0]@);
        assert(text::texts(parts@)[1] == parts@[1]@);
    }
    if same(parts[0].as_str(), "bt") {
        let info_hash = to_lowercase(parts[1].as_str());
        let mut file_idx: usize = 0;
        if parts.len() > 2 {
            proof {
                assert(text::texts(parts@)[2] == parts@[2]@);
            }
            match parse_unsigned(chars_of(parts[2].as_str()).as_slice(), usize::MAX as u64) {
                Some(n) => {
                    file_idx = n as usize;
                },
                None => {},
            }
        }
        return StreamRequest::Torrent { info_hash, file_idx };
    }
    StreamRequest::Local {
        id: cat3(parts[0].as_str(), ":", parts[1].as_str()),
        season: number_of_part(&parts, 2),
        episode: number_of_part(&parts, 3),
    }
}

/// What the path of a title request asks for.
#[derive(Debug, Clone)]
pub struct MetaRequest {
    /// The id asked for.
    pub id: String,
    /// The hash of the torrent, where the id names one.
    pub info_hash: Option<String>,
}

/// Read the path of a title request: `bt:{hash}` names a torrent, anything
/// else an id of the index, with `.json` behind it or not.
pub fn parse_meta_request(id_ext: &str) -> (r: MetaRequest)
    ensures
        r.id@ == text::strip_suffix(id_ext@, ".json"@),
        parser::optional(r.info_hash) == (if text::has_prefix(r.id@, "bt:"@) {
            Some(text::lowered(text::strip_prefix(r.id@, "bt:"@)))
        } else {
            None
        }),
{
    let id = without_suffix(id_ext, ".json");
    let info_hash: Option<String> = if starts_with(id.as_str(), "bt:") {
        Some(to_lowercase(without_prefix(id.as_str(), "bt:").as_str()))
    } else {
        None
    };
    MetaRequest { id, info_hash }
}

// ---------------------------------------------------------------------
// Answers

/// The title of the file that a torrent stream plays.
pub fn torrent_stream(info_hash: &str, file_idx: usize, files: &Vec<String>) -> (r: LocalStream)
    ensures
        r@ == (StreamView::Torrent {
            title: if file_idx < files@.len() {
                files@[file_idx as int]@
            } else {
                "Unknown"@
            },
            info_hash: info_hash@,
            file_idx,
        }),
{
    let title: String = if file_idx < files.len() {
        files[file_idx].clone()
    } else {
        "Unknown".to_owned()
    };
    LocalStream::Torrent { title, info_hash: info_hash.to_owned(), file_idx }
}

/// One video of a torrent.
#[derive(Debug, Clone)]
pub struct TorrentVideo {
    pub id: String,
    pub title: String,
    pub file_idx: usize,
}

/// What a [`TorrentVideo`] says.
pub open spec fn torrent_video_spec(id: Seq<char>, names: Seq<Seq<char>>, i: int) -> (
    Seq<char>,
    Seq<char>,
    nat,
) {
    (id + ":"@ + text::dec(i as nat), names[i], i as nat)
}

/// What a list of videos says.
pub open spec fn torrent_videos_view(v: Seq<TorrentVideo>) -> Seq<(Seq<char>, Seq<char>, nat)> {
    v.map_values(|x: TorrentVideo| (x.id@, x.title@, x.file_idx as nat))
}

/// The videos of a torrent: one per file, numbered from zero.
pub fn torrent_videos(id: &str, files: &Vec<String>) -> (r: Vec<TorrentVideo>)
    ensures
        torrent_videos_view(r@) == Seq::new(
            files@.len(),
            |i: int| torrent_video_spec(id@, text::texts(files@), i),
        ),
{
    let mut out: Vec<TorrentVideo> = Vec::new();
    let mut i: usize = 0;
    while i < files.len()
        invariant
            i <= files@.len(),
            out@.len() == i,
            forall|j: int|
                0 <= j < i ==> #[trigger] torrent_videos_view(out@)[j] == torrent_video_spec(
                    id@,
                    text::texts(files@),
                    j,
                ),
        decreases files@.len() - i,
    {
        let number = decimal(i as u64);
        let ghost before = torrent_videos_view(out@);
        out.push(
            TorrentVideo {
                id: cat3(id, ":", number.as_str()),
                title: files[i].clone(),
                file_idx: i,
            },
        );
        proof {
            assert forall|j: int| 0 <= j < i + 1 implies #[trigger] torrent_videos_view(out@)[j]
                == torrent_video_spec(id@, text::texts(files@), j) by {
                if j < i {
                    assert(torrent_videos_view(out@)[j] == before[j]);
                }
            }
        }
        i += 1;
    }
    proof {
        assert(torrent_videos_view(out@) =~= Seq::new(
            files@.len(),
            |i: int| torrent_video_spec(id@, text::texts(files@), i),
        ));
    }
    out
}

/// The name a torrent is shown under.
pub fn torrent_name(name: &str) -> (r: String)
    ensures
        r@ == (if name@.len() == 0 {
            "Torrent"@
        } else {
            name@
        }),
{
    if name.is_empty() {
        "Torrent".to_owned()
    } else {
        name.to_owned()
    }
}

/// One video of an indexed title.
#[derive(Debug, Clone)]
pub struct LocalVideo {
    pub id: String,
    pub title: Option<String>,
    pub season: i32,
    pub episode: i32,
    pub released: String,
}

/// What a [`LocalVideo`] says.
pub struct VideoView {
    pub id: Seq<char>,
    pub title: Option<Seq<char>>,
    pub season: i32,
    pub episode: i32,
    pub released: Seq<char>,
}

impl View for LocalVideo {
    type V = VideoView;

    open spec fn view(&self) -> VideoView {
        VideoView {
            id: self.id@,
            title: parser::optional(self.title),
            season: self.season,
            episode: self.episode,
            released: self.released@,
        }
    }
}

/// A number, or what stands for one that is missing.
pub open spec fn number_or(n: Option<i32>, missing: i32) -> i32 {
    match n {
        Some(n) => n,
        None => missing,
    }
}

/// The video of an indexed file: a missing season or episode is the first,
/// a missing year is 2020.
pub open spec fn video_spec(id: Seq<char>, item: ItemView) -> VideoView {
    let season = number_or(item.metadata.season, 1);
    let episode = match item.metadata.episode {
        Some(e) => e[0],
        None => 1i32,
    };
    VideoView {
        id: id + ":"@ + text::signed_dec(season as int) + ":"@ + text::signed_dec(episode as int),
        title: item.metadata.name,
        season,
        episode,
        released: text::signed_dec(number_or(item.metadata.year, 2020) as int),
    }
}

/// The video of an indexed file.
pub fn local_video(id: &str, item: &IndexItem) -> (v: LocalVideo)
    requires
        item@.metadata.episode is Some ==> item@.metadata.episode->0.len() > 0,
    ensures
        v@ == video_spec(id@, item@),
{
    let season: i32 = match item.metadata.season {
        Some(s) => s,
        None => 1,
    };
    let episode: i32 = match &item.metadata.episode {
        Some(e) => e[0],
        None => 1,
    };
    let year: i32 = match item.metadata.year {
        Some(y) => y,
        None => 2020,
    };
    let title: Option<String> = match &item.metadata.name {
        Some(n) => Some(n.clone()),
        None => None,
    };
    LocalVideo {
        id: cat5(
            id,
            ":",
            signed_decimal(season).as_str(),
            ":",
            signed_decimal(episode).as_str(),
        ),
        title,
        season,
        episode,
        released: signed_decimal(year),
    }
}

/// One title of the catalog.
#[derive(Debug, Clone)]
pub struct CatalogEntry {
    pub id: String,
    pub type_: String,
    pub name: String,
    pub description: String,
}

/// What a [`CatalogEntry`] says.
pub struct CatalogView {
    pub id: Seq<char>,
    pub type_: Seq<char>,
    pub name: Seq<char>,
    pub description: Seq<char>,
}

impl View for CatalogEntry {
    type V = CatalogView;

    open spec fn view(&self) -> CatalogView {
        CatalogView {
            id: self.id@,
            type_: self.type_@,
            name: self.name@,
            description: self.description@,
        }
    }
}

/// What tells two titles apart: the IMDB id, or the path where there is
/// none.
pub open spec fn title_key(item: ItemView) -> Seq<char> {
    match item.imdb_id {
        Some(id) => id,
        None => item.path,
    }
}

/// The catalog's entry for an item.
pub open spec fn entry_spec(item: ItemView) -> CatalogView {
    CatalogView {
        id: item.id,
        type_: item.metadata.type_,
        name: title_or(item.metadata.name, "Unknown"@),
        description: "Local file: "@ + item.path,
    }
}

/// The first item of each title of a type, in the order of the items.
pub open spec fn titles_spec(items: Seq<ItemView>, type_: Seq<char>) -> Seq<ItemView>
    decreases items.len(),
{
    if items.len() == 0 {
        Seq::empty()
    } else {
        let before = titles_spec(items.drop_last(), type_);
        let item = items.last();
        if item.metadata.type_ == type_ && !has_title(before, title_key(item)) {
            before.push(item)
        } else {
            before
        }
    }
}

/// Whether a title is among items.
pub open spec fn has_title(items: Seq<ItemView>, key: Seq<char>) -> bool {
    exists|i: int| 0 <= i < items.len() && title_key(#[trigger] items[i]) == key
}

fn key_of(item: &IndexItem) -> (s: String)
    ensures
        s@ == title_key(item@),
{
    match &item.imdb_id {
        Some(id) => id.clone(),
        None => item.path.clone(),
    }
}

fn entry_of(item: &IndexItem) -> (e: CatalogEntry)
    ensures
        e@ == entry_spec(item@),
{
    CatalogEntry {
        id: item.id.clone(),
        type_: item.metadata.type_.clone(),
        name: title_of(&item.metadata.name, "Unknown"),
        description: cat2("Local file: ", item.path.as_str()),
    }
}

/// What a list of entries says.
pub open spec fn entries_view(entries: Seq<CatalogEntry>) -> Seq<CatalogView> {
    entries.map_values(|e: CatalogEntry| e@)
}

/// The catalog of a type: one entry per title, for the first item of it.
pub fn catalog(items: &[IndexItem], type_: &str) -> (r: Vec<CatalogEntry>)
    ensures
        entries_view(r@) == titles_spec(items_view(items@), type_@).map_values(
            |i: ItemView| entry_spec(i),
        ),
{
    let mut out: Vec<CatalogEntry> = Vec::new();
    let mut keys: Vec<String> = Vec::new();
    let ghost all = items_view(items@);
    let mut i: usize = 0;
    proof {
        assert(entries_view(out@) =~= titles_spec(all.take(0), type_@).map_values(
            |i: ItemView| entry_spec(i),
        ));
    }
    while i < items.len()
        invariant
            i <= items@.len(),
            all == items_view(items@),
            keys@.len() == titles_spec(all.take(i as int), type_@).len(),
            forall|j: int|
                0 <= j < keys@.len() ==> (#[trigger] keys@[j])@ == title_key(
                    titles_spec(all.take(i as int), type_@)[j],
                ),
            entries_view(out@) == titles_spec(all.take(i as int), type_@).map_values(
                |i: ItemView| entry_spec(i),
            ),
        decreases items@.len() - i,
    {
        let item = &items[i];
        let ghost before = titles_spec(all.take(i as int), type_@);
        proof {
            assert(all.take(i + 1).drop_last() =~= all.take(i as int));
            assert(all.take(i + 1).last() == item@);
        }
        if same(item.metadata.type_.as_str(), type_) {
            let key = key_of(item);
            let mut known = false;
            let mut k: usize = 0;
            while k < keys.len()
                invariant
                    k <= keys@.len(),
                    keys@.len() == before.len(),
                    forall|j: int|
                        0 <= j < keys@.len() ==> (#[trigger] keys@[j])@ == title_key(before[j]),
                    known == exists|j: int| 0 <= j < k && title_key(#[trigger] before[j]) == key@,
                decreases keys@.len() - k,
            {
                if same(keys[k].as_str(), key.as_str()) {
                    known = true;
                    proof {
                        assert(title_key(before[k as int]) == key@);
                    }
                }
                k += 1;
            }
            if !known {
                let entry = entry_of(item);
                let ghost seen = entry@;
                let ghost shown = entries_view(out@);
                out.push(entry);
                proof {
                    assert(entries_view(out@) =~= shown.push(seen));
                    assert(before.push(item@).map_values(|i: ItemView| entry_spec(i))
                        =~= before.map_values(|i: ItemView| entry_spec(i)).push(
                        entry_spec(item@),
                    ));
                }
                keys.push(key);
            }
        }
        i += 1;
    }
    proof {
        assert(all.take(all.len() as int) =~= all);
    }
    out
}

/// No title stands in the catalog twice.
pub proof fn a_title_stands_in_the_catalog_once(items: Seq<ItemView>, type_: Seq<char>, i: int, j: int)
    requires
        0 <= i < j < titles_spec(items, type_).len(),
    ensures
        title_key(titles_spec(items, type_)[i]) != title_key(titles_spec(items, type_)[j]),
    decreases items.len(),
{
    let before = titles_spec(items.drop_last(), type_);
    if j < before.len() {
        a_title_stands_in_the_catalog_once(items.drop_last(), type_, i, j);
    } else {
        assert(title_key(before[i]) != title_key(items.last()));
    }
}

/// Every item of the type has its title in the catalog.
pub proof fn every_title_of_the_type_stands_in_the_catalog(
    items: Seq<ItemView>,
    type_: Seq<char>,
    i: int,
)
    requires
        0 <= i < items.len(),
        items[i].metadata.type_ == type_,
    ensures
        has_title(titles_spec(items, type_), title_key(items[i])),
    decreases items.len(),
{
    let before = titles_spec(items.drop_last(), type_);
    let all = titles_spec(items, type_);
    if i < items.len() - 1 {
        every_title_of_the_type_stands_in_the_catalog(items.drop_last(), type_, i);
        let k = choose|k: int|
            0 <= k < before.len() && title_key(#[trigger] before[k]) == title_key(items[i]);
        assert(all[k] == before[k]);
    } else if !has_title(before, title_key(items[i])) {
        assert(all[all.len() - 1] == items[i]);
    } else {
        let k = choose|k: int|
            0 <= k < before.len() && title_key(#[trigger] before[k]) == title_key(items[i]);
        assert(all[k] == before[k]);
    }
}

// ---------------------------------------------------------------------
// Which stream is given

/// Where a season is asked for and a stream is given, it is that of an item
/// of the season asked for whose episodes hold the episode asked for, the
/// first where none is, and no item before it is of that season and holds
/// that episode; where none is given, no item is.
pub proof fn the_episode_asked_for_is_given(
    items: Seq<ItemView>,
    season: i32,
    episode: Option<i32>,
    wanted: i32,
)
    requires
        episode == Some(wanted) || (episode is None && wanted == 1),
    ensures
        match first_wanted(items, Some(season), episode) {
            Some(item) => exists|i: int|
                0 <= i < items.len() && #[trigger] items[i] == item && item.metadata.season == Some(
                    season,
                ) && item.metadata.episode is Some && item.metadata.episode->0.contains(wanted)
                    && forall|j: int|
                    0 <= j < i && (#[trigger] items[j]).metadata.season == Some(season)
                        && items[j].metadata.episode is Some
                        ==> !items[j].metadata.episode->0.contains(wanted),
            None => forall|j: int|
                0 <= j < items.len() && (#[trigger] items[j]).metadata.season == Some(season)
                    && items[j].metadata.episode is Some
                    ==> !items[j].metadata.episode->0.contains(wanted),
        },
    decreases items.len(),
{
    if items.len() > 0 {
        let first = items[0];
        let found = first.metadata.season == Some(season) && first.metadata.episode is Some
            && first.metadata.episode->0.contains(wanted);
        assert(is_wanted(first, Some(season), episode) == found);
        let rest = items.skip(1);
        the_episode_asked_for_is_given(rest, season, episode, wanted);
        if !found {
            match first_wanted(rest, Some(season), episode) {
                Some(item) => {
                    let i = choose|i: int|
                        0 <= i < rest.len() && #[trigger] rest[i] == item && forall|j: int|
                            0 <= j < i && (#[trigger] rest[j]).metadata.season == Some(season)
                                && rest[j].metadata.episode is Some
                                ==> !rest[j].metadata.episode->0.contains(wanted);
                    assert(items[i + 1] == item);
                    assert forall|j: int|
                        0 <= j < i + 1 && (#[trigger] items[j]).metadata.season == Some(season)
                            && items[j].metadata.episode is Some implies
                        !items[j].metadata.episode->0.contains(wanted) by {
                        if j > 0 {
                            assert(rest[j - 1] == items[j]);
                        }
                    }
                },
                None => {
                    assert forall|j: int|
                        0 <= j < items.len() && (#[trigger] items[j]).metadata.season == Some(
                            season,
                        ) && items[j].metadata.episode is Some implies
                        !items[j].metadata.episode->0.contains(wanted) by {
                        if j > 0 {
                            assert(rest[j - 1] == items[j]);
                        }
                    }
                },
            }
        }
    }
}

/// Where no season is asked for, the first item is given, whatever it says
/// of seasons and episodes, and nothing only where there is no item.
pub proof fn without_a_season_the_first_item_is_given(items: Seq<ItemView>, episode: Option<i32>)
    ensures
        first_wanted(items, None, episode) == (if items.len() > 0 {
            Some(items[0])
        } else {
            None
        }),
{
}

/// A file of a torrent is streamed by the torrent's hash and the file's
/// number, under the item's name where it has one.
pub proof fn a_torrent_file_is_streamed_from_its_torrent(
    item: ItemView,
    base_url: Seq<char>,
    hash: Seq<char>,
    file: usize,
)
    requires
        item.info_hash == Some(hash),
        item.file_idx == Some(file),
    ensures
        stream_of(item, base_url) matches StreamView::Torrent { title, info_hash, file_idx }
            && info_hash == hash && file_idx == file && (match item.metadata.name {
            Some(name) => title == name,
            None => title == "Torrent File"@,
        }),
{
}

/// A member of an archive is streamed from this server, which is told the
/// archive and the member, each percent-encoded; the members of one archive
/// are one group.
pub proof fn a_member_is_streamed_from_its_archive(
    item: ItemView,
    base_url: Seq<char>,
    archive: Seq<char>,
    member: Seq<char>,
)
    requires
        item.info_hash is None || item.file_idx is None,
        item.path == "archive:"@ + archive + "|"@ + member,
        forall|i: int| 0 <= i < archive.len() ==> archive[i] != '|',
    ensures
        stream_of(item, base_url) matches StreamView::Archive { title, url, binge_group } && url
            == base_url + "/zip/stream?archive="@ + url_part(archive) + "&file="@ + url_part(member)
            && binge_group == "archive:"@ + archive && (match item.metadata.name {
            Some(name) => title == name,
            None => title == "Archive File"@,
        }),
{
    reveal_strlit("archive:");
    reveal_strlit("|");
    let content = archive + "|"@ + member;
    assert(item.path =~= "archive:"@ + content);
    assert(item.path.take("archive:"@.len() as int) =~= "archive:"@);
    assert(item.path.skip("archive:"@.len() as int) =~= content);
    text::lemma_find_char(content, '|');
    assert(content[archive.len() as int] == '|');
    let at = text::find_char(content, '|')->0;
    if at < archive.len() {
        assert(content[at] == archive[at]);
    }
    assert(at == archive.len());
    assert(content.take(at) =~= archive);
    assert(content.skip(at + 1) =~= member);
}

/// A file on disk is opened where it lies.
pub proof fn a_file_is_opened_where_it_lies(item: ItemView, base_url: Seq<char>)
    requires
        item.info_hash is None || item.file_idx is None,
        item.path.len() < 8 || item.path.take(8) != "archive:"@,
    ensures
        stream_of(item, base_url) matches StreamView::File { title, url } && title == "Local File"@
            && url == "file://"@ + item.path,
{
    reveal_strlit("archive:");
}

// ---------------------------------------------------------------------
// What is asked for

proof fn lemma_request_parts(parts: Seq<Seq<char>>, path: Seq<char>)
    requires
        parts.len() > 0,
        forall|k: int, i: int|
            0 <= k < parts.len() && 0 <= i < parts[k].len() ==> #[trigger] parts[k][i] != ':',
        path == text::join_spec(parts, seq![':']) + ".json"@,
    ensures
        text::split_spec(text::strip_suffix(path, ".json"@), ':') == parts,
{
    let t = text::join_spec(parts, seq![':']);
    assert(path.skip(path.len() - ".json"@.len()) =~= ".json"@);
    assert(path.take(path.len() - ".json"@.len()) =~= t);
    text::what_is_joined_is_split_again(parts, ':');
}

proof fn lemma_digits_hold_no_colon(n: int)
    ensures
        forall|i: int| 0 <= i < text::signed_dec(n).len() ==> text::signed_dec(n)[i] != ':',
{
    reveal_strlit("-");
    let m = if n < 0 {
        (-n) as nat
    } else {
        n as nat
    };
    numbers::a_number_written_is_read_back(m);
    assert forall|i: int| 0 <= i < text::signed_dec(n).len() implies text::signed_dec(n)[i]
        != ':' by {
        if n < 0 && i > 0 {
            assert(text::signed_dec(n)[i] == text::dec(m)[i - 1]);
            assert(numbers::is_digit(text::dec(m)[i - 1]));
        } else if n >= 0 {
            assert(numbers::is_digit(text::dec(m)[i]));
        }
    }
}

/// A request of a kind, an id, a season and an episode asks for that
/// episode of what is indexed under the kind and the id.
pub proof fn an_episode_is_asked_for_by_number(
    kind: Seq<char>,
    name: Seq<char>,
    season: i32,
    episode: i32,
)
    requires
        kind != "bt"@,
        forall|i: int| 0 <= i < kind.len() ==> kind[i] != ':',
        forall|i: int| 0 <= i < name.len() ==> name[i] != ':',
    ensures
        request_spec(
            kind + ":"@ + name + ":"@ + text::signed_dec(season as int) + ":"@ + text::signed_dec(
                episode as int,
            ) + ".json"@,
        ) == (RequestView::Local {
            id: kind + ":"@ + name,
            season: Some(season as int),
            episode: Some(episode as int),
        }),
{
    reveal_strlit(":");
    let s = text::signed_dec(season as int);
    let e = text::signed_dec(episode as int);
    let parts = seq![kind, name, s, e];
    lemma_digits_hold_no_colon(season as int);
    lemma_digits_hold_no_colon(episode as int);
    assert forall|k: int, i: int| 0 <= k < parts.len() && 0 <= i < parts[k].len() implies
        #[trigger] parts[k][i] != ':' by {
        assert(k == 0 || k == 1 || k == 2 || k == 3);
    }
    lemma_four(kind, name, s, e);
    let path = kind + ":"@ + name + ":"@ + s + ":"@ + e + ".json"@;
    assert(path =~= text::join_spec(parts, seq![':']) + ".json"@);
    lemma_request_parts(parts, path);
    numbers::a_whole_number_written_is_read_back(
        season as int,
        i32::MIN as int,
        i32::MAX as int,
    );
    numbers::a_whole_number_written_is_read_back(
        episode as int,
        i32::MIN as int,
        i32::MAX as int,
    );
}

proof fn lemma_four(a: Seq<char>, b: Seq<char>, c: Seq<char>, d: Seq<char>)
    ensures
        text::join_spec(seq![a, b], seq![':']) == a + seq![':'] + b,
        text::join_spec(seq![a, b, c], seq![':']) == a + seq![':'] + b + seq![':'] + c,
        text::join_spec(seq![a, b, c, d], seq![':']) == a + seq![':'] + b + seq![':'] + c + seq![
            ':',
        ] + d,
{
    let one = seq![a];
    let two = seq![a, b];
    let three = seq![a, b, c];
    let four = seq![a, b, c, d];
    assert(two.drop_last() =~= one);
    assert(three.drop_last() =~= two);
    assert(four.drop_last() =~= three);
    assert(text::join_spec(one, seq![':']) == a);
    assert(text::join_spec(two, seq![':']) == a + seq![':'] + b);
    assert(text::join_spec(three, seq![':']) == a + seq![':'] + b + seq![':'] + c);
}

/// A request of a kind and an id alone asks for what is indexed under them,
/// whatever its season and episode.
pub proof fn a_title_is_asked_for_by_its_id(kind: Seq<char>, name: Seq<char>)
    requires
        kind != "bt"@,
        forall|i: int| 0 <= i < kind.len() ==> kind[i] != ':',
        forall|i: int| 0 <= i < name.len() ==> name[i] != ':',
    ensures
        request_spec(kind + ":"@ + name + ".json"@) == (RequestView::Local {
            id: kind + ":"@ + name,
            season: None,
            episode: None,
        }),
{
    reveal_strlit(":");
    let parts = seq![kind, name];
    assert forall|k: int, i: int| 0 <= k < parts.len() && 0 <= i < parts[k].len() implies
        #[trigger] parts[k][i] != ':' by {
        assert(k == 0 || k == 1);
    }
    lemma_four(kind, name, kind, name);
    let path = kind + ":"@ + name + ".json"@;
    assert(path =~= text::join_spec(parts, seq![':']) + ".json"@);
    lemma_request_parts(parts, path);
}

/// A request of `bt` and a hash asks for the first file of that torrent, in
/// lower case, and one with a number behind for the file of that number.
pub proof fn a_torrent_file_is_asked_for_by_number(hash: Seq<char>, file: usize)
    requires
        forall|i: int| 0 <= i < hash.len() ==> hash[i] != ':',
    ensures
        request_spec("bt:"@ + hash + ".json"@) == (RequestView::Torrent {
            info_hash: text::lowered(hash),
            file_idx: 0,
        }),
        request_spec("bt:"@ + hash + ":"@ + text::dec(file as nat) + ".json"@) == (
        RequestView::Torrent { info_hash: text::lowered(hash), file_idx: file as nat }),
{
    reveal_strlit(":");
    reveal_strlit("bt");
    reveal_strlit("bt:");
    let n = text::dec(file as nat);
    lemma_digits_hold_no_colon(file as int);
    assert(n == text::signed_dec(file as int));
    let short = seq!["bt"@, hash];
    let long = seq!["bt"@, hash, n];
    assert forall|k: int, i: int| 0 <= k < short.len() && 0 <= i < short[k].len() implies
        #[trigger] short[k][i] != ':' by {
        assert(k == 0 || k == 1);
    }
    assert forall|k: int, i: int| 0 <= k < long.len() && 0 <= i < long[k].len() implies
        #[trigger] long[k][i] != ':' by {
        assert(k == 0 || k == 1 || k == 2);
    }
    lemma_four("bt"@, hash, n, n);
    assert("bt:"@ =~= "bt"@ + seq![':']);
    let a = "bt:"@ + hash + ".json"@;
    let b = "bt:"@ + hash + ":"@ + n + ".json"@;
    assert(a =~= text::join_spec(short, seq![':']) + ".json"@);
    assert(b =~= text::join_spec(long, seq![':']) + ".json"@);
    lemma_request_parts(short, a);
    lemma_request_parts(long, b);
    numbers::a_whole_number_written_is_read_back(file as int, 0, usize::MAX as int);
}

/// A video that is shown is asked for by the id it is shown under: of an
/// indexed file, its season and the first of its episodes, one where it has
/// none.
pub proof fn a_video_shown_is_a_video_asked_for(kind: Seq<char>, name: Seq<char>, item: ItemView)
    requires
        kind != "bt"@,
        forall|i: int| 0 <= i < kind.len() ==> kind[i] != ':',
        forall|i: int| 0 <= i < name.len() ==> name[i] != ':',
    ensures
        request_spec(video_spec(kind + ":"@ + name, item).id + ".json"@) == (RequestView::Local {
            id: kind + ":"@ + name,
            season: match item.metadata.season {
                Some(s) => Some(s as int),
                None => Some(1int),
            },
            episode: match item.metadata.episode {
                Some(e) => Some(e[0] as int),
                None => Some(1int),
            },
        }),
{
    let v = video_spec(kind + ":"@ + name, item);
    an_episode_is_asked_for_by_number(kind, name, v.season, v.episode);
}

/// A file that a torrent is shown with is asked for by the id it is shown
/// under, and is the file of its number.
pub proof fn a_torrent_video_shown_is_a_file_asked_for(
    hash: Seq<char>,
    names: Seq<Seq<char>>,
    i: int,
)
    requires
        forall|k: int| 0 <= k < hash.len() ==> hash[k] != ':',
        0 <= i < names.len(),
        i <= usize::MAX,
    ensures
        ({
            let (id, title, file) = torrent_video_spec("bt:"@ + hash, names, i);
            &&& title == names[i]
            &&& file == i
            &&& request_spec(id + ".json"@) == (RequestView::Torrent {
                info_hash: text::lowered(hash),
                file_idx: i as nat,
            })
        }),
{
    a_torrent_file_is_asked_for_by_number(hash, i as usize);
}

// ---------------------------------------------------------------------
// The catalog

/// Whether two items are of one title: they have one IMDB id, or one path
/// where they have none.
pub open spec fn one_title(a: ItemView, b: ItemView) -> bool {
    match (a.imdb_id, b.imdb_id) {
        (Some(x), Some(y)) => x == y,
        (Some(x), None) => x == b.path,
        (None, Some(y)) => a.path == y,
        (None, None) => a.path == b.path,
    }
}

/// Whether an item is of a type and no item of the type before it is of its
/// title.
pub open spec fn is_first_of_title(items: Seq<ItemView>, type_: Seq<char>, j: int) -> bool {
    &&& 0 <= j < items.len()
    &&& items[j].metadata.type_ == type_
    &&& forall|i: int|
        0 <= i < j && (#[trigger] items[i]).metadata.type_ == type_ ==> !one_title(
            items[i],
            items[j],
        )
}

/// The catalog of a type shows, in the order they are indexed in, the items
/// of the type whose title no item of the type before them has, and no
/// other.
pub proof fn the_first_item_of_a_title_is_shown(items: Seq<ItemView>, type_: Seq<char>) -> (at: Seq<
    int,
>)
    ensures
        at.len() == titles_spec(items, type_).len(),
        forall|k: int|
            0 <= k < at.len() ==> is_first_of_title(items, type_, #[trigger] at[k])
                && titles_spec(items, type_)[k] == items[at[k]],
        forall|k: int, l: int| 0 <= k < l < at.len() ==> #[trigger] at[k] < #[trigger] at[l],
        forall|j: int| #[trigger] is_first_of_title(items, type_, j) ==> at.contains(j),
    decreases items.len(),
{
    if items.len() == 0 {
        Seq::empty()
    } else {
        let front = items.drop_last();
        let n = items.len() - 1;
        let before = titles_spec(front, type_);
        let had = the_first_item_of_a_title_is_shown(front, type_);
        let item = items.last();
        let fresh = item.metadata.type_ == type_ && !has_title(before, title_key(item));
        let at = if fresh {
            had.push(n)
        } else {
            had
        };
        assert forall|j: int| 0 <= j < n implies #[trigger] is_first_of_title(items, type_, j)
            == is_first_of_title(front, type_, j) by {
            assert forall|i: int| 0 <= i <= j implies front[i] == items[i] by {
            }
            if is_first_of_title(items, type_, j) {
                assert forall|i: int|
                    0 <= i < j && (#[trigger] front[i]).metadata.type_ == type_ implies !one_title(
                    front[i],
                    front[j],
                ) by {
                    assert(items[i] == front[i]);
                }
            }
            if is_first_of_title(front, type_, j) {
                assert forall|i: int|
                    0 <= i < j && (#[trigger] items[i]).metadata.type_ == type_ implies !one_title(
                    items[i],
                    items[j],
                ) by {
                    assert(front[i] == items[i]);
                }
            }
        }
        assert(is_first_of_title(items, type_, n) == fresh) by {
            if fresh {
                assert forall|i: int|
                    0 <= i < n && (#[trigger] items[i]).metadata.type_ == type_ implies !one_title(
                    items[i],
                    items[n],
                ) by {
                    assert(front[i] == items[i]);
                    every_title_of_the_type_stands_in_the_catalog(front, type_, i);
                    if title_key(items[i]) == title_key(item) {
                        assert(has_title(before, title_key(item)));
                    }
                }
            } else if item.metadata.type_ == type_ {
                let k = choose|k: int|
                    0 <= k < before.len() && title_key(#[trigger] before[k]) == title_key(item);
                assert(is_first_of_title(front, type_, had[k]));
                assert(items[had[k]] == front[had[k]]);
                assert(one_title(items[had[k]], items[n]));
            }
        }
        assert forall|k: int| 0 <= k < at.len() implies is_first_of_title(
            items,
            type_,
            #[trigger] at[k],
        ) && titles_spec(items, type_)[k] == items[at[k]] by {
            if k < had.len() {
                assert(at[k] == had[k]);
                assert(is_first_of_title(front, type_, had[k]));
                assert(front[had[k]] == items[had[k]]);
            }
        }
        assert forall|j: int| #[trigger] is_first_of_title(items, type_, j) implies at.contains(
            j,
        ) by {
            if j < n {
                assert(is_first_of_title(front, type_, j));
                let k = choose|k: int| 0 <= k < had.len() && had[k] == j;
                assert(at[k] == j);
            } else {
                assert(at[had.len() as int] == j);
            }
        }
        assert forall|k: int, l: int| 0 <= k < l < at.len() implies #[trigger] at[k] < #[trigger] at[l] by {
            assert(at[k] == had[k]);
            assert(is_first_of_title(front, type_, had[k]));
            if l < had.len() {
                assert(at[l] == had[l]);
            }
        }
        at
    }
}

/// A title is shown under its item's id and type, by the item's name where
/// it has one.
pub proof fn a_title_is_shown_as_its_item_says(item: ItemView)
    ensures
        entry_spec(item).id == item.id,
        entry_spec(item).type_ == item.metadata.type_,
        item.metadata.name matches Some(name) ==> entry_spec(item).name == name,
        item.metadata.name is None ==> entry_spec(item).name == "Unknown"@,
        entry_spec(item).description == "Local file: "@ + item.path,
{
}

/// What stands in the place of a number and does not begin as one does asks
/// for no number: the first file of a torrent, or a title without a season.
pub proof fn what_is_no_number_asks_for_none(kind: Seq<char>, name: Seq<char>, third: Seq<char>)
    requires
        forall|i: int| 0 <= i < kind.len() ==> kind[i] != ':',
        forall|i: int| 0 <= i < name.len() ==> name[i] != ':',
        forall|i: int| 0 <= i < third.len() ==> third[i] != ':',
        third.len() > 0 ==> third[0] != '+' && third[0] != '-' && !('0' <= third[0] <= '9'),
    ensures
        ({
            let request = request_spec(kind + ":"@ + name + ":"@ + third + ".json"@);
            &&& kind == "bt"@ ==> request == (RequestView::Torrent {
                info_hash: text::lowered(name),
                file_idx: 0,
            })
            &&& kind != "bt"@ ==> request == (RequestView::Local {
                id: kind + ":"@ + name,
                season: None,
                episode: None,
            })
        }),
{
    reveal_strlit(":");
    let parts = seq![kind, name, third];
    assert forall|k: int, i: int| 0 <= k < parts.len() && 0 <= i < parts[k].len() implies
        #[trigger] parts[k][i] != ':' by {
        assert(k == 0 || k == 1 || k == 2);
    }
    lemma_four(kind, name, third, third);
    let path = kind + ":"@ + name + ":"@ + third + ".json"@;
    assert(path =~= text::join_spec(parts, seq![':']) + ".json"@);
    lemma_request_parts(parts, path);
    if third.len() > 0 {
        assert(!numbers::is_digit(third[0]));
    }
    assert(!numbers::all_digits(third));
}

/// A request of a single part asks for nothing.
pub proof fn a_single_part_asks_for_nothing(part: Seq<char>)
    requires
        forall|i: int| 0 <= i < part.len() ==> part[i] != ':',
    ensures
        request_spec(part + ".json"@) is Nothing,
{
    let parts = seq![part];
    assert forall|k: int, i: int| 0 <= k < parts.len() && 0 <= i < parts[k].len() implies
        #[trigger] parts[k][i] != ':' by {
        assert(k == 0);
    }
    reveal_with_fuel(text::join_spec, 2);
    assert(text::join_spec(parts, seq![':']) =~= part);
    lemma_request_parts(parts, part + ".json"@);
}

/// A video is shown by its item's name, season, first episode and year: the
/// first season, the first episode and 2020 where it has none.
pub proof fn a_video_is_shown_as_its_item_says(id: Seq<char>, item: ItemView)
    ensures
        ({
            let v = video_spec(id, item);
            let m = item.metadata;
            &&& v.title == m.name
            &&& m.season matches Some(s) ==> v.season == s
            &&& m.season is None ==> v.season == 1
            &&& m.episode matches Some(e) ==> v.episode == e[0]
            &&& m.episode is None ==> v.episode == 1
            &&& m.year matches Some(y) ==> v.released == text::signed_dec(y as int)
            &&& m.year is None ==> v.released == text::dec(2020)
        }),
{
}

} // verus!
