//! What a file name says about the video in the file.
use crate::numbers;
use crate::numbers::parse_i32;
use crate::paths;
use crate::text;
use crate::text::{char_ending_at, chars_of, contains, join_first, string_of, words};
use std::path::Path;
use vstd::prelude::*;

verus! {

/// What a file name says about the video in the file.
#[derive(Debug, Clone, PartialEq, Default)]
pub struct VideoMetadata {
    pub name: Option<String>,
    pub year: Option<i32>,
    pub season: Option<i32>,
    pub episode: Option<Vec<i32>>,
    pub disk_number: Option<i32>,
    pub type_: String,
    pub imdb_id: Option<String>,
    pub tags: Vec<String>,
}

/// What a [`VideoMetadata`] says.
pub struct MetadataView {
    pub name: Option<Seq<char>>,
    pub year: Option<i32>,
    pub season: Option<i32>,
    pub episode: Option<Seq<i32>>,
    pub disk_number: Option<i32>,
    pub type_: Seq<char>,
    pub imdb_id: Option<Seq<char>>,
    pub tags: Seq<Seq<char>>,
}

/// What an optional text says.
pub open spec fn optional(s: Option<String>) -> Option<Seq<char>> {
    match s {
        Some(s) => Some(s@),
        None => None,
    }
}

/// What an optional list of numbers says.
pub open spec fn optional_numbers(v: Option<Vec<i32>>) -> Option<Seq<i32>> {
    match v {
        Some(v) => Some(v@),
        None => None,
    }
}

impl View for VideoMetadata {
    type V = MetadataView;

    open spec fn view(&self) -> MetadataView {
        MetadataView {
            name: optional(self.name),
            year: self.year,
            season: self.season,
            episode: optional_numbers(self.episode),
            disk_number: self.disk_number,
            type_: self.type_@,
            imdb_id: optional(self.imdb_id),
            tags: text::texts(self.tags@),
        }
    }
}

// ---------------------------------------------------------------------
// What is looked for

/// The extensions of media files.
pub const EXTENSIONS: &'static str = "(?i)\\.(mkv|avi|mp4|wmv|vp8|mov|mpg|mp3|flac)$";

/// Words that stand in the names of movies.
pub const MOVIE_KEYWORDS: &'static str =
    "(?i)(1080p|720p|480p|blurayrip|brrip|divx|dvdrip|hdrip|hdtv|tvrip|xvid|camrip)";

/// A season.
pub const SEASON: &'static str = "(?i)S(\\d{1,2})";

/// An episode.
pub const EPISODE: &'static str = "(?i)E(\\d{2})";

/// A year.
pub const YEAR: &'static str = "\\b(19|20)\\d{2}\\b";

/// Words that stand in the names of samples.
pub const SAMPLE: &'static str = "(?i)(sample|etrg)";

/// Whether a name of ASCII characters is that of a media file, by its
/// extension, in upper or lower case.
pub open spec fn is_media_name(name: Seq<char>) -> bool {
    let lower = text::ascii_lowered(name);
    ||| text::has_suffix(lower, ".mkv"@)
    ||| text::has_suffix(lower, ".avi"@)
    ||| text::has_suffix(lower, ".mp4"@)
    ||| text::has_suffix(lower, ".wmv"@)
    ||| text::has_suffix(lower, ".vp8"@)
    ||| text::has_suffix(lower, ".mov"@)
    ||| text::has_suffix(lower, ".mpg"@)
    ||| text::has_suffix(lower, ".mp3"@)
    ||| text::has_suffix(lower, ".flac"@)
}

/// Whether `regex::Regex::is_match` finds a pattern in a text.
pub uninterp spec fn regex_is_match(pattern: Seq<char>, text: Seq<char>) -> bool;

/// What `regex::Regex::find` finds of a pattern in a text.
pub uninterp spec fn regex_find(pattern: Seq<char>, text: Seq<char>) -> Option<Seq<char>>;

/// The first group of what `regex::Regex::captures` finds of a pattern in a
/// text.
pub uninterp spec fn regex_group(pattern: Seq<char>, text: Seq<char>) -> Option<Seq<char>>;

/// Where each match that `regex::Regex::captures_iter` finds of a pattern in
/// a text starts, and its first group.
pub uninterp spec fn regex_groups(pattern: Seq<char>, text: Seq<char>) -> Seq<
    (nat, Option<Seq<char>>),
>;

/// `regex::Regex::is_match`: whether a pattern is found in a text. A pattern
/// that does not compile is not found. [`EXTENSIONS`] is found in a text of
/// ASCII characters exactly if it ends in a dot and one of the extensions, in
/// upper or lower case.
#[verifier::external_body]
fn is_match(pattern: &str, text: &str) -> (r: bool)
    ensures
        r == regex_is_match(pattern@, text@),
        pattern@ == EXTENSIONS@ && vstd::utf8::is_ascii_chars(text@) ==> r == is_media_name(text@),
{
    match regex::Regex::new(pattern) {
        Ok(re) => re.is_match(text),
        Err(_) => false,
    }
}

/// `regex::Regex::find`: the first match of a pattern in a text. A pattern
/// that does not compile has none.
#[verifier::external_body]
fn find(pattern: &str, text: &str) -> (r: Option<String>)
    ensures
        optional(r) == regex_find(pattern@, text@),
{
    match regex::Regex::new(pattern) {
        Ok(re) => re.find(text).map(|m| m.as_str().to_owned()),
        Err(_) => None,
    }
}

/// `regex::Regex::captures`: the first group of the first match of a pattern
/// in a text. A pattern that does not compile has none.
#[verifier::external_body]
fn first_group(pattern: &str, text: &str) -> (r: Option<String>)
    ensures
        optional(r) == regex_group(pattern@, text@),
{
    match regex::Regex::new(pattern) {
        Ok(re) => re.captures(text).and_then(|c| c.get(1).map(|m| m.as_str().to_owned())),
        Err(_) => None,
    }
}

/// `regex::Regex::captures_iter`: where each match of a pattern in a text
/// starts, which is where a character starts, and its first group. A pattern
/// that does not compile has none.
#[verifier::external_body]
fn groups(pattern: &str, text: &str) -> (r: Vec<Found>)
    ensures
        found_view(r@) == regex_groups(pattern@, text@),
        forall|i: int| 0 <= i < r@.len() ==> text::is_boundary(text@, (#[trigger] r@[i]).start as nat),
{
    match regex::Regex::new(pattern) {
        Ok(re) => re.captures_iter(text).map(|c| Found {
            start: c.get(0).map_or(0, |m| m.start()),
            group: c.get(1).map(|m| m.as_str().to_owned()),
        }).collect(),
        Err(_) => Vec::new(),
    }
}

/// One match of a pattern: where in the text's UTF-8 it starts, and what its
/// first group is.
pub struct Found {
    pub start: usize,
    pub group: Option<String>,
}

/// What a list of matches says.
pub open spec fn found_view(v: Seq<Found>) -> Seq<(nat, Option<Seq<char>>)> {
    v.map_values(|f: Found| (f.start as nat, optional(f.group)))
}

/// Whether Unicode calls a character a letter or a number, as
/// `char::is_alphanumeric` has it.
pub uninterp spec fn char_is_alphanumeric(c: char) -> bool;

/// Whether Unicode calls a character a number, as `char::is_numeric` has it.
pub uninterp spec fn char_is_numeric(c: char) -> bool;

/// `char::is_alphanumeric`: of the ASCII characters, the letters and digits.
pub assume_specification[ char::is_alphanumeric ](c: char) -> (r: bool)
    ensures
        r == char_is_alphanumeric(c),
        (c as u32) < 0x80 ==> r == (('0' <= c && c <= '9') || ('A' <= c && c <= 'Z') || ('a' <= c
            && c <= 'z')),
;

/// `char::is_numeric`: of the ASCII characters, the digits.
pub assume_specification[ char::is_numeric ](c: char) -> (r: bool)
    ensures
        r == char_is_numeric(c),
        (c as u32) < 0x80 ==> r == ('0' <= c && c <= '9'),
;

// ---------------------------------------------------------------------
// Episodes

/// Whether an episode mark that starts at a byte of a text's UTF-8 is one:
/// what stands before it is a number, or neither a letter nor a number.
pub open spec fn prefix_spec(text: Seq<char>, at: nat) -> bool {
    match text::char_before(text, at) {
        Some(c) => !char_is_alphanumeric(c) || char_is_numeric(c),
        None => false,
    }
}

/// Whether an episode mark counts: only when preceded by a character that is
/// not alphanumeric or is a digit.
pub fn has_episode_prefix(text: &str, episode_start: usize) -> (r: bool)
    requires
        text::is_boundary(text@, episode_start as nat),
    ensures
        r == prefix_spec(text@, episode_start as nat),
{
    match char_ending_at(text, episode_start) {
        Some(c) => !c.is_alphanumeric() || c.is_numeric(),
        None => false,
    }
}

/// Whether one of the marks found in a text is an episode mark.
pub open spec fn any_mark(text: Seq<char>, marks: Seq<(nat, Option<Seq<char>>)>) -> bool {
    exists|i: int| 0 <= i < marks.len() && prefix_spec(text, #[trigger] marks[i].0)
}

/// Whether a text holds an episode mark.
pub fn has_episode_marker(text: &str) -> (r: bool)
    ensures
        r == any_mark(text@, regex_groups(EPISODE@, text@)),
{
    let marks = groups(EPISODE, text);
    let ghost all = found_view(marks@);
    let mut i: usize = 0;
    while i < marks.len()
        invariant
            i <= marks@.len(),
            all == found_view(marks@),
            all == regex_groups(EPISODE@, text@),
            forall|j: int|
                0 <= j < marks@.len() ==> text::is_boundary(
                    text@,
                    (#[trigger] marks@[j]).start as nat,
                ),
            forall|j: int| 0 <= j < i ==> !prefix_spec(text@, #[trigger] all[j].0),
        decreases marks@.len() - i,
    {
        proof {
            assert(all[i as int].0 == marks@[i as int].start as nat);
        }
        if has_episode_prefix(text, marks[i].start) {
            proof {
                assert(prefix_spec(text@, all[i as int].0));
            }
            return true;
        }
        i += 1;
    }
    false
}

/// The numbers of the episode marks found in a text, in order.
pub open spec fn episodes_spec(text: Seq<char>, marks: Seq<(nat, Option<Seq<char>>)>) -> Seq<i32>
    decreases marks.len(),
{
    if marks.len() == 0 {
        Seq::empty()
    } else {
        let before = episodes_spec(text, marks.drop_last());
        let (start, group) = marks.last();
        match number_spec(group) {
            Some(n) => if prefix_spec(text, start) {
                before.push(n)
            } else {
                before
            },
            None => before,
        }
    }
}

/// The number that an optional text writes.
pub open spec fn number_spec(s: Option<Seq<char>>) -> Option<i32> {
    match s {
        Some(s) => match numbers::signed(s, i32::MIN as int, i32::MAX as int) {
            Some(n) => Some(n as i32),
            None => None,
        },
        None => None,
    }
}

fn number(s: &Option<String>) -> (r: Option<i32>)
    ensures
        r == number_spec(optional(*s)),
{
    match s {
        Some(s) => parse_i32(chars_of(s.as_str()).as_slice()),
        None => None,
    }
}

fn episodes(text: &str, marks: &Vec<Found>) -> (r: Vec<i32>)
    requires
        forall|j: int|
            0 <= j < marks@.len() ==> text::is_boundary(text@, (#[trigger] marks@[j]).start as nat),
    ensures
        r@ == episodes_spec(text@, found_view(marks@)),
{
    let mut out: Vec<i32> = Vec::new();
    let ghost all = found_view(marks@);
    let mut i: usize = 0;
    while i < marks.len()
        invariant
            i <= marks@.len(),
            all == found_view(marks@),
            forall|j: int|
                0 <= j < marks@.len() ==> text::is_boundary(
                    text@,
                    (#[trigger] marks@[j]).start as nat,
                ),
            out@ == episodes_spec(text@, all.take(i as int)),
        decreases marks@.len() - i,
    {
        proof {
            assert(all.take(i + 1).drop_last() =~= all.take(i as int));
            assert(all.take(i + 1).last() == all[i as int]);
        }
        if has_episode_prefix(text, marks[i].start) {
            match number(&marks[i].group) {
                Some(n) => {
                    out.push(n);
                },
                None => {},
            }
        }
        i += 1;
    }
    proof {
        assert(all.take(all.len() as int) =~= all);
    }
    out
}

// ---------------------------------------------------------------------
// Names

/// Whether a character is one that a space takes the place of.
pub open spec fn is_separator(c: char, dash: bool) -> bool {
    c == '.' || c == '_' || (dash && c == '-')
}

/// A name with a space in place of each separator.
pub open spec fn spaced(s: Seq<char>, dash: bool) -> Seq<char> {
    s.map_values(|c: char| if is_separator(c, dash) { ' ' } else { c })
}

fn with_spaces(s: &str, dash: bool) -> (r: String)
    ensures
        r@ == spaced(s@, dash),
{
    let mut v = chars_of(s);
    let mut i: usize = 0;
    while i < v.len()
        invariant
            i <= v@.len(),
            v@.len() == s@.len(),
            forall|j: int| 0 <= j < i ==> v@[j] == spaced(s@, dash)[j],
            forall|j: int| i <= j < v@.len() ==> v@[j] == s@[j],
        decreases v@.len() - i,
    {
        let c: char = v[i];
        if c == '.' || c == '_' || (dash && c == '-') {
            v[i] = ' ';
        }
        i += 1;
    }
    proof {
        assert(v@ =~= spaced(s@, dash));
    }
    string_of(v.as_slice())
}

/// Whether a word of a name is a tag, where the title ends.
pub open spec fn is_tag(word: Seq<char>) -> bool {
    ||| regex_is_match(YEAR@, word)
    ||| regex_is_match(SEASON@, word)
    ||| any_mark(word, regex_groups(EPISODE@, word))
    ||| regex_is_match(MOVIE_KEYWORDS@, word)
}

/// How many words stand before the first tag.
pub open spec fn title_len(words: Seq<Seq<char>>) -> nat
    decreases words.len(),
{
    if words.len() == 0 || is_tag(words[0]) {
        0
    } else {
        1 + title_len(words.skip(1))
    }
}

fn title_words(words: &Vec<String>) -> (n: usize)
    ensures
        n == title_len(text::texts(words@)),
        n <= words@.len(),
{
    let ghost all = text::texts(words@);
    let mut i: usize = 0;
    proof {
        assert(all.skip(0) =~= all);
    }
    while i < words.len()
        invariant
            i <= words@.len(),
            all == text::texts(words@),
            title_len(all) == i + title_len(all.skip(i as int)),
        decreases words@.len() - i,
    {
        proof {
            assert(all.skip(i as int)[0] == words@[i as int]@);
            assert(all.skip(i as int).skip(1) =~= all.skip(i + 1));
        }
        let w = words[i].as_str();
        if is_match(YEAR, w) || is_match(SEASON, w) || has_episode_marker(w) || is_match(
            MOVIE_KEYWORDS,
            w,
        ) {
            return i;
        }
        i += 1;
    }
    i
}

/// What was found in a name.
pub struct Findings {
    /// The year, as it is written.
    pub year: Option<String>,
    /// The season, as it is written.
    pub season: Option<String>,
    /// The episodes.
    pub episodes: Vec<i32>,
    /// Whether a word of movies stands in it.
    pub keyword: bool,
    /// Whether a word of samples stands in it.
    pub sample: bool,
    /// How many words stand before the first tag.
    pub title_words: usize,
}

/// What [`Findings`] say.
pub struct FindingsView {
    pub year: Option<Seq<char>>,
    pub season: Option<Seq<char>>,
    pub episodes: Seq<i32>,
    pub keyword: bool,
    pub sample: bool,
    pub title_words: nat,
}

impl View for Findings {
    type V = FindingsView;

    open spec fn view(&self) -> FindingsView {
        FindingsView {
            year: optional(self.year),
            season: optional(self.season),
            episodes: self.episodes@,
            keyword: self.keyword,
            sample: self.sample,
            title_words: self.title_words as nat,
        }
    }
}

/// What is found in a name whose separators are spaces.
pub open spec fn findings_spec(clean: Seq<char>) -> FindingsView {
    FindingsView {
        year: regex_find(YEAR@, clean),
        season: regex_group(SEASON@, clean),
        episodes: episodes_spec(clean, regex_groups(EPISODE@, clean)),
        keyword: regex_is_match(MOVIE_KEYWORDS@, clean),
        sample: regex_is_match(SAMPLE@, clean),
        title_words: title_len(text::words_spec(clean)),
    }
}

/// Look through a name whose separators are spaces.
pub fn look_through(clean: &str) -> (f: Findings)
    ensures
        f@ == findings_spec(clean@),
        f.title_words <= text::words_spec(clean@).len(),
{
    let marks = groups(EPISODE, clean);
    let all = words(clean);
    Findings {
        year: find(YEAR, clean),
        season: first_group(SEASON, clean),
        episodes: episodes(clean, &marks),
        keyword: is_match(MOVIE_KEYWORDS, clean),
        sample: is_match(SAMPLE, clean),
        title_words: title_words(&all),
    }
}

/// The tags of a name.
pub open spec fn tags_spec(clean: Seq<char>, sample: bool) -> Seq<Seq<char>> {
    (if text::holds(clean, "1080p"@) {
        seq!["1080p"@, "hd"@]
    } else {
        Seq::empty()
    }) + (if text::holds(clean, "720p"@) {
        seq!["720p"@]
    } else {
        Seq::empty()
    }) + (if text::holds(clean, "480p"@) {
        seq!["480p"@]
    } else {
        Seq::empty()
    }) + (if sample {
        seq!["sample"@]
    } else {
        Seq::empty()
    })
}

/// What kind of video a name describes: a series where it has a season and
/// an episode, a movie where it has a year or a word of movies.
pub open spec fn kind_spec(season: Option<i32>, episodes: Seq<i32>, year: Option<i32>, keyword: bool) -> Seq<
    char,
> {
    if season is Some && episodes.len() > 0 {
        "series"@
    } else if year is Some || keyword {
        "movie"@
    } else {
        "other"@
    }
}

/// What a name says, from what was found in it. The title is the words
/// before the first tag; where there is none, it is the stem of the file
/// name, and there is no answer where that is unknown.
pub open spec fn described(clean: Seq<char>, stem: Option<Seq<char>>, f: FindingsView) -> Option<
    MetadataView,
> {
    let year = number_spec(f.year);
    let season = number_spec(f.season);
    let title: Option<Seq<char>> = if f.title_words > 0 {
        Some(text::join_spec(text::words_spec(clean).take(f.title_words as int), " "@))
    } else {
        match stem {
            Some(s) => Some(spaced(s, false)),
            None => None,
        }
    };
    match title {
        None => None,
        Some(title) => Some(
            MetadataView {
                name: Some(title),
                year,
                season,
                episode: if f.episodes.len() > 0 {
                    Some(f.episodes)
                } else {
                    None
                },
                disk_number: None,
                type_: kind_spec(season, f.episodes, year, f.keyword),
                imdb_id: None,
                tags: tags_spec(clean, f.sample),
            },
        ),
    }
}

/// What an optional description says.
pub open spec fn optional_metadata(m: Option<VideoMetadata>) -> Option<MetadataView> {
    match m {
        Some(m) => Some(m@),
        None => None,
    }
}

fn tags_of(clean: &str, sample: bool) -> (tags: Vec<String>)
    ensures
        text::texts(tags@) == tags_spec(clean@, sample),
{
    let mut tags: Vec<String> = Vec::new();
    if contains(clean, "1080p") {
        tags.push("1080p".to_owned());
        tags.push("hd".to_owned());
    }
    if contains(clean, "720p") {
        tags.push("720p".to_owned());
    }
    if contains(clean, "480p") {
        tags.push("480p".to_owned());
    }
    if sample {
        tags.push("sample".to_owned());
    }
    proof {
        assert(text::texts(tags@) =~= tags_spec(clean@, sample));
    }
    tags
}

/// What a name says, from what was found in it.
pub fn describe(clean: &str, stem: Option<&str>, f: Findings) -> (r: Option<VideoMetadata>)
    requires
        f.title_words <= text::words_spec(clean@).len(),
    ensures
        optional_metadata(r) == described(
            clean@,
            match stem {
                Some(s) => Some(s@),
                None => None,
            },
            f@,
        ),
{
    let year: Option<i32> = number(&f.year);
    let season: Option<i32> = number(&f.season);
    let type_: String = if season.is_some() && f.episodes.len() > 0 {
        "series".to_owned()
    } else if year.is_some() || f.keyword {
        "movie".to_owned()
    } else {
        "other".to_owned()
    };
    let name: String = if f.title_words > 0 {
        let all = words(clean);
        join_first(&all, f.title_words, " ")
    } else {
        match stem {
            Some(s) => with_spaces(s, false),
            None => {
                return None;
            },
        }
    };
    let tags = tags_of(clean, f.sample);
    let episode: Option<Vec<i32>> = if f.episodes.len() > 0 {
        Some(f.episodes)
    } else {
        None
    };
    Some(
        VideoMetadata {
            name: Some(name),
            year,
            season,
            episode,
            disk_number: None,
            type_,
            imdb_id: None,
            tags,
        },
    )
}

/// What a file name says about the video in the file: nothing where it is
/// not the name of a media file.
pub open spec fn named(filename: Seq<char>, stem: Option<Seq<char>>) -> Option<MetadataView> {
    if !regex_is_match(EXTENSIONS@, filename) {
        None
    } else {
        described(spaced(filename, true), stem, findings_spec(spaced(filename, true)))
    }
}

/// What a file name says about the video in the file.
pub fn parse_name(filename: &str, stem: Option<&str>) -> (r: Option<VideoMetadata>)
    ensures
        optional_metadata(r) == named(
            filename@,
            match stem {
                Some(s) => Some(s@),
                None => None,
            },
        ),
        vstd::utf8::is_ascii_chars(filename@) && stem is Some ==> r is Some == is_media_name(
            filename@,
        ),
{
    if !is_match(EXTENSIONS, filename) {
        return None;
    }
    let clean = with_spaces(filename, true);
    let found = look_through(clean.as_str());
    describe(clean.as_str(), stem, found)
}

// ---------------------------------------------------------------------
// Paths

/// `Path::file_name`: the last component of a path, unless that is the root
/// or two dots, said of the paths that every machine splits in the same
/// places. What it is of others depends on the machine.
#[verifier::external_body]
fn file_name(path: &str) -> (r: Option<String>)
    ensures
        paths::is_plain_path(path@) ==> optional(r) == paths::final_name(path@),
{
    Path::new(path).file_name().and_then(|n| n.to_str()).map(String::from)
}

/// `Path::file_stem`: the same without its extension, said of the same
/// paths.
#[verifier::external_body]
fn file_stem(path: &str) -> (r: Option<String>)
    ensures
        paths::is_plain_path(path@) ==> optional(r) == (match paths::final_name(path@) {
            Some(name) => Some(paths::stem_of(name)),
            None => None,
        }),
{
    Path::new(path).file_stem().and_then(|n| n.to_str()).map(String::from)
}

/// What a path's file name says about the video in the file: what
/// [`parse_name`] makes of the path's last component.
pub fn parse_filename(path: &str) -> (r: Option<VideoMetadata>)
    ensures
        paths::is_plain_path(path@) ==> optional_metadata(r) == (match paths::final_name(path@) {
            Some(name) => named(name, Some(paths::stem_of(name))),
            None => None,
        }),
        paths::is_plain_path(path@) ==> match paths::final_name(path@) {
            Some(name) => vstd::utf8::is_ascii_chars(name) ==> r is Some == is_media_name(name),
            None => r is None,
        },
        r is Some ==> exists|filename: Seq<char>, stem: Option<Seq<char>>|
            optional_metadata(r) == #[trigger] named(filename, stem),
{
    match file_name(path) {
        None => None,
        Some(filename) => match file_stem(path) {
            Some(stem) => parse_name(filename.as_str(), Some(stem.as_str())),
            None => parse_name(filename.as_str(), None),
        },
    }
}

// ---------------------------------------------------------------------
// What a name says

/// What is looked for in a name: the extensions of media files at its end,
/// the words of movies and of samples, an `S` and one or two digits, an `E`
/// and two, and four digits of this century or the last that stand alone.
pub proof fn what_is_looked_for_in_a_name()
    ensures
        EXTENSIONS@ == "(?i)\\.(mkv|avi|mp4|wmv|vp8|mov|mpg|mp3|flac)$"@,
        MOVIE_KEYWORDS@
            == "(?i)(1080p|720p|480p|blurayrip|brrip|divx|dvdrip|hdrip|hdtv|tvrip|xvid|camrip)"@,
        SEASON@ == "(?i)S(\\d{1,2})"@,
        EPISODE@ == "(?i)E(\\d{2})"@,
        YEAR@ == "\\b(19|20)\\d{2}\\b"@,
        SAMPLE@ == "(?i)(sample|etrg)"@,
{
}

/// Whether a word ends a title: a year, a season or a word of movies is
/// found in it, or an episode behind a character that is a number or no
/// letter.
pub open spec fn ends_title(word: Seq<char>) -> bool {
    ||| regex_is_match(YEAR@, word)
    ||| regex_is_match(SEASON@, word)
    ||| regex_is_match(MOVIE_KEYWORDS@, word)
    ||| exists|m: int|
        0 <= m < regex_groups(EPISODE@, word).len() && is_behind_no_letter(
            word,
            #[trigger] regex_groups(EPISODE@, word)[m].0,
        )
}

/// Whether a character ends at a byte of a text's UTF-8 that is a number or
/// no letter.
pub open spec fn is_behind_no_letter(text: Seq<char>, at: nat) -> bool {
    match text::char_before(text, at) {
        None => false,
        Some(c) => char_is_alphanumeric(c) ==> char_is_numeric(c),
    }
}

proof fn lemma_title_len(words: Seq<Seq<char>>)
    ensures
        title_len(words) <= words.len(),
        forall|i: int| 0 <= i < title_len(words) ==> !ends_title(#[trigger] words[i]),
        title_len(words) < words.len() ==> ends_title(words[title_len(words) as int]),
    decreases words.len(),
{
    if words.len() > 0 {
        let first = words[0];
        assert(is_tag(first) == ends_title(first)) by {
            let marks = regex_groups(EPISODE@, first);
            assert forall|m: int| 0 <= m < marks.len() implies prefix_spec(
                first,
                #[trigger] marks[m].0,
            ) == is_behind_no_letter(first, marks[m].0) by {
            }
            if any_mark(first, marks) {
                let m = choose|m: int| 0 <= m < marks.len() && prefix_spec(first, marks[m].0);
                assert(is_behind_no_letter(first, regex_groups(EPISODE@, first)[m].0));
            }
            if ends_title(first) && !regex_is_match(YEAR@, first) && !regex_is_match(
                SEASON@,
                first,
            ) && !regex_is_match(MOVIE_KEYWORDS@, first) {
                let m = choose|m: int|
                    0 <= m < marks.len() && is_behind_no_letter(first, #[trigger] marks[m].0);
                assert(prefix_spec(first, marks[m].0));
            }
        }
        if !is_tag(first) {
            let rest = words.skip(1);
            lemma_title_len(rest);
            assert forall|i: int| 0 <= i < title_len(words) implies !ends_title(
                #[trigger] words[i],
            ) by {
                if i > 0 {
                    assert(rest[i - 1] == words[i]);
                }
            }
            if title_len(words) < words.len() {
                assert(rest[title_len(rest) as int] == words[title_len(words) as int]);
            }
        }
    }
}

/// The title of a name is its words up to the first that ends a title: none
/// of them does, and the word right behind them, where there is one, does.
/// Where the first word of the name ends a title, the title is the stem of
/// the file name, with its dots and underscores taken for spaces.
pub proof fn a_title_ends_at_the_first_word_that_ends_titles(
    filename: Seq<char>,
    stem: Option<Seq<char>>,
) -> (n: int)
    requires
        named(filename, stem) is Some,
    ensures
        ({
            let words = text::words_spec(spaced(filename, true));
            &&& 0 <= n <= words.len()
            &&& forall|i: int| 0 <= i < n ==> !ends_title(#[trigger] words[i])
            &&& n < words.len() ==> ends_title(words[n])
            &&& n > 0 ==> named(filename, stem)->0.name == Some(
                text::join_spec(words.take(n), seq![' ']),
            )
            &&& n == 0 ==> stem is Some && named(filename, stem)->0.name == Some(
                spaced(stem->0, false),
            )
        }),
{
    let clean = spaced(filename, true);
    let words = text::words_spec(clean);
    lemma_title_len(words);
    reveal_strlit(" ");
    assert(" "@ =~= seq![' ']);
    title_len(words) as int
}

/// The words of a name are read with its dots, underscores and dashes taken
/// for spaces, and every other character as it is; of a stem, the dashes
/// stay.
pub proof fn separators_are_taken_for_spaces(s: Seq<char>, i: int)
    requires
        0 <= i < s.len(),
    ensures
        spaced(s, true).len() == s.len(),
        spaced(s, false).len() == s.len(),
        spaced(s, true)[i] == (if s[i] == '.' || s[i] == '_' || s[i] == '-' {
            ' '
        } else {
            s[i]
        }),
        spaced(s, false)[i] == (if s[i] == '.' || s[i] == '_' {
            ' '
        } else {
            s[i]
        }),
{
}

/// A name with a season and an episode is that of a series; another is that
/// of a movie where it has a year or a word of movies, and of neither where
/// it has none.
pub proof fn the_type_follows_from_what_is_found(filename: Seq<char>, stem: Option<Seq<char>>)
    requires
        named(filename, stem) is Some,
    ensures
        ({
            let m = named(filename, stem)->0;
            let movie = m.year is Some || regex_is_match(MOVIE_KEYWORDS@, spaced(filename, true));
            &&& m.season is Some && m.episode is Some ==> m.type_ == "series"@
            &&& (m.season is None || m.episode is None) && movie ==> m.type_ == "movie"@
            &&& (m.season is None || m.episode is None) && !movie ==> m.type_ == "other"@
        }),
{
}

/// The year of a name is the first year found in it, and its season the
/// first season, as the numbers they write.
pub proof fn the_first_year_and_season_are_taken(filename: Seq<char>, stem: Option<Seq<char>>)
    requires
        named(filename, stem) is Some,
    ensures
        ({
            let clean = spaced(filename, true);
            let m = named(filename, stem)->0;
            &&& forall|n: i32|
                m.year == Some(n) <==> (regex_find(YEAR@, clean) matches Some(t)
                    && numbers::signed(t, -0x8000_0000, 0x7fff_ffff) == Some(n as int))
            &&& forall|n: i32|
                m.season == Some(n) <==> (regex_group(SEASON@, clean) matches Some(t)
                    && numbers::signed(t, -0x8000_0000, 0x7fff_ffff) == Some(n as int))
        }),
{
    lemma_number(regex_find(YEAR@, spaced(filename, true)));
    lemma_number(regex_group(SEASON@, spaced(filename, true)));
}

proof fn lemma_number(t: Option<Seq<char>>)
    ensures
        forall|n: i32|
            number_spec(t) == Some(n) <==> (t matches Some(t) && numbers::signed(
                t,
                -0x8000_0000,
                0x7fff_ffff,
            ) == Some(n as int)),
{
    if let Some(t) = t {
        numbers::lemma_signed_lies_between(t, -0x8000_0000, 0x7fff_ffff);
    }
}

/// The episodes of a name are the numbers of the episodes found in it behind
/// a character that is a number or no letter, all of them, in the order they
/// stand in; a name without one has no episodes.
pub proof fn every_episode_is_taken_in_order(filename: Seq<char>, stem: Option<Seq<char>>)
    requires
        named(filename, stem) is Some,
    ensures
        ({
            let clean = spaced(filename, true);
            let all = regex_groups(EPISODE@, clean).filter_map(
                |m: (nat, Option<Seq<char>>)|
                    if is_behind_no_letter(clean, m.0) {
                        number_spec(m.1)
                    } else {
                        None
                    },
            );
            &&& named(filename, stem)->0.episode is None <==> all.len() == 0
            &&& named(filename, stem)->0.episode matches Some(e) ==> e == all
        }),
{
    let clean = spaced(filename, true);
    lemma_episodes(clean, regex_groups(EPISODE@, clean));
}

proof fn lemma_episodes(clean: Seq<char>, marks: Seq<(nat, Option<Seq<char>>)>)
    ensures
        episodes_spec(clean, marks) == marks.filter_map(
            |m: (nat, Option<Seq<char>>)|
                if is_behind_no_letter(clean, m.0) {
                    number_spec(m.1)
                } else {
                    None
                },
        ),
    decreases marks.len(),
{
    if marks.len() > 0 {
        lemma_episodes(clean, marks.drop_last());
        let f = |m: (nat, Option<Seq<char>>)|
            if is_behind_no_letter(clean, m.0) {
                number_spec(m.1)
            } else {
                None
            };
        let before = marks.drop_last().filter_map(f);
        let (start, group) = marks.last();
        assert(prefix_spec(clean, start) == is_behind_no_letter(clean, start));
        if let Some(n) = f(marks.last()) {
            assert(before.push(n) =~= before + seq![n]);
        }
    }
}

/// The tags of a name are, of the ones there are and in that order, those
/// whose word stands in it: `hd` with `1080p`, and `sample` where a word of
/// samples is found.
pub proof fn tags_are_what_stands_in_the_name(filename: Seq<char>, stem: Option<Seq<char>>)
    requires
        named(filename, stem) is Some,
    ensures
        ({
            let clean = spaced(filename, true);
            named(filename, stem)->0.tags == seq![
                ("1080p"@, text::holds(clean, "1080p"@)),
                ("hd"@, text::holds(clean, "1080p"@)),
                ("720p"@, text::holds(clean, "720p"@)),
                ("480p"@, text::holds(clean, "480p"@)),
                ("sample"@, regex_is_match(SAMPLE@, clean)),
            ].filter_map(
                |t: (Seq<char>, bool)|
                    if t.1 {
                        Some(t.0)
                    } else {
                        None
                    },
            )
        }),
{
    let clean = spaced(filename, true);
    let a = ("1080p"@, text::holds(clean, "1080p"@));
    let b = ("hd"@, text::holds(clean, "1080p"@));
    let c = ("720p"@, text::holds(clean, "720p"@));
    let d = ("480p"@, text::holds(clean, "480p"@));
    let e = ("sample"@, regex_is_match(SAMPLE@, clean));
    let f = |t: (Seq<char>, bool)|
        if t.1 {
            Some(t.0)
        } else {
            None
        };
    let five = seq![a, b, c, d, e];
    let four = seq![a, b, c, d];
    let three = seq![a, b, c];
    let two = seq![a, b];
    let one = seq![a];
    let none = Seq::<(Seq<char>, bool)>::empty();
    assert(five.drop_last() =~= four);
    assert(four.drop_last() =~= three);
    assert(three.drop_last() =~= two);
    assert(two.drop_last() =~= one);
    assert(one.drop_last() =~= none);
    assert(none.filter_map(f) =~= Seq::empty());
    reveal_with_fuel(Seq::filter_map, 7);
    assert(five.filter_map(f) =~= tags_spec(clean, e.1));
}

/// Only the name of a media file is told anything of, and every one with a
/// stem is told a title of.
pub proof fn only_media_names_are_described(filename: Seq<char>, stem: Option<Seq<char>>)
    ensures
        !regex_is_match("(?i)\\.(mkv|avi|mp4|wmv|vp8|mov|mpg|mp3|flac)$"@, filename) ==> named(
            filename,
            stem,
        ) is None,
        regex_is_match("(?i)\\.(mkv|avi|mp4|wmv|vp8|mov|mpg|mp3|flac)$"@, filename) && stem is Some
            ==> (named(filename, stem) matches Some(m) && m.name is Some),
{
}

} // verus!
