//! What file names say.
use stream_server::local_addon::parser::parse_filename;

#[test]
fn parses_compact_season_episode() {
    let meta = parse_filename("Some.Show.S01E02.mkv").unwrap();

    assert_eq!(meta.name.as_deref(), Some("Some Show"));
    assert_eq!(meta.season, Some(1));
    assert_eq!(meta.episode, Some(vec![2]));
    assert_eq!(meta.type_, "series");
}

#[test]
fn preserves_leading_episode_marker_behavior() {
    let meta = parse_filename("E02.Some.Show.mkv").unwrap();

    assert_eq!(meta.episode, None);
}

#[test]
fn parses_multi_episode_file() {
    let meta = parse_filename("Show.S01E01E02.mkv").unwrap();

    assert_eq!(meta.season, Some(1));
    assert_eq!(meta.episode, Some(vec![1, 2]));
    assert_eq!(meta.type_, "series");
}

#[test]
fn episode_marker_glued_to_letters_is_not_an_episode() {
    // The E-marker only counts when preceded by a non-alphanumeric or a
    // digit; a letter prefix (codec/resolution noise) must not register.
    let meta = parse_filename("CoreE05.mkv").unwrap();

    assert_eq!(meta.episode, None);
    assert_ne!(meta.type_, "series");
}

#[test]
fn classifies_series_movie_and_other() {
    let series = parse_filename("Show.S02E03.mkv").unwrap();
    assert_eq!(series.type_, "series");

    let movie_by_year = parse_filename("Some.Movie.2019.mkv").unwrap();
    assert_eq!(movie_by_year.type_, "movie");
    assert_eq!(movie_by_year.year, Some(2019));

    let movie_by_keyword = parse_filename("Some.Movie.1080p.mkv").unwrap();
    assert_eq!(movie_by_keyword.type_, "movie");
    assert_eq!(movie_by_keyword.year, None);

    let other = parse_filename("randomclip.mkv").unwrap();
    assert_eq!(other.type_, "other");
}

#[test]
fn truncates_name_before_first_tag_token_and_collects_tags() {
    let meta = parse_filename("Some.Show.2019.1080p.mkv").unwrap();

    assert_eq!(meta.name.as_deref(), Some("Some Show"));
    assert_eq!(meta.year, Some(2019));
    assert!(meta.tags.contains(&"1080p".to_string()));
    assert!(meta.tags.contains(&"hd".to_string()));
}

#[test]
fn non_media_extension_returns_none() {
    assert!(parse_filename("movie.txt").is_none());
    assert!(parse_filename("archive.zip").is_none());
}

/// Only the last part of a path says anything about the video.
#[test]
fn a_path_is_read_by_its_last_part() {
    let meta = parse_filename("/films/Other.Show.S05E06/Some.Show.S01E02.mkv").unwrap();
    assert_eq!(meta.name.as_deref(), Some("Some Show"));
    assert_eq!(meta.season, Some(1));
    assert_eq!(meta.episode, Some(vec![2]));
    assert!(parse_filename("films/movie.mkv/notes.txt").is_none());
    for none in ["", "/", ".", "..", "films/..", "movie.mkv/..", "./"] {
        assert!(parse_filename(none).is_none(), "{none}");
    }
    for same in ["movie.mkv", "movie.mkv/", "movie.mkv/.", "a/movie.mkv/./", "a//movie.mkv"] {
        assert_eq!(parse_filename(same).unwrap().name.as_deref(), Some("movie mkv"), "{same}");
    }
    assert!(parse_filename("X.MKV").is_some());
    // A name with nothing but marks keeps its stem.
    let bare = parse_filename("shows/S01E02.mkv").unwrap();
    assert_eq!(bare.name.as_deref(), Some("S01E02"));
}
