//! What the local add-on answers.
use stream_server::local_addon::parser::VideoMetadata;
use stream_server::local_addon::streams::{
    catalog, local_video, parse_meta_request, parse_stream_request, resolve_local_stream,
    torrent_name, torrent_stream, torrent_videos, IndexItem, LocalStream, StreamRequest,
};

fn item(
    season: Option<i32>,
    episode: Option<Vec<i32>>,
    info_hash: Option<&str>,
    file_idx: Option<usize>,
    path: &str,
    name: &str,
) -> IndexItem {
    IndexItem {
        id: "local:tt1".to_string(),
        imdb_id: Some("tt1".to_string()),
        metadata: VideoMetadata {
            name: Some(name.to_string()),
            season,
            episode,
            ..VideoMetadata::default()
        },
        path: path.to_string(),
        info_hash: info_hash.map(|s| s.to_string()),
        file_idx,
    }
}

#[test]
fn series_request_selects_the_matching_episode() {
    let items = vec![
        item(Some(1), Some(vec![1]), Some("hashA"), Some(0), "", "S1E1"),
        item(Some(2), Some(vec![3]), Some("hashB"), Some(5), "", "S2E3"),
    ];
    let out = resolve_local_stream(&items, Some(2), Some(3), "http://host");
    let Some(LocalStream::Torrent { info_hash, file_idx, .. }) = out else {
        panic!("not a torrent's stream: {out:?}");
    };
    assert_eq!(info_hash, "hashB");
    assert_eq!(file_idx, 5);
}

#[test]
fn request_without_season_takes_the_movie_item() {
    let items = vec![item(None, None, None, None, "/movies/Film.mkv", "Film")];
    let out = resolve_local_stream(&items, None, None, "http://host");
    let Some(LocalStream::File { url, .. }) = out else {
        panic!("not a file's stream: {out:?}");
    };
    assert_eq!(url, "file:///movies/Film.mkv");
}

#[test]
fn archive_item_builds_percent_encoded_zip_stream_url() {
    let items = vec![item(
        None,
        None,
        None,
        None,
        "archive:a b.zip|d/e.mkv",
        "Archived",
    )];
    let out = resolve_local_stream(&items, None, None, "http://host");
    let Some(LocalStream::Archive { url, binge_group, .. }) = out else {
        panic!("not a member's stream: {out:?}");
    };
    // Space -> %20, path separator -> %2F in both query params.
    assert_eq!(url, "http://host/zip/stream?archive=a%20b.zip&file=d%2Fe.mkv");
    assert_eq!(binge_group, "archive:a b.zip");
}

#[test]
fn no_match_yields_empty_streams() {
    // Empty index for the id.
    let empty: Vec<IndexItem> = Vec::new();
    assert!(resolve_local_stream(&empty, None, None, "http://host").is_none());

    // Season requested but no episode matches.
    let items = vec![item(Some(1), Some(vec![1]), Some("h"), Some(0), "", "S1E1")];
    assert!(resolve_local_stream(&items, Some(9), Some(9), "http://host").is_none());
}

#[test]
fn a_stream_request_names_a_torrent_file_or_an_episode() {
    assert!(matches!(
        parse_stream_request("local:tt1:2:3.json"),
        StreamRequest::Local { id, season: Some(2), episode: Some(3) } if id == "local:tt1"
    ));
    assert!(matches!(
        parse_stream_request("bt:abcdef:4.json"),
        StreamRequest::Torrent { info_hash, file_idx: 4 } if info_hash == "abcdef"
    ));
}

#[test]
fn a_meta_request_names_a_torrent_or_nothing() {
    let bt = parse_meta_request("bt:abcdef.json");
    assert_eq!(bt.id, "bt:abcdef");
    assert_eq!(bt.info_hash.as_deref(), Some("abcdef"));
    let local = parse_meta_request("local:tt1.json");
    assert_eq!(local.id, "local:tt1");
    assert_eq!(local.info_hash, None);
}

#[test]
fn torrents_are_shown_by_their_files() {
    let files = vec!["a/Film.mkv".to_string(), "b.txt".to_string(), "c.mp4".to_string()];
    let videos = torrent_videos("bt:h", &files);
    assert!(!videos.is_empty());
    assert!(videos.iter().all(|v| v.file_idx < files.len()));
    let Some(first) = videos.first() else { panic!("no video") };
    assert_eq!(first.file_idx, 0);
    let stream = torrent_stream("h", 2, &files);
    let LocalStream::Torrent { info_hash, file_idx, title } = stream else {
        panic!("not a torrent's stream");
    };
    assert_eq!((info_hash.as_str(), file_idx), ("h", 2));
    assert!(title.contains("c.mp4"), "{title}");
    assert!(!torrent_name("").is_empty());
    assert_eq!(torrent_name("Film"), "Film");
}

#[test]
fn a_catalog_shows_each_title_once() {
    let mut a = item(None, None, None, None, "/a.mkv", "Film");
    a.metadata.type_ = "movie".to_string();
    let mut b = a.clone();
    b.path = "/b.mkv".to_string();
    let mut c = item(Some(1), Some(vec![1]), None, None, "/c.mkv", "Show");
    c.id = "local:tt2".to_string();
    c.metadata.type_ = "series".to_string();
    let items = vec![a, b, c];
    let movies = catalog(&items, "movie");
    assert_eq!(movies.len(), 1);
    assert_eq!(movies[0].id, "local:tt1");
    assert_eq!(movies[0].name, "Film");
    let series = catalog(&items, "series");
    assert_eq!(series.len(), 1);
    assert_eq!(series[0].id, "local:tt2");
    assert!(catalog(&items, "other").is_empty());
}

#[test]
fn an_episode_is_shown_with_its_season() {
    let v = local_video("local:tt1", &item(Some(2), Some(vec![3, 4]), None, None, "/x", "X"));
    assert_eq!((v.season, v.episode), (2, 3));
    assert_eq!(v.id, "local:tt1:2:3");
}
