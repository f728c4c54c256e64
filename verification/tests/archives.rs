//! Archives: which reader, which member, and which bytes of it.
use stream_server::archives::cache::{
    Abandonment, ProgressiveReader, ReadStep, Readers, StateSnapshot, ABANDONED, ABANDONED_AFTER,
    UNKNOWN_LENGTH,
};
use stream_server::archives::nzb::session::{
    clamp_connections, credentials, NzbConfig, NzbServerConfig, NzbSession,
    MAX_CONNECTIONS_PER_SERVER,
};
use stream_server::archives::nzb::stream::{decode_yenc, StreamStep};
use stream_server::archives::nzb::{nntp, Nzb, NzbFile, NzbHandler, NzbSegment};
use stream_server::archives::rar::{member_index, resolve_entry, RarHandler, RarMember};
use stream_server::archives::sessions::{janitor_period, Sessions};
use stream_server::archives::sevenz::{
    find_entry, skip_error, EntryStep, Extraction, SevenZEntry, SevenZHandler,
};
use stream_server::archives::source::{ArchiveSource, OpenStep};
use stream_server::archives::tar::{TarHandler, TarMember};
use stream_server::archives::tgz::{Scan, ScanStep, SCAN_ABANDONED};
use stream_server::archives::torrent::TorrentArchives;
use stream_server::archives::window::{MemberWindow, SeekFrom, NEGATIVE_SEEK};
use stream_server::archives::zip::{stored_member_offset, ZipHandler, ZipMember};
use stream_server::archives::{
    archive_suffix, archive_suffix_from_magic, get_archive_reader_from_stream,
    get_archive_reader_with_config, reader_by_suffix, ArchiveReader, CacheConfig, OpenedMember,
    RAR_DISABLED_ERROR, SESSION_IDLE_TIMEOUT,
};

fn config() -> CacheConfig {
    CacheConfig { cache_dir: "/cache".to_string(), _cache_size: 0 }
}

#[test]
fn the_suffix_is_found_at_the_end_whatever_the_case_or_the_prefix() {
    assert_eq!(archive_suffix("Movie.RAR"), Some(".rar"));
    assert_eq!(archive_suffix("/tmp/archive_x9.7z"), Some(".7z"));
    assert_eq!(archive_suffix("/dl/show.tar.gz"), Some(".tar.gz"));
    assert_eq!(archive_suffix("show.tgz"), Some(".tgz"));
    assert_eq!(archive_suffix("index.nzb"), Some(".nzb"));
    assert_eq!(archive_suffix("/download?id=1"), None);
    assert_eq!(archive_suffix("movie.mkv"), None);
    assert_eq!(archive_suffix("archive.zip.txt"), None);
}

#[test]
fn the_first_bytes_name_the_format_a_suffixless_url_did_not() {
    assert_eq!(
        archive_suffix_from_magic(b"Rar!\x1a\x07\x01\x00rest"),
        Some(".rar")
    );
    assert_eq!(archive_suffix_from_magic(b"PK\x03\x04rest"), Some(".zip"));
    assert_eq!(
        archive_suffix_from_magic(b"7z\xbc\xaf\x27\x1c\x00\x04"),
        Some(".7z")
    );
    assert_eq!(archive_suffix_from_magic(b"\x1f\x8b\x08"), Some(".tar.gz"));
    let mut tar = vec![0u8; 512];
    tar[257..262].copy_from_slice(b"ustar");
    assert_eq!(archive_suffix_from_magic(&tar), Some(".tar"));
    assert_eq!(archive_suffix_from_magic(b"<html>"), None);
    assert_eq!(archive_suffix_from_magic(b""), None);
}

#[test]
fn scratch_files_go_under_the_cache_root() {
    let config = CacheConfig { cache_dir: "/cache".to_string(), _cache_size: 0 };
    assert_eq!(config.scratch_dir(), "/cache/.archives");
}

#[test]
fn a_reader_is_found_by_the_suffix() {
    assert!(matches!(
        get_archive_reader_with_config("/a/Movie.ZIP", config(), true),
        Ok(ArchiveReader::Zip(_))
    ));
    assert!(matches!(
        get_archive_reader_with_config("/a/x.tar.gz", config(), true),
        Ok(ArchiveReader::Tgz(_))
    ));
    assert!(matches!(
        get_archive_reader_with_config("/a/x.rar", config(), true),
        Ok(ArchiveReader::Rar(_))
    ));
    assert_eq!(
        get_archive_reader_with_config("/a/x.rar", config(), false).err(),
        Some(RAR_DISABLED_ERROR.to_string())
    );
    assert!(get_archive_reader_with_config("/a/x.mkv", config(), true).is_err());
    assert!(matches!(
        reader_by_suffix(Some(".nzb"), "/a", config(), true),
        Ok(ArchiveReader::Nzb(_))
    ));
    assert!(reader_by_suffix(None, "/a", config(), true).is_err());
    assert!(matches!(
        get_archive_reader_from_stream("zip", config()),
        Ok(ArchiveReader::Zip(_))
    ));
    assert_eq!(
        get_archive_reader_from_stream("exe", config()).err(),
        Some("Unsupported archive type for streaming: .exe".to_string())
    );
}

// ---------------------------------------------------------------------
// Windows

fn archive() -> Vec<u8> {
    let mut bytes = b"before".to_vec();
    bytes.extend(member());
    bytes.extend_from_slice(b"after");
    bytes
}

fn member() -> Vec<u8> {
    (0..64u32).map(|i| (i.wrapping_mul(7) % 251) as u8).collect()
}

/// Read to the end of a window over an archive, as its reader does.
fn read_to_end(window: &mut MemberWindow, at: &mut u64) -> Vec<u8> {
    let archive = archive();
    let mut out = Vec::new();
    loop {
        let want = window.want(10);
        let start = *at as usize;
        let n = want.min(archive.len() - start);
        if n == 0 {
            return out;
        }
        out.extend_from_slice(&archive[start..start + n]);
        window.read(n);
        *at += n as u64;
    }
}

fn seek(window: &mut MemberWindow, at: &mut u64, to: SeekFrom) -> Result<u64, String> {
    let target = window.start_seek(to)?;
    *at = target;
    Ok(window.poll_complete(target))
}

#[test]
fn a_window_reads_the_member_and_nothing_after_it() {
    let mut at = 6;
    let mut window = MemberWindow::new(6, 64);
    assert_eq!(read_to_end(&mut window, &mut at), member());
}

#[test]
fn seeks_are_in_the_members_own_coordinates() {
    let mut at = 6;
    let mut window = MemberWindow::new(6, 64);

    assert_eq!(seek(&mut window, &mut at, SeekFrom::End(0)), Ok(64));
    assert_eq!(seek(&mut window, &mut at, SeekFrom::Start(0)), Ok(0));

    assert_eq!(seek(&mut window, &mut at, SeekFrom::Start(32)), Ok(32));
    assert_eq!(read_to_end(&mut window, &mut at), member()[32..]);

    assert_eq!(seek(&mut window, &mut at, SeekFrom::End(-4)), Ok(60));
    assert_eq!(read_to_end(&mut window, &mut at), member()[60..]);

    assert_eq!(seek(&mut window, &mut at, SeekFrom::Current(-64)), Ok(0));
    assert_eq!(
        seek(&mut window, &mut at, SeekFrom::Current(-1)),
        Err(NEGATIVE_SEEK.to_string())
    );
}

// ---------------------------------------------------------------------
// Progressive extraction

#[test]
fn set_error_propagates_to_reader() {
    let mut state = StateSnapshot::new();
    state.set_error("boom".to_string());
    let reader = ProgressiveReader::new(None);
    assert!(matches!(
        reader.poll_read(&state, 4, false),
        ReadStep::Fail(e) if e.contains("boom")
    ));
    assert!(state.is_failed());
}

#[test]
fn a_reader_reads_what_is_written_and_waits_for_the_rest() {
    let mut state = StateSnapshot::new();
    let mut reader = ProgressiveReader::new(Some(10));
    assert!(matches!(reader.poll_read(&state, 4, false), ReadStep::Park));
    state.wrote(6);
    assert!(matches!(reader.poll_read(&state, 4, false), ReadStep::ReadFile(4)));
    assert!(matches!(reader.after_read(&state, 4, false), ReadStep::Ready));
    assert!(matches!(reader.poll_read(&state, 4, false), ReadStep::ReadFile(2)));
    assert!(matches!(reader.after_read(&state, 2, false), ReadStep::Ready));
    state.wrote(4);
    state.finish(Ok(()));
    assert!(matches!(reader.poll_read(&state, 100, false), ReadStep::ReadFile(4)));
    assert!(matches!(reader.after_read(&state, 4, false), ReadStep::Ready));
    // The end of a finished member is the end.
    assert!(matches!(reader.poll_read(&state, 4, false), ReadStep::Ready));
}

#[test]
fn seek_from_end_lands_and_reads_from_offset() {
    let mut state = StateSnapshot::new();
    state.wrote(10);
    state.finish(Ok(()));
    let mut reader = ProgressiveReader::new(Some(10));
    let pos = reader.start_seek(SeekFrom::End(-4)).unwrap();
    assert_eq!(pos, 6, "SeekFrom::End(-4) with total 10 lands at 6");
    reader.poll_complete(pos);
    assert!(matches!(reader.poll_read(&state, 4, false), ReadStep::ReadFile(4)));
}

#[test]
fn seek_from_end_without_total_size_errors() {
    let reader = ProgressiveReader::new(None);
    assert_eq!(
        reader.start_seek(SeekFrom::End(-1)),
        Err(UNKNOWN_LENGTH.to_string())
    );
}

#[test]
fn seek_current_negative_past_zero_errors() {
    let reader = ProgressiveReader::new(None);
    assert!(reader.start_seek(SeekFrom::Current(-5)).is_err());
}

const GRACE: u64 = 50;

#[test]
fn a_writer_nobody_reads_from_gives_up_after_the_grace() {
    let mut state = StateSnapshot::new();
    let mut readers = Readers::default();
    let mut abandonment = Abandonment::new(GRACE);
    readers.opened();
    assert_eq!(state.check_abandoned(&mut abandonment, readers.any(), 0), Ok(()));
    readers.closed();
    assert_eq!(state.check_abandoned(&mut abandonment, readers.any(), 10), Ok(()));
    assert_eq!(state.check_abandoned(&mut abandonment, readers.any(), 10 + GRACE - 1), Ok(()));
    assert!(!state.is_failed());
    assert_eq!(
        state.check_abandoned(&mut abandonment, readers.any(), 10 + GRACE),
        Err(ABANDONED.to_string())
    );
    assert!(state.is_failed(), "the failure is recorded");
    assert_eq!(ABANDONED_AFTER, 30_000_000_000);
}

#[test]
fn a_reader_keeps_the_writer_going() {
    let mut readers = Readers::default();
    let mut abandonment = Abandonment::new(GRACE);
    readers.opened();
    for round in 1..5 {
        assert_eq!(abandonment.check(readers.any(), GRACE * round), Ok(()));
    }
    // Gone, then back before the grace is up.
    readers.closed();
    assert_eq!(abandonment.check(readers.any(), GRACE * 5), Ok(()));
    readers.opened();
    assert_eq!(abandonment.check(readers.any(), GRACE * 5 + GRACE / 2), Ok(()));
    readers.closed();
    assert_eq!(abandonment.check(readers.any(), GRACE * 7), Ok(()));
    assert_eq!(abandonment.check(readers.any(), GRACE * 8 - 1), Ok(()));
}

// ---------------------------------------------------------------------
// Sessions

const TIMEOUT: u64 = SESSION_IDLE_TIMEOUT;
const SECOND: u64 = 1_000_000_000;

#[test]
fn idle_sessions_go_leased_ones_stay() {
    let mut sessions: Sessions<u32> = Sessions::new(TIMEOUT);
    sessions.insert("idle".into(), 1, 0);
    sessions.insert("leased".into(), 2, 0);
    let lease = sessions.get("leased", 0).expect("just inserted");

    let now = TIMEOUT;
    sessions.sweep(now);
    assert!(sessions.get("idle", now).is_none(), "idle past the timeout");
    let check = sessions.get("leased", now).expect("a lease is a use");
    assert_eq!(sessions.len(), 1);

    // Two leases are out; the idle clock starts when the last of them goes,
    // not the first.
    sessions.release(check, now);
    sessions.sweep(now + TIMEOUT);
    assert_eq!(sessions.len(), 1);
    sessions.release(lease, now);
    let now = now + TIMEOUT - SECOND;
    sessions.sweep(now);
    let again = sessions.get("leased", now).expect("not idle for long enough");
    sessions.release(again, now);
    sessions.sweep(now + TIMEOUT);
    assert!(sessions.get("leased", now + TIMEOUT).is_none());
    assert!(sessions.is_empty());
}

#[test]
fn find_leases_the_match() {
    let mut sessions: Sessions<u32> = Sessions::new(TIMEOUT);
    sessions.insert("a".into(), 1, 0);
    sessions.insert("b".into(), 2, 0);
    let found = sessions.find(|value: &u32| *value == 2, 0).expect("b");
    assert_eq!(sessions.value(&found), Some(&2));
    sessions.sweep(TIMEOUT);
    assert!(sessions.get("a", TIMEOUT).is_none());
    assert!(sessions.get("b", TIMEOUT).is_some(), "found is leased");
    assert!(sessions.find(|value: &u32| *value == 1, TIMEOUT).is_none());
}

#[test]
fn sessions_are_swept_a_few_times_in_a_timeout() {
    assert_eq!(janitor_period(TIMEOUT), 150 * SECOND);
    assert_eq!(janitor_period(3 * SECOND), SECOND);
}

#[test]
fn a_session_put_under_a_taken_key_takes_its_place() {
    let mut sessions: Sessions<u32> = Sessions::new(TIMEOUT);
    sessions.insert("a".into(), 1, 0);
    let old = sessions.get("a", 0).unwrap();
    sessions.insert("a".into(), 2, 0);
    let new = sessions.get("a", 0).unwrap();
    assert_eq!(sessions.value(&new), Some(&2));
    // The one that was replaced stays for the lease out on it.
    assert_eq!(sessions.value(&old), Some(&1));
    assert_eq!(sessions.swap_value(&new, 3), 2);
    assert_eq!(sessions.value(&new), Some(&3));
    assert_eq!(sessions.len(), 1);
    sessions.release(old, 0);
    assert_eq!(sessions.value(&new), Some(&3));
}

// ---------------------------------------------------------------------
// Sources

#[test]
fn a_member_is_extracted_once_per_source() {
    let mut source = ArchiveSource::local("/a.7z".into(), "/a.7z".into(), config());
    assert!(matches!(source.open_member("second.bin", &vec![]), OpenStep::Extract));
    source.member_extracted("second.bin", 7);
    for _ in 0..2 {
        assert!(matches!(source.open_member("second.bin", &vec![]), OpenStep::Read(7)));
    }
    assert!(matches!(source.open_member("first.txt", &vec![]), OpenStep::Extract));
    source.member_extracted("first.txt", 8);
    assert!(matches!(source.open_member("second.bin", &vec![]), OpenStep::Read(7)));
    assert!(matches!(source.open_member("first.txt", &vec![]), OpenStep::Read(8)));
}

#[test]
fn an_evicted_extraction_is_redone() {
    let mut source = ArchiveSource::local("/a.7z".into(), "/a.7z".into(), config());
    source.member_extracted("second.bin", 7);
    assert!(matches!(source.open_member("second.bin", &vec![]), OpenStep::Read(7)));
    source.member_gone("second.bin");
    assert!(matches!(source.open_member("second.bin", &vec![]), OpenStep::Extract));
}

#[test]
fn a_failed_extraction_is_done_again() {
    let mut source = ArchiveSource::downloaded("/t.zip".into(), "http://x/t".into(), config());
    source.member_extracted("m", 1);
    source.member_extracted("n", 2);
    assert!(matches!(source.open_member("m", &vec![1]), OpenStep::Extract));
    assert!(matches!(source.open_member("n", &vec![1]), OpenStep::Read(2)));
    assert!(source.owns_its_file());
    assert_eq!(source.origin(), "http://x/t");
    assert_eq!(source.path(), "/t.zip");
    assert!(matches!(source.reader(true), Ok(ArchiveReader::Zip(_))));
    let local = ArchiveSource::local("/mine.zip".into(), "/mine.zip".into(), config());
    assert!(!local.owns_its_file());
}

#[test]
fn a_torrents_archive_keeps_its_extractions_while_it_is_used() {
    let mut archives = TorrentArchives::new(TIMEOUT);
    let (step, lease) = archives.open_member("h", "a.zip", "m", &vec![], 0);
    assert!(matches!(step, OpenStep::Extract));
    assert_eq!(archives.len(), 1);
    archives.sweep(TIMEOUT * 2);
    assert_eq!(archives.len(), 1, "a lease is out");
    archives.release(lease.expect("leased"), TIMEOUT * 2);
    archives.sweep(TIMEOUT * 3 - 1);
    assert_eq!(archives.len(), 1);
    archives.sweep(TIMEOUT * 3);
    assert_eq!(archives.len(), 0);
}

#[test]
fn a_second_range_on_a_member_costs_no_second_extraction() {
    let mut archives = TorrentArchives::new(TIMEOUT);
    let (step, first) = archives.open_member("h", "a.zip", "m", &vec![], 0);
    assert!(matches!(step, OpenStep::Extract));
    archives.member_extracted("h", "a.zip", "m", 5, 0);
    let (step, second) = archives.open_member("h", "a.zip", "m", &vec![], 1);
    assert!(matches!(step, OpenStep::Read(5)));
    // Another archive knows nothing of it.
    let (step, other) = archives.open_member("h", "b.zip", "m", &vec![], 1);
    assert!(matches!(step, OpenStep::Extract));
    archives.member_gone("h", "a.zip", "m", 2);
    let (step, third) = archives.open_member("h", "a.zip", "m", &vec![], 2);
    assert!(matches!(step, OpenStep::Extract));
    for lease in [first, second, other, third] {
        archives.release(lease.expect("leased"), 3);
    }
    archives.sweep(3 + TIMEOUT);
    assert_eq!(archives.len(), 0);
}

// ---------------------------------------------------------------------
// Formats

fn zip_header(flags: u16, name: u16, extra: u16) -> Vec<u8> {
    let mut h = vec![0u8; 30];
    h[..4].copy_from_slice(b"PK\x03\x04");
    h[6..8].copy_from_slice(&flags.to_le_bytes());
    h[26..28].copy_from_slice(&name.to_le_bytes());
    h[28..30].copy_from_slice(&extra.to_le_bytes());
    h
}

fn zip_members() -> Vec<ZipMember> {
    vec![
        ZipMember { name: "d/".into(), size: 0, is_dir: true, stored: true, header_offset: 0 },
        ZipMember { name: "a.mkv".into(), size: 9, is_dir: false, stored: true, header_offset: 100 },
        ZipMember { name: "b.mkv".into(), size: 7, is_dir: false, stored: false, header_offset: 200 },
    ]
}

#[test]
fn a_stored_member_is_served_from_the_archive_itself() {
    let handler = ZipHandler::new("/a.zip".into(), config());
    let members = zip_members();
    let index = handler.find_member(&members, "a.mkv").unwrap();
    assert_eq!(index, 1);
    let opened = handler.open_file(&members, index, &zip_header(0, 5, 3));
    assert!(matches!(opened, OpenedMember::Direct { start: 138, len: 9 }), "{opened:?}");
    // Encrypted, or no header at all: it is extracted.
    let opened = handler.open_file(&members, index, &zip_header(1, 5, 3));
    assert!(matches!(opened, OpenedMember::Extracted { index: 1, size: 9 }), "{opened:?}");
    assert_eq!(stored_member_offset(&[0u8; 30], 100), None);
    assert_eq!(stored_member_offset(&zip_header(0, 5, 3), 100), Some(138));
    let opened = handler.open_file(&members, 2, &zip_header(0, 5, 3));
    assert!(matches!(opened, OpenedMember::Extracted { index: 2, size: 7 }), "{opened:?}");
    assert!(handler.find_member(&members, "missing").is_err());
    assert_eq!(handler.list_files(&members).len(), 3);
}

fn sevenz() -> Vec<SevenZEntry> {
    vec![
        SevenZEntry { name: "first.txt".into(), size: 5, is_dir: false, block: Some(0) },
        SevenZEntry { name: "second.bin".into(), size: 50, is_dir: false, block: Some(0) },
        SevenZEntry { name: "empty".into(), size: 0, is_dir: false, block: None },
    ]
}

#[test]
fn sevenz_lists_entries() {
    let handler = SevenZHandler::new_with_config("/a.7z".into(), config());
    let listed = handler.list_files(&sevenz());
    assert_eq!(listed.len(), 3);
    assert_eq!((listed[1].path.as_str(), listed[1].size), ("second.bin", 50));
    assert!(matches!(
        handler.open_file(&sevenz(), "second.bin"),
        Ok(OpenedMember::Extracted { index: 1, size: 50 })
    ));
}

#[test]
fn sevenz_missing_entry_errors() {
    let handler = SevenZHandler::new_with_config("/a.7z".into(), config());
    assert!(handler.open_file(&sevenz(), "missing").is_err());
    assert!(find_entry(&sevenz(), "missing").is_err());
    assert!(Extraction::new(&sevenz(), "missing").is_err());
}

#[test]
fn a_member_of_a_solid_block_is_reached_through_those_before_it() {
    let mut x = Extraction::new(&sevenz(), "second.bin").unwrap();
    assert_eq!(x.block(), Some(0));
    assert!(matches!(x.entry(0), EntryStep::Drain));
    assert!(matches!(x.entry(1), EntryStep::Copy));
    x.copied(Ok(()));
    assert_eq!(x.finish(Ok(()), "second.bin"), Ok(()));

    let mut x = Extraction::new(&sevenz(), "second.bin").unwrap();
    assert!(matches!(x.entry(1), EntryStep::Copy));
    x.copied(Err("disk full".to_string()));
    assert!(x.finish(Ok(()), "second.bin").is_err());

    let x = Extraction::new(&sevenz(), "second.bin").unwrap();
    assert!(x.finish(Ok(()), "second.bin").is_err(), "never written");
    assert!(skip_error("short read").contains("short read"));
}

#[test]
fn rar_members_are_found_by_either_name() {
    assert_eq!(member_index(Some(3), Some(4)), Some(3));
    assert_eq!(member_index(None, Some(4)), Some(4));
    assert_eq!(member_index(None, None), None);
    let info = RarMember { name: "m".into(), is_directory: false, unpacked_size: Some(9) };
    assert_eq!(resolve_entry(Some(2), Some(&info), "m"), Ok((2, 9)));
    assert!(resolve_entry(None, None, "m").is_err());
    let dir = RarMember { name: "d".into(), is_directory: true, unpacked_size: None };
    assert!(resolve_entry(Some(1), Some(&dir), "d").is_err());
    let handler = RarHandler::new_with_config("/a.rar".into(), config());
    assert_eq!(handler.scratch_dir(), "/cache/.archives");
    let listed = handler.list_files(&vec![info]);
    assert_eq!((listed[0].path.as_str(), listed[0].size), ("m", 9));
}

#[test]
fn a_member_is_read_whole_from_the_archive_itself() {
    let members = vec![
        TarMember { path: "a".into(), size: 3, is_dir: false, offset: 512 },
        TarMember { path: "b".into(), size: 4, is_dir: false, offset: 1536 },
    ];
    let handler = TarHandler::new("/a.tar".into());
    assert!(matches!(
        handler.open_file(&members, "b"),
        Ok(OpenedMember::Direct { start: 1536, len: 4 })
    ));
    assert!(handler.open_file(&members, "c").is_err());
}

#[test]
fn a_scan_tells_the_opener_the_size_of_its_member() {
    let mut scan = Scan::new("b".into());
    assert_eq!(scan.may_read(), Ok(()));
    assert!(matches!(scan.entry("a", 3), ScanStep::Next));
    assert!(matches!(scan.entry("b", 4), ScanStep::Tell(4)));
    let mut gone = Scan::new("b".into());
    gone.opener_gone();
    assert_eq!(gone.may_read(), Err(SCAN_ABANDONED.to_string()));
    assert!(matches!(gone.entry("b", 4), ScanStep::Stop));
}

// ---------------------------------------------------------------------
// Usenet

fn server(connections: u32) -> NzbServerConfig {
    NzbServerConfig {
        host: "127.0.0.1".into(),
        port: 119,
        user: None,
        pass: None,
        ssl: false,
        connections,
    }
}

fn segment(number: u32, id: &str) -> NzbSegment {
    NzbSegment { bytes: 10, number, id: id.to_string() }
}

fn nzb() -> Nzb {
    Nzb {
        files: vec![NzbFile {
            subject: "my \"video.mkv\" yEnc".to_string(),
            segments: vec![segment(1, "one@x"), segment(2, "two@x")],
        }],
    }
}

fn session(connections: u32) -> NzbSession {
    let config = NzbConfig {
        nzb_url: "http://example.invalid/x.nzb".into(),
        servers: vec![server(connections)],
    };
    NzbSession::new("k".into(), config, nzb())
}

#[test]
fn connections_are_capped() {
    let session = session(500);
    assert_eq!(session.config.servers[0].connections, MAX_CONNECTIONS_PER_SERVER);
    assert_eq!(session.total_connections(), MAX_CONNECTIONS_PER_SERVER as usize);
    assert_eq!(clamp_connections(7), 7);
}

#[test]
fn zero_connections_becomes_one() {
    assert_eq!(session(0).config.servers[0].connections, 1);
}

#[test]
fn credentials_are_sent_only_where_there_are_both() {
    let mut s = server(1);
    assert_eq!(credentials(&s), None);
    s.user = Some("u".into());
    assert_eq!(credentials(&s), None);
    s.pass = Some("p".into());
    assert_eq!(credentials(&s), Some(("u".to_string(), "p".to_string())));
}

fn article(data: &[u8]) -> Vec<u8> {
    let mut a = b"=ybegin line=128 size=9 name=v\n".to_vec();
    a.extend(data.iter().map(|b| b.wrapping_add(42)));
    a.extend_from_slice(b"\n=yend size=9\n");
    a
}

#[test]
fn a_files_segments_are_streamed_in_order() {
    let mut stream = session(1).stream_file("video.mkv").expect("found");
    let mut out = Vec::new();
    loop {
        match stream.poll_read(3) {
            StreamStep::Give(bytes) => out.extend(bytes),
            StreamStep::Fetch(id) => {
                let body = if id == "one@x" { article(b"abcd") } else { article(b"efg") };
                assert_eq!(stream.fetched(Ok(body)), Ok(()));
            }
            StreamStep::Wait => panic!("nothing is being fetched"),
            StreamStep::End => break,
        }
    }
    assert_eq!(out, b"abcdefg");
    assert!(session(1).stream_file("missing.mkv").is_err());
    // An article without a header is taken from its start.
    assert_eq!(decode_yenc(&[42 + 7, 42 + 9]), Ok(vec![7, 9]));
    let handler = NzbHandler::new("/x.nzb".into());
    let listed = handler.list_files(&nzb());
    assert_eq!(listed.len(), 1);
    assert_eq!(listed[0].size, 20);
}

#[test]
fn a_news_server_is_spoken_to_line_by_line() {
    assert_eq!(nntp::server_address("news.example", 563), "news.example:563");
    assert_eq!(nntp::greeting("200 hello"), Ok(()));
    assert!(nntp::greeting("502 no").is_err());
    assert_eq!(nntp::message_id("a@b"), "<a@b>");
    assert_eq!(nntp::message_id("<a@b>"), "<a@b>");
    assert_eq!(nntp::body_follows("a@b", "222 body"), Ok(()));
    assert_eq!(
        nntp::body_follows("a@b", "430 none"),
        Err("Failed to fetch body for <a@b>: 430 none".to_string())
    );
    let mut body = nntp::Body::new();
    assert!(!body.line(b"first\r\n"));
    assert!(!body.line(b"..dot\r\n"));
    assert!(body.line(b".\r\n"));
    assert_eq!(body.into_bytes(), b"first\r\n.dot\r\n");
}

// ---------------------------------------------------------------------
// Refusals

#[test]
fn an_unknown_archive_is_refused_by_its_extension() {
    for (path, shown) in [
        ("/films/movie.mkv", "Some(\"mkv\")"),
        ("movie.tar.xz", "Some(\"xz\")"),
        ("/films.d/movie", "None"),
        ("/films/.hidden", "None"),
        ("/films/movie.mkv/", "Some(\"mkv\")"),
        ("..", "None"),
    ] {
        match get_archive_reader_with_config(path, config(), true) {
            Err(e) => assert_eq!(e, format!("Unsupported archive type: {shown}")),
            Ok(_) => panic!("{path} has a reader"),
        }
    }
}
