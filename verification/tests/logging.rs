//! Log files, and what may stand in them.
use stream_server::diagnostics::logging::{
    active_direct_streams, archive_for, direct_stream_ended, direct_stream_started, format_headers,
    init_process_start, is_crash_dump, launches_to_delete, log_files_installed, redacted_args,
    store_log_guards, uptime_secs, LoggedHeader, ProcessState, CURRENT_LOG, KEPT_LAUNCHES,
    NANOS_PER_SEC, REDACTED,
};
use stream_server::diagnostics::ProcessMemorySnapshot;

fn strings(args: &[&str]) -> Vec<String> {
    args.iter().map(|arg| arg.to_string()).collect()
}

#[test]
fn the_token_is_redacted_in_both_spellings_and_nothing_else_is_touched() {
    assert_eq!(
        redacted_args(strings(&["server", "--token", "hunter2", "--verbose"])),
        strings(&["server", "--token", REDACTED, "--verbose"])
    );
    assert_eq!(
        redacted_args(strings(&["--token=hunter2", "--no-auth"])),
        strings(&["--token=<redacted>", "--no-auth"])
    );
    // A trailing `--token` with no value leaves nothing to redact and adds
    // nothing.
    assert_eq!(redacted_args(strings(&["--token"])), strings(&["--token"]));
}

/// Each start leaves the newest launches of each kind, and the log that is
/// being written.
#[test]
fn the_newest_launches_are_kept() {
    let mut names: Vec<String> = Vec::new();
    for second in 10..30 {
        for suffix in [".log", ".jsonl"] {
            names.push(format!("server_2020-01-01_00-00-{second}{suffix}"));
        }
    }
    names.push(CURRENT_LOG.to_string());
    names.push("other.log".to_string());
    let deleted = launches_to_delete(&names, ".log", KEPT_LAUNCHES - 1);
    assert_eq!(deleted.len(), 11);
    assert!(!deleted.contains(&CURRENT_LOG.to_string()));
    assert!(!deleted.contains(&"server_2020-01-01_00-00-29.log".to_string()));
    assert!(deleted.contains(&"server_2020-01-01_00-00-20.log".to_string()));
    assert!(!deleted.contains(&"other.log".to_string()));
    assert!(deleted.iter().all(|n| n.ends_with(".log")));
}

#[test]
fn few_launches_all_stay() {
    let names = strings(&["server_2020-01-01_00-00-10.log", CURRENT_LOG]);
    assert!(launches_to_delete(&names, ".log", 1).is_empty());
}

#[test]
fn an_archive_of_the_same_second_gets_a_number() {
    let stamp = "2020-09-13_12-26-40";
    assert_eq!(archive_for(stamp, &Vec::new()), "server_2020-09-13_12-26-40.log");
    let first = strings(&["server_2020-09-13_12-26-40.log"]);
    assert_eq!(archive_for(stamp, &first), "server_2020-09-13_12-26-40-1.log");
    let both = strings(&[
        "server_2020-09-13_12-26-40.log",
        "server_2020-09-13_12-26-40-1.log",
    ]);
    assert_eq!(archive_for(stamp, &both), "server_2020-09-13_12-26-40-2.log");
}

#[test]
fn credentials_are_never_shown() {
    let shown = format_headers(&vec![
        LoggedHeader {
            name: "range".to_string(),
            value: Some("bytes=0-".to_string()),
            len: 8,
        },
        LoggedHeader {
            name: "authorization".to_string(),
            value: Some("Bearer s3cret".to_string()),
            len: 13,
        },
    ]);
    assert!(shown.contains("bytes=0-"), "{shown}");
    assert!(!shown.contains("s3cret"), "{shown}");
}

#[test]
fn a_process_counts_its_streams_and_its_seconds() {
    let mut process = ProcessState::default();
    init_process_start(&mut process, 5 * NANOS_PER_SEC);
    init_process_start(&mut process, 50 * NANOS_PER_SEC);
    assert_eq!(uptime_secs(&mut process, 8 * NANOS_PER_SEC + 1), 3);
    assert_eq!(uptime_secs(&mut process, 0), 0);

    direct_stream_started(&mut process);
    direct_stream_started(&mut process);
    direct_stream_ended(&mut process);
    assert_eq!(active_direct_streams(&process), 1);

    assert!(!log_files_installed(&process));
    store_log_guards(&mut process);
    assert!(log_files_installed(&process));
}

#[test]
fn crash_dumps_are_known_by_their_extension() {
    assert!(is_crash_dump("report.dmp"));
    assert!(!is_crash_dump("report.txt"));
}

#[test]
fn a_snapshot_without_a_reading_is_of_nothing() {
    let none = ProcessMemorySnapshot::of(7, None, 3);
    assert_eq!((none.rss_bytes, none.virtual_memory_bytes), (0, 0));
    assert_eq!((none.pid, none.thread_count), (7, 3));
    let some = ProcessMemorySnapshot::of(7, Some((11, 13)), 3);
    assert_eq!((some.rss_bytes, some.virtual_memory_bytes), (11, 13));
}
