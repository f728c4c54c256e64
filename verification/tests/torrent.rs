//! Torrent files, good and hostile.
use stream_server::local_addon::sha1::sha1_digest;
use stream_server::local_addon::torrent::{
    extract_info_bytes, parse_bencode, parse_torrent, sha1_str,
};

// ---- sha1_digest against RFC 3174 test vectors ----

#[test]
fn sha1_rfc3174_abc() {
    let digest = sha1_digest(b"abc");
    assert_eq!(
        hex::encode(digest),
        "a9993e364706816aba3e25717850c26c9cd0d89d"
    );
}

#[test]
fn sha1_rfc3174_empty() {
    let digest = sha1_digest(b"");
    assert_eq!(
        hex::encode(digest),
        "da39a3ee5e6b4b0d3255bfef95601890afd80709"
    );
}

// ---- Valid torrents ----

// The info dict's keys are deliberately out of BTreeMap-sorted order
// ("name" before "length") so the info_hash test below proves the hash
// is computed over the exact raw bytes of the info dict, not a
// re-encoding of the parsed (and therefore re-sorted) map.
const SINGLE_FILE_TORRENT: &[u8] =
    b"d8:announce20:http://example.com/a4:infod4:name8:test.txt6:lengthi12345eee";
const SINGLE_FILE_INFO_HASH: &str = "e4a6004e656344eae966cc1ae77a6ac2496513b2";

#[test]
fn parses_single_file_torrent() {
    let t = parse_torrent(SINGLE_FILE_TORRENT).expect("should parse");
    assert_eq!(t.info_hash, SINGLE_FILE_INFO_HASH);
    assert_eq!(t._name.as_deref(), Some("test.txt"));
    assert_eq!(t.files.len(), 1);
    assert_eq!(t.files[0].path, "test.txt");
    assert_eq!(t.files[0]._length, 12345);
}

const MULTI_FILE_TORRENT: &[u8] = b"d4:infod5:filesld6:lengthi100e4:pathl4:dir19:file1.txteed6:lengthi200e4:pathl4:dir19:file2.txteee4:name7:testdiree";
const MULTI_FILE_INFO_HASH: &str = "5225bac1392f2932e2c80123fd8c825cf02b3a42";

#[test]
fn parses_multi_file_torrent() {
    let t = parse_torrent(MULTI_FILE_TORRENT).expect("should parse");
    assert_eq!(t.info_hash, MULTI_FILE_INFO_HASH);
    assert_eq!(t._name.as_deref(), Some("testdir"));
    assert_eq!(t.files.len(), 2);
    assert_eq!(t.files[0].path, "dir1/file1.txt");
    assert_eq!(t.files[0]._length, 100);
    assert_eq!(t.files[1].path, "dir1/file2.txt");
    assert_eq!(t.files[1]._length, 200);
}

#[test]
fn extract_info_bytes_returns_raw_unsorted_slice() {
    // The raw slice must preserve the original ("name" before "length")
    // key order -- a re-encoding of the parsed BTreeMap would sort keys
    // alphabetically and put "length" first, yielding a different hash.
    let info_bytes = extract_info_bytes(SINGLE_FILE_TORRENT).expect("info bytes");
    assert_eq!(info_bytes, b"d4:name8:test.txt6:lengthi12345ee".as_slice());
    assert_eq!(sha1_str(info_bytes), SINGLE_FILE_INFO_HASH);
}

// ---- Adversarial inputs must return Err, never panic ----

#[test]
fn rejects_truncated_dict() {
    // Dict with a key but no value and no closing 'e'.
    assert!(parse_torrent(b"d3:fooe").is_err());
    assert!(parse_bencode(b"d3:foo").is_err());
}

#[test]
fn rejects_huge_string_length_without_panicking() {
    // usize::MAX as the declared length: start + len must not silently
    // wrap around (in release mode) and bypass the bounds check.
    let evil: &[u8] = b"18446744073709551615:x";
    assert!(parse_bencode(evil).is_err());

    // Same trap, reachable through a full torrent file.
    let evil_torrent: &[u8] = b"d4:infod4:name18446744073709551615:xee";
    assert!(parse_torrent(evil_torrent).is_err());
}

#[test]
fn rejects_negative_and_huge_ints_without_panicking() {
    assert!(parse_bencode(b"i-99999999999999999999999e").is_err());
    assert!(parse_bencode(b"i99999999999999999999999e").is_err());
    // A well-formed negative int within i64 range still parses fine.
    assert!(parse_bencode(b"i-42e").is_ok());
}

#[test]
fn rejects_deeply_nested_lists_without_panicking() {
    // ~100KB of nested, unterminated lists. Unbounded recursion would
    // blow the stack -- and since the release profile uses
    // panic = "abort", that takes the whole server down.
    let depth = 100_000;
    let evil = vec![b'l'; depth];
    assert!(parse_bencode(&evil).is_err());

    let mut evil_torrent = b"d4:info".to_vec();
    evil_torrent.extend(vec![b'l'; depth]);
    assert!(parse_torrent(&evil_torrent).is_err());
}

#[test]
fn rejects_non_utf8_name() {
    // "name" is present but its bytes are not valid UTF-8.
    let mut torrent = b"d4:infod6:lengthi1e4:name3:".to_vec();
    torrent.extend_from_slice(&[0xFF, 0xFE, 0xFD]);
    torrent.extend_from_slice(b"ee");
    assert!(parse_torrent(&torrent).is_err());
}

#[test]
fn rejects_missing_info_key() {
    // Well-formed dict, but with no "info" key at all.
    assert!(parse_torrent(b"d8:announce4:teste").is_err());
}

#[test]
fn rejects_empty_and_garbage_input_without_panicking() {
    assert!(parse_torrent(b"").is_err());
    assert!(parse_torrent(b"not bencode at all").is_err());
    assert!(parse_bencode(b"").is_err());
}

#[test]
fn rejects_string_with_no_colon() {
    assert!(parse_bencode(b"12345").is_err());
}

#[test]
fn rejects_dict_key_that_is_not_a_string() {
    // A dict whose "key" is a list instead of a string.
    assert!(parse_bencode(b"dlei1ee").is_err());
}

/// What a value is depends on its own bytes alone.
#[test]
fn a_value_is_its_own_bytes() {
    for tail in ["", "e", "i9e", "\u{0}\u{1}"] {
        for (value, len) in [("i5e", 3), ("3:abc", 5), ("l1:a1:be", 8), ("d1:ki7ee", 8)] {
            let (parsed, taken) = parse_bencode(format!("{value}{tail}").as_bytes()).unwrap();
            assert_eq!(taken, len);
            match value {
                "i5e" => assert_eq!(parsed.get_int(), Some(5)),
                "3:abc" => assert_eq!(parsed.as_str(), Some("abc")),
                "l1:a1:be" => assert_eq!(parsed.get_list().unwrap().len(), 2),
                _ => assert_eq!(
                    parsed.get_dict().unwrap().get(b"k").and_then(|v| v.get_int()),
                    Some(7)
                ),
            }
        }
    }
}

/// The info hash is over the value the root dictionary binds to `info`, and
/// not over what only looks like it.
#[test]
fn the_info_hash_is_over_the_info_value() {
    let info = "d6:lengthi1e4:name1:xe";
    let file = format!("d4:info{info}7:trailer1:ze");
    let raw = extract_info_bytes(file.as_bytes()).unwrap();
    assert_eq!(raw, info.as_bytes());
    assert_eq!(parse_bencode(raw).unwrap().1, raw.len());
    assert_eq!(parse_torrent(file.as_bytes()).unwrap().info_hash, sha1_str(raw));

    let decoy = b"d7:comment6:4:info4:infod4:name1:aee";
    assert_eq!(extract_info_bytes(decoy).unwrap(), b"d4:name1:ae");
    assert_eq!(parse_torrent(decoy).unwrap().info_hash, sha1_str(b"d4:name1:ae"));
    let nested = b"d1:ad4:infoi1ee4:infod4:name1:bee";
    assert_eq!(extract_info_bytes(nested).unwrap(), b"d4:name1:be");
    // The last value of a key counts.
    let twice = b"d4:infoi1e4:infod4:name1:cee";
    assert_eq!(extract_info_bytes(twice).unwrap(), b"d4:name1:ce");
    assert_eq!(extract_info_bytes(b"l4:infodee"), None);
    assert_eq!(extract_info_bytes(b"d4:infode"), None);
}

#[test]
fn a_copy_of_a_value_says_the_same() {
    let (value, _) = parse_bencode(b"d1:ad2:kki-3ee1:bl1:xi2eee").unwrap();
    let copy = value.clone();
    let dict = copy.get_dict().unwrap().clone();
    let nested = dict.get(b"a").unwrap().get_dict().unwrap();
    assert_eq!(nested.get(b"kk").unwrap().get_int(), Some(-3));
    let list = dict.get(b"b").unwrap().get_list().unwrap();
    assert_eq!(list[0].as_str(), Some("x"));
    assert_eq!(list[1].get_int(), Some(2));
    assert!(dict.get(b"c").is_none());
}
