//! One pass over a compressed archive, with the crates that decode it.
use std::cell::RefCell;
use std::io::Read;
use std::rc::Rc;
use stream_server::archives::tar::{TarHandler, TarMember};
use stream_server::archives::tgz::{Scan, ScanStep, TgzHandler, SCAN_ABANDONED};
use stream_server::archives::CacheConfig;

fn content(len: usize, seed: u32) -> Vec<u8> {
    (0..len as u32)
        .map(|i| (i.wrapping_mul(31).wrapping_add(seed) % 251) as u8)
        .collect()
}

/// A `.tar.gz` with the given members, in order.
fn write_tgz(members: &[(&str, Vec<u8>)]) -> Vec<u8> {
    let encoder = flate2::write::GzEncoder::new(Vec::new(), flate2::Compression::fast());
    let mut builder = tar::Builder::new(encoder);
    for (name, data) in members {
        let mut header = tar::Header::new_gnu();
        header.set_size(data.len() as u64);
        header.set_mode(0o644);
        header.set_cksum();
        builder.append_data(&mut header, name, data.as_slice()).unwrap();
    }
    builder.into_inner().unwrap().finish().unwrap()
}

struct WhileAwaited<'a> {
    inner: &'a [u8],
    scan: Rc<RefCell<Scan>>,
}

impl Read for WhileAwaited<'_> {
    fn read(&mut self, buf: &mut [u8]) -> std::io::Result<usize> {
        self.scan
            .borrow()
            .may_read()
            .map_err(|why| std::io::Error::new(std::io::ErrorKind::BrokenPipe, why))?;
        self.inner.read(buf)
    }
}

/// Scan an archive for a member: what the opener is told, and what is copied
/// from where the scan then stands. `goes` says before which entry the opener
/// goes away.
fn extract(archive: &[u8], target: &str, goes: Option<usize>) -> Result<(u64, Vec<u8>), String> {
    let scan = Rc::new(RefCell::new(Scan::new(target.to_string())));
    if goes == Some(0) {
        scan.borrow_mut().opener_gone();
    }
    let reader = WhileAwaited { inner: archive, scan: scan.clone() };
    let mut archive = tar::Archive::new(flate2::read::GzDecoder::new(reader));
    for (n, entry) in archive.entries().map_err(|e| e.to_string())?.enumerate() {
        let mut entry = entry.map_err(|e| e.to_string())?;
        if goes == Some(n + 1) {
            scan.borrow_mut().opener_gone();
        }
        let name = entry.path().unwrap().to_string_lossy().to_string();
        let step = scan.borrow_mut().entry(&name, entry.size());
        match step {
            ScanStep::Next => {}
            ScanStep::Stop => return Err("stopped".to_string()),
            ScanStep::Tell(size) => {
                // Once it was told, the opener's end says nothing any more.
                scan.borrow_mut().opener_gone();
                let mut data = Vec::new();
                entry.read_to_end(&mut data).map_err(|e| e.to_string())?;
                return Ok((size, data));
            }
        }
    }
    let ended = scan.borrow().ended();
    Err(ended.expect_err("nobody was told"))
}

#[test]
fn a_member_knows_its_length_before_it_is_extracted() {
    let second = content(200 * 1024, 7);
    let archive = write_tgz(&[
        ("first.txt", content(1000, 1)),
        ("videos/second.bin", second.clone()),
    ]);
    let (len, data) = extract(&archive, "videos/second.bin", None).expect("open member");
    assert_eq!(len, second.len() as u64);
    assert_eq!(data, second);
}

#[test]
fn a_missing_member_is_an_error_from_the_open() {
    let archive = write_tgz(&[("first.txt", content(10, 1))]);
    let err = extract(&archive, "nope.bin", None).expect_err("a missing member opened");
    assert!(err.contains("File not found"), "{err}");
}

/// A scan whose opener has gone stops reading the archive, even in the middle
/// of an entry it is skipping.
#[test]
fn a_scan_nobody_waits_for_stops() {
    let archive = write_tgz(&[
        ("big.bin", content(4 * 1024 * 1024, 3)),
        ("target.bin", content(10, 1)),
    ]);
    for goes in 0..2 {
        let err = extract(&archive, "target.bin", Some(goes))
            .expect_err("the scan went on for nobody");
        assert!(err.contains(SCAN_ABANDONED), "{err}");
    }
    // At the entry itself there is nothing left to read.
    let err = extract(&archive, "target.bin", Some(2)).expect_err("the scan told nobody");
    assert_eq!(err, "stopped");
}

#[test]
fn a_listing_names_every_entry() {
    let archive = write_tgz(&[
        ("first.txt", content(1000, 1)),
        ("videos/second.bin", content(5, 2)),
    ]);
    let mut listed = tar::Archive::new(flate2::read::GzDecoder::new(archive.as_slice()));
    let members: Vec<TarMember> = listed
        .entries()
        .unwrap()
        .map(|entry| {
            let entry = entry.unwrap();
            TarMember {
                path: entry.path().unwrap().to_string_lossy().to_string(),
                size: entry.size(),
                is_dir: entry.header().entry_type().is_dir(),
                offset: entry.raw_file_position(),
            }
        })
        .collect();
    let config = || CacheConfig { cache_dir: "/cache".to_string(), _cache_size: 0 };
    let tgz = TgzHandler::new("a.tgz".to_string(), config());
    let entries = tgz.list_files(&members);
    assert_eq!(
        entries.iter().map(|e| (e.path.as_str(), e.size, e.is_dir)).collect::<Vec<_>>(),
        vec![("first.txt", 1000, false), ("videos/second.bin", 5, false)]
    );
    let tar = TarHandler::new("a.tar".to_string());
    assert_eq!(tar.list_files(&members).len(), 2);
}
