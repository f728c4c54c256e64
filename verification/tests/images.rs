//! Disc images built byte by byte, and what the indexers make of them.
use std::sync::Mutex;
use stream_server::images::iso9660;
use stream_server::images::udf;
use stream_server::images::{
    extents_within, index, le_u16, le_u32, le_u64, trim_to_len, Budget, Extent, Image, ImageFile,
    ImageFormat, ImageReader, MemoryImage, Refusal, INDEX_READ_BUDGET, SECTOR,
};

/// An image that records what was read from it.
struct CountingImage {
    bytes: Vec<u8>,
    reads: Mutex<Vec<(u64, u64)>>,
}

impl CountingImage {
    fn new(bytes: Vec<u8>) -> Self {
        Self { bytes, reads: Mutex::new(Vec::new()) }
    }

    fn reads(&self) -> Vec<(u64, u64)> {
        self.reads.lock().expect("not poisoned").clone()
    }

    fn total(&self) -> u64 {
        self.reads().iter().map(|(_, l)| l).sum()
    }

    /// Whether any read overlapped `[offset, offset + len)`.
    fn read_any_of(&self, offset: u64, len: u64) -> bool {
        self.reads().iter().any(|(o, l)| *o < offset + len && offset < o + l)
    }
}

impl ImageReader for CountingImage {
    fn image(&self) -> Image {
        unreachable!("no code asks for it")
    }

    fn reliable(&self) -> bool {
        unreachable!("no code asks for it")
    }

    fn len(&self) -> u64 {
        self.bytes.len() as u64
    }

    fn read_at(&self, offset: u64, buf: &mut [u8]) -> Result<usize, String> {
        let start = offset as usize;
        if start >= self.bytes.len() {
            return Ok(0);
        }
        let n = buf.len().min(self.bytes.len() - start);
        buf[..n].copy_from_slice(&self.bytes[start..start + n]);
        self.reads.lock().expect("not poisoned").push((offset, n as u64));
        Ok(n)
    }
}

/// An image whose stated length is `len` and whose first bytes are `head`;
/// everything after that reads as zeros. An 8 GiB image in 48 KiB.
struct SparseImage {
    head: Vec<u8>,
    len: u64,
}

impl ImageReader for SparseImage {
    fn image(&self) -> Image {
        unreachable!("no code asks for it")
    }

    fn reliable(&self) -> bool {
        unreachable!("no code asks for it")
    }

    fn len(&self) -> u64 {
        self.len
    }

    fn read_at(&self, offset: u64, buf: &mut [u8]) -> Result<usize, String> {
        if offset >= self.len {
            return Ok(0);
        }
        let n = buf.len().min((self.len - offset) as usize);
        buf[..n].fill(0);
        let start = offset as usize;
        if start < self.head.len() {
            let from_head = n.min(self.head.len() - start);
            buf[..from_head].copy_from_slice(&self.head[start..start + from_head]);
        }
        Ok(n)
    }
}

/// An image whose reads always fail.
struct FailingImage {
    len: u64,
}

impl ImageReader for FailingImage {
    fn image(&self) -> Image {
        unreachable!("no code asks for it")
    }

    fn reliable(&self) -> bool {
        unreachable!("no code asks for it")
    }

    fn len(&self) -> u64 {
        self.len
    }

    fn read_at(&self, _offset: u64, _buf: &mut [u8]) -> Result<usize, String> {
        Err("no bytes today".to_string())
    }
}

fn blank(sectors: usize) -> Vec<u8> {
    vec![0u8; sectors * SECTOR as usize]
}

fn at(image: &mut [u8], sector: u64) -> &mut [u8] {
    let start = (sector * SECTOR) as usize;
    &mut image[start..start + SECTOR as usize]
}

// ---------------------------------------------------------------------
// ISO 9660 images

const DATA_SECTOR: u64 = 19;
const DATA_LEN: u64 = 1234;

/// A both-endian 32-bit field: little first, then big.
fn both_u32(b: &mut [u8], at: usize, v: u32) {
    b[at..at + 4].copy_from_slice(&v.to_le_bytes());
    b[at + 4..at + 8].copy_from_slice(&v.to_be_bytes());
}

fn both_u16(b: &mut [u8], at: usize, v: u16) {
    b[at..at + 2].copy_from_slice(&v.to_le_bytes());
    b[at + 2..at + 4].copy_from_slice(&v.to_be_bytes());
}

/// One directory record. `name` is the raw name bytes (`\0` for `.`, `\x01`
/// for `..`), `system_use` whatever Rock Ridge data follows.
fn record(name: &[u8], lba: u32, len: u32, flags: u8, system_use: &[u8]) -> Vec<u8> {
    let name_len = name.len();
    let su_start = 33 + name_len + usize::from(name_len % 2 == 0);
    let mut total = su_start + system_use.len();
    if total % 2 == 1 {
        total += 1;
    }
    let mut rec = vec![0u8; total];
    rec[0] = u8::try_from(total).expect("a test record fits in a byte");
    both_u32(&mut rec, 2, lba);
    both_u32(&mut rec, 10, len);
    rec[25] = flags;
    both_u16(&mut rec, 28, 1);
    rec[32] = u8::try_from(name_len).expect("a test name fits in a byte");
    rec[33..33 + name_len].copy_from_slice(name);
    rec[su_start..su_start + system_use.len()].copy_from_slice(system_use);
    rec
}

fn volume_descriptor(kind: u8, root: &[u8], escape: Option<&[u8]>) -> Vec<u8> {
    let mut d = vec![0u8; SECTOR as usize];
    d[0] = kind;
    d[1..6].copy_from_slice(b"CD001");
    d[6] = 1;
    if let Some(escape) = escape {
        d[88..88 + escape.len()].copy_from_slice(escape);
    }
    both_u32(&mut d, 80, 64);
    both_u16(&mut d, 120, 1);
    both_u16(&mut d, 124, 1);
    both_u16(&mut d, 128, SECTOR as u16);
    d[156..156 + root.len()].copy_from_slice(root);
    d
}

fn terminator() -> Vec<u8> {
    let mut d = vec![0u8; SECTOR as usize];
    d[0] = 255;
    d[1..6].copy_from_slice(b"CD001");
    d[6] = 1;
    d
}

fn directory(records: &[Vec<u8>]) -> Vec<u8> {
    let mut d = vec![0u8; SECTOR as usize];
    let mut pos = 0;
    for r in records {
        d[pos..pos + r.len()].copy_from_slice(r);
        pos += r.len();
    }
    d
}

/// The `.` and `..` records every directory starts with.
fn dots(lba: u32, parent: u32) -> Vec<Vec<u8>> {
    vec![
        record(&[0x00], lba, SECTOR as u32, 0x02, &[]),
        record(&[0x01], parent, SECTOR as u32, 0x02, &[]),
    ]
}

/// A primary volume descriptor, a terminator, and a root directory at
/// sector 18 with the given records after its dots.
fn iso_of(sectors: usize, records: &[Vec<u8>]) -> Vec<u8> {
    let mut image = blank(sectors);
    let root = record(&[0x00], 18, SECTOR as u32, 0x02, &[]);
    at(&mut image, 16).copy_from_slice(&volume_descriptor(1, &root, None));
    at(&mut image, 17).copy_from_slice(&terminator());
    let mut all = dots(18, 18);
    all.extend_from_slice(records);
    at(&mut image, 18).copy_from_slice(&directory(&all));
    image
}

fn minimal_iso() -> Vec<u8> {
    let mut image = iso_of(
        24,
        &[record(b"HELLO.TXT;1", DATA_SECTOR as u32, DATA_LEN as u32, 0, &[])],
    );
    let data = (DATA_SECTOR * SECTOR) as usize;
    image[data..data + DATA_LEN as usize].fill(b'A');
    image
}

fn iso_with_subdirectory() -> Vec<u8> {
    let mut image = iso_of(
        24,
        &[
            record(b"HELLO.TXT;1", 19, DATA_LEN as u32, 0, &[]),
            record(b"VIDEO_TS", 20, SECTOR as u32, 0x02, &[]),
        ],
    );
    let mut sub = dots(20, 18);
    sub.push(record(b"VTS_01_1.VOB;1", 21, 4096, 0, &[]));
    at(&mut image, 20).copy_from_slice(&directory(&sub));
    image
}

/// One name, two records, the first flagged multi-extent: a file over 4 GiB.
fn multi_extent_image() -> SparseImage {
    // The largest length that is a whole number of sectors, which is how a
    // writer splits a big file.
    let first_len: u32 = 0xffff_f800;
    let head = iso_of(
        24,
        &[
            record(b"BIG.BIN;1", 32, first_len, 0x80, &[]),
            record(b"BIG.BIN;1", 32 + first_len / SECTOR as u32, 1_000_000, 0, &[]),
        ],
    );
    SparseImage { head, len: 8 * 1024 * 1024 * 1024 }
}

/// A primary tree and a Joliet supplementary tree over the same data.
fn iso_with_joliet() -> Vec<u8> {
    let mut image = blank(24);
    let root = record(&[0x00], 21, SECTOR as u32, 0x02, &[]);
    at(&mut image, 16).copy_from_slice(&volume_descriptor(1, &root, None));
    let joliet_root = record(&[0x00], 20, SECTOR as u32, 0x02, &[]);
    at(&mut image, 17).copy_from_slice(&volume_descriptor(
        2,
        &joliet_root,
        Some(&[0x25, 0x2f, 0x45]),
    ));
    at(&mut image, 18).copy_from_slice(&terminator());

    let mut primary = dots(21, 21);
    primary.push(record(b"FALLT_SC.MKV;1", 19, DATA_LEN as u32, 0, &[]));
    at(&mut image, 21).copy_from_slice(&directory(&primary));

    let ucs2: Vec<u8> = "Fällt schwer.mkv;1"
        .encode_utf16()
        .flat_map(|u| u.to_be_bytes())
        .collect();
    let mut joliet = dots(20, 20);
    joliet.push(record(&ucs2, 19, DATA_LEN as u32, 0, &[]));
    at(&mut image, 20).copy_from_slice(&directory(&joliet));
    image
}

/// A primary tree whose records carry Rock Ridge `NM` names, and whose `.`
/// record carries the `SP` entry.
fn iso_with_rock_ridge() -> Vec<u8> {
    let mut image = iso_of(24, &[]);
    let sp = [b'S', b'P', 7, 1, 0xbe, 0xef, 0];
    let mut records = vec![
        record(&[0x00], 18, SECTOR as u32, 0x02, &sp),
        record(&[0x01], 18, SECTOR as u32, 0x02, &[]),
    ];
    let name = b"a long unix name.mkv";
    let mut nm = vec![b'N', b'M', (5 + name.len()) as u8, 1, 0];
    nm.extend_from_slice(name);
    records.push(record(b"A_LONG_U.MKV;1", 19, DATA_LEN as u32, 0, &nm));
    at(&mut image, 18).copy_from_slice(&directory(&records));
    image
}

/// A chain of directories deeper than the walk's limit, each one a sector of
/// its own so that nothing is a cycle.
fn iso_with_a_depth_bomb() -> Vec<u8> {
    let levels = 100u32;
    let mut image = iso_of(18 + levels as usize + 2, &[]);
    for level in 0..levels {
        let here = 18 + level;
        let mut records = dots(here, here.saturating_sub(1).max(18));
        records.push(record(b"D", here + 1, SECTOR as u32, 0x02, &[]));
        at(&mut image, here as u64).copy_from_slice(&directory(&records));
    }
    image
}

/// A record claiming more bytes than are left in its directory.
fn iso_with_overlong_record() -> Vec<u8> {
    let mut image = blank(24);
    let root = record(&[0x00], 18, 100, 0x02, &[]);
    at(&mut image, 16).copy_from_slice(&volume_descriptor(1, &root, None));
    at(&mut image, 17).copy_from_slice(&terminator());
    let mut rec = record(b"BIG.BIN;1", 19, 4096, 0, &[]);
    rec[0] = 200;
    at(&mut image, 18)[..rec.len()].copy_from_slice(&rec);
    image
}

// ---------------------------------------------------------------------
// UDF images

/// Where the partition starts, in sectors.
const PARTITION_START: u64 = 264;
const PARTITION_BLOCKS: u32 = 100;
/// Blocks of the partition: the file set, the root's entry and data, the
/// file's entry and data.
const ROOT_ENTRY: u32 = 1;
const ROOT_DATA: u32 = 2;
const FILE_ENTRY: u32 = 3;
const FILE_DATA: u32 = 10;
const FILE_LEN: u64 = 1500;

fn block_offset(block: u32) -> u64 {
    (PARTITION_START + block as u64) * SECTOR
}

fn put_u16(b: &mut [u8], at: usize, v: u16) {
    b[at..at + 2].copy_from_slice(&v.to_le_bytes());
}

fn put_u32(b: &mut [u8], at: usize, v: u32) {
    b[at..at + 4].copy_from_slice(&v.to_le_bytes());
}

fn put_u64(b: &mut [u8], at: usize, v: u64) {
    b[at..at + 8].copy_from_slice(&v.to_le_bytes());
}

fn put_long_ad(b: &mut [u8], at: usize, len: u32, block: u32, partition: u16) {
    put_u32(b, at, len);
    put_u32(b, at + 4, block);
    put_u16(b, at + 8, partition);
}

/// The CRC every descriptor tag carries, written out bit by bit.
fn crc(bytes: &[u8]) -> u16 {
    let mut crc: u16 = 0;
    for &b in bytes {
        for bit in (0..8).rev() {
            let top = (crc >> 15) ^ ((b as u16 >> bit) & 1);
            crc <<= 1;
            if top == 1 {
                crc ^= 0x1021;
            }
        }
    }
    crc
}

/// Fill in a descriptor's tag over `crc_len` bytes of body.
fn tag(d: &mut [u8], ident: u16, crc_len: usize) {
    put_u16(d, 0, ident);
    put_u16(d, 2, 2);
    d[4] = 0;
    let c = crc(&d[16..16 + crc_len]);
    put_u16(d, 8, c);
    put_u16(d, 10, crc_len as u16);
    let sum: u32 = d[..16].iter().map(|&b| b as u32).sum();
    d[4] = (sum & 0xff) as u8;
}

/// A CS0 name, one byte per character.
fn cs0(name: &str) -> Vec<u8> {
    let mut v = vec![8u8];
    v.extend_from_slice(name.as_bytes());
    v
}

/// A file identifier descriptor.
fn identifier(name: &[u8], characteristics: u8, block: u32) -> Vec<u8> {
    let total = (38 + name.len()).next_multiple_of(4);
    let mut d = vec![0u8; total];
    d[18] = characteristics;
    d[19] = name.len() as u8;
    put_long_ad(&mut d, 20, SECTOR as u32, block, 0);
    d[38..38 + name.len()].copy_from_slice(name);
    tag(&mut d, 257, total - 16);
    d
}

/// A file entry: its type, its allocation flags, its length and its
/// allocation descriptors.
fn entry(extended: bool, file_type: u8, flags: u16, len: u64, ads: &[u8]) -> Vec<u8> {
    let mut d = vec![0u8; SECTOR as usize];
    put_u16(&mut d, 20, 4);
    d[27] = file_type;
    put_u16(&mut d, 34, flags);
    put_u64(&mut d, 56, len);
    let (len_ad_at, fixed) = if extended { (212, 216) } else { (172, 176) };
    put_u32(&mut d, len_ad_at, ads.len() as u32);
    d[fixed..fixed + ads.len()].copy_from_slice(ads);
    tag(&mut d, if extended { 266 } else { 261 }, fixed - 16 + ads.len());
    d
}

fn short_ad(len: u32, block: u32) -> Vec<u8> {
    let mut v = vec![0u8; 8];
    put_u32(&mut v, 0, len);
    put_u32(&mut v, 4, block);
    v
}

fn long_ad(len: u32, block: u32, partition: u16) -> Vec<u8> {
    let mut v = vec![0u8; 16];
    put_long_ad(&mut v, 0, len, block, partition);
    v
}

fn put_block(image: &mut [u8], block: u32, d: &[u8]) {
    let start = block_offset(block) as usize;
    image[start..start + d.len()].copy_from_slice(d);
}

/// The logical volume descriptor, with one partition map of type one, or a
/// map of type two with the given name.
fn logical_volume(type_two: Option<&str>) -> Vec<u8> {
    let mut d = vec![0u8; SECTOR as usize];
    put_u32(&mut d, 212, SECTOR as u32);
    d[217..236].copy_from_slice(b"*OSTA UDF Compliant");
    put_u16(&mut d, 240, 0x0250);
    put_long_ad(&mut d, 248, SECTOR as u32, 0, 0);
    put_u32(&mut d, 268, 1);
    match type_two {
        None => {
            d[440] = 1;
            d[441] = 6;
            put_u16(&mut d, 442, 1);
            put_u16(&mut d, 444, 0);
        }
        Some(name) => {
            d[440] = 2;
            d[441] = 64;
            d[445..445 + name.len()].copy_from_slice(name.as_bytes());
        }
    }
    tag(&mut d, 6, 1024);
    d
}

/// The anchor, the volume descriptor sequence, the file set and a root
/// directory that holds the given identifiers.
fn udf_of(identifiers: &[Vec<u8>]) -> Vec<u8> {
    let mut image = blank(PARTITION_START as usize + PARTITION_BLOCKS as usize);
    let mut anchor = vec![0u8; SECTOR as usize];
    put_u32(&mut anchor, 16, 4 * SECTOR as u32);
    put_u32(&mut anchor, 20, 257);
    tag(&mut anchor, 2, 496);
    at(&mut image, 256).copy_from_slice(&anchor);

    let mut primary = vec![0u8; SECTOR as usize];
    tag(&mut primary, 1, 496);
    at(&mut image, 257).copy_from_slice(&primary);
    let mut partition = vec![0u8; SECTOR as usize];
    put_u16(&mut partition, 22, 0);
    put_u32(&mut partition, 188, PARTITION_START as u32);
    put_u32(&mut partition, 192, PARTITION_BLOCKS);
    tag(&mut partition, 5, 496);
    at(&mut image, 258).copy_from_slice(&partition);
    at(&mut image, 259).copy_from_slice(&logical_volume(None));
    let mut end = vec![0u8; SECTOR as usize];
    tag(&mut end, 8, 496);
    at(&mut image, 260).copy_from_slice(&end);

    let mut file_set = vec![0u8; SECTOR as usize];
    put_long_ad(&mut file_set, 400, SECTOR as u32, ROOT_ENTRY, 0);
    tag(&mut file_set, 256, 496);
    put_block(&mut image, 0, &file_set);

    put_directory(&mut image, ROOT_ENTRY, ROOT_DATA, identifiers);
    image
}

/// A directory: its entry at one block, its identifiers at another.
fn put_directory(image: &mut [u8], entry_at: u32, data_at: u32, identifiers: &[Vec<u8>]) {
    let mut data = identifier(&[], 0x08 | 0x02, ROOT_ENTRY);
    for i in identifiers {
        data.extend_from_slice(i);
    }
    put_block(
        image,
        entry_at,
        &entry(false, 4, 0, data.len() as u64, &short_ad(data.len() as u32, data_at)),
    );
    put_block(image, data_at, &data);
}

/// One file at the root, with the given entry.
fn udf_with_entry(file: &[u8]) -> Vec<u8> {
    let mut image = udf_of(&[identifier(&cs0("MOVIE.BIN"), 0, FILE_ENTRY)]);
    put_block(&mut image, FILE_ENTRY, file);
    image
}

fn minimal_udf() -> Vec<u8> {
    let mut image = udf_with_entry(&entry(
        false,
        5,
        0,
        FILE_LEN,
        &short_ad(FILE_LEN as u32, FILE_DATA),
    ));
    put_block(&mut image, FILE_DATA, &[b'M'; FILE_LEN as usize]);
    image
}

fn udf_with_subdirectory() -> Vec<u8> {
    let mut image = udf_of(&[identifier(&cs0("BDMV"), 0x02, 4)]);
    put_directory(&mut image, 4, 5, &[identifier(&cs0("STREAM"), 0x02, 6)]);
    put_directory(&mut image, 6, 7, &[identifier(&cs0("00000.m2ts"), 0, FILE_ENTRY)]);
    let mut ads = short_ad(2 * SECTOR as u32, FILE_DATA);
    ads.extend_from_slice(&short_ad(700, FILE_DATA + 5));
    put_block(&mut image, FILE_ENTRY, &entry(false, 5, 0, 2 * SECTOR + 700, &ads));
    image
}

fn detail_of(err: &Refusal) -> String {
    match err {
        Refusal::Malformed { detail, .. } => detail.clone(),
        other => panic!("expected Malformed, got {other:?}"),
    }
}

fn unsupported_of(err: &Refusal) -> String {
    match err {
        Refusal::Unsupported { what, .. } => what.clone(),
        other => panic!("expected Unsupported, got {other:?}"),
    }
}

// ---------------------------------------------------------------------
// ISO 9660

#[test]
fn a_minimal_image_yields_one_file_at_its_extent() {
    let idx = iso9660::index(&MemoryImage::new(minimal_iso())).expect("indexed");
    assert_eq!(
        idx.files,
        vec![ImageFile {
            path: "/HELLO.TXT".into(),
            len: DATA_LEN,
            extents: vec![Extent { offset: DATA_SECTOR * SECTOR, len: DATA_LEN }],
        }]
    );
}

#[test]
fn a_directory_is_walked_and_is_not_itself_a_file() {
    let image = MemoryImage::new(iso_with_subdirectory());
    let idx = iso9660::index(&image).expect("indexed");
    let paths: Vec<&str> = idx.files.iter().map(|f| f.path.as_str()).collect();
    assert_eq!(paths, vec!["/HELLO.TXT", "/VIDEO_TS/VTS_01_1.VOB"]);
}

#[test]
fn a_file_over_four_gib_is_several_records_and_one_file() {
    let idx = iso9660::index(&multi_extent_image()).expect("indexed");
    assert_eq!(idx.files.len(), 1, "{:?}", idx.files);
    let f = &idx.files[0];
    assert_eq!(f.path, "/BIG.BIN");
    assert_eq!(f.extents.len(), 2);
    assert_eq!(f.len, f.extents.iter().map(|e| e.len).sum::<u64>());
    assert!(f.len > u32::MAX as u64, "{} bytes", f.len);
}

#[test]
fn joliet_names_are_preferred_over_the_iso_ones() {
    let idx = iso9660::index(&MemoryImage::new(iso_with_joliet())).expect("indexed");
    assert_eq!(idx.format, ImageFormat::Iso9660 { joliet: true, rock_ridge: false });
    assert_eq!(idx.files[0].path, "/Fällt schwer.mkv");
}

#[test]
fn rock_ridge_names_are_used_when_there_is_no_joliet_tree() {
    let idx = iso9660::index(&MemoryImage::new(iso_with_rock_ridge())).expect("indexed");
    assert_eq!(idx.format, ImageFormat::Iso9660 { joliet: false, rock_ridge: true });
    assert_eq!(idx.files[0].path, "/a long unix name.mkv");
}

#[test]
fn the_version_suffix_is_stripped() {
    assert_eq!(iso9660::iso_name(b"HELLO.TXT;1"), "HELLO.TXT");
    assert_eq!(iso9660::iso_name(b"README.;1"), "README");
    assert_eq!(iso9660::iso_name(b"NOVERSION"), "NOVERSION");
}

#[test]
fn indexing_reads_descriptors_and_directories_only() {
    let image = CountingImage::new(iso_with_subdirectory());
    iso9660::index(&image).expect("indexed");
    assert!(
        image.total() <= 8 * SECTOR,
        "read {} bytes to index a two-directory image",
        image.total()
    );
}

#[test]
fn a_record_pointing_outside_the_image_is_malformed() {
    let image = iso_of(24, &[record(b"GONE.BIN;1", 10_000, 4096, 0, &[])]);
    let err = iso9660::index(&MemoryImage::new(image)).expect_err("refused");
    assert!(detail_of(&err).contains("past the image"), "{err:?}");
}

#[test]
fn a_directory_cycle_is_refused_rather_than_walked() {
    let image = iso_of(24, &[record(b"LOOP", 18, SECTOR as u32, 0x02, &[])]);
    let err = iso9660::index(&MemoryImage::new(image)).expect_err("refused");
    assert!(detail_of(&err).contains("cycle"), "{err:?}");
}

#[test]
fn iso9660_a_name_holding_a_path_separator_is_refused() {
    let image = iso_of(
        24,
        &[record(b"../../ETC/PASSWD;1", 19, DATA_LEN as u32, 0, &[])],
    );
    let err = iso9660::index(&MemoryImage::new(image)).expect_err("refused");
    assert!(detail_of(&err).contains("name is"), "{err:?}");
}

#[test]
fn iso9660_a_depth_bomb_stops_at_the_depth_limit() {
    let err = iso9660::index(&MemoryImage::new(iso_with_a_depth_bomb())).expect_err("refused");
    assert!(detail_of(&err).contains("deeper than"), "{err:?}");
}

#[test]
fn a_record_whose_length_overflows_its_directory_is_malformed() {
    let err = iso9660::index(&MemoryImage::new(iso_with_overlong_record())).expect_err("refused");
    assert!(matches!(err, Refusal::Malformed { .. }), "{err:?}");
}

#[test]
fn iso9660_every_truncation_of_a_good_image_is_a_refusal_and_never_a_panic() {
    let full = iso_with_subdirectory();
    let mut cuts: Vec<usize> = (0..full.len()).step_by(SECTOR as usize).collect();
    cuts.extend([1, 33, 32_768, 32_800, 34_000, full.len() - 1]);
    for cut in cuts {
        let image = MemoryImage::new(full[..cut].to_vec());
        if let Ok(idx) = iso9660::index(&image) {
            for f in &idx.files {
                for e in &f.extents {
                    assert!(e.offset + e.len <= cut as u64, "cut at {cut} still reported {e:?}");
                }
            }
        }
    }
}

#[test]
fn every_single_byte_corruption_of_a_header_is_a_refusal_or_an_index() {
    let full = iso_with_subdirectory();
    for at in (32_768..36_864.min(full.len())).step_by(7) {
        for xor in [0xff, 0x01, 0x80] {
            let mut bytes = full.clone();
            bytes[at] ^= xor;
            match index(&MemoryImage::new(bytes)) {
                Ok(idx) => {
                    for f in &idx.files {
                        for e in &f.extents {
                            assert!(e.offset + e.len <= full.len() as u64);
                        }
                    }
                }
                Err(_) => continue,
            }
        }
    }
}

// ---------------------------------------------------------------------
// Whatever the image is

#[test]
fn an_iso_9660_image_is_indexed_through_its_own_tree() {
    let idx = index(&MemoryImage::new(minimal_iso())).expect("indexed");
    assert!(matches!(idx.format, ImageFormat::Iso9660 { .. }));
    assert_eq!(idx.files.len(), 1);
    assert_eq!(idx.files[0].path, "/HELLO.TXT");
}

#[test]
fn a_udf_only_image_falls_through_to_udf() {
    let idx = index(&MemoryImage::new(minimal_udf())).expect("indexed");
    assert!(matches!(idx.format, ImageFormat::Udf { .. }));
    assert_eq!(idx.files[0].path, "/MOVIE.BIN");
}

#[test]
fn a_bridge_image_is_indexed_through_its_9660_tree() {
    let mut image = minimal_udf();
    let iso = minimal_iso();
    image[..iso.len()].copy_from_slice(&iso);
    assert!(udf::index(&MemoryImage::new(image.clone())).is_ok());
    let idx = index(&MemoryImage::new(image)).expect("indexed");
    assert!(matches!(idx.format, ImageFormat::Iso9660 { .. }));
}

#[test]
fn bytes_that_are_neither_format_are_refused_naming_both() {
    let err = index(&MemoryImage::new(vec![0u8; 600 * 1024])).expect_err("refused");
    let Refusal::NotAnImage { detail } = &err else {
        panic!("expected NotAnImage, got {err:?}");
    };
    assert!(detail.contains("CD001"), "{detail}");
    assert!(detail.contains("anchor"), "{detail}");
}

#[test]
fn an_empty_reader_is_refused_not_panicked() {
    let image = MemoryImage::new(Vec::new());
    assert!(image.is_empty());
    let err = index(&image).expect_err("refused");
    assert!(matches!(err, Refusal::NotAnImage { .. }), "{err:?}");
}

#[test]
fn indexing_never_reads_the_file_data() {
    let image = CountingImage::new(minimal_iso());
    let idx = index(&image).expect("indexed");
    assert_eq!(idx.files[0].extents.len(), 1);
    assert_eq!(idx.files[0].extents[0].offset, DATA_SECTOR * SECTOR);
    assert!(
        !image.read_any_of(DATA_SECTOR * SECTOR, DATA_LEN),
        "the index read file data: {:?}",
        image.reads()
    );
}

#[test]
fn trimming_cuts_the_padding_and_drops_extents_past_the_end() {
    let mut extents = vec![
        Extent { offset: 0, len: 2048 },
        Extent { offset: 4096, len: 2048 },
    ];
    assert_eq!(trim_to_len(&mut extents, 3000), 3000);
    assert_eq!(
        extents,
        vec![
            Extent { offset: 0, len: 2048 },
            Extent { offset: 4096, len: 952 }
        ]
    );

    let mut short = vec![Extent { offset: 0, len: 10 }];
    // A stated length the extents cannot cover comes back as the sum.
    assert_eq!(trim_to_len(&mut short, 99), 10);

    let mut dropped = vec![
        Extent { offset: 0, len: 10 },
        Extent { offset: 10, len: 0 },
        Extent { offset: 20, len: 10 },
    ];
    assert_eq!(trim_to_len(&mut dropped, 10), 10);
    assert_eq!(dropped, vec![Extent { offset: 0, len: 10 }]);
}

#[test]
fn a_read_past_the_image_is_malformed_not_a_short_parse() {
    let image = MemoryImage::new(vec![0u8; 100]);
    let mut budget = Budget::new(&image, "test");
    let err = budget.read_exact(64, 128).expect_err("refused");
    assert!(detail_of(&err).contains("past the image"), "{err:?}");
}

#[test]
fn the_budget_refuses_rather_than_reading_forever() {
    let image = MemoryImage::new(vec![0u8; (INDEX_READ_BUDGET + SECTOR) as usize]);
    let mut budget = Budget::new(&image, "test");
    let mut sector = 0;
    loop {
        match budget.read_sector(sector) {
            Ok(_) => sector += 1,
            Err(e) => {
                assert!(detail_of(&e).contains("budget"), "{e:?}");
                break;
            }
        }
    }
    assert_eq!(budget.used(), INDEX_READ_BUDGET);
}

#[test]
fn a_reader_error_is_unreadable_not_malformed() {
    let err = index(&FailingImage { len: 1 << 20 }).expect_err("refused");
    assert!(matches!(err, Refusal::Unreadable { .. }), "{err:?}");
}

#[test]
fn formats_and_refusals_are_told_in_words() {
    assert_eq!(
        ImageFormat::Iso9660 { joliet: true, rock_ridge: false }.text(),
        "ISO 9660 + Joliet"
    );
    assert_eq!(ImageFormat::Udf { revision: Some(0x0250) }.text(), "UDF 2.50");
    assert_eq!(ImageFormat::Udf { revision: None }.text(), "UDF");
    let err = index(&FailingImage { len: 1 << 20 }).expect_err("refused");
    assert!(err.text().contains("no bytes today"), "{}", err.text());
}

#[test]
fn numbers_are_read_low_byte_first_and_only_where_they_are() {
    let b = [1u8, 2, 3, 4, 5, 6, 7, 8];
    assert_eq!(le_u16(&b, 6), Some(0x0807));
    assert_eq!(le_u16(&b, 7), None);
    assert_eq!(le_u32(&b, 4), Some(0x0807_0605));
    assert_eq!(le_u32(&b, 5), None);
    assert_eq!(le_u64(&b, 0), Some(0x0807_0605_0403_0201));
    assert_eq!(le_u64(&b, 1), None);
    assert_eq!(le_u16(&b, usize::MAX), None);
}

#[test]
fn an_extent_outside_the_image_is_told() {
    assert_eq!(extents_within(&[Extent { offset: 10, len: 90 }], 100), Ok(()));
    assert_eq!(
        extents_within(&[Extent { offset: 10, len: 91 }], 100),
        Err("an extent at 10 claims 91 bytes, past the image's 100 bytes".to_string())
    );
    assert_eq!(
        extents_within(&[Extent { offset: u64::MAX, len: 1 }], 100),
        Err(format!(
            "an extent at {} claims 1 bytes, which overflows",
            u64::MAX
        ))
    );
}

// ---------------------------------------------------------------------
// UDF

#[test]
fn a_minimal_udf_image_yields_its_one_file() {
    let idx = udf::index(&MemoryImage::new(minimal_udf())).expect("indexed");
    assert_eq!(idx.format, ImageFormat::Udf { revision: Some(0x0250) });
    assert_eq!(
        idx.files,
        vec![ImageFile {
            path: "/MOVIE.BIN".into(),
            len: FILE_LEN,
            extents: vec![Extent { offset: block_offset(FILE_DATA), len: FILE_LEN }],
        }]
    );
}

#[test]
fn a_directory_is_walked_and_a_file_can_have_several_extents() {
    let idx = udf::index(&MemoryImage::new(udf_with_subdirectory())).expect("indexed");
    let paths: Vec<&str> = idx.files.iter().map(|f| f.path.as_str()).collect();
    assert_eq!(paths, vec!["/BDMV/STREAM/00000.m2ts"]);
    assert_eq!(idx.files[0].extents.len(), 2);
    assert_eq!(
        idx.files[0].len,
        idx.files[0].extents.iter().map(|e| e.len).sum::<u64>()
    );
}

#[test]
fn an_extended_file_entry_is_read_like_a_file_entry() {
    let image = udf_with_entry(&entry(
        true,
        5,
        0,
        FILE_LEN,
        &short_ad(FILE_LEN as u32, FILE_DATA),
    ));
    let idx = udf::index(&MemoryImage::new(image)).expect("indexed");
    assert_eq!(idx.files[0].path, "/MOVIE.BIN");
    assert_eq!(idx.files[0].extents.len(), 1);
}

#[test]
fn long_allocation_descriptors_are_read() {
    let image = udf_with_entry(&entry(
        false,
        5,
        1,
        FILE_LEN,
        &long_ad(FILE_LEN as u32, FILE_DATA, 0),
    ));
    let idx = udf::index(&MemoryImage::new(image)).expect("indexed");
    assert_eq!(
        idx.files[0].extents,
        vec![Extent { offset: block_offset(FILE_DATA), len: FILE_LEN }]
    );
}

#[test]
fn a_long_allocation_descriptor_names_its_own_partition() {
    let image = udf_with_entry(&entry(
        false,
        5,
        1,
        FILE_LEN,
        &long_ad(FILE_LEN as u32, FILE_DATA, 1),
    ));
    let err = udf::index(&MemoryImage::new(image)).expect_err("refused");
    assert!(detail_of(&err).contains("partition reference 1"), "{err:?}");
}

#[test]
fn udf_a_name_holding_a_path_separator_is_refused() {
    let image = udf_of(&[identifier(&cs0("../x"), 0, FILE_ENTRY)]);
    let err = udf::index(&MemoryImage::new(image)).expect_err("refused");
    assert!(detail_of(&err).contains("name is"), "{err:?}");
}

#[test]
fn udf_a_depth_bomb_stops_at_the_depth_limit() {
    // Each directory's identifiers stand in its own entry, so that a level
    // costs one block.
    let mut image = udf_of(&[identifier(&cs0("D"), 0x02, 5)]);
    for level in 0..90u32 {
        let data = identifier(&cs0("D"), 0x02, 6 + level);
        put_block(&mut image, 5 + level, &entry(false, 4, 3, data.len() as u64, &data));
    }
    let err = udf::index(&MemoryImage::new(image)).expect_err("refused");
    assert!(detail_of(&err).contains("deeper than"), "{err:?}");
}

#[test]
fn inline_data_is_an_extent_inside_the_file_entry() {
    let image = udf_with_entry(&entry(false, 5, 3, 5, b"hello"));
    let idx = udf::index(&MemoryImage::new(image.clone())).expect("indexed");
    let expected = block_offset(FILE_ENTRY) + 176;
    assert_eq!(idx.files[0].extents, vec![Extent { offset: expected, len: 5 }]);
    assert_eq!(&image[expected as usize..expected as usize + 5], b"hello");
}

#[test]
fn the_last_extent_is_trimmed_to_the_stated_length() {
    let image = udf_with_entry(&entry(false, 5, 0, 300, &short_ad(SECTOR as u32, FILE_DATA)));
    let idx = udf::index(&MemoryImage::new(image)).expect("indexed");
    assert_eq!(idx.files[0].len, 300);
    assert_eq!(idx.files[0].extents[0].len, 300);
}

#[test]
fn a_file_longer_than_its_extents_is_malformed() {
    let image = udf_with_entry(&entry(false, 5, 0, 3000, &short_ad(SECTOR as u32, FILE_DATA)));
    let err = udf::index(&MemoryImage::new(image)).expect_err("refused");
    assert_eq!(
        detail_of(&err),
        "`/MOVIE.BIN` says it is 3000 bytes and its extents cover 2048"
    );
}

#[test]
fn a_metadata_partition_map_is_refused_by_name() {
    let mut image = minimal_udf();
    at(&mut image, 259).copy_from_slice(&logical_volume(Some("*UDF Metadata Partition")));
    let err = udf::index(&MemoryImage::new(image)).expect_err("refused");
    assert!(unsupported_of(&err).contains("Metadata"), "{err:?}");
}

#[test]
fn a_sparse_file_is_refused_rather_than_served_as_zeros() {
    let image = udf_with_entry(&entry(
        false,
        5,
        0,
        FILE_LEN,
        &short_ad(FILE_LEN as u32 | 0x4000_0000, FILE_DATA),
    ));
    let err = udf::index(&MemoryImage::new(image)).expect_err("refused");
    assert!(unsupported_of(&err).contains("sparse"), "{err:?}");
}

#[test]
fn an_unsupported_icb_strategy_is_named() {
    let mut file = entry(false, 5, 0, FILE_LEN, &short_ad(FILE_LEN as u32, FILE_DATA));
    put_u16(&mut file, 20, 4096);
    tag(&mut file, 261, 168);
    let err = udf::index(&MemoryImage::new(udf_with_entry(&file))).expect_err("refused");
    assert!(unsupported_of(&err).contains("4096"), "{err:?}");
}

#[test]
fn a_corrupted_descriptor_fails_its_own_crc() {
    let mut image = minimal_udf();
    image[block_offset(FILE_ENTRY) as usize + 100] ^= 0xff;
    let err = udf::index(&MemoryImage::new(image)).expect_err("refused");
    assert!(detail_of(&err).contains("CRC"), "{err:?}");
}

#[test]
fn a_directory_cycle_is_refused() {
    let image = udf_of(&[identifier(&cs0("LOOP"), 0x02, ROOT_ENTRY)]);
    let err = udf::index(&MemoryImage::new(image)).expect_err("refused");
    assert!(detail_of(&err).contains("cycle"), "{err:?}");
}

#[test]
fn a_block_outside_its_partition_is_refused() {
    let image = udf_with_entry(&entry(
        false,
        5,
        0,
        FILE_LEN,
        &short_ad(FILE_LEN as u32, PARTITION_BLOCKS),
    ));
    let err = udf::index(&MemoryImage::new(image)).expect_err("refused");
    assert!(detail_of(&err).contains("blocks long"), "{err:?}");
}

#[test]
fn allocation_descriptors_go_on_in_another_extent() {
    let mut image = udf_with_entry(&entry(
        false,
        5,
        0,
        SECTOR + FILE_LEN,
        &{
            let mut ads = short_ad(SECTOR as u32, FILE_DATA);
            ads.extend_from_slice(&short_ad(SECTOR as u32 | 0xc000_0000, 20));
            ads
        },
    ));
    let mut more = vec![0u8; SECTOR as usize];
    put_u32(&mut more, 20, 8);
    more[24..32].copy_from_slice(&short_ad(FILE_LEN as u32, 30));
    tag(&mut more, 258, 16);
    put_block(&mut image, 20, &more);
    let idx = udf::index(&MemoryImage::new(image)).expect("indexed");
    assert_eq!(
        idx.files[0].extents,
        vec![
            Extent { offset: block_offset(FILE_DATA), len: SECTOR },
            Extent { offset: block_offset(30), len: FILE_LEN },
        ]
    );
}

#[test]
fn indexing_a_udf_image_reads_descriptors_only() {
    let image = CountingImage::new(minimal_udf());
    udf::index(&image).expect("indexed");
    assert!(
        !image.read_any_of(block_offset(FILE_DATA), FILE_LEN),
        "the index read file data: {:?}",
        image.reads()
    );
    assert!(
        image.total() <= 16 * SECTOR,
        "read {} bytes to index a one-file image",
        image.total()
    );
}

#[test]
fn the_crc_matches_the_standard_check_value() {
    assert_eq!(udf::crc_itu_t(b"123456789"), 0x31c3);
    assert_eq!(crc(b"123456789"), 0x31c3);
}

#[test]
fn cs0_decodes_both_encodings_and_refuses_the_rest() {
    assert_eq!(udf::cs0_name(b"\x08HELLO").as_deref(), Some("HELLO"));
    assert_eq!(
        udf::cs0_name(&[16, 0x00, 0x41, 0x00, 0xe4]).as_deref(),
        Some("Aä")
    );
    assert_eq!(udf::cs0_name(&[7, 0x41]), None);
}

#[test]
fn udf_every_truncation_of_a_good_image_is_a_refusal_and_never_a_panic() {
    let full = udf_with_subdirectory();
    let mut cuts: Vec<usize> = (0..full.len()).step_by(SECTOR as usize / 2).collect();
    cuts.push(full.len() - 1);
    for cut in cuts {
        let image = MemoryImage::new(full[..cut].to_vec());
        if let Ok(idx) = udf::index(&image) {
            for f in &idx.files {
                for e in &f.extents {
                    assert!(e.offset + e.len <= cut as u64, "cut at {cut} still reported {e:?}");
                }
            }
        }
    }
}

#[test]
fn every_single_byte_corruption_is_a_refusal_or_an_index() {
    let full = udf_with_subdirectory();
    let first = 256 * SECTOR as usize;
    for at in (first..full.len()).step_by(37) {
        for xor in [0xff, 0x01] {
            let mut bytes = full.clone();
            bytes[at] ^= xor;
            if let Ok(idx) = udf::index(&MemoryImage::new(bytes)) {
                for f in &idx.files {
                    for e in &f.extents {
                        assert!(e.offset + e.len <= full.len() as u64);
                    }
                }
            }
        }
    }
}

#[test]
fn an_image_says_the_same_through_either_reader() {
    let bytes = udf_with_subdirectory();
    let memory = index(&MemoryImage::new(bytes.clone()));
    let counted = index(&CountingImage::new(bytes));
    assert_eq!(memory, counted);
}

// ---------------------------------------------------------------------
// Sequences without an end

/// A primary descriptor and others behind it, up to `descriptors` of them,
/// and the sectors behind those as they are.
fn iso_with_descriptors(descriptors: u64, sectors: usize) -> Vec<u8> {
    let mut image = blank(sectors);
    let root = record(&[0x00], 10, SECTOR as u32, 0x02, &[]);
    at(&mut image, 16).copy_from_slice(&volume_descriptor(1, &root, None));
    for i in 1..descriptors {
        at(&mut image, 16 + i).copy_from_slice(&volume_descriptor(3, &[], None));
    }
    at(&mut image, 10).copy_from_slice(&directory(&dots(10, 10)));
    image
}

#[test]
fn a_descriptor_sequence_without_an_end_is_malformed() {
    for sectors in [80, 81, 100] {
        let image = MemoryImage::new(iso_with_descriptors(64, sectors));
        let err = iso9660::index(&image).expect_err("refused");
        assert!(matches!(err, Refusal::Malformed { .. }), "{err:?}");
        assert!(detail_of(&err).contains("no terminator"), "{err:?}");
    }
    // The end of the image, a sector that is no descriptor and a terminator
    // all end it.
    assert!(iso9660::index(&MemoryImage::new(iso_with_descriptors(63, 79))).is_ok());
    assert!(iso9660::index(&MemoryImage::new(iso_with_descriptors(63, 100))).is_ok());
    let mut ended = iso_with_descriptors(64, 100);
    at(&mut ended, 79).copy_from_slice(&terminator());
    assert!(iso9660::index(&MemoryImage::new(ended)).is_ok());
}

#[test]
fn a_volume_descriptor_sequence_without_an_end_is_malformed() {
    // The sequence of a good image, moved, with others behind it.
    let long = |stated: u32, terminated: Option<u64>| {
        let mut image = minimal_udf();
        let sequence = image[257 * SECTOR as usize..260 * SECTOR as usize].to_vec();
        let primary = sequence[..SECTOR as usize].to_vec();
        for i in 0..70 {
            at(&mut image, 20 + i).copy_from_slice(&primary);
        }
        image[20 * SECTOR as usize..23 * SECTOR as usize].copy_from_slice(&sequence);
        if let Some(i) = terminated {
            let mut end = vec![0u8; SECTOR as usize];
            tag(&mut end, 8, 496);
            at(&mut image, 20 + i).copy_from_slice(&end);
        }
        let mut anchor = vec![0u8; SECTOR as usize];
        put_u32(&mut anchor, 16, stated * SECTOR as u32);
        put_u32(&mut anchor, 20, 20);
        tag(&mut anchor, 2, 496);
        at(&mut image, 256).copy_from_slice(&anchor);
        udf::index(&MemoryImage::new(image))
    };
    let err = long(65, None).expect_err("refused");
    assert!(matches!(err, Refusal::Malformed { .. }), "{err:?}");
    assert!(detail_of(&err).contains("does not end"), "{err:?}");
    // A sequence that ends where it says, or with a terminator, is read.
    assert!(long(64, None).is_ok());
    assert!(long(65, Some(63)).is_ok());
    assert!(long(65, Some(64)).is_err());
}

/// A refusal names the format its budget reads for.
#[test]
fn a_refusal_names_the_format_of_its_budget() {
    let image = MemoryImage::new(iso_with_descriptors(64, 100));
    let mut budget = Budget::new(&image, "another format");
    match iso9660::read_descriptors(&mut budget) {
        Err(Refusal::Malformed { format, .. }) => assert_eq!(format, "another format"),
        _ => panic!("an endless sequence was read"),
    }
    match udf::check_tag(&[0xff; 2048], &budget) {
        Err(Refusal::Malformed { format, .. }) => assert_eq!(format, "another format"),
        other => panic!("{other:?}"),
    }
}
