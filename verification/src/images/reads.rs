//! Which bytes of an image an index is made from: descriptors and
//! directories, and never the data of a file.
use super::iso9660;
use super::iso9660::{Gathered, RecordView, Tree};
use super::udf;
use super::udf::{IdentifierView, LongAd, SequenceView, VolumeView};
use super::{Extent, FileView, Image, IndexView, SECTOR};
use vstd::prelude::*;

verus! {

/// Every byte of a range is in a set.
pub open spec fn range_in(offset: nat, len: nat, s: Set<int>) -> bool {
    forall|i: int| offset <= i < offset + len ==> s.contains(i)
}

/// What a read gives lies in a set. A read that is refused gives nothing.
pub open spec fn read_in(
    image: Image,
    format: Seq<char>,
    used: nat,
    offset: nat,
    len: nat,
    s: Set<int>,
) -> bool {
    super::read_spec(image, format, used, offset, len) is Ok ==> range_in(offset, len, s)
}

/// What reading a sector gives lies in a set.
pub open spec fn sector_in(
    image: Image,
    format: Seq<char>,
    used: nat,
    sector: nat,
    s: Set<int>,
) -> bool {
    super::read_sector_spec(image, format, used, sector) is Ok ==> range_in(
        sector * SECTOR as nat,
        SECTOR as nat,
        s,
    )
}

/// Two images that say the same of their length and hold the same bytes in a
/// set.
pub open spec fn same_in(a: Image, b: Image, s: Set<int>) -> bool {
    &&& a.len == b.len
    &&& a.bytes.len() == b.bytes.len()
    &&& forall|i: int|
        0 <= i < a.bytes.len() && s.contains(i) ==> #[trigger] a.bytes[i] == b.bytes[i]
}

proof fn lemma_read(
    a: Image,
    b: Image,
    s: Set<int>,
    format: Seq<char>,
    used: nat,
    offset: nat,
    len: nat,
)
    requires
        same_in(a, b, s),
        read_in(a, format, used, offset, len, s),
    ensures
        super::read_spec(b, format, used, offset, len) == super::read_spec(
            a,
            format,
            used,
            offset,
            len,
        ),
{
    if super::read_spec(a, format, used, offset, len) is Ok && len > 0 {
        let from = offset as int;
        let to = (offset + len) as int;
        assert forall|i: int| 0 <= i < len implies a.bytes.subrange(from, to)[i]
            == b.bytes.subrange(from, to)[i] by {
            assert(s.contains(from + i));
            assert(a.bytes[from + i] == b.bytes[from + i]);
        }
        assert(a.bytes.subrange(from, to) =~= b.bytes.subrange(from, to));
    }
}

proof fn lemma_sector(
    a: Image,
    b: Image,
    s: Set<int>,
    format: Seq<char>,
    used: nat,
    sector: nat,
)
    requires
        same_in(a, b, s),
        sector_in(a, format, used, sector, s),
    ensures
        super::read_sector_spec(b, format, used, sector) == super::read_sector_spec(
            a,
            format,
            used,
            sector,
        ),
{
    if sector * SECTOR <= u64::MAX {
        lemma_read(a, b, s, format, used, sector * SECTOR as nat, SECTOR as nat);
    }
}

// ---------------------------------------------------------------------
// ISO 9660

/// The sectors of the descriptor sequence that are read lie in a set.
pub open spec fn iso_descriptors_in(
    image: Image,
    i: nat,
    seen: bool,
    primary: Option<iso9660::VolumeView>,
    joliet: Option<iso9660::VolumeView>,
    used: nat,
    s: Set<int>,
) -> bool
    decreases iso9660::MAX_DESCRIPTORS - i,
{
    let sector = iso9660::FIRST_DESCRIPTOR_SECTOR as nat + i;
    if i >= iso9660::MAX_DESCRIPTORS || (sector + 1) * SECTOR > image.len {
        true
    } else {
        &&& sector_in(image, iso9660::FORMAT@, used, sector, s)
        &&& match super::read_sector_spec(image, iso9660::FORMAT@, used, sector) {
            Err(_) => true,
            Ok(d) => {
                let used = used + SECTOR as nat;
                if !iso9660::has_cd001(d) || d[0] == 255 {
                    true
                } else if d[0] == 1 && primary is None {
                    match iso9660::volume_spec(d) {
                        Err(_) => true,
                        Ok(v) => iso_descriptors_in(image, i + 1, true, Some(v), joliet, used, s),
                    }
                } else if d[0] == 2 && joliet is None && iso9660::has_joliet_escape(
                    d.subrange(88, 120),
                ) {
                    match iso9660::volume_spec(d) {
                        Err(_) => true,
                        Ok(v) => iso_descriptors_in(image, i + 1, true, primary, Some(v), used, s),
                    }
                } else {
                    iso_descriptors_in(image, i + 1, true, primary, joliet, used, s)
                }
            },
        }
    }
}

/// The directories that walking one reads lie in a set.
pub open spec fn iso_walk_in(
    image: Image,
    tree: Tree,
    dir: RecordView,
    path: Seq<char>,
    depth: nat,
    visited: Seq<u32>,
    gathered: Gathered,
    used: nat,
    s: Set<int>,
) -> bool
    decreases iso9660::MAX_DEPTH + 1 - depth, 0nat,
{
    let offset = (dir.lba * tree.block_size) as nat;
    let len = dir.data_len as nat;
    if depth > iso9660::MAX_DEPTH || visited.contains(dir.lba) {
        true
    } else {
        &&& read_in(image, iso9660::FORMAT@, used, offset, len, s)
        &&& match super::read_spec(image, iso9660::FORMAT@, used, offset, len) {
            Err(_) => true,
            Ok(bytes) => match iso9660::scan_spec(bytes, tree, path, depth == 0, gathered) {
                Err(_) => true,
                Ok((gathered, subdirs)) => iso_walk_all_in(
                    image,
                    tree,
                    subdirs,
                    depth + 1,
                    visited.push(dir.lba),
                    gathered,
                    used + len,
                    s,
                ),
            },
        }
    }
}

/// The directories that walking several reads lie in a set.
pub open spec fn iso_walk_all_in(
    image: Image,
    tree: Tree,
    dirs: Seq<(RecordView, Seq<char>)>,
    depth: nat,
    visited: Seq<u32>,
    gathered: Gathered,
    used: nat,
    s: Set<int>,
) -> bool
    decreases iso9660::MAX_DEPTH + 1 - depth, dirs.len() + 1,
{
    if dirs.len() == 0 {
        true
    } else {
        &&& iso_walk_in(image, tree, dirs[0].0, dirs[0].1, depth, visited, gathered, used, s)
        &&& match iso9660::walk_spec(
            image,
            tree,
            dirs[0].0,
            dirs[0].1,
            depth,
            visited,
            gathered,
            used,
        ) {
            Err(_) => true,
            Ok((gathered, used)) => iso_walk_all_in(
                image,
                tree,
                dirs.skip(1),
                depth,
                visited,
                gathered,
                used,
                s,
            ),
        }
    }
}

/// Everything that the ISO 9660 index of an image is made from lies in a
/// set: its volume descriptors, and its directories.
pub open spec fn iso_index_in(image: Image, s: Set<int>) -> bool {
    &&& iso_descriptors_in(image, 0, false, None, None, 0, s)
    &&& match iso9660::descriptors_from(image, 0, false, None, None, 0) {
        Err(_) => true,
        Ok(d) => {
            let chosen = if d.joliet is Some {
                d.joliet
            } else {
                d.primary
            };
            chosen matches Some(volume) ==> iso_walk_in(
                image,
                Tree { block_size: volume.block_size, joliet: d.joliet is Some },
                volume.root,
                Seq::empty(),
                0,
                Seq::empty(),
                Gathered { rock_ridge: false, su_skip: 0, files: Seq::empty() },
                d.used,
                s,
            )
        },
    }
}

proof fn lemma_iso_descriptors(
    a: Image,
    b: Image,
    s: Set<int>,
    i: nat,
    seen: bool,
    primary: Option<iso9660::VolumeView>,
    joliet: Option<iso9660::VolumeView>,
    used: nat,
)
    requires
        same_in(a, b, s),
        iso_descriptors_in(a, i, seen, primary, joliet, used, s),
    ensures
        iso9660::descriptors_from(b, i, seen, primary, joliet, used) == iso9660::descriptors_from(
            a,
            i,
            seen,
            primary,
            joliet,
            used,
        ),
    decreases iso9660::MAX_DESCRIPTORS - i,
{
    let sector = iso9660::FIRST_DESCRIPTOR_SECTOR as nat + i;
    if i < iso9660::MAX_DESCRIPTORS && (sector + 1) * SECTOR <= a.len {
        lemma_sector(a, b, s, iso9660::FORMAT@, used, sector);
        match super::read_sector_spec(a, iso9660::FORMAT@, used, sector) {
            Err(_) => {},
            Ok(d) => {
                let used = used + SECTOR as nat;
                if !iso9660::has_cd001(d) || d[0] == 255 {
                } else if d[0] == 1 && primary is None {
                    if let Ok(v) = iso9660::volume_spec(d) {
                        lemma_iso_descriptors(a, b, s, i + 1, true, Some(v), joliet, used);
                    }
                } else if d[0] == 2 && joliet is None && iso9660::has_joliet_escape(
                    d.subrange(88, 120),
                ) {
                    if let Ok(v) = iso9660::volume_spec(d) {
                        lemma_iso_descriptors(a, b, s, i + 1, true, primary, Some(v), used);
                    }
                } else {
                    lemma_iso_descriptors(a, b, s, i + 1, true, primary, joliet, used);
                }
            },
        }
    }
}

proof fn lemma_iso_walk(
    a: Image,
    b: Image,
    s: Set<int>,
    tree: Tree,
    dir: RecordView,
    path: Seq<char>,
    depth: nat,
    visited: Seq<u32>,
    gathered: Gathered,
    used: nat,
)
    requires
        same_in(a, b, s),
        iso_walk_in(a, tree, dir, path, depth, visited, gathered, used, s),
    ensures
        iso9660::walk_spec(b, tree, dir, path, depth, visited, gathered, used)
            == iso9660::walk_spec(a, tree, dir, path, depth, visited, gathered, used),
    decreases iso9660::MAX_DEPTH + 1 - depth, 0nat,
{
    let offset = (dir.lba * tree.block_size) as nat;
    let len = dir.data_len as nat;
    if depth <= iso9660::MAX_DEPTH && !visited.contains(dir.lba) {
        lemma_read(a, b, s, iso9660::FORMAT@, used, offset, len);
        if let Ok(bytes) = super::read_spec(a, iso9660::FORMAT@, used, offset, len) {
            if let Ok((gathered, subdirs)) = iso9660::scan_spec(
                bytes,
                tree,
                path,
                depth == 0,
                gathered,
            ) {
                lemma_iso_walk_all(
                    a,
                    b,
                    s,
                    tree,
                    subdirs,
                    depth + 1,
                    visited.push(dir.lba),
                    gathered,
                    used + len,
                );
            }
        }
    }
}

proof fn lemma_iso_walk_all(
    a: Image,
    b: Image,
    s: Set<int>,
    tree: Tree,
    dirs: Seq<(RecordView, Seq<char>)>,
    depth: nat,
    visited: Seq<u32>,
    gathered: Gathered,
    used: nat,
)
    requires
        same_in(a, b, s),
        iso_walk_all_in(a, tree, dirs, depth, visited, gathered, used, s),
    ensures
        iso9660::walk_all(b, tree, dirs, depth, visited, gathered, used) == iso9660::walk_all(
            a,
            tree,
            dirs,
            depth,
            visited,
            gathered,
            used,
        ),
    decreases iso9660::MAX_DEPTH + 1 - depth, dirs.len() + 1,
{
    if dirs.len() > 0 {
        lemma_iso_walk(a, b, s, tree, dirs[0].0, dirs[0].1, depth, visited, gathered, used);
        if let Ok((gathered, used)) = iso9660::walk_spec(
            a,
            tree,
            dirs[0].0,
            dirs[0].1,
            depth,
            visited,
            gathered,
            used,
        ) {
            lemma_iso_walk_all(a, b, s, tree, dirs.skip(1), depth, visited, gathered, used);
        }
    }
}

proof fn lemma_iso_index(a: Image, b: Image, s: Set<int>)
    requires
        same_in(a, b, s),
        iso_index_in(a, s),
    ensures
        iso9660::index_spec(b) == iso9660::index_spec(a),
{
    lemma_iso_descriptors(a, b, s, 0, false, None, None, 0);
    if let Ok(d) = iso9660::descriptors_from(a, 0, false, None, None, 0) {
        let chosen = if d.joliet is Some {
            d.joliet
        } else {
            d.primary
        };
        if let Some(volume) = chosen {
            lemma_iso_walk(
                a,
                b,
                s,
                Tree { block_size: volume.block_size, joliet: d.joliet is Some },
                volume.root,
                Seq::empty(),
                0,
                Seq::empty(),
                Gathered { rock_ridge: false, su_skip: 0, files: Seq::empty() },
                d.used,
            );
        }
    }
}

// ---------------------------------------------------------------------
// UDF

/// The sectors read in search of an anchor lie in a set.
pub open spec fn udf_anchor_in(image: Image, candidates: Seq<nat>, used: nat, s: Set<int>) -> bool
    decreases candidates.len(),
{
    if candidates.len() == 0 {
        true
    } else if (candidates[0] + 1) * SECTOR > image.len {
        udf_anchor_in(image, candidates.skip(1), used, s)
    } else {
        &&& sector_in(image, udf::FORMAT@, used, candidates[0], s)
        &&& match super::read_sector_spec(image, udf::FORMAT@, used, candidates[0]) {
            Err(_) => true,
            Ok(d) => match udf::tag_spec(d) {
                Err(_) => true,
                Ok(tag) => tag != Some(udf::TAG_ANCHOR) ==> udf_anchor_in(
                    image,
                    candidates.skip(1),
                    used + SECTOR as nat,
                    s,
                ),
            },
        }
    }
}

/// The sectors of the volume descriptor sequence that are read lie in a set.
pub open spec fn udf_sequence_in(
    image: Image,
    sector: nat,
    left: nat,
    q: SequenceView,
    s: Set<int>,
) -> bool
    decreases left,
{
    if left == 0 {
        true
    } else {
        &&& sector_in(image, udf::FORMAT@, q.used, sector, s)
        &&& match super::read_sector_spec(image, udf::FORMAT@, q.used, sector) {
            Err(_) => true,
            Ok(d) => match udf::tag_spec(d) {
                Ok(Some(ident)) => {
                    let q = SequenceView { used: q.used + SECTOR as nat, saw_any: true, ..q };
                    let left = (left - 1) as nat;
                    if ident == udf::TAG_TERMINATING {
                        true
                    } else if ident == udf::TAG_PARTITION {
                        udf_sequence_in(
                            image,
                            sector + 1,
                            left,
                            SequenceView {
                                partitions: q.partitions.push(udf::partition_at(d)),
                                ..q
                            },
                            s,
                        )
                    } else if ident == udf::TAG_LOGICAL_VOLUME && q.logical is None {
                        match udf::logical_spec(d) {
                            Err(_) => true,
                            Ok(l) => udf_sequence_in(
                                image,
                                sector + 1,
                                left,
                                SequenceView { logical: Some(l), ..q },
                                s,
                            ),
                        }
                    } else {
                        udf_sequence_in(image, sector + 1, left, q, s)
                    }
                },
                _ => true,
            },
        }
    }
}

/// What opening a volume reads lies in a set.
pub open spec fn udf_open_in(image: Image, s: Set<int>) -> bool {
    &&& udf_anchor_in(image, udf::anchor_candidates(image.len), 0, s)
    &&& match udf::anchor_from(image, udf::anchor_candidates(image.len), 0) {
        Err(_) => true,
        Ok(((len, location), used)) => udf_sequence_in(
            image,
            location,
            udf::sequence_sectors(len),
            SequenceView { saw_any: false, partitions: Seq::empty(), logical: None, used },
            s,
        ),
    }
}

/// The file set descriptor lies in a set.
pub open spec fn udf_root_in(image: Image, v: VolumeView, used: nat, s: Set<int>) -> bool {
    match udf::offset_spec(v, v.file_set.partition, v.file_set.block) {
        Err(_) => true,
        Ok(offset) => read_in(image, udf::FORMAT@, used, offset, 512, s),
    }
}

/// A run of allocation descriptors that another continues in lies in a set.
pub open spec fn udf_continuation_in(
    image: Image,
    v: VolumeView,
    next: LongAd,
    used: nat,
    s: Set<int>,
) -> bool {
    match udf::offset_spec(v, next.partition, next.block) {
        Err(_) => true,
        Ok(offset) => {
            let len = if next.byte_len() < v.block_size {
                next.byte_len()
            } else {
                v.block_size
            };
            len >= 24 ==> read_in(image, udf::FORMAT@, used, offset, len, s)
        },
    }
}

/// The runs that a run of allocation descriptors continues in lie in a set.
pub open spec fn udf_chain_in(
    image: Image,
    v: VolumeView,
    run: Seq<u8>,
    stride: nat,
    home: u16,
    out: Seq<Extent>,
    followed: nat,
    used: nat,
    s: Set<int>,
) -> bool
    decreases udf::MAX_AD_CONTINUATIONS + 1 - followed,
{
    match udf::run_from(v, run, 0, stride, home, out) {
        Ok((out, Some(next))) => if followed + 1 > udf::MAX_AD_CONTINUATIONS {
            true
        } else {
            &&& udf_continuation_in(image, v, next, used, s)
            &&& match udf::continuation_spec(image, v, next, used) {
                Err(_) => true,
                Ok((run, used)) => udf_chain_in(
                    image,
                    v,
                    run,
                    stride,
                    home,
                    out,
                    followed + 1,
                    used,
                    s,
                ),
            }
        },
        _ => true,
    }
}

/// A file entry, and what its allocation descriptors continue in, lie in a
/// set.
pub open spec fn udf_entry_in(
    image: Image,
    v: VolumeView,
    icb: LongAd,
    used: nat,
    s: Set<int>,
) -> bool {
    if udf::kind_spec(icb.len) != udf::ExtentKind::Recorded || icb.byte_len() == 0 {
        true
    } else {
        match udf::offset_spec(v, icb.partition, icb.block) {
            Err(_) => true,
            Ok(offset) => {
                &&& read_in(image, udf::FORMAT@, used, offset, v.block_size, s)
                &&& match super::read_spec(image, udf::FORMAT@, used, offset, v.block_size) {
                    Err(_) => true,
                    Ok(d) => match udf::header_spec(d) {
                        Err(_) => true,
                        Ok(h) => h.kind == 0 || h.kind == 1 ==> udf_chain_in(
                            image,
                            v,
                            d.subrange(h.from, h.to),
                            if h.kind == 0 {
                                8
                            } else {
                                16
                            },
                            icb.partition,
                            Seq::empty(),
                            0,
                            used + v.block_size,
                            s,
                        ),
                    },
                }
            },
        }
    }
}

/// The first `left` bytes of a list of extents lie in a set.
pub open spec fn udf_content_in(
    image: Image,
    extents: Seq<Extent>,
    left: nat,
    used: nat,
    s: Set<int>,
) -> bool
    decreases extents.len(),
{
    if left == 0 || extents.len() == 0 {
        true
    } else {
        let want: nat = if extents[0].len < left {
            extents[0].len as nat
        } else {
            left
        };
        if want > usize::MAX {
            true
        } else {
            &&& read_in(image, udf::FORMAT@, used, extents[0].offset as nat, want, s)
            &&& udf_content_in(image, extents.skip(1), (left - want) as nat, used + want, s)
        }
    }
}

/// What one file identifier makes read lies in a set: the file entry of a
/// child that is no directory.
pub open spec fn udf_identifier_in(
    image: Image,
    v: VolumeView,
    id: IdentifierView,
    path: Seq<char>,
    q: udf::ScanView,
    s: Set<int>,
) -> bool {
    if id.characteristics & 0x08 != 0 || id.characteristics & 0x04 != 0 || id.characteristics & 0x02
        != 0 || udf::child_path_spec(id.name, path) is Err {
        true
    } else {
        udf_entry_in(image, v, id.icb, q.used, s)
    }
}

/// What the file identifiers of a directory make read lies in a set.
pub open spec fn udf_scan_in(
    image: Image,
    v: VolumeView,
    bytes: Seq<u8>,
    pos: nat,
    path: Seq<char>,
    q: udf::ScanView,
    s: Set<int>,
) -> bool
    decreases (if pos < bytes.len() { bytes.len() - pos } else { 0 }),
{
    if pos + 38 > bytes.len() {
        true
    } else {
        match udf::identifier_spec(bytes.skip(pos as int), path) {
            Ok(Some(id)) => {
                &&& udf_identifier_in(image, v, id, path, q, s)
                &&& match udf::add_identifier(image, v, id, path, q) {
                    Err(_) => true,
                    Ok(q) => id.advance != 0 ==> udf_scan_in(
                        image,
                        v,
                        bytes,
                        pos + id.advance,
                        path,
                        q,
                        s,
                    ),
                }
            },
            _ => true,
        }
    }
}

/// What walking one directory reads lies in a set: its file entry, its own
/// bytes, the file entries of its files, and the same of the directories in
/// it.
pub open spec fn udf_walk_in(
    image: Image,
    v: VolumeView,
    icb: LongAd,
    path: Seq<char>,
    depth: nat,
    chain: Seq<(u16, u32)>,
    files: Seq<FileView>,
    used: nat,
    s: Set<int>,
) -> bool
    decreases udf::MAX_DEPTH + 1 - depth, 0nat,
{
    let here = (icb.partition, icb.block);
    if depth > udf::MAX_DEPTH || chain.contains(here) {
        true
    } else {
        &&& udf_entry_in(image, v, icb, used, s)
        &&& match udf::entry_spec(image, v, icb, used) {
            Err(_) => true,
            Ok((entry, used)) => if entry.file_type != udf::FILE_TYPE_DIRECTORY {
                true
            } else {
                &&& udf_content_in(image, entry.extents, entry.info_len, used, s)
                &&& match udf::content_spec(image, entry, used) {
                    Err(_) => true,
                    Ok((bytes, used)) => {
                        let q = udf::ScanView { children: Seq::empty(), files, used };
                        &&& udf_scan_in(image, v, bytes, 0, path, q, s)
                        &&& match udf::scan_from(image, v, bytes, 0, path, q) {
                            Err(_) => true,
                            Ok(q) => udf_walk_all_in(
                                image,
                                v,
                                q.children,
                                depth + 1,
                                chain.push(here),
                                q.files,
                                q.used,
                                s,
                            ),
                        }
                    },
                }
            },
        }
    }
}

/// What walking several directories reads lies in a set.
pub open spec fn udf_walk_all_in(
    image: Image,
    v: VolumeView,
    dirs: Seq<(LongAd, Seq<char>)>,
    depth: nat,
    chain: Seq<(u16, u32)>,
    files: Seq<FileView>,
    used: nat,
    s: Set<int>,
) -> bool
    decreases udf::MAX_DEPTH + 1 - depth, dirs.len() + 1,
{
    if dirs.len() == 0 {
        true
    } else {
        &&& udf_walk_in(image, v, dirs[0].0, dirs[0].1, depth, chain, files, used, s)
        &&& match udf::walk_spec(image, v, dirs[0].0, dirs[0].1, depth, chain, files, used) {
            Err(_) => true,
            Ok((files, used)) => udf_walk_all_in(
                image,
                v,
                dirs.skip(1),
                depth,
                chain,
                files,
                used,
                s,
            ),
        }
    }
}

/// Everything that the UDF index of an image is made from lies in a set: the
/// anchor, the volume descriptors, the file set descriptor, file entries, and
/// the directories' own bytes.
pub open spec fn udf_index_in(image: Image, s: Set<int>) -> bool {
    &&& udf_open_in(image, s)
    &&& match udf::open_spec(image, 0) {
        Err(_) => true,
        Ok((v, used)) => {
            &&& udf_root_in(image, v, used, s)
            &&& match udf::root_spec(image, v, used) {
                Err(_) => true,
                Ok((root, used)) => udf_walk_in(
                    image,
                    v,
                    root,
                    Seq::empty(),
                    0,
                    Seq::empty(),
                    Seq::empty(),
                    used,
                    s,
                ),
            }
        },
    }
}

proof fn lemma_udf_anchor(a: Image, b: Image, s: Set<int>, candidates: Seq<nat>, used: nat)
    requires
        same_in(a, b, s),
        udf_anchor_in(a, candidates, used, s),
    ensures
        udf::anchor_from(b, candidates, used) == udf::anchor_from(a, candidates, used),
    decreases candidates.len(),
{
    if candidates.len() > 0 {
        if (candidates[0] + 1) * SECTOR > a.len {
            lemma_udf_anchor(a, b, s, candidates.skip(1), used);
        } else {
            lemma_sector(a, b, s, udf::FORMAT@, used, candidates[0]);
            if let Ok(d) = super::read_sector_spec(a, udf::FORMAT@, used, candidates[0]) {
                if let Ok(tag) = udf::tag_spec(d) {
                    if tag != Some(udf::TAG_ANCHOR) {
                        lemma_udf_anchor(a, b, s, candidates.skip(1), used + SECTOR as nat);
                    }
                }
            }
        }
    }
}

proof fn lemma_udf_sequence(
    a: Image,
    b: Image,
    s: Set<int>,
    sector: nat,
    left: nat,
    more: bool,
    q: SequenceView,
)
    requires
        same_in(a, b, s),
        udf_sequence_in(a, sector, left, q, s),
    ensures
        udf::sequence_from(b, sector, left, more, q) == udf::sequence_from(
            a,
            sector,
            left,
            more,
            q,
        ),
    decreases left,
{
    if left > 0 {
        lemma_sector(a, b, s, udf::FORMAT@, q.used, sector);
        if let Ok(d) = super::read_sector_spec(a, udf::FORMAT@, q.used, sector) {
            if let Ok(Some(ident)) = udf::tag_spec(d) {
                let q = SequenceView { used: q.used + SECTOR as nat, saw_any: true, ..q };
                let left = (left - 1) as nat;
                if ident == udf::TAG_TERMINATING {
                } else if ident == udf::TAG_PARTITION {
                    lemma_udf_sequence(
                        a,
                        b,
                        s,
                        sector + 1,
                        left,
                        more,
                        SequenceView { partitions: q.partitions.push(udf::partition_at(d)), ..q },
                    );
                } else if ident == udf::TAG_LOGICAL_VOLUME && q.logical is None {
                    if let Ok(l) = udf::logical_spec(d) {
                        lemma_udf_sequence(
                            a,
                            b,
                            s,
                            sector + 1,
                            left,
                            more,
                            SequenceView { logical: Some(l), ..q },
                        );
                    }
                } else {
                    lemma_udf_sequence(a, b, s, sector + 1, left, more, q);
                }
            }
        }
    }
}

proof fn lemma_udf_open(a: Image, b: Image, s: Set<int>)
    requires
        same_in(a, b, s),
        udf_open_in(a, s),
    ensures
        udf::open_spec(b, 0) == udf::open_spec(a, 0),
{
    lemma_udf_anchor(a, b, s, udf::anchor_candidates(a.len), 0);
    if let Ok(((len, location), used)) = udf::anchor_from(a, udf::anchor_candidates(a.len), 0) {
        lemma_udf_sequence(
            a,
            b,
            s,
            location,
            udf::sequence_sectors(len),
            udf::has_more(len),
            SequenceView { saw_any: false, partitions: Seq::empty(), logical: None, used },
        );
    }
}

proof fn lemma_udf_continuation(
    a: Image,
    b: Image,
    s: Set<int>,
    v: VolumeView,
    next: LongAd,
    used: nat,
)
    requires
        same_in(a, b, s),
        udf_continuation_in(a, v, next, used, s),
    ensures
        udf::continuation_spec(b, v, next, used) == udf::continuation_spec(a, v, next, used),
{
    if let Ok(offset) = udf::offset_spec(v, next.partition, next.block) {
        let len = if next.byte_len() < v.block_size {
            next.byte_len()
        } else {
            v.block_size
        };
        if len >= 24 {
            lemma_read(a, b, s, udf::FORMAT@, used, offset, len);
        }
    }
}

proof fn lemma_udf_chain(
    a: Image,
    b: Image,
    s: Set<int>,
    v: VolumeView,
    run: Seq<u8>,
    stride: nat,
    home: u16,
    out: Seq<Extent>,
    followed: nat,
    used: nat,
)
    requires
        same_in(a, b, s),
        udf_chain_in(a, v, run, stride, home, out, followed, used, s),
    ensures
        udf::chain_spec(b, v, run, stride, home, out, followed, used) == udf::chain_spec(
            a,
            v,
            run,
            stride,
            home,
            out,
            followed,
            used,
        ),
    decreases udf::MAX_AD_CONTINUATIONS + 1 - followed,
{
    if let Ok((out, Some(next))) = udf::run_from(v, run, 0, stride, home, out) {
        if followed + 1 <= udf::MAX_AD_CONTINUATIONS {
            lemma_udf_continuation(a, b, s, v, next, used);
            if let Ok((run, used)) = udf::continuation_spec(a, v, next, used) {
                lemma_udf_chain(a, b, s, v, run, stride, home, out, followed + 1, used);
            }
        }
    }
}

proof fn lemma_udf_entry(a: Image, b: Image, s: Set<int>, v: VolumeView, icb: LongAd, used: nat)
    requires
        same_in(a, b, s),
        udf_entry_in(a, v, icb, used, s),
    ensures
        udf::entry_spec(b, v, icb, used) == udf::entry_spec(a, v, icb, used),
{
    if udf::kind_spec(icb.len) == udf::ExtentKind::Recorded && icb.byte_len() != 0 {
        if let Ok(offset) = udf::offset_spec(v, icb.partition, icb.block) {
            lemma_read(a, b, s, udf::FORMAT@, used, offset, v.block_size);
            if let Ok(d) = super::read_spec(a, udf::FORMAT@, used, offset, v.block_size) {
                if let Ok(h) = udf::header_spec(d) {
                    if h.kind == 0 || h.kind == 1 {
                        lemma_udf_chain(
                            a,
                            b,
                            s,
                            v,
                            d.subrange(h.from, h.to),
                            if h.kind == 0 {
                                8
                            } else {
                                16
                            },
                            icb.partition,
                            Seq::empty(),
                            0,
                            used + v.block_size,
                        );
                    }
                }
            }
        }
    }
}

proof fn lemma_udf_content(
    a: Image,
    b: Image,
    s: Set<int>,
    extents: Seq<Extent>,
    left: nat,
    whole: nat,
    out: Seq<u8>,
    used: nat,
)
    requires
        same_in(a, b, s),
        udf_content_in(a, extents, left, used, s),
    ensures
        udf::content_from(b, extents, left, whole, out, used) == udf::content_from(
            a,
            extents,
            left,
            whole,
            out,
            used,
        ),
    decreases extents.len(),
{
    if left > 0 && extents.len() > 0 {
        let want: nat = if extents[0].len < left {
            extents[0].len as nat
        } else {
            left
        };
        if want <= usize::MAX {
            lemma_read(a, b, s, udf::FORMAT@, used, extents[0].offset as nat, want);
            if let Ok(bytes) = super::read_spec(
                a,
                udf::FORMAT@,
                used,
                extents[0].offset as nat,
                want,
            ) {
                lemma_udf_content(
                    a,
                    b,
                    s,
                    extents.skip(1),
                    (left - want) as nat,
                    whole,
                    out + bytes,
                    used + want,
                );
            }
        }
    }
}

proof fn lemma_udf_identifier(
    a: Image,
    b: Image,
    s: Set<int>,
    v: VolumeView,
    id: IdentifierView,
    path: Seq<char>,
    q: udf::ScanView,
)
    requires
        same_in(a, b, s),
        udf_identifier_in(a, v, id, path, q, s),
    ensures
        udf::add_identifier(b, v, id, path, q) == udf::add_identifier(a, v, id, path, q),
{
    if id.characteristics & 0x08 == 0 && id.characteristics & 0x04 == 0 && id.characteristics & 0x02
        == 0 && udf::child_path_spec(id.name, path) is Ok {
        lemma_udf_entry(a, b, s, v, id.icb, q.used);
    }
}

proof fn lemma_udf_scan(
    a: Image,
    b: Image,
    s: Set<int>,
    v: VolumeView,
    bytes: Seq<u8>,
    pos: nat,
    path: Seq<char>,
    q: udf::ScanView,
)
    requires
        same_in(a, b, s),
        udf_scan_in(a, v, bytes, pos, path, q, s),
    ensures
        udf::scan_from(b, v, bytes, pos, path, q) == udf::scan_from(a, v, bytes, pos, path, q),
    decreases (if pos < bytes.len() { bytes.len() - pos } else { 0 }),
{
    if pos + 38 <= bytes.len() {
        if let Ok(Some(id)) = udf::identifier_spec(bytes.skip(pos as int), path) {
            lemma_udf_identifier(a, b, s, v, id, path, q);
            if let Ok(q) = udf::add_identifier(a, v, id, path, q) {
                if id.advance != 0 {
                    lemma_udf_scan(a, b, s, v, bytes, pos + id.advance, path, q);
                }
            }
        }
    }
}

proof fn lemma_udf_walk(
    a: Image,
    b: Image,
    s: Set<int>,
    v: VolumeView,
    icb: LongAd,
    path: Seq<char>,
    depth: nat,
    chain: Seq<(u16, u32)>,
    files: Seq<FileView>,
    used: nat,
)
    requires
        same_in(a, b, s),
        udf_walk_in(a, v, icb, path, depth, chain, files, used, s),
    ensures
        udf::walk_spec(b, v, icb, path, depth, chain, files, used) == udf::walk_spec(
            a,
            v,
            icb,
            path,
            depth,
            chain,
            files,
            used,
        ),
    decreases udf::MAX_DEPTH + 1 - depth, 0nat,
{
    let here = (icb.partition, icb.block);
    if depth <= udf::MAX_DEPTH && !chain.contains(here) {
        lemma_udf_entry(a, b, s, v, icb, used);
        if let Ok((entry, used)) = udf::entry_spec(a, v, icb, used) {
            if entry.file_type == udf::FILE_TYPE_DIRECTORY {
                lemma_udf_content(
                    a,
                    b,
                    s,
                    entry.extents,
                    entry.info_len,
                    entry.info_len,
                    Seq::empty(),
                    used,
                );
                if let Ok((bytes, used)) = udf::content_spec(a, entry, used) {
                    let q = udf::ScanView { children: Seq::empty(), files, used };
                    lemma_udf_scan(a, b, s, v, bytes, 0, path, q);
                    if let Ok(q) = udf::scan_from(a, v, bytes, 0, path, q) {
                        lemma_udf_walk_all(
                            a,
                            b,
                            s,
                            v,
                            q.children,
                            depth + 1,
                            chain.push(here),
                            q.files,
                            q.used,
                        );
                    }
                }
            }
        }
    }
}

proof fn lemma_udf_walk_all(
    a: Image,
    b: Image,
    s: Set<int>,
    v: VolumeView,
    dirs: Seq<(LongAd, Seq<char>)>,
    depth: nat,
    chain: Seq<(u16, u32)>,
    files: Seq<FileView>,
    used: nat,
)
    requires
        same_in(a, b, s),
        udf_walk_all_in(a, v, dirs, depth, chain, files, used, s),
    ensures
        udf::walk_all(b, v, dirs, depth, chain, files, used) == udf::walk_all(
            a,
            v,
            dirs,
            depth,
            chain,
            files,
            used,
        ),
    decreases udf::MAX_DEPTH + 1 - depth, dirs.len() + 1,
{
    if dirs.len() > 0 {
        lemma_udf_walk(a, b, s, v, dirs[0].0, dirs[0].1, depth, chain, files, used);
        if let Ok((files, used)) = udf::walk_spec(
            a,
            v,
            dirs[0].0,
            dirs[0].1,
            depth,
            chain,
            files,
            used,
        ) {
            lemma_udf_walk_all(a, b, s, v, dirs.skip(1), depth, chain, files, used);
        }
    }
}

proof fn lemma_udf_index(a: Image, b: Image, s: Set<int>)
    requires
        same_in(a, b, s),
        udf_index_in(a, s),
    ensures
        udf::index_spec(b) == udf::index_spec(a),
{
    lemma_udf_open(a, b, s);
    if let Ok((v, used)) = udf::open_spec(a, 0) {
        if let Ok(offset) = udf::offset_spec(v, v.file_set.partition, v.file_set.block) {
            lemma_read(a, b, s, udf::FORMAT@, used, offset, 512);
        }
        if let Ok((root, used)) = udf::root_spec(a, v, used) {
            lemma_udf_walk(
                a,
                b,
                s,
                v,
                root,
                Seq::empty(),
                0,
                Seq::empty(),
                Seq::empty(),
                used,
            );
        }
    }
}

// ---------------------------------------------------------------------
// Both

/// Everything that the index of an image is made from lies in a set.
pub open spec fn index_in(image: Image, s: Set<int>) -> bool {
    &&& iso_index_in(image, s)
    &&& iso9660::index_spec(image) matches Err(super::RefusalView::NotAnImage { .. })
        ==> udf_index_in(image, s)
}

/// Whether a byte of the image is one of a file's.
pub open spec fn in_a_file(index: IndexView, i: int) -> bool {
    exists|f: int, e: int|
        0 <= f < index.files.len() && 0 <= e < index.files[f].extents.len() && (
        #[trigger] index.files[f].extents[e]).offset <= i < index.files[f].extents[e].offset
            + index.files[f].extents[e].len
}

/// The index of an image is made from its descriptors and directories alone:
/// an image that says the same in those has the same index, and the same
/// refusal where it has none, whatever else it holds.
pub proof fn what_is_not_read_does_not_matter(a: Image, b: Image, s: Set<int>)
    requires
        index_in(a, s),
        same_in(a, b, s),
    ensures
        super::index_spec(b) == super::index_spec(a),
{
    lemma_iso_index(a, b, s);
    if iso9660::index_spec(a) matches Err(super::RefusalView::NotAnImage { .. }) {
        lemma_udf_index(a, b, s);
    }
}

/// Indexing never reads the data of a file: as long as no file claims the
/// bytes of a descriptor or a directory for its own, an image with any other
/// data in its files has the same index.
pub proof fn indexing_never_reads_the_file_data(a: Image, b: Image)
    requires
        super::index_spec(a) is Ok,
        index_in(a, Set::new(|i: int| !in_a_file(super::index_spec(a)->Ok_0, i))),
        a.len == b.len,
        a.bytes.len() == b.bytes.len(),
        forall|i: int|
            0 <= i < a.bytes.len() && #[trigger] a.bytes[i] != b.bytes[i] ==> in_a_file(
                super::index_spec(a)->Ok_0,
                i,
            ),
    ensures
        super::index_spec(b) == super::index_spec(a),
{
    what_is_not_read_does_not_matter(
        a,
        b,
        Set::new(|i: int| !in_a_file(super::index_spec(a)->Ok_0, i)),
    );
}

} // verus!
