//! What holds of every index, whichever format it was read through.
use super::iso9660;
use super::iso9660::{Gathered, PendingView, RecordView, ScanView, Tree};
use super::udf;
use super::udf::{LongAd, VolumeView};
use super::{Extent, FileView, Image};
use vstd::prelude::*;

verus! {

/// The path that names make, each behind a `/`.
pub open spec fn joined(names: Seq<Seq<char>>) -> Seq<char>
    decreases names.len(),
{
    if names.len() == 0 {
        Seq::empty()
    } else {
        joined(names.drop_last()) + "/"@ + names.last()
    }
}

/// Whether names are ones that a path can be made of: not empty, not `.` or
/// `..`, without a separator or a NUL.
pub open spec fn sound_names(names: Seq<Seq<char>>) -> bool {
    forall|i: int| 0 <= i < names.len() ==> !iso9660::is_bad_name(#[trigger] names[i])
}

/// A path made of sound names, as many of them as `least` or more.
pub open spec fn sound_path(path: Seq<char>, least: nat) -> bool {
    exists|names: Seq<Seq<char>>|
        names.len() >= least && sound_names(names) && path == #[trigger] joined(names)
}

/// A file of an index: its path is absolute and made of sound names, and its
/// extents cover exactly its length.
pub open spec fn sound_file(f: FileView) -> bool {
    &&& sound_path(f.path, 1)
    &&& f.len == super::total_len(f.extents)
}

/// Every file of a list is sound.
pub open spec fn sound_files(files: Seq<FileView>) -> bool {
    forall|i: int| 0 <= i < files.len() ==> sound_file(#[trigger] files[i])
}

proof fn lemma_child_path(path: Seq<char>, name: Seq<char>)
    requires
        sound_path(path, 0),
        !iso9660::is_bad_name(name),
    ensures
        sound_path(path + "/"@ + name, 1),
{
    let names = choose|names: Seq<Seq<char>>|
        names.len() >= 0 && sound_names(names) && path == #[trigger] joined(names);
    let longer = names.push(name);
    assert(longer.drop_last() =~= names);
    assert(joined(longer) == path + "/"@ + name);
}

proof fn lemma_weaker_path(path: Seq<char>)
    requires
        sound_path(path, 1),
    ensures
        sound_path(path, 0),
{
    let names = choose|names: Seq<Seq<char>>|
        names.len() >= 1 && sound_names(names) && path == #[trigger] joined(names);
    assert(names.len() >= 0 && sound_names(names) && path == joined(names));
}

proof fn lemma_root_path()
    ensures
        sound_path(Seq::empty(), 0),
{
    let names = Seq::<Seq<char>>::empty();
    assert(joined(names) == Seq::<char>::empty());
    assert(sound_names(names));
}

// ---------------------------------------------------------------------
// ISO 9660

spec fn sound_pending(p: Option<PendingView>) -> bool {
    p is Some ==> sound_path(p->0.path, 1)
}

spec fn sound_scan(s: ScanView) -> bool {
    &&& sound_files(s.gathered.files)
    &&& sound_pending(s.pending)
    &&& forall|i: int| 0 <= i < s.subdirs.len() ==> sound_path((#[trigger] s.subdirs[i]).1, 1)
}

proof fn lemma_iso_finish(pending: Option<PendingView>, files: Seq<FileView>)
    requires
        sound_pending(pending),
        sound_files(files),
        iso9660::finish_spec(pending, files) is Ok,
    ensures
        sound_files(iso9660::finish_spec(pending, files)->Ok_0),
{
}

proof fn lemma_iso_record(
    tree: Tree,
    rec: RecordView,
    path: Seq<char>,
    top: bool,
    s: ScanView,
)
    requires
        sound_path(path, 0),
        sound_scan(s),
        iso9660::add_record(tree, rec, path, top, s) is Ok,
    ensures
        sound_scan(iso9660::add_record(tree, rec, path, top, s)->Ok_0),
{
    if !iso9660::is_dot(rec) {
        let (name, rock_ridge) = iso9660::best_name(rec, tree.joliet, s.gathered.su_skip);
        lemma_child_path(path, name);
    }
}

proof fn lemma_iso_scan(
    bytes: Seq<u8>,
    pos: nat,
    tree: Tree,
    path: Seq<char>,
    top: bool,
    s: ScanView,
)
    requires
        sound_path(path, 0),
        sound_scan(s),
        iso9660::scan_from(bytes, pos, tree, path, top, s) is Ok,
    ensures
        sound_scan(iso9660::scan_from(bytes, pos, tree, path, top, s)->Ok_0),
    decreases (if pos < bytes.len() { bytes.len() - pos } else { 0 }),
{
    if pos < bytes.len() {
        match iso9660::record_spec(bytes.skip(pos as int)) {
            Err(_) => {},
            Ok(None) => {
                lemma_iso_scan(bytes, ((pos / 2048 + 1) * 2048) as nat, tree, path, top, s);
            },
            Ok(Some(rec)) => {
                lemma_iso_record(tree, rec, path, top, s);
                let next = iso9660::add_record(tree, rec, path, top, s)->Ok_0;
                if rec.record_len > 0 {
                    lemma_iso_scan(bytes, pos + rec.record_len, tree, path, top, next);
                }
            },
        }
    }
}

proof fn lemma_iso_walk(
    image: Image,
    tree: Tree,
    dir: RecordView,
    path: Seq<char>,
    depth: nat,
    visited: Seq<u32>,
    gathered: Gathered,
    used: nat,
)
    requires
        sound_path(path, 0),
        sound_files(gathered.files),
        iso9660::walk_spec(image, tree, dir, path, depth, visited, gathered, used) is Ok,
    ensures
        sound_files(
            iso9660::walk_spec(
                image,
                tree,
                dir,
                path,
                depth,
                visited,
                gathered,
                used,
            )->Ok_0.0.files,
        ),
    decreases iso9660::MAX_DEPTH + 1 - depth, 0nat,
{
    let bytes = super::read_spec(
        image,
        iso9660::FORMAT@,
        used,
        (dir.lba * tree.block_size) as nat,
        dir.data_len as nat,
    )->Ok_0;
    let start = ScanView { gathered, pending: None, subdirs: Seq::empty() };
    lemma_iso_scan(bytes, 0, tree, path, depth == 0, start);
    let s = iso9660::scan_from(bytes, 0, tree, path, depth == 0, start)->Ok_0;
    lemma_iso_finish(s.pending, s.gathered.files);
    let files = iso9660::finish_spec(s.pending, s.gathered.files)->Ok_0;
    lemma_iso_walk_all(
        image,
        tree,
        s.subdirs,
        depth + 1,
        visited.push(dir.lba),
        Gathered { files, ..s.gathered },
        used + dir.data_len as nat,
    );
}

proof fn lemma_iso_walk_all(
    image: Image,
    tree: Tree,
    dirs: Seq<(RecordView, Seq<char>)>,
    depth: nat,
    visited: Seq<u32>,
    gathered: Gathered,
    used: nat,
)
    requires
        forall|i: int| 0 <= i < dirs.len() ==> sound_path((#[trigger] dirs[i]).1, 1),
        sound_files(gathered.files),
        iso9660::walk_all(image, tree, dirs, depth, visited, gathered, used) is Ok,
    ensures
        sound_files(
            iso9660::walk_all(image, tree, dirs, depth, visited, gathered, used)->Ok_0.0.files,
        ),
    decreases iso9660::MAX_DEPTH + 1 - depth, dirs.len() + 1,
{
    if dirs.len() > 0 {
        lemma_weaker_path(dirs[0].1);
        lemma_iso_walk(image, tree, dirs[0].0, dirs[0].1, depth, visited, gathered, used);
        let (next, spent) = iso9660::walk_spec(
            image,
            tree,
            dirs[0].0,
            dirs[0].1,
            depth,
            visited,
            gathered,
            used,
        )->Ok_0;
        lemma_iso_walk_all(image, tree, dirs.skip(1), depth, visited, next, spent);
    }
}

// ---------------------------------------------------------------------
// UDF

spec fn sound_udf_scan(s: udf::ScanView) -> bool {
    &&& sound_files(s.files)
    &&& forall|i: int| 0 <= i < s.children.len() ==> sound_path((#[trigger] s.children[i]).1, 1)
}

proof fn lemma_u64_at(b: Seq<u8>, at: int)
    ensures
        0 <= super::u64_at(b, at) <= u64::MAX,
{
}

proof fn lemma_udf_identifier(
    image: Image,
    v: VolumeView,
    id: udf::IdentifierView,
    path: Seq<char>,
    s: udf::ScanView,
)
    requires
        sound_path(path, 0),
        sound_udf_scan(s),
        udf::add_identifier(image, v, id, path, s) is Ok,
    ensures
        sound_udf_scan(udf::add_identifier(image, v, id, path, s)->Ok_0),
{
    if id.characteristics & 0x08 == 0 && id.characteristics & 0x04 == 0 {
        lemma_child_path(path, udf::cs0_spec(id.name)->0);
        if id.characteristics & 0x02 == 0 {
            let entry = udf::entry_spec(image, v, id.icb, s.used)->Ok_0.0;
            let offset = udf::offset_spec(v, id.icb.partition, id.icb.block)->Ok_0;
            let d = super::read_spec(image, udf::FORMAT@, s.used, offset, v.block_size)->Ok_0;
            lemma_u64_at(d, 56);
            super::trimmed_extents_cover_the_stated_length(entry.extents, entry.info_len);
        }
    }
}

proof fn lemma_udf_scan(
    image: Image,
    v: VolumeView,
    bytes: Seq<u8>,
    pos: nat,
    path: Seq<char>,
    s: udf::ScanView,
)
    requires
        sound_path(path, 0),
        sound_udf_scan(s),
        udf::scan_from(image, v, bytes, pos, path, s) is Ok,
    ensures
        sound_udf_scan(udf::scan_from(image, v, bytes, pos, path, s)->Ok_0),
    decreases (if pos < bytes.len() { bytes.len() - pos } else { 0 }),
{
    if pos + 38 <= bytes.len() {
        match udf::identifier_spec(bytes.skip(pos as int), path) {
            Ok(Some(id)) => {
                lemma_udf_identifier(image, v, id, path, s);
                let next = udf::add_identifier(image, v, id, path, s)->Ok_0;
                if id.advance > 0 {
                    lemma_udf_scan(image, v, bytes, pos + id.advance, path, next);
                }
            },
            _ => {},
        }
    }
}

proof fn lemma_udf_walk(
    image: Image,
    v: VolumeView,
    icb: LongAd,
    path: Seq<char>,
    depth: nat,
    chain: Seq<(u16, u32)>,
    files: Seq<FileView>,
    used: nat,
)
    requires
        sound_path(path, 0),
        sound_files(files),
        udf::walk_spec(image, v, icb, path, depth, chain, files, used) is Ok,
    ensures
        sound_files(udf::walk_spec(image, v, icb, path, depth, chain, files, used)->Ok_0.0),
    decreases udf::MAX_DEPTH + 1 - depth, 0nat,
{
    let (entry, used) = udf::entry_spec(image, v, icb, used)->Ok_0;
    let (bytes, used) = udf::content_spec(image, entry, used)->Ok_0;
    let start = udf::ScanView { children: Seq::empty(), files, used };
    lemma_udf_scan(image, v, bytes, 0, path, start);
    let s = udf::scan_from(image, v, bytes, 0, path, start)->Ok_0;
    lemma_udf_walk_all(
        image,
        v,
        s.children,
        depth + 1,
        chain.push((icb.partition, icb.block)),
        s.files,
        s.used,
    );
}

proof fn lemma_udf_walk_all(
    image: Image,
    v: VolumeView,
    dirs: Seq<(LongAd, Seq<char>)>,
    depth: nat,
    chain: Seq<(u16, u32)>,
    files: Seq<FileView>,
    used: nat,
)
    requires
        forall|i: int| 0 <= i < dirs.len() ==> sound_path((#[trigger] dirs[i]).1, 1),
        sound_files(files),
        udf::walk_all(image, v, dirs, depth, chain, files, used) is Ok,
    ensures
        sound_files(udf::walk_all(image, v, dirs, depth, chain, files, used)->Ok_0.0),
    decreases udf::MAX_DEPTH + 1 - depth, dirs.len() + 1,
{
    if dirs.len() > 0 {
        lemma_weaker_path(dirs[0].1);
        lemma_udf_walk(image, v, dirs[0].0, dirs[0].1, depth, chain, files, used);
        let (next, spent) = udf::walk_spec(
            image,
            v,
            dirs[0].0,
            dirs[0].1,
            depth,
            chain,
            files,
            used,
        )->Ok_0;
        lemma_udf_walk_all(image, v, dirs.skip(1), depth, chain, next, spent);
    }
}

// ---------------------------------------------------------------------
// Both

proof fn lemma_within(extents: Seq<Extent>, image_len: nat, i: int)
    requires
        super::within_spec(extents, image_len) is Ok,
        0 <= i < extents.len(),
    ensures
        super::fits(extents[i], image_len),
    decreases extents.len(),
{
    if i > 0 {
        lemma_within(extents.skip(1), image_len, i - 1);
    }
}

proof fn lemma_files_within(files: Seq<FileView>, image_len: nat, i: int)
    requires
        iso9660::files_within(files, image_len) is Ok,
        0 <= i < files.len(),
    ensures
        super::within_spec(files[i].extents, image_len) is Ok,
    decreases files.len(),
{
    if i > 0 {
        lemma_files_within(files.skip(1), image_len, i - 1);
    }
}

/// Every extent of every file of an index is a range of the image's own
/// bytes.
pub proof fn every_extent_lies_inside_the_image(image: Image, file: int, extent: int)
    requires
        super::index_spec(image) is Ok,
        0 <= file < super::index_spec(image)->Ok_0.files.len(),
        0 <= extent < super::index_spec(image)->Ok_0.files[file].extents.len(),
    ensures
        super::fits(super::index_spec(image)->Ok_0.files[file].extents[extent], image.len),
{
    let files = super::index_spec(image)->Ok_0.files;
    lemma_files_within(files, image.len, file);
    lemma_within(files[file].extents, image.len, extent);
}

/// Every file of an index has an absolute path made of names without a
/// separator, and extents that cover exactly its length: padding is never
/// served.
pub proof fn every_file_is_sound(image: Image, file: int)
    requires
        super::index_spec(image) is Ok,
        0 <= file < super::index_spec(image)->Ok_0.files.len(),
    ensures
        sound_file(super::index_spec(image)->Ok_0.files[file]),
{
    lemma_root_path();
    match iso9660::index_spec(image) {
        Ok(_) => {
            let d = iso9660::descriptors_from(image, 0, false, None, None, 0)->Ok_0;
            let volume = if d.joliet is Some {
                d.joliet->0
            } else {
                d.primary->0
            };
            lemma_iso_walk(
                image,
                Tree { block_size: volume.block_size, joliet: d.joliet is Some },
                volume.root,
                Seq::empty(),
                0,
                Seq::empty(),
                Gathered { rock_ridge: false, su_skip: 0, files: Seq::empty() },
                d.used,
            );
        },
        Err(_) => {
            let (v, used) = udf::open_spec(image, 0)->Ok_0;
            let (root, used) = udf::root_spec(image, v, used)->Ok_0;
            lemma_udf_walk(
                image,
                v,
                root,
                Seq::empty(),
                0,
                Seq::empty(),
                Seq::empty(),
                used,
            );
        },
    }
}

/// An image with an ISO 9660 tree is indexed through it, whatever else it
/// holds.
pub proof fn a_bridge_image_is_indexed_through_its_iso_tree(image: Image)
    requires
        iso9660::index_spec(image) is Ok,
    ensures
        super::index_spec(image) == iso9660::index_spec(image),
{
}

} // verus!
