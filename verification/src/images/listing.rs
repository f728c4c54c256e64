//! What a UDF tree lists, from the bytes of its directories.
use super::udf;
use super::udf::{EntryView, LongAd, ScanView, VolumeView};
use super::{Extent, FileView, Image, RefusalView};
use vstd::prelude::*;

verus! {

// ---------------------------------------------------------------------
// Lists

/// What is kept of two lists, one behind the other, is what is kept of the
/// first and then what is kept of the second.
pub proof fn lemma_kept<A, B>(a: Seq<A>, b: Seq<A>, f: spec_fn(A) -> Option<B>)
    ensures
        (a + b).filter_map(f) == a.filter_map(f) + b.filter_map(f),
    decreases b.len(),
{
    if b.len() == 0 {
        assert(a + b =~= a);
        assert(a.filter_map(f) + b.filter_map(f) =~= a.filter_map(f));
    } else {
        assert((a + b).drop_last() =~= a + b.drop_last());
        assert((a + b).last() == b.last());
        lemma_kept(a, b.drop_last(), f);
        assert((a + b).filter_map(f) =~= a.filter_map(f) + b.filter_map(f));
    }
}

/// What is kept of a list and one behind it.
pub proof fn lemma_kept_one<A, B>(a: A, f: spec_fn(A) -> Option<B>)
    ensures
        seq![a].filter_map(f) == (match f(a) {
            Some(b) => seq![b],
            None => Seq::empty(),
        }),
{
    assert(seq![a].drop_last() =~= Seq::empty());
    assert(Seq::<A>::empty().filter_map(f) =~= Seq::empty());
    reveal_with_fuel(Seq::filter_map, 2);
    if let Some(b) = f(a) {
        assert(seq![a].filter_map(f) =~= seq![b]);
    } else {
        assert(seq![a].filter_map(f) =~= Seq::empty());
    }
}

/// What stands behind one another does so in any grouping.
pub proof fn lemma_behind<A>(a: Seq<A>, b: Seq<A>, c: Seq<A>)
    ensures
        a + b + c == a + (b + c),
        a + Seq::empty() == a,
        Seq::empty() + a == a,
{
    assert(a + b + c =~= a + (b + c));
    assert(a + Seq::empty() =~= a);
    assert(Seq::empty() + a =~= a);
}

// ---------------------------------------------------------------------
// What was read before

proof fn lemma_chain_used(
    image: Image,
    v: VolumeView,
    run: Seq<u8>,
    stride: nat,
    home: u16,
    out: Seq<Extent>,
    followed: nat,
    used: nat,
    less: nat,
)
    requires
        less <= used,
    ensures
        udf::chain_spec(image, v, run, stride, home, out, followed, used) matches Ok((extents, end))
            ==> end >= used && udf::chain_spec(image, v, run, stride, home, out, followed, less)
            == Ok::<(Seq<Extent>, nat), RefusalView>((extents, (end - used + less) as nat)),
    decreases udf::MAX_AD_CONTINUATIONS + 1 - followed,
{
    if let Ok((before, Some(next))) = udf::run_from(v, run, 0, stride, home, out) {
        if followed + 1 <= udf::MAX_AD_CONTINUATIONS {
            if let Ok((run2, mid)) = udf::continuation_spec(image, v, next, used) {
                lemma_chain_used(
                    image,
                    v,
                    run2,
                    stride,
                    home,
                    before,
                    followed + 1,
                    mid,
                    (mid - used + less) as nat,
                );
            }
        }
    }
}

/// What a file entry says does not depend on what was read before it.
proof fn lemma_entry_used(image: Image, v: VolumeView, icb: LongAd, used: nat)
    ensures
        udf::entry_spec(image, v, icb, used) matches Ok((e, end)) ==> end >= used
            && udf::entry_spec(image, v, icb, 0) == Ok::<(EntryView, nat), RefusalView>(
            (e, (end - used) as nat),
        ),
{
    if let Ok((e, end)) = udf::entry_spec(image, v, icb, used) {
        let offset = udf::offset_spec(v, icb.partition, icb.block)->Ok_0;
        let d = super::read_spec(image, udf::FORMAT@, used, offset, v.block_size)->Ok_0;
        let h = udf::header_spec(d)->Ok_0;
        let run = d.subrange(h.from, h.to);
        lemma_chain_used(
            image,
            v,
            run,
            8,
            icb.partition,
            Seq::empty(),
            0,
            used + v.block_size,
            v.block_size,
        );
        lemma_chain_used(
            image,
            v,
            run,
            16,
            icb.partition,
            Seq::empty(),
            0,
            used + v.block_size,
            v.block_size,
        );
    }
}

proof fn lemma_content_used(
    image: Image,
    extents: Seq<Extent>,
    left: nat,
    whole: nat,
    out: Seq<u8>,
    used: nat,
    less: nat,
)
    requires
        less <= used,
    ensures
        udf::content_from(image, extents, left, whole, out, used) matches Ok((bytes, end)) ==> end
            >= used && udf::content_from(image, extents, left, whole, out, less) == Ok::<
            (Seq<u8>, nat),
            RefusalView,
        >((bytes, (end - used + less) as nat)),
    decreases extents.len(),
{
    if left > 0 && extents.len() > 0 {
        let want: nat = if extents[0].len < left {
            extents[0].len as nat
        } else {
            left
        };
        if let Ok(bytes) = super::read_spec(
            image,
            udf::FORMAT@,
            used,
            extents[0].offset as nat,
            want,
        ) {
            lemma_content_used(
                image,
                extents.skip(1),
                (left - want) as nat,
                whole,
                out + bytes,
                used + want,
                less + want,
            );
        }
    }
}

// ---------------------------------------------------------------------
// The identifiers of a directory

/// Whether a file identifier stands at a byte of a directory: there is room
/// for its fixed part, and the sixteen bytes of its tag are not all zero.
pub open spec fn identifier_here(data: Seq<u8>, p: int) -> bool {
    0 <= p && p + 38 <= data.len() && exists|i: int| 0 <= i < 16 && #[trigger] data[p + i] != 0
}

/// Where the next file identifier stands: behind the fixed part, what the
/// implementation keeps for itself and the name, at the next multiple of
/// four.
pub open spec fn behind_identifier(data: Seq<u8>, p: int) -> int {
    p + (38 + data[p + 36] + 256 * data[p + 37] + data[p + 19] + 3) / 4 * 4
}

/// Whether these are the places of all file identifiers of a directory from
/// a byte on.
#[verifier::opaque]
pub open spec fn identifiers_at(data: Seq<u8>, from: int, places: Seq<int>) -> bool {
    &&& forall|k: int| 0 <= k < places.len() ==> identifier_here(data, #[trigger] places[k])
    &&& places.len() > 0 ==> places[0] == from
    &&& forall|k: int|
        #![trigger places[k + 1]]
        0 <= k < places.len() - 1 ==> places[k + 1] == behind_identifier(data, places[k])
    &&& !identifier_here(
        data,
        if places.len() > 0 {
            behind_identifier(data, places.last())
        } else {
            from
        },
    )
}

/// Where the file entry of a file identifier's child is.
pub open spec fn identified(data: Seq<u8>, p: int) -> LongAd {
    LongAd {
        len: (data[p + 20] + 256 * data[p + 21] + 65536 * (data[p + 22] + 256 * data[p
            + 23])) as u32,
        block: (data[p + 24] + 256 * data[p + 25] + 65536 * (data[p + 26] + 256 * data[p
            + 27])) as u32,
        partition: (data[p + 28] + 256 * data[p + 29]) as u16,
    }
}

/// The raw name in a file identifier.
pub open spec fn identifier_name(data: Seq<u8>, p: int) -> Seq<u8> {
    let from = p + 38 + data[p + 36] + 256 * data[p + 37];
    data.subrange(from, from + data[p + 19])
}

/// The name of a child in a directory: the directory's path, a `/` and the
/// name.
pub open spec fn below(path: Seq<char>, raw: Seq<u8>) -> Seq<char> {
    path + seq!['/'] + udf::cs0_spec(raw)->0
}

/// The directory that a file identifier names, if it names one: it is
/// neither the parent nor deleted, and says that it is a directory.
pub open spec fn directory_named(data: Seq<u8>, p: int, path: Seq<char>) -> Option<
    (LongAd, Seq<char>),
> {
    if data[p + 18] & 0x08 == 0 && data[p + 18] & 0x04 == 0 && data[p + 18] & 0x02 != 0 {
        Some((identified(data, p), below(path, identifier_name(data, p))))
    } else {
        None
    }
}

/// The file that a file identifier names, if it names one: it is neither the
/// parent, nor deleted, nor a directory, and its file entry is that of a
/// regular file. The file is as long as the file entry says, and lies in the
/// first so many bytes of the file entry's extents.
pub open spec fn file_named(
    image: Image,
    v: VolumeView,
    data: Seq<u8>,
    p: int,
    path: Seq<char>,
) -> Option<FileView> {
    if data[p + 18] & 0x08 == 0 && data[p + 18] & 0x04 == 0 && data[p + 18] & 0x02 == 0 {
        match udf::entry_spec(image, v, identified(data, p), 0) {
            Ok((e, _)) => if e.file_type == 5 {
                Some(
                    FileView {
                        path: below(path, identifier_name(data, p)),
                        len: e.info_len,
                        extents: super::first_bytes(e.extents, e.info_len),
                    },
                )
            } else {
                None
            },
            Err(_) => None,
        }
    } else {
        None
    }
}

proof fn lemma_identifier(data: Seq<u8>, p: int, path: Seq<char>)
    requires
        0 <= p,
        p + 38 <= data.len(),
    ensures
        match udf::identifier_spec(data.skip(p), path) {
            Err(_) => true,
            Ok(None) => !identifier_here(data, p),
            Ok(Some(id)) => {
                &&& identifier_here(data, p)
                &&& id.characteristics == data[p + 18]
                &&& id.icb == identified(data, p)
                &&& id.name == identifier_name(data, p)
                &&& p + id.advance == behind_identifier(data, p)
                &&& id.advance >= 38
            },
        },
{
    let fid = data.skip(p);
    assert forall|i: int| 0 <= i < 38 implies fid[i] == data[p + i] by {
    }
    match udf::identifier_spec(fid, path) {
        Err(_) => {},
        Ok(None) => {
            assert forall|i: int| 0 <= i < 16 implies #[trigger] data[p + i] == 0 by {
                assert(fid[i] == 0);
            }
        },
        Ok(Some(id)) => {
            assert(!udf::blank_tag(fid));
            let i = choose|i: int| 0 <= i < 16 && fid[i] != 0;
            assert(data[p + i] != 0);
            let from = p + 38 + data[p + 36] + 256 * data[p + 37];
            assert(id.name =~= data.subrange(from, from + data[p + 19]));
        },
    }
}

/// One step of a scan: what one file identifier adds.
proof fn lemma_added(
    image: Image,
    v: VolumeView,
    data: Seq<u8>,
    p: int,
    path: Seq<char>,
    s: ScanView,
)
    requires
        0 <= p,
        p + 38 <= data.len(),
        udf::identifier_spec(data.skip(p), path) matches Ok(Some(_)),
    ensures
        udf::add_identifier(
            image,
            v,
            udf::identifier_spec(data.skip(p), path)->Ok_0->0,
            path,
            s,
        ) matches Ok(t) ==> {
            &&& t.children == s.children + (match directory_named(data, p, path) {
                Some(d) => seq![d],
                None => Seq::empty(),
            })
            &&& t.files == s.files + (match file_named(image, v, data, p, path) {
                Some(f) => seq![f],
                None => Seq::empty(),
            })
        },
{
    let id = udf::identifier_spec(data.skip(p), path)->Ok_0->0;
    lemma_identifier(data, p, path);
    lemma_entry_used(image, v, id.icb, s.used);
    reveal_strlit("/");
    assert("/"@ =~= seq!['/']);
    if let Ok(t) = udf::add_identifier(image, v, id, path, s) {
        if let Some(d) = directory_named(data, p, path) {
            assert(t.children =~= s.children + seq![d]);
        } else {
            assert(t.children =~= s.children + Seq::<(LongAd, Seq<char>)>::empty());
        }
        if let Some(f) = file_named(image, v, data, p, path) {
            assert(t.files =~= s.files + seq![f]);
        } else {
            assert(t.files =~= s.files + Seq::<FileView>::empty());
        }
    }
}

proof fn lemma_places(data: Seq<u8>, p: int, rest: Seq<int>)
    requires
        identifier_here(data, p),
        identifiers_at(data, behind_identifier(data, p), rest),
    ensures
        identifiers_at(data, p, seq![p] + rest),
{
    reveal(identifiers_at);
    let places = seq![p] + rest;
    assert forall|k: int| 0 <= k < places.len() implies identifier_here(
        data,
        #[trigger] places[k],
    ) by {
        if k > 0 {
            assert(places[k] == rest[k - 1]);
        }
    }
    assert forall|k: int|
        #![trigger places[k + 1]]
        0 <= k < places.len() - 1 implies places[k + 1] == behind_identifier(data, places[k]) by {
        if k > 0 {
            assert(places[k] == rest[k - 1]);
            assert(rest[(k - 1) + 1] == behind_identifier(data, rest[k - 1]));
        } else {
            assert(places[1] == rest[0]);
        }
    }
    if rest.len() > 0 {
        assert(places.last() == rest.last());
    } else {
        assert(places.last() == p);
    }
}

/// The directories that file identifiers name, in their order.
#[verifier::opaque]
pub open spec fn directories_named(data: Seq<u8>, places: Seq<int>, path: Seq<char>) -> Seq<
    (LongAd, Seq<char>),
> {
    places.filter_map(|p: int| directory_named(data, p, path))
}

/// The files that file identifiers name, in their order.
#[verifier::opaque]
pub open spec fn files_named(
    image: Image,
    v: VolumeView,
    data: Seq<u8>,
    places: Seq<int>,
    path: Seq<char>,
) -> Seq<FileView> {
    places.filter_map(|p: int| file_named(image, v, data, p, path))
}

proof fn lemma_named(image: Image, v: VolumeView, data: Seq<u8>, path: Seq<char>, p: int, rest: Seq<int>)
    ensures
        directories_named(data, seq![p] + rest, path) == (match directory_named(data, p, path) {
            Some(d) => seq![d],
            None => Seq::empty(),
        }) + directories_named(data, rest, path),
        files_named(image, v, data, seq![p] + rest, path) == (match file_named(
            image,
            v,
            data,
            p,
            path,
        ) {
            Some(f) => seq![f],
            None => Seq::empty(),
        }) + files_named(image, v, data, rest, path),
        directories_named(data, Seq::empty(), path).len() == 0,
        files_named(image, v, data, Seq::empty(), path).len() == 0,
{
    reveal(directories_named);
    reveal(files_named);
    let dirs = |p: int| directory_named(data, p, path);
    let files = |p: int| file_named(image, v, data, p, path);
    lemma_kept(seq![p], rest, dirs);
    lemma_kept(seq![p], rest, files);
    lemma_kept_one(p, dirs);
    lemma_kept_one(p, files);
}

/// What scanning a directory does at one place.
proof fn lemma_scan_step(
    image: Image,
    v: VolumeView,
    data: Seq<u8>,
    pos: nat,
    path: Seq<char>,
    s: ScanView,
) -> (mid: ScanView)
    requires
        udf::scan_from(image, v, data, pos, path, s) is Ok,
    ensures
        !identifier_here(data, pos as int) ==> udf::scan_from(image, v, data, pos, path, s)
            == Ok::<ScanView, RefusalView>(s),
        identifier_here(data, pos as int) ==> {
            &&& behind_identifier(data, pos as int) >= pos + 38
            &&& udf::scan_from(image, v, data, pos, path, s) == udf::scan_from(
                image,
                v,
                data,
                behind_identifier(data, pos as int) as nat,
                path,
                mid,
            )
            &&& mid.children == s.children + (match directory_named(data, pos as int, path) {
                Some(d) => seq![d],
                None => Seq::empty(),
            })
            &&& mid.files == s.files + (match file_named(image, v, data, pos as int, path) {
                Some(f) => seq![f],
                None => Seq::empty(),
            })
        },
{
    if pos + 38 > data.len() {
        s
    } else {
        lemma_identifier(data, pos as int, path);
        match udf::identifier_spec(data.skip(pos as int), path) {
            Err(_) => s,
            Ok(None) => s,
            Ok(Some(id)) => {
                lemma_added(image, v, data, pos as int, path, s);
                udf::add_identifier(image, v, id, path, s)->Ok_0
            },
        }
    }
}

proof fn lemma_scan(
    image: Image,
    v: VolumeView,
    data: Seq<u8>,
    pos: nat,
    path: Seq<char>,
    s: ScanView,
    t: ScanView,
) -> (places: Seq<int>)
    requires
        udf::scan_from(image, v, data, pos, path, s) == Ok::<ScanView, RefusalView>(t),
    ensures
        identifiers_at(data, pos as int, places),
        t.children == s.children + directories_named(data, places, path),
        t.files == s.files + files_named(image, v, data, places, path),
    decreases (if pos < data.len() { data.len() - pos } else { 0 }),
{
    let mid = lemma_scan_step(image, v, data, pos, path, s);
    if !identifier_here(data, pos as int) {
        let none = Seq::<int>::empty();
        lemma_named(image, v, data, path, 0, none);
        assert(identifiers_at(data, pos as int, none)) by {
            reveal(identifiers_at);
        }
        assert(directories_named(data, none, path) =~= Seq::empty());
        assert(files_named(image, v, data, none, path) =~= Seq::empty());
        lemma_behind(s.children, Seq::empty(), Seq::empty());
        lemma_behind(s.files, Seq::empty(), Seq::empty());
        none
    } else {
        let next = behind_identifier(data, pos as int) as nat;
        let rest = lemma_scan(image, v, data, next, path, mid, t);
        lemma_places(data, pos as int, rest);
        lemma_named(image, v, data, path, pos as int, rest);
        let d: Seq<(LongAd, Seq<char>)> = match directory_named(data, pos as int, path) {
            Some(d) => seq![d],
            None => Seq::empty(),
        };
        let f: Seq<FileView> = match file_named(image, v, data, pos as int, path) {
            Some(f) => seq![f],
            None => Seq::empty(),
        };
        lemma_behind(s.children, d, directories_named(data, rest, path));
        lemma_behind(s.files, f, files_named(image, v, data, rest, path));
        seq![pos as int] + rest
    }
}

/// Scanning a directory goes from its first file identifier to its last, and
/// adds every directory and every file that they name, in their order,
/// behind what was gathered before; and nothing else.
pub proof fn a_directory_lists_what_its_identifiers_name(
    image: Image,
    v: VolumeView,
    data: Seq<u8>,
    path: Seq<char>,
    s: ScanView,
) -> (places: Seq<int>)
    requires
        udf::scan_from(image, v, data, 0, path, s) is Ok,
    ensures
        identifiers_at(data, 0, places),
        udf::scan_from(image, v, data, 0, path, s)->Ok_0.children == s.children
            + directories_named(data, places, path),
        udf::scan_from(image, v, data, 0, path, s)->Ok_0.files == s.files + files_named(
            image,
            v,
            data,
            places,
            path,
        ),
{
    lemma_scan(image, v, data, 0, path, s, udf::scan_from(image, v, data, 0, path, s)->Ok_0)
}

// ---------------------------------------------------------------------
// The tree

proof fn lemma_add_shift(
    image: Image,
    v: VolumeView,
    id: udf::IdentifierView,
    path: Seq<char>,
    s: ScanView,
    s0: ScanView,
)
    requires
        s0.files.len() <= s.files.len(),
        s0.used <= s.used,
        udf::add_identifier(image, v, id, path, s) is Ok,
    ensures
        udf::add_identifier(image, v, id, path, s0) is Ok,
        ({
            let t = udf::add_identifier(image, v, id, path, s)->Ok_0;
            let t0 = udf::add_identifier(image, v, id, path, s0)->Ok_0;
            &&& t0.files.len() <= t.files.len()
            &&& t0.used - s0.used == t.used - s.used
            &&& t.used >= s.used
        }),
{
    lemma_entry_used(image, v, id.icb, s.used);
    lemma_entry_later(image, v, id.icb, s.used, s0.used);
}

/// A file entry that is read once much was read is read once less was.
proof fn lemma_entry_later(image: Image, v: VolumeView, icb: LongAd, used: nat, less: nat)
    requires
        less <= used,
    ensures
        udf::entry_spec(image, v, icb, used) matches Ok((e, end)) ==> end >= used
            && udf::entry_spec(image, v, icb, less) == Ok::<(EntryView, nat), RefusalView>(
            (e, (end - used + less) as nat),
        ),
{
    if let Ok((e, end)) = udf::entry_spec(image, v, icb, used) {
        let offset = udf::offset_spec(v, icb.partition, icb.block)->Ok_0;
        let d = super::read_spec(image, udf::FORMAT@, used, offset, v.block_size)->Ok_0;
        let h = udf::header_spec(d)->Ok_0;
        let run = d.subrange(h.from, h.to);
        lemma_chain_used(
            image,
            v,
            run,
            8,
            icb.partition,
            Seq::empty(),
            0,
            used + v.block_size,
            less + v.block_size,
        );
        lemma_chain_used(
            image,
            v,
            run,
            16,
            icb.partition,
            Seq::empty(),
            0,
            used + v.block_size,
            less + v.block_size,
        );
    }
}

proof fn lemma_scan_shift(
    image: Image,
    v: VolumeView,
    data: Seq<u8>,
    pos: nat,
    path: Seq<char>,
    s: ScanView,
    s0: ScanView,
)
    requires
        s0.files.len() <= s.files.len(),
        s0.used <= s.used,
        udf::scan_from(image, v, data, pos, path, s) is Ok,
    ensures
        udf::scan_from(image, v, data, pos, path, s0) is Ok,
        ({
            let t = udf::scan_from(image, v, data, pos, path, s)->Ok_0;
            let t0 = udf::scan_from(image, v, data, pos, path, s0)->Ok_0;
            &&& t0.used - s0.used == t.used - s.used
            &&& t.used >= s.used
        }),
    decreases (if pos < data.len() { data.len() - pos } else { 0 }),
{
    if pos + 38 <= data.len() {
        if let Ok(Some(id)) = udf::identifier_spec(data.skip(pos as int), path) {
            lemma_identifier(data, pos as int, path);
            lemma_add_shift(image, v, id, path, s, s0);
            let mid = udf::add_identifier(image, v, id, path, s)->Ok_0;
            let mid0 = udf::add_identifier(image, v, id, path, s0)->Ok_0;
            lemma_scan_shift(image, v, data, pos + id.advance, path, mid, mid0);
        }
    }
}

/// The bytes of a directory.
#[verifier::opaque]
pub open spec fn directory_bytes(image: Image, v: VolumeView, icb: LongAd) -> Option<Seq<u8>> {
    match udf::entry_spec(image, v, icb, 0) {
        Err(_) => None,
        Ok((e, _)) => match udf::content_spec(image, e, 0) {
            Err(_) => None,
            Ok((bytes, _)) => Some(bytes),
        },
    }
}

/// The files below a directory, itself walked first of all.
#[verifier::opaque]
pub open spec fn files_below(
    image: Image,
    v: VolumeView,
    icb: LongAd,
    path: Seq<char>,
    depth: nat,
    chain: Seq<(u16, u32)>,
) -> Seq<FileView> {
    match udf::walk_spec(image, v, icb, path, depth, chain, Seq::empty(), 0) {
        Ok((files, _)) => files,
        Err(_) => Seq::empty(),
    }
}

/// The files below each of some directories, one directory after the other.
#[verifier::opaque]
pub open spec fn files_below_all(
    image: Image,
    v: VolumeView,
    dirs: Seq<(LongAd, Seq<char>)>,
    depth: nat,
    chain: Seq<(u16, u32)>,
) -> Seq<FileView> {
    dirs.map_values(
        |d: (LongAd, Seq<char>)| files_below(image, v, d.0, d.1, depth, chain),
    ).flatten()
}

/// What one directory's own bytes give to a walk.
proof fn lemma_walk_step(
    image: Image,
    v: VolumeView,
    icb: LongAd,
    path: Seq<char>,
    depth: nat,
    chain: Seq<(u16, u32)>,
    files: Seq<FileView>,
    used: nat,
    files0: Seq<FileView>,
    used0: nat,
) -> (step: (Seq<u8>, Seq<int>, nat, nat))
    requires
        files0.len() <= files.len(),
        used0 <= used,
        udf::walk_spec(image, v, icb, path, depth, chain, files, used) is Ok,
    ensures
        ({
            let (data, places, mid, mid0) = step;
            let dirs = directories_named(data, places, path);
            let own = files_named(image, v, data, places, path);
            let below = chain.push((icb.partition, icb.block));
            &&& depth <= udf::MAX_DEPTH
            &&& directory_bytes(image, v, icb) == Some(data)
            &&& identifiers_at(data, 0, places)
            &&& used <= mid && mid0 - used0 == mid - used
            &&& udf::walk_spec(image, v, icb, path, depth, chain, files, used) == udf::walk_all(
                image,
                v,
                dirs,
                depth + 1,
                below,
                files + own,
                mid,
            )
            &&& udf::walk_spec(image, v, icb, path, depth, chain, files0, used0) == udf::walk_all(
                image,
                v,
                dirs,
                depth + 1,
                below,
                files0 + own,
                mid0,
            )
        }),
{
    reveal(directory_bytes);
    lemma_entry_used(image, v, icb, used);
    lemma_entry_later(image, v, icb, used, used0);
    let (entry, end) = udf::entry_spec(image, v, icb, used)->Ok_0;
    let end0 = (end - used + used0) as nat;
    let whole = entry.info_len;
    lemma_content_used(image, entry.extents, whole, whole, Seq::empty(), end, end0);
    lemma_content_used(image, entry.extents, whole, whole, Seq::empty(), end, 0);
    let (data, got) = udf::content_spec(image, entry, end)->Ok_0;
    let got0 = (got - end + end0) as nat;
    let s = ScanView { children: Seq::empty(), files, used: got };
    let s0 = ScanView { children: Seq::empty(), files: files0, used: got0 };
    let t = udf::scan_from(image, v, data, 0, path, s)->Ok_0;
    lemma_scan_shift(image, v, data, 0, path, s, s0);
    let t0 = udf::scan_from(image, v, data, 0, path, s0)->Ok_0;
    let places = lemma_scan(image, v, data, 0, path, s, t);
    let places0 = lemma_scan(image, v, data, 0, path, s0, t0);
    lemma_one_listing(data, 0, places, places0);
    lemma_behind(directories_named(data, places, path), Seq::empty(), Seq::empty());
    (data, places, t.used, t0.used)
}

/// A directory's identifiers stand in one list of places only.
proof fn lemma_one_listing(data: Seq<u8>, from: int, a: Seq<int>, b: Seq<int>)
    requires
        identifiers_at(data, from, a),
        identifiers_at(data, from, b),
    ensures
        a == b,
{
    reveal(identifiers_at);
    assert forall|k: int| 0 <= k < a.len() && k < b.len() implies a[k] == b[k] by {
        lemma_same_place(data, from, a, b, k);
    }
    if a.len() < b.len() {
        if a.len() > 0 {
            let k = a.len() - 1;
            lemma_same_place(data, from, a, b, k);
            assert(b[k + 1] == behind_identifier(data, b[k]));
            assert(identifier_here(data, b[k + 1]));
        } else {
            assert(identifier_here(data, b[0]));
        }
        assert(false);
    }
    if b.len() < a.len() {
        if b.len() > 0 {
            let k = b.len() - 1;
            lemma_same_place(data, from, a, b, k);
            assert(a[k + 1] == behind_identifier(data, a[k]));
            assert(identifier_here(data, a[k + 1]));
        } else {
            assert(identifier_here(data, a[0]));
        }
        assert(false);
    }
    assert(a =~= b);
}

proof fn lemma_same_place(data: Seq<u8>, from: int, a: Seq<int>, b: Seq<int>, k: int)
    requires
        identifiers_at(data, from, a),
        identifiers_at(data, from, b),
        0 <= k < a.len(),
        k < b.len(),
    ensures
        a[k] == b[k],
    decreases k,
{
    reveal(identifiers_at);
    if k > 0 {
        lemma_same_place(data, from, a, b, k - 1);
        assert(a[(k - 1) + 1] == behind_identifier(data, a[k - 1]));
        assert(b[(k - 1) + 1] == behind_identifier(data, b[k - 1]));
    }
}

/// Walking a directory.
#[verifier::opaque]
spec fn walked(
    image: Image,
    v: VolumeView,
    icb: LongAd,
    path: Seq<char>,
    depth: nat,
    chain: Seq<(u16, u32)>,
    files: Seq<FileView>,
    used: nat,
) -> Result<(Seq<FileView>, nat), RefusalView> {
    udf::walk_spec(image, v, icb, path, depth, chain, files, used)
}

/// Walking several directories.
#[verifier::opaque]
spec fn all_walked(
    image: Image,
    v: VolumeView,
    dirs: Seq<(LongAd, Seq<char>)>,
    depth: nat,
    chain: Seq<(u16, u32)>,
    files: Seq<FileView>,
    used: nat,
) -> Result<(Seq<FileView>, nat), RefusalView> {
    udf::walk_all(image, v, dirs, depth, chain, files, used)
}

/// Whether two walks add the same files and read as much.
spec fn adds_alike(
    a: Result<(Seq<FileView>, nat), RefusalView>,
    files: Seq<FileView>,
    used: nat,
    b: Result<(Seq<FileView>, nat), RefusalView>,
    files0: Seq<FileView>,
    used0: nat,
    own: Seq<FileView>,
) -> bool {
    a is Ok && b is Ok && ({
        let (out, end) = a->Ok_0;
        let (out0, end0) = b->Ok_0;
        &&& out == files + own
        &&& out0 == files0 + own
        &&& end - used == end0 - used0
        &&& end >= used
    })
}

proof fn lemma_walked_step(
    image: Image,
    v: VolumeView,
    icb: LongAd,
    path: Seq<char>,
    depth: nat,
    chain: Seq<(u16, u32)>,
    files: Seq<FileView>,
    used: nat,
    files0: Seq<FileView>,
    used0: nat,
) -> (step: (Seq<u8>, Seq<int>, nat, nat))
    requires
        files0.len() <= files.len(),
        used0 <= used,
        walked(image, v, icb, path, depth, chain, files, used) is Ok,
    ensures
        ({
            let (data, places, mid, mid0) = step;
            let dirs = directories_named(data, places, path);
            let own = files_named(image, v, data, places, path);
            let below = chain.push((icb.partition, icb.block));
            &&& depth <= udf::MAX_DEPTH
            &&& directory_bytes(image, v, icb) == Some(data)
            &&& identifiers_at(data, 0, places)
            &&& used <= mid && mid0 - used0 == mid - used
            &&& walked(image, v, icb, path, depth, chain, files, used) == all_walked(
                image,
                v,
                dirs,
                depth + 1,
                below,
                files + own,
                mid,
            )
            &&& walked(image, v, icb, path, depth, chain, files0, used0) == all_walked(
                image,
                v,
                dirs,
                depth + 1,
                below,
                files0 + own,
                mid0,
            )
        }),
{
    reveal(walked);
    reveal(all_walked);
    lemma_walk_step(image, v, icb, path, depth, chain, files, used, files0, used0)
}

proof fn lemma_first_walked(
    image: Image,
    v: VolumeView,
    icb: LongAd,
    path: Seq<char>,
    depth: nat,
    chain: Seq<(u16, u32)>,
)
    ensures
        walked(image, v, icb, path, depth, chain, Seq::empty(), 0) matches Ok((files, _)) ==> files
            == files_below(image, v, icb, path, depth, chain),
{
    reveal(walked);
    reveal(files_below);
}

/// What walking a directory adds does not depend on what was gathered or
/// read before.
proof fn lemma_walked_adds(
    image: Image,
    v: VolumeView,
    icb: LongAd,
    path: Seq<char>,
    depth: nat,
    chain: Seq<(u16, u32)>,
    files: Seq<FileView>,
    used: nat,
    files0: Seq<FileView>,
    used0: nat,
)
    requires
        files0.len() <= files.len(),
        used0 <= used,
        walked(image, v, icb, path, depth, chain, files, used) is Ok,
    ensures
        adds_alike(
            walked(image, v, icb, path, depth, chain, files, used),
            files,
            used,
            walked(image, v, icb, path, depth, chain, files0, used0),
            files0,
            used0,
            files_below(image, v, icb, path, depth, chain),
        ),
    decreases udf::MAX_DEPTH + 1 - depth, 0nat,
{
    let none = Seq::<FileView>::empty();
    let (data, places, mid, mid0) = lemma_walked_step(
        image,
        v,
        icb,
        path,
        depth,
        chain,
        files,
        used,
        files0,
        used0,
    );
    let (same, again, late, first) = lemma_walked_step(
        image,
        v,
        icb,
        path,
        depth,
        chain,
        files,
        used,
        none,
        0,
    );
    lemma_one_listing(data, 0, places, again);
    let dirs = directories_named(data, places, path);
    let own = files_named(image, v, data, places, path);
    let below = chain.push((icb.partition, icb.block));
    let more = files_below_all(image, v, dirs, depth + 1, below);
    lemma_all_walked_adds(image, v, dirs, depth + 1, below, files + own, mid, files0 + own, mid0);
    lemma_all_walked_adds(image, v, dirs, depth + 1, below, files + own, late, none + own, first);
    lemma_behind(files, own, more);
    lemma_behind(files0, own, more);
    lemma_behind(none, own, more);
    lemma_behind(own + more, own, more);
    lemma_first_walked(image, v, icb, path, depth, chain);
}

proof fn lemma_all_walked_adds(
    image: Image,
    v: VolumeView,
    dirs: Seq<(LongAd, Seq<char>)>,
    depth: nat,
    chain: Seq<(u16, u32)>,
    files: Seq<FileView>,
    used: nat,
    files0: Seq<FileView>,
    used0: nat,
)
    requires
        files0.len() <= files.len(),
        used0 <= used,
        all_walked(image, v, dirs, depth, chain, files, used) is Ok,
    ensures
        adds_alike(
            all_walked(image, v, dirs, depth, chain, files, used),
            files,
            used,
            all_walked(image, v, dirs, depth, chain, files0, used0),
            files0,
            used0,
            files_below_all(image, v, dirs, depth, chain),
        ),
    decreases udf::MAX_DEPTH + 1 - depth, dirs.len() + 1,
{
    lemma_below_all(image, v, dirs, depth, chain);
    lemma_all_walked_step(image, v, dirs, depth, chain, files, used);
    lemma_all_walked_step(image, v, dirs, depth, chain, files0, used0);
    if dirs.len() == 0 {
        lemma_behind(files, Seq::empty(), Seq::empty());
        lemma_behind(files0, Seq::empty(), Seq::empty());
    } else {
        let (icb, path) = dirs[0];
        let first = files_below(image, v, icb, path, depth, chain);
        let rest = dirs.skip(1);
        let more = files_below_all(image, v, rest, depth, chain);
        lemma_walked_adds(image, v, icb, path, depth, chain, files, used, files0, used0);
        let (mid, at) = walked(image, v, icb, path, depth, chain, files, used)->Ok_0;
        let (mid0, at0) = walked(image, v, icb, path, depth, chain, files0, used0)->Ok_0;
        lemma_all_walked_adds(image, v, rest, depth, chain, mid, at, mid0, at0);
        lemma_behind(files, first, more);
        lemma_behind(files0, first, more);
    }
}

proof fn lemma_all_walked_step(
    image: Image,
    v: VolumeView,
    dirs: Seq<(LongAd, Seq<char>)>,
    depth: nat,
    chain: Seq<(u16, u32)>,
    files: Seq<FileView>,
    used: nat,
)
    ensures
        all_walked(image, v, dirs, depth, chain, files, used) == (if dirs.len() == 0 {
            Ok((files, used))
        } else {
            match walked(image, v, dirs[0].0, dirs[0].1, depth, chain, files, used) {
                Err(e) => Err(e),
                Ok((mid, at)) => all_walked(image, v, dirs.skip(1), depth, chain, mid, at),
            }
        }),
{
    reveal(walked);
    reveal(all_walked);
}

proof fn lemma_walk_adds(
    image: Image,
    v: VolumeView,
    icb: LongAd,
    path: Seq<char>,
    depth: nat,
    chain: Seq<(u16, u32)>,
    files: Seq<FileView>,
    used: nat,
    files0: Seq<FileView>,
    used0: nat,
)
    requires
        files0.len() <= files.len(),
        used0 <= used,
        udf::walk_spec(image, v, icb, path, depth, chain, files, used) is Ok,
    ensures
        adds_alike(
            udf::walk_spec(image, v, icb, path, depth, chain, files, used),
            files,
            used,
            udf::walk_spec(image, v, icb, path, depth, chain, files0, used0),
            files0,
            used0,
            files_below(image, v, icb, path, depth, chain),
        ),
{
    reveal(walked);
    lemma_walked_adds(image, v, icb, path, depth, chain, files, used, files0, used0);
}

proof fn lemma_below_all(
    image: Image,
    v: VolumeView,
    dirs: Seq<(LongAd, Seq<char>)>,
    depth: nat,
    chain: Seq<(u16, u32)>,
)
    ensures
        dirs.len() == 0 ==> files_below_all(image, v, dirs, depth, chain) == Seq::<
            FileView,
        >::empty(),
        dirs.len() > 0 ==> files_below_all(image, v, dirs, depth, chain) == files_below(
            image,
            v,
            dirs[0].0,
            dirs[0].1,
            depth,
            chain,
        ) + files_below_all(image, v, dirs.skip(1), depth, chain),
{
    reveal(files_below_all);
    let f = |d: (LongAd, Seq<char>)| files_below(image, v, d.0, d.1, depth, chain);
    if dirs.len() > 0 {
        assert(dirs.map_values(f).drop_first() =~= dirs.skip(1).map_values(f));
        assert(dirs.map_values(f).first() == f(dirs[0]));
    }
}

/// Walking a directory adds the files that its own identifiers name and then
/// those below each directory that they name, in their order, each once,
/// behind what was gathered before.
pub proof fn a_tree_is_its_directory_and_the_trees_below(
    image: Image,
    v: VolumeView,
    icb: LongAd,
    path: Seq<char>,
    depth: nat,
    chain: Seq<(u16, u32)>,
    files: Seq<FileView>,
    used: nat,
) -> (listing: (Seq<u8>, Seq<int>))
    requires
        udf::walk_spec(image, v, icb, path, depth, chain, files, used) is Ok,
    ensures
        ({
            let (out, _) = udf::walk_spec(image, v, icb, path, depth, chain, files, used)->Ok_0;
            let (data, places) = listing;
            &&& directory_bytes(image, v, icb) == Some(data)
            &&& identifiers_at(data, 0, places)
            &&& out == files + files_below(image, v, icb, path, depth, chain)
            &&& files_below(image, v, icb, path, depth, chain) == files_named(
                image,
                v,
                data,
                places,
                path,
            ) + files_below_all(
                image,
                v,
                directories_named(data, places, path),
                depth + 1,
                chain.push((icb.partition, icb.block)),
            )
        }),
{
    assert(walked(image, v, icb, path, depth, chain, files, used) is Ok) by {
        reveal(walked);
    }
    let (data, places, _) = lemma_below_step(image, v, icb, path, depth, chain, files, used);
    lemma_walk_adds(image, v, icb, path, depth, chain, files, used, Seq::empty(), 0);
    (data, places)
}

/// Walking and scanning only ever append: the files gathered before are the
/// first of the files gathered after, in their order.
pub proof fn a_walk_only_appends(
    image: Image,
    v: VolumeView,
    icb: LongAd,
    path: Seq<char>,
    depth: nat,
    chain: Seq<(u16, u32)>,
    files: Seq<FileView>,
    used: nat,
)
    ensures
        udf::walk_spec(image, v, icb, path, depth, chain, files, used) matches Ok((out, _)) ==> out.len()
            >= files.len() && out.take(files.len() as int) == files,
{
    if udf::walk_spec(image, v, icb, path, depth, chain, files, used) is Ok {
        lemma_walk_adds(image, v, icb, path, depth, chain, files, used, Seq::empty(), 0);
        let (out, _) = udf::walk_spec(image, v, icb, path, depth, chain, files, used)->Ok_0;
        assert(out.take(files.len() as int) =~= files);
    }
}

/// Whether each directory of a list but the first is named by an identifier
/// of the one before it.
pub open spec fn is_trail(image: Image, v: VolumeView, trail: Seq<(LongAd, Seq<char>)>) -> bool {
    forall|k: int|
        0 <= k < trail.len() - 1 ==> names_directory(image, v, #[trigger] trail[k], trail[k + 1])
}

/// Whether a directory's identifiers name another directory.
pub open spec fn names_directory(
    image: Image,
    v: VolumeView,
    dir: (LongAd, Seq<char>),
    child: (LongAd, Seq<char>),
) -> bool {
    directory_bytes(image, v, dir.0) matches Some(data) && exists|places: Seq<int>, k: int|
        #![trigger identifiers_at(data, 0, places), places[k]]
        identifiers_at(data, 0, places) && 0 <= k < places.len() && directory_named(
            data,
            places[k],
            dir.1,
        ) == Some(child)
}

/// Whether a directory's identifiers name a file.
pub open spec fn names_file(
    image: Image,
    v: VolumeView,
    dir: (LongAd, Seq<char>),
    file: FileView,
) -> bool {
    directory_bytes(image, v, dir.0) matches Some(data) && exists|places: Seq<int>, k: int|
        #![trigger identifiers_at(data, 0, places), places[k]]
        identifiers_at(data, 0, places) && 0 <= k < places.len() && file_named(
            image,
            v,
            data,
            places[k],
            dir.1,
        ) == Some(file)
}

proof fn lemma_kept_has<A, B>(s: Seq<A>, f: spec_fn(A) -> Option<B>, k: int)
    requires
        0 <= k < s.len(),
        f(s[k]) is Some,
    ensures
        s.filter_map(f).contains(f(s[k])->0),
    decreases s.len(),
{
    let b = f(s[k])->0;
    let front = s.drop_last().filter_map(f);
    if k == s.len() - 1 {
        assert(s.filter_map(f)[front.len() as int] == b);
    } else {
        lemma_kept_has(s.drop_last(), f, k);
        let i = choose|i: int| 0 <= i < front.len() && front[i] == b;
        assert(s.filter_map(f)[i] == b);
    }
}

proof fn lemma_below_has(
    image: Image,
    v: VolumeView,
    dirs: Seq<(LongAd, Seq<char>)>,
    depth: nat,
    chain: Seq<(u16, u32)>,
    j: int,
    file: FileView,
)
    requires
        0 <= j < dirs.len(),
        files_below(image, v, dirs[j].0, dirs[j].1, depth, chain).contains(file),
    ensures
        files_below_all(image, v, dirs, depth, chain).contains(file),
    decreases dirs.len(),
{
    lemma_below_all(image, v, dirs, depth, chain);
    let all = files_below_all(image, v, dirs, depth, chain);
    let first = files_below(image, v, dirs[0].0, dirs[0].1, depth, chain);
    let rest = files_below_all(image, v, dirs.skip(1), depth, chain);
    if j == 0 {
        let i = choose|i: int| 0 <= i < first.len() && first[i] == file;
        assert(all[i] == file);
    } else {
        assert(dirs.skip(1)[j - 1] == dirs[j]);
        lemma_below_has(image, v, dirs.skip(1), depth, chain, j - 1, file);
        let i = choose|i: int| 0 <= i < rest.len() && rest[i] == file;
        assert(all[first.len() + i] == file);
    }
}

proof fn lemma_own_file(
    image: Image,
    v: VolumeView,
    dir: (LongAd, Seq<char>),
    data: Seq<u8>,
    places: Seq<int>,
    file: FileView,
)
    requires
        directory_bytes(image, v, dir.0) == Some(data),
        identifiers_at(data, 0, places),
        names_file(image, v, dir, file),
    ensures
        files_named(image, v, data, places, dir.1).contains(file),
{
    let (ps, k) = choose|ps: Seq<int>, k: int|
        #![trigger identifiers_at(data, 0, ps), ps[k]]
        identifiers_at(data, 0, ps) && 0 <= k < ps.len() && file_named(
            image,
            v,
            data,
            ps[k],
            dir.1,
        ) == Some(file);
    lemma_one_listing(data, 0, places, ps);
    reveal(files_named);
    lemma_kept_has(places, |p: int| file_named(image, v, data, p, dir.1), k);
}

proof fn lemma_own_directory(
    image: Image,
    v: VolumeView,
    dir: (LongAd, Seq<char>),
    data: Seq<u8>,
    places: Seq<int>,
    child: (LongAd, Seq<char>),
)
    requires
        directory_bytes(image, v, dir.0) == Some(data),
        identifiers_at(data, 0, places),
        names_directory(image, v, dir, child),
    ensures
        directories_named(data, places, dir.1).contains(child),
{
    let (ps, k) = choose|ps: Seq<int>, k: int|
        #![trigger identifiers_at(data, 0, ps), ps[k]]
        identifiers_at(data, 0, ps) && 0 <= k < ps.len() && directory_named(data, ps[k], dir.1)
            == Some(child);
    lemma_one_listing(data, 0, places, ps);
    reveal(directories_named);
    lemma_kept_has(places, |p: int| directory_named(data, p, dir.1), k);
}

proof fn lemma_each_all_walked(
    image: Image,
    v: VolumeView,
    dirs: Seq<(LongAd, Seq<char>)>,
    depth: nat,
    chain: Seq<(u16, u32)>,
    files: Seq<FileView>,
    used: nat,
    j: int,
) -> (at: (Seq<FileView>, nat))
    requires
        0 <= j < dirs.len(),
        all_walked(image, v, dirs, depth, chain, files, used) is Ok,
    ensures
        walked(image, v, dirs[j].0, dirs[j].1, depth, chain, at.0, at.1) is Ok,
    decreases dirs.len(),
{
    lemma_all_walked_step(image, v, dirs, depth, chain, files, used);
    if j == 0 {
        (files, used)
    } else {
        let (mid, end) = walked(
            image,
            v,
            dirs[0].0,
            dirs[0].1,
            depth,
            chain,
            files,
            used,
        )->Ok_0;
        assert(dirs.skip(1)[j - 1] == dirs[j]);
        lemma_each_all_walked(image, v, dirs.skip(1), depth, chain, mid, end, j - 1)
    }
}

proof fn lemma_below_step(
    image: Image,
    v: VolumeView,
    icb: LongAd,
    path: Seq<char>,
    depth: nat,
    chain: Seq<(u16, u32)>,
    files: Seq<FileView>,
    used: nat,
) -> (step: (Seq<u8>, Seq<int>, nat))
    requires
        walked(image, v, icb, path, depth, chain, files, used) is Ok,
    ensures
        ({
            let (data, places, mid) = step;
            let dirs = directories_named(data, places, path);
            let own = files_named(image, v, data, places, path);
            let below = chain.push((icb.partition, icb.block));
            &&& depth <= udf::MAX_DEPTH
            &&& directory_bytes(image, v, icb) == Some(data)
            &&& identifiers_at(data, 0, places)
            &&& all_walked(image, v, dirs, depth + 1, below, files + own, mid) is Ok
            &&& files_below(image, v, icb, path, depth, chain) == own + files_below_all(
                image,
                v,
                dirs,
                depth + 1,
                below,
            )
        }),
{
    let none = Seq::<FileView>::empty();
    let (data, places, mid, mid0) = lemma_walked_step(
        image,
        v,
        icb,
        path,
        depth,
        chain,
        files,
        used,
        none,
        0,
    );
    let dirs = directories_named(data, places, path);
    let own = files_named(image, v, data, places, path);
    let below = chain.push((icb.partition, icb.block));
    lemma_all_walked_adds(image, v, dirs, depth + 1, below, files + own, mid, none + own, mid0);
    lemma_behind(own, none, none);
    lemma_first_walked(image, v, icb, path, depth, chain);
    (data, places, mid)
}

proof fn lemma_every_file(
    image: Image,
    v: VolumeView,
    trail: Seq<(LongAd, Seq<char>)>,
    depth: nat,
    chain: Seq<(u16, u32)>,
    files: Seq<FileView>,
    used: nat,
    file: FileView,
)
    requires
        trail.len() > 0,
        is_trail(image, v, trail),
        names_file(image, v, trail.last(), file),
        walked(image, v, trail[0].0, trail[0].1, depth, chain, files, used) is Ok,
    ensures
        files_below(image, v, trail[0].0, trail[0].1, depth, chain).contains(file),
    decreases trail.len(),
{
    let (icb, path) = trail[0];
    let (data, places, mid) = lemma_below_step(image, v, icb, path, depth, chain, files, used);
    let all = files_below(image, v, icb, path, depth, chain);
    let own = files_named(image, v, data, places, path);
    let dirs = directories_named(data, places, path);
    let below = chain.push((icb.partition, icb.block));
    let more = files_below_all(image, v, dirs, depth + 1, below);
    if trail.len() == 1 {
        lemma_own_file(image, v, trail[0], data, places, file);
        let i = choose|i: int| 0 <= i < own.len() && own[i] == file;
        assert(all[i] == file);
    } else {
        let child = trail[1];
        assert(names_directory(image, v, trail[0], trail[1]));
        lemma_own_directory(image, v, trail[0], data, places, child);
        let j = choose|j: int| 0 <= j < dirs.len() && dirs[j] == child;
        let (had, at) = lemma_each_all_walked(
            image,
            v,
            dirs,
            depth + 1,
            below,
            files + own,
            mid,
            j,
        );
        let rest = trail.skip(1);
        assert(rest[0] == child && rest.last() == trail.last());
        assert forall|k: int| 0 <= k < rest.len() - 1 implies names_directory(
            image,
            v,
            #[trigger] rest[k],
            rest[k + 1],
        ) by {
            assert(names_directory(image, v, trail[k + 1], trail[(k + 1) + 1]));
        }
        lemma_every_file(image, v, rest, depth + 1, below, had, at, file);
        lemma_below_has(image, v, dirs, depth + 1, below, j, file);
        let i = choose|i: int| 0 <= i < more.len() && more[i] == file;
        assert(all[own.len() + i] == file);
    }
}

/// A UDF index is complete: every file that an identifier names, in the root
/// directory or in one that identifiers lead to from there, is in the index,
/// under the path of its directory, a `/` and its name, with the length and
/// the extents that its file entry states.
pub proof fn every_file_that_is_named_is_indexed(
    image: Image,
    v: VolumeView,
    root: LongAd,
    trail: Seq<(LongAd, Seq<char>)>,
    file: FileView,
)
    requires
        udf::index_spec(image) is Ok,
        udf::open_spec(image, 0) matches Ok((opened, n)) && opened == v && (udf::root_spec(
            image,
            v,
            n,
        ) matches Ok((found, _)) && found == root),
        trail.len() > 0,
        trail[0] == (root, Seq::<char>::empty()),
        is_trail(image, v, trail),
        names_file(image, v, trail.last(), file),
    ensures
        udf::index_spec(image)->Ok_0.files.contains(file),
{
    let (_, n) = udf::open_spec(image, 0)->Ok_0;
    let (_, used) = udf::root_spec(image, v, n)->Ok_0;
    let none = Seq::<FileView>::empty();
    assert(walked(image, v, root, Seq::empty(), 0, Seq::empty(), none, used) is Ok) by {
        reveal(walked);
    }
    lemma_every_file(image, v, trail, 0, Seq::empty(), none, used, file);
    lemma_walk_adds(image, v, root, Seq::empty(), 0, Seq::empty(), none, used, none, 0);
    lemma_behind(
        files_below(image, v, root, Seq::empty(), 0, Seq::empty()),
        Seq::empty(),
        Seq::empty(),
    );
}

/// A UDF index holds the files below the root directory, and no others.
pub proof fn the_files_below_the_root_are_indexed(image: Image)
    ensures
        udf::index_spec(image) matches Ok(index) ==> {
            &&& udf::open_spec(image, 0) is Ok
            &&& ({
                let (v, n) = udf::open_spec(image, 0)->Ok_0;
                &&& udf::root_spec(image, v, n) is Ok
                &&& ({
                    let (root, _) = udf::root_spec(image, v, n)->Ok_0;
                    index.files == files_below(image, v, root, Seq::empty(), 0, Seq::empty())
                })
            })
        },
{
    if udf::index_spec(image) is Ok {
        let (v, n) = udf::open_spec(image, 0)->Ok_0;
        let (root, used) = udf::root_spec(image, v, n)->Ok_0;
        let none = Seq::<FileView>::empty();
        lemma_walk_adds(image, v, root, Seq::empty(), 0, Seq::empty(), none, used, none, 0);
        lemma_behind(
            files_below(image, v, root, Seq::empty(), 0, Seq::empty()),
            Seq::empty(),
            Seq::empty(),
        );
    }
}

// ---------------------------------------------------------------------
// What is refused

/// A file identifier is refused for its name, for its file entry, for a file
/// longer than its extents, or for one file too many, and for nothing else.
pub proof fn an_identifier_is_refused_only_for_these(
    image: Image,
    v: VolumeView,
    id: udf::IdentifierView,
    path: Seq<char>,
    s: ScanView,
)
    ensures
        ({
            let skipped = id.characteristics & 0x08 != 0 || id.characteristics & 0x04 != 0;
            let named = udf::cs0_spec(id.name) matches Some(name) && !super::iso9660::is_bad_name(
                name,
            );
            let held = udf::entry_spec(image, v, id.icb, s.used) matches Ok((e, _)) && (e.file_type
                == 5 ==> super::total_len(e.extents) >= e.info_len && s.files.len() < 65536);
            udf::add_identifier(image, v, id, path, s) is Ok <==> skipped || (named && (
            id.characteristics & 0x02 != 0 || held))
        }),
{
}

/// A file identifier is read where its tag vouches for it and says what it
/// is, and its name ends inside the directory.
pub proof fn an_identifier_is_read_where_it_fits(data: Seq<u8>, p: int, path: Seq<char>)
    requires
        0 <= p,
        p + 38 <= data.len(),
        identifier_here(data, p),
    ensures
        udf::identifier_spec(data.skip(p), path) is Ok <==> udf::tag_spec(data.skip(p)) == Ok::<
            Option<u16>,
            RefusalView,
        >(Some(257u16)) && p + 38 + data[p + 36] + 256 * data[p + 37] + data[p + 19] <= data.len(),
{
    let fid = data.skip(p);
    assert(fid[36] == data[p + 36] && fid[37] == data[p + 37] && fid[19] == data[p + 19]);
    let i = choose|i: int| 0 <= i < 16 && #[trigger] data[p + i] != 0;
    assert(fid[i] == data[p + i]);
    assert(!udf::blank_tag(fid));
}

/// A directory is walked where it is no more than 64 levels deep, not on the
/// way to itself, its file entry is a directory's, and its bytes can be read
/// and scanned.
pub proof fn a_directory_is_walked_where_it_can_be_read(
    image: Image,
    v: VolumeView,
    icb: LongAd,
    path: Seq<char>,
    depth: nat,
    chain: Seq<(u16, u32)>,
    files: Seq<FileView>,
    used: nat,
    entry: EntryView,
    mid: nat,
    data: Seq<u8>,
    end: nat,
)
    requires
        depth <= 64,
        !chain.contains((icb.partition, icb.block)),
        udf::entry_spec(image, v, icb, used) == Ok::<(EntryView, nat), RefusalView>((entry, mid)),
        entry.file_type == 4,
        udf::content_spec(image, entry, mid) == Ok::<(Seq<u8>, nat), RefusalView>((data, end)),
        udf::scan_from(
            image,
            v,
            data,
            0,
            path,
            ScanView { children: Seq::empty(), files, used: end },
        ) is Ok,
    ensures
        ({
            let t = udf::scan_from(
                image,
                v,
                data,
                0,
                path,
                ScanView { children: Seq::empty(), files, used: end },
            )->Ok_0;
            udf::walk_spec(image, v, icb, path, depth, chain, files, used) == udf::walk_all(
                image,
                v,
                t.children,
                depth + 1,
                chain.push((icb.partition, icb.block)),
                t.files,
                t.used,
            )
        }),
{
}

/// What adding one file identifier after the other leads to.
pub open spec fn identifiers_added(
    image: Image,
    v: VolumeView,
    data: Seq<u8>,
    path: Seq<char>,
    s: ScanView,
    places: Seq<int>,
) -> Result<ScanView, RefusalView>
    decreases places.len(),
{
    if places.len() == 0 {
        Ok(s)
    } else {
        match udf::identifier_spec(data.skip(places[0]), path) {
            Err(e) => Err(e),
            Ok(None) => Ok(s),
            Ok(Some(id)) => match udf::add_identifier(image, v, id, path, s) {
                Err(e) => Err(e),
                Ok(s) => identifiers_added(image, v, data, path, s, places.skip(1)),
            },
        }
    }
}

/// Scanning a directory is adding its file identifiers one after the other:
/// it is refused where one of them is, for what that one is refused for, and
/// for nothing else.
pub proof fn a_directory_is_refused_only_for_its_identifiers(
    image: Image,
    v: VolumeView,
    data: Seq<u8>,
    pos: nat,
    path: Seq<char>,
    s: ScanView,
    places: Seq<int>,
)
    requires
        identifiers_at(data, pos as int, places),
    ensures
        udf::scan_from(image, v, data, pos, path, s) == identifiers_added(
            image,
            v,
            data,
            path,
            s,
            places,
        ),
    decreases places.len(),
{
    let p = pos as int;
    if places.len() == 0 {
        assert(!identifier_here(data, p)) by {
            reveal(identifiers_at);
        }
        if pos + 38 <= data.len() {
            let fid = data.skip(p);
            assert forall|i: int| 0 <= i < 16 implies fid[i] == 0 by {
                assert(data[p + i] == 0);
            }
            assert(udf::blank_tag(fid));
        }
    } else {
        let rest = places.skip(1);
        assert(places[0] == p && identifier_here(data, p) && identifiers_at(
            data,
            behind_identifier(data, p),
            rest,
        )) by {
            reveal(identifiers_at);
            assert(identifier_here(data, places[0]));
            assert forall|k: int| 0 <= k < rest.len() implies identifier_here(
                data,
                #[trigger] rest[k],
            ) by {
                assert(rest[k] == places[k + 1]);
            }
            assert forall|k: int|
                #![trigger rest[k + 1]]
                0 <= k < rest.len() - 1 implies rest[k + 1] == behind_identifier(data, rest[k]) by {
                assert(rest[k] == places[k + 1]);
                assert(rest[k + 1] == places[(k + 1) + 1]);
            }
            if rest.len() > 0 {
                assert(places[1] == behind_identifier(data, places[0]));
                assert(rest[0] == places[1]);
                assert(rest.last() == places.last());
            } else {
                assert(places.last() == p);
            }
        }
        lemma_identifier(data, p, path);
        if let Ok(Some(id)) = udf::identifier_spec(data.skip(p), path) {
            if let Ok(mid) = udf::add_identifier(image, v, id, path, s) {
                a_directory_is_refused_only_for_its_identifiers(
                    image,
                    v,
                    data,
                    pos + id.advance,
                    path,
                    mid,
                    rest,
                );
            }
        }
    }
}

} // verus!
