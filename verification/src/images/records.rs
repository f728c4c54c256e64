//! What an ISO 9660 tree lists, from the bytes of its directories.
use super::entries;
use super::iso9660;
use super::iso9660::{Gathered, PendingView, RecordView, ScanView, Tree};
use super::listing;
use super::{Extent, FileView, Image, RefusalView};
use vstd::prelude::*;

verus! {

// ---------------------------------------------------------------------
// The records of a directory

/// Whether a directory record stands at a byte of a directory: its length
/// is not zero.
pub open spec fn record_here(data: Seq<u8>, p: int) -> bool {
    0 <= p < data.len() && data[p] != 0
}

/// Whether every sector that starts between two bytes of a directory starts
/// with a zero.
pub open spec fn sectors_blank(data: Seq<u8>, from: int, to: int) -> bool {
    forall|z: int| from < z < to && #[trigger] (z % 2048) == 0 ==> data[z] == 0
}

/// Whether what follows a byte of a directory next is the record at `q`: it
/// stands right there, or it is the first to stand at the start of a sector
/// where the rest of this one is blank.
pub open spec fn followed_by(data: Seq<u8>, e: int, q: int) -> bool {
    ||| q == e
    ||| e < q && e < data.len() && data[e] == 0 && q % 2048 == 0 && sectors_blank(data, e, q)
}

/// Whether no record follows a byte of a directory: it ends there, or the
/// rest of this sector is blank and no sector behind it starts with a
/// record.
pub open spec fn followed_by_none(data: Seq<u8>, e: int) -> bool {
    ||| e >= data.len()
    ||| data[e] == 0 && sectors_blank(data, e, data.len() as int)
}

/// Where a record ends.
pub open spec fn record_end(data: Seq<u8>, p: int) -> int {
    p + data[p]
}

/// Whether these are the places of all records of a directory from a byte
/// on: a blank rest of a sector is skipped, and the directory goes on in the
/// next.
#[verifier::opaque]
pub open spec fn records_at(data: Seq<u8>, from: int, places: Seq<int>) -> bool {
    &&& forall|k: int| 0 <= k < places.len() ==> record_here(data, #[trigger] places[k])
    &&& places.len() > 0 ==> followed_by(data, from, places[0])
    &&& forall|k: int|
        #![trigger places[k + 1]]
        0 <= k < places.len() - 1 ==> followed_by(
            data,
            record_end(data, places[k]),
            places[k + 1],
        )
    &&& followed_by_none(
        data,
        if places.len() > 0 {
            record_end(data, places.last())
        } else {
            from
        },
    )
}

/// What the record at a byte of a directory says.
pub open spec fn record_said(data: Seq<u8>, p: int) -> RecordView {
    let name_end = 33 + data[p + 32];
    let rest = name_end + (if data[p + 32] % 2 == 0 {
        1int
    } else {
        0
    });
    RecordView {
        record_len: data[p] as nat,
        lba: entries::little(data, p + 2, 4) as u32,
        data_len: entries::little(data, p + 10, 4) as u32,
        is_dir: data[p + 25] & 0x02 != 0,
        more_extents: data[p + 25] & 0x80 != 0,
        name: data.subrange(p + 33, p + name_end),
        system_use: if rest <= data[p] {
            data.subrange(p + rest, p + data[p])
        } else {
            Seq::empty()
        },
    }
}

/// What the records at some places say, in their order.
pub open spec fn records_said(data: Seq<u8>, places: Seq<int>) -> Seq<RecordView> {
    places.map_values(|p: int| record_said(data, p))
}

/// What adding one record after the other leads to.
pub open spec fn added(
    tree: Tree,
    path: Seq<char>,
    top: bool,
    s: ScanView,
    records: Seq<RecordView>,
) -> Result<ScanView, RefusalView>
    decreases records.len(),
{
    if records.len() == 0 {
        Ok(s)
    } else {
        match iso9660::add_record(tree, records[0], path, top, s) {
            Err(e) => Err(e),
            Ok(s) => added(tree, path, top, s, records.skip(1)),
        }
    }
}

/// A record is read at a byte of a directory exactly if it has its 34 bytes,
/// all of it lies inside the directory, no extended attributes stand before
/// its file, and its name fits into it; and then it says what its bytes say.
pub proof fn a_record_says_what_its_bytes_say(data: Seq<u8>, p: int)
    requires
        0 <= p < data.len(),
    ensures
        data[p] == 0 ==> iso9660::record_spec(data.skip(p)) == Ok::<
            Option<RecordView>,
            RefusalView,
        >(None),
        data[p] != 0 ==> (iso9660::record_spec(data.skip(p)) is Ok <==> data[p] >= 34 && p + data[p]
            <= data.len() && data[p + 1] == 0 && 33 + data[p + 32] <= data[p]),
        data[p] != 0 && iso9660::record_spec(data.skip(p)) is Ok ==> iso9660::record_spec(
            data.skip(p),
        ) == Ok::<Option<RecordView>, RefusalView>(Some(record_said(data, p))),
{
    let b = data.skip(p);
    assert(b[0] == data[p]);
    if data[p] >= 34 && p + data[p] <= data.len() {
        assert(b[1] == data[p + 1] && b[25] == data[p + 25] && b[32] == data[p + 32]);
        if data[p + 1] == 0 && 33 + data[p + 32] <= data[p] {
            entries::numbers_are_read_from_their_last_byte(data, p + 2);
            entries::numbers_are_read_from_their_last_byte(data, p + 10);
            assert(super::u32_at(b, 2) == super::u32_at(data, p + 2));
            assert(super::u32_at(b, 10) == super::u32_at(data, p + 10));
            let name_end = 33 + data[p + 32];
            assert(b.subrange(33, name_end) =~= data.subrange(p + 33, p + name_end));
            let rest = name_end + (1 - b[32] % 2);
            if rest <= b[0] {
                assert(b.subrange(rest, b[0] as int) =~= data.subrange(p + rest, p + data[p]));
            }
            let said = iso9660::record_spec(b)->Ok_0->0;
            assert(said.system_use =~= record_said(data, p).system_use);
        }
    }
}

proof fn lemma_record_places(data: Seq<u8>, from: int, p: int, rest: Seq<int>)
    requires
        record_here(data, p),
        followed_by(data, from, p),
        records_at(data, record_end(data, p), rest),
    ensures
        records_at(data, from, seq![p] + rest),
{
    reveal(records_at);
    let places = seq![p] + rest;
    assert forall|k: int| 0 <= k < places.len() implies record_here(data, #[trigger] places[k]) by {
        if k > 0 {
            assert(places[k] == rest[k - 1]);
        }
    }
    assert forall|k: int|
        #![trigger places[k + 1]]
        0 <= k < places.len() - 1 implies followed_by(
        data,
        record_end(data, places[k]),
        places[k + 1],
    ) by {
        if k > 0 {
            assert(places[k] == rest[k - 1]);
            assert(followed_by(data, record_end(data, rest[k - 1]), rest[(k - 1) + 1]));
        } else {
            assert(places[1] == rest[0]);
        }
    }
    if rest.len() > 0 {
        assert(places.last() == rest.last());
    } else {
        assert(places.last() == p);
    }
}

/// The records from the start of the next sector on are those from a byte on
/// where the rest of its sector is blank.
proof fn lemma_blank_skipped(data: Seq<u8>, e: int, places: Seq<int>)
    requires
        0 <= e < data.len(),
        data[e] == 0,
        records_at(data, (e / 2048 + 1) * 2048, places),
    ensures
        records_at(data, e, places),
{
    reveal(records_at);
    let next = (e / 2048 + 1) * 2048;
    assert(e < next && next % 2048 == 0);
    assert forall|z: int| e < z < next && #[trigger] (z % 2048) == 0 implies false by {
    }
    if places.len() > 0 {
        let q = places[0];
        assert(record_here(data, places[0]));
        assert forall|z: int| e < z < q && #[trigger] (z % 2048) == 0 implies data[z] == 0 by {
            assert(z >= next);
            if z == next {
                assert(q != next);
            }
        }
    } else {
        assert forall|z: int| e < z < data.len() && #[trigger] (z % 2048) == 0 implies data[z]
            == 0 by {
            assert(z >= next);
        }
    }
}

proof fn lemma_scanned(
    data: Seq<u8>,
    pos: nat,
    tree: Tree,
    path: Seq<char>,
    top: bool,
    s: ScanView,
) -> (places: Seq<int>)
    requires
        iso9660::scan_from(data, pos, tree, path, top, s) is Ok,
    ensures
        records_at(data, pos as int, places),
        added(tree, path, top, s, records_said(data, places)) == iso9660::scan_from(
            data,
            pos,
            tree,
            path,
            top,
            s,
        ),
    decreases (if pos < data.len() { data.len() - pos } else { 0 }),
{
    let none = Seq::<int>::empty();
    if pos >= data.len() {
        reveal(records_at);
        none
    } else {
        a_record_says_what_its_bytes_say(data, pos as int);
        if data[pos as int] == 0 {
            let next = ((pos / 2048 + 1) * 2048) as nat;
            let places = lemma_scanned(data, next, tree, path, top, s);
            lemma_blank_skipped(data, pos as int, places);
            places
        } else {
            let rec = record_said(data, pos as int);
            let mid = iso9660::add_record(tree, rec, path, top, s)->Ok_0;
            let rest = lemma_scanned(data, pos + rec.record_len, tree, path, top, mid);
            let places = seq![pos as int] + rest;
            assert(followed_by(data, pos as int, pos as int));
            lemma_record_places(data, pos as int, pos as int, rest);
            assert(records_said(data, places).skip(1) =~= records_said(data, rest));
            assert(records_said(data, places)[0] == rec);
            places
        }
    }
}

/// Scanning a directory adds every record in it, from its first to its last,
/// in the order they stand in, over all of its sectors.
pub proof fn a_directory_is_all_of_its_records(
    data: Seq<u8>,
    tree: Tree,
    path: Seq<char>,
    top: bool,
    s: ScanView,
) -> (places: Seq<int>)
    requires
        iso9660::scan_from(data, 0, tree, path, top, s) is Ok,
    ensures
        records_at(data, 0, places),
        iso9660::scan_from(data, 0, tree, path, top, s) == added(
            tree,
            path,
            top,
            s,
            records_said(data, places),
        ),
{
    lemma_scanned(data, 0, tree, path, top, s)
}

proof fn lemma_scan_of_part(
    a: Seq<u8>,
    b: Seq<u8>,
    pos: nat,
    tree: Tree,
    path: Seq<char>,
    top: bool,
    s: ScanView,
)
    requires
        a.len() % 2048 == 0,
        pos <= a.len(),
        iso9660::scan_from(a, pos, tree, path, top, s) is Ok,
    ensures
        iso9660::scan_from(a + b, pos, tree, path, top, s) == iso9660::scan_from(
            a + b,
            a.len(),
            tree,
            path,
            top,
            iso9660::scan_from(a, pos, tree, path, top, s)->Ok_0,
        ),
    decreases a.len() - pos,
{
    if pos < a.len() {
        let p = pos as int;
        a_record_says_what_its_bytes_say(a, p);
        a_record_says_what_its_bytes_say(a + b, p);
        assert((a + b)[p] == a[p]);
        if a[p] == 0 {
            let next = ((pos / 2048 + 1) * 2048) as nat;
            assert(next <= a.len());
            lemma_scan_of_part(a, b, next, tree, path, top, s);
        } else {
            assert((a + b)[p + 1] == a[p + 1] && (a + b)[p + 32] == a[p + 32]);
            lemma_said_in_part(a, b, p);
            let rec = record_said(a, p);
            let mid = iso9660::add_record(tree, rec, path, top, s)->Ok_0;
            lemma_scan_of_part(a, b, pos + rec.record_len, tree, path, top, mid);
        }
    }
}

proof fn lemma_said_in_part(a: Seq<u8>, b: Seq<u8>, p: int)
    requires
        0 <= p < a.len(),
        34 <= a[p],
        p + a[p] <= a.len(),
        33 + a[p + 32] <= a[p],
    ensures
        record_said(a + b, p) == record_said(a, p),
{
    let all = a + b;
    assert(all[p] == a[p] && all[p + 32] == a[p + 32] && all[p + 25] == a[p + 25]);
    entries::numbers_are_read_from_their_last_byte(a, p + 2);
    entries::numbers_are_read_from_their_last_byte(a, p + 10);
    entries::numbers_are_read_from_their_last_byte(all, p + 2);
    entries::numbers_are_read_from_their_last_byte(all, p + 10);
    assert(super::u32_at(all, p + 2) == super::u32_at(a, p + 2));
    assert(super::u32_at(all, p + 10) == super::u32_at(a, p + 10));
    assert(record_said(all, p).name =~= record_said(a, p).name);
    assert(record_said(all, p).system_use =~= record_said(a, p).system_use);
}

/// What a record says inside a part of some bytes is what it says where the
/// part lies.
pub proof fn lemma_said_inside(b: Seq<u8>, from: int, to: int)
    requires
        0 <= from,
        to <= b.len(),
        from + 34 <= to,
        34 <= b[from],
        from + b[from] <= to,
        33 + b[from + 32] <= b[from],
    ensures
        record_said(b.subrange(from, to), 0) == record_said(b, from),
{
    let part = b.subrange(from, to);
    assert(part[0] == b[from] && part[32] == b[from + 32] && part[25] == b[from + 25]);
    entries::numbers_are_read_from_their_last_byte(part, 2);
    entries::numbers_are_read_from_their_last_byte(part, 10);
    entries::numbers_are_read_from_their_last_byte(b, from + 2);
    entries::numbers_are_read_from_their_last_byte(b, from + 10);
    assert(super::u32_at(part, 2) == super::u32_at(b, from + 2));
    assert(super::u32_at(part, 10) == super::u32_at(b, from + 10));
    assert(record_said(part, 0).name =~= record_said(b, from).name);
    assert(record_said(part, 0).system_use =~= record_said(b, from).system_use);
}

proof fn lemma_scan_behind(
    a: Seq<u8>,
    b: Seq<u8>,
    pos: nat,
    tree: Tree,
    path: Seq<char>,
    top: bool,
    s: ScanView,
)
    requires
        a.len() % 2048 == 0,
    ensures
        iso9660::scan_from(a + b, a.len() + pos, tree, path, top, s) == iso9660::scan_from(
            b,
            pos,
            tree,
            path,
            top,
            s,
        ),
    decreases (if pos < b.len() { b.len() - pos } else { 0 }),
{
    let all = a + b;
    let at = a.len() + pos;
    if pos < b.len() {
        assert(all.skip(at as int) =~= b.skip(pos as int));
        match iso9660::record_spec(b.skip(pos as int)) {
            Err(_) => {},
            Ok(None) => {
                let next = ((pos / 2048 + 1) * 2048) as nat;
                assert((at / 2048 + 1) * 2048 == a.len() + next);
                lemma_scan_behind(a, b, next, tree, path, top, s);
            },
            Ok(Some(rec)) => {
                if let Ok(mid) = iso9660::add_record(tree, rec, path, top, s) {
                    if rec.record_len > 0 {
                        lemma_scan_behind(a, b, pos + rec.record_len, tree, path, top, mid);
                    }
                }
            },
        }
    }
}

/// A directory of several sectors holds what its sectors hold: scanning
/// whole sectors and then more is scanning the sectors, and then, with what
/// they added, the rest.
pub proof fn a_directory_is_the_sum_of_its_sectors(
    a: Seq<u8>,
    b: Seq<u8>,
    tree: Tree,
    path: Seq<char>,
    top: bool,
    s: ScanView,
)
    requires
        a.len() % 2048 == 0,
        iso9660::scan_from(a, 0, tree, path, top, s) is Ok,
    ensures
        iso9660::scan_from(a + b, 0, tree, path, top, s) == iso9660::scan_from(
            b,
            0,
            tree,
            path,
            top,
            iso9660::scan_from(a, 0, tree, path, top, s)->Ok_0,
        ),
{
    lemma_scan_of_part(a, b, 0, tree, path, top, s);
    lemma_scan_behind(
        a,
        b,
        0,
        tree,
        path,
        top,
        iso9660::scan_from(a, 0, tree, path, top, s)->Ok_0,
    );
}

/// A record at the start of any sector of a directory is one of its records,
/// unless one that starts in a sector before reaches into it.
pub proof fn a_record_at_the_start_of_a_sector_is_taken_in(
    data: Seq<u8>,
    places: Seq<int>,
    q: int,
)
    requires
        records_at(data, 0, places),
        q % 2048 == 0,
        record_here(data, q),
        forall|k: int|
            0 <= k < places.len() && #[trigger] places[k] < q ==> record_end(data, places[k]) <= q,
    ensures
        places.contains(q),
{
    if !places.contains(q) {
        lemma_no_place_before(data, places, q, places.len() as int);
        reveal(records_at);
        if places.len() > 0 {
            let k = places.len() - 1;
            assert(places[k] < q);
            assert(record_end(data, places[k]) <= q);
            let e = record_end(data, places.last());
            if e == q {
                assert(data[e] == 0);
            } else {
                assert(q % 2048 == 0);
            }
        } else if q > 0 {
            assert(q % 2048 == 0);
        }
        assert(false);
    }
}

proof fn lemma_no_place_before(data: Seq<u8>, places: Seq<int>, q: int, n: int)
    requires
        records_at(data, 0, places),
        q % 2048 == 0,
        record_here(data, q),
        forall|k: int|
            0 <= k < places.len() && #[trigger] places[k] < q ==> record_end(data, places[k]) <= q,
        !places.contains(q),
        0 <= n <= places.len(),
    ensures
        forall|k: int| 0 <= k < n ==> #[trigger] places[k] < q,
    decreases n,
{
    if n > 0 {
        lemma_no_place_before(data, places, q, n - 1);
        reveal(records_at);
        let p = places[n - 1];
        if n - 1 > 0 {
            let before = places[n - 2];
            assert(before < q);
            let e = record_end(data, before);
            assert(e <= q);
            assert(followed_by(data, e, places[(n - 2) + 1]));
            if p > q {
                if p == e {
                } else {
                    if e == q {
                        assert(data[e] == 0);
                    } else {
                        assert(sectors_blank(data, e, p));
                        assert(q % 2048 == 0);
                    }
                }
                assert(false);
            }
        } else {
            if p > q {
                if q == 0 {
                    assert(data[0] == 0);
                } else {
                    assert(sectors_blank(data, 0, p));
                    assert(q % 2048 == 0);
                }
                assert(false);
            }
        }
        assert(p != q) by {
            if p == q {
                assert(places.contains(q));
            }
        }
    }
}

// ---------------------------------------------------------------------
// What records list

/// Whether a record stands for the directory itself or its parent: its name
/// is one byte, zero or one.
pub open spec fn stands_for_itself(rec: RecordView) -> bool {
    rec.name =~= seq![0u8] || rec.name =~= seq![1u8]
}

/// How many bytes of a system use area are skipped behind a record: what the
/// first record of the root directory for itself or its parent states that
/// states any.
pub open spec fn skip_behind(rec: RecordView, top: bool, skip: nat) -> nat {
    if top && skip == 0 && stands_for_itself(rec) {
        iso9660::sp_skip(iso9660::entries_spec(rec.system_use, 0))
    } else {
        skip
    }
}

/// How many bytes of a system use area are skipped behind some records.
pub open spec fn skip_behind_all(records: Seq<RecordView>, top: bool, skip: nat) -> nat
    decreases records.len(),
{
    if records.len() == 0 {
        skip
    } else {
        skip_behind_all(records.skip(1), top, skip_behind(records[0], top, skip))
    }
}

/// Records with how many bytes of each one's system use area are skipped.
pub open spec fn with_skips(records: Seq<RecordView>, top: bool, skip: nat) -> Seq<
    (RecordView, nat),
>
    decreases records.len(),
{
    if records.len() == 0 {
        Seq::empty()
    } else {
        seq![(records[0], skip)] + with_skips(
            records.skip(1),
            top,
            skip_behind(records[0], top, skip),
        )
    }
}

/// The path of what a record names in a directory.
pub open spec fn path_below(path: Seq<char>, tree: Tree, rec: (RecordView, nat)) -> Seq<char> {
    path + seq!['/'] + iso9660::best_name(rec.0, tree.joliet, rec.1).0
}

/// The directory that a record names, if it names one.
pub open spec fn directory_of(path: Seq<char>, tree: Tree, rec: (RecordView, nat)) -> Option<
    (RecordView, Seq<char>),
> {
    if !stands_for_itself(rec.0) && rec.0.is_dir {
        Some((rec.0, path_below(path, tree, rec)))
    } else {
        None
    }
}

/// The piece of a file that a record names, if it names one: under which
/// path, and where it lies.
pub open spec fn piece_of(path: Seq<char>, tree: Tree, rec: (RecordView, nat)) -> Option<
    (Seq<char>, Extent),
> {
    if !stands_for_itself(rec.0) && !rec.0.is_dir {
        Some(
            (
                path_below(path, tree, rec),
                Extent {
                    offset: (rec.0.lba * tree.block_size) as u64,
                    len: rec.0.data_len as u64,
                },
            ),
        )
    } else {
        None
    }
}

/// The directories that records name, in their order.
#[verifier::opaque]
pub open spec fn directories_of(path: Seq<char>, tree: Tree, records: Seq<(RecordView, nat)>) -> Seq<
    (RecordView, Seq<char>),
> {
    records.filter_map(|r: (RecordView, nat)| directory_of(path, tree, r))
}

/// The pieces of files that records name, in their order.
#[verifier::opaque]
pub open spec fn pieces_of(path: Seq<char>, tree: Tree, records: Seq<(RecordView, nat)>) -> Seq<
    (Seq<char>, Extent),
> {
    records.filter_map(|r: (RecordView, nat)| piece_of(path, tree, r))
}

/// The pieces that a file lies in.
pub open spec fn pieces(f: FileView) -> Seq<(Seq<char>, Extent)> {
    f.extents.map_values(|e: Extent| (f.path, e))
}

/// The pieces that files lie in, one file after the other.
#[verifier::opaque]
pub open spec fn all_pieces(files: Seq<FileView>) -> Seq<(Seq<char>, Extent)> {
    files.map_values(|f: FileView| pieces(f)).flatten()
}

/// The pieces of a file that is not done.
pub open spec fn open_pieces(pending: Option<PendingView>) -> Seq<(Seq<char>, Extent)> {
    match pending {
        None => Seq::empty(),
        Some(p) => p.extents.map_values(|e: Extent| (p.path, e)),
    }
}

proof fn lemma_pieces_push(files: Seq<FileView>, f: FileView)
    ensures
        all_pieces(files.push(f)) == all_pieces(files) + pieces(f),
        all_pieces(Seq::empty()) == Seq::<(Seq<char>, Extent)>::empty(),
    decreases files.len(),
{
    reveal(all_pieces);
    let g = |f: FileView| pieces(f);
    let all = files.push(f);
    if files.len() == 0 {
        assert(all.map_values(g).drop_first() =~= Seq::empty());
        assert(all.map_values(g).first() == pieces(f));
        assert(Seq::<Seq<(Seq<char>, Extent)>>::empty().flatten() =~= Seq::empty());
        assert(all_pieces(all) =~= all_pieces(files) + pieces(f));
    } else {
        let rest = files.drop_first();
        lemma_pieces_push(rest, f);
        assert(all.map_values(g).drop_first() =~= rest.push(f).map_values(g));
        assert(files.map_values(g).drop_first() =~= rest.map_values(g));
        assert(all.map_values(g).first() == files.map_values(g).first());
        listing::lemma_behind(
            files.map_values(g).first(),
            all_pieces(rest),
            pieces(f),
        );
    }
}

/// Finishing a file keeps its pieces.
proof fn lemma_finished(pending: Option<PendingView>, files: Seq<FileView>)
    ensures
        iso9660::finish_spec(pending, files) matches Ok(done) ==> all_pieces(done) == all_pieces(
            files,
        ) + open_pieces(pending),
{
    if let Some(p) = pending {
        let f = FileView {
            path: p.path,
            len: super::total_len(p.extents),
            extents: p.extents,
        };
        lemma_pieces_push(files, f);
        assert(pieces(f) =~= open_pieces(pending));
    } else {
        listing::lemma_behind(all_pieces(files), Seq::empty(), Seq::empty());
    }
}

/// A piece, where there is one.
pub open spec fn optional_piece(p: Option<(Seq<char>, Extent)>) -> Seq<(Seq<char>, Extent)> {
    match p {
        Some(p) => seq![p],
        None => Seq::empty(),
    }
}

proof fn lemma_file_added(tree: Tree, rec: RecordView, path: Seq<char>, s: ScanView)
    ensures
        iso9660::add_file(tree, rec, path, s) matches Ok(t) ==> {
            &&& all_pieces(t.gathered.files) + open_pieces(t.pending) == all_pieces(
                s.gathered.files,
            ) + open_pieces(s.pending) + seq![
                (
                    path,
                    Extent {
                        offset: (rec.lba * tree.block_size) as u64,
                        len: rec.data_len as u64,
                    },
                ),
            ]
            &&& t.subdirs == s.subdirs
            &&& t.gathered.su_skip == s.gathered.su_skip
        },
{
    let e = Extent { offset: (rec.lba * tree.block_size) as u64, len: rec.data_len as u64 };
    let one = seq![(path, e)];
    if let Ok(t) = iso9660::add_file(tree, rec, path, s) {
        let (files, pending) = match s.pending {
            Some(p) if p.path == path => (
                s.gathered.files,
                PendingView { path, extents: p.extents.push(e) },
            ),
            _ => (
                iso9660::finish_spec(s.pending, s.gathered.files)->Ok_0,
                PendingView { path, extents: seq![e] },
            ),
        };
        lemma_finished(s.pending, s.gathered.files);
        lemma_finished(Some(pending), files);
        let before = all_pieces(s.gathered.files);
        let open = open_pieces(s.pending);
        if s.pending is Some && s.pending->0.path == path {
            assert(open_pieces(Some(pending)) =~= open + one);
            listing::lemma_behind(before, open, one);
        } else {
            assert(open_pieces(Some(pending)) =~= one);
        }
        assert(all_pieces(files) + open_pieces(Some(pending)) == before + open + one);
        if !rec.more_extents {
            listing::lemma_behind(before + open + one, Seq::empty(), Seq::empty());
        }
    }
}

proof fn lemma_record_added(
    tree: Tree,
    rec: RecordView,
    path: Seq<char>,
    top: bool,
    s: ScanView,
)
    ensures
        iso9660::add_record(tree, rec, path, top, s) matches Ok(t) ==> {
            let r = (rec, s.gathered.su_skip);
            &&& all_pieces(t.gathered.files) + open_pieces(t.pending) == all_pieces(
                s.gathered.files,
            ) + open_pieces(s.pending) + optional_piece(piece_of(path, tree, r))
            &&& t.subdirs == s.subdirs + (match directory_of(path, tree, r) {
                Some(d) => seq![d],
                None => Seq::empty(),
            })
            &&& t.gathered.su_skip == skip_behind(rec, top, s.gathered.su_skip)
        },
{
    reveal_strlit("/");
    assert("/"@ =~= seq!['/']);
    assert(iso9660::is_dot(rec) == stands_for_itself(rec)) by {
        if iso9660::is_dot(rec) {
            assert(rec.name =~= seq![rec.name[0]]);
        }
    }
    let before = all_pieces(s.gathered.files) + open_pieces(s.pending);
    listing::lemma_behind(before, Seq::empty(), Seq::empty());
    listing::lemma_behind(s.subdirs, Seq::empty(), Seq::empty());
    if let Ok(t) = iso9660::add_record(tree, rec, path, top, s) {
        if !iso9660::is_dot(rec) {
            let (name, rock_ridge) = iso9660::best_name(rec, tree.joliet, s.gathered.su_skip);
            let child = path + "/"@ + name;
            let gathered = Gathered {
                rock_ridge: s.gathered.rock_ridge || rock_ridge,
                ..s.gathered
            };
            if rec.is_dir {
                lemma_finished(s.pending, gathered.files);
                assert(s.subdirs.push((rec, child)) =~= s.subdirs + seq![(rec, child)]);
            } else {
                lemma_file_added(tree, rec, child, ScanView { gathered, ..s });
            }
        }
    }
}

proof fn lemma_listed(
    path: Seq<char>,
    tree: Tree,
    r: (RecordView, nat),
    rest: Seq<(RecordView, nat)>,
)
    ensures
        pieces_of(path, tree, seq![r] + rest) == optional_piece(piece_of(path, tree, r))
            + pieces_of(path, tree, rest),
        directories_of(path, tree, seq![r] + rest) == (match directory_of(path, tree, r) {
            Some(d) => seq![d],
            None => Seq::empty(),
        }) + directories_of(path, tree, rest),
        pieces_of(path, tree, Seq::empty()) == Seq::<(Seq<char>, Extent)>::empty(),
        directories_of(path, tree, Seq::empty()) == Seq::<(RecordView, Seq<char>)>::empty(),
{
    reveal(pieces_of);
    reveal(directories_of);
    let f = |r: (RecordView, nat)| piece_of(path, tree, r);
    let d = |r: (RecordView, nat)| directory_of(path, tree, r);
    listing::lemma_kept(seq![r], rest, f);
    listing::lemma_kept(seq![r], rest, d);
    listing::lemma_kept_one(r, f);
    listing::lemma_kept_one(r, d);
}

/// Adding records keeps every piece of a file and every directory that they
/// name, in their order, behind what was gathered before; and adds nothing
/// else.
pub proof fn records_add_what_they_name(
    tree: Tree,
    path: Seq<char>,
    top: bool,
    s: ScanView,
    records: Seq<RecordView>,
)
    ensures
        added(tree, path, top, s, records) matches Ok(t) ==> {
            let listed = with_skips(records, top, s.gathered.su_skip);
            &&& all_pieces(t.gathered.files) + open_pieces(t.pending) == all_pieces(
                s.gathered.files,
            ) + open_pieces(s.pending) + pieces_of(path, tree, listed)
            &&& t.subdirs == s.subdirs + directories_of(path, tree, listed)
            &&& t.gathered.su_skip == skip_behind_all(records, top, s.gathered.su_skip)
        },
    decreases records.len(),
{
    let none = Seq::<(RecordView, nat)>::empty();
    let before = all_pieces(s.gathered.files) + open_pieces(s.pending);
    if records.len() == 0 {
        lemma_listed(path, tree, (arbitrary(), 0), none);
        listing::lemma_behind(before, Seq::empty(), Seq::empty());
        listing::lemma_behind(s.subdirs, Seq::empty(), Seq::empty());
    } else if let Ok(mid) = iso9660::add_record(tree, records[0], path, top, s) {
        let rec = records[0];
        let r = (rec, s.gathered.su_skip);
        let rest = records.skip(1);
        let more = with_skips(rest, top, mid.gathered.su_skip);
        lemma_record_added(tree, rec, path, top, s);
        records_add_what_they_name(tree, path, top, mid, rest);
        lemma_listed(path, tree, r, more);
        let d: Seq<(RecordView, Seq<char>)> = match directory_of(path, tree, r) {
            Some(d) => seq![d],
            None => Seq::empty(),
        };
        listing::lemma_behind(
            before,
            optional_piece(piece_of(path, tree, r)),
            pieces_of(path, tree, more),
        );
        listing::lemma_behind(s.subdirs, d, directories_of(path, tree, more));
    }
}

// ---------------------------------------------------------------------
// Files

/// A record that is the only one of its file is one file: with its path, its
/// length and its one extent, behind the files gathered before.
pub proof fn a_single_record_is_one_file(
    tree: Tree,
    rec: RecordView,
    path: Seq<char>,
    top: bool,
    s: ScanView,
)
    requires
        s.pending is None,
        piece_of(path, tree, (rec, s.gathered.su_skip)) is Some,
        !rec.more_extents,
    ensures
        iso9660::add_record(tree, rec, path, top, s) matches Ok(t) ==> {
            let (at, e) = piece_of(path, tree, (rec, s.gathered.su_skip))->0;
            &&& t.pending is None
            &&& t.gathered.files == s.gathered.files.push(
                FileView { path: at, len: rec.data_len as nat, extents: seq![e] },
            )
        },
{
    reveal_strlit("/");
    assert("/"@ =~= seq!['/']);
    assert(iso9660::is_dot(rec) == stands_for_itself(rec)) by {
        if iso9660::is_dot(rec) {
            assert(rec.name =~= seq![rec.name[0]]);
        }
    }
    let e = Extent { offset: (rec.lba * tree.block_size) as u64, len: rec.data_len as u64 };
    assert(seq![e].skip(1) =~= Seq::empty());
    reveal_with_fuel(super::total_len, 3);
    assert(super::total_len(seq![e]) == rec.data_len);
}

/// A record that says its file goes on opens it, or adds to it where the
/// record before it is of the same file; a record of that file that does not
/// say so ends it, and the file lies in the extents of all of them, in their
/// order.
pub proof fn records_of_one_file_are_one_file(
    tree: Tree,
    rec: RecordView,
    path: Seq<char>,
    top: bool,
    s: ScanView,
    so_far: Seq<Extent>,
)
    requires
        piece_of(path, tree, (rec, s.gathered.su_skip)) is Some,
        s.pending == Some(
            PendingView {
                path: path_below(path, tree, (rec, s.gathered.su_skip)),
                extents: so_far,
            },
        ),
    ensures
        iso9660::add_record(tree, rec, path, top, s) matches Ok(t) ==> {
            let (at, e) = piece_of(path, tree, (rec, s.gathered.su_skip))->0;
            &&& rec.more_extents ==> t.gathered.files == s.gathered.files && t.pending == Some(
                PendingView { path: at, extents: so_far.push(e) },
            )
            &&& !rec.more_extents ==> t.pending is None && t.gathered.files
                == s.gathered.files.push(
                FileView {
                    path: at,
                    len: super::total_len(so_far.push(e)),
                    extents: so_far.push(e),
                },
            )
        },
{
    reveal_strlit("/");
    assert("/"@ =~= seq!['/']);
    assert(iso9660::is_dot(rec) == stands_for_itself(rec)) by {
        if iso9660::is_dot(rec) {
            assert(rec.name =~= seq![rec.name[0]]);
        }
    }
}

/// A file that is not done is done where another file's record follows, or a
/// directory's: it is the next of the files, with the extents it has.
pub proof fn another_name_ends_a_file(
    tree: Tree,
    rec: RecordView,
    path: Seq<char>,
    top: bool,
    s: ScanView,
    before: PendingView,
)
    requires
        s.pending == Some(before),
        !stands_for_itself(rec),
        rec.is_dir || path_below(path, tree, (rec, s.gathered.su_skip)) != before.path,
    ensures
        iso9660::add_record(tree, rec, path, top, s) matches Ok(t) ==> {
            let n = s.gathered.files.len() as int;
            let (at, e) = piece_of(path, tree, (rec, s.gathered.su_skip))->0;
            &&& t.gathered.files.len() > n
            &&& t.gathered.files.take(n + 1) == s.gathered.files.push(
                FileView {
                    path: before.path,
                    len: super::total_len(before.extents),
                    extents: before.extents,
                },
            )
            &&& rec.is_dir ==> t.gathered.files.len() == n + 1 && t.pending is None
            &&& !rec.is_dir && rec.more_extents ==> t.gathered.files.len() == n + 1 && t.pending
                == Some(PendingView { path: at, extents: seq![e] })
            &&& !rec.is_dir && !rec.more_extents ==> t.pending is None && t.gathered.files.len()
                == n + 2 && t.gathered.files[n + 1].path == at && t.gathered.files[n + 1].extents
                == seq![e]
        },
{
    reveal_strlit("/");
    assert("/"@ =~= seq!['/']);
    assert(iso9660::is_dot(rec) == stands_for_itself(rec)) by {
        if iso9660::is_dot(rec) {
            assert(rec.name =~= seq![rec.name[0]]);
        }
    }
    if let Ok(t) = iso9660::add_record(tree, rec, path, top, s) {
        let n = s.gathered.files.len() as int;
        let f = FileView {
            path: before.path,
            len: super::total_len(before.extents),
            extents: before.extents,
        };
        assert(t.gathered.files.take(n + 1) =~= s.gathered.files.push(f));
    }
}

// ---------------------------------------------------------------------
// The tree

proof fn lemma_one_follows(data: Seq<u8>, e: int, a: int, b: int)
    requires
        followed_by(data, e, a),
        followed_by(data, e, b),
        record_here(data, a),
        record_here(data, b),
    ensures
        a == b,
        !followed_by_none(data, e),
{
    if a != e && b != e {
        if a < b {
            assert(a % 2048 == 0);
            assert(data[a] == 0);
        } else if b < a {
            assert(b % 2048 == 0);
            assert(data[b] == 0);
        }
    }
    if followed_by_none(data, e) {
        if a != e {
            assert(a % 2048 == 0);
            assert(data[a] == 0);
        }
    }
}

proof fn lemma_same_record(data: Seq<u8>, from: int, a: Seq<int>, b: Seq<int>, k: int)
    requires
        records_at(data, from, a),
        records_at(data, from, b),
        0 <= k < a.len(),
        k < b.len(),
    ensures
        a[k] == b[k],
    decreases k,
{
    reveal(records_at);
    assert(record_here(data, a[k]) && record_here(data, b[k]));
    if k > 0 {
        lemma_same_record(data, from, a, b, k - 1);
        let e = record_end(data, a[k - 1]);
        assert(followed_by(data, e, a[(k - 1) + 1]));
        assert(followed_by(data, e, b[(k - 1) + 1]));
        lemma_one_follows(data, e, a[k], b[k]);
    } else {
        lemma_one_follows(data, from, a[0], b[0]);
    }
}

/// The records of a directory stand in one list of places only.
proof fn lemma_one_record_list(data: Seq<u8>, from: int, a: Seq<int>, b: Seq<int>)
    requires
        records_at(data, from, a),
        records_at(data, from, b),
    ensures
        a == b,
{
    assert forall|k: int| 0 <= k < a.len() && k < b.len() implies a[k] == b[k] by {
        lemma_same_record(data, from, a, b, k);
    }
    lemma_no_longer(data, from, a, b);
    lemma_no_longer(data, from, b, a);
    assert(a =~= b);
}

proof fn lemma_no_longer(data: Seq<u8>, from: int, a: Seq<int>, b: Seq<int>)
    requires
        records_at(data, from, a),
        records_at(data, from, b),
    ensures
        a.len() >= b.len(),
{
    if a.len() < b.len() {
        reveal(records_at);
        let q = b[a.len() as int];
        assert(record_here(data, b[a.len() as int]));
        if a.len() > 0 {
            let k = a.len() - 1;
            lemma_same_record(data, from, a, b, k);
            assert(followed_by(data, record_end(data, b[k]), b[k + 1]));
            lemma_one_follows(data, record_end(data, b[k]), q, q);
        } else {
            lemma_one_follows(data, from, q, q);
        }
        assert(false);
    }
}

/// The bytes of a directory: they lie at its block, as many as its record
/// says.
pub open spec fn bytes_of(image: Image, tree: Tree, dir: RecordView) -> Seq<u8> {
    if dir.data_len == 0 {
        Seq::empty()
    } else {
        image.bytes.subrange(
            dir.lba * tree.block_size as int,
            dir.lba * tree.block_size + dir.data_len,
        )
    }
}

/// What the records of a directory say, in the order they stand in.
#[verifier::opaque]
pub open spec fn records_of(image: Image, tree: Tree, dir: RecordView) -> Seq<RecordView> {
    let data = bytes_of(image, tree, dir);
    records_said(data, choose|places: Seq<int>| records_at(data, 0, places))
}

/// The pieces of all files in a directory and below it: those that its own
/// records name, and then those below each directory that they name.
#[verifier::opaque]
pub open spec fn pieces_below(
    image: Image,
    tree: Tree,
    dir: RecordView,
    path: Seq<char>,
    depth: nat,
    skip: nat,
) -> Seq<(Seq<char>, Extent)>
    decreases 65 - depth, 0nat,
{
    if depth > 64 {
        Seq::empty()
    } else {
        let records = records_of(image, tree, dir);
        let listed = with_skips(records, depth == 0, skip);
        pieces_of(path, tree, listed) + pieces_below_all(
            image,
            tree,
            directories_of(path, tree, listed),
            depth + 1,
            skip_behind_all(records, depth == 0, skip),
        )
    }
}

/// The pieces of all files in and below several directories, one directory
/// after the other.
#[verifier::opaque]
pub open spec fn pieces_below_all(
    image: Image,
    tree: Tree,
    dirs: Seq<(RecordView, Seq<char>)>,
    depth: nat,
    skip: nat,
) -> Seq<(Seq<char>, Extent)>
    decreases 65 - depth, dirs.len() + 1,
{
    if depth > 64 || dirs.len() == 0 {
        Seq::empty()
    } else {
        pieces_below(image, tree, dirs[0].0, dirs[0].1, depth, skip) + pieces_below_all(
            image,
            tree,
            dirs.skip(1),
            depth,
            skip,
        )
    }
}

/// What the bytes of a directory add to a walk.
proof fn lemma_scan_adds(
    image: Image,
    tree: Tree,
    dir: RecordView,
    path: Seq<char>,
    top: bool,
    gathered: Gathered,
    data: Seq<u8>,
)
    requires
        data == bytes_of(image, tree, dir),
    ensures
        iso9660::scan_spec(data, tree, path, top, gathered) matches Ok((g, subdirs)) ==> {
            let records = records_of(image, tree, dir);
            let listed = with_skips(records, top, gathered.su_skip);
            &&& all_pieces(g.files) == all_pieces(gathered.files) + pieces_of(path, tree, listed)
            &&& subdirs == directories_of(path, tree, listed)
            &&& g.su_skip == skip_behind_all(records, top, gathered.su_skip)
        },
{
    let s = ScanView { gathered, pending: None, subdirs: Seq::empty() };
    if iso9660::scan_spec(data, tree, path, top, gathered) is Ok {
        let places = lemma_scanned(data, 0, tree, path, top, s);
        let records = records_of(image, tree, dir);
        reveal(records_of);
        lemma_one_record_list(
            data,
            0,
            places,
            choose|places: Seq<int>| records_at(data, 0, places),
        );
        let t = iso9660::scan_from(data, 0, tree, path, top, s)->Ok_0;
        records_add_what_they_name(tree, path, top, s, records);
        lemma_finished(t.pending, t.gathered.files);
        listing::lemma_behind(all_pieces(gathered.files), Seq::empty(), Seq::empty());
        listing::lemma_behind(
            directories_of(path, tree, with_skips(records, top, gathered.su_skip)),
            Seq::empty(),
            Seq::empty(),
        );
    }
}

/// What a walk does with one directory.
proof fn lemma_iso_step(
    image: Image,
    tree: Tree,
    dir: RecordView,
    path: Seq<char>,
    depth: nat,
    visited: Seq<u32>,
    gathered: Gathered,
    used: nat,
) -> (step: (Gathered, nat))
    requires
        iso9660::walk_spec(image, tree, dir, path, depth, visited, gathered, used) is Ok,
    ensures
        depth <= 64,
        ({
            let records = records_of(image, tree, dir);
            let listed = with_skips(records, depth == 0, gathered.su_skip);
            let (g, n) = step;
            &&& all_pieces(g.files) == all_pieces(gathered.files) + pieces_of(path, tree, listed)
            &&& g.su_skip == skip_behind_all(records, depth == 0, gathered.su_skip)
            &&& iso9660::walk_spec(image, tree, dir, path, depth, visited, gathered, used)
                == iso9660::walk_all(
                image,
                tree,
                directories_of(path, tree, listed),
                depth + 1,
                visited.push(dir.lba),
                g,
                n,
            )
        }),
{
    let at = (dir.lba * tree.block_size) as nat;
    assert(0 <= dir.lba * tree.block_size) by (nonlinear_arith)
        requires
            0 <= dir.lba,
            0 <= tree.block_size,
    ;
    let data = super::read_spec(image, iso9660::FORMAT@, used, at, dir.data_len as nat)->Ok_0;
    assert(data == bytes_of(image, tree, dir));
    lemma_scan_adds(image, tree, dir, path, depth == 0, gathered, data);
    let (g, subdirs) = iso9660::scan_spec(data, tree, path, depth == 0, gathered)->Ok_0;
    (g, used + dir.data_len as nat)
}

/// Walking a directory.
#[verifier::opaque]
spec fn walked(
    image: Image,
    tree: Tree,
    dir: RecordView,
    path: Seq<char>,
    depth: nat,
    visited: Seq<u32>,
    gathered: Gathered,
    used: nat,
) -> Result<(Gathered, nat), RefusalView> {
    iso9660::walk_spec(image, tree, dir, path, depth, visited, gathered, used)
}

/// Walking several directories.
#[verifier::opaque]
spec fn all_walked(
    image: Image,
    tree: Tree,
    dirs: Seq<(RecordView, Seq<char>)>,
    depth: nat,
    visited: Seq<u32>,
    gathered: Gathered,
    used: nat,
) -> Result<(Gathered, nat), RefusalView> {
    iso9660::walk_all(image, tree, dirs, depth, visited, gathered, used)
}

proof fn lemma_walked_step(
    image: Image,
    tree: Tree,
    dir: RecordView,
    path: Seq<char>,
    depth: nat,
    visited: Seq<u32>,
    gathered: Gathered,
    used: nat,
) -> (step: (Gathered, nat))
    requires
        walked(image, tree, dir, path, depth, visited, gathered, used) is Ok,
    ensures
        depth <= 64,
        ({
            let records = records_of(image, tree, dir);
            let listed = with_skips(records, depth == 0, gathered.su_skip);
            let (g, n) = step;
            &&& all_pieces(g.files) == all_pieces(gathered.files) + pieces_of(path, tree, listed)
            &&& g.su_skip == skip_behind_all(records, depth == 0, gathered.su_skip)
            &&& walked(image, tree, dir, path, depth, visited, gathered, used) == all_walked(
                image,
                tree,
                directories_of(path, tree, listed),
                depth + 1,
                visited.push(dir.lba),
                g,
                n,
            )
        }),
{
    reveal(walked);
    reveal(all_walked);
    lemma_iso_step(image, tree, dir, path, depth, visited, gathered, used)
}

proof fn lemma_all_walked_step(
    image: Image,
    tree: Tree,
    dirs: Seq<(RecordView, Seq<char>)>,
    depth: nat,
    visited: Seq<u32>,
    gathered: Gathered,
    used: nat,
)
    ensures
        all_walked(image, tree, dirs, depth, visited, gathered, used) == (if dirs.len() == 0 {
            Ok((gathered, used))
        } else {
            match walked(image, tree, dirs[0].0, dirs[0].1, depth, visited, gathered, used) {
                Err(e) => Err(e),
                Ok((g, n)) => all_walked(image, tree, dirs.skip(1), depth, visited, g, n),
            }
        }),
{
    reveal(walked);
    reveal(all_walked);
}

proof fn lemma_below(
    image: Image,
    tree: Tree,
    dir: RecordView,
    path: Seq<char>,
    depth: nat,
    skip: nat,
    dirs: Seq<(RecordView, Seq<char>)>,
)
    requires
        depth <= 64,
    ensures
        ({
            let records = records_of(image, tree, dir);
            let listed = with_skips(records, depth == 0, skip);
            pieces_below(image, tree, dir, path, depth, skip) == pieces_of(path, tree, listed)
                + pieces_below_all(
                image,
                tree,
                directories_of(path, tree, listed),
                depth + 1,
                skip_behind_all(records, depth == 0, skip),
            )
        }),
        pieces_below_all(image, tree, dirs, depth, skip) == (if dirs.len() == 0 {
            Seq::empty()
        } else {
            pieces_below(image, tree, dirs[0].0, dirs[0].1, depth, skip) + pieces_below_all(
                image,
                tree,
                dirs.skip(1),
                depth,
                skip,
            )
        }),
        pieces_below_all(image, tree, Seq::empty(), depth + 1, skip) == Seq::<
            (Seq<char>, Extent),
        >::empty(),
{
    reveal_with_fuel(pieces_below, 1);
    reveal_with_fuel(pieces_below_all, 1);
}

proof fn lemma_no_skip_below(records: Seq<RecordView>, skip: nat)
    ensures
        skip_behind_all(records, false, skip) == skip,
    decreases records.len(),
{
    if records.len() > 0 {
        lemma_no_skip_below(records.skip(1), skip);
    }
}

proof fn lemma_walk_pieces(
    image: Image,
    tree: Tree,
    dir: RecordView,
    path: Seq<char>,
    depth: nat,
    visited: Seq<u32>,
    gathered: Gathered,
    used: nat,
)
    ensures
        walked(image, tree, dir, path, depth, visited, gathered, used) matches Ok((g, _))
            ==> all_pieces(g.files) == all_pieces(gathered.files) + pieces_below(
            image,
            tree,
            dir,
            path,
            depth,
            gathered.su_skip,
        ) && (depth > 0 ==> g.su_skip == gathered.su_skip),
    decreases 65 - depth, 0nat,
{
    if walked(image, tree, dir, path, depth, visited, gathered, used) is Ok {
        let (g, n) = lemma_walked_step(
            image,
            tree,
            dir,
            path,
            depth,
            visited,
            gathered,
            used,
        );
        let records = records_of(image, tree, dir);
        let listed = with_skips(records, depth == 0, gathered.su_skip);
        let dirs = directories_of(path, tree, listed);
        let skip = skip_behind_all(records, depth == 0, gathered.su_skip);
        lemma_below(image, tree, dir, path, depth, gathered.su_skip, dirs);
        lemma_walk_all_pieces(image, tree, dirs, depth + 1, visited.push(dir.lba), g, n);
        listing::lemma_behind(
            all_pieces(gathered.files),
            pieces_of(path, tree, listed),
            pieces_below_all(image, tree, dirs, depth + 1, skip),
        );
        lemma_no_skip_below(records, gathered.su_skip);
    }
}

proof fn lemma_walk_all_pieces(
    image: Image,
    tree: Tree,
    dirs: Seq<(RecordView, Seq<char>)>,
    depth: nat,
    visited: Seq<u32>,
    gathered: Gathered,
    used: nat,
)
    requires
        0 < depth <= 65,
    ensures
        all_walked(image, tree, dirs, depth, visited, gathered, used) matches Ok((g, _))
            ==> all_pieces(g.files) == all_pieces(gathered.files) + pieces_below_all(
            image,
            tree,
            dirs,
            depth,
            gathered.su_skip,
        ) && g.su_skip == gathered.su_skip,
    decreases 65 - depth, dirs.len() + 1,
{
    lemma_all_walked_step(image, tree, dirs, depth, visited, gathered, used);
    let before = all_pieces(gathered.files);
    if all_walked(image, tree, dirs, depth, visited, gathered, used) is Ok {
        if dirs.len() == 0 {
            assert(dirs =~= Seq::empty());
            lemma_below(image, tree, arbitrary(), arbitrary(), (depth - 1) as nat, gathered.su_skip, dirs);
            listing::lemma_behind(before, Seq::empty(), Seq::empty());
        } else {
            let (dir, path) = dirs[0];
            if depth > 64 {
                let (_, _) = lemma_walked_step(
                    image,
                    tree,
                    dir,
                    path,
                    depth,
                    visited,
                    gathered,
                    used,
                );
            } else {
                lemma_walk_pieces(image, tree, dir, path, depth, visited, gathered, used);
                let (mid, at) = walked(
                    image,
                    tree,
                    dir,
                    path,
                    depth,
                    visited,
                    gathered,
                    used,
                )->Ok_0;
                lemma_walk_all_pieces(image, tree, dirs.skip(1), depth, visited, mid, at);
                lemma_below(image, tree, dir, path, depth, gathered.su_skip, dirs);
                listing::lemma_behind(
                    before,
                    pieces_below(image, tree, dir, path, depth, gathered.su_skip),
                    pieces_below_all(image, tree, dirs.skip(1), depth, gathered.su_skip),
                );
            }
        }
    }
}

/// An ISO 9660 index holds the pieces of all files in and below the root
/// directory: every record of every directory has its part, under the path
/// of its directory, a `/` and its name, in the order they are walked in,
/// each once, and there is no other.
pub proof fn every_piece_below_the_root_is_indexed(
    image: Image,
    d: iso9660::DescriptorsView,
    volume: iso9660::VolumeView,
)
    requires
        iso9660::index_spec(image) is Ok,
        iso9660::descriptors_from(image, 0, false, None, None, 0) == Ok::<
            iso9660::DescriptorsView,
            RefusalView,
        >(d),
        d.joliet == Some(volume) || (d.joliet is None && d.primary == Some(volume)),
    ensures
        all_pieces(iso9660::index_spec(image)->Ok_0.files) == pieces_below(
            image,
            Tree { block_size: volume.block_size, joliet: d.joliet is Some },
            volume.root,
            Seq::empty(),
            0,
            0,
        ),
{
    let tree = Tree { block_size: volume.block_size, joliet: d.joliet is Some };
    let start = Gathered { rock_ridge: false, su_skip: 0, files: Seq::empty() };
    let root = volume.root;
    lemma_walk_pieces(image, tree, root, Seq::empty(), 0, Seq::empty(), start, d.used);
    reveal(walked);
    lemma_pieces_push(Seq::empty(), arbitrary());
    listing::lemma_behind(
        pieces_below(image, tree, root, Seq::empty(), 0, 0),
        Seq::empty(),
        Seq::empty(),
    );
}

// ---------------------------------------------------------------------
// What is refused

/// A record is refused for its name, or for one file too many, and for
/// nothing else: where no file is open, a directory with a good name is
/// always taken in, and a file where there are fewer than 65536.
pub proof fn a_record_is_refused_only_for_these(
    tree: Tree,
    rec: RecordView,
    path: Seq<char>,
    top: bool,
    s: ScanView,
)
    requires
        s.pending is None,
        s.gathered.files.len() <= 65536,
    ensures
        ({
            let name = iso9660::best_name(rec, tree.joliet, s.gathered.su_skip).0;
            iso9660::add_record(tree, rec, path, top, s) is Ok <==> stands_for_itself(rec) || (
            !iso9660::is_bad_name(name) && (rec.is_dir || rec.more_extents
                || s.gathered.files.len() < 65536))
        }),
{
    assert(iso9660::is_dot(rec) == stands_for_itself(rec)) by {
        if iso9660::is_dot(rec) {
            assert(rec.name =~= seq![rec.name[0]]);
        }
    }
    let e = Extent { offset: (rec.lba * tree.block_size) as u64, len: rec.data_len as u64 };
    assert(seq![e].skip(1) =~= Seq::empty());
    reveal_with_fuel(super::total_len, 3);
    assert(super::total_len(seq![e]) == rec.data_len);
}

/// A record that goes on with the file before it is taken in where the file
/// does not get too long, and there are not too many.
pub proof fn a_file_that_goes_on_is_taken_in(
    tree: Tree,
    rec: RecordView,
    path: Seq<char>,
    top: bool,
    s: ScanView,
    so_far: Seq<Extent>,
)
    requires
        piece_of(path, tree, (rec, s.gathered.su_skip)) is Some,
        s.pending == Some(
            PendingView {
                path: path_below(path, tree, (rec, s.gathered.su_skip)),
                extents: so_far,
            },
        ),
        !iso9660::is_bad_name(iso9660::best_name(rec, tree.joliet, s.gathered.su_skip).0),
        super::total_len(so_far) + rec.data_len <= u64::MAX,
        s.gathered.files.len() < 65536,
    ensures
        iso9660::add_record(tree, rec, path, top, s) is Ok,
{
    reveal_strlit("/");
    assert("/"@ =~= seq!['/']);
    assert(iso9660::is_dot(rec) == stands_for_itself(rec)) by {
        if iso9660::is_dot(rec) {
            assert(rec.name =~= seq![rec.name[0]]);
        }
    }
    let e = Extent { offset: (rec.lba * tree.block_size) as u64, len: rec.data_len as u64 };
    let none = Image { len: 0, bytes: Seq::empty() };
    entries::extents_cover_one_behind_another(none, so_far, seq![e]);
    assert(so_far + seq![e] =~= so_far.push(e));
    assert(seq![e].skip(1) =~= Seq::empty());
    reveal_with_fuel(super::total_len, 3);
    assert(super::total_len(seq![e]) == rec.data_len);
}

/// A directory is scanned where each of its records is one and can be added:
/// no blank rest of a sector is refused.
pub proof fn a_directory_of_good_records_is_scanned(
    data: Seq<u8>,
    pos: nat,
    tree: Tree,
    path: Seq<char>,
    top: bool,
    s: ScanView,
    places: Seq<int>,
)
    requires
        records_at(data, pos as int, places),
        forall|k: int|
            0 <= k < places.len() ==> data[#[trigger] places[k]] >= 34 && places[k]
                + data[places[k]] <= data.len() && data[places[k] + 1] == 0 && 33 + data[places[k]
                + 32] <= data[places[k]],
        added(tree, path, top, s, records_said(data, places)) is Ok,
    ensures
        iso9660::scan_from(data, pos, tree, path, top, s) is Ok,
    decreases (if pos < data.len() { data.len() - pos } else { 0 }),
{
    if pos < data.len() {
        let p = pos as int;
        a_record_says_what_its_bytes_say(data, p);
        if data[p] == 0 {
            let next = ((pos / 2048 + 1) * 2048) as nat;
            lemma_blank_left(data, p, places);
            a_directory_of_good_records_is_scanned(data, next, tree, path, top, s, places);
        } else {
            reveal(records_at);
            assert(places.len() > 0 && places[0] == p) by {
                if places.len() > 0 {
                    assert(record_here(data, places[0]));
                }
            }
            let rest = places.skip(1);
            lemma_rest_at(data, p, places);
            assert(data[places[0]] >= 34);
            assert forall|k: int| 0 <= k < rest.len() implies data[#[trigger] rest[k]] >= 34
                && rest[k] + data[rest[k]] <= data.len() && data[rest[k] + 1] == 0 && 33
                + data[rest[k] + 32] <= data[rest[k]] by {
                assert(rest[k] == places[k + 1]);
            }
            let rec = record_said(data, p);
            assert(records_said(data, places)[0] == rec);
            assert(records_said(data, places).skip(1) =~= records_said(data, rest));
            let mid = iso9660::add_record(tree, rec, path, top, s)->Ok_0;
            a_directory_of_good_records_is_scanned(
                data,
                pos + rec.record_len,
                tree,
                path,
                top,
                mid,
                rest,
            );
        }
    }
}

proof fn lemma_rest_at(data: Seq<u8>, p: int, places: Seq<int>)
    requires
        records_at(data, p, places),
        places.len() > 0,
        places[0] == p,
    ensures
        records_at(data, record_end(data, p), places.skip(1)),
{
    reveal(records_at);
    let rest = places.skip(1);
    assert forall|k: int| 0 <= k < rest.len() implies record_here(data, #[trigger] rest[k]) by {
        assert(rest[k] == places[k + 1]);
    }
    assert forall|k: int|
        #![trigger rest[k + 1]]
        0 <= k < rest.len() - 1 implies followed_by(
        data,
        record_end(data, rest[k]),
        rest[k + 1],
    ) by {
        assert(rest[k] == places[k + 1]);
        assert(rest[k + 1] == places[(k + 1) + 1]);
    }
    if rest.len() > 0 {
        assert(rest[0] == places[1]);
        assert(rest.last() == places.last());
    } else {
        assert(places.last() == p);
    }
}

proof fn lemma_blank_left(data: Seq<u8>, e: int, places: Seq<int>)
    requires
        0 <= e < data.len(),
        data[e] == 0,
        records_at(data, e, places),
    ensures
        records_at(data, (e / 2048 + 1) * 2048, places),
{
    reveal(records_at);
    let next = (e / 2048 + 1) * 2048;
    if places.len() > 0 {
        let q = places[0];
        assert(record_here(data, places[0]));
        assert(q % 2048 == 0 && q > e);
        assert(q >= next);
        if q != next {
            assert(next % 2048 == 0);
            assert(data[next] == 0);
            assert(sectors_blank(data, next, q));
        }
    } else if next < data.len() {
        assert(next % 2048 == 0);
        assert(data[next] == 0);
    }
}

/// A directory is walked where it is no more than 64 levels deep, not on the
/// way to itself, and can be read and scanned.
pub proof fn a_directory_is_walked_where_it_can_be_read(
    image: Image,
    tree: Tree,
    dir: RecordView,
    path: Seq<char>,
    depth: nat,
    visited: Seq<u32>,
    gathered: Gathered,
    used: nat,
)
    requires
        image.len == image.bytes.len(),
        image.len <= u64::MAX,
        depth <= 64,
        !visited.contains(dir.lba),
        used + dir.data_len <= 0x80_0000,
        dir.lba * tree.block_size + dir.data_len <= image.len,
        iso9660::scan_spec(bytes_of(image, tree, dir), tree, path, depth == 0, gathered) is Ok,
    ensures
        ({
            let (g, subdirs) = iso9660::scan_spec(
                bytes_of(image, tree, dir),
                tree,
                path,
                depth == 0,
                gathered,
            )->Ok_0;
            iso9660::walk_spec(image, tree, dir, path, depth, visited, gathered, used)
                == iso9660::walk_all(
                image,
                tree,
                subdirs,
                depth + 1,
                visited.push(dir.lba),
                g,
                used + dir.data_len as nat,
            )
        }),
{
    assert(0 <= dir.lba * tree.block_size) by (nonlinear_arith)
        requires
            0 <= dir.lba,
            0 <= tree.block_size,
    ;
    let at = (dir.lba * tree.block_size) as nat;
    let data = super::read_spec(image, iso9660::FORMAT@, used, at, dir.data_len as nat)->Ok_0;
    assert(data == bytes_of(image, tree, dir));
}

/// An index is said to hold Rock Ridge names where one of the names it was
/// read with is one, and not otherwise.
pub proof fn rock_ridge_is_told_where_a_name_is_one(
    tree: Tree,
    path: Seq<char>,
    top: bool,
    s: ScanView,
    records: Seq<RecordView>,
)
    ensures
        added(tree, path, top, s, records) matches Ok(t) ==> (t.gathered.rock_ridge
            <==> s.gathered.rock_ridge || exists|k: int|
            0 <= k < records.len() && is_rock_ridge(
                tree,
                #[trigger] with_skips(records, top, s.gathered.su_skip)[k],
            )),
    decreases records.len(),
{
    if records.len() > 0 {
        if let Ok(mid) = iso9660::add_record(tree, records[0], path, top, s) {
            let rec = records[0];
            assert(iso9660::is_dot(rec) == stands_for_itself(rec)) by {
                if iso9660::is_dot(rec) {
                    assert(rec.name =~= seq![rec.name[0]]);
                }
            }
            let rest = records.skip(1);
            let all = with_skips(records, top, s.gathered.su_skip);
            let more = with_skips(rest, top, mid.gathered.su_skip);
            lemma_record_added(tree, rec, path, top, s);
            rock_ridge_is_told_where_a_name_is_one(tree, path, top, mid, rest);
            lemma_as_many(rest, top, mid.gathered.su_skip);
            assert(all =~= seq![(rec, s.gathered.su_skip)] + more);
            assert(mid.gathered.rock_ridge == (s.gathered.rock_ridge || is_rock_ridge(
                tree,
                all[0],
            )));
            if added(tree, path, top, s, records) is Ok {
                if exists|k: int| 0 <= k < rest.len() && is_rock_ridge(tree, #[trigger] more[k]) {
                    let k = choose|k: int|
                        0 <= k < rest.len() && is_rock_ridge(tree, #[trigger] more[k]);
                    assert(all[k + 1] == more[k]);
                }
                if exists|k: int| 0 <= k < records.len() && is_rock_ridge(tree, #[trigger] all[k]) {
                    let k = choose|k: int|
                        0 <= k < records.len() && is_rock_ridge(tree, #[trigger] all[k]);
                    if k > 0 {
                        assert(all[k] == more[k - 1]);
                    }
                }
            }
        }
    }
}

/// Whether a record that names something does so by a Rock Ridge name.
pub open spec fn is_rock_ridge(tree: Tree, rec: (RecordView, nat)) -> bool {
    !stands_for_itself(rec.0) && !tree.joliet && iso9660::nm_text(
        iso9660::entries_spec(rec.0.system_use, rec.1),
    ).len() > 0
}

proof fn lemma_as_many(records: Seq<RecordView>, top: bool, skip: nat)
    ensures
        with_skips(records, top, skip).len() == records.len(),
    decreases records.len(),
{
    if records.len() > 0 {
        lemma_as_many(records.skip(1), top, skip_behind(records[0], top, skip));
    }
}

} // verus!
