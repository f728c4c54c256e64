//! The names that ISO 9660 records give their files.
use super::iso9660;
use super::iso9660::{EntryView, RecordView};
use crate::text;
use vstd::prelude::*;

verus! {

/// A `;` and what follows it are no part of a name, nor is a dot right
/// before it or at the name's end; everything else is.
pub proof fn a_version_is_no_part_of_a_name(base: Seq<char>, version: Seq<char>)
    requires
        forall|i: int| 0 <= i < base.len() ==> base[i] != ';',
    ensures
        iso9660::strip_version(base + seq![';'] + version) == iso9660::strip_version(base),
        iso9660::strip_version(base + seq!['.']) == base,
        base.len() == 0 || base.last() != '.' ==> iso9660::strip_version(base) == base,
{
    let t = base + seq![';'] + version;
    text::lemma_find_char(t, ';');
    text::lemma_find_char(base, ';');
    assert(t[base.len() as int] == ';');
    let at = text::find_char(t, ';')->0;
    if at < base.len() {
        assert(t[at] == base[at]);
    }
    assert(t.take(at) =~= base);
    let dot = base + seq!['.'];
    text::lemma_find_char(dot, ';');
    if let Some(i) = text::find_char(dot, ';') {
        if i < base.len() {
            assert(dot[i] == base[i]);
        }
    }
    assert(dot.drop_last() =~= base);
}

/// The name of a record in the Joliet tree is read as UTF-16; in the other
/// it is the Rock Ridge name where there is one, and otherwise the record's
/// own, one character per byte. Versions are no part of either but of a Rock
/// Ridge name, which is taken as it is.
pub proof fn the_best_name_is_taken(rec: RecordView, skip: nat)
    ensures
        iso9660::best_name(rec, true, skip) == (
            iso9660::strip_version(text::utf16_text(text::big_endian_units(rec.name))),
            false,
        ),
        ({
            let rock_ridge = iso9660::nm_text(iso9660::entries_spec(rec.system_use, skip));
            &&& rock_ridge.len() > 0 ==> iso9660::best_name(rec, false, skip) == (rock_ridge, true)
            &&& rock_ridge.len() == 0 ==> iso9660::best_name(rec, false, skip) == (
                iso9660::strip_version(text::latin1(rec.name)),
                false,
            )
        }),
{
}

/// A name is refused where it is empty, one dot or two, or holds a `/` or a
/// NUL; and nowhere else.
pub proof fn a_name_is_refused_where_it_builds_another_path(name: Seq<char>)
    ensures
        iso9660::is_bad_name(name) <==> name.len() == 0 || name == seq!['.'] || name == seq![
            '.',
            '.',
        ] || exists|i: int| 0 <= i < name.len() && (#[trigger] name[i] == '/' || name[i] == '\0'),
{
    if name.contains('/') {
        let i = choose|i: int| 0 <= i < name.len() && name[i] == '/';
        assert(name[i] == '/');
    }
    if name.contains('\0') {
        let i = choose|i: int| 0 <= i < name.len() && name[i] == '\0';
        assert(name[i] == '\0');
    }
}

// ---------------------------------------------------------------------
// System use areas

/// An entry of a system use area as it is written: its signature, its
/// length, its version and its data.
pub open spec fn entry_bytes(e: EntryView, version: u8) -> Seq<u8> {
    seq![e.signature.0, e.signature.1, (e.data.len() + 4) as u8, version] + e.data
}

/// Entries as they are written, one behind the other.
pub open spec fn area_bytes(entries: Seq<EntryView>, version: u8) -> Seq<u8>
    decreases entries.len(),
{
    if entries.len() == 0 {
        Seq::empty()
    } else {
        entry_bytes(entries[0], version) + area_bytes(entries.skip(1), version)
    }
}

/// The entries of a system use area that are written behind the bytes to
/// skip are read, all of them, in their order, up to where less than an
/// entry is left.
pub proof fn entries_written_are_read_back(
    before: Seq<u8>,
    entries: Seq<EntryView>,
    version: u8,
    tail: Seq<u8>,
)
    requires
        forall|i: int| 0 <= i < entries.len() ==> (#[trigger] entries[i]).data.len() <= 251,
        tail.len() < 4,
        entries.len() > 0,
    ensures
        iso9660::entries_spec(
            before + area_bytes(entries, version) + tail,
            before.len(),
        ) == entries,
{
    let su = before + area_bytes(entries, version) + tail;
    assert(area_bytes(entries, version).len() > 0);
    assert(su.skip(before.len() as int) =~= area_bytes(entries, version) + tail);
    lemma_entries(su, before.len() as int, entries, version, tail);
}

proof fn lemma_entries(
    su: Seq<u8>,
    pos: int,
    entries: Seq<EntryView>,
    version: u8,
    tail: Seq<u8>,
)
    requires
        0 <= pos <= su.len(),
        su.skip(pos) == area_bytes(entries, version) + tail,
        forall|i: int| 0 <= i < entries.len() ==> (#[trigger] entries[i]).data.len() <= 251,
        tail.len() < 4,
    ensures
        iso9660::entries_from(su, pos) == entries,
    decreases entries.len(),
{
    let rest = su.skip(pos);
    if entries.len() == 0 {
        assert(rest =~= tail);
        assert(iso9660::entries_from(su, pos) =~= entries);
    } else {
        let e = entries[0];
        let own = entry_bytes(e, version);
        let others = entries.skip(1);
        let n = e.data.len() + 4;
        assert(e.data.len() <= 251);
        assert(rest =~= own + (area_bytes(others, version) + tail));
        assert(rest[0] == own[0] && rest[1] == own[1] && rest[2] == own[2]);
        assert(su[pos] == rest[0] && su[pos + 1] == rest[1] && su[pos + 2] == rest[2]);
        assert(su[pos + 2] == n);
        assert(su.subrange(pos + 4, pos + n) =~= e.data) by {
            assert forall|i: int| 0 <= i < e.data.len() implies su.subrange(pos + 4, pos + n)[i]
                == e.data[i] by {
                assert(su[pos + 4 + i] == rest[4 + i]);
                assert(rest[4 + i] == own[4 + i]);
            }
        }
        assert(su.skip(pos + n) =~= rest.skip(n as int));
        assert(rest.skip(n as int) =~= area_bytes(others, version) + tail);
        assert forall|i: int| 0 <= i < others.len() implies (#[trigger] others[i]).data.len()
            <= 251 by {
            assert(others[i] == entries[i + 1]);
        }
        lemma_entries(su, pos + n, others, version, tail);
        assert(seq![e] + others =~= entries);
    }
}

/// The name that some entries give is the text of those whose signature is
/// `NM` and whose flags say neither the directory itself nor its parent, one
/// behind the other.
pub proof fn a_rock_ridge_name_is_its_parts_in_order(a: Seq<EntryView>, e: EntryView)
    ensures
        iso9660::nm_text(Seq::empty()) == Seq::<char>::empty(),
        e.signature == (0x4eu8, 0x4du8) && e.data.len() > 0 && e.data[0] & 0x06 == 0
            ==> iso9660::nm_text(a.push(e)) == iso9660::nm_text(a) + text::lossy_utf8(
            e.data.skip(1),
        ),
        e.signature != (0x4eu8, 0x4du8) || e.data.len() == 0 || e.data[0] & 0x06 != 0
            ==> iso9660::nm_text(a.push(e)) == iso9660::nm_text(a),
{
    assert(a.push(e).drop_last() =~= a);
}

/// How many bytes are skipped is what the last entry says whose signature is
/// `SP` and whose data start with 0xbe and 0xef, in its third byte; where
/// there is none, nothing is.
pub proof fn the_bytes_to_skip_are_stated(a: Seq<EntryView>, e: EntryView)
    ensures
        iso9660::sp_skip(Seq::empty()) == 0,
        e.signature == (0x53u8, 0x50u8) && e.data.len() >= 3 && e.data[0] == 0xbe && e.data[1]
            == 0xef ==> iso9660::sp_skip(a.push(e)) == e.data[2],
        e.signature != (0x53u8, 0x50u8) || e.data.len() < 3 || e.data[0] != 0xbe || e.data[1]
            != 0xef ==> iso9660::sp_skip(a.push(e)) == iso9660::sp_skip(a),
{
    assert(a.push(e).drop_last() =~= a);
}

} // verus!
