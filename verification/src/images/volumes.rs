//! Where the trees of an image start, from the descriptors of its volumes.
use super::entries;
use super::iso9660;
use super::iso9660::DescriptorsView;
use super::listing;
use super::records;
use super::udf;
use super::udf::{LogicalView, LongAd, Partition, SequenceView, VolumeView};
use super::{Image, ImageFormat, RefusalView};
use crate::text;
use vstd::prelude::*;

verus! {

/// The bytes of a sector of an image.
pub open spec fn sector_bytes(image: Image, sector: int) -> Seq<u8> {
    image.bytes.subrange(sector * 2048, sector * 2048 + 2048)
}

/// Whether a sector lies inside an image.
pub open spec fn sector_inside(image: Image, sector: int) -> bool {
    (sector + 1) * 2048 <= image.len
}

proof fn lemma_sector(image: Image, format: Seq<char>, used: nat, sector: nat)
    ensures
        super::read_sector_spec(image, format, used, sector) matches Ok(d) ==> d == sector_bytes(
            image,
            sector as int,
        ) && d.len() == 2048 && sector_inside(image, sector as int),
{
}

// ---------------------------------------------------------------------
// ISO 9660

/// Whether the so-manieth sector from the sixteenth on is a volume
/// descriptor: it lies inside the image and says `CD001` behind its type.
pub open spec fn is_descriptor(image: Image, i: int) -> bool {
    let d = sector_bytes(image, 16 + i);
    &&& sector_inside(image, 16 + i)
    &&& d[1] == 0x43 && d[2] == 0x44 && d[3] == 0x30 && d[4] == 0x30 && d[5] == 0x31
}

/// The type of the so-manieth volume descriptor.
pub open spec fn descriptor_type(image: Image, i: int) -> u8 {
    sector_bytes(image, 16 + i)[0]
}

/// Whether a volume descriptor is a supplementary one whose escape sequences
/// are those of Joliet, `%/@`, `%/C` or `%/E`.
pub open spec fn is_joliet(image: Image, i: int) -> bool {
    let d = sector_bytes(image, 16 + i);
    &&& d[0] == 2
    &&& exists|j: int|
        88 <= j <= 117 && #[trigger] d[j] == 0x25 && d[j + 1] == 0x2f && (d[j + 2] == 0x40 || d[j
            + 2] == 0x43 || d[j + 2] == 0x45)
}

/// Whether a volume is that of the so-manieth descriptor: its block size
/// stands at byte 128, and the record of its root directory at byte 156.
pub open spec fn is_volume_of(image: Image, i: int, v: iso9660::VolumeView) -> bool {
    let d = sector_bytes(image, 16 + i);
    &&& v.block_size == entries::little(d, 128, 2)
    &&& v.root == records::record_said(d, 156)
    &&& v.root.is_dir
}

proof fn lemma_volume(image: Image, i: int)
    requires
        sector_bytes(image, 16 + i).len() == 2048,
    ensures
        iso9660::volume_spec(sector_bytes(image, 16 + i)) matches Ok(v) ==> is_volume_of(
            image,
            i,
            v,
        ),
{
    let d = sector_bytes(image, 16 + i);
    entries::numbers_are_read_from_their_last_byte(d, 128);
    if let Ok(v) = iso9660::volume_spec(d) {
        let part = d.subrange(156, 190);
        assert(part.skip(0) =~= part);
        records::a_record_says_what_its_bytes_say(part, 0);
        records::lemma_said_inside(d, 156, 190);
    }
}

proof fn lemma_joliet(d: Seq<u8>)
    requires
        d.len() == 2048,
    ensures
        iso9660::has_joliet_escape(d.subrange(88, 120)) == exists|j: int|
            88 <= j <= 117 && #[trigger] d[j] == 0x25 && d[j + 1] == 0x2f && (d[j + 2] == 0x40
                || d[j + 2] == 0x43 || d[j + 2] == 0x45),
{
    let esc = d.subrange(88, 120);
    if iso9660::has_joliet_escape(esc) {
        let i = choose|i: int| iso9660::joliet_escape_at(esc, i);
        assert(esc[i] == d[88 + i] && esc[i + 1] == d[88 + i + 1] && esc[i + 2] == d[88 + i + 2]);
        assert(d[88 + i] == 0x25);
    }
    if exists|j: int|
        88 <= j <= 117 && #[trigger] d[j] == 0x25 && d[j + 1] == 0x2f && (d[j + 2] == 0x40 || d[j
            + 2] == 0x43 || d[j + 2] == 0x45) {
        let j = choose|j: int|
            88 <= j <= 117 && #[trigger] d[j] == 0x25 && d[j + 1] == 0x2f && (d[j + 2] == 0x40
                || d[j + 2] == 0x43 || d[j + 2] == 0x45);
        assert(esc[j - 88] == d[j] && esc[j - 87] == d[j + 1] && esc[j - 86] == d[j + 2]);
        assert(iso9660::joliet_escape_at(esc, j - 88));
    }
}

/// What the descriptors from one on add to what those before it said.
pub open spec fn is_first_volume(
    image: Image,
    from: int,
    n: int,
    wanted: spec_fn(int) -> bool,
    before: Option<iso9660::VolumeView>,
    found: Option<iso9660::VolumeView>,
) -> bool {
    if before is Some {
        found == before
    } else {
        match found {
            None => forall|i: int| from <= i < n ==> !(#[trigger] wanted(i)),
            Some(v) => exists|i: int|
                from <= i < n && #[trigger] wanted(i) && is_volume_of(image, i, v) && forall|j: int|
                    from <= j < i ==> !(#[trigger] wanted(j)),
        }
    }
}

proof fn lemma_descriptors(
    image: Image,
    i: nat,
    seen: bool,
    primary: Option<iso9660::VolumeView>,
    joliet: Option<iso9660::VolumeView>,
    used: nat,
    d: DescriptorsView,
) -> (n: int)
    requires
        iso9660::descriptors_from(image, i, seen, primary, joliet, used) == Ok::<
            DescriptorsView,
            RefusalView,
        >(d),
    ensures
        i <= n <= 64,
        forall|k: int|
            i <= k < n ==> #[trigger] is_descriptor(image, k) && descriptor_type(image, k) != 255,
        !is_descriptor(image, n) || descriptor_type(image, n) == 255,
        is_first_volume(
            image,
            i as int,
            n,
            |k: int| descriptor_type(image, k) == 1,
            primary,
            d.primary,
        ),
        is_first_volume(image, i as int, n, |k: int| is_joliet(image, k), joliet, d.joliet),
    decreases iso9660::MAX_DESCRIPTORS - i,
{
    let sector = iso9660::FIRST_DESCRIPTOR_SECTOR as nat + i;
    let one = |k: int| descriptor_type(image, k) == 1;
    let two = |k: int| is_joliet(image, k);
    if i < iso9660::MAX_DESCRIPTORS && (sector + 1) * super::SECTOR <= image.len {
        lemma_sector(image, iso9660::FORMAT@, used, sector);
        let b = sector_bytes(image, 16 + i as int);
        lemma_volume(image, i as int);
        lemma_joliet(b);
        if is_descriptor(image, i as int) && b[0] != 255 {
            let (p, j) = if b[0] == 1 && primary is None {
                (Some(iso9660::volume_spec(b)->Ok_0), joliet)
            } else if b[0] == 2 && joliet is None && iso9660::has_joliet_escape(
                b.subrange(88, 120),
            ) {
                (primary, Some(iso9660::volume_spec(b)->Ok_0))
            } else {
                (primary, joliet)
            };
            let n = lemma_descriptors(
                image,
                i + 1,
                true,
                p,
                j,
                used + super::SECTOR as nat,
                d,
            );
            lemma_first_volume(image, i as int, n, one, primary, p, d.primary);
            lemma_first_volume(image, i as int, n, two, joliet, j, d.joliet);
            n
        } else {
            i as int
        }
    } else {
        i as int
    }
}

proof fn lemma_first_volume(
    image: Image,
    from: int,
    n: int,
    wanted: spec_fn(int) -> bool,
    before: Option<iso9660::VolumeView>,
    next: Option<iso9660::VolumeView>,
    found: Option<iso9660::VolumeView>,
)
    requires
        from < n,
        is_first_volume(image, from + 1, n, wanted, next, found),
        before is Some ==> next == before,
        before is None && wanted(from) ==> (next matches Some(v) && is_volume_of(image, from, v)),
        before is None && !wanted(from) ==> next is None,
    ensures
        is_first_volume(image, from, n, wanted, before, found),
{
    if before is None {
        if wanted(from) {
            let v = found->0;
            assert(is_volume_of(image, from, v));
            assert(wanted(from));
        } else {
            match found {
                None => {},
                Some(v) => {
                    let i = choose|i: int|
                        from + 1 <= i < n && #[trigger] wanted(i) && is_volume_of(image, i, v)
                            && forall|j: int| from + 1 <= j < i ==> !(#[trigger] wanted(j));
                    assert(wanted(i));
                },
            }
        }
    }
}

/// The volumes of an image are those of the first primary descriptor and of
/// the first Joliet one in the run of descriptors from the sixteenth sector
/// on, up to a terminating one or a sector that is none.
pub proof fn volumes_are_those_of_the_first_descriptors(image: Image, d: DescriptorsView) -> (n: int)
    requires
        iso9660::descriptors_from(image, 0, false, None, None, 0) == Ok::<
            DescriptorsView,
            RefusalView,
        >(d),
    ensures
        0 <= n <= 64,
        forall|k: int|
            0 <= k < n ==> #[trigger] is_descriptor(image, k) && descriptor_type(image, k) != 255,
        !is_descriptor(image, n) || descriptor_type(image, n) == 255,
        match d.primary {
            None => forall|i: int| 0 <= i < n ==> #[trigger] descriptor_type(image, i) != 1,
            Some(v) => exists|i: int|
                0 <= i < n && #[trigger] descriptor_type(image, i) == 1 && is_volume_of(image, i, v)
                    && forall|j: int| 0 <= j < i ==> #[trigger] descriptor_type(image, j) != 1,
        },
        match d.joliet {
            None => forall|i: int| 0 <= i < n ==> !(#[trigger] is_joliet(image, i)),
            Some(v) => exists|i: int|
                0 <= i < n && #[trigger] is_joliet(image, i) && is_volume_of(image, i, v)
                    && forall|j: int| 0 <= j < i ==> !(#[trigger] is_joliet(image, j)),
        },
{
    let n = lemma_descriptors(image, 0, false, None, None, 0, d);
    let one = |k: int| descriptor_type(image, k) == 1;
    let two = |k: int| is_joliet(image, k);
    match d.primary {
        None => {
            assert forall|i: int| 0 <= i < n implies #[trigger] descriptor_type(image, i) != 1 by {
                assert(!one(i));
            }
        },
        Some(v) => {
            let i = choose|i: int|
                0 <= i < n && #[trigger] one(i) && is_volume_of(image, i, v) && forall|j: int|
                    0 <= j < i ==> !(#[trigger] one(j));
            assert(descriptor_type(image, i) == 1);
            assert forall|j: int| 0 <= j < i implies #[trigger] descriptor_type(image, j) != 1 by {
                assert(!one(j));
            }
        },
    }
    match d.joliet {
        None => {
            assert forall|i: int| 0 <= i < n implies !(#[trigger] is_joliet(image, i)) by {
                assert(!two(i));
            }
        },
        Some(v) => {
            let i = choose|i: int|
                0 <= i < n && #[trigger] two(i) && is_volume_of(image, i, v) && forall|j: int|
                    0 <= j < i ==> !(#[trigger] two(j));
            assert(is_joliet(image, i));
            assert forall|j: int| 0 <= j < i implies !(#[trigger] is_joliet(image, j)) by {
                assert(!two(j));
            }
        },
    }
    n
}

// ---------------------------------------------------------------------
// UDF

/// The identifier of the descriptor in a sector.
pub open spec fn identifier_in(image: Image, sector: int) -> nat {
    entries::little(sector_bytes(image, sector), 0, 2)
}

/// Whether a sector starts with sixteen zeros.
pub open spec fn is_blank(image: Image, sector: int) -> bool {
    forall|i: int| 0 <= i < 16 ==> #[trigger] sector_bytes(image, sector)[i] == 0
}

proof fn lemma_tag(image: Image, sector: int)
    requires
        sector_bytes(image, sector).len() == 2048,
    ensures
        match udf::tag_spec(sector_bytes(image, sector)) {
            Err(_) => true,
            Ok(None) => is_blank(image, sector),
            Ok(Some(tag)) => !is_blank(image, sector) && tag == identifier_in(image, sector),
        },
{
    let d = sector_bytes(image, sector);
    entries::numbers_are_read_from_their_last_byte(d, 0);
    if let Ok(Some(tag)) = udf::tag_spec(d) {
        let i = choose|i: int| 0 <= i < 16 && d[i] != 0;
        assert(sector_bytes(image, sector)[i] != 0);
    }
}

/// The partition that the descriptor in a sector states, if it is one of a
/// partition: its number at byte 22, its start at byte 188 and its length at
/// byte 192.
pub open spec fn partition_in(image: Image, sector: int) -> Option<(u16, Partition)> {
    let d = sector_bytes(image, sector);
    if identifier_in(image, sector) == 5 {
        Some(
            (
                entries::little(d, 22, 2) as u16,
                Partition {
                    start: entries::little(d, 188, 4) as u32,
                    blocks: entries::little(d, 192, 4) as u32,
                },
            ),
        )
    } else {
        None
    }
}

/// The sectors from one on.
pub open spec fn sectors_from(sector: int, n: nat) -> Seq<int> {
    Seq::new(n, |k: int| sector + k)
}

proof fn lemma_sectors(sector: int, n: nat)
    ensures
        n > 0 ==> sectors_from(sector, n) == seq![sector] + sectors_from(
            sector + 1,
            (n - 1) as nat,
        ),
{
    if n > 0 {
        assert(sectors_from(sector, n) =~= seq![sector] + sectors_from(
            sector + 1,
            (n - 1) as nat,
        ));
    }
}

/// The partitions that the descriptors in some sectors state, in their
/// order.
#[verifier::opaque]
pub open spec fn partitions_in(image: Image, sectors: Seq<int>) -> Seq<(u16, Partition)> {
    sectors.filter_map(|s: int| partition_in(image, s))
}

proof fn lemma_partitions(image: Image, sector: int, rest: Seq<int>)
    ensures
        partitions_in(image, seq![sector] + rest) == (match partition_in(image, sector) {
            Some(p) => seq![p],
            None => Seq::empty(),
        }) + partitions_in(image, rest),
        partitions_in(image, Seq::empty()) == Seq::<(u16, Partition)>::empty(),
{
    reveal(partitions_in);
    let f = |s: int| partition_in(image, s);
    listing::lemma_kept(seq![sector], rest, f);
    listing::lemma_kept_one(sector, f);
}

/// Whether a logical volume is the first that sectors from one on state.
pub open spec fn is_first_logical(
    image: Image,
    sector: int,
    n: nat,
    before: Option<LogicalView>,
    found: Option<LogicalView>,
) -> bool {
    if before is Some {
        found == before
    } else {
        match found {
            None => forall|k: int|
                sector <= k < sector + n ==> #[trigger] identifier_in(image, k) != 6,
            Some(l) => exists|k: int|
                sector <= k < sector + n && #[trigger] identifier_in(image, k) == 6
                    && udf::logical_spec(sector_bytes(image, k)) == Ok::<
                    LogicalView,
                    RefusalView,
                >(l) && forall|j: int|
                    sector <= j < k ==> #[trigger] identifier_in(image, j) != 6,
        }
    }
}

proof fn lemma_sequence_step(
    image: Image,
    sector: nat,
    left: nat,
    more: bool,
    s: SequenceView,
    t: SequenceView,
) -> (mid: Option<SequenceView>)
    requires
        udf::sequence_from(image, sector, left, more, s) == Ok::<SequenceView, RefusalView>(t),
        left > 0,
    ensures
        sector_inside(image, sector as int),
        match mid {
            None => {
                &&& is_blank(image, sector as int) || identifier_in(image, sector as int) == 8
                &&& t.partitions == s.partitions
                &&& t.logical == s.logical
            },
            Some(m) => {
                &&& !is_blank(image, sector as int) && identifier_in(image, sector as int) != 8
                &&& udf::sequence_from(image, sector + 1, (left - 1) as nat, more, m) == Ok::<
                    SequenceView,
                    RefusalView,
                >(t)
                &&& m.partitions == s.partitions + (match partition_in(image, sector as int) {
                    Some(p) => seq![p],
                    None => Seq::empty(),
                })
                &&& if identifier_in(image, sector as int) == 6 && s.logical is None {
                    m.logical is Some && udf::logical_spec(sector_bytes(image, sector as int))
                        == Ok::<LogicalView, RefusalView>(m.logical->0)
                } else {
                    m.logical == s.logical
                }
            },
        },
{
    let d = super::read_sector_spec(image, udf::FORMAT@, s.used, sector)->Ok_0;
    lemma_sector(image, udf::FORMAT@, s.used, sector);
    lemma_tag(image, sector as int);
    entries::numbers_are_read_from_their_last_byte(d, 22);
    entries::numbers_are_read_from_their_last_byte(d, 188);
    entries::numbers_are_read_from_their_last_byte(d, 192);
    match udf::tag_spec(d) {
        Err(_) => None,
        Ok(None) => None,
        Ok(Some(ident)) => {
            let seen = SequenceView {
                used: s.used + super::SECTOR as nat,
                saw_any: true,
                ..s
            };
            if ident == udf::TAG_TERMINATING {
                None
            } else if ident == udf::TAG_PARTITION {
                let p = udf::partition_at(d);
                assert(s.partitions.push(p) =~= s.partitions + seq![p]);
                Some(SequenceView { partitions: s.partitions.push(p), ..seen })
            } else {
                assert(s.partitions + Seq::<(u16, Partition)>::empty() =~= s.partitions);
                if ident == udf::TAG_LOGICAL_VOLUME && s.logical is None {
                    Some(
                        SequenceView { logical: Some(udf::logical_spec(d)->Ok_0), ..seen },
                    )
                } else {
                    Some(seen)
                }
            }
        },
    }
}

proof fn lemma_sequence(
    image: Image,
    sector: nat,
    left: nat,
    more: bool,
    s: SequenceView,
    t: SequenceView,
) -> (n: nat)
    requires
        udf::sequence_from(image, sector, left, more, s) == Ok::<SequenceView, RefusalView>(t),
    ensures
        n <= left,
        forall|k: int|
            sector <= k < sector + n ==> !(#[trigger] is_blank(image, k)) && identifier_in(image, k)
                != 8,
        n == left || is_blank(image, (sector + n) as int) || identifier_in(
            image,
            (sector + n) as int,
        ) == 8,
        t.partitions == s.partitions + partitions_in(image, sectors_from(sector as int, n)),
        is_first_logical(image, sector as int, n, s.logical, t.logical),
    decreases left,
{
    let none = Seq::<int>::empty();
    let mid: Option<SequenceView> = if left == 0 {
        None
    } else {
        lemma_sequence_step(image, sector, left, more, s, t)
    };
    match mid {
        None => {
            assert(sectors_from(sector as int, 0) =~= none);
            lemma_partitions(image, 0, none);
            listing::lemma_behind(s.partitions, Seq::empty(), Seq::empty());
            0
        },
        Some(m) => {
            let n = lemma_sequence(image, sector + 1, (left - 1) as nat, more, m, t);
            lemma_sectors(sector as int, n + 1);
            lemma_partitions(image, sector as int, sectors_from(sector as int + 1, n));
            let p: Seq<(u16, Partition)> = match partition_in(image, sector as int) {
                Some(p) => seq![p],
                None => Seq::empty(),
            };
            listing::lemma_behind(
                s.partitions,
                p,
                partitions_in(image, sectors_from(sector as int + 1, n)),
            );
            lemma_first_logical(image, sector as int, n, s.logical, m.logical, t.logical);
            n + 1
        },
    }
}

proof fn lemma_first_logical(
    image: Image,
    sector: int,
    n: nat,
    before: Option<LogicalView>,
    next: Option<LogicalView>,
    found: Option<LogicalView>,
)
    requires
        is_first_logical(image, sector + 1, n, next, found),
        if identifier_in(image, sector) == 6 && before is None {
            next is Some && udf::logical_spec(sector_bytes(image, sector)) == Ok::<
                LogicalView,
                RefusalView,
            >(next->0)
        } else {
            next == before
        },
    ensures
        is_first_logical(image, sector, n + 1, before, found),
{
    if before is None {
        if identifier_in(image, sector) == 6 {
            assert(identifier_in(image, sector) == 6);
        } else {
            match found {
                None => {},
                Some(l) => {
                    let k = choose|k: int|
                        sector + 1 <= k < sector + 1 + n && #[trigger] identifier_in(image, k) == 6
                            && udf::logical_spec(sector_bytes(image, k)) == Ok::<
                            LogicalView,
                            RefusalView,
                        >(l) && forall|j: int|
                            sector + 1 <= j < k ==> #[trigger] identifier_in(image, j) != 6;
                    assert(identifier_in(image, k) == 6);
                },
            }
        }
    }
}

/// Whether these are the places of the partition maps of a logical volume
/// descriptor: the first at byte 440, each as long as its second byte says,
/// as many as byte 268 says, and each of the first type.
pub open spec fn maps_at(d: Seq<u8>, places: Seq<int>) -> bool {
    &&& places.len() == entries::little(d, 268, 4)
    &&& places.len() > 0 ==> places[0] == 440
    &&& forall|k: int|
        #![trigger places[k + 1]]
        0 <= k < places.len() - 1 ==> places[k + 1] == places[k] + d[places[k] + 1]
    &&& forall|k: int| 0 <= k < places.len() ==> d[#[trigger] places[k]] == 1
}

proof fn lemma_maps(d: Seq<u8>, pos: int, count: nat, maps: Seq<u16>, out: Seq<u16>) -> (places:
    Seq<int>)
    requires
        0 <= pos,
        udf::maps_from(d, pos, count, maps) == Ok::<Seq<u16>, RefusalView>(out),
    ensures
        places.len() == count,
        places.len() > 0 ==> places[0] == pos,
        forall|k: int|
            #![trigger places[k + 1]]
            0 <= k < places.len() - 1 ==> places[k + 1] == places[k] + d[places[k] + 1],
        forall|k: int| 0 <= k < places.len() ==> d[#[trigger] places[k]] == 1,
        out == maps + places.map_values(|p: int| entries::little(d, p + 4, 2) as u16),
    decreases count,
{
    let f = |p: int| entries::little(d, p + 4, 2) as u16;
    if count == 0 {
        assert(out =~= maps + Seq::<int>::empty().map_values(f));
        Seq::empty()
    } else {
        entries::numbers_are_read_from_their_last_byte(d, pos + 4);
        let next = pos + d[pos + 1];
        let m = super::u16_at(d, pos + 4) as u16;
        let rest = lemma_maps(d, next, (count - 1) as nat, maps.push(m), out);
        let places = seq![pos] + rest;
        assert forall|k: int|
            #![trigger places[k + 1]]
            0 <= k < places.len() - 1 implies places[k + 1] == places[k] + d[places[k] + 1] by {
            if k > 0 {
                assert(places[k] == rest[k - 1]);
                assert(rest[(k - 1) + 1] == rest[k - 1] + d[rest[k - 1] + 1]);
            } else {
                assert(places[1] == rest[0]);
            }
        }
        assert forall|k: int| 0 <= k < places.len() implies d[#[trigger] places[k]] == 1 by {
            if k > 0 {
                assert(places[k] == rest[k - 1]);
            }
        }
        assert(out =~= maps + places.map_values(f)) by {
            assert(places.map_values(f) =~= seq![m] + rest.map_values(f));
        }
        places
    }
}

proof fn lemma_find(partitions: Seq<(u16, Partition)>, number: u16) -> (k: int)
    ensures
        udf::find_partition(partitions, number) matches Some(p) ==> 0 <= k < partitions.len()
            && partitions[k] == (number, p) && forall|j: int|
            0 <= j < k ==> (#[trigger] partitions[j]).0 != number,
    decreases partitions.len(),
{
    if partitions.len() == 0 || partitions[0].0 == number {
        0
    } else {
        let rest = partitions.skip(1);
        let k = lemma_find(rest, number);
        if udf::find_partition(rest, number) is Some {
            assert(partitions[k + 1] == rest[k]);
            assert forall|j: int| 0 <= j < k + 1 implies (#[trigger] partitions[j]).0
                != number by {
                if j > 0 {
                    assert(partitions[j] == rest[j - 1]);
                }
            }
        }
        k + 1
    }
}

/// Whether a partition is the first that states a number.
pub open spec fn is_first_of_number(
    partitions: Seq<(u16, Partition)>,
    number: u16,
    p: Partition,
) -> bool {
    exists|k: int|
        0 <= k < partitions.len() && #[trigger] partitions[k] == (number, p) && forall|j: int|
            0 <= j < k ==> (#[trigger] partitions[j]).0 != number
}

proof fn lemma_resolved(
    maps: Seq<u16>,
    partitions: Seq<(u16, Partition)>,
    before: Seq<Partition>,
    out: Seq<Partition>,
)
    requires
        udf::resolve_maps(maps, partitions, before) == Ok::<Seq<Partition>, RefusalView>(out),
    ensures
        out.len() == before.len() + maps.len(),
        forall|i: int| 0 <= i < before.len() ==> #[trigger] out[i] == before[i],
        forall|i: int|
            0 <= i < maps.len() ==> is_first_of_number(
                partitions,
                #[trigger] maps[i],
                out[before.len() + i],
            ),
    decreases maps.len(),
{
    if maps.len() > 0 {
        let p = udf::find_partition(partitions, maps[0])->0;
        let k = lemma_find(partitions, maps[0]);
        assert(partitions[k] == (maps[0], p));
        let rest = maps.skip(1);
        let mid = before.push(p);
        lemma_resolved(rest, partitions, mid, out);
        assert(out[before.len() as int] == mid[before.len() as int]);
        assert forall|i: int| 0 <= i < before.len() implies #[trigger] out[i] == before[i] by {
            assert(out[i] == mid[i]);
        }
        assert forall|i: int| 0 <= i < maps.len() implies is_first_of_number(
            partitions,
            #[trigger] maps[i],
            out[before.len() + i],
        ) by {
            if i > 0 {
                assert(rest[i - 1] == maps[i]);
                assert(mid.len() + (i - 1) == before.len() + i);
            }
        }
    }
}

proof fn lemma_anchor(image: Image, candidates: Seq<nat>, used: nat) -> (a: nat)
    requires
        udf::anchor_from(image, candidates, used) is Ok,
    ensures
        candidates.contains(a),
        identifier_in(image, a as int) == 2,
        sector_inside(image, a as int),
        candidates.len() > 0 && sector_inside(image, candidates[0] as int) && identifier_in(
            image,
            candidates[0] as int,
        ) == 2 && !is_blank(image, candidates[0] as int) ==> a == candidates[0],
        ({
            let ((len, location), _) = udf::anchor_from(image, candidates, used)->Ok_0;
            let d = sector_bytes(image, a as int);
            &&& entries::little(d, 16, 4) != 0 ==> len == entries::little(d, 16, 4) && location
                == entries::little(d, 20, 4)
            &&& entries::little(d, 16, 4) == 0 ==> len == entries::little(d, 24, 4) && location
                == entries::little(d, 28, 4)
        }),
    decreases candidates.len(),
{
    let first = candidates[0];
    let rest = candidates.skip(1);
    if (first + 1) * super::SECTOR > image.len {
        let a = lemma_anchor(image, rest, used);
        lemma_in_rest(candidates, a);
        a
    } else {
        lemma_sector(image, udf::FORMAT@, used, first);
        let d = sector_bytes(image, first as int);
        lemma_tag(image, first as int);
        entries::numbers_are_read_from_their_last_byte(d, 16);
        entries::numbers_are_read_from_their_last_byte(d, 20);
        entries::numbers_are_read_from_their_last_byte(d, 24);
        entries::numbers_are_read_from_their_last_byte(d, 28);
        let tag = udf::tag_spec(d)->Ok_0;
        if tag != Some(udf::TAG_ANCHOR) {
            let a = lemma_anchor(image, rest, used + super::SECTOR as nat);
            lemma_in_rest(candidates, a);
            a
        } else {
            assert(candidates[0] == first);
            first
        }
    }
}

proof fn lemma_in_rest(candidates: Seq<nat>, a: nat)
    requires
        candidates.len() > 0,
        candidates.skip(1).contains(a),
    ensures
        candidates.contains(a),
{
    let k = choose|k: int| 0 <= k < candidates.skip(1).len() && candidates.skip(1)[k] == a;
    assert(candidates[k + 1] == a);
}

/// What a volume is read from: the sector of its anchor, where its volume
/// descriptor sequence starts and how many descriptors it has, which of them
/// is the logical volume's, and where that one's partition maps stand.
pub struct VolumeSource {
    pub anchor: int,
    pub start: int,
    pub count: nat,
    pub logical: int,
    pub maps: Seq<int>,
}

/// A UDF volume is what its descriptors state. The anchor stands in sector
/// 256, in the last sector or 256 before it, and names the sectors of the
/// main sequence of descriptors, or of the reserve one where that is empty.
/// The first logical volume descriptor in it gives the block size, where the
/// file set is, and the partition maps; and each map in turn gives the
/// partition whose descriptor has its number.
pub proof fn a_volume_is_what_its_descriptors_state(image: Image, used: nat) -> (from: VolumeSource)
    requires
        udf::open_spec(image, used) is Ok,
    ensures
        ({
            let (v, _) = udf::open_spec(image, used)->Ok_0;
            let last = image.len as int / 2048 - 1;
            let a = sector_bytes(image, from.anchor);
            let d = sector_bytes(image, from.logical);
            let at: int = if entries::little(a, 16, 4) != 0 {
                16
            } else {
                24
            };
            let all = partitions_in(image, sectors_from(from.start, from.count));
            &&& from.anchor == 256 || from.anchor == last || from.anchor == last - 256
            &&& identifier_in(image, from.anchor) == 2
            &&& identifier_in(image, 256) == 2 && sector_inside(image, 256) && !is_blank(image, 256)
                ==> from.anchor == 256
            &&& from.start == entries::little(a, at + 4, 4)
            &&& from.count <= (entries::little(a, at, 4) + 2047) / 2048
            &&& forall|k: int|
                from.start <= k < from.start + from.count ==> !(#[trigger] is_blank(image, k))
                    && identifier_in(image, k) != 8
            &&& from.start <= from.logical < from.start + from.count
            &&& identifier_in(image, from.logical) == 6
            &&& forall|k: int|
                from.start <= k < from.logical ==> #[trigger] identifier_in(image, k) != 6
            &&& v.block_size == entries::little(d, 212, 4)
            &&& v.file_set == (LongAd {
                len: entries::little(d, 248, 4) as u32,
                block: entries::little(d, 252, 4) as u32,
                partition: entries::little(d, 256, 2) as u16,
            })
            &&& maps_at(d, from.maps)
            &&& v.partitions.len() == from.maps.len()
            &&& forall|i: int|
                0 <= i < from.maps.len() ==> is_first_of_number(
                    all,
                    entries::little(d, #[trigger] from.maps[i] + 4, 2) as u16,
                    v.partitions[i],
                )
        }),
{
    let candidates = udf::anchor_candidates(image.len);
    assert(candidates[0] == 256);
    let anchor = lemma_anchor(image, candidates, used);
    let ((len, location), mid) = udf::anchor_from(image, candidates, used)->Ok_0;
    let s = SequenceView {
        saw_any: false,
        partitions: Seq::empty(),
        logical: None,
        used: mid,
    };
    let left = udf::sequence_sectors(len);
    let t = udf::sequence_from(image, location, left, udf::has_more(len), s)->Ok_0;
    let n = lemma_sequence(image, location, left, udf::has_more(len), s, t);
    let l = t.logical->0;
    let logical = choose|k: int|
        location <= k < location + n && #[trigger] identifier_in(image, k) == 6
            && udf::logical_spec(sector_bytes(image, k)) == Ok::<LogicalView, RefusalView>(l)
            && forall|j: int| location <= j < k ==> #[trigger] identifier_in(image, j) != 6;
    let d = sector_bytes(image, logical);
    entries::numbers_are_read_from_their_last_byte(d, 212);
    entries::numbers_are_read_from_their_last_byte(d, 248);
    entries::numbers_are_read_from_their_last_byte(d, 252);
    entries::numbers_are_read_from_their_last_byte(d, 256);
    entries::numbers_are_read_from_their_last_byte(d, 268);
    let maps = lemma_maps(d, 440, super::u32_at(d, 268) as nat, Seq::empty(), l.map_to_partition);
    let (v, _) = udf::open_spec(image, used)->Ok_0;
    let all = partitions_in(image, sectors_from(location as int, n));
    listing::lemma_behind(all, Seq::empty(), Seq::empty());
    lemma_resolved(l.map_to_partition, all, Seq::empty(), v.partitions);
    let f = |p: int| entries::little(d, p + 4, 2) as u16;
    assert(l.map_to_partition =~= maps.map_values(f));
    assert forall|i: int| 0 <= i < maps.len() implies is_first_of_number(
        all,
        entries::little(d, #[trigger] maps[i] + 4, 2) as u16,
        v.partitions[i],
    ) by {
        assert(l.map_to_partition[i] == f(maps[i]));
        assert(Seq::<Partition>::empty().len() + i == i);
    }
    VolumeSource { anchor: anchor as int, start: location as int, count: n, logical, maps }
}

/// The root directory's file entry is where the file set descriptor says, at
/// its byte 400; the file set descriptor is where the volume says.
pub proof fn the_root_is_where_the_file_set_says(image: Image, v: VolumeView, used: nat)
    requires
        udf::root_spec(image, v, used) is Ok,
    ensures
        ({
            let (root, _) = udf::root_spec(image, v, used)->Ok_0;
            let at = entries::block_offset(v, v.file_set.partition, v.file_set.block);
            let d = image.bytes.subrange(at, at + 512);
            &&& entries::little(d, 0, 2) == 256
            &&& root == (LongAd {
                len: entries::little(d, 400, 4) as u32,
                block: entries::little(d, 404, 4) as u32,
                partition: entries::little(d, 408, 2) as u16,
            })
        }),
{
    entries::blocks_lie_one_behind_another(v, v.file_set.partition, v.file_set.block);
    let offset = udf::offset_spec(v, v.file_set.partition, v.file_set.block)->Ok_0;
    let d = super::read_spec(image, udf::FORMAT@, used, offset, 512)->Ok_0;
    assert(d == image.bytes.subrange(offset as int, offset as int + 512));
    entries::numbers_are_read_from_their_last_byte(d, 0);
    entries::numbers_are_read_from_their_last_byte(d, 400);
    entries::numbers_are_read_from_their_last_byte(d, 404);
    entries::numbers_are_read_from_their_last_byte(d, 408);
}

/// A UDF volume states the revision it follows at byte 240 of its logical
/// volume descriptor, where the domain at byte 217 is OSTA's.
pub proof fn a_revision_is_stated_under_its_domain(d: Seq<u8>)
    requires
        d.len() == 2048,
    ensures
        ({
            let osta = seq![
                0x2au8, 0x4f, 0x53, 0x54, 0x41, 0x20, 0x55, 0x44, 0x46, 0x20, 0x43, 0x6f, 0x6d,
                0x70, 0x6c, 0x69, 0x61, 0x6e, 0x74,
            ];
            &&& d.subrange(217, 236) == osta ==> udf::revision_spec(d) == Some(
                entries::little(d, 240, 2) as u16,
            )
            &&& d.subrange(217, 236) != osta ==> udf::revision_spec(d) is None
        }),
{
    entries::numbers_are_read_from_their_last_byte(d, 240);
}

/// An index tells which tree it was read from: the Joliet one where there
/// is one, and the other otherwise.
pub proof fn an_index_tells_its_tree(image: Image, d: DescriptorsView)
    requires
        iso9660::descriptors_from(image, 0, false, None, None, 0) == Ok::<
            DescriptorsView,
            RefusalView,
        >(d),
    ensures
        iso9660::index_spec(image) matches Ok(index) ==> (index.format matches ImageFormat::Iso9660 {
            joliet,
            ..
        } && joliet == (d.joliet is Some)),
        udf::index_spec(image) matches Ok(index) ==> (index.format matches ImageFormat::Udf {
            revision,
        } && ({
            let (v, _) = udf::open_spec(image, 0)->Ok_0;
            revision == v.revision
        })),
{
}

// ---------------------------------------------------------------------
// What is refused

/// A run of descriptors that ends in a terminating one within the first
/// sixty-four is read, whatever others stand in it, where the volumes that
/// primary and Joliet ones state can be read.
pub proof fn a_run_of_good_descriptors_is_read(
    image: Image,
    i: nat,
    n: nat,
    seen: bool,
    primary: Option<iso9660::VolumeView>,
    joliet: Option<iso9660::VolumeView>,
    used: nat,
)
    requires
        image.len == image.bytes.len(),
        image.len <= u64::MAX,
        i <= n < 64,
        used + (n + 1 - i) * 2048 <= 0x80_0000,
        forall|k: int|
            i <= k < n ==> #[trigger] is_descriptor(image, k) && descriptor_type(image, k) != 255,
        is_descriptor(image, n as int),
        descriptor_type(image, n as int) == 255,
        forall|k: int|
            i <= k < n && (#[trigger] descriptor_type(image, k) == 1 || is_joliet(image, k))
                ==> iso9660::volume_spec(sector_bytes(image, 16 + k)) is Ok,
    ensures
        iso9660::descriptors_from(image, i, seen, primary, joliet, used) is Ok,
    decreases n - i,
{
    let sector = 16 + i;
    assert(is_descriptor(image, i as int));
    let b = sector_bytes(image, 16 + i as int);
    assert(sector * 2048 + 2048 <= image.len);
    assert(super::read_sector_spec(image, iso9660::FORMAT@, used, sector) == Ok::<
        Seq<u8>,
        RefusalView,
    >(b));
    lemma_joliet(b);
    if i < n {
        assert(descriptor_type(image, i as int) != 255);
        let (p, j) = if b[0] == 1 && primary is None {
            (Some(iso9660::volume_spec(b)->Ok_0), joliet)
        } else if b[0] == 2 && joliet is None && iso9660::has_joliet_escape(b.subrange(88, 120)) {
            (primary, Some(iso9660::volume_spec(b)->Ok_0))
        } else {
            (primary, joliet)
        };
        a_run_of_good_descriptors_is_read(image, i + 1, n, true, p, j, used + 2048);
    }
}

/// A volume is read where its block size is a power of two from 512 on and
/// the record of its root directory is one of a directory.
pub proof fn a_volume_is_read_where_its_root_is_one(d: Seq<u8>)
    requires
        d.len() == 2048,
    ensures
        ({
            let size = entries::little(d, 128, 2);
            iso9660::volume_spec(d) is Ok <==> (size == 512 || size == 1024 || size == 2048 || size
                == 4096 || size == 8192 || size == 16384 || size == 32768) && d[156] == 34 && d[157]
                == 0 && d[188] <= 1 && d[181] & 0x02 != 0
        }),
{
    entries::numbers_are_read_from_their_last_byte(d, 128);
    let part = d.subrange(156, 190);
    assert(part.skip(0) =~= part);
    assert(part[0] == d[156] && part[1] == d[157] && part[32] == d[188] && part[25] == d[181]);
    records::a_record_says_what_its_bytes_say(part, 0);
}

/// A sequence of volume descriptors that vouch for themselves is read up to
/// a blank or a terminating one, where its first logical volume descriptor
/// can be read.
pub proof fn a_sequence_of_good_descriptors_is_read(
    image: Image,
    sector: nat,
    left: nat,
    more: bool,
    s: SequenceView,
    n: nat,
)
    requires
        image.len == image.bytes.len(),
        image.len <= u64::MAX,
        n < left,
        s.used + (n + 1) * 2048 <= 0x80_0000,
        forall|k: int|
            sector <= k <= sector + n ==> #[trigger] sector_inside(image, k) && udf::tag_spec(
                sector_bytes(image, k),
            ) is Ok,
        is_blank(image, (sector + n) as int) || identifier_in(image, (sector + n) as int) == 8,
        forall|k: int|
            sector <= k < sector + n && #[trigger] identifier_in(image, k) == 6
                ==> udf::logical_spec(sector_bytes(image, k)) is Ok,
    ensures
        udf::sequence_from(image, sector, left, more, s) is Ok,
    decreases n,
{
    let d = sector_bytes(image, sector as int);
    assert(sector_inside(image, sector as int));
    assert(super::read_sector_spec(image, udf::FORMAT@, s.used, sector) == Ok::<
        Seq<u8>,
        RefusalView,
    >(d));
    lemma_tag(image, sector as int);
    if let Ok(Some(ident)) = udf::tag_spec(d) {
        if ident != udf::TAG_TERMINATING {
            assert(n > 0);
            let seen = SequenceView { used: s.used + 2048, saw_any: true, ..s };
            let next = if ident == udf::TAG_PARTITION {
                SequenceView { partitions: s.partitions.push(udf::partition_at(d)), ..seen }
            } else if ident == udf::TAG_LOGICAL_VOLUME && s.logical is None {
                assert(identifier_in(image, sector as int) == 6);
                SequenceView { logical: Some(udf::logical_spec(d)->Ok_0), ..seen }
            } else {
                seen
            };
            a_sequence_of_good_descriptors_is_read(
                image,
                sector + 1,
                (left - 1) as nat,
                more,
                next,
                (n - 1) as nat,
            );
        }
    }
}

/// Partition maps of the first type are read where they end inside their
/// descriptor.
pub proof fn plain_partition_maps_are_read(
    d: Seq<u8>,
    pos: int,
    count: nat,
    maps: Seq<u16>,
    places: Seq<int>,
)
    requires
        0 <= pos,
        places.len() == count,
        places.len() > 0 ==> places[0] == pos,
        forall|k: int|
            #![trigger places[k + 1]]
            0 <= k < places.len() - 1 ==> places[k + 1] == places[k] + d[places[k] + 1],
        forall|k: int|
            0 <= k < places.len() ==> d[#[trigger] places[k]] == 1 && d[places[k] + 1] >= 6
                && places[k] + d[places[k] + 1] <= d.len(),
    ensures
        udf::maps_from(d, pos, count, maps) is Ok,
    decreases count,
{
    if count > 0 {
        assert(d[places[0]] == 1);
        let rest = places.skip(1);
        assert forall|k: int|
            #![trigger rest[k + 1]]
            0 <= k < rest.len() - 1 implies rest[k + 1] == rest[k] + d[rest[k] + 1] by {
            assert(rest[k] == places[k + 1]);
            assert(rest[k + 1] == places[(k + 1) + 1]);
        }
        assert forall|k: int| 0 <= k < rest.len() implies d[#[trigger] rest[k]] == 1 && d[rest[k]
            + 1] >= 6 && rest[k] + d[rest[k] + 1] <= d.len() by {
            assert(rest[k] == places[k + 1]);
        }
        if rest.len() > 0 {
            assert(places[1] == places[0] + d[places[0] + 1]) by {
                let k: int = 0;
                assert(places[k + 1] == places[k] + d[places[k] + 1]);
            }
        }
        plain_partition_maps_are_read(
            d,
            pos + d[pos + 1],
            (count - 1) as nat,
            maps.push(super::u16_at(d, pos + 4) as u16),
            rest,
        );
    }
}

/// A revision is written with its digits: the number before the point, and
/// two digits behind it.
pub proof fn a_revision_is_written_in_digits(major: nat, tens: nat, ones: nat)
    requires
        major < 10,
        tens < 10,
        ones < 10,
    ensures
        super::format_text(
            ImageFormat::Udf { revision: Some((major * 256 + tens * 16 + ones) as u16) },
        ) == "UDF "@ + text::dec(major) + "."@ + text::dec(tens) + text::dec(ones),
{
    let r: u16 = (major * 256 + tens * 16 + ones) as u16;
    assert(r / 256 == major);
    assert(r % 256 == tens * 16 + ones);
    assert((tens * 16 + ones) / 16 == tens);
    assert((tens * 16 + ones) % 16 == ones);
    assert(super::hex2((tens * 16 + ones) as int) =~= text::dec(tens) + text::dec(ones));
    assert("UDF "@ + text::dec(major) + "."@ + (text::dec(tens) + text::dec(ones)) =~= "UDF "@
        + text::dec(major) + "."@ + text::dec(tens) + text::dec(ones));
}

/// The extensions that an image is read with are named behind its format.
pub proof fn the_extensions_of_an_image_are_named(joliet: bool, rock_ridge: bool)
    ensures
        ({
            let words = super::format_text(ImageFormat::Iso9660 { joliet, rock_ridge });
            &&& text::has_prefix(words, "ISO 9660"@)
            &&& text::holds(words, "Joliet"@) <==> joliet
            &&& text::holds(words, "Rock Ridge"@) <==> rock_ridge
        }),
{
    reveal_strlit("ISO 9660");
    reveal_strlit(" + Joliet");
    reveal_strlit(" + Rock Ridge");
    reveal_strlit("Joliet");
    reveal_strlit("Rock Ridge");
    reveal_strlit("");
    let words = super::format_text(ImageFormat::Iso9660 { joliet, rock_ridge });
    assert(words.take(8) =~= "ISO 9660"@);
    if joliet {
        assert(words.subrange(11, 17) =~= "Joliet"@);
        assert(text::holds_at(words, "Joliet"@, 11));
    }
    if rock_ridge {
        let at: int = if joliet {
            20
        } else {
            11
        };
        assert(words.subrange(at, at + 10) =~= "Rock Ridge"@);
        assert(text::holds_at(words, "Rock Ridge"@, at));
    }
    assert forall|i: int| #[trigger] text::holds_at(words, "Joliet"@, i) implies joliet by {
        assert(words.subrange(i, i + 6)[0] == 'J');
        assert(words[i] == 'J');
    }
    assert forall|i: int| #[trigger] text::holds_at(words, "Rock Ridge"@, i) implies rock_ridge by {
        assert(words.subrange(i, i + 10)[0] == 'R');
        assert(words[i] == 'R');
    }
}

} // verus!
