//! What a UDF file entry states: where the bytes of a file lie.
use super::listing;
use super::udf;
use super::udf::{EntryView, ExtentKind, LongAd, VolumeView};
use super::{Extent, Image, RefusalView};
use crate::text;
use vstd::prelude::*;

verus! {

/// So many bytes as a number, the least significant first.
pub open spec fn little(b: Seq<u8>, at: int, n: nat) -> nat
    decreases n,
{
    if n == 0 {
        0
    } else {
        b[at] as nat + 256 * little(b, at + 1, (n - 1) as nat)
    }
}

/// Numbers of two, four and eight bytes are read the least significant byte
/// first.
pub proof fn numbers_are_read_from_their_last_byte(b: Seq<u8>, at: int)
    ensures
        super::u16_at(b, at) == little(b, at, 2),
        super::u32_at(b, at) == little(b, at, 4),
        super::u64_at(b, at) == little(b, at, 8),
        0 <= super::u16_at(b, at) <= 0xffff,
        0 <= super::u32_at(b, at) <= 0xffff_ffff,
        0 <= super::u64_at(b, at) <= 0xffff_ffff_ffff_ffff,
{
    reveal_with_fuel(little, 9);
}

/// Where a block of a partition lies: the blocks of all partitions are
/// counted from the start of the image.
pub open spec fn block_offset(v: VolumeView, partition: u16, block: u32) -> int {
    (v.partitions[partition as int].start + block) * v.block_size
}

/// A block that has an offset is a block of a partition that there is, and
/// one behind it lies a block's size further on.
pub proof fn blocks_lie_one_behind_another(v: VolumeView, partition: u16, block: u32)
    ensures
        udf::offset_spec(v, partition, block) is Ok <==> partition < v.partitions.len() && block
            < v.partitions[partition as int].blocks,
        udf::offset_spec(v, partition, block) matches Ok(at) ==> at == block_offset(
            v,
            partition,
            block,
        ) && (block + 1 < v.partitions[partition as int].blocks ==> udf::offset_spec(
            v,
            partition,
            (block + 1) as u32,
        ) == Ok::<nat, RefusalView>(at + v.block_size)),
{
    if partition < v.partitions.len() && block < v.partitions[partition as int].blocks {
        let start = v.partitions[partition as int].start;
        let size = v.block_size;
        assert(0 <= (start + block) * size) by (nonlinear_arith)
            requires
                0 <= start,
                0 <= block,
                0 <= size,
        ;
        assert((start + block + 1) * size == (start + block) * size + size) by (nonlinear_arith);
        assert(start + (block + 1) as u32 == start + block + 1);
    }
}

// ---------------------------------------------------------------------
// Allocation descriptors

/// The length that an allocation descriptor states, in its low thirty bits.
pub open spec fn stated_len(run: Seq<u8>, p: int) -> int {
    little(run, p, 4) as int % 0x4000_0000
}

/// What an allocation descriptor's two highest bits say.
pub open spec fn stated_kind(run: Seq<u8>, p: int) -> int {
    little(run, p, 4) as int / 0x4000_0000
}

/// The partition an allocation descriptor of so many bytes names: a short
/// one names none, and means the file entry's own.
pub open spec fn stated_partition(run: Seq<u8>, p: int, stride: nat, home: u16) -> u16 {
    if stride == 8 {
        home
    } else {
        little(run, p + 8, 2) as u16
    }
}

/// The extent that an allocation descriptor states: none where it is empty.
pub open spec fn stated_extent(
    v: VolumeView,
    run: Seq<u8>,
    p: int,
    stride: nat,
    home: u16,
) -> Option<Extent> {
    if stated_len(run, p) == 0 {
        None
    } else {
        Some(
            Extent {
                offset: block_offset(
                    v,
                    stated_partition(run, p, stride, home),
                    little(run, p + 4, 4) as u32,
                ) as u64,
                len: stated_len(run, p) as u64,
            },
        )
    }
}

/// The extents that allocation descriptors state, in their order.
#[verifier::opaque]
pub open spec fn stated_extents(
    v: VolumeView,
    run: Seq<u8>,
    places: Seq<int>,
    stride: nat,
    home: u16,
) -> Seq<Extent> {
    places.filter_map(|p: int| stated_extent(v, run, p, stride, home))
}

/// Whether these are the places of the allocation descriptors of a run from
/// a byte on, all of them recorded: as many as there is room for, or up to
/// one that says where the run continues.
#[verifier::opaque]
pub open spec fn descriptors_at(
    run: Seq<u8>,
    from: int,
    stride: nat,
    places: Seq<int>,
    continued: bool,
) -> bool {
    let end = if places.len() > 0 {
        places.last() + stride
    } else {
        from
    };
    &&& places.len() > 0 ==> places[0] == from
    &&& forall|k: int|
        #![trigger places[k + 1]]
        0 <= k < places.len() - 1 ==> places[k + 1] == places[k] + stride
    &&& forall|k: int|
        0 <= k < places.len() ==> stated_kind(run, #[trigger] places[k]) == 0 && places[k] + stride
            <= run.len()
    &&& continued ==> end + stride <= run.len() && stated_kind(run, end) == 3
    &&& !continued ==> end + stride > run.len()
}

/// Where the descriptors at these places end.
pub open spec fn descriptors_end(from: int, stride: nat, places: Seq<int>) -> int {
    if places.len() > 0 {
        places.last() + stride
    } else {
        from
    }
}

proof fn lemma_ad(run: Seq<u8>, p: int, stride: nat, home: u16)
    requires
        stride == 8 || stride == 16,
    ensures
        ({
            let ad = udf::ad_at(run, p, stride, home);
            &&& ad.len == little(run, p, 4)
            &&& ad.block == little(run, p + 4, 4)
            &&& ad.partition == stated_partition(run, p, stride, home)
            &&& ad.byte_len() == stated_len(run, p)
            &&& (udf::kind_spec(ad.len) == ExtentKind::Recorded) == (stated_kind(run, p) == 0)
            &&& (udf::kind_spec(ad.len) == ExtentKind::Continuation) == (stated_kind(run, p) == 3)
        }),
{
    numbers_are_read_from_their_last_byte(run, p);
    numbers_are_read_from_their_last_byte(run, p + 4);
    numbers_are_read_from_their_last_byte(run, p + 8);
}

proof fn lemma_descriptors(
    run: Seq<u8>,
    from: int,
    stride: nat,
    rest: Seq<int>,
    continued: bool,
)
    requires
        stride > 0,
        from + stride <= run.len(),
        stated_kind(run, from) == 0,
        descriptors_at(run, from + stride, stride, rest, continued),
    ensures
        descriptors_at(run, from, stride, seq![from] + rest, continued),
        descriptors_end(from, stride, seq![from] + rest) == descriptors_end(
            from + stride,
            stride,
            rest,
        ),
{
    reveal(descriptors_at);
    let places = seq![from] + rest;
    assert forall|k: int|
        #![trigger places[k + 1]]
        0 <= k < places.len() - 1 implies places[k + 1] == places[k] + stride by {
        if k > 0 {
            assert(places[k] == rest[k - 1]);
            assert(rest[(k - 1) + 1] == rest[k - 1] + stride);
        } else {
            assert(places[1] == rest[0]);
        }
    }
    assert forall|k: int| 0 <= k < places.len() implies stated_kind(run, #[trigger] places[k]) == 0
        && places[k] + stride <= run.len() by {
        if k > 0 {
            assert(places[k] == rest[k - 1]);
        }
    }
    if rest.len() > 0 {
        assert(places.last() == rest.last());
    } else {
        assert(places.last() == from);
    }
}

proof fn lemma_stated(
    v: VolumeView,
    run: Seq<u8>,
    p: int,
    rest: Seq<int>,
    stride: nat,
    home: u16,
)
    ensures
        stated_extents(v, run, seq![p] + rest, stride, home) == (match stated_extent(
            v,
            run,
            p,
            stride,
            home,
        ) {
            Some(e) => seq![e],
            None => Seq::empty(),
        }) + stated_extents(v, run, rest, stride, home),
        stated_extents(v, run, Seq::empty(), stride, home) == Seq::<Extent>::empty(),
{
    reveal(stated_extents);
    let f = |p: int| stated_extent(v, run, p, stride, home);
    listing::lemma_kept(seq![p], rest, f);
    listing::lemma_kept_one(p, f);
}

/// What a run of allocation descriptors does at one place.
proof fn lemma_run_step(
    v: VolumeView,
    run: Seq<u8>,
    pos: nat,
    stride: nat,
    home: u16,
    out: Seq<Extent>,
) -> (mid: Seq<Extent>)
    requires
        stride == 8 || stride == 16,
        udf::run_from(v, run, pos, stride, home, out) is Ok,
    ensures
        pos + stride > run.len() ==> udf::run_from(v, run, pos, stride, home, out) == Ok::<
            (Seq<Extent>, Option<LongAd>),
            RefusalView,
        >((out, None)),
        pos + stride <= run.len() && stated_kind(run, pos as int) == 3 ==> udf::run_from(
            v,
            run,
            pos,
            stride,
            home,
            out,
        ) == Ok::<(Seq<Extent>, Option<LongAd>), RefusalView>(
            (out, Some(udf::ad_at(run, pos as int, stride, home))),
        ),
        pos + stride <= run.len() && stated_kind(run, pos as int) != 3 ==> {
            &&& stated_kind(run, pos as int) == 0
            &&& udf::run_from(v, run, pos, stride, home, out) == udf::run_from(
                v,
                run,
                pos + stride,
                stride,
                home,
                mid,
            )
            &&& mid == out + (match stated_extent(v, run, pos as int, stride, home) {
                Some(e) => seq![e],
                None => Seq::empty(),
            })
        },
{
    lemma_ad(run, pos as int, stride, home);
    let ad = udf::ad_at(run, pos as int, stride, home);
    blocks_lie_one_behind_another(v, ad.partition, ad.block);
    if pos + stride <= run.len() && stated_kind(run, pos as int) == 0 && ad.byte_len() > 0 {
        let offset = udf::offset_spec(v, ad.partition, ad.block)->Ok_0;
        let e = Extent { offset: offset as u64, len: ad.byte_len() as u64 };
        assert(out.push(e) =~= out + seq![e]);
        out.push(e)
    } else {
        assert(out + Seq::<Extent>::empty() =~= out);
        out
    }
}

proof fn lemma_run(
    v: VolumeView,
    run: Seq<u8>,
    pos: nat,
    stride: nat,
    home: u16,
    out: Seq<Extent>,
    extents: Seq<Extent>,
    next: Option<LongAd>,
) -> (places: Seq<int>)
    requires
        stride == 8 || stride == 16,
        udf::run_from(v, run, pos, stride, home, out) == Ok::<
            (Seq<Extent>, Option<LongAd>),
            RefusalView,
        >((extents, next)),
    ensures
        descriptors_at(run, pos as int, stride, places, next is Some),
        extents == out + stated_extents(v, run, places, stride, home),
        next matches Some(ad) ==> ad == udf::ad_at(
            run,
            descriptors_end(pos as int, stride, places),
            stride,
            home,
        ),
    decreases run.len() - pos,
{
    let mid = lemma_run_step(v, run, pos, stride, home, out);
    let none = Seq::<int>::empty();
    if pos + stride <= run.len() && stated_kind(run, pos as int) != 3 {
        let rest = lemma_run(v, run, pos + stride, stride, home, mid, extents, next);
        lemma_descriptors(run, pos as int, stride, rest, next is Some);
        lemma_stated(v, run, pos as int, rest, stride, home);
        let e: Seq<Extent> = match stated_extent(v, run, pos as int, stride, home) {
            Some(e) => seq![e],
            None => Seq::empty(),
        };
        listing::lemma_behind(out, e, stated_extents(v, run, rest, stride, home));
        seq![pos as int] + rest
    } else {
        assert(descriptors_at(run, pos as int, stride, none, next is Some)) by {
            reveal(descriptors_at);
        }
        lemma_stated(v, run, 0, none, stride, home);
        listing::lemma_behind(out, Seq::empty(), Seq::empty());
        none
    }
}

/// One run of allocation descriptors with the places of those in it.
pub struct Run {
    pub bytes: Seq<u8>,
    pub places: Seq<int>,
}

/// Whether the bytes of a run are those that the one before it continues
/// in: the block that its last descriptor names starts with a descriptor of
/// 24 bytes, which says how many follow.
pub open spec fn continues_in(
    image: Image,
    v: VolumeView,
    before: Run,
    stride: nat,
    home: u16,
    next: Seq<u8>,
) -> bool {
    let p = descriptors_end(0, stride, before.places);
    let at = block_offset(
        v,
        stated_partition(before.bytes, p, stride, home),
        little(before.bytes, p + 4, 4) as u32,
    );
    &&& 0 <= at && at + 24 + next.len() <= image.bytes.len()
    &&& little(image.bytes, at, 2) == 258
    &&& next.len() == little(image.bytes, at + 20, 4)
    &&& next == image.bytes.subrange(at + 24, at + 24 + next.len())
}

/// Whether these are the runs that a run of allocation descriptors goes
/// through, each but the last saying where the next one is.
pub open spec fn runs_from(
    image: Image,
    v: VolumeView,
    first: Seq<u8>,
    stride: nat,
    home: u16,
    runs: Seq<Run>,
) -> bool {
    &&& runs.len() > 0
    &&& runs[0].bytes == first
    &&& forall|k: int|
        0 <= k < runs.len() ==> descriptors_at(
            (#[trigger] runs[k]).bytes,
            0,
            stride,
            runs[k].places,
            k < runs.len() - 1,
        )
    &&& forall|k: int|
        #![trigger runs[k + 1]]
        0 <= k < runs.len() - 1 ==> continues_in(
            image,
            v,
            runs[k],
            stride,
            home,
            runs[k + 1].bytes,
        )
}

/// The extents that the descriptors of several runs state, in their order.
#[verifier::opaque]
pub open spec fn extents_through(v: VolumeView, runs: Seq<Run>, stride: nat, home: u16) -> Seq<
    Extent,
> {
    runs.map_values(|r: Run| stated_extents(v, r.bytes, r.places, stride, home)).flatten()
}

proof fn lemma_through(v: VolumeView, r: Run, rest: Seq<Run>, stride: nat, home: u16)
    ensures
        extents_through(v, seq![r] + rest, stride, home) == stated_extents(
            v,
            r.bytes,
            r.places,
            stride,
            home,
        ) + extents_through(v, rest, stride, home),
        extents_through(v, Seq::empty(), stride, home) == Seq::<Extent>::empty(),
{
    reveal(extents_through);
    let f = |r: Run| stated_extents(v, r.bytes, r.places, stride, home);
    let all = seq![r] + rest;
    assert(all.map_values(f).drop_first() =~= rest.map_values(f));
    assert(all.map_values(f).first() == f(r));
}

proof fn lemma_continuation(
    image: Image,
    v: VolumeView,
    r: Run,
    stride: nat,
    home: u16,
    used: nat,
)
    requires
        stride == 8 || stride == 16,
        udf::continuation_spec(
            image,
            v,
            udf::ad_at(r.bytes, descriptors_end(0, stride, r.places), stride, home),
            used,
        ) is Ok,
    ensures
        ({
            let (run, _) = udf::continuation_spec(
                image,
                v,
                udf::ad_at(r.bytes, descriptors_end(0, stride, r.places), stride, home),
                used,
            )->Ok_0;
            continues_in(image, v, r, stride, home, run)
        }),
{
    let p = descriptors_end(0, stride, r.places);
    let ad = udf::ad_at(r.bytes, p, stride, home);
    lemma_ad(r.bytes, p, stride, home);
    blocks_lie_one_behind_another(v, ad.partition, ad.block);
    let offset = udf::offset_spec(v, ad.partition, ad.block)->Ok_0;
    let len = if ad.byte_len() < v.block_size {
        ad.byte_len()
    } else {
        v.block_size
    };
    let d = super::read_spec(image, udf::FORMAT@, used, offset, len)->Ok_0;
    let (run, _) = udf::continuation_spec(image, v, ad, used)->Ok_0;
    let at = offset as int;
    assert(d == image.bytes.subrange(at, at + len));
    numbers_are_read_from_their_last_byte(d, 20);
    numbers_are_read_from_their_last_byte(d, 0);
    lemma_little_shift(image.bytes, at, at + len, 20, 4);
    lemma_little_shift(image.bytes, at, at + len, 0, 2);
    assert(run =~= image.bytes.subrange(at + 24, at + 24 + run.len()));
}

/// A number inside a part of some bytes is the number where the part lies.
proof fn lemma_little_shift(b: Seq<u8>, from: int, to: int, at: int, n: nat)
    requires
        0 <= from,
        0 <= at,
        from + at + n <= to <= b.len(),
    ensures
        little(b.subrange(from, to), at, n) == little(b, from + at, n),
    decreases n,
{
    if n > 0 {
        lemma_little_shift(b, from, to, at + 1, (n - 1) as nat);
        assert(b.subrange(from, to)[at] == b[from + at]);
    }
}

proof fn lemma_runs(
    image: Image,
    v: VolumeView,
    stride: nat,
    home: u16,
    r: Run,
    rest: Seq<Run>,
)
    requires
        descriptors_at(r.bytes, 0, stride, r.places, rest.len() > 0),
        rest.len() > 0 ==> runs_from(image, v, rest[0].bytes, stride, home, rest) && continues_in(
            image,
            v,
            r,
            stride,
            home,
            rest[0].bytes,
        ),
    ensures
        runs_from(image, v, r.bytes, stride, home, seq![r] + rest),
{
    let runs = seq![r] + rest;
    assert forall|k: int| 0 <= k < runs.len() implies descriptors_at(
        (#[trigger] runs[k]).bytes,
        0,
        stride,
        runs[k].places,
        k < runs.len() - 1,
    ) by {
        if k > 0 {
            assert(runs[k] == rest[k - 1]);
        }
    }
    assert forall|k: int|
        #![trigger runs[k + 1]]
        0 <= k < runs.len() - 1 implies continues_in(
        image,
        v,
        runs[k],
        stride,
        home,
        runs[k + 1].bytes,
    ) by {
        assert(runs[k + 1] == rest[k]);
        if k > 0 {
            assert(runs[k] == rest[k - 1]);
            assert(continues_in(image, v, rest[k - 1], stride, home, rest[(k - 1) + 1].bytes));
        }
    }
}

proof fn lemma_chain(
    image: Image,
    v: VolumeView,
    run: Seq<u8>,
    stride: nat,
    home: u16,
    out: Seq<Extent>,
    followed: nat,
    used: nat,
    extents: Seq<Extent>,
    end: nat,
) -> (runs: Seq<Run>)
    requires
        stride == 8 || stride == 16,
        udf::chain_spec(image, v, run, stride, home, out, followed, used) == Ok::<
            (Seq<Extent>, nat),
            RefusalView,
        >((extents, end)),
    ensures
        runs_from(image, v, run, stride, home, runs),
        extents == out + extents_through(v, runs, stride, home),
    decreases udf::MAX_AD_CONTINUATIONS + 1 - followed,
{
    let (mid, next) = udf::run_from(v, run, 0, stride, home, out)->Ok_0;
    let places = lemma_run(v, run, 0, stride, home, out, mid, next);
    let r = Run { bytes: run, places };
    let own = stated_extents(v, run, places, stride, home);
    match next {
        None => {
            let rest = Seq::<Run>::empty();
            lemma_runs(image, v, stride, home, r, rest);
            lemma_through(v, r, rest, stride, home);
            listing::lemma_behind(own, Seq::empty(), Seq::empty());
            seq![r] + rest
        },
        Some(ad) => {
            let (more, at) = udf::continuation_spec(image, v, ad, used)->Ok_0;
            lemma_continuation(image, v, r, stride, home, used);
            let rest = lemma_chain(
                image,
                v,
                more,
                stride,
                home,
                mid,
                followed + 1,
                at,
                extents,
                end,
            );
            lemma_runs(image, v, stride, home, r, rest);
            lemma_through(v, r, rest, stride, home);
            listing::lemma_behind(out, own, extents_through(v, rest, stride, home));
            seq![r] + rest
        },
    }
}

// ---------------------------------------------------------------------
// File entries

/// What a file entry states, from the bytes of the block it stands in: its
/// type, the length of its file, and where the file's bytes lie. The fixed
/// part takes 176 bytes, or 216 in an extended one, the extended attributes
/// follow, and then the allocation descriptors: short ones, long ones, or
/// the file's bytes in their place. No extent that a descriptor states is
/// left out, in whichever run it stands, and none is added.
pub proof fn a_file_entry_states_where_its_file_lies(
    image: Image,
    v: VolumeView,
    icb: LongAd,
    used: nat,
) -> (runs: Seq<Run>)
    requires
        udf::entry_spec(image, v, icb, used) is Ok,
    ensures
        ({
            let (e, _) = udf::entry_spec(image, v, icb, used)->Ok_0;
            let at = block_offset(v, icb.partition, icb.block);
            let d = image.bytes.subrange(at, at + v.block_size);
            let fixed: int = if little(d, 0, 2) == 266 {
                216
            } else {
                176
            };
            let from = fixed + little(d, fixed - 8, 4);
            let to = from + little(d, fixed - 4, 4);
            let kind = little(d, 34, 2) % 8;
            &&& icb.partition < v.partitions.len()
            &&& icb.block < v.partitions[icb.partition as int].blocks
            &&& 0 <= at && at + v.block_size <= image.bytes.len()
            &&& little(d, 0, 2) == 261 || little(d, 0, 2) == 266
            &&& e.file_type == d[27]
            &&& e.info_len == little(d, 56, 8)
            &&& to <= v.block_size
            &&& kind == 0 || kind == 1 || kind == 3
            &&& kind == 3 ==> e.extents == seq![
                Extent { offset: (at + from) as u64, len: (to - from) as u64 },
            ]
            &&& kind == 0 ==> runs_from(image, v, d.subrange(from, to), 8, icb.partition, runs)
                && e.extents == extents_through(v, runs, 8, icb.partition)
            &&& kind == 1 ==> runs_from(image, v, d.subrange(from, to), 16, icb.partition, runs)
                && e.extents == extents_through(v, runs, 16, icb.partition)
        }),
{
    let (e, end) = udf::entry_spec(image, v, icb, used)->Ok_0;
    blocks_lie_one_behind_another(v, icb.partition, icb.block);
    let offset = udf::offset_spec(v, icb.partition, icb.block)->Ok_0;
    let at = offset as int;
    let d = super::read_spec(image, udf::FORMAT@, used, offset, v.block_size)->Ok_0;
    assert(d.len() >= 16);
    assert(d == image.bytes.subrange(at, at + v.block_size));
    let h = udf::header_spec(d)->Ok_0;
    let fixed: int = if super::u16_at(d, 0) == 266 {
        216
    } else {
        176
    };
    numbers_are_read_from_their_last_byte(d, 0);
    numbers_are_read_from_their_last_byte(d, 34);
    numbers_are_read_from_their_last_byte(d, 56);
    numbers_are_read_from_their_last_byte(d, fixed - 8);
    numbers_are_read_from_their_last_byte(d, fixed - 4);
    let run = d.subrange(h.from, h.to);
    let begun = used + v.block_size;
    let none = Seq::<Extent>::empty();
    if h.kind == 0 {
        let runs = lemma_chain(
            image,
            v,
            run,
            8,
            icb.partition,
            none,
            0,
            begun,
            e.extents,
            end,
        );
        listing::lemma_behind(extents_through(v, runs, 8, icb.partition), none, none);
        runs
    } else if h.kind == 1 {
        let runs = lemma_chain(
            image,
            v,
            run,
            16,
            icb.partition,
            none,
            0,
            begun,
            e.extents,
            end,
        );
        listing::lemma_behind(extents_through(v, runs, 16, icb.partition), none, none);
        runs
    } else {
        Seq::empty()
    }
}

/// The bytes that a list of extents covers, one after the other.
pub open spec fn covered(image: Image, extents: Seq<Extent>) -> Seq<u8>
    decreases extents.len(),
{
    if extents.len() == 0 {
        Seq::empty()
    } else {
        image.bytes.subrange(extents[0].offset as int, extents[0].offset + extents[0].len)
            + covered(image, extents.skip(1))
    }
}

proof fn lemma_content(
    image: Image,
    extents: Seq<Extent>,
    left: nat,
    whole: nat,
    out: Seq<u8>,
    used: nat,
)
    requires
        udf::content_from(image, extents, left, whole, out, used) is Ok,
        forall|i: int|
            0 <= i < extents.len() ==> (#[trigger] extents[i]).offset + extents[i].len
                <= image.bytes.len(),
    ensures
        ({
            let (bytes, _) = udf::content_from(image, extents, left, whole, out, used)->Ok_0;
            left <= covered(image, extents).len() && bytes == out + covered(image, extents).take(
                left as int,
            )
        }),
    decreases extents.len(),
{
    let (bytes, _) = udf::content_from(image, extents, left, whole, out, used)->Ok_0;
    let all = covered(image, extents);
    if left == 0 {
        assert(bytes =~= out + all.take(0));
    } else {
        let e = extents[0];
        let want: nat = if e.len < left {
            e.len as nat
        } else {
            left
        };
        let part = super::read_spec(image, udf::FORMAT@, used, e.offset as nat, want)->Ok_0;
        assert(extents[0].offset + extents[0].len <= image.bytes.len());
        let first = image.bytes.subrange(e.offset as int, e.offset + e.len);
        assert(part =~= first.take(want as int));
        let rest = extents.skip(1);
        assert forall|i: int| 0 <= i < rest.len() implies (#[trigger] rest[i]).offset + rest[i].len
            <= image.bytes.len() by {
            assert(rest[i] == extents[i + 1]);
        }
        lemma_content(image, rest, (left - want) as nat, whole, out + part, used + want);
        let more = covered(image, rest);
        assert(all.take(left as int) =~= part + more.take(left - want));
        assert(out + part + more.take(left - want) =~= out + all.take(left as int));
    }
}

/// A directory's bytes are the first that its extents cover, as many as its
/// file entry says.
pub proof fn a_directory_is_what_its_extents_cover(image: Image, entry: EntryView, used: nat)
    requires
        udf::content_spec(image, entry, used) is Ok,
        forall|i: int|
            0 <= i < entry.extents.len() ==> (#[trigger] entry.extents[i]).offset
                + entry.extents[i].len <= image.bytes.len(),
    ensures
        ({
            let (bytes, _) = udf::content_spec(image, entry, used)->Ok_0;
            entry.info_len <= covered(image, entry.extents).len() && bytes == covered(
                image,
                entry.extents,
            ).take(entry.info_len as int)
        }),
{
    let whole = entry.info_len;
    lemma_content(image, entry.extents, whole, whole, Seq::empty(), used);
    listing::lemma_behind(
        covered(image, entry.extents).take(whole as int),
        Seq::empty(),
        Seq::empty(),
    );
}

// ---------------------------------------------------------------------
// Names

/// A name whose first byte is 8 is one character per byte behind it, the
/// byte being the code point; one whose first byte is 16 is one character
/// for each two, the more significant first, where no two pairs of them make
/// one together. A name of no bytes is empty, and no other can be read.
pub proof fn a_name_says_how_it_is_written(raw: Seq<u8>)
    ensures
        raw.len() == 0 ==> udf::cs0_spec(raw) == Some(Seq::<char>::empty()),
        raw.len() > 0 ==> (udf::cs0_spec(raw) is Some <==> raw[0] == 8 || raw[0] == 16),
        raw.len() > 0 && raw[0] == 8 ==> udf::cs0_spec(raw)->0.len() == raw.len() - 1 && forall|
            i: int,
        |
            0 <= i < raw.len() - 1 ==> #[trigger] udf::cs0_spec(raw)->0[i] as int == raw[i + 1],
        raw.len() > 0 && raw[0] == 16 && (forall|i: int|
            0 <= i < (raw.len() - 1) / 2 ==> !(0xd8 <= #[trigger] raw[2 * i + 1] <= 0xdf))
            ==> udf::cs0_spec(raw)->0.len() == (raw.len() - 1) / 2 && forall|i: int|
            0 <= i < (raw.len() - 1) / 2 ==> #[trigger] udf::cs0_spec(raw)->0[i] as int == raw[2 * i
                + 1] * 256 + raw[2 * i + 2],
{
    if raw.len() > 0 && raw[0] == 16 {
        let rest = raw.skip(1);
        let units = text::big_endian_units(rest);
        if forall|i: int|
            0 <= i < (raw.len() - 1) / 2 ==> !(0xd8 <= #[trigger] raw[2 * i + 1] <= 0xdf) {
            assert forall|i: int| 0 <= i < units.len() implies !(0xd800 <= #[trigger] units[i]
                <= 0xdfff) && units[i] as int == raw[2 * i + 1] * 256 + raw[2 * i + 2] by {
                assert(rest[2 * i] == raw[2 * i + 1]);
                assert(rest[2 * i + 1] == raw[2 * i + 2]);
                assert(!(0xd8 <= raw[2 * i + 1] <= 0xdf));
            }
            text::lemma_plain_units(units);
        }
    }
}

// ---------------------------------------------------------------------
// Extents

/// Extents cover what the first of them do and then what the others do.
pub proof fn extents_cover_one_behind_another(image: Image, a: Seq<Extent>, b: Seq<Extent>)
    ensures
        covered(image, a + b) == covered(image, a) + covered(image, b),
        super::total_len(a + b) == super::total_len(a) + super::total_len(b),
    decreases a.len(),
{
    if a.len() == 0 {
        assert(a + b =~= b);
        listing::lemma_behind(covered(image, b), Seq::empty(), Seq::empty());
    } else {
        assert((a + b).skip(1) =~= a.skip(1) + b);
        assert((a + b)[0] == a[0]);
        extents_cover_one_behind_another(image, a.skip(1), b);
        listing::lemma_behind(
            image.bytes.subrange(a[0].offset as int, a[0].offset + a[0].len),
            covered(image, a.skip(1)),
            covered(image, b),
        );
    }
}

/// The extents of a file cut to its length cover the first bytes that the
/// given ones cover, as many as the length says; so a file is read from
/// where its file entry put it.
pub proof fn a_file_is_the_first_bytes_of_its_extents(
    image: Image,
    extents: Seq<Extent>,
    len: nat,
)
    requires
        len <= super::total_len(extents),
        len <= u64::MAX,
        forall|i: int|
            0 <= i < extents.len() ==> (#[trigger] extents[i]).offset + extents[i].len
                <= image.bytes.len(),
    ensures
        covered(image, super::first_bytes(extents, len)) == covered(image, extents).take(
            len as int,
        ),
        covered(image, extents).len() == super::total_len(extents),
    decreases extents.len(),
{
    let all = covered(image, extents);
    if extents.len() == 0 {
        assert(covered(image, super::first_bytes(extents, len)) =~= all.take(len as int));
    } else {
        let e = extents[0];
        let rest = extents.skip(1);
        assert(extents[0].offset + extents[0].len <= image.bytes.len());
        assert forall|i: int| 0 <= i < rest.len() implies (#[trigger] rest[i]).offset + rest[i].len
            <= image.bytes.len() by {
            assert(rest[i] == extents[i + 1]);
        }
        let first = image.bytes.subrange(e.offset as int, e.offset + e.len);
        let more = covered(image, rest);
        let cut: nat = if len > e.len {
            (len - e.len) as nat
        } else {
            0
        };
        a_file_is_the_first_bytes_of_its_extents(image, rest, cut);
        if len == 0 {
            assert(covered(image, super::first_bytes(extents, len)) =~= all.take(0));
        } else if e.len == 0 {
            assert(first =~= Seq::empty());
            assert(all =~= more);
        } else if e.len > len {
            let one = seq![Extent { offset: e.offset, len: len as u64 }];
            assert(one.skip(1) =~= Seq::empty());
            assert(covered(image, one.skip(1)) =~= Seq::empty());
            assert(covered(image, one) =~= all.take(len as int));
        } else {
            let kept = super::first_bytes(rest, cut);
            assert((seq![e] + kept).skip(1) =~= kept);
            assert(covered(image, seq![e] + kept) == first + covered(image, kept));
            assert(first + more.take(cut as int) =~= all.take(len as int));
        }
    }
}

/// Extents lie inside an image exactly if each of them does.
pub proof fn extents_lie_inside_where_each_does(extents: Seq<Extent>, image_len: nat)
    ensures
        super::within_spec(extents, image_len) is Ok <==> forall|i: int|
            0 <= i < extents.len() ==> (#[trigger] extents[i]).offset + extents[i].len <= image_len,
    decreases extents.len(),
{
    if extents.len() > 0 {
        let rest = extents.skip(1);
        extents_lie_inside_where_each_does(rest, image_len);
        if super::within_spec(extents, image_len) is Ok {
            assert forall|i: int| 0 <= i < extents.len() implies (#[trigger] extents[i]).offset
                + extents[i].len <= image_len by {
                if i > 0 {
                    assert(rest[i - 1] == extents[i]);
                }
            }
        }
        if forall|i: int|
            0 <= i < extents.len() ==> (#[trigger] extents[i]).offset + extents[i].len
                <= image_len {
            assert(extents[0].offset + extents[0].len <= image_len);
            assert forall|i: int| 0 <= i < rest.len() implies (#[trigger] rest[i]).offset
                + rest[i].len <= image_len by {
                assert(rest[i] == extents[i + 1]);
            }
        }
    }
}

/// What is read of an image is the bytes that lie there, where they all lie
/// inside it and no more than eight mebibytes are read of it in all; nothing
/// else is refused.
pub proof fn what_is_read_is_what_lies_there(
    image: Image,
    format: Seq<char>,
    used: nat,
    offset: nat,
    len: nat,
)
    requires
        image.len == image.bytes.len(),
        image.len <= u64::MAX,
    ensures
        super::read_spec(image, format, used, offset, len) is Ok <==> used + len <= 0x80_0000
            && offset + len <= image.len,
        super::read_spec(image, format, used, offset, len) matches Ok(b) ==> b.len() == len
            && forall|i: int| 0 <= i < len ==> #[trigger] b[i] == image.bytes[offset + i],
{
}

// ---------------------------------------------------------------------
// Tags

/// A descriptor is taken for one where the bytes of its tag but its fifth
/// add up to that one, in its low eight bits, the bytes behind the tag that
/// it counts are there, and their CRC is the one it states; it is then what
/// its first two bytes say.
pub proof fn a_descriptor_vouches_for_itself(d: Seq<u8>)
    requires
        d.len() >= 16,
        exists|i: int| 0 <= i < 16 && #[trigger] d[i] != 0,
    ensures
        ({
            let n = little(d, 10, 2) as int;
            let sum = d[0] + d[1] + d[2] + d[3] + d[5] + d[6] + d[7] + d[8] + d[9] + d[10] + d[11]
                + d[12] + d[13] + d[14] + d[15];
            udf::tag_spec(d) matches Ok(tag) ==> tag == Some(little(d, 0, 2) as u16) && sum % 256
                == d[4] && 16 + n <= d.len() && udf::crc_spec(d.subrange(16, 16 + n)) == little(
                d,
                8,
                2,
            )
        }),
        ({
            let n = little(d, 10, 2) as int;
            let sum = d[0] + d[1] + d[2] + d[3] + d[5] + d[6] + d[7] + d[8] + d[9] + d[10] + d[11]
                + d[12] + d[13] + d[14] + d[15];
            sum % 256 == d[4] && 16 + n <= d.len() && udf::crc_spec(d.subrange(16, 16 + n))
                == little(d, 8, 2) ==> udf::tag_spec(d) is Ok
        }),
{
    numbers_are_read_from_their_last_byte(d, 0);
    numbers_are_read_from_their_last_byte(d, 8);
    numbers_are_read_from_their_last_byte(d, 10);
    let a = d.subrange(0, 4);
    let b = d.subrange(5, 16);
    lemma_sum(a, 4);
    lemma_sum(b, 11);
    reveal_with_fuel(sum_of_first, 12);
    let i = choose|i: int| 0 <= i < 16 && #[trigger] d[i] != 0;
    assert(!udf::blank_tag(d));
    assert(a[0] == d[0] && a[1] == d[1] && a[2] == d[2] && a[3] == d[3]);
    assert(b[0] == d[5] && b[1] == d[6] && b[2] == d[7] && b[3] == d[8] && b[4] == d[9] && b[5]
        == d[10] && b[6] == d[11] && b[7] == d[12] && b[8] == d[13] && b[9] == d[14] && b[10]
        == d[15]);
}

spec fn sum_of_first(b: Seq<u8>, n: nat) -> nat
    decreases n,
{
    if n == 0 {
        0
    } else {
        sum_of_first(b, (n - 1) as nat) + b[n - 1] as nat
    }
}

proof fn lemma_sum(b: Seq<u8>, n: nat)
    requires
        n <= b.len(),
    ensures
        udf::byte_sum(b.take(n as int)) == sum_of_first(b, n),
        n == b.len() ==> udf::byte_sum(b) == sum_of_first(b, n),
    decreases n,
{
    if n > 0 {
        lemma_sum(b, (n - 1) as nat);
        assert(b.take(n as int).drop_last() =~= b.take(n - 1));
        assert(b.take(n as int).last() == b[n - 1]);
    }
    if n == b.len() {
        assert(b.take(n as int) =~= b);
    }
}

// ---------------------------------------------------------------------
// What is refused

/// A file entry is read where its ICB names recorded bytes of a block that
/// there is, the block can be read, the entry in it is a plain or an
/// extended one of the direct strategy whose descriptors end inside it, and
/// these can be followed.
pub proof fn a_file_entry_is_read_where_it_is_one(
    image: Image,
    v: VolumeView,
    icb: LongAd,
    used: nat,
    d: Seq<u8>,
)
    requires
        1 <= icb.len < 0x4000_0000,
        icb.partition < v.partitions.len(),
        icb.block < v.partitions[icb.partition as int].blocks,
        super::read_spec(
            image,
            udf::FORMAT@,
            used,
            block_offset(v, icb.partition, icb.block) as nat,
            v.block_size,
        ) == Ok::<Seq<u8>, RefusalView>(d),
        d.len() >= 216,
        d.len() <= usize::MAX,
        udf::tag_spec(d) == Ok::<Option<u16>, RefusalView>(Some(261u16)) || udf::tag_spec(d)
            == Ok::<Option<u16>, RefusalView>(Some(266u16)),
        little(d, 20, 2) == 4,
        ({
            let fixed: int = if udf::tag_spec(d)->Ok_0 == Some(266u16) {
                216
            } else {
                176
            };
            fixed + little(d, fixed - 8, 4) + little(d, fixed - 4, 4) <= d.len()
        }),
        little(d, 34, 2) % 8 == 3,
    ensures
        udf::entry_spec(image, v, icb, used) is Ok,
{
    blocks_lie_one_behind_another(v, icb.partition, icb.block);
    numbers_are_read_from_their_last_byte(d, 20);
    numbers_are_read_from_their_last_byte(d, 34);
    let fixed: int = if udf::tag_spec(d)->Ok_0 == Some(266u16) {
        216
    } else {
        176
    };
    numbers_are_read_from_their_last_byte(d, fixed - 8);
    numbers_are_read_from_their_last_byte(d, fixed - 4);
}

/// A run of allocation descriptors is followed where each in it is recorded
/// or says where it goes on, each that is not empty names a block that there
/// is, and there are not more than 65536.
pub proof fn a_run_of_good_descriptors_is_followed(
    v: VolumeView,
    run: Seq<u8>,
    pos: nat,
    stride: nat,
    home: u16,
    out: Seq<Extent>,
    places: Seq<int>,
    continued: bool,
)
    requires
        stride == 8 || stride == 16,
        descriptors_at(run, pos as int, stride, places, continued),
        out.len() + places.len() <= 65536,
        forall|k: int|
            0 <= k < places.len() && stated_len(run, #[trigger] places[k]) > 0 ==> stated_partition(
                run,
                places[k],
                stride,
                home,
            ) < v.partitions.len() && little(run, places[k] + 4, 4) < v.partitions[stated_partition(
                run,
                places[k],
                stride,
                home,
            ) as int].blocks,
    ensures
        udf::run_from(v, run, pos, stride, home, out) matches Ok((_, next)) && next is Some
            == continued,
    decreases places.len(),
{
    lemma_ad(run, pos as int, stride, home);
    reveal(descriptors_at);
    if places.len() > 0 {
        let p = places[0];
        assert(stated_kind(run, places[0]) == 0);
        let ad = udf::ad_at(run, pos as int, stride, home);
        blocks_lie_one_behind_another(v, ad.partition, ad.block);
        let rest = places.skip(1);
        assert(descriptors_at(run, (pos + stride) as int, stride, rest, continued)) by {
            assert forall|k: int|
                #![trigger rest[k + 1]]
                0 <= k < rest.len() - 1 implies rest[k + 1] == rest[k] + stride by {
                assert(rest[k] == places[k + 1]);
                assert(rest[k + 1] == places[(k + 1) + 1]);
            }
            assert forall|k: int| 0 <= k < rest.len() implies stated_kind(run, #[trigger] rest[k])
                == 0 && rest[k] + stride <= run.len() by {
                assert(rest[k] == places[k + 1]);
            }
            if rest.len() > 0 {
                assert(rest[0] == places[1]);
                assert(rest.last() == places.last());
            } else {
                assert(places.last() == p);
            }
        }
        assert forall|k: int|
            0 <= k < rest.len() && stated_len(run, #[trigger] rest[k]) > 0 implies stated_partition(
            run,
            rest[k],
            stride,
            home,
        ) < v.partitions.len() && little(run, rest[k] + 4, 4) < v.partitions[stated_partition(
            run,
            rest[k],
            stride,
            home,
        ) as int].blocks by {
            assert(rest[k] == places[k + 1]);
        }
        let next = if ad.byte_len() == 0 {
            out
        } else {
            out.push(
                Extent {
                    offset: udf::offset_spec(v, ad.partition, ad.block)->Ok_0 as u64,
                    len: ad.byte_len() as u64,
                },
            )
        };
        a_run_of_good_descriptors_is_followed(
            v,
            run,
            pos + stride,
            stride,
            home,
            next,
            rest,
            continued,
        );
    }
}

/// Allocation descriptors are followed into as many as 64 further extents,
/// each of which is read from where the one before says it is.
pub proof fn descriptors_are_followed_into_further_extents(
    image: Image,
    v: VolumeView,
    run: Seq<u8>,
    stride: nat,
    home: u16,
    out: Seq<Extent>,
    followed: nat,
    used: nat,
    mid: Seq<Extent>,
    next: LongAd,
    more: Seq<u8>,
    end: nat,
)
    requires
        udf::run_from(v, run, 0, stride, home, out) == Ok::<
            (Seq<Extent>, Option<LongAd>),
            RefusalView,
        >((mid, Some(next))),
        udf::continuation_spec(image, v, next, used) == Ok::<(Seq<u8>, nat), RefusalView>(
            (more, end),
        ),
    ensures
        followed < 64 ==> udf::chain_spec(image, v, run, stride, home, out, followed, used)
            == udf::chain_spec(image, v, more, stride, home, mid, followed + 1, end),
        followed >= 64 ==> udf::chain_spec(image, v, run, stride, home, out, followed, used) is Err,
{
}

/// A further extent of allocation descriptors is read where it has room for
/// its own descriptor, that vouches for itself and says what it is, and the
/// allocation descriptors it counts end inside it.
pub proof fn a_further_extent_is_read_where_it_is_one(
    image: Image,
    v: VolumeView,
    next: LongAd,
    used: nat,
    d: Seq<u8>,
)
    requires
        next.partition < v.partitions.len(),
        next.block < v.partitions[next.partition as int].blocks,
        next.len as int % 0x4000_0000 >= 24,
        v.block_size >= 24,
        super::read_spec(
            image,
            udf::FORMAT@,
            used,
            block_offset(v, next.partition, next.block) as nat,
            if next.len as int % 0x4000_0000 < v.block_size {
                (next.len as int % 0x4000_0000) as nat
            } else {
                v.block_size
            },
        ) == Ok::<Seq<u8>, RefusalView>(d),
        udf::tag_spec(d) == Ok::<Option<u16>, RefusalView>(Some(258u16)),
        24 + little(d, 20, 4) <= d.len(),
    ensures
        udf::continuation_spec(image, v, next, used) == Ok::<(Seq<u8>, nat), RefusalView>(
            (d.subrange(24, 24 + little(d, 20, 4) as int), used + d.len()),
        ),
{
    blocks_lie_one_behind_another(v, next.partition, next.block);
    numbers_are_read_from_their_last_byte(d, 20);
}

/// A directory's bytes are read where its extents lie inside the image,
/// cover its length, and no more is read of the image than may be.
pub proof fn a_directory_that_lies_inside_is_read(
    image: Image,
    extents: Seq<Extent>,
    left: nat,
    whole: nat,
    out: Seq<u8>,
    used: nat,
)
    requires
        image.len == image.bytes.len(),
        image.len <= u64::MAX,
        left <= usize::MAX,
        left <= super::total_len(extents),
        used + left <= 0x80_0000,
        forall|i: int|
            0 <= i < extents.len() ==> (#[trigger] extents[i]).offset + extents[i].len <= image.len,
    ensures
        udf::content_from(image, extents, left, whole, out, used) is Ok,
    decreases extents.len(),
{
    if left > 0 {
        assert(extents[0].offset + extents[0].len <= image.len);
        let want: nat = if extents[0].len < left {
            extents[0].len as nat
        } else {
            left
        };
        let rest = extents.skip(1);
        assert forall|i: int| 0 <= i < rest.len() implies (#[trigger] rest[i]).offset + rest[i].len
            <= image.len by {
            assert(rest[i] == extents[i + 1]);
        }
        let part = super::read_spec(
            image,
            udf::FORMAT@,
            used,
            extents[0].offset as nat,
            want,
        )->Ok_0;
        a_directory_that_lies_inside_is_read(
            image,
            rest,
            (left - want) as nat,
            whole,
            out + part,
            used + want,
        );
    }
}

} // verus!
