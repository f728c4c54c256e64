//! UDF (ECMA-167 / OSTA UDF), the half of this module that matters for
//! Blu-ray.
//!
//! The walk, each step reading one or two sectors:
//!
//! 1. The anchor volume descriptor pointer at sector 256 (and, as the
//!    standard allows, at the last sector and 256 before it), which gives
//!    the extent of the main volume descriptor sequence.
//! 2. The volume descriptor sequence: the partition descriptor and the
//!    logical volume descriptor.
//! 3. The file set descriptor, which points at the root directory's ICB.
//! 4. File entries (tag 261) and extended file entries (tag 266). A
//!    directory's data is a run of file identifier descriptors (tag 257),
//!    each naming a child and pointing at its ICB. A file's allocation
//!    descriptors are its extents.
//!
//! Every descriptor carries a tag with a checksum over the tag itself and a
//! CRC over the descriptor's body. Both are checked.
//!
//! Virtual, sparable and metadata partition maps, sparse files and a file
//! set descriptor sequence that continues are refused, each by name. Short,
//! long and inline allocation descriptors are supported; inline data is a
//! real byte range of the image, so it is an extent like any other.
use super::iso9660::{bad_name, check_files, valid_block_size};
use super::{
    iso9660, le_u16, le_u32, le_u64, trim_to_len, Budget, Extent, FileView, Image, ImageFile,
    ImageFormat, ImageIndex, ImageReader, IndexView, Refusal, RefusalView, SECTOR,
};
use crate::text;
use crate::text::{
    cat3, cat5, cat7, chars_of, decimal, from_latin1, from_utf16_be, from_utf8_lossy, substring,
    trimmed_range,
};
use vstd::prelude::*;
use vstd::slice::{slice_subrange, slice_to_vec};

verus! {

pub const FORMAT: &'static str = "UDF";

/// Where the standard puts the anchor.
pub const ANCHOR_SECTOR: u64 = 256;

// Descriptor tag identifiers (ECMA-167 3/7.2.1 and 4/7.2.1).
pub const TAG_ANCHOR: u16 = 2;

pub const TAG_PARTITION: u16 = 5;

pub const TAG_LOGICAL_VOLUME: u16 = 6;

pub const TAG_TERMINATING: u16 = 8;

pub const TAG_FILE_SET: u16 = 256;

pub const TAG_FILE_IDENTIFIER: u16 = 257;

pub const TAG_ALLOCATION_EXTENT: u16 = 258;

pub const TAG_INDIRECT_ENTRY: u16 = 259;

pub const TAG_FILE_ENTRY: u16 = 261;

pub const TAG_EXTENDED_FILE_ENTRY: u16 = 266;

// ICB file types (ECMA-167 4/14.6.6).
pub const FILE_TYPE_DIRECTORY: u8 = 4;

pub const FILE_TYPE_REGULAR: u8 = 5;

/// The only ICB strategy this reads: one direct entry.
pub const ICB_STRATEGY_DIRECT: u16 = 4;

/// How many descriptors of the volume descriptor sequence are read before
/// the sequence is called malformed.
pub const MAX_VDS_DESCRIPTORS: u64 = 64;

/// How many allocation-descriptor continuation blocks one file may chain.
pub const MAX_AD_CONTINUATIONS: usize = 64;

/// How deep the directory tree is walked.
pub const MAX_DEPTH: usize = 64;

/// How many files an image may hold.
pub const MAX_FILES: usize = 65_536;

/// Whether a refusal is the one that is due, as a budget that reads for a
/// format tells it.
pub open spec fn refuses<T>(
    due: Result<T, RefusalView>,
    refusal: RefusalView,
    format: Seq<char>,
) -> bool {
    due is Err && refusal == super::told_as(due->Err_0, FORMAT@, format)
}

/// Something the image contradicts itself with.
pub open spec fn bad(detail: Seq<char>) -> RefusalView {
    RefusalView::Malformed { format: FORMAT@, detail }
}

/// A structure that is not read.
pub open spec fn unread(what: Seq<char>) -> RefusalView {
    RefusalView::Unsupported { format: FORMAT@, what }
}

// ---------------------------------------------------------------------
// Descriptor tags

/// The sum of a run of bytes.
pub open spec fn byte_sum(bytes: Seq<u8>) -> nat
    decreases bytes.len(),
{
    if bytes.len() == 0 {
        0
    } else {
        byte_sum(bytes.drop_last()) + bytes.last() as nat
    }
}

fn sum_of(bytes: &[u8]) -> (n: u32)
    requires
        bytes@.len() <= 16,
    ensures
        n == byte_sum(bytes@),
{
    let mut n: u32 = 0;
    let mut i: usize = 0;
    while i < bytes.len()
        invariant
            i <= bytes@.len() <= 16,
            n == byte_sum(bytes@.take(i as int)),
            n <= 255 * i,
        decreases bytes@.len() - i,
    {
        proof {
            assert(bytes@.take(i + 1).drop_last() =~= bytes@.take(i as int));
        }
        n += bytes[i] as u32;
        i += 1;
    }
    proof {
        assert(bytes@.take(bytes@.len() as int) =~= bytes@);
    }
    n
}

/// One bit of the CRC: the register shifts left, and the polynomial is added
/// when a bit leaves it.
pub open spec fn crc_bit(crc: u16) -> u16 {
    if crc & 0x8000 != 0 {
        (crc << 1) ^ 0x1021
    } else {
        crc << 1
    }
}

/// Several bits of the CRC.
pub open spec fn crc_bits(crc: u16, n: nat) -> u16
    decreases n,
{
    if n == 0 {
        crc
    } else {
        crc_bit(crc_bits(crc, (n - 1) as nat))
    }
}

/// CRC-ITU-T (polynomial `x^16 + x^12 + x^5 + 1`, zero seed) of a run of
/// bytes.
pub open spec fn crc_spec(bytes: Seq<u8>) -> u16
    decreases bytes.len(),
{
    if bytes.len() == 0 {
        0
    } else {
        crc_bits(crc_spec(bytes.drop_last()) ^ ((bytes.last() as u16) << 8), 8)
    }
}

/// CRC-ITU-T, which is the CRC every ECMA-167 descriptor tag carries.
pub fn crc_itu_t(bytes: &[u8]) -> (crc: u16)
    ensures
        crc == crc_spec(bytes@),
{
    let mut crc: u16 = 0;
    let mut i: usize = 0;
    while i < bytes.len()
        invariant
            i <= bytes@.len(),
            crc == crc_spec(bytes@.take(i as int)),
        decreases bytes@.len() - i,
    {
        proof {
            assert(bytes@.take(i + 1).drop_last() =~= bytes@.take(i as int));
        }
        crc = crc ^ ((bytes[i] as u16) << 8u16);
        let ghost start = crc;
        let mut k: u32 = 0;
        while k < 8
            invariant
                k <= 8,
                crc == crc_bits(start, k as nat),
            decreases 8 - k,
        {
            crc = if crc & 0x8000 != 0 {
                (crc << 1u16) ^ 0x1021
            } else {
                crc << 1u16
            };
            k += 1;
        }
        i += 1;
    }
    proof {
        assert(bytes@.take(bytes@.len() as int) =~= bytes@);
    }
    crc
}

/// Whether the first sixteen bytes are all zero.
pub open spec fn blank_tag(d: Seq<u8>) -> bool {
    forall|i: int| 0 <= i < 16 ==> d[i] == 0
}

/// The identifier of the descriptor that `d` starts with. An all-zero tag is
/// unwritten space, and no descriptor.
pub open spec fn tag_spec(d: Seq<u8>) -> Result<Option<u16>, RefusalView> {
    if d.len() < 16 {
        Err(bad("a descriptor is shorter than its tag"@))
    } else if blank_tag(d) {
        Ok(None)
    } else {
        let ident = super::u16_at(d, 0);
        let crc_len = super::u16_at(d, 10);
        if (byte_sum(d.subrange(0, 4)) + byte_sum(d.subrange(5, 16))) % 256 != d[4] {
            Err(
                bad(
                    "a descriptor with tag "@ + text::dec(ident as nat)
                        + " fails its own tag checksum"@,
                ),
            )
        } else if 16 + crc_len > d.len() {
            Err(
                bad(
                    "a descriptor with tag "@ + text::dec(ident as nat) + " says its body is "@
                        + text::dec(crc_len as nat) + " bytes and "@ + text::dec(
                        (d.len() - 16) as nat,
                    ) + " are there"@,
                ),
            )
        } else if crc_spec(d.subrange(16, 16 + crc_len)) != super::u16_at(d, 8) {
            Err(
                bad("a descriptor with tag "@ + text::dec(ident as nat) + " fails its own CRC"@),
            )
        } else {
            Ok(Some(ident as u16))
        }
    }
}

/// Verify a descriptor tag and return its identifier; `None` means the tag
/// is all zeros, which ends a sequence rather than failing it.
pub fn check_tag<'a, R: ImageReader>(d: &[u8], budget: &Budget<'a, R>) -> (r: Result<
    Option<u16>,
    Refusal,
>)
    ensures
        match r {
            Ok(t) => tag_spec(d@) == Ok::<Option<u16>, RefusalView>(t),
            Err(e) => refuses(tag_spec(d@), e@, budget.format_name()),
        },
{
    if d.len() < 16 {
        return Err(budget.malformed("a descriptor is shorter than its tag"));
    }
    let mut blank = true;
    let mut i: usize = 0;
    while i < 16
        invariant
            i <= 16 <= d@.len(),
            blank == forall|j: int| 0 <= j < i ==> d@[j] == 0,
        decreases 16 - i,
    {
        if d[i] != 0 {
            blank = false;
        }
        i += 1;
    }
    if blank {
        return Ok(None);
    }
    let (ident, crc, crc_len) = match (le_u16(d, 0), le_u16(d, 8), le_u16(d, 10)) {
        (Some(a), Some(b), Some(c)) => (a, b, c),
        _ => {
            return Ok(None);
        },
    };
    let number = decimal(ident as u64);
    let low: u32 = sum_of(slice_subrange(d, 0, 4));
    let high: u32 = sum_of(slice_subrange(d, 5, 16));
    proof {
        lemma_byte_sum_bound(d@.subrange(0, 4));
        lemma_byte_sum_bound(d@.subrange(5, 16));
    }
    if (low + high) % 256 != d[4] as u32 {
        return Err(
            budget.malformed(
                cat3(
                    "a descriptor with tag ",
                    number.as_str(),
                    " fails its own tag checksum",
                ).as_str(),
            ),
        );
    }
    let body_len: usize = crc_len as usize;
    if d.len() - 16 < body_len {
        let claimed = decimal(crc_len as u64);
        let there = decimal((d.len() - 16) as u64);
        return Err(
            budget.malformed(
                cat7(
                    "a descriptor with tag ",
                    number.as_str(),
                    " says its body is ",
                    claimed.as_str(),
                    " bytes and ",
                    there.as_str(),
                    " are there",
                ).as_str(),
            ),
        );
    }
    if crc_itu_t(slice_subrange(d, 16, 16 + body_len)) != crc {
        return Err(
            budget.malformed(
                cat3("a descriptor with tag ", number.as_str(), " fails its own CRC").as_str(),
            ),
        );
    }
    Ok(Some(ident))
}

proof fn lemma_byte_sum_bound(bytes: Seq<u8>)
    ensures
        byte_sum(bytes) <= 255 * bytes.len(),
    decreases bytes.len(),
{
    if bytes.len() > 0 {
        lemma_byte_sum_bound(bytes.drop_last());
    }
}

/// A tag as a diagnostic writes it.
pub open spec fn tag_text(tag: Option<u16>) -> Seq<char> {
    match tag {
        Some(n) => "Some("@ + text::dec(n as nat) + ")"@,
        None => "None"@,
    }
}

fn tag_words(tag: Option<u16>) -> (s: String)
    ensures
        s@ == tag_text(tag),
{
    match tag {
        Some(n) => cat3("Some(", decimal(n as u64).as_str(), ")"),
        None => "None".to_owned(),
    }
}

// ---------------------------------------------------------------------
// Allocation descriptors

/// A `long_ad`: a length, a logical block, and which partition the block is
/// in.
#[derive(Clone, Copy, PartialEq, Eq, Structural)]
pub struct LongAd {
    pub len: u32,
    pub block: u32,
    pub partition: u16,
}

/// What an allocation descriptor's top two length bits say the extent is.
#[derive(PartialEq, Eq, Clone, Copy, Structural)]
pub enum ExtentKind {
    /// Recorded and allocated: real bytes of the image.
    Recorded,
    /// Allocated but not recorded, or neither: a hole that reads as zeros.
    /// Not a range of the image, so a file holding one is refused.
    Unrecorded,
    /// The extent holds the next run of allocation descriptors, not data.
    Continuation,
}

/// What the top two bits of a length say.
pub open spec fn kind_spec(raw: u32) -> ExtentKind {
    if raw < 0x4000_0000 {
        ExtentKind::Recorded
    } else if raw >= 0xc000_0000 {
        ExtentKind::Continuation
    } else {
        ExtentKind::Unrecorded
    }
}

impl ExtentKind {
    pub fn of(raw: u32) -> (k: ExtentKind)
        ensures
            k == kind_spec(raw),
    {
        if raw < 0x4000_0000 {
            ExtentKind::Recorded
        } else if raw >= 0xc000_0000 {
            ExtentKind::Continuation
        } else {
            ExtentKind::Unrecorded
        }
    }
}

/// The `long_ad` at a place.
pub open spec fn long_ad_at(b: Seq<u8>, at: int) -> LongAd {
    LongAd {
        len: super::u32_at(b, at) as u32,
        block: super::u32_at(b, at + 4) as u32,
        partition: super::u16_at(b, at + 8) as u16,
    }
}

impl LongAd {
    /// The low 30 bits are the byte length; the top two are the extent's
    /// kind.
    pub open spec fn byte_len(&self) -> nat {
        (self.len % 0x4000_0000) as nat
    }

    pub fn parse(b: &[u8], at: usize) -> (r: Option<LongAd>)
        ensures
            match r {
                Some(ad) => at + 10 <= b@.len() && ad == long_ad_at(b@, at as int),
                None => at + 10 > b@.len(),
            },
    {
        if at > b.len() || b.len() - at < 10 {
            return None;
        }
        match (le_u32(b, at), le_u32(b, at + 4), le_u16(b, at + 8)) {
            (Some(len), Some(block), Some(partition)) => Some(LongAd { len, block, partition }),
            _ => None,
        }
    }

    pub fn bytes(&self) -> (n: u64)
        ensures
            n == self.byte_len(),
            n < 0x4000_0000,
    {
        (self.len % 0x4000_0000) as u64
    }

    pub fn kind(&self) -> (k: ExtentKind)
        ensures
            k == kind_spec(self.len),
    {
        ExtentKind::of(self.len)
    }
}

// ---------------------------------------------------------------------
// Names

/// OSTA CS0: the first byte says how the rest is encoded.
pub open spec fn cs0_spec(raw: Seq<u8>) -> Option<Seq<char>> {
    if raw.len() == 0 {
        Some(Seq::empty())
    } else if raw[0] == 8 {
        Some(text::latin1(raw.skip(1)))
    } else if raw[0] == 16 {
        Some(text::utf16_text(text::big_endian_units(raw.skip(1))))
    } else {
        None
    }
}

/// OSTA CS0: a name whose first byte says how the rest is encoded: 8 for one
/// byte per character (Latin-1), 16 for UCS-2 big-endian.
pub fn cs0_name(raw: &[u8]) -> (r: Option<String>)
    ensures
        match r {
            Some(s) => cs0_spec(raw@) == Some(s@),
            None => cs0_spec(raw@) is None,
        },
{
    if raw.len() == 0 {
        return Some(String::new());
    }
    let rest = slice_subrange(raw, 1, raw.len());
    proof {
        assert(rest@ =~= raw@.skip(1));
    }
    if raw[0] == 8 {
        Some(from_latin1(rest))
    } else if raw[0] == 16 {
        Some(from_utf16_be(rest))
    } else {
        None
    }
}

// ---------------------------------------------------------------------
// The logical volume descriptor

/// What a logical volume descriptor says that the walk needs.
pub struct LogicalView {
    pub block_size: nat,
    pub file_set: LongAd,
    /// Partition number per partition reference number, in map order.
    pub map_to_partition: Seq<u16>,
    pub revision: Option<u16>,
}

/// `*OSTA UDF Compliant`.
pub open spec fn osta_identifier() -> Seq<u8> {
    seq![
        0x2a, 0x4f, 0x53, 0x54, 0x41, 0x20, 0x55, 0x44, 0x46, 0x20, 0x43, 0x6f, 0x6d, 0x70, 0x6c,
        0x69, 0x61, 0x6e, 0x74,
    ]
}

/// The UDF revision in the domain identifier, where that is OSTA's.
pub open spec fn revision_spec(d: Seq<u8>) -> Option<u16> {
    if d.subrange(217, 236) == osta_identifier() {
        Some(super::u16_at(d, 240) as u16)
    } else {
        None
    }
}

fn revision_of(d: &[u8]) -> (r: Option<u16>)
    requires
        d@.len() >= 242,
    ensures
        r == revision_spec(d@),
{
    let osta: [u8; 19] = [
        0x2a, 0x4f, 0x53, 0x54, 0x41, 0x20, 0x55, 0x44, 0x46, 0x20, 0x43, 0x6f, 0x6d, 0x70, 0x6c,
        0x69, 0x61, 0x6e, 0x74,
    ];
    proof {
        assert(osta@ =~= osta_identifier());
    }
    let mut i: usize = 0;
    while i < 19
        invariant
            i <= 19,
            d@.len() >= 242,
            osta@ == osta_identifier(),
            forall|j: int| 0 <= j < i ==> d@[217 + j] == osta@[j],
        decreases 19 - i,
    {
        if d[217 + i] != osta[i] {
            proof {
                assert(d@.subrange(217, 236)[i as int] != osta_identifier()[i as int]);
            }
            return None;
        }
        i += 1;
    }
    proof {
        assert(d@.subrange(217, 236) =~= osta_identifier());
    }
    le_u16(d, 240)
}

/// A text without the NUL characters it ends with.
pub open spec fn trim_nuls(s: Seq<char>) -> Seq<char>
    decreases s.len(),
{
    if s.len() > 0 && s.last() == '\0' {
        trim_nuls(s.drop_last())
    } else {
        s
    }
}

/// The name in a type 2 partition map at a place, empty where the descriptor
/// ends before it does.
pub open spec fn map_name_spec(d: Seq<u8>, pos: int) -> Seq<char> {
    if pos + 36 <= d.len() {
        text::trim(trim_nuls(text::lossy_utf8(d.subrange(pos + 5, pos + 36))))
    } else {
        Seq::empty()
    }
}

fn map_name(d: &[u8], pos: usize) -> (s: String)
    requires
        pos <= d@.len(),
    ensures
        s@ == map_name_spec(d@, pos as int),
{
    if d.len() - pos < 36 {
        return String::new();
    }
    let whole = from_utf8_lossy(slice_subrange(d, pos + 5, pos + 36));
    let v = chars_of(whole.as_str());
    let mut end: usize = v.len();
    proof {
        assert(v@.subrange(0, end as int) =~= v@);
    }
    while end > 0 && v[end - 1] == '\0'
        invariant
            end <= v@.len(),
            trim_nuls(v@.subrange(0, end as int)) == trim_nuls(v@),
        decreases end,
    {
        proof {
            assert(v@.subrange(0, end as int).drop_last() =~= v@.subrange(0, end - 1));
        }
        end -= 1;
    }
    let (from, to) = trimmed_range(v.as_slice(), 0, end);
    substring(v.as_slice(), from, to)
}

/// The partition maps from `pos` on: the partition number of each.
pub open spec fn maps_from(d: Seq<u8>, pos: int, count: nat, maps: Seq<u16>) -> Result<
    Seq<u16>,
    RefusalView,
>
    decreases count,
{
    if count == 0 {
        Ok(maps)
    } else if pos + 2 > d.len() {
        Err(bad("the partition map table runs past the descriptor"@))
    } else if d[pos + 1] < 2 || pos + d[pos + 1] > d.len() {
        Err(bad("a partition map claims "@ + text::dec(d[pos + 1] as nat) + " bytes"@))
    } else if d[pos] == 1 {
        if pos + 6 > d.len() {
            Err(bad("a type 1 partition map is too short"@))
        } else {
            maps_from(
                d,
                pos + d[pos + 1],
                (count - 1) as nat,
                maps.push(super::u16_at(d, pos + 4) as u16),
            )
        }
    } else if d[pos] == 2 {
        // Every kind of it remaps blocks through another structure, so an
        // extent computed without it would be the wrong bytes of the image.
        Err(
            unread(
                "a type 2 partition map (`"@ + map_name_spec(d, pos)
                    + "`), which remaps logical blocks"@,
            ),
        )
    } else {
        Err(bad("partition map type "@ + text::dec(d[pos] as nat)))
    }
}

/// What a logical volume descriptor says.
pub open spec fn logical_spec(d: Seq<u8>) -> Result<LogicalView, RefusalView> {
    let block_size = super::u32_at(d, 212);
    if !iso9660::is_block_size(block_size) {
        Err(
            bad(
                "logical block size "@ + text::dec(block_size as nat)
                    + " is not a power of two between 512 and 65536"@,
            ),
        )
    } else {
        match maps_from(d, 440, super::u32_at(d, 268) as nat, Seq::empty()) {
            Err(e) => Err(e),
            Ok(maps) => Ok(
                LogicalView {
                    block_size: block_size as nat,
                    file_set: long_ad_at(d, 248),
                    map_to_partition: maps,
                    revision: revision_spec(d),
                },
            ),
        }
    }
}

/// The logical volume descriptor, reduced to what the walk needs.
pub struct LogicalVolume {
    pub block_size: u64,
    pub file_set: LongAd,
    pub map_to_partition: Vec<u16>,
    pub revision: Option<u16>,
}

impl View for LogicalVolume {
    type V = LogicalView;

    open spec fn view(&self) -> LogicalView {
        LogicalView {
            block_size: self.block_size as nat,
            file_set: self.file_set,
            map_to_partition: self.map_to_partition@,
            revision: self.revision,
        }
    }
}

/// The logical volume that a descriptor of one sector states.
pub fn parse_logical_volume<'a, R: ImageReader>(d: &[u8], budget: &Budget<'a, R>) -> (r: Result<
    LogicalVolume,
    Refusal,
>)
    requires
        d@.len() == SECTOR,
    ensures
        match r {
            Ok(l) => logical_spec(d@) == Ok::<LogicalView, RefusalView>(l@)
                && iso9660::is_block_size(l.block_size as int),
            Err(e) => refuses(logical_spec(d@), e@, budget.format_name()),
        },
{
    let (size, file_set, map_count) = match (
        le_u32(d, 212),
        LongAd::parse(d, 248),
        le_u32(d, 268),
    ) {
        (Some(a), Some(b), Some(c)) => (a, b, c),
        _ => {
            return Err(budget.malformed(""));
        },
    };
    let block_size: u64 = size as u64;
    if !valid_block_size(block_size) {
        let number = decimal(block_size);
        return Err(
            budget.malformed(
                cat3(
                    "logical block size ",
                    number.as_str(),
                    " is not a power of two between 512 and 65536",
                ).as_str(),
            ),
        );
    }
    let revision = revision_of(d);
    let mut map_to_partition: Vec<u16> = Vec::new();
    let mut pos: usize = 440;
    let mut left: u32 = map_count;
    while left > 0
        invariant
            d@.len() == SECTOR,
            pos <= d@.len(),
            iso9660::is_block_size(block_size as int),
            block_size == super::u32_at(d@, 212),
            maps_from(d@, 440, super::u32_at(d@, 268) as nat, Seq::empty()) == maps_from(
                d@,
                pos as int,
                left as nat,
                map_to_partition@,
            ),
        decreases left,
    {
        if d.len() - pos < 2 {
            return Err(budget.malformed("the partition map table runs past the descriptor"));
        }
        let kind: u8 = d[pos];
        let len: usize = d[pos + 1] as usize;
        if len < 2 || d.len() - pos < len {
            let claimed = decimal(len as u64);
            return Err(
                budget.malformed(
                    cat3("a partition map claims ", claimed.as_str(), " bytes").as_str(),
                ),
            );
        }
        if kind == 1 {
            match le_u16(d, pos + 4) {
                Some(number) => {
                    map_to_partition.push(number);
                },
                None => {
                    return Err(budget.malformed("a type 1 partition map is too short"));
                },
            }
        } else if kind == 2 {
            let name = map_name(d, pos);
            return Err(
                budget.unsupported(
                    cat3(
                        "a type 2 partition map (`",
                        name.as_str(),
                        "`), which remaps logical blocks",
                    ).as_str(),
                ),
            );
        } else {
            let number = decimal(kind as u64);
            return Err(
                budget.malformed(
                    crate::text::cat2("partition map type ", number.as_str()).as_str(),
                ),
            );
        }
        pos += len;
        left -= 1;
    }
    Ok(LogicalVolume { block_size, file_set, map_to_partition, revision })
}

// ---------------------------------------------------------------------
// The anchor

/// Where an anchor may be: sector 256, the last sector, and 256 before it.
pub open spec fn anchor_candidates(image_len: nat) -> Seq<nat> {
    let sectors = image_len / SECTOR as nat;
    seq![ANCHOR_SECTOR as nat] + (if sectors > 0 {
        seq![(sectors - 1) as nat]
    } else {
        Seq::empty()
    }) + (if sectors > ANCHOR_SECTOR {
        seq![(sectors - 1 - ANCHOR_SECTOR) as nat]
    } else {
        Seq::empty()
    })
}

/// What an anchor names: the length in bytes and the first sector of the
/// main volume descriptor sequence, or of the reserve one where the main one
/// is empty.
pub open spec fn anchor_extent(d: Seq<u8>) -> Result<(nat, nat), RefusalView> {
    if super::u32_at(d, 16) != 0 {
        Ok((super::u32_at(d, 16) as nat, super::u32_at(d, 20) as nat))
    } else if super::u32_at(d, 24) != 0 {
        Ok((super::u32_at(d, 24) as nat, super::u32_at(d, 28) as nat))
    } else {
        Err(bad("the UDF anchor names no volume descriptor sequence"@))
    }
}

/// What the first of the candidates that is an anchor names, and how many
/// bytes have been read once it is found.
pub open spec fn anchor_from(image: Image, candidates: Seq<nat>, used: nat) -> Result<
    ((nat, nat), nat),
    RefusalView,
>
    decreases candidates.len(),
{
    if candidates.len() == 0 {
        Err(
            RefusalView::NotAnImage {
                detail: "no UDF anchor volume descriptor pointer at sector 256"@,
            },
        )
    } else if (candidates[0] + 1) * SECTOR > image.len {
        anchor_from(image, candidates.skip(1), used)
    } else {
        match super::read_sector_spec(image, FORMAT@, used, candidates[0]) {
            Err(e) => Err(e),
            Ok(d) => match tag_spec(d) {
                Err(e) => Err(e),
                Ok(tag) => if tag != Some(TAG_ANCHOR) {
                    anchor_from(image, candidates.skip(1), used + SECTOR as nat)
                } else {
                    match anchor_extent(d) {
                        Err(e) => Err(e),
                        Ok(extent) => Ok((extent, used + SECTOR as nat)),
                    }
                },
            },
        }
    }
}

/// Find the anchor and return the main volume descriptor sequence's extent
/// as `(length in bytes, first sector)`.
pub fn find_anchor<'a, R: ImageReader>(budget: &mut Budget<'a, R>) -> (r: Result<
    (u32, u32),
    Refusal,
>)
    requires
        old(budget).well_formed(),
    ensures
        final(budget).well_formed(),
        final(budget).source() == old(budget).source(),
        final(budget).format_name() == old(budget).format_name(),
        ({
            let image = old(budget).source().image();
            let spec = anchor_from(image, anchor_candidates(image.len), old(budget).spent());
            match r {
                Ok(found) => spec == Ok::<((nat, nat), nat), RefusalView>(
                    ((found.0 as nat, found.1 as nat), final(budget).spent()),
                ),
                Err(e) => refuses(spec, e@, old(budget).format_name()) || super::read_failed(
                    &old(budget).source(),
                    e,
                ),
            }
        }),
{
    let whole: u64 = budget.image_len();
    let sectors: u64 = whole / SECTOR;
    let mut candidates: Vec<u64> = Vec::new();
    candidates.push(ANCHOR_SECTOR);
    if sectors > 0 {
        candidates.push(sectors - 1);
    }
    if sectors > ANCHOR_SECTOR {
        candidates.push(sectors - 1 - ANCHOR_SECTOR);
    }
    let ghost image = budget.source().image();
    let ghost all = candidates@.map_values(|s: u64| s as nat);
    proof {
        assert(all =~= anchor_candidates(image.len));
        assert(all.skip(0) =~= all);
    }
    let mut i: usize = 0;
    while i < candidates.len()
        invariant
            i <= candidates@.len(),
            all == candidates@.map_values(|s: u64| s as nat),
            all == anchor_candidates(image.len),
            budget.well_formed(),
            budget.source() == old(budget).source(),
            budget.format_name() == old(budget).format_name(),
            image == old(budget).source().image(),
            whole == image.len,
            forall|j: int|
                0 <= j < candidates@.len() ==> #[trigger] candidates@[j] < 0x1f_ffff_ffff_ffff,
            anchor_from(image, all, old(budget).spent()) == anchor_from(
                image,
                all.skip(i as int),
                budget.spent(),
            ),
        decreases candidates@.len() - i,
    {
        let sector: u64 = candidates[i];
        proof {
            assert(all.skip(i as int)[0] == sector as nat);
            assert(all.skip(i as int).skip(1) =~= all.skip(i + 1));
        }
        i += 1;
        if (sector + 1) * SECTOR > whole {
            continue ;
        }
        let d = match budget.read_sector(sector) {
            Ok(d) => d,
            Err(e) => {
                return Err(e);
            },
        };
        match check_tag(d.as_slice(), budget) {
            Err(e) => {
                return Err(e);
            },
            Ok(Some(tag)) if tag == TAG_ANCHOR => {},
            Ok(_) => {
                continue ;
            },
        }
        match (
            le_u32(d.as_slice(), 16),
            le_u32(d.as_slice(), 20),
            le_u32(d.as_slice(), 24),
            le_u32(d.as_slice(), 28),
        ) {
            (Some(len), Some(location), Some(reserve_len), Some(reserve)) => {
                if len != 0 {
                    return Ok((len, location));
                }
                if reserve_len != 0 {
                    return Ok((reserve_len, reserve));
                }
                return Err(
                    budget.malformed("the UDF anchor names no volume descriptor sequence"),
                );
            },
            _ => {},
        }
    }
    Err(
        Refusal::NotAnImage {
            detail: "no UDF anchor volume descriptor pointer at sector 256".to_owned(),
        },
    )
}

// ---------------------------------------------------------------------
// The volume

/// One partition, as the descriptors state it: where it starts on the
/// medium and how many logical blocks long it is.
#[derive(Clone, Copy, PartialEq, Eq, Structural)]
pub struct Partition {
    pub start: u32,
    pub blocks: u32,
}

/// What turns a logical block into an offset in the image.
pub struct VolumeView {
    pub block_size: nat,
    /// Indexed by a `long_ad`'s partition reference number.
    pub partitions: Seq<Partition>,
    pub file_set: LongAd,
    pub revision: Option<u16>,
}

/// What the volume descriptor sequence holds.
pub struct SequenceView {
    pub saw_any: bool,
    pub partitions: Seq<(u16, Partition)>,
    pub logical: Option<LogicalView>,
    pub used: nat,
}

/// The partition that a partition descriptor states, with its number.
pub open spec fn partition_at(d: Seq<u8>) -> (u16, Partition) {
    (
        super::u16_at(d, 22) as u16,
        Partition { start: super::u32_at(d, 188) as u32, blocks: super::u32_at(d, 192) as u32 },
    )
}

/// The volume descriptor sequence with `left` sectors to go, from `sector`
/// on. A terminating descriptor or a zeroed sector ends it, and so does the
/// last of its sectors, unless there are `more` of them than are read.
pub open spec fn sequence_from(
    image: Image,
    sector: nat,
    left: nat,
    more: bool,
    s: SequenceView,
) -> Result<SequenceView, RefusalView>
    decreases left,
{
    if left == 0 {
        if more {
            Err(bad("the volume descriptor sequence does not end in 64 descriptors"@))
        } else {
            Ok(s)
        }
    } else {
        match super::read_sector_spec(image, FORMAT@, s.used, sector) {
            Err(e) => Err(e),
            Ok(d) => {
                let used = s.used + SECTOR as nat;
                match tag_spec(d) {
                    Err(e) => Err(e),
                    Ok(None) => Ok(SequenceView { used, ..s }),
                    Ok(Some(ident)) => {
                        let s = SequenceView { used, saw_any: true, ..s };
                        let left = (left - 1) as nat;
                        if ident == TAG_TERMINATING {
                            Ok(s)
                        } else if ident == TAG_PARTITION {
                            sequence_from(
                                image,
                                sector + 1,
                                left,
                                more,
                                SequenceView {
                                    partitions: s.partitions.push(partition_at(d)),
                                    ..s
                                },
                            )
                        } else if ident == TAG_LOGICAL_VOLUME && s.logical is None {
                            match logical_spec(d) {
                                Err(e) => Err(e),
                                Ok(l) => sequence_from(
                                    image,
                                    sector + 1,
                                    left,
                                    more,
                                    SequenceView { logical: Some(l), ..s },
                                ),
                            }
                        } else {
                            sequence_from(image, sector + 1, left, more, s)
                        }
                    },
                }
            },
        }
    }
}

/// The first partition descriptor with a number.
pub open spec fn find_partition(partitions: Seq<(u16, Partition)>, number: u16) -> Option<Partition>
    decreases partitions.len(),
{
    if partitions.len() == 0 {
        None
    } else if partitions[0].0 == number {
        Some(partitions[0].1)
    } else {
        find_partition(partitions.skip(1), number)
    }
}

/// The partitions that the partition maps name, in map order.
pub open spec fn resolve_maps(
    maps: Seq<u16>,
    partitions: Seq<(u16, Partition)>,
    out: Seq<Partition>,
) -> Result<Seq<Partition>, RefusalView>
    decreases maps.len(),
{
    if maps.len() == 0 {
        Ok(out)
    } else {
        match find_partition(partitions, maps[0]) {
            None => Err(
                bad(
                    "a partition map names partition "@ + text::dec(maps[0] as nat)
                        + ", which has no partition descriptor"@,
                ),
            ),
            Some(p) => resolve_maps(maps.skip(1), partitions, out.push(p)),
        }
    }
}

/// How many sectors a volume descriptor sequence of `len` bytes has.
pub open spec fn all_sectors(len: nat) -> nat {
    (len + 2047) as nat / 2048
}

/// How many sectors of a volume descriptor sequence of `len` bytes are read.
pub open spec fn sequence_sectors(len: nat) -> nat {
    if all_sectors(len) < MAX_VDS_DESCRIPTORS {
        all_sectors(len)
    } else {
        MAX_VDS_DESCRIPTORS as nat
    }
}

/// Whether a volume descriptor sequence of `len` bytes has more sectors than
/// are read.
pub open spec fn has_more(len: nat) -> bool {
    all_sectors(len) > MAX_VDS_DESCRIPTORS
}

/// The volume an image states, once `used` bytes of the budget are spent,
/// and how many are then.
pub open spec fn open_spec(image: Image, used: nat) -> Result<(VolumeView, nat), RefusalView> {
    match anchor_from(image, anchor_candidates(image.len), used) {
        Err(e) => Err(e),
        Ok(((len, location), used)) => match sequence_from(
            image,
            location,
            sequence_sectors(len),
            has_more(len),
            SequenceView { saw_any: false, partitions: Seq::empty(), logical: None, used },
        ) {
            Err(e) => Err(e),
            Ok(s) => if !s.saw_any {
                Err(
                    RefusalView::NotAnImage {
                        detail: "the UDF anchor at sector 256 points at sector "@ + text::dec(
                            location,
                        ) + " where there is no volume descriptor"@,
                    },
                )
            } else {
                match s.logical {
                    None => Err(
                        bad("the volume descriptor sequence holds no logical volume descriptor"@),
                    ),
                    Some(l) => match resolve_maps(
                        l.map_to_partition,
                        s.partitions,
                        Seq::empty(),
                    ) {
                        Err(e) => Err(e),
                        Ok(partitions) => if partitions.len() == 0 {
                            Err(bad("the logical volume has no partition map"@))
                        } else {
                            Ok(
                                (
                                    VolumeView {
                                        block_size: l.block_size,
                                        partitions,
                                        file_set: l.file_set,
                                        revision: l.revision,
                                    },
                                    s.used,
                                ),
                            )
                        },
                    },
                }
            },
        },
    }
}

/// Where a partition-relative logical block sits in the image.
pub open spec fn offset_spec(v: VolumeView, partition: u16, block: u32) -> Result<
    nat,
    RefusalView,
> {
    if partition >= v.partitions.len() {
        Err(
            bad(
                "a descriptor names partition reference "@ + text::dec(partition as nat)
                    + ", and the volume has "@ + text::dec(v.partitions.len()),
            ),
        )
    } else {
        let p = v.partitions[partition as int];
        if block >= p.blocks {
            Err(
                bad(
                    "a descriptor names block "@ + text::dec(block as nat)
                        + " of a partition that is "@ + text::dec(p.blocks as nat)
                        + " blocks long"@,
                ),
            )
        } else {
            Ok(((p.start + block) * v.block_size) as nat)
        }
    }
}

/// An open volume: what the walk needs to turn a logical block into an
/// offset in the image, and the budget it reads under.
pub struct Volume<'a, R: ImageReader> {
    pub budget: Budget<'a, R>,
    pub block_size: u64,
    pub partitions: Vec<Partition>,
    /// The file set descriptor's location, as stated by the logical volume
    /// descriptor.
    pub file_set: LongAd,
    pub revision: Option<u16>,
}

fn partition_numbered(partitions: &Vec<(u16, Partition)>, number: u16) -> (r: Option<Partition>)
    ensures
        r == find_partition(partitions@, number),
{
    let mut i: usize = 0;
    proof {
        assert(partitions@.skip(0) =~= partitions@);
    }
    while i < partitions.len()
        invariant
            i <= partitions@.len(),
            find_partition(partitions@, number) == find_partition(
                partitions@.skip(i as int),
                number,
            ),
        decreases partitions@.len() - i,
    {
        proof {
            assert(partitions@.skip(i as int)[0] == partitions@[i as int]);
            assert(partitions@.skip(i as int).skip(1) =~= partitions@.skip(i + 1));
        }
        if partitions[i].0 == number {
            return Some(partitions[i].1);
        }
        i += 1;
    }
    None
}

/// What an optional logical volume says.
pub open spec fn logical_view(l: Option<LogicalVolume>) -> Option<LogicalView> {
    match l {
        Some(l) => Some(l@),
        None => None,
    }
}

/// The volume descriptor sequence, as read.
pub struct Sequence {
    pub saw_any: bool,
    pub partitions: Vec<(u16, Partition)>,
    pub logical: Option<LogicalVolume>,
}

impl Sequence {
    /// What the sequence holds once `used` bytes have been read.
    pub open spec fn model(&self, used: nat) -> SequenceView {
        SequenceView {
            saw_any: self.saw_any,
            partitions: self.partitions@,
            logical: logical_view(self.logical),
            used,
        }
    }
}

/// Read the volume descriptor sequence.
pub fn read_sequence<'a, R: ImageReader>(
    budget: &mut Budget<'a, R>,
    location: u32,
    sectors: u64,
    more: bool,
) -> (r: Result<Sequence, Refusal>)
    requires
        old(budget).well_formed(),
        sectors <= MAX_VDS_DESCRIPTORS,
    ensures
        final(budget).well_formed(),
        final(budget).source() == old(budget).source(),
        final(budget).format_name() == old(budget).format_name(),
        ({
            let spec = sequence_from(
                old(budget).source().image(),
                location as nat,
                sectors as nat,
                more,
                SequenceView {
                    saw_any: false,
                    partitions: Seq::empty(),
                    logical: None,
                    used: old(budget).spent(),
                },
            );
            match r {
                Ok(s) => spec == Ok::<SequenceView, RefusalView>(s.model(final(budget).spent()))
                    && (s.logical is Some ==> iso9660::is_block_size(
                    s.logical->0.block_size as int,
                )),
                Err(e) => refuses(spec, e@, old(budget).format_name()) || super::read_failed(
                    &old(budget).source(),
                    e,
                ),
            }
        }),
{
    let mut s = Sequence { saw_any: false, partitions: Vec::new(), logical: None };
    let ghost image = budget.source().image();
    let ghost spec = sequence_from(
        image,
        location as nat,
        sectors as nat,
                more,
        s.model(budget.spent()),
    );
    let mut ended = false;
    let mut i: u64 = 0;
    while i < sectors
        invariant_except_break
            !ended,
            spec == sequence_from(
                image,
                (location + i) as nat,
                (sectors - i) as nat,
                more,
                s.model(budget.spent()),
            ),
        invariant
            i <= sectors <= 64,
            budget.well_formed(),
            budget.format_name() == old(budget).format_name(),
            budget.source() == old(budget).source(),
            image == old(budget).source().image(),
            s.logical is Some ==> iso9660::is_block_size(s.logical->0.block_size as int),
            spec == sequence_from(
                image,
                location as nat,
                sectors as nat,
                more,
                SequenceView {
                    saw_any: false,
                    partitions: Seq::empty(),
                    logical: None,
                    used: old(budget).spent(),
                },
            ),
        ensures
            spec == (if ended {
                Ok::<SequenceView, RefusalView>(s.model(budget.spent()))
            } else {
                sequence_from(
                    image,
                    (location + sectors) as nat,
                    0,
                    more,
                    s.model(budget.spent()),
                )
            }),
        decreases sectors - i,
    {
        let sector: u64 = location as u64 + i;
        let d = match budget.read_sector(sector) {
            Ok(d) => d,
            Err(e) => {
                return Err(e);
            },
        };
        let ident: u16 = match check_tag(d.as_slice(), budget) {
            Err(e) => {
                return Err(e);
            },
            Ok(None) => {
                // A zeroed sector ends the sequence; a sequence whose stated
                // length runs past what was written is ordinary.
                ended = true;
                break ;
            },
            Ok(Some(ident)) => ident,
        };
        s.saw_any = true;
        if ident == TAG_TERMINATING {
            ended = true;
            break ;
        }
        if ident == TAG_PARTITION {
            match (
                le_u16(d.as_slice(), 22),
                le_u32(d.as_slice(), 188),
                le_u32(d.as_slice(), 192),
            ) {
                (Some(number), Some(start), Some(blocks)) => {
                    s.partitions.push((number, Partition { start, blocks }));
                },
                _ => {},
            }
        } else if ident == TAG_LOGICAL_VOLUME && s.logical.is_none() {
            match parse_logical_volume(d.as_slice(), budget) {
                Ok(l) => {
                    s.logical = Some(l);
                },
                Err(e) => {
                    return Err(e);
                },
            }
        }
        i += 1;
    }
    if !ended && more {
        return Err(
            budget.malformed("the volume descriptor sequence does not end in 64 descriptors"),
        );
    }
    Ok(s)
}

/// The partitions that the partition maps name, in map order: the maps turn
/// a `long_ad`'s partition reference number into a partition number, which
/// the partition descriptors are keyed by.
pub fn resolve_partitions<'a, R: ImageReader>(
    maps: &Vec<u16>,
    descriptors: &Vec<(u16, Partition)>,
    budget: &Budget<'a, R>,
) -> (r: Result<Vec<Partition>, Refusal>)
    ensures
        ({
            let spec = resolve_maps(maps@, descriptors@, Seq::empty());
            match r {
                Ok(p) => spec == Ok::<Seq<Partition>, RefusalView>(p@),
                Err(e) => refuses(spec, e@, budget.format_name()),
            }
        }),
{
    let mut partitions: Vec<Partition> = Vec::new();
    let mut k: usize = 0;
    proof {
        assert(maps@.skip(0) =~= maps@);
    }
    while k < maps.len()
        invariant
            k <= maps@.len(),
            resolve_maps(maps@, descriptors@, Seq::empty()) == resolve_maps(
                maps@.skip(k as int),
                descriptors@,
                partitions@,
            ),
        decreases maps@.len() - k,
    {
        let number: u16 = maps[k];
        proof {
            assert(maps@.skip(k as int)[0] == number);
            assert(maps@.skip(k as int).skip(1) =~= maps@.skip(k + 1));
        }
        match partition_numbered(descriptors, number) {
            Some(p) => {
                partitions.push(p);
            },
            None => {
                let name = decimal(number as u64);
                return Err(
                    budget.malformed(
                        cat3(
                            "a partition map names partition ",
                            name.as_str(),
                            ", which has no partition descriptor",
                        ).as_str(),
                    ),
                );
            },
        }
        k += 1;
    }
    Ok(partitions)
}

impl<'a, R: ImageReader> Volume<'a, R> {
    /// What turns a logical block into an offset in the image.
    pub open spec fn model(&self) -> VolumeView {
        VolumeView {
            block_size: self.block_size as nat,
            partitions: self.partitions@,
            file_set: self.file_set,
            revision: self.revision,
        }
    }

    /// The budget is sound and the block size is one the format allows.
    pub open spec fn well_formed(&self) -> bool {
        &&& self.budget.well_formed()
        &&& iso9660::is_block_size(self.block_size as int)
    }

    /// The same volume of the same image.
    pub open spec fn same_as(&self, other: &Self) -> bool {
        &&& self.model() == other.model()
        &&& self.budget.source() == other.budget.source()
        &&& self.budget.format_name() == other.budget.format_name()
    }

    /// The image behind the volume.
    pub open spec fn image(&self) -> Image {
        self.budget.source().image()
    }

    /// Anchor, then volume descriptor sequence, then everything the walk
    /// needs to turn a logical block into an offset in the image.
    pub fn open(budget: Budget<'a, R>) -> (r: Result<Volume<'a, R>, Refusal>)
        requires
            budget.well_formed(),
        ensures
            ({
                let spec = open_spec(budget.source().image(), budget.spent());
                match r {
                    Ok(v) => spec == Ok::<(VolumeView, nat), RefusalView>(
                        (v.model(), v.budget.spent()),
                    ) && v.well_formed() && v.budget.source() == budget.source()
                        && v.budget.format_name() == budget.format_name(),
                    Err(e) => refuses(spec, e@, budget.format_name())
                        || super::read_failed(&budget.source(), e),
                }
            }),
    {
        let mut budget = budget;
        let vds = match find_anchor(&mut budget) {
            Ok(vds) => vds,
            Err(e) => {
                return Err(e);
            },
        };
        let whole: u64 = (vds.0 as u64 + 2047) / 2048;
        let sectors: u64 = if whole < MAX_VDS_DESCRIPTORS {
            whole
        } else {
            MAX_VDS_DESCRIPTORS
        };
        let sequence = match read_sequence(
            &mut budget,
            vds.1,
            sectors,
            whole > MAX_VDS_DESCRIPTORS,
        ) {
            Ok(sequence) => sequence,
            Err(e) => {
                return Err(e);
            },
        };
        if !sequence.saw_any {
            let location = decimal(vds.1 as u64);
            return Err(
                Refusal::NotAnImage {
                    detail: cat3(
                        "the UDF anchor at sector 256 points at sector ",
                        location.as_str(),
                        " where there is no volume descriptor",
                    ),
                },
            );
        }
        let logical: LogicalVolume = match sequence.logical {
            Some(l) => l,
            None => {
                return Err(
                    budget.malformed(
                        "the volume descriptor sequence holds no logical volume descriptor",
                    ),
                );
            },
        };
        let partitions = match resolve_partitions(
            &logical.map_to_partition,
            &sequence.partitions,
            &budget,
        ) {
            Ok(partitions) => partitions,
            Err(e) => {
                return Err(e);
            },
        };
        if partitions.len() == 0 {
            return Err(budget.malformed("the logical volume has no partition map"));
        }
        Ok(
            Volume {
                budget,
                block_size: logical.block_size,
                partitions,
                file_set: logical.file_set,
                revision: logical.revision,
            },
        )
    }

    /// Where a partition-relative logical block sits in the image.
    pub fn offset_of(&self, partition: u16, block: u32) -> (r: Result<u64, Refusal>)
        requires
            self.well_formed(),
        ensures
            match r {
                Ok(n) => offset_spec(self.model(), partition, block) == Ok::<nat, RefusalView>(
                    n as nat,
                ),
                Err(e) => refuses(offset_spec(self.model(), partition, block), e@, self.budget.format_name()),
            },
    {
        let at: usize = partition as usize;
        if at >= self.partitions.len() {
            let reference = decimal(partition as u64);
            let have = decimal(self.partitions.len() as u64);
            return Err(
                self.budget.malformed(
                    crate::text::cat4(
                        "a descriptor names partition reference ",
                        reference.as_str(),
                        ", and the volume has ",
                        have.as_str(),
                    ).as_str(),
                ),
            );
        }
        let p: Partition = self.partitions[at];
        if block >= p.blocks {
            let number = decimal(block as u64);
            let blocks = decimal(p.blocks as u64);
            return Err(
                self.budget.malformed(
                    cat5(
                        "a descriptor names block ",
                        number.as_str(),
                        " of a partition that is ",
                        blocks.as_str(),
                        " blocks long",
                    ).as_str(),
                ),
            );
        }
        let absolute: u64 = p.start as u64 + block as u64;
        proof {
            assert(absolute * self.block_size <= 0x1_ffff_ffff * 65536) by (nonlinear_arith)
                requires
                    absolute <= 0x1_ffff_ffff,
                    self.block_size <= 65536,
            ;
        }
        Ok(absolute * self.block_size)
    }
}

// ---------------------------------------------------------------------
// The file set and file entries

/// The root directory's ICB, and how many bytes have been read once it is
/// known.
pub open spec fn root_spec(image: Image, v: VolumeView, used: nat) -> Result<
    (LongAd, nat),
    RefusalView,
> {
    match offset_spec(v, v.file_set.partition, v.file_set.block) {
        Err(e) => Err(e),
        Ok(offset) => match super::read_spec(image, FORMAT@, used, offset, 512) {
            Err(e) => Err(e),
            Ok(d) => match tag_spec(d) {
                Err(e) => Err(e),
                Ok(tag) => if tag != Some(TAG_FILE_SET) {
                    Err(
                        bad(
                            "the logical volume points at a descriptor with tag "@ + tag_text(tag)
                                + " where the file set descriptor should be"@,
                        ),
                    )
                } else if long_ad_at(d, 448).byte_len() != 0 {
                    Err(
                        unread(
                            "a file set descriptor sequence that continues into a second extent"@,
                        ),
                    )
                } else {
                    Ok((long_ad_at(d, 400), used + 512))
                },
            },
        },
    }
}

/// One allocation descriptor of a run: a `short_ad` of 8 bytes names a block
/// of its own partition, a `long_ad` of 16 says which.
pub open spec fn ad_at(run: Seq<u8>, pos: int, stride: nat, home: u16) -> LongAd {
    if stride == 8 {
        LongAd {
            len: super::u32_at(run, pos) as u32,
            block: super::u32_at(run, pos + 4) as u32,
            partition: home,
        }
    } else {
        long_ad_at(run, pos)
    }
}

/// The extents of a run of allocation descriptors from `pos` on, and the
/// continuation that ends it, if one does.
pub open spec fn run_from(
    v: VolumeView,
    run: Seq<u8>,
    pos: nat,
    stride: nat,
    home: u16,
    out: Seq<Extent>,
) -> Result<(Seq<Extent>, Option<LongAd>), RefusalView>
    decreases run.len() - pos,
{
    if stride == 0 || pos + stride > run.len() {
        Ok((out, None))
    } else {
        let ad = ad_at(run, pos as int, stride, home);
        let next = pos + stride;
        match kind_spec(ad.len) {
            ExtentKind::Continuation => Ok((out, Some(ad))),
            // A hole reads as zeros, and zeros are not anywhere in the
            // image.
            ExtentKind::Unrecorded => Err(
                unread("a sparse file (an extent that is allocated but not recorded)"@),
            ),
            ExtentKind::Recorded => if ad.byte_len() == 0 {
                run_from(v, run, next, stride, home, out)
            } else {
                match offset_spec(v, ad.partition, ad.block) {
                    Err(e) => Err(e),
                    Ok(offset) => {
                        let out = out.push(
                            Extent { offset: offset as u64, len: ad.byte_len() as u64 },
                        );
                        if out.len() > MAX_FILES {
                            Err(bad("a file entry has an implausible number of extents"@))
                        } else {
                            run_from(v, run, next, stride, home, out)
                        }
                    },
                }
            },
        }
    }
}

/// The next run of allocation descriptors, and how many bytes have been read
/// once it is there.
pub open spec fn continuation_spec(image: Image, v: VolumeView, next: LongAd, used: nat) -> Result<
    (Seq<u8>, nat),
    RefusalView,
> {
    match offset_spec(v, next.partition, next.block) {
        Err(e) => Err(e),
        Ok(offset) => {
            let len = if next.byte_len() < v.block_size {
                next.byte_len()
            } else {
                v.block_size
            };
            if len < 24 {
                Err(bad("an allocation extent is too short to hold a descriptor"@))
            } else {
                match super::read_spec(image, FORMAT@, used, offset, len) {
                    Err(e) => Err(e),
                    Ok(d) => match tag_spec(d) {
                        Err(e) => Err(e),
                        Ok(tag) => if tag != Some(TAG_ALLOCATION_EXTENT) {
                            Err(bad("an allocation descriptor continuation has the wrong tag"@))
                        } else if 24 + super::u32_at(d, 20) > len {
                            Err(
                                bad(
                                    "an allocation extent's descriptor length runs past its block"@,
                                ),
                            )
                        } else {
                            Ok((d.subrange(24, 24 + super::u32_at(d, 20)), used + len))
                        },
                    },
                }
            }
        },
    }
}

/// The extents of a run of allocation descriptors and of those it continues
/// in, of which `followed` have been followed so far.
pub open spec fn chain_spec(
    image: Image,
    v: VolumeView,
    run: Seq<u8>,
    stride: nat,
    home: u16,
    out: Seq<Extent>,
    followed: nat,
    used: nat,
) -> Result<(Seq<Extent>, nat), RefusalView>
    decreases MAX_AD_CONTINUATIONS + 1 - followed,
{
    match run_from(v, run, 0, stride, home, out) {
        Err(e) => Err(e),
        Ok((out, None)) => Ok((out, used)),
        Ok((out, Some(next))) => if followed + 1 > MAX_AD_CONTINUATIONS {
            Err(
                bad(
                    "a file's allocation descriptors continue through more than 64 extents"@,
                ),
            )
        } else {
            match continuation_spec(image, v, next, used) {
                Err(e) => Err(e),
                Ok((run, used)) => chain_spec(
                    image,
                    v,
                    run,
                    stride,
                    home,
                    out,
                    followed + 1,
                    used,
                ),
            }
        },
    }
}

/// What a file entry says.
pub struct EntryView {
    pub file_type: u8,
    pub info_len: nat,
    pub extents: Seq<Extent>,
}

/// What the fixed part of a file entry says: where in the block its
/// allocation descriptors start and end, and of which kind they are.
pub struct HeaderView {
    pub file_type: u8,
    pub info_len: nat,
    pub kind: int,
    pub from: int,
    pub to: int,
}

/// The fixed part of the file entry in a block: the fixed part, then the
/// extended attributes, then the allocation descriptors.
pub open spec fn header_fields(d: Seq<u8>, fixed: int) -> HeaderView {
    let from = fixed + super::u32_at(d, fixed - 8);
    HeaderView {
        file_type: d[27],
        info_len: super::u64_at(d, 56) as nat,
        kind: super::u16_at(d, 34) % 8,
        from,
        to: from + super::u32_at(d, fixed - 4),
    }
}

/// The file entry that a block holds.
pub open spec fn header_spec(d: Seq<u8>) -> Result<HeaderView, RefusalView> {
    match tag_spec(d) {
        Err(e) => Err(e),
        Ok(tag) => {
            let extended = tag == Some(TAG_EXTENDED_FILE_ENTRY);
            let h = header_fields(
                d,
                if extended {
                    216
                } else {
                    176
                },
            );
            if tag == Some(TAG_INDIRECT_ENTRY) {
                Err(unread("indirect ICB entries"@))
            } else if tag != Some(TAG_FILE_ENTRY) && !extended {
                Err(
                    bad("expected a file entry and found a descriptor with tag "@ + tag_text(tag)),
                )
            } else if super::u16_at(d, 20) != ICB_STRATEGY_DIRECT {
                Err(unread("ICB strategy type "@ + text::dec(super::u16_at(d, 20) as nat)))
            } else if h.from > usize::MAX {
                Err(bad("a file entry's attribute length overflows"@))
            } else if h.to > usize::MAX {
                Err(bad("a file entry's descriptor length overflows"@))
            } else if h.to > d.len() {
                Err(
                    bad(
                        "a file entry's allocation descriptors end at "@ + text::dec(h.to as nat)
                            + ", past its "@ + text::dec(d.len()) + "-byte block"@,
                    ),
                )
            } else {
                Ok(h)
            }
        },
    }
}

/// The extents that a file entry's block at `offset` states, by the kind of
/// its allocation descriptors.
pub open spec fn entry_extents(
    image: Image,
    v: VolumeView,
    home: u16,
    offset: nat,
    d: Seq<u8>,
    h: HeaderView,
    used: nat,
) -> Result<(Seq<Extent>, nat), RefusalView> {
    let run = d.subrange(h.from, h.to);
    if h.kind == 0 {
        chain_spec(image, v, run, 8, home, Seq::empty(), 0, used)
    } else if h.kind == 1 {
        chain_spec(image, v, run, 16, home, Seq::empty(), 0, used)
    } else if h.kind == 2 {
        Err(unread("extended allocation descriptors"@))
    } else if h.kind == 3 {
        // Inline: the file's bytes are in the file entry itself.
        Ok((seq![Extent { offset: (offset + h.from) as u64, len: (h.to - h.from) as u64 }], used))
    } else {
        Err(bad("allocation descriptor type "@ + text::dec(h.kind as nat)))
    }
}

/// The file entry that an ICB points at, and how many bytes have been read
/// once it is known.
pub open spec fn entry_spec(image: Image, v: VolumeView, icb: LongAd, used: nat) -> Result<
    (EntryView, nat),
    RefusalView,
> {
    if kind_spec(icb.len) != ExtentKind::Recorded || icb.byte_len() == 0 {
        Err(bad("an ICB points at an extent that holds nothing"@))
    } else {
        match offset_spec(v, icb.partition, icb.block) {
            Err(e) => Err(e),
            Ok(offset) => match super::read_spec(image, FORMAT@, used, offset, v.block_size) {
                Err(e) => Err(e),
                Ok(d) => match header_spec(d) {
                    Err(e) => Err(e),
                    Ok(h) => match entry_extents(
                        image,
                        v,
                        icb.partition,
                        offset,
                        d,
                        h,
                        used + v.block_size,
                    ) {
                        Err(e) => Err(e),
                        Ok((extents, used)) => Ok(
                            (
                                EntryView {
                                    file_type: h.file_type,
                                    info_len: h.info_len,
                                    extents,
                                },
                                used,
                            ),
                        ),
                    },
                },
            },
        }
    }
}

/// The fixed part of a file entry, as read.
pub struct EntryHeader {
    pub file_type: u8,
    pub info_len: u64,
    pub kind: u16,
    pub from: usize,
    pub to: usize,
}

impl View for EntryHeader {
    type V = HeaderView;

    open spec fn view(&self) -> HeaderView {
        HeaderView {
            file_type: self.file_type,
            info_len: self.info_len as nat,
            kind: self.kind as int,
            from: self.from as int,
            to: self.to as int,
        }
    }
}

/// Read the fixed part of the file entry in a block.
pub fn entry_header<'a, R: ImageReader>(b: &[u8], budget: &Budget<'a, R>) -> (r: Result<
    EntryHeader,
    Refusal,
>)
    requires
        b@.len() >= 512,
    ensures
        match r {
            Ok(h) => header_spec(b@) == Ok::<HeaderView, RefusalView>(h@) && h.from <= h.to
                <= b@.len() && h.kind < 8,
            Err(e) => refuses(header_spec(b@), e@, budget.format_name()),
        },
{
    let tag = match check_tag(b, budget) {
        Ok(tag) => tag,
        Err(e) => {
            return Err(e);
        },
    };
    let fixed: usize = match tag {
        Some(t) if t == TAG_FILE_ENTRY => 176,
        Some(t) if t == TAG_EXTENDED_FILE_ENTRY => 216,
        Some(t) if t == TAG_INDIRECT_ENTRY => {
            return Err(budget.unsupported("indirect ICB entries"));
        },
        other => {
            let found = tag_words(other);
            return Err(
                budget.malformed(
                    crate::text::cat2(
                        "expected a file entry and found a descriptor with tag ",
                        found.as_str(),
                    ).as_str(),
                ),
            );
        },
    };
    // ICB tag: 20 bytes at offset 16.
    let (strategy, flags, info_len, len_ea, len_ad) = match (
        le_u16(b, 20),
        le_u16(b, 34),
        le_u64(b, 56),
        le_u32(b, fixed - 8),
        le_u32(b, fixed - 4),
    ) {
        (Some(p), Some(q), Some(r), Some(s), Some(t)) => (p, q, r, s, t),
        _ => {
            return Err(budget.malformed(""));
        },
    };
    if strategy != ICB_STRATEGY_DIRECT {
        let number = decimal(strategy as u64);
        return Err(
            budget.unsupported(
                crate::text::cat2("ICB strategy type ", number.as_str()).as_str(),
            ),
        );
    }
    let from: usize = match fixed.checked_add(len_ea as usize) {
        Some(n) => n,
        None => {
            return Err(budget.malformed("a file entry's attribute length overflows"));
        },
    };
    let to: usize = match from.checked_add(len_ad as usize) {
        Some(n) => n,
        None => {
            return Err(budget.malformed("a file entry's descriptor length overflows"));
        },
    };
    if to > b.len() {
        let end = decimal(to as u64);
        let block = decimal(b.len() as u64);
        return Err(
            budget.malformed(
                cat5(
                    "a file entry's allocation descriptors end at ",
                    end.as_str(),
                    ", past its ",
                    block.as_str(),
                    "-byte block",
                ).as_str(),
            ),
        );
    }
    Ok(EntryHeader { file_type: b[27], info_len, kind: flags % 8, from, to })
}

/// A file entry, as read.
pub struct FileEntry {
    pub file_type: u8,
    pub info_len: u64,
    pub extents: Vec<Extent>,
}

impl View for FileEntry {
    type V = EntryView;

    open spec fn view(&self) -> EntryView {
        EntryView {
            file_type: self.file_type,
            info_len: self.info_len as nat,
            extents: self.extents@,
        }
    }
}

impl<'a, R: ImageReader> Volume<'a, R> {
    /// The file set descriptor, and the root directory's ICB in it. A file
    /// set sequence that continues elsewhere holds files this walk would not
    /// see, so it is named rather than silently halved.
    pub fn file_set_root(&mut self) -> (r: Result<LongAd, Refusal>)
        requires
            old(self).well_formed(),
        ensures
            final(self).well_formed(),
            final(self).same_as(old(self)),
            ({
                let spec = root_spec(
                    old(self).image(),
                    old(self).model(),
                    old(self).budget.spent(),
                );
                match r {
                    Ok(ad) => spec == Ok::<(LongAd, nat), RefusalView>(
                        (ad, final(self).budget.spent()),
                    ),
                    Err(e) => refuses(spec, e@, old(self).budget.format_name()) || super::read_failed(
                        &old(self).budget.source(),
                        e,
                    ),
                }
            }),
    {
        let offset: u64 = match self.offset_of(self.file_set.partition, self.file_set.block) {
            Ok(offset) => offset,
            Err(e) => {
                return Err(e);
            },
        };
        let d = match self.budget.read_exact(offset, 512) {
            Ok(d) => d,
            Err(e) => {
                return Err(e);
            },
        };
        match check_tag(d.as_slice(), &self.budget) {
            Err(e) => {
                return Err(e);
            },
            Ok(Some(tag)) if tag == TAG_FILE_SET => {},
            Ok(other) => {
                let tag = tag_words(other);
                return Err(
                    self.budget.malformed(
                        cat3(
                            "the logical volume points at a descriptor with tag ",
                            tag.as_str(),
                            " where the file set descriptor should be",
                        ).as_str(),
                    ),
                );
            },
        }
        match (LongAd::parse(d.as_slice(), 448), LongAd::parse(d.as_slice(), 400)) {
            (Some(next), Some(root)) => {
                if next.bytes() != 0 {
                    return Err(
                        self.budget.unsupported(
                            "a file set descriptor sequence that continues into a second extent",
                        ),
                    );
                }
                Ok(root)
            },
            _ => Err(self.budget.malformed("")),
        }
    }

    /// The extents of one run of allocation descriptors, put behind those of
    /// `out`, and the continuation that ends it.
    fn run_extents(&self, run: &[u8], stride: usize, home: u16, out: &mut Vec<Extent>) -> (r: Result<
        Option<LongAd>,
        Refusal,
    >)
        requires
            self.well_formed(),
            stride == 8 || stride == 16,
            run@.len() <= 65536,
        ensures
            ({
                let spec = run_from(
                    self.model(),
                    run@,
                    0,
                    stride as nat,
                    home,
                    old(out)@,
                );
                match r {
                    Ok(next) => spec == Ok::<(Seq<Extent>, Option<LongAd>), RefusalView>(
                        (final(out)@, next),
                    ),
                    Err(e) => refuses(spec, e@, self.budget.format_name()),
                }
            }),
    {
        let mut pos: usize = 0;
        let ghost spec = run_from(self.model(), run@, 0, stride as nat, home, out@);
        while pos + stride <= run.len()
            invariant
                self.well_formed(),
                stride == 8 || stride == 16,
                run@.len() <= 65536,
                pos <= run@.len(),
                spec == run_from(self.model(), run@, 0, stride as nat, home, old(out)@),
                spec == run_from(self.model(), run@, pos as nat, stride as nat, home, out@),
            decreases run@.len() - pos,
        {
            let ad: LongAd = if stride == 8 {
                match (le_u32(run, pos), le_u32(run, pos + 4)) {
                    (Some(len), Some(block)) => LongAd { len, block, partition: home },
                    _ => {
                        return Ok(None);
                    },
                }
            } else {
                match LongAd::parse(run, pos) {
                    Some(ad) => ad,
                    None => {
                        return Ok(None);
                    },
                }
            };
            pos += stride;
            match ad.kind() {
                ExtentKind::Recorded => {
                    let len: u64 = ad.bytes();
                    if len == 0 {
                        continue ;
                    }
                    match self.offset_of(ad.partition, ad.block) {
                        Ok(offset) => {
                            out.push(Extent { offset, len });
                        },
                        Err(e) => {
                            return Err(e);
                        },
                    }
                    if out.len() > MAX_FILES {
                        return Err(
                            self.budget.malformed(
                                "a file entry has an implausible number of extents",
                            ),
                        );
                    }
                },
                ExtentKind::Unrecorded => {
                    return Err(
                        self.budget.unsupported(
                            "a sparse file (an extent that is allocated but not recorded)",
                        ),
                    );
                },
                ExtentKind::Continuation => {
                    return Ok(Some(ad));
                },
            }
        }
        Ok(None)
    }

    /// Read the next run of allocation descriptors.
    fn continuation(&mut self, next: LongAd) -> (r: Result<Vec<u8>, Refusal>)
        requires
            old(self).well_formed(),
        ensures
            final(self).well_formed(),
            final(self).same_as(old(self)),
            ({
                let spec = continuation_spec(
                    old(self).image(),
                    old(self).model(),
                    next,
                    old(self).budget.spent(),
                );
                match r {
                    Ok(run) => spec == Ok::<(Seq<u8>, nat), RefusalView>(
                        (run@, final(self).budget.spent()),
                    ) && run@.len() <= 65536,
                    Err(e) => refuses(spec, e@, old(self).budget.format_name()) || super::read_failed(
                        &old(self).budget.source(),
                        e,
                    ),
                }
            }),
    {
        let offset: u64 = match self.offset_of(next.partition, next.block) {
            Ok(offset) => offset,
            Err(e) => {
                return Err(e);
            },
        };
        let claimed: u64 = next.bytes();
        let len: usize = if claimed < self.block_size {
            claimed as usize
        } else {
            self.block_size as usize
        };
        if len < 24 {
            return Err(
                self.budget.malformed("an allocation extent is too short to hold a descriptor"),
            );
        }
        let d = match self.budget.read_exact(offset, len) {
            Ok(d) => d,
            Err(e) => {
                return Err(e);
            },
        };
        match check_tag(d.as_slice(), &self.budget) {
            Err(e) => {
                return Err(e);
            },
            Ok(Some(tag)) if tag == TAG_ALLOCATION_EXTENT => {},
            Ok(_) => {
                return Err(
                    self.budget.malformed(
                        "an allocation descriptor continuation has the wrong tag",
                    ),
                );
            },
        }
        match le_u32(d.as_slice(), 20) {
            Some(l_ad) => {
                if l_ad as u64 > (len - 24) as u64 {
                    return Err(
                        self.budget.malformed(
                            "an allocation extent's descriptor length runs past its block",
                        ),
                    );
                }
                Ok(slice_to_vec(slice_subrange(d.as_slice(), 24, 24 + l_ad as usize)))
            },
            None => Err(self.budget.malformed("")),
        }
    }

    /// Turn a run of allocation descriptors into extents, following a
    /// continuation extent (an allocation extent descriptor) when the
    /// descriptors do not fit in the file entry.
    pub fn allocation_descriptors(&mut self, first: &[u8], stride: usize, home: u16) -> (r: Result<
        Vec<Extent>,
        Refusal,
    >)
        requires
            old(self).well_formed(),
            stride == 8 || stride == 16,
            first@.len() <= 65536,
        ensures
            final(self).well_formed(),
            final(self).same_as(old(self)),
            ({
                let spec = chain_spec(
                    old(self).image(),
                    old(self).model(),
                    first@,
                    stride as nat,
                    home,
                    Seq::empty(),
                    0,
                    old(self).budget.spent(),
                );
                match r {
                    Ok(out) => spec == Ok::<(Seq<Extent>, nat), RefusalView>(
                        (out@, final(self).budget.spent()),
                    ),
                    Err(e) => refuses(spec, e@, old(self).budget.format_name())
                        || super::read_failed(&old(self).budget.source(), e),
                }
            }),
    {
        let mut out: Vec<Extent> = Vec::new();
        let mut run: Vec<u8> = slice_to_vec(first);
        let mut followed: usize = 0;
        loop
            invariant
                self.well_formed(),
                self.same_as(old(self)),
                stride == 8 || stride == 16,
                run@.len() <= 65536,
                followed <= MAX_AD_CONTINUATIONS,
                chain_spec(
                    old(self).image(),
                    old(self).model(),
                    first@,
                    stride as nat,
                    home,
                    Seq::empty(),
                    0,
                    old(self).budget.spent(),
                ) == chain_spec(
                    old(self).image(),
                    old(self).model(),
                    run@,
                    stride as nat,
                    home,
                    out@,
                    followed as nat,
                    self.budget.spent(),
                ),
            decreases MAX_AD_CONTINUATIONS - followed,
        {
            let next: LongAd = match self.run_extents(run.as_slice(), stride, home, &mut out) {
                Err(e) => {
                    return Err(e);
                },
                Ok(None) => {
                    return Ok(out);
                },
                Ok(Some(next)) => next,
            };
            if followed + 1 > MAX_AD_CONTINUATIONS {
                return Err(
                    self.budget.malformed(
                        "a file's allocation descriptors continue through more than 64 extents",
                    ),
                );
            }
            run = match self.continuation(next) {
                Ok(run) => run,
                Err(e) => {
                    return Err(e);
                },
            };
            followed += 1;
        }
    }

    /// Read one ICB's file entry.
    pub fn file_entry(&mut self, icb: LongAd) -> (r: Result<FileEntry, Refusal>)
        requires
            old(self).well_formed(),
        ensures
            final(self).well_formed(),
            final(self).same_as(old(self)),
            ({
                let spec = entry_spec(
                    old(self).image(),
                    old(self).model(),
                    icb,
                    old(self).budget.spent(),
                );
                match r {
                    Ok(entry) => spec == Ok::<(EntryView, nat), RefusalView>(
                        (entry@, final(self).budget.spent()),
                    ),
                    Err(e) => refuses(spec, e@, old(self).budget.format_name())
                        || super::read_failed(&old(self).budget.source(), e),
                }
            }),
    {
        if icb.kind() != ExtentKind::Recorded || icb.bytes() == 0 {
            return Err(self.budget.malformed("an ICB points at an extent that holds nothing"));
        }
        let offset: u64 = match self.offset_of(icb.partition, icb.block) {
            Ok(offset) => offset,
            Err(e) => {
                return Err(e);
            },
        };
        let d = match self.budget.read_exact(offset, self.block_size as usize) {
            Ok(d) => d,
            Err(e) => {
                return Err(e);
            },
        };
        let h = match entry_header(d.as_slice(), &self.budget) {
            Ok(h) => h,
            Err(e) => {
                return Err(e);
            },
        };
        let run = slice_subrange(d.as_slice(), h.from, h.to);
        let extents: Vec<Extent> = if h.kind == 0 || h.kind == 1 {
            // Short allocation descriptors name blocks in this file entry's
            // own partition.
            let stride: usize = if h.kind == 0 {
                8
            } else {
                16
            };
            match self.allocation_descriptors(run, stride, icb.partition) {
                Ok(extents) => extents,
                Err(e) => {
                    return Err(e);
                },
            }
        } else if h.kind == 2 {
            return Err(self.budget.unsupported("extended allocation descriptors"));
        } else if h.kind == 3 {
            // Inline: the file's bytes are in the file entry itself, which
            // is a real range of the image and needs no descriptor at all.
            let mut inline: Vec<Extent> = Vec::new();
            let extent = Extent { offset: offset + h.from as u64, len: (h.to - h.from) as u64 };
            inline.push(extent);
            proof {
                assert(inline@ =~= seq![extent]);
            }
            inline
        } else {
            let number = decimal(h.kind as u64);
            return Err(
                self.budget.malformed(
                    crate::text::cat2("allocation descriptor type ", number.as_str()).as_str(),
                ),
            );
        };
        Ok(FileEntry { file_type: h.file_type, info_len: h.info_len, extents })
    }
}

// ---------------------------------------------------------------------
// The walk

/// The first `left` bytes of a list of extents, read one after the other
/// behind `out`, and how many bytes have been read once they are there.
pub open spec fn content_from(
    image: Image,
    extents: Seq<Extent>,
    left: nat,
    whole: nat,
    out: Seq<u8>,
    used: nat,
) -> Result<(Seq<u8>, nat), RefusalView>
    decreases extents.len(),
{
    if left == 0 {
        Ok((out, used))
    } else if extents.len() == 0 {
        Err(
            bad(
                "a directory says it is "@ + text::dec(whole) + " bytes and its extents cover "@
                    + text::dec((whole - left) as nat),
            ),
        )
    } else {
        let want: nat = if extents[0].len < left {
            extents[0].len as nat
        } else {
            left
        };
        if want > usize::MAX {
            Err(bad("a directory extent is implausibly long"@))
        } else {
            match super::read_spec(image, FORMAT@, used, extents[0].offset as nat, want) {
                Err(e) => Err(e),
                Ok(bytes) => content_from(
                    image,
                    extents.skip(1),
                    (left - want) as nat,
                    whole,
                    out + bytes,
                    used + want,
                ),
            }
        }
    }
}

/// A directory's own bytes.
pub open spec fn content_spec(image: Image, entry: EntryView, used: nat) -> Result<
    (Seq<u8>, nat),
    RefusalView,
> {
    content_from(image, entry.extents, entry.info_len, entry.info_len, Seq::empty(), used)
}

/// What a file identifier descriptor says: what its child is, where the
/// child's file entry is, its name, and how far the next descriptor is.
pub struct IdentifierView {
    pub characteristics: u8,
    pub icb: LongAd,
    pub name: Seq<u8>,
    pub advance: nat,
}

/// The file identifier descriptor that `fid` starts with, in the directory
/// at `path`. An all-zero tag is unwritten space, and none.
pub open spec fn identifier_spec(fid: Seq<u8>, path: Seq<char>) -> Result<
    Option<IdentifierView>,
    RefusalView,
> {
    match tag_spec(fid) {
        Err(e) => Err(e),
        Ok(None) => Ok(None),
        Ok(Some(tag)) => if tag != TAG_FILE_IDENTIFIER {
            Err(bad("`"@ + path + "` holds something that is not a file identifier"@))
        } else {
            let name_start = 38 + super::u16_at(fid, 36);
            let total = name_start + fid[19];
            if total > fid.len() {
                Err(
                    bad(
                        "a file identifier in `"@ + path + "` claims "@ + text::dec(total as nat)
                            + " bytes and "@ + text::dec(fid.len()) + " are left"@,
                    ),
                )
            } else {
                Ok(
                    Some(
                        IdentifierView {
                            characteristics: fid[18],
                            icb: long_ad_at(fid, 20),
                            name: fid.subrange(name_start, total),
                            // Padded to a multiple of four.
                            advance: ((total + 3) / 4 * 4) as nat,
                        },
                    ),
                )
            }
        },
    }
}

/// The path of a file identifier's child, or the refusal of its name.
pub open spec fn child_path_spec(name: Seq<u8>, path: Seq<char>) -> Result<
    Seq<char>,
    RefusalView,
> {
    match cs0_spec(name) {
        None => Err(
            bad(
                "a file identifier in `"@ + path + "` has a name this parser cannot decode"@,
            ),
        ),
        Some(name) => if iso9660::is_bad_name(name) {
            Err(bad("a file identifier's name is `"@ + name + "`"@))
        } else {
            Ok(path + "/"@ + name)
        },
    }
}

/// Where one directory's file identifiers have got to.
pub struct ScanView {
    pub children: Seq<(LongAd, Seq<char>)>,
    pub files: Seq<FileView>,
    pub used: nat,
}

/// What a child that is not a directory adds: the file, where it is a
/// regular one, cut to its stated length.
pub open spec fn add_file(
    image: Image,
    v: VolumeView,
    icb: LongAd,
    path: Seq<char>,
    s: ScanView,
) -> Result<ScanView, RefusalView> {
    match entry_spec(image, v, icb, s.used) {
        Err(e) => Err(e),
        Ok((entry, used)) => if entry.file_type != FILE_TYPE_REGULAR {
            Ok(ScanView { used, ..s })
        } else if super::total_len(entry.extents) < entry.info_len {
            Err(
                bad(
                    "`"@ + path + "` says it is "@ + text::dec(entry.info_len)
                        + " bytes and its extents cover "@ + text::dec(
                        super::total_len(entry.extents),
                    ),
                ),
            )
        } else {
            let files = s.files.push(
                FileView {
                    path,
                    len: entry.info_len,
                    extents: super::first_bytes(entry.extents, entry.info_len),
                },
            );
            if files.len() > MAX_FILES {
                Err(bad("the image holds more than 65536 files"@))
            } else {
                Ok(ScanView { used, files, ..s })
            }
        },
    }
}

/// What one file identifier adds.
pub open spec fn add_identifier(
    image: Image,
    v: VolumeView,
    id: IdentifierView,
    path: Seq<char>,
    s: ScanView,
) -> Result<ScanView, RefusalView> {
    // Bit 3 is the parent entry (`..`), bit 2 a deleted one.
    if id.characteristics & 0x08 != 0 || id.characteristics & 0x04 != 0 {
        Ok(s)
    } else {
        match child_path_spec(id.name, path) {
            Err(e) => Err(e),
            Ok(child) => if id.characteristics & 0x02 != 0 {
                Ok(ScanView { children: s.children.push((id.icb, child)), ..s })
            } else {
                add_file(image, v, id.icb, child, s)
            },
        }
    }
}

/// What the file identifiers in a directory's bytes from `pos` on add.
pub open spec fn scan_from(
    image: Image,
    v: VolumeView,
    bytes: Seq<u8>,
    pos: nat,
    path: Seq<char>,
    s: ScanView,
) -> Result<ScanView, RefusalView>
    decreases (if pos < bytes.len() { bytes.len() - pos } else { 0 }),
{
    if pos + 38 > bytes.len() {
        Ok(s)
    } else {
        match identifier_spec(bytes.skip(pos as int), path) {
            Err(e) => Err(e),
            Ok(None) => Ok(s),
            Ok(Some(id)) => match add_identifier(image, v, id, path, s) {
                Err(e) => Err(e),
                Ok(s) => if id.advance == 0 {
                    Ok(s)
                } else {
                    scan_from(image, v, bytes, pos + id.advance, path, s)
                },
            },
        }
    }
}

/// What walking one directory gathers, and how many bytes have been read
/// once it is walked. `chain` is the path of ICBs back to the root.
pub open spec fn walk_spec(
    image: Image,
    v: VolumeView,
    icb: LongAd,
    path: Seq<char>,
    depth: nat,
    chain: Seq<(u16, u32)>,
    files: Seq<FileView>,
    used: nat,
) -> Result<(Seq<FileView>, nat), RefusalView>
    decreases MAX_DEPTH + 1 - depth, 0nat,
{
    let here = (icb.partition, icb.block);
    if depth > MAX_DEPTH {
        Err(bad("the directory tree is deeper than 64 levels at `"@ + path + "`"@))
    } else if chain.contains(here) {
        Err(
            bad(
                "directory `"@ + path + "` points at block "@ + text::dec(icb.block as nat)
                    + " of partition "@ + text::dec(icb.partition as nat)
                    + ", which is already on the path from the root: a cycle"@,
            ),
        )
    } else {
        match entry_spec(image, v, icb, used) {
            Err(e) => Err(e),
            Ok((entry, used)) => if entry.file_type != FILE_TYPE_DIRECTORY {
                Err(
                    bad(
                        "`"@ + path + "` is named as a directory and its file entry says type "@
                            + text::dec(entry.file_type as nat),
                    ),
                )
            } else {
                match content_spec(image, entry, used) {
                    Err(e) => Err(e),
                    Ok((bytes, used)) => match scan_from(
                        image,
                        v,
                        bytes,
                        0,
                        path,
                        ScanView { children: Seq::empty(), files, used },
                    ) {
                        Err(e) => Err(e),
                        Ok(s) => walk_all(
                            image,
                            v,
                            s.children,
                            depth + 1,
                            chain.push(here),
                            s.files,
                            s.used,
                        ),
                    },
                }
            },
        }
    }
}

/// What walking several directories gathers, one after the other.
pub open spec fn walk_all(
    image: Image,
    v: VolumeView,
    dirs: Seq<(LongAd, Seq<char>)>,
    depth: nat,
    chain: Seq<(u16, u32)>,
    files: Seq<FileView>,
    used: nat,
) -> Result<(Seq<FileView>, nat), RefusalView>
    decreases MAX_DEPTH + 1 - depth, dirs.len() + 1,
{
    if dirs.len() == 0 {
        Ok((files, used))
    } else {
        match walk_spec(image, v, dirs[0].0, dirs[0].1, depth, chain, files, used) {
            Err(e) => Err(e),
            Ok((files, used)) => walk_all(image, v, dirs.skip(1), depth, chain, files, used),
        }
    }
}

/// What a list of ICBs and paths says.
pub open spec fn dirs_view(dirs: Seq<(LongAd, String)>) -> Seq<(LongAd, Seq<char>)> {
    dirs.map_values(|d: (LongAd, String)| (d.0, d.1@))
}

/// A file identifier descriptor, as read.
pub struct Identifier {
    pub characteristics: u8,
    pub icb: LongAd,
    pub name: Vec<u8>,
    pub advance: usize,
}

impl View for Identifier {
    type V = IdentifierView;

    open spec fn view(&self) -> IdentifierView {
        IdentifierView {
            characteristics: self.characteristics,
            icb: self.icb,
            name: self.name@,
            advance: self.advance as nat,
        }
    }
}

/// Read the file identifier descriptor that `fid` starts with.
pub fn parse_identifier<'a, R: ImageReader>(
    fid: &[u8],
    path: &str,
    budget: &Budget<'a, R>,
) -> (r: Result<Option<Identifier>, Refusal>)
    requires
        fid@.len() >= 38,
    ensures
        match r {
            Ok(None) => identifier_spec(fid@, path@) == Ok::<Option<IdentifierView>, RefusalView>(
                None,
            ),
            Ok(Some(id)) => identifier_spec(fid@, path@) == Ok::<
                Option<IdentifierView>,
                RefusalView,
            >(Some(id@)) && 38 <= id.advance <= 65_832,
            Err(e) => refuses(identifier_spec(fid@, path@), e@, budget.format_name()),
        },
{
    match check_tag(fid, budget) {
        Err(e) => {
            return Err(e);
        },
        Ok(None) => {
            return Ok(None);
        },
        Ok(Some(tag)) => {
            if tag != TAG_FILE_IDENTIFIER {
                return Err(
                    budget.malformed(
                        cat3(
                            "`",
                            path,
                            "` holds something that is not a file identifier",
                        ).as_str(),
                    ),
                );
            }
        },
    }
    let (len_iu, icb) = match (le_u16(fid, 36), LongAd::parse(fid, 20)) {
        (Some(n), Some(icb)) => (n, icb),
        _ => {
            return Ok(None);
        },
    };
    let name_start: usize = 38 + len_iu as usize;
    let total: usize = name_start + fid[19] as usize;
    if total > fid.len() {
        let claimed = decimal(total as u64);
        let left = decimal(fid.len() as u64);
        return Err(
            budget.malformed(
                cat7(
                    "a file identifier in `",
                    path,
                    "` claims ",
                    claimed.as_str(),
                    " bytes and ",
                    left.as_str(),
                    " are left",
                ).as_str(),
            ),
        );
    }
    Ok(
        Some(
            Identifier {
                characteristics: fid[18],
                icb,
                name: slice_to_vec(slice_subrange(fid, name_start, total)),
                advance: (total + 3) / 4 * 4,
            },
        ),
    )
}

/// The path of a file identifier's child.
pub fn child_path<'a, R: ImageReader>(name: &[u8], path: &str, budget: &Budget<'a, R>) -> (r: Result<
    String,
    Refusal,
>)
    ensures
        match r {
            Ok(child) => child_path_spec(name@, path@) == Ok::<Seq<char>, RefusalView>(child@),
            Err(e) => refuses(child_path_spec(name@, path@), e@, budget.format_name()),
        },
{
    let name = match cs0_name(name) {
        Some(name) => name,
        None => {
            return Err(
                budget.malformed(
                    cat3(
                        "a file identifier in `",
                        path,
                        "` has a name this parser cannot decode",
                    ).as_str(),
                ),
            );
        },
    };
    if bad_name(name.as_str()) {
        return Err(
            budget.malformed(
                cat3("a file identifier's name is `", name.as_str(), "`").as_str(),
            ),
        );
    }
    Ok(cat3(path, "/", name.as_str()))
}

impl<'a, R: ImageReader> Volume<'a, R> {
    /// A directory's own bytes, which are the only file-entry data this
    /// parser ever reads: they are an index, not content.
    pub fn read_extents(&mut self, entry: &FileEntry) -> (r: Result<Vec<u8>, Refusal>)
        requires
            old(self).well_formed(),
        ensures
            final(self).well_formed(),
            final(self).same_as(old(self)),
            ({
                let spec = content_spec(old(self).image(), entry@, old(self).budget.spent());
                match r {
                    Ok(bytes) => spec == Ok::<(Seq<u8>, nat), RefusalView>(
                        (bytes@, final(self).budget.spent()),
                    ) && bytes@.len() <= super::INDEX_READ_BUDGET,
                    Err(e) => refuses(spec, e@, old(self).budget.format_name()) || super::read_failed(
                        &old(self).budget.source(),
                        e,
                    ),
                }
            }),
    {
        let mut out: Vec<u8> = Vec::new();
        let mut left: u64 = entry.info_len;
        let ghost spec = content_spec(self.image(), entry@, self.budget.spent());
        let mut i: usize = 0;
        proof {
            assert(entry.extents@.skip(0) =~= entry.extents@);
        }
        while i < entry.extents.len() && left > 0
            invariant
                i <= entry.extents@.len(),
                left <= entry.info_len,
                self.well_formed(),
                self.same_as(old(self)),
                old(self).budget.spent() + out@.len() == self.budget.spent(),
                spec == content_spec(old(self).image(), entry@, old(self).budget.spent()),
                spec == content_from(
                    self.image(),
                    entry.extents@.skip(i as int),
                    left as nat,
                    entry.info_len as nat,
                    out@,
                    self.budget.spent(),
                ),
            decreases entry.extents@.len() - i,
        {
            let e: Extent = entry.extents[i];
            proof {
                assert(entry.extents@.skip(i as int)[0] == e);
                assert(entry.extents@.skip(i as int).skip(1) =~= entry.extents@.skip(i + 1));
            }
            let want: u64 = if e.len < left {
                e.len
            } else {
                left
            };
            if want > usize::MAX as u64 {
                return Err(self.budget.malformed("a directory extent is implausibly long"));
            }
            let bytes = match self.budget.read_exact(e.offset, want as usize) {
                Ok(bytes) => bytes,
                Err(e) => {
                    return Err(e);
                },
            };
            let ghost before = out@;
            out.extend_from_slice(bytes.as_slice());
            proof {
                assert(out@ =~= before + bytes@);
            }
            left -= want;
            i += 1;
        }
        if left != 0 {
            let whole = decimal(entry.info_len);
            let covered = decimal(entry.info_len - left);
            return Err(
                self.budget.malformed(
                    crate::text::cat4(
                        "a directory says it is ",
                        whole.as_str(),
                        " bytes and its extents cover ",
                        covered.as_str(),
                    ).as_str(),
                ),
            );
        }
        proof {
            self.budget.lemma_within_budget();
        }
        Ok(out)
    }

    /// Take in one child that is not a directory.
    fn file(
        &mut self,
        icb: LongAd,
        path: String,
        files: &mut Vec<ImageFile>,
        Ghost(children): Ghost<Seq<(LongAd, Seq<char>)>>,
    ) -> (r: Result<(), Refusal>)
        requires
            old(self).well_formed(),
        ensures
            final(self).well_formed(),
            final(self).same_as(old(self)),
            ({
                let spec = add_file(
                    old(self).image(),
                    old(self).model(),
                    icb,
                    path@,
                    ScanView {
                        children,
                        files: super::files_view(old(files)@),
                        used: old(self).budget.spent(),
                    },
                );
                match r {
                    Ok(()) => spec == Ok::<ScanView, RefusalView>(
                        ScanView {
                            children,
                            files: super::files_view(final(files)@),
                            used: final(self).budget.spent(),
                        },
                    ),
                    Err(e) => refuses(spec, e@, old(self).budget.format_name()) || super::read_failed(
                        &old(self).budget.source(),
                        e,
                    ),
                }
            }),
    {
        let child = match self.file_entry(icb) {
            Ok(child) => child,
            Err(e) => {
                return Err(e);
            },
        };
        // Anything that is not a directory and not a regular file (a
        // symbolic link, a device node, a named stream directory) is not a
        // file whose bytes a player can be handed.
        if child.file_type != FILE_TYPE_REGULAR {
            return Ok(());
        }
        let len: u64 = child.info_len;
        let mut extents = child.extents;
        let covered: u64 = trim_to_len(&mut extents, len);
        if covered < len {
            let stated = decimal(len);
            let there = decimal(covered);
            let mut detail = cat5(
                "`",
                path.as_str(),
                "` says it is ",
                stated.as_str(),
                " bytes and its extents cover ",
            );
            detail.push_str(there.as_str());
            return Err(self.budget.malformed(detail.as_str()));
        }
        let ghost before = super::files_view(files@);
        let file = ImageFile { path, len, extents };
        let ghost seen = file@;
        files.push(file);
        proof {
            assert(super::files_view(files@) =~= before.push(seen));
        }
        if files.len() > MAX_FILES {
            return Err(self.budget.malformed("the image holds more than 65536 files"));
        }
        Ok(())
    }

    /// Take in the file identifiers of one directory's bytes: its regular
    /// files, and the directories in it, in the order they stand there.
    fn identifiers(&mut self, bytes: &[u8], path: &str, files: &mut Vec<ImageFile>) -> (r: Result<
        Vec<(LongAd, String)>,
        Refusal,
    >)
        requires
            old(self).well_formed(),
            bytes@.len() <= super::INDEX_READ_BUDGET,
        ensures
            final(self).well_formed(),
            final(self).same_as(old(self)),
            ({
                let spec = scan_from(
                    old(self).image(),
                    old(self).model(),
                    bytes@,
                    0,
                    path@,
                    ScanView {
                        children: Seq::empty(),
                        files: super::files_view(old(files)@),
                        used: old(self).budget.spent(),
                    },
                );
                match r {
                    Ok(children) => spec == Ok::<ScanView, RefusalView>(
                        ScanView {
                            children: dirs_view(children@),
                            files: super::files_view(final(files)@),
                            used: final(self).budget.spent(),
                        },
                    ),
                    Err(e) => refuses(spec, e@, old(self).budget.format_name()) || super::read_failed(
                        &old(self).budget.source(),
                        e,
                    ),
                }
            }),
    {
        let mut children: Vec<(LongAd, String)> = Vec::new();
        let mut pos: usize = 0;
        let ghost spec = scan_from(
            self.image(),
            self.model(),
            bytes@,
            0,
            path@,
            ScanView {
                children: Seq::empty(),
                files: super::files_view(files@),
                used: self.budget.spent(),
            },
        );
        proof {
            assert(dirs_view(children@) =~= Seq::empty());
        }
        while pos + 38 <= bytes.len()
            invariant
                bytes@.len() <= super::INDEX_READ_BUDGET,
                pos <= super::INDEX_READ_BUDGET + 65_832,
                self.well_formed(),
                self.same_as(old(self)),
                spec == scan_from(
                    old(self).image(),
                    old(self).model(),
                    bytes@,
                    0,
                    path@,
                    ScanView {
                        children: Seq::empty(),
                        files: super::files_view(old(files)@),
                        used: old(self).budget.spent(),
                    },
                ),
                spec == scan_from(
                    self.image(),
                    self.model(),
                    bytes@,
                    pos as nat,
                    path@,
                    ScanView {
                        children: dirs_view(children@),
                        files: super::files_view(files@),
                        used: self.budget.spent(),
                    },
                ),
            decreases super::INDEX_READ_BUDGET + 65_832 - pos,
        {
            proof {
                assert(bytes@.subrange(pos as int, bytes@.len() as int) =~= bytes@.skip(
                    pos as int,
                ));
            }
            let parsed = parse_identifier(
                slice_subrange(bytes, pos, bytes.len()),
                path,
                &self.budget,
            );
            let id: Identifier = match parsed {
                Err(e) => {
                    return Err(e);
                },
                // Unwritten space at the end of the directory's last block.
                Ok(None) => {
                    return Ok(children);
                },
                Ok(Some(id)) => id,
            };
            pos += id.advance;
            if id.characteristics & 0x08 != 0 || id.characteristics & 0x04 != 0 {
                continue ;
            }
            let child = match child_path(id.name.as_slice(), path, &self.budget) {
                Ok(child) => child,
                Err(e) => {
                    return Err(e);
                },
            };
            if id.characteristics & 0x02 != 0 {
                let ghost held = dirs_view(children@);
                let ghost where_to = child@;
                children.push((id.icb, child));
                proof {
                    assert(dirs_view(children@) =~= held.push((id.icb, where_to)));
                }
                continue ;
            }
            match self.file(id.icb, child, files, Ghost(dirs_view(children@))) {
                Ok(()) => {},
                Err(e) => {
                    return Err(e);
                },
            }
        }
        Ok(children)
    }

    /// Walk a directory's file identifier descriptors, recursing into
    /// subdirectories and collecting regular files. `path_icbs` is the chain
    /// of ICBs from the root, which is what makes a directory pointing at
    /// its own ancestor a refusal instead of a loop.
    pub fn walk(
        &mut self,
        icb: &LongAd,
        path: &str,
        depth: usize,
        path_icbs: &mut Vec<(u16, u32)>,
        files: &mut Vec<ImageFile>,
    ) -> (r: Result<(), Refusal>)
        requires
            old(self).well_formed(),
        ensures
            final(self).well_formed(),
            final(self).same_as(old(self)),
            ({
                let spec = walk_spec(
                    old(self).image(),
                    old(self).model(),
                    *icb,
                    path@,
                    depth as nat,
                    old(path_icbs)@,
                    super::files_view(old(files)@),
                    old(self).budget.spent(),
                );
                match r {
                    Ok(()) => spec == Ok::<(Seq<FileView>, nat), RefusalView>(
                        (super::files_view(final(files)@), final(self).budget.spent()),
                    ) && final(path_icbs)@ == old(path_icbs)@,
                    Err(e) => refuses(spec, e@, old(self).budget.format_name())
                        || super::read_failed(&old(self).budget.source(), e),
                }
            }),
        decreases
            (if depth <= MAX_DEPTH {
                MAX_DEPTH + 1 - depth
            } else {
                0
            }),
    {
        if depth > MAX_DEPTH {
            return Err(
                self.budget.malformed(
                    cat3(
                        "the directory tree is deeper than 64 levels at `",
                        path,
                        "`",
                    ).as_str(),
                ),
            );
        }
        if on_path(path_icbs, icb) {
            let block = decimal(icb.block as u64);
            let partition = decimal(icb.partition as u64);
            return Err(
                self.budget.malformed(
                    cat7(
                        "directory `",
                        path,
                        "` points at block ",
                        block.as_str(),
                        " of partition ",
                        partition.as_str(),
                        ", which is already on the path from the root: a cycle",
                    ).as_str(),
                ),
            );
        }
        let ghost outer = path_icbs@;
        let ghost inner = outer.push((icb.partition, icb.block));
        path_icbs.push((icb.partition, icb.block));
        let entry = match self.file_entry(*icb) {
            Ok(entry) => entry,
            Err(e) => {
                return Err(e);
            },
        };
        if entry.file_type != FILE_TYPE_DIRECTORY {
            let kind = decimal(entry.file_type as u64);
            return Err(
                self.budget.malformed(
                    crate::text::cat4(
                        "`",
                        path,
                        "` is named as a directory and its file entry says type ",
                        kind.as_str(),
                    ).as_str(),
                ),
            );
        }
        let bytes = match self.read_extents(&entry) {
            Ok(bytes) => bytes,
            Err(e) => {
                return Err(e);
            },
        };
        let children = match self.identifiers(bytes.as_slice(), path, files) {
            Ok(children) => children,
            Err(e) => {
                return Err(e);
            },
        };
        let ghost dirs = dirs_view(children@);
        let ghost whole = walk_spec(
            old(self).image(),
            old(self).model(),
            *icb,
            path@,
            depth as nat,
            outer,
            super::files_view(old(files)@),
            old(self).budget.spent(),
        );
        let mut k: usize = 0;
        proof {
            assert(dirs.skip(0) =~= dirs);
        }
        while k < children.len()
            invariant
                k <= children@.len(),
                dirs == dirs_view(children@),
                depth <= MAX_DEPTH,
                self.well_formed(),
                self.same_as(old(self)),
                path_icbs@ == inner,
                whole == walk_spec(
                    old(self).image(),
                    old(self).model(),
                    *icb,
                    path@,
                    depth as nat,
                    old(path_icbs)@,
                    super::files_view(old(files)@),
                    old(self).budget.spent(),
                ),
                whole == walk_all(
                    self.image(),
                    self.model(),
                    dirs.skip(k as int),
                    (depth + 1) as nat,
                    inner,
                    super::files_view(files@),
                    self.budget.spent(),
                ),
            decreases children@.len() - k,
        {
            proof {
                assert(dirs.skip(k as int)[0] == dirs[k as int]);
                assert(dirs[k as int] == (children@[k as int].0, children@[k as int].1@));
                assert(dirs.skip(k as int).skip(1) =~= dirs.skip(k + 1));
            }
            let child = &children[k];
            match self.walk(&child.0, child.1.as_str(), depth + 1, path_icbs, files) {
                Ok(()) => {},
                Err(e) => {
                    return Err(e);
                },
            }
            k += 1;
        }
        let _ = path_icbs.pop();
        proof {
            assert(inner.drop_last() =~= outer);
            assert(path_icbs@ =~= outer);
        }
        Ok(())
    }
}

/// Whether a directory is already on the path from the root.
fn on_path(path_icbs: &Vec<(u16, u32)>, icb: &LongAd) -> (r: bool)
    ensures
        r == path_icbs@.contains((icb.partition, icb.block)),
{
    let mut i: usize = 0;
    while i < path_icbs.len()
        invariant
            i <= path_icbs@.len(),
            forall|j: int|
                0 <= j < i ==> #[trigger] path_icbs@[j] != (icb.partition, icb.block),
        decreases path_icbs@.len() - i,
    {
        let here = path_icbs[i];
        if here.0 == icb.partition && here.1 == icb.block {
            proof {
                assert(path_icbs@[i as int] == (icb.partition, icb.block));
            }
            return true;
        }
        i += 1;
    }
    false
}

// ---------------------------------------------------------------------
// The index

/// The UDF index of an image.
pub open spec fn index_spec(image: Image) -> Result<IndexView, RefusalView> {
    match open_spec(image, 0) {
        Err(e) => Err(e),
        Ok((v, used)) => match root_spec(image, v, used) {
            Err(e) => Err(e),
            Ok((root, used)) => match walk_spec(
                image,
                v,
                root,
                Seq::empty(),
                0,
                Seq::empty(),
                Seq::empty(),
                used,
            ) {
                Err(e) => Err(e),
                Ok((files, _)) => match iso9660::files_within(files, image.len) {
                    Err(detail) => Err(bad(detail)),
                    Ok(()) => Ok(
                        IndexView { format: ImageFormat::Udf { revision: v.revision }, files },
                    ),
                },
            },
        },
    }
}

/// Read the image's UDF index.
pub fn index<R: ImageReader>(reader: &R) -> (r: Result<ImageIndex, Refusal>)
    ensures
        match r {
            Ok(index) => index_spec(reader.image()) == Ok::<IndexView, RefusalView>(index@),
            Err(e) => index_spec(reader.image()) == Err::<IndexView, RefusalView>(e@)
                || super::read_failed(reader, e),
        },
{
    let budget = Budget::new(reader, FORMAT);
    let mut volume = match Volume::open(budget) {
        Ok(volume) => volume,
        Err(e) => {
            return Err(e);
        },
    };
    let root = match volume.file_set_root() {
        Ok(root) => root,
        Err(e) => {
            return Err(e);
        },
    };
    let mut files: Vec<ImageFile> = Vec::new();
    let mut path_icbs: Vec<(u16, u32)> = Vec::new();
    proof {
        reveal_strlit("");
        assert(""@ =~= Seq::empty());
        assert(super::files_view(files@) =~= Seq::empty());
    }
    match volume.walk(&root, "", 0, &mut path_icbs, &mut files) {
        Ok(()) => {},
        Err(e) => {
            return Err(e);
        },
    }
    match check_files(&files, volume.budget.image_len()) {
        Ok(()) => {},
        Err(detail) => {
            return Err(volume.budget.malformed(detail.as_str()));
        },
    }
    Ok(ImageIndex { format: ImageFormat::Udf { revision: volume.revision }, files })
}

} // verus!
